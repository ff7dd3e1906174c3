use snake_engine::common::{
    clear_input, frequency_map, is_all_same, oposite, remove_lowest_occurence, Direction, Tally,
};
use snake_engine::engine::{resample_round, EngineError, GameState, Position, MAP_WIDTH};
use snake_engine::common::Direction::{Down, Left, Right, Up};

fn pos(x: i32, y: i32) -> Position {
    Position { x, y }
}

fn with_body(direction: Direction, cells: &[(i32, i32)]) -> GameState {
    let mut state = GameState::new();
    state.snake_state.direction = direction;
    state.snake_state.positions = cells.iter().map(|&(x, y)| pos(x, y)).collect();
    state
}

fn body(state: &GameState) -> Vec<(i32, i32)> {
    state.snake_state.positions.iter().map(|p| (p.x, p.y)).collect()
}

#[test]
fn new_state_layout() {
    let state = GameState::new();
    assert!(!state.running);
    assert_eq!(body(&state), vec![(1, 0), (1, 0), (2, 0), (3, 0)]);
    assert_eq!(state.snake_state.direction, Direction::Right);
    assert!(state.fruit_positions.is_empty());
    assert_eq!(state.user_input, Tally { up: 0, down: 0, left: 0, right: 0 });
}

#[test]
fn reset_restores_layout_and_keeps_running() {
    let mut state = with_body(Direction::Up, &[(5, 5), (5, 4), (5, 3)]);
    state.running = true;
    state.fruit_positions.push(pos(7, 7));
    state.user_input.left = 3;
    state.reset();
    assert!(state.running);
    assert_eq!(body(&state), vec![(0, 0), (1, 0), (2, 0), (3, 0)]);
    assert_eq!(state.snake_state.direction, Direction::Right);
    assert!(state.fruit_positions.is_empty());
    assert_eq!(state.user_input, Tally::zero());
}

#[test]
fn tick_without_votes_moves_head_right() {
    let mut state = GameState::new();
    state.tick();
    assert!(state.running);
    assert_eq!(body(&state), vec![(1, 0), (2, 0), (3, 0), (4, 0)]);
    assert_eq!(state.snake_state.direction, Direction::Right);
}

#[test]
fn vote_for_opposite_is_suppressed() {
    let mut state = GameState::new();
    state.reset();
    assert!(state.record_vote(&"left".to_string()));
    state.update_direction();
    assert_eq!(state.snake_state.direction, Direction::Right);
    assert_eq!(state.user_input.left, 0);
    state.move_snake().unwrap();
    assert_eq!(body(&state), vec![(1, 0), (2, 0), (3, 0), (4, 0)]);
}

#[test]
fn single_vote_is_followed() {
    for d in [Direction::Up, Direction::Down, Direction::Right] {
        let mut state = GameState::new();
        state.user_input.set(d, 2);
        state.update_direction();
        assert_eq!(state.snake_state.direction, d);
    }
}

#[test]
fn opposite_never_chosen_among_several_votes() {
    for _ in 0..200 {
        let mut state = GameState::new();
        state.user_input = Tally { up: 1, down: 1, left: 4, right: 1 };
        state.update_direction();
        let d = state.snake_state.direction;
        assert_ne!(d, Direction::Left);
        assert!(state.user_input.get(d) > 0);
        assert_eq!(state.user_input.left, 0);
        assert_eq!(state.user_input.up, 1);
    }
}

#[test]
fn move_into_body_is_rejected() {
    let mut state = with_body(Direction::Right, &[(2, 0), (3, 0), (3, 1), (2, 1), (1, 1), (1, 0)]);
    let before = body(&state);
    assert_eq!(state.move_snake(), Err(EngineError::Collision));
    assert_eq!(body(&state), before);
    assert_eq!(state.snake_state.direction, Direction::Right);
}

#[test]
fn move_wraps_round_edges() {
    let last = MAP_WIDTH - 1;
    let cases = [
        (Direction::Right, (last, 4), (0, 4)),
        (Direction::Left, (0, 4), (last, 4)),
        (Direction::Up, (4, 0), (4, last)),
        (Direction::Down, (4, last), (4, 0)),
    ];
    for (d, head, expected) in cases {
        let mut state = with_body(d, &[(8, 8), (8, 9), head]);
        state.move_snake().unwrap();
        assert_eq!(*body(&state).last().unwrap(), expected);
        for p in &state.snake_state.positions {
            assert!(p.x >= 0 && p.x < MAP_WIDTH && p.y >= 0 && p.y < MAP_WIDTH);
        }
    }
}

#[test]
fn eating_fruit_grows_and_removes_it() {
    let mut state = GameState::new();
    state.reset();
    state.fruit_positions = vec![pos(9, 9), pos(4, 0), pos(5, 5)];
    state.move_snake().unwrap();
    assert_eq!(body(&state), vec![(0, 0), (1, 0), (2, 0), (3, 0), (4, 0)]);
    assert_eq!(state.fruit_positions, vec![pos(9, 9), pos(5, 5)]);
}

#[test]
fn blocked_growth_keeps_fruit() {
    let mut state = with_body(Direction::Down, &[(5, 5), (1, 0), (2, 0), (0, 0)]);
    state.fruit_positions = vec![pos(0, 1)];
    assert_eq!(state.move_snake(), Ok(()));
    assert_eq!(body(&state), vec![(1, 0), (2, 0), (0, 0), (0, 1)]);
    assert_eq!(state.fruit_positions, vec![pos(0, 1)]);
}

#[test]
fn growth_past_edge_folds_back() {
    let mut state = with_body(Direction::Right, &[(9, 9), (15, 3), (14, 3), (13, 3)]);
    state.snake_state.direction = Direction::Up;
    state.fruit_positions = vec![pos(13, 2)];
    state.move_snake().unwrap();
    assert_eq!(body(&state), vec![(0, 3), (15, 3), (14, 3), (13, 3), (13, 2)]);
    assert!(state.fruit_positions.is_empty());
}

#[test]
fn fruits_never_spawn_on_snake() {
    let mut state = GameState::new();
    state.reset();
    for _ in 0..300 {
        state.update_fruits();
    }
    assert!(!state.fruit_positions.is_empty());
    for (i, f) in state.fruit_positions.iter().enumerate() {
        assert!(f.x >= 0 && f.x < MAP_WIDTH && f.y >= 0 && f.y < MAP_WIDTH);
        assert!(!state.snake_state.positions.contains(f));
        assert!(!state.fruit_positions[i + 1..].contains(f));
    }
}

#[test]
fn place_fruit_rules() {
    let mut state = GameState::new();
    state.reset();
    assert!(!state.place_fruit(pos(2, 0)));
    assert!(!state.place_fruit(pos(16, 0)));
    assert!(!state.place_fruit(pos(0, -1)));
    assert!(state.fruit_positions.is_empty());
    assert!(state.place_fruit(pos(6, 6)));
    assert!(state.place_fruit(pos(6, 6)));
    assert_eq!(state.fruit_positions, vec![pos(6, 6)]);
}

#[test]
fn length_changes_by_at_most_one_per_tick() {
    let mut state = GameState::new();
    for i in 0..300 {
        let before = state.snake_state.positions.len();
        match i % 4 {
            0 => state.record_vote(&"up".to_string()),
            1 => state.record_vote(&"left".to_string()),
            2 => state.record_vote(&"down".to_string()),
            _ => state.record_vote(&"right".to_string()),
        };
        state.tick();
        let after = state.snake_state.positions.len();
        assert!(after == before || after == before + 1 || body(&state) == vec![(0, 0), (1, 0), (2, 0), (3, 0)]);
        assert_eq!(state.user_input, Tally::zero());
    }
}

#[test]
fn votes_are_counted_by_name() {
    let mut state = GameState::new();
    assert!(state.record_vote(&"up".to_string()));
    assert!(state.record_vote(&"up".to_string()));
    assert!(state.record_vote(&"down".to_string()));
    assert!(!state.record_vote(&"sideways".to_string()));
    assert_eq!(state.user_input, Tally { up: 2, down: 1, left: 0, right: 0 });
    state.user_input.right = usize::MAX;
    assert!(state.record_vote(&"right".to_string()));
    assert_eq!(state.user_input.right, usize::MAX);
}

#[test]
fn direction_names() {
    for d in [Direction::Up, Direction::Down, Direction::Left, Direction::Right] {
        assert_eq!(Direction::from_name(&d.name()), Some(d));
    }
    assert_eq!(Direction::Left.name(), "left");
    assert_eq!(Direction::from_name(&"down".to_string()), Some(Direction::Down));
    assert_eq!(Direction::from_name(&"Down".to_string()), None);
}

#[test]
fn opposite_directions() {
    assert_eq!(oposite(Direction::Up), Direction::Down);
    assert_eq!(oposite(Direction::Down), Direction::Up);
    assert_eq!(oposite(Direction::Left), Direction::Right);
    assert_eq!(oposite(Direction::Right), Direction::Left);
}

#[test]
fn all_same_checks() {
    assert!(!is_all_same(&vec![]));
    assert!(is_all_same(&vec![Direction::Up]));
    assert!(is_all_same(&vec![Direction::Left, Direction::Left, Direction::Left]));
    assert!(!is_all_same(&vec![Direction::Left, Direction::Left, Direction::Up]));
}

#[test]
fn frequencies_are_counted() {
    let t = frequency_map(vec![Up, Left, Up, Right, Up]);
    assert_eq!(t, Tally { up: 3, down: 0, left: 1, right: 1 });
    assert_eq!(frequency_map(vec![]), Tally::zero());
}

#[test]
fn rarest_label_is_dropped() {
    let mut v = vec![Left, Left, Up, Right, Right];
    remove_lowest_occurence(&mut v);
    assert_eq!(v, vec![Left, Left, Right, Right]);
    let mut tie = vec![Down, Up, Down, Up];
    remove_lowest_occurence(&mut tie);
    assert_eq!(tie, vec![Down, Down]);
    let mut one = vec![Right, Right];
    remove_lowest_occurence(&mut one);
    assert!(one.is_empty());
    let mut empty: Vec<Direction> = vec![];
    remove_lowest_occurence(&mut empty);
    assert!(empty.is_empty());
}

#[test]
fn resample_round_outcomes() {
    let pool = vec![Up, Down];
    assert_eq!(resample_round(&pool, &vec![0, 0, 1, 0, 1]), vec![Up, Up, Up]);
    assert_eq!(resample_round(&pool, &vec![1, 1, 1, 1, 1]), vec![Down; 5]);
    let three = vec![Left, Up, Right];
    assert_eq!(resample_round(&three, &vec![0, 1, 2, 2, 1]), vec![Up, Right, Right, Up]);
}

#[test]
fn clearing_votes() {
    let mut t = Tally { up: 1, down: 2, left: 3, right: 4 };
    clear_input(&mut t);
    assert_eq!(t, Tally::zero());
}

#[test]
fn board_shows_snake_and_fruit() {
    let mut state = GameState::new();
    state.reset();
    state.fruit_positions.push(pos(7, 2));
    state.fruit_positions.push(pos(2, 0));
    let b = state.board();
    assert_eq!(b.rows(), 16);
    assert_eq!(b.cols(), 16);
    assert_eq!(*b.get(0, 3).unwrap(), 'O');
    assert_eq!(*b.get(0, 0).unwrap(), 'o');
    assert_eq!(*b.get(0, 2).unwrap(), 'o');
    assert_eq!(*b.get(2, 7).unwrap(), 'x');
    assert_eq!(*b.get(5, 5).unwrap(), '\0');
}

#[test]
fn board_draws_repeated_fruit_once() {
    let mut state = GameState::new();
    state.fruit_positions = vec![pos(9, 9), pos(9, 9)];
    let b = state.board();
    assert_eq!(*b.get(9, 9).unwrap(), 'x');
    assert_eq!(*b.get(0, 3).unwrap(), 'O');
}

#[test]
fn spawn_fruit_follows_roll_and_cells() {
    let mut state = GameState::new();
    state.reset();
    let cells = vec![pos(1, 0), pos(20, 3), pos(5, 6), pos(7, 7)];
    state.spawn_fruit(15, &cells);
    assert!(state.fruit_positions.is_empty());
    state.spawn_fruit(99, &cells);
    assert!(state.fruit_positions.is_empty());
    state.spawn_fruit(14, &cells);
    assert_eq!(state.fruit_positions, vec![pos(5, 6)]);
    state.spawn_fruit(0, &vec![pos(5, 6)]);
    assert_eq!(state.fruit_positions, vec![pos(5, 6)]);
    state.spawn_fruit(3, &vec![pos(0, 0), pos(3, 0)]);
    assert_eq!(state.fruit_positions, vec![pos(5, 6)]);
    assert_eq!(body(&state), vec![(0, 0), (1, 0), (2, 0), (3, 0)]);
}

#[test]
fn spawn_fruit_gives_up_after_attempts() {
    let mut state = GameState::new();
    state.reset();
    let mut cells = vec![pos(0, 0); 64];
    cells.push(pos(8, 8));
    state.spawn_fruit(0, &cells);
    assert!(state.fruit_positions.is_empty());
    cells[63] = pos(8, 8);
    state.spawn_fruit(0, &cells);
    assert_eq!(state.fruit_positions, vec![pos(8, 8)]);
}

#[test]
fn colliding_tick_resets() {
    let mut state = with_body(Direction::Right, &[(2, 0), (3, 0), (3, 1), (2, 1), (1, 1), (1, 0)]);
    state.fruit_positions = vec![pos(9, 9), pos(10, 10)];
    state.user_input.left = 3;
    state.tick();
    assert_eq!(body(&state), vec![(0, 0), (1, 0), (2, 0), (3, 0)]);
    assert_eq!(state.snake_state.direction, Direction::Right);
    assert!(state.fruit_positions.len() <= 1);
    assert_eq!(state.user_input, Tally::zero());
    assert!(state.running);
}
