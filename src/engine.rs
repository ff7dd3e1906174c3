//! The game state and its transitions.
use crate::common::{
    named, Direction, Tally, oposite, opposite, is_all_same, remove_lowest_occurence, clear_input,
    occurrences, without, label_count, all_same, lowest_label,
    lemma_occurs_iff_contains, lemma_without_occurrences, lemma_all_same_labels,
};
use crate::grid::{grid_cells, grid_cols, grid_set, new_grid};
use crate::random::random_below;
use vstd::prelude::*;

verus! {

/// Width and height of the square grid.
pub const MAP_WIDTH: i32 = 16;

/// Chance, in percent, that a tick spawns a fruit.
pub const FRUIT_SPAWN_CHANCE: usize = 15;

/// How many random cells a spawn tries before it gives up for the tick.
pub const FRUIT_ATTEMPTS: usize = 64;

/// The cell of `m` at column `x` and row `y` of a grid as wide as the map.
pub open spec fn grid_at(m: simple_matrix::Matrix<char>, x: int, y: int) -> char {
    grid_cells(m)[y * MAP_WIDTH + x]
}

/// A cell of the grid.
#[derive(Clone, Copy, Debug, PartialEq, Eq, Structural)]
pub struct Position {
    pub x: i32,
    pub y: i32,
}

/// The cell lies on the grid.
pub open spec fn in_bounds(p: Position) -> bool {
    0 <= p.x < MAP_WIDTH && 0 <= p.y < MAP_WIDTH
}

/// A coordinate moved back onto the grid, wrapping round its edges.
pub open spec fn wrap(v: int) -> int {
    v % (MAP_WIDTH as int)
}

/// The cell one step from `p` towards `d`, wrapping round the grid's edges.
pub open spec fn step(p: Position, d: Direction) -> Position {
    match d {
        Direction::Up => Position { x: p.x, y: wrap(p.y - 1) as i32 },
        Direction::Down => Position { x: p.x, y: wrap(p.y + 1) as i32 },
        Direction::Left => Position { x: wrap(p.x - 1) as i32, y: p.y },
        Direction::Right => Position { x: wrap(p.x + 1) as i32, y: p.y },
    }
}

/// A coordinate brought back onto the grid by adding or taking away one width.
pub open spec fn fold(v: int) -> int {
    if v >= MAP_WIDTH {
        v - MAP_WIDTH
    } else if v < 0 {
        v + MAP_WIDTH
    } else {
        v
    }
}

/// The cell beyond `tail` on the line from `next` through `tail`.
pub open spec fn extrapolated(tail: Position, next: Position) -> Position {
    Position { x: fold(2 * tail.x - next.x) as i32, y: fold(2 * tail.y - next.y) as i32 }
}

/// A step from a cell on the grid stays on the grid; off an edge it comes
/// back in at the opposite edge.
pub proof fn lemma_step_in_bounds(p: Position, d: Direction)
    requires
        in_bounds(p),
    ensures
        in_bounds(step(p, d)),
        d == Direction::Right && p.x == MAP_WIDTH - 1 ==> step(p, d).x == 0,
        d == Direction::Left && p.x == 0 ==> step(p, d).x == MAP_WIDTH - 1,
        d == Direction::Down && p.y == MAP_WIDTH - 1 ==> step(p, d).y == 0,
        d == Direction::Up && p.y == 0 ==> step(p, d).y == MAP_WIDTH - 1,
{
}

/// The body that a new game starts with, tail first.
pub open spec fn initial_body() -> Seq<Position> {
    seq![
        Position { x: 1, y: 0 },
        Position { x: 1, y: 0 },
        Position { x: 2, y: 0 },
        Position { x: 3, y: 0 },
    ]
}

/// The body that a reset game starts with, tail first.
pub open spec fn reset_body() -> Seq<Position> {
    seq![
        Position { x: 0, y: 0 },
        Position { x: 1, y: 0 },
        Position { x: 2, y: 0 },
        Position { x: 3, y: 0 },
    ]
}

/// No cell occurs twice in `s`.
pub open spec fn distinct(s: Seq<Position>) -> bool {
    forall|i: int, j: int| 0 <= i < j < s.len() ==> s[i] != s[j]
}

/// `fruits` with `p` added, unless it is there already.
pub open spec fn with_fruit(fruits: Seq<Position>, p: Position) -> Seq<Position> {
    if fruits.contains(p) {
        fruits
    } else {
        fruits.push(p)
    }
}

/// What a move towards `d` that does not collide makes of the body and the
/// fruits: the tail cell goes and the new head is added; where the head lands
/// on a fruit and the growth cell (extrapolated behind the new tail) is free,
/// the snake also grows there and that fruit is eaten, else the fruit stays.
pub open spec fn step_outcome(
    body: Seq<Position>,
    fruits: Seq<Position>,
    d: Direction,
    new_body: Seq<Position>,
    new_fruits: Seq<Position>,
) -> bool {
    let next = step(body.last(), d);
    let moved = body.drop_first().push(next);
    let grown = extrapolated(moved[0], moved[1]);
    if !fruits.contains(next) || moved.contains(grown) {
        new_body == moved && new_fruits == fruits
    } else {
        &&& new_body == seq![grown] + moved
        &&& exists|i: int|
            0 <= i < fruits.len() && fruits[i] == next && new_fruits == fruits.remove(i)
    }
}

/// `after` is `before`, or `before` with one fruit added on a grid cell off
/// `body`.
pub open spec fn spawned(before: Seq<Position>, after: Seq<Position>, body: Seq<Position>) -> bool {
    after == before || exists|p: Position|
        in_bounds(p) && !body.contains(p) && after == with_fruit(before, p)
}

/// The first cell among `cells[i..n]` that lies on the grid off `body`.
pub open spec fn first_free(body: Seq<Position>, cells: Seq<Position>, i: int, n: int) -> Option<
    Position,
>
    decreases n - i,
{
    if i >= n {
        None
    } else if in_bounds(cells[i]) && !body.contains(cells[i]) {
        Some(cells[i])
    } else {
        first_free(body, cells, i + 1, n)
    }
}

/// A cell that `first_free` finds lies on the grid off `body`.
pub proof fn lemma_first_free(body: Seq<Position>, cells: Seq<Position>, i: int, n: int)
    requires
        0 <= i,
        n <= cells.len(),
    ensures
        first_free(body, cells, i, n) matches Some(c) ==> in_bounds(c) && !body.contains(c),
    decreases n - i,
{
    if i < n {
        lemma_first_free(body, cells, i + 1, n);
    }
}

/// `d` is the one direction of `t` with a positive count.
pub open spec fn only_positive(t: Tally, d: Direction) -> bool {
    t.count(d) > 0 && forall|e: Direction| e != d ==> t.count(e) == 0
}

/// The labels `picks` selects from `pool`, in the order of `picks`.
pub open spec fn drawn(pool: Seq<Direction>, picks: Seq<usize>) -> Seq<Direction> {
    Seq::new(picks.len(), |i: int| pool[picks[i] as int])
}

/// One round of the vote tie-break, on labels drawn at random from `pool`
/// (`picks` are the indices drawn): where the drawn labels are all the same
/// they are kept as they are, else every instance of the rarest of them is
/// dropped. The round keeps at least one label, brings in none that `pool`
/// lacks, and leaves fewer distinct labels than `pool` had unless `pool`
/// held only one.
pub fn resample_round(pool: &Vec<Direction>, picks: &Vec<usize>) -> (r: Vec<Direction>)
    requires
        pool@.len() > 0,
        picks@.len() > 0,
        forall|i: int| 0 <= i < picks@.len() ==> #[trigger] picks@[i] < pool@.len(),
    ensures
        all_same(drawn(pool@, picks@)) ==> r@ == drawn(pool@, picks@),
        !all_same(drawn(pool@, picks@)) ==> r@ == without(
            drawn(pool@, picks@),
            lowest_label(drawn(pool@, picks@)).unwrap(),
        ),
        r@.len() > 0,
        forall|d: Direction| r@.contains(d) ==> pool@.contains(d),
        !all_same(pool@) ==> label_count(r@) < label_count(pool@),
{
    let mut sample: Vec<Direction> = Vec::new();
    let mut i: usize = 0;
    while i < picks.len()
        invariant
            i <= picks@.len(),
            forall|j: int| 0 <= j < picks@.len() ==> #[trigger] picks@[j] < pool@.len(),
            sample@.len() == i,
            forall|j: int| 0 <= j < i ==> sample@[j] == pool@[#[trigger] picks@[j] as int],
        decreases picks@.len() - i,
    {
        sample.push(pool[picks[i]]);
        i = i + 1;
    }
    let ghost s = drawn(pool@, picks@);
    assert(sample@ =~= s);
    proof {
        assert forall|d: Direction| occurrences(s, d) > 0 implies occurrences(pool@, d) > 0 by {
            lemma_occurs_iff_contains(s, d);
            lemma_occurs_iff_contains(pool@, d);
            let j = choose|j: int| 0 <= j < s.len() && s[j] == d;
            assert(pool@[picks@[j] as int] == d);
        }
        lemma_all_same_labels(s);
        lemma_all_same_labels(pool@);
        assert(label_count(s) <= label_count(pool@));
    }
    if is_all_same(&sample) {
        proof {
            assert forall|d: Direction| s.contains(d) implies pool@.contains(d) by {
                lemma_occurs_iff_contains(s, d);
                lemma_occurs_iff_contains(pool@, d);
            }
        }
        sample
    } else {
        remove_lowest_occurence(&mut sample);
        proof {
            let k = lowest_label(s).unwrap();
            lemma_without_occurrences(s, k, Direction::Up);
            lemma_without_occurrences(s, k, Direction::Down);
            lemma_without_occurrences(s, k, Direction::Left);
            lemma_without_occurrences(s, k, Direction::Right);
            lemma_all_same_labels(sample@);
            assert forall|d: Direction| sample@.contains(d) implies pool@.contains(d) by {
                lemma_occurs_iff_contains(sample@, d);
                lemma_without_occurrences(s, k, d);
                lemma_occurs_iff_contains(pool@, d);
            }
            if sample@.len() == 0 {
                assert(label_count(sample@) == 0);
            }
        }
        sample
    }
}

/// Settles on one of `candidates` by rounds of `resample_round` on random
/// draws, until the labels left are all the same; their first is returned.
/// Where `candidates` are all the same already, no round is played.
fn settle_vote(candidates: Vec<Direction>) -> (r: Direction)
    requires
        candidates@.len() > 0,
    ensures
        candidates@.contains(r),
        all_same(candidates@) ==> r == candidates@[0],
{
    let mut directions = candidates;
    loop
        invariant
            directions@.len() > 0,
            forall|d: Direction| directions@.contains(d) ==> candidates@.contains(d),
            all_same(candidates@) ==> directions@ == candidates@,
        decreases label_count(directions@),
    {
        if is_all_same(&directions) {
            break;
        }
        let mut picks: Vec<usize> = Vec::new();
        let mut i: usize = 0;
        while i < 5
            invariant
                i <= 5,
                directions@.len() > 0,
                picks@.len() == i,
                forall|j: int| 0 <= j < i ==> #[trigger] picks@[j] < directions@.len(),
            decreases 5 - i,
        {
            picks.push(random_below(directions.len()));
            i = i + 1;
        }
        directions = resample_round(&directions, &picks);
    }
    assert(directions@.contains(directions@[0]));
    directions[0]
}

/// The directions with a positive count in `votes`, in the order up, down,
/// left, right.
fn voted_directions(votes: &Tally) -> (r: Vec<Direction>)
    ensures
        forall|d: Direction| r@.contains(d) <==> votes.count(d) > 0,
        forall|d: Direction| only_positive(*votes, d) ==> r@ == seq![d],
{
    let mut r: Vec<Direction> = Vec::new();
    if votes.up > 0 {
        r.push(Direction::Up);
    }
    if votes.down > 0 {
        r.push(Direction::Down);
    }
    if votes.left > 0 {
        r.push(Direction::Left);
    }
    if votes.right > 0 {
        r.push(Direction::Right);
    }
    proof {
        assert forall|d: Direction| r@.contains(d) implies votes.count(d) > 0 by {
            let i = choose|i: int| 0 <= i < r@.len() && r@[i] == d;
        }
        assert forall|d: Direction| votes.count(d) > 0 implies r@.contains(d) by {
            let i: int = match d {
                Direction::Up => 0,
                Direction::Down => if votes.up > 0 { 1 } else { 0 },
                Direction::Left => (if votes.up > 0 { 1int } else { 0 }) + (if votes.down > 0 { 1int } else { 0 }),
                Direction::Right => r@.len() - 1,
            };
            assert(r@[i] == d);
        }
        assert forall|d: Direction| only_positive(*votes, d) implies r@ == seq![d] by {
            assert(votes.count(Direction::Up) == 0 || d == Direction::Up);
            assert(votes.count(Direction::Down) == 0 || d == Direction::Down);
            assert(votes.count(Direction::Left) == 0 || d == Direction::Left);
            assert(votes.count(Direction::Right) == 0 || d == Direction::Right);
            assert(r@ =~= seq![d]);
        }
    }
    r
}

/// The snake: where it travels and the cells it covers, tail first, head last.
#[derive(Clone, Debug)]
pub struct SnakeState {
    pub direction: Direction,
    pub positions: Vec<Position>,
}

/// The error of a move or a growth onto a cell the snake covers.
#[derive(Clone, Copy, Debug, PartialEq, Eq, Structural)]
pub enum EngineError {
    Collision,
}

/// The whole world of the game.
#[derive(Clone, Debug)]
pub struct GameState {
    pub running: bool,
    pub snake_state: SnakeState,
    pub fruit_positions: Vec<Position>,
    pub user_input: Tally,
}

impl GameState {
    /// The snake has a head and a cell behind it, every cell of it and every
    /// fruit lies on the grid, and no fruit is listed twice.
    pub open spec fn wf(&self) -> bool {
        &&& self.snake_state.positions@.len() >= 2
        &&& forall|i: int|
            0 <= i < self.snake_state.positions@.len() ==> in_bounds(
                #[trigger] self.snake_state.positions@[i],
            )
        &&& forall|i: int|
            0 <= i < self.fruit_positions@.len() ==> in_bounds(#[trigger] self.fruit_positions@[i])
        &&& distinct(self.fruit_positions@)
    }

    /// The cells the snake covers.
    pub open spec fn body(&self) -> Seq<Position> {
        self.snake_state.positions@
    }

    /// The cell the snake's head is on.
    pub open spec fn head(&self) -> Position {
        self.snake_state.positions@.last()
    }

    /// A game that has not started: a snake of four cells on the top row
    /// heading right, no fruit, no votes.
    pub fn new() -> (r: GameState)
        ensures
            r.wf(),
            !r.running,
            r.body() == initial_body(),
            r.snake_state.direction == Direction::Right,
            r.fruit_positions@.len() == 0,
            forall|d: Direction| r.user_input.count(d) == 0,
    {
        let positions = vec![
            Position { x: 1, y: 0 },
            Position { x: 1, y: 0 },
            Position { x: 2, y: 0 },
            Position { x: 3, y: 0 },
        ];
        let r = GameState {
            running: false,
            snake_state: SnakeState { direction: Direction::Right, positions },
            fruit_positions: Vec::new(),
            user_input: Tally::zero(),
        };
        assert(r.body() =~= initial_body());
        r
    }

    /// Puts the game back to its starting layout; `running` is kept.
    pub fn reset(&mut self)
        ensures
            final(self).wf(),
            final(self).running == old(self).running,
            final(self).body() == reset_body(),
            final(self).snake_state.direction == Direction::Right,
            final(self).fruit_positions@.len() == 0,
            forall|d: Direction| final(self).user_input.count(d) == 0,
    {
        self.snake_state.direction = Direction::Right;
        self.snake_state.positions = vec![
            Position { x: 0, y: 0 },
            Position { x: 1, y: 0 },
            Position { x: 2, y: 0 },
            Position { x: 3, y: 0 },
        ];
        self.fruit_positions = Vec::new();
        self.user_input = Tally::zero();
        assert(self.body() =~= reset_body());
    }

    /// Fails with `Collision` exactly when the snake covers `pos`.
    pub fn verify_collision(&self, pos: Position) -> (r: Result<(), EngineError>)
        ensures
            r is Err <==> self.body().contains(pos),
    {
        let mut i: usize = 0;
        while i < self.snake_state.positions.len()
            invariant
                i <= self.body().len(),
                forall|j: int| 0 <= j < i ==> self.body()[j] != pos,
            decreases self.body().len() - i,
        {
            if self.snake_state.positions[i] == pos {
                return Err(EngineError::Collision);
            }
            i = i + 1;
        }
        Ok(())
    }

    /// The cell the head moves to on the next step.
    pub open spec fn next_head(&self) -> Position {
        step(self.head(), self.snake_state.direction)
    }

    /// The body after one step without growth: tail dropped, new head added.
    pub open spec fn moved(&self) -> Seq<Position> {
        self.body().drop_first().push(self.next_head())
    }

    /// The cell that growth adds behind the tail.
    pub open spec fn growth_cell(&self) -> Position {
        extrapolated(self.body()[0], self.body()[1])
    }

    /// Extends the snake by one cell behind its tail, on the line through its
    /// two tail-most cells; fails with `Collision`, changing nothing, where
    /// the snake covers that cell.
    fn enlarge_snake(&mut self) -> (r: Result<(), EngineError>)
        requires
            old(self).wf(),
        ensures
            r is Err <==> old(self).body().contains(old(self).growth_cell()),
            r is Err ==> *final(self) == *old(self),
            r is Ok ==> final(self).body() == seq![old(self).growth_cell()] + old(self).body(),
            final(self).running == old(self).running,
            final(self).snake_state.direction == old(self).snake_state.direction,
            final(self).fruit_positions == old(self).fruit_positions,
            final(self).user_input == old(self).user_input,
            final(self).wf(),
    {
        let last = self.snake_state.positions[0];
        let last_by_one = self.snake_state.positions[1];
        assert(in_bounds(self.body()[0]) && in_bounds(self.body()[1]));
        let mut x = last.x + (last.x - last_by_one.x);
        let mut y = last.y + (last.y - last_by_one.y);
        if x >= MAP_WIDTH {
            x = x - MAP_WIDTH;
        } else if x < 0 {
            x = x + MAP_WIDTH;
        }
        if y >= MAP_WIDTH {
            y = y - MAP_WIDTH;
        } else if y < 0 {
            y = y + MAP_WIDTH;
        }
        let enlarged = Position { x, y };
        assert(enlarged == self.growth_cell());
        match self.verify_collision(enlarged) {
            Ok(()) => {
                let ghost before = self.body();
                self.snake_state.positions.insert(0, enlarged);
                assert(self.body() =~= seq![enlarged] + before);
                Ok(())
            },
            Err(e) => Err(e),
        }
    }

    /// Advances the head one cell along the current direction, wrapping round
    /// the grid. Fails with `Collision`, changing nothing, where the snake
    /// covers that cell (its tail included). Otherwise the tail cell goes; if
    /// the head lands on a fruit and the snake can grow there (see
    /// `growth_cell`), it grows by one and the fruit is eaten, else the fruit
    /// stays.
    pub fn move_snake(&mut self) -> (r: Result<(), EngineError>)
        requires
            old(self).wf(),
        ensures
            r is Err <==> old(self).body().contains(old(self).next_head()),
            r is Err ==> *final(self) == *old(self),
            final(self).wf(),
            final(self).running == old(self).running,
            final(self).snake_state.direction == old(self).snake_state.direction,
            final(self).user_input == old(self).user_input,
            r is Ok ==> step_outcome(
                old(self).body(),
                old(self).fruit_positions@,
                old(self).snake_state.direction,
                final(self).body(),
                final(self).fruit_positions@,
            ),
    {
        let n = self.snake_state.positions.len();
        let head = self.snake_state.positions[n - 1];
        assert(in_bounds(self.body()[n - 1]));
        let mut x = head.x;
        let mut y = head.y;
        match self.snake_state.direction {
            Direction::Up => {
                y = if y == 0 { MAP_WIDTH - 1 } else { y - 1 };
            },
            Direction::Down => {
                y = if y == MAP_WIDTH - 1 { 0 } else { y + 1 };
            },
            Direction::Left => {
                x = if x == 0 { MAP_WIDTH - 1 } else { x - 1 };
            },
            Direction::Right => {
                x = if x == MAP_WIDTH - 1 { 0 } else { x + 1 };
            },
        }
        let next_position = Position { x, y };
        assert(next_position == self.next_head());
        if let Err(e) = self.verify_collision(next_position) {
            return Err(e);
        }
        let ghost before = *self;
        self.snake_state.positions.push(next_position);
        self.snake_state.positions.remove(0);
        assert(self.body() =~= before.moved());
        assert(self.wf()) by {
            assert forall|i: int| 0 <= i < self.body().len() implies in_bounds(
                #[trigger] self.body()[i],
            ) by {
                if i < self.body().len() - 1 {
                    assert(self.body()[i] == before.body()[i + 1]);
                }
            }
        }
        let mut k: usize = 0;
        while k < self.fruit_positions.len()
            invariant
                k <= self.fruit_positions@.len(),
                forall|j: int| 0 <= j < k ==> self.fruit_positions@[j] != next_position,
            ensures
                k <= self.fruit_positions@.len(),
                forall|j: int| 0 <= j < k ==> self.fruit_positions@[j] != next_position,
                k < self.fruit_positions@.len() ==> self.fruit_positions@[k as int] == next_position,
            decreases self.fruit_positions@.len() - k,
        {
            if self.fruit_positions[k] == next_position {
                break;
            }
            k = k + 1;
        }
        if k < self.fruit_positions.len() {
            if let Ok(()) = self.enlarge_snake() {
                let ghost fruits = self.fruit_positions@;
                self.fruit_positions.remove(k);
                assert(distinct(self.fruit_positions@)) by {
                    assert forall|i: int, j: int|
                        0 <= i < j < self.fruit_positions@.len() implies self.fruit_positions@[i]
                        != self.fruit_positions@[j] by {
                        let ii = if i < k { i } else { i + 1 };
                        let jj = if j < k { j } else { j + 1 };
                        assert(self.fruit_positions@[i] == fruits[ii]);
                        assert(self.fruit_positions@[j] == fruits[jj]);
                    }
                }
                assert(self.fruit_positions@ =~= fruits.remove(k as int));
            }
        } else {
            assert(!self.fruit_positions@.contains(next_position));
        }
        assert(before.fruit_positions@.contains(next_position) <==> k < before.fruit_positions@.len());
        Ok(())
    }

    /// Chooses the direction of the next move from the votes: votes for the
    /// way back are zeroed first; with no vote left the direction stays,
    /// else it becomes a direction that still has votes (see `settle_vote`).
    pub fn update_direction(&mut self)
        ensures
            final(self).user_input.count(opposite(old(self).snake_state.direction)) == 0,
            forall|e: Direction|
                e != opposite(old(self).snake_state.direction) ==> final(self).user_input.count(e)
                    == old(self).user_input.count(e),
            final(self).snake_state.positions == old(self).snake_state.positions,
            final(self).fruit_positions == old(self).fruit_positions,
            final(self).running == old(self).running,
            final(self).snake_state.direction != opposite(old(self).snake_state.direction),
            (forall|d: Direction| final(self).user_input.count(d) == 0)
                ==> final(self).snake_state.direction == old(self).snake_state.direction,
            (exists|d: Direction| final(self).user_input.count(d) > 0)
                ==> final(self).user_input.count(final(self).snake_state.direction) > 0,
            forall|d: Direction|
                d != opposite(old(self).snake_state.direction) && only_positive(old(self).user_input, d)
                    ==> final(self).snake_state.direction == d,
            old(self).wf() ==> final(self).wf(),
    {
        let op = oposite(self.snake_state.direction);
        self.user_input.set(op, 0);
        let directions = voted_directions(&self.user_input);
        if directions.len() == 0 {
            assert forall|d: Direction| self.user_input.count(d) == 0 by {
                if self.user_input.count(d) > 0 {
                    assert(directions@.contains(d));
                }
            }
            return;
        }
        let ghost cands = directions@;
        proof {
            assert forall|d: Direction|
                d != opposite(old(self).snake_state.direction) && only_positive(old(self).user_input, d)
                implies cands == seq![d] by {
                assert(only_positive(self.user_input, d));
            }
        }
        let chosen = settle_vote(directions);
        assert(self.user_input.count(chosen) > 0);
        self.snake_state.direction = chosen;
    }

    /// Adds `candidate` to the fruits where it lies on the grid and the snake
    /// does not cover it (a fruit already there is not listed twice), and
    /// says whether it did.
    pub fn place_fruit(&mut self, candidate: Position) -> (r: bool)
        requires
            old(self).wf(),
        ensures
            r == (in_bounds(candidate) && !old(self).body().contains(candidate)),
            r ==> final(self).fruit_positions@ == with_fruit(old(self).fruit_positions@, candidate),
            !r ==> *final(self) == *old(self),
            final(self).snake_state.positions == old(self).snake_state.positions,
            final(self).snake_state.direction == old(self).snake_state.direction,
            final(self).running == old(self).running,
            final(self).user_input == old(self).user_input,
            final(self).wf(),
    {
        if candidate.x < 0 || candidate.x >= MAP_WIDTH || candidate.y < 0 || candidate.y >= MAP_WIDTH {
            return false;
        }
        if let Err(_) = self.verify_collision(candidate) {
            return false;
        }
        let mut i: usize = 0;
        while i < self.fruit_positions.len()
            invariant
                i <= self.fruit_positions@.len(),
                forall|j: int| 0 <= j < i ==> self.fruit_positions@[j] != candidate,
                *self == *old(self),
                self.wf(),
                in_bounds(candidate),
                !self.body().contains(candidate),
            decreases self.fruit_positions@.len() - i,
        {
            if self.fruit_positions[i] == candidate {
                assert(self.fruit_positions@.contains(candidate));
                return true;
            }
            i = i + 1;
        }
        let ghost fruits = self.fruit_positions@;
        assert(!fruits.contains(candidate));
        self.fruit_positions.push(candidate);
        assert(self.fruit_positions@ == fruits.push(candidate));
        assert(forall|j: int| 0 <= j < fruits.len() ==> #[trigger] fruits[j] != candidate);
        true
    }

    /// Spawns a fruit for a spawn roll `roll` (out of 100) and drawn `cells`:
    /// below `FRUIT_SPAWN_CHANCE` the first of the first `FRUIT_ATTEMPTS`
    /// cells that lies on the grid off the snake becomes a fruit; otherwise,
    /// or where no such cell is among them, nothing changes.
    pub fn spawn_fruit(&mut self, roll: usize, cells: &Vec<Position>)
        requires
            old(self).wf(),
        ensures
            roll >= FRUIT_SPAWN_CHANCE ==> *final(self) == *old(self),
            roll < FRUIT_SPAWN_CHANCE ==> match first_free(
                old(self).body(),
                cells@,
                0,
                if cells@.len() < FRUIT_ATTEMPTS { cells@.len() as int } else { FRUIT_ATTEMPTS as int },
            ) {
                Some(c) => final(self).fruit_positions@ == with_fruit(old(self).fruit_positions@, c),
                None => *final(self) == *old(self),
            },
            final(self).snake_state.positions == old(self).snake_state.positions,
            final(self).snake_state.direction == old(self).snake_state.direction,
            final(self).running == old(self).running,
            final(self).user_input == old(self).user_input,
            final(self).wf(),
    {
        if roll >= FRUIT_SPAWN_CHANCE {
            return;
        }
        let n: usize = if cells.len() < FRUIT_ATTEMPTS { cells.len() } else { FRUIT_ATTEMPTS };
        let ghost start = *self;
        let mut i: usize = 0;
        while i < n
            invariant
                i <= n <= cells@.len(),
                n as int == if cells@.len() < FRUIT_ATTEMPTS { cells@.len() as int } else { FRUIT_ATTEMPTS as int },
                roll < FRUIT_SPAWN_CHANCE,
                *self == start,
                start == *old(self),
                start.wf(),
                first_free(start.body(), cells@, 0, n as int) == first_free(
                    start.body(),
                    cells@,
                    i as int,
                    n as int,
                ),
            decreases n - i,
        {
            if self.place_fruit(cells[i]) {
                return;
            }
            i = i + 1;
        }
    }

    /// Rolls for a spawn with a chance of `FRUIT_SPAWN_CHANCE` percent and,
    /// on success, draws `FRUIT_ATTEMPTS` random cells for `spawn_fruit`.
    pub fn update_fruits(&mut self)
        requires
            old(self).wf(),
        ensures
            final(self).wf(),
            final(self).snake_state.positions == old(self).snake_state.positions,
            final(self).snake_state.direction == old(self).snake_state.direction,
            final(self).running == old(self).running,
            final(self).user_input == old(self).user_input,
            spawned(old(self).fruit_positions@, final(self).fruit_positions@, old(self).body()),
            forall|p: Position|
                final(self).fruit_positions@.contains(p) && !old(self).fruit_positions@.contains(p)
                    ==> !final(self).body().contains(p),
    {
        let roll = random_below(100);
        let mut cells: Vec<Position> = Vec::new();
        if roll < FRUIT_SPAWN_CHANCE {
            let mut i: usize = 0;
            while i < FRUIT_ATTEMPTS
                invariant
                    i <= FRUIT_ATTEMPTS,
                decreases FRUIT_ATTEMPTS - i,
            {
                let x = random_below(MAP_WIDTH as usize) as i32;
                let y = random_below(MAP_WIDTH as usize) as i32;
                cells.push(Position { x, y });
                i = i + 1;
            }
        }
        let ghost start = *self;
        self.spawn_fruit(roll, &cells);
        proof {
            let n = if cells@.len() < FRUIT_ATTEMPTS { cells@.len() as int } else { FRUIT_ATTEMPTS as int };
            lemma_first_free(start.body(), cells@, 0, n);
            if let Some(c) = first_free(start.body(), cells@, 0, n) {
                assert forall|p: Position|
                    self.fruit_positions@.contains(p) && !start.fruit_positions@.contains(p)
                    implies !self.body().contains(p) by {
                    if p != c {
                        let j = choose|j: int| 0 <= j < self.fruit_positions@.len() && self.fruit_positions@[j] == p;
                        assert(start.fruit_positions@[j] == p);
                    }
                }
            }
        }
    }

    /// What one tick can make of `before`, for a direction `d` that the
    /// votes chose and the fruits `mid` that the move left: `d` is never the
    /// way back, and is the old direction or one with votes; a move towards
    /// `d` into the body resets the game, any other move goes as
    /// `step_outcome` says; after either a fruit may spawn off the body.
    pub open spec fn tick_outcome(before: GameState, after: GameState, d: Direction, mid: Seq<Position>) -> bool {
        let collides = before.body().contains(step(before.head(), d));
        &&& d != opposite(before.snake_state.direction)
        &&& (d == before.snake_state.direction || before.user_input.count(d) > 0)
        &&& collides ==> {
            &&& after.body() == reset_body()
            &&& after.snake_state.direction == Direction::Right
            &&& spawned(Seq::empty(), after.fruit_positions@, after.body())
        }
        &&& !collides ==> {
            &&& after.snake_state.direction == d
            &&& step_outcome(before.body(), before.fruit_positions@, d, after.body(), mid)
            &&& spawned(mid, after.fruit_positions@, after.body())
        }
    }

    /// One tick of the game: the direction is chosen from the votes, the snake
    /// moves (a collision resets the game), a fruit may spawn, and the votes
    /// are cleared. The body keeps its length or grows by one, unless the move
    /// collided and the game was reset.
    pub fn tick(&mut self)
        requires
            old(self).wf(),
        ensures
            final(self).wf(),
            final(self).running,
            exists|d: Direction, mid: Seq<Position>| GameState::tick_outcome(*old(self), *final(self), d, mid),
            final(self).body().len() == old(self).body().len() || final(self).body().len()
                == old(self).body().len() + 1 || final(self).body() == reset_body(),
            forall|d: Direction| final(self).user_input.count(d) == 0,
    {
        let ghost s0 = *self;
        self.running = true;
        self.update_direction();
        let ghost s1 = *self;
        if let Err(_) = self.move_snake() {
            self.reset();
        }
        let ghost s2 = *self;
        self.update_fruits();
        clear_input(&mut self.user_input);
        proof {
            let d = s1.snake_state.direction;
            if s0.user_input.count(d) == 0 && d != s0.snake_state.direction {
                assert(s1.user_input.count(d) == 0);
            }
            assert(s2.fruit_positions@.len() == 0 ==> s2.fruit_positions@ == Seq::<Position>::empty());
            assert(GameState::tick_outcome(s0, *self, d, s2.fruit_positions@));
        }
    }

    /// Counts one vote for the direction `name` stands for (the count stops
    /// at `usize::MAX`); any other name is refused and changes nothing.
    pub fn record_vote(&mut self, name: &String) -> (r: bool)
        ensures
            r == named(name@) is Some,
            !r ==> *final(self) == *old(self),
            r ==> final(self).user_input.count(named(name@).unwrap()) == if old(self).user_input.count(
                named(name@).unwrap(),
            ) < usize::MAX {
                old(self).user_input.count(named(name@).unwrap()) + 1
            } else {
                usize::MAX as nat
            },
            forall|e: Direction|
                named(name@) != Some(e) ==> final(self).user_input.count(e) == old(self).user_input.count(e),
            final(self).snake_state == old(self).snake_state,
            final(self).fruit_positions == old(self).fruit_positions,
            final(self).running == old(self).running,
    {
        match Direction::from_name(name) {
            Some(d) => {
                let c = self.user_input.get(d);
                self.user_input.set(d, c.saturating_add(1));
                true
            },
            None => false,
        }
    }

    /// What the cell at column `x`, row `y` shows: 'O' for the head, 'o' for
    /// the rest of the snake, 'x' for a fruit, '\0' where it is empty.
    pub open spec fn cell(&self, x: int, y: int) -> char {
        let p = Position { x: x as i32, y: y as i32 };
        if p == self.head() {
            'O'
        } else if self.body().contains(p) {
            'o'
        } else if self.fruit_positions@.contains(p) {
            'x'
        } else {
            '\0'
        }
    }

    /// The grid as a 16 by 16 matrix, row `y` holding the cells of that row
    /// (see `cell`): fruits are drawn first, then the snake over them.
    pub fn board(&self) -> (r: simple_matrix::Matrix<char>)
        requires
            self.body().len() > 0,
        ensures
            grid_cols(r) == MAP_WIDTH,
            grid_cells(r).len() == MAP_WIDTH * MAP_WIDTH,
            forall|x: int, y: int|
                0 <= x < MAP_WIDTH && 0 <= y < MAP_WIDTH ==> #[trigger] grid_at(r, x, y) == self.cell(x, y),
    {
        let width = MAP_WIDTH as usize;
        let mut m = new_grid(width, width);
        let fruits = &self.fruit_positions;
        let mut k: usize = 0;
        while k < fruits.len()
            invariant
                k <= fruits@.len(),
                grid_cols(m) == MAP_WIDTH,
                grid_cells(m).len() == MAP_WIDTH * MAP_WIDTH,
                forall|x: int, y: int|
                    0 <= x < MAP_WIDTH && 0 <= y < MAP_WIDTH ==> #[trigger] grid_at(m, x, y) == if fruits@.take(
                        k as int,
                    ).contains(Position { x: x as i32, y: y as i32 }) {
                        'x'
                    } else {
                        '\0'
                    },
            decreases fruits@.len() - k,
        {
            let f = fruits[k];
            assert forall|q: Position|
                fruits@.take(k + 1).contains(q) <==> (fruits@.take(k as int).contains(q) || q == f) by {
                if q == f {
                    assert(fruits@.take(k + 1)[k as int] == f);
                }
                if fruits@.take(k as int).contains(q) {
                    let j = choose|j: int| 0 <= j < k && #[trigger] fruits@.take(k as int)[j] == q;
                    assert(fruits@.take(k + 1)[j] == q);
                }
                if fruits@.take(k + 1).contains(q) && q != f {
                    let j = choose|j: int| 0 <= j <= k && #[trigger] fruits@.take(k + 1)[j] == q;
                    assert(fruits@.take(k as int)[j] == q);
                }
            }
            let ghost before = m;
            if f.x >= 0 && f.y >= 0 {
                grid_set(&mut m, f.y as usize, f.x as usize, 'x');
            }
            assert forall|x: int, y: int| 0 <= x < MAP_WIDTH && 0 <= y < MAP_WIDTH implies #[trigger] grid_at(
                m,
                x,
                y,
            ) == if x == f.x && y == f.y { 'x' } else { grid_at(before, x, y) } by {
                if f.x >= 0 && f.y >= 0 {
                    assert(f.y as int * grid_cols(before) == f.y * MAP_WIDTH);
                }
            }
            assert forall|x: int, y: int| 0 <= x < MAP_WIDTH && 0 <= y < MAP_WIDTH implies #[trigger] grid_at(
                m,
                x,
                y,
            ) == if fruits@.take(k + 1).contains(Position { x: x as i32, y: y as i32 }) {
                'x'
            } else {
                '\0'
            } by {
                let q = Position { x: x as i32, y: y as i32 };
                assert(grid_at(m, x, y) == if x == f.x && y == f.y { 'x' } else { grid_at(before, x, y) });
                assert(grid_at(before, x, y) == if fruits@.take(k as int).contains(q) { 'x' } else { '\0' });
                assert(fruits@.take(k + 1).contains(q) <==> (fruits@.take(k as int).contains(q) || q == f));
            }
            k = k + 1;
        }
        assert(fruits@.take(k as int) =~= fruits@);
        let body = &self.snake_state.positions;
        let head = body[body.len() - 1];
        let mut i: usize = 0;
        while i < body.len()
            invariant
                i <= body@.len(),
                body@ == self.body(),
                head == self.head(),
                grid_cols(m) == MAP_WIDTH,
                grid_cells(m).len() == MAP_WIDTH * MAP_WIDTH,
                forall|x: int, y: int|
                    0 <= x < MAP_WIDTH && 0 <= y < MAP_WIDTH ==> #[trigger] grid_at(m, x, y) == if body@.take(
                        i as int,
                    ).contains(Position { x: x as i32, y: y as i32 }) {
                        if (Position { x: x as i32, y: y as i32 }) == head {
                            'O'
                        } else {
                            'o'
                        }
                    } else if self.fruit_positions@.contains(Position { x: x as i32, y: y as i32 }) {
                        'x'
                    } else {
                        '\0'
                    },
            decreases body@.len() - i,
        {
            let p = body[i];
            let ghost before = m;
            let c = if p == head { 'O' } else { 'o' };
            if p.x >= 0 && p.y >= 0 {
                grid_set(&mut m, p.y as usize, p.x as usize, c);
            }
            assert forall|x: int, y: int| 0 <= x < MAP_WIDTH && 0 <= y < MAP_WIDTH implies #[trigger] grid_at(
                m,
                x,
                y,
            ) == if x == p.x && y == p.y { c } else { grid_at(before, x, y) } by {
                if p.x >= 0 && p.y >= 0 {
                    assert(p.y as int * grid_cols(before) == p.y * MAP_WIDTH);
                }
            }
            assert forall|x: int, y: int| 0 <= x < MAP_WIDTH && 0 <= y < MAP_WIDTH implies #[trigger] grid_at(
                m,
                x,
                y,
            ) == if body@.take(i + 1).contains(Position { x: x as i32, y: y as i32 }) {
                if (Position { x: x as i32, y: y as i32 }) == head {
                    'O'
                } else {
                    'o'
                }
            } else if self.fruit_positions@.contains(Position { x: x as i32, y: y as i32 }) {
                'x'
            } else {
                '\0'
            } by {
                let q = Position { x: x as i32, y: y as i32 };
                assert(grid_at(m, x, y) == if x == p.x && y == p.y { c } else { grid_at(before, x, y) });
                if q == p {
                    assert(body@.take(i + 1)[i as int] == p);
                }
                if body@.take(i as int).contains(q) {
                    let j = choose|j: int| 0 <= j < i && #[trigger] body@.take(i as int)[j] == q;
                    assert(body@.take(i + 1)[j] == q);
                }
                if body@.take(i + 1).contains(q) && q != p {
                    let j = choose|j: int| 0 <= j <= i && #[trigger] body@.take(i + 1)[j] == q;
                    assert(body@.take(i as int)[j] == q);
                }
            }
            i = i + 1;
        }
        assert(body@.take(i as int) =~= body@);
        assert(body@.contains(head)) by {
            assert(body@[body@.len() - 1] == head);
        }
        m
    }

    /// Marks the game as running; returns whether it was not running before,
    /// so that the caller starts the tick driver only once.
    pub fn start(&mut self) -> (r: bool)
        ensures
            r == !old(self).running,
            final(self).running,
            final(self).snake_state == old(self).snake_state,
            final(self).fruit_positions == old(self).fruit_positions,
            final(self).user_input == old(self).user_input,
    {
        let was_running = self.running;
        self.running = true;
        !was_running
    }

    /// Returns whether the state is well formed (see `wf`).
    pub fn is_well_formed(&self) -> (r: bool)
        ensures
            r == self.wf(),
    {
        if self.snake_state.positions.len() < 2 {
            return false;
        }
        let mut i: usize = 0;
        while i < self.snake_state.positions.len()
            invariant
                i <= self.body().len(),
                forall|j: int| 0 <= j < i ==> in_bounds(#[trigger] self.body()[j]),
            decreases self.body().len() - i,
        {
            let p = self.snake_state.positions[i];
            if p.x < 0 || p.x >= MAP_WIDTH || p.y < 0 || p.y >= MAP_WIDTH {
                assert(!in_bounds(self.body()[i as int]));
                return false;
            }
            i = i + 1;
        }
        let fruits = &self.fruit_positions;
        let mut k: usize = 0;
        while k < fruits.len()
            invariant
                k <= fruits@.len(),
                fruits@ == self.fruit_positions@,
                forall|j: int| 0 <= j < k ==> in_bounds(#[trigger] fruits@[j]),
                forall|a: int, b: int| 0 <= a < b < k ==> fruits@[a] != fruits@[b],
            decreases fruits@.len() - k,
        {
            let p = fruits[k];
            if p.x < 0 || p.x >= MAP_WIDTH || p.y < 0 || p.y >= MAP_WIDTH {
                assert(!in_bounds(fruits@[k as int]));
                return false;
            }
            let mut m: usize = 0;
            while m < k
                invariant
                    m <= k < fruits@.len(),
                    fruits@ == self.fruit_positions@,
                    p == fruits@[k as int],
                    forall|a: int| 0 <= a < m ==> fruits@[a] != p,
                decreases k - m,
            {
                if fruits[m] == p {
                    assert(fruits@[m as int] == fruits@[k as int]);
                    return false;
                }
                m = m + 1;
            }
            k = k + 1;
        }
        true
    }
}

} // verus!
