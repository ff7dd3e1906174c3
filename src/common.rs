//! Directions, vote tallies and the helpers of the vote tie-break.
use vstd::prelude::*;
use vstd::string::*;

verus! {

/// One of the four directions the snake can travel in.
#[derive(Clone, Copy, Debug, PartialEq, Eq, Structural)]
pub enum Direction {
    Up,
    Down,
    Left,
    Right,
}

/// The direction that points the other way.
pub open spec fn opposite(d: Direction) -> Direction {
    match d {
        Direction::Up => Direction::Down,
        Direction::Down => Direction::Up,
        Direction::Left => Direction::Right,
        Direction::Right => Direction::Left,
    }
}

/// The direction a name stands for: "up", "down", "left" or "right".
pub open spec fn named(s: Seq<char>) -> Option<Direction> {
    if s == "up"@ {
        Some(Direction::Up)
    } else if s == "down"@ {
        Some(Direction::Down)
    } else if s == "left"@ {
        Some(Direction::Left)
    } else if s == "right"@ {
        Some(Direction::Right)
    } else {
        None
    }
}

impl Direction {
    /// Returns the direction `name` stands for, or `None` for any other name.
    pub fn from_name(name: &String) -> (r: Option<Direction>)
        ensures
            r == named(name@),
    {
        if *name == String::from_str("up") {
            Some(Direction::Up)
        } else if *name == String::from_str("down") {
            Some(Direction::Down)
        } else if *name == String::from_str("left") {
            Some(Direction::Left)
        } else if *name == String::from_str("right") {
            Some(Direction::Right)
        } else {
            None
        }
    }

    /// Returns the name of the direction, which `from_name` reads back.
    pub fn name(&self) -> (r: String)
        ensures
            named(r@) == Some(*self),
    {
        proof {
            reveal_strlit("up");
            reveal_strlit("down");
            reveal_strlit("left");
            reveal_strlit("right");
            assert("up"@.len() == 2 && "down"@.len() == 4 && "left"@.len() == 4 && "right"@.len() == 5);
            assert("down"@[0] != "left"@[0]);
        }
        match self {
            Direction::Up => String::from_str("up"),
            Direction::Down => String::from_str("down"),
            Direction::Left => String::from_str("left"),
            Direction::Right => String::from_str("right"),
        }
    }
}

/// Returns the direction opposite to `data`.
pub fn oposite(data: Direction) -> (r: Direction)
    ensures
        r == opposite(data),
{
    match data {
        Direction::Up => Direction::Down,
        Direction::Down => Direction::Up,
        Direction::Left => Direction::Right,
        Direction::Right => Direction::Left,
    }
}

/// How many times `d` occurs in `s`.
pub open spec fn occurrences(s: Seq<Direction>, d: Direction) -> nat
    decreases s.len(),
{
    if s.len() == 0 {
        0
    } else {
        occurrences(s.drop_last(), d) + if s.last() == d { 1nat } else { 0nat }
    }
}

/// `s` with every instance of `k` dropped, the others kept in order.
pub open spec fn without(s: Seq<Direction>, k: Direction) -> Seq<Direction>
    decreases s.len(),
{
    if s.len() == 0 {
        s
    } else if s.last() == k {
        without(s.drop_last(), k)
    } else {
        without(s.drop_last(), k).push(s.last())
    }
}

/// `k` occurs in `s`, and no direction that occurs in `s` occurs fewer times.
pub open spec fn is_lowest(s: Seq<Direction>, k: Direction) -> bool {
    &&& occurrences(s, k) > 0
    &&& forall|d: Direction| occurrences(s, d) > 0 ==> occurrences(s, k) <= occurrences(s, d)
}

/// One step of the scan for the rarest label: `d` replaces `cur` when it
/// occurs and strictly less often than `cur`.
pub open spec fn rarer(s: Seq<Direction>, cur: Option<Direction>, d: Direction) -> Option<Direction> {
    if occurrences(s, d) > 0 && (cur.is_none() || occurrences(s, d) < occurrences(s, cur.unwrap())) {
        Some(d)
    } else {
        cur
    }
}

/// The rarest label of `s`; among equally rare ones the first in the order
/// up, down, left, right. `None` only for an empty `s`.
pub open spec fn lowest_label(s: Seq<Direction>) -> Option<Direction> {
    rarer(
        s,
        rarer(s, rarer(s, rarer(s, None, Direction::Up), Direction::Down), Direction::Left),
        Direction::Right,
    )
}

/// How many distinct labels occur in `s`.
pub open spec fn label_count(s: Seq<Direction>) -> nat {
    (if occurrences(s, Direction::Up) > 0 { 1nat } else { 0nat }) + (if occurrences(
        s,
        Direction::Down,
    ) > 0 {
        1nat
    } else {
        0nat
    }) + (if occurrences(s, Direction::Left) > 0 { 1nat } else { 0nat }) + (if occurrences(
        s,
        Direction::Right,
    ) > 0 {
        1nat
    } else {
        0nat
    })
}

/// Every element of `s` equals its first one, and there is a first one.
pub open spec fn all_same(s: Seq<Direction>) -> bool {
    s.len() > 0 && forall|i: int| 0 <= i < s.len() ==> #[trigger] s[i] == s[0]
}

/// A direction occurs in `s` exactly when `s` holds it at some index.
pub proof fn lemma_occurs_iff_contains(s: Seq<Direction>, d: Direction)
    ensures
        occurrences(s, d) > 0 <==> s.contains(d),
    decreases s.len(),
{
    if s.len() > 0 {
        lemma_occurs_iff_contains(s.drop_last(), d);
        if s.drop_last().contains(d) {
            let i = choose|i: int| 0 <= i < s.drop_last().len() && s.drop_last()[i] == d;
            assert(s[i] == d);
        }
        if s.contains(d) && s.last() != d {
            let i = choose|i: int| 0 <= i < s.len() && s[i] == d;
            assert(s.drop_last()[i] == d);
        }
    }
}

/// Dropping `k` takes all of its occurrences and leaves the others.
pub proof fn lemma_without_occurrences(s: Seq<Direction>, k: Direction, d: Direction)
    ensures
        occurrences(without(s, k), d) == if d == k { 0 } else { occurrences(s, d) },
    decreases s.len(),
{
    if s.len() > 0 {
        lemma_without_occurrences(s.drop_last(), k, d);
        if s.last() != k {
            assert(without(s, k).drop_last() =~= without(s.drop_last(), k));
        }
    }
}

/// The number of directions that occur is at most the length of `s`, and it
/// is one exactly when `s` is non-empty and all its elements are the same.
pub proof fn lemma_all_same_labels(s: Seq<Direction>)
    ensures
        all_same(s) <==> label_count(s) == 1,
        s.len() > 0 ==> label_count(s) >= 1,
{
    lemma_occurs_iff_contains(s, Direction::Up);
    lemma_occurs_iff_contains(s, Direction::Down);
    lemma_occurs_iff_contains(s, Direction::Left);
    lemma_occurs_iff_contains(s, Direction::Right);
    if s.len() > 0 {
        assert(s.contains(s[0]));
        if label_count(s) == 1 {
            assert forall|i: int| 0 <= i < s.len() implies #[trigger] s[i] == s[0] by {
                assert(s.contains(s[i]));
            }
        }
        if all_same(s) {
            assert forall|d: Direction| s.contains(d) implies d == s[0] by {
                let i = choose|i: int| 0 <= i < s.len() && s[i] == d;
            }
        }
    }
}

/// Returns whether `vec` is non-empty with all its elements equal.
pub fn is_all_same(vec: &Vec<Direction>) -> (r: bool)
    ensures
        r == all_same(vec@),
{
    if vec.len() == 0 {
        return false;
    }
    let first = vec[0];
    let mut i: usize = 1;
    while i < vec.len()
        invariant
            1 <= i <= vec.len(),
            first == vec@[0],
            forall|j: int| 0 <= j < i ==> vec@[j] == first,
        decreases vec.len() - i,
    {
        if vec[i] != first {
            return false;
        }
        i = i + 1;
    }
    true
}

/// A count for each of the four directions.
#[derive(Clone, Copy, Debug, PartialEq, Eq, Structural)]
pub struct Tally {
    pub up: usize,
    pub down: usize,
    pub left: usize,
    pub right: usize,
}

impl Tally {
    /// The count kept for `d`.
    pub open spec fn count(self, d: Direction) -> nat {
        match d {
            Direction::Up => self.up as nat,
            Direction::Down => self.down as nat,
            Direction::Left => self.left as nat,
            Direction::Right => self.right as nat,
        }
    }

    /// A tally with every count at zero.
    pub fn zero() -> (r: Tally)
        ensures
            forall|d: Direction| r.count(d) == 0,
    {
        Tally { up: 0, down: 0, left: 0, right: 0 }
    }

    /// Returns the count kept for `d`.
    pub fn get(&self, d: Direction) -> (r: usize)
        ensures
            r == self.count(d),
    {
        match d {
            Direction::Up => self.up,
            Direction::Down => self.down,
            Direction::Left => self.left,
            Direction::Right => self.right,
        }
    }

    /// Sets the count kept for `d` to `v`, leaving the others.
    pub fn set(&mut self, d: Direction, v: usize)
        ensures
            final(self).count(d) == v,
            forall|e: Direction| e != d ==> final(self).count(e) == old(self).count(e),
    {
        match d {
            Direction::Up => self.up = v,
            Direction::Down => self.down = v,
            Direction::Left => self.left = v,
            Direction::Right => self.right = v,
        }
    }
}

/// Counts how many times each direction occurs in `directions`.
pub fn frequency_map(directions: Vec<Direction>) -> (r: Tally)
    ensures
        forall|d: Direction| r.count(d) == occurrences(directions@, d),
{
    let mut map = Tally::zero();
    let mut i: usize = 0;
    while i < directions.len()
        invariant
            i <= directions.len(),
            forall|d: Direction| map.count(d) == occurrences(directions@.take(i as int), d),
            forall|d: Direction| map.count(d) <= i,
        decreases directions.len() - i,
    {
        let n = directions[i];
        assert(directions@.take(i + 1).drop_last() =~= directions@.take(i as int));
        let c = map.get(n);
        map.set(n, c + 1);
        i = i + 1;
    }
    assert(directions@.take(i as int) =~= directions@);
    map
}

/// Drops every instance of the rarest direction of `vec` (see `lowest_label`);
/// an empty `vec` stays empty.
pub fn remove_lowest_occurence(vec: &mut Vec<Direction>)
    ensures
        old(vec)@.len() == 0 <==> lowest_label(old(vec)@) is None,
        old(vec)@.len() == 0 ==> final(vec)@ == old(vec)@,
        old(vec)@.len() > 0 ==> is_lowest(old(vec)@, lowest_label(old(vec)@).unwrap()),
        old(vec)@.len() > 0 ==> final(vec)@ == without(old(vec)@, lowest_label(old(vec)@).unwrap()),
{
    let ghost s = vec@;
    let freq_map = frequency_map(vec.clone());
    assert(vec@ == s);
    let order = [Direction::Up, Direction::Down, Direction::Left, Direction::Right];
    let mut lowest: Option<Direction> = None;
    let mut j: usize = 0;
    while j < 4
        invariant
            j <= 4,
            order@ == seq![Direction::Up, Direction::Down, Direction::Left, Direction::Right],
            forall|d: Direction| freq_map.count(d) == occurrences(s, d),
            j == 0 ==> lowest == None::<Direction>,
            j == 1 ==> lowest == rarer(s, None, Direction::Up),
            j == 2 ==> lowest == rarer(s, rarer(s, None, Direction::Up), Direction::Down),
            j == 3 ==> lowest == rarer(
                s,
                rarer(s, rarer(s, None, Direction::Up), Direction::Down),
                Direction::Left,
            ),
            j == 4 ==> lowest == lowest_label(s),
        decreases 4 - j,
    {
        let d = order[j];
        let c = freq_map.get(d);
        if c > 0 {
            match lowest {
                None => {
                    lowest = Some(d);
                },
                Some(k) => {
                    if c < freq_map.get(k) {
                        lowest = Some(d);
                    }
                },
            }
        }
        j = j + 1;
    }
    proof {
        lemma_occurs_iff_contains(s, Direction::Up);
        lemma_occurs_iff_contains(s, Direction::Down);
        lemma_occurs_iff_contains(s, Direction::Left);
        lemma_occurs_iff_contains(s, Direction::Right);
        if s.len() > 0 {
            assert(s.contains(s[0]));
        }
    }
    match lowest {
        None => {},
        Some(k) => {
            let mut kept: Vec<Direction> = Vec::new();
            let mut i: usize = 0;
            while i < vec.len()
                invariant
                    i <= vec.len(),
                    vec@ == s,
                    kept@ == without(s.take(i as int), k),
                decreases vec.len() - i,
            {
                assert(s.take(i + 1).drop_last() =~= s.take(i as int));
                if vec[i] != k {
                    kept.push(vec[i]);
                }
                i = i + 1;
            }
            assert(s.take(i as int) =~= s);
            *vec = kept;
        },
    }
}

/// Sets every count of `inputs` to zero.
pub fn clear_input(inputs: &mut Tally)
    ensures
        forall|d: Direction| final(inputs).count(d) == 0,
{
    inputs.set(Direction::Left, 0);
    inputs.set(Direction::Right, 0);
    inputs.set(Direction::Up, 0);
    inputs.set(Direction::Down, 0);
}

} // verus!
