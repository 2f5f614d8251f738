use vstd::prelude::*;

use crate::grid::in_bounds;

verus! {

/// One of the eight fixed row/column offsets used for line scanning.
#[derive(Clone, Copy, PartialEq, Eq, Structural, Debug)]
pub enum Direction {
    Up,
    UpRight,
    Right,
    DownRight,
    Down,
    DownLeft,
    Left,
    UpLeft,
}

impl Direction {
    /// Row offset of one step in this direction.
    pub open spec fn dr(self) -> int {
        match self {
            Direction::Up => -1,
            Direction::UpRight => -1,
            Direction::Right => 0,
            Direction::DownRight => 1,
            Direction::Down => 1,
            Direction::DownLeft => 1,
            Direction::Left => 0,
            Direction::UpLeft => -1,
        }
    }

    /// Column offset of one step in this direction.
    pub open spec fn dc(self) -> int {
        match self {
            Direction::Up => 0,
            Direction::UpRight => 1,
            Direction::Right => 1,
            Direction::DownRight => 1,
            Direction::Down => 0,
            Direction::DownLeft => -1,
            Direction::Left => -1,
            Direction::UpLeft => -1,
        }
    }

    /// Row and column offsets as machine integers.
    pub fn offsets(self) -> (o: (i8, i8))
        ensures
            o.0 as int == self.dr(),
            o.1 as int == self.dc(),
    {
        match self {
            Direction::Up => (-1, 0),
            Direction::UpRight => (-1, 1),
            Direction::Right => (0, 1),
            Direction::DownRight => (1, 1),
            Direction::Down => (1, 0),
            Direction::DownLeft => (1, -1),
            Direction::Left => (0, -1),
            Direction::UpLeft => (-1, -1),
        }
    }
}

/// The eight scan directions, in the order every scan walks them.
pub open spec fn all_directions() -> Seq<Direction> {
    seq![
        Direction::Up,
        Direction::UpRight,
        Direction::Right,
        Direction::DownRight,
        Direction::Down,
        Direction::DownLeft,
        Direction::Left,
        Direction::UpLeft,
    ]
}

pub fn direction_list() -> (v: Vec<Direction>)
    ensures
        v@ == all_directions(),
{
    let mut v: Vec<Direction> = Vec::new();
    v.push(Direction::Up);
    v.push(Direction::UpRight);
    v.push(Direction::Right);
    v.push(Direction::DownRight);
    v.push(Direction::Down);
    v.push(Direction::DownLeft);
    v.push(Direction::Left);
    v.push(Direction::UpLeft);
    proof {
        assert(v@ =~= all_directions());
    }
    v
}

/// One step from `(r, c)` in direction `d` on an `n`-sided board, or
/// `None` when the step leaves the board.
pub fn step(r: usize, c: usize, d: Direction, n: usize) -> (res: Option<(usize, usize)>)
    requires
        r < n,
        c < n,
    ensures
        match res {
            Some(p) => in_bounds(n as int, r as int + d.dr(), c as int + d.dc()) && p.0 as int == r
                as int + d.dr() && p.1 as int == c as int + d.dc(),
            None => !in_bounds(n as int, r as int + d.dr(), c as int + d.dc()),
        },
{
    let (di, dj) = d.offsets();
    let nr: usize = if di < 0 {
        if r == 0 {
            return None;
        }
        r - 1
    } else if di > 0 {
        if r + 1 >= n {
            return None;
        }
        r + 1
    } else {
        r
    };
    let nc: usize = if dj < 0 {
        if c == 0 {
            return None;
        }
        c - 1
    } else if dj > 0 {
        if c + 1 >= n {
            return None;
        }
        c + 1
    } else {
        c
    };
    Some((nr, nc))
}

/// Every direction occurs in the scan order.
pub proof fn lemma_all_directions_complete()
    ensures
        forall|d: Direction| all_directions().contains(d),
{
    assert forall|d: Direction| all_directions().contains(d) by {
        let s = all_directions();
        match d {
            Direction::Up => assert(s[0] == d),
            Direction::UpRight => assert(s[1] == d),
            Direction::Right => assert(s[2] == d),
            Direction::DownRight => assert(s[3] == d),
            Direction::Down => assert(s[4] == d),
            Direction::DownLeft => assert(s[5] == d),
            Direction::Left => assert(s[6] == d),
            Direction::UpLeft => assert(s[7] == d),
        }
    }
}

/// The offsets determine the direction.
pub proof fn lemma_offsets_injective(d1: Direction, d2: Direction)
    requires
        d1.dr() == d2.dr(),
        d1.dc() == d2.dc(),
    ensures
        d1 == d2,
{
}

/// No direction leaves a cell in place.
pub proof fn lemma_direction_nonzero(d: Direction)
    ensures
        d.dr() != 0 || d.dc() != 0,
{
}

} // verus!
