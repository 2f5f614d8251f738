use vstd::prelude::*;

use crate::grid::{cell, count_grid, count_row, count_upto, grid_wf, in_bounds, Grid};
use crate::player::Player;

verus! {

/// Largest supported board side. Keeps every count and every positional
/// score comfortably inside the machine integers the engine computes with.
pub const MAX_SIDE: usize = 10000;

/// Where a fresh board of side `n` seeds its four centre pieces.
pub open spec fn init_cell(n: int, r: int, c: int) -> Option<Player> {
    let m = n / 2;
    if (r == m && c == m) || (r == m - 1 && c == m - 1) {
        Some(Player::Green)
    } else if (r == m && c == m - 1) || (r == m - 1 && c == m) {
        Some(Player::Red)
    } else {
        None
    }
}

/// A square grid of cells, each optionally owned by a player.
#[derive(Debug)]
pub struct Board {
    cells: Vec<Vec<Option<Player>>>,
    size: usize,
}

impl View for Board {
    type V = Grid;

    closed spec fn view(&self) -> Grid {
        Seq::new(
            self.size as nat,
            |i: int| Seq::new(self.size as nat, |j: int| self.cells@[i]@[j]),
        )
    }
}

impl Board {
    /// Internal linkage between the vectors and the recorded size.
    pub closed spec fn inv(&self) -> bool {
        &&& self.cells.len() == self.size
        &&& forall|i: int| 0 <= i < self.size ==> (#[trigger] self.cells@[i]).len() == self.size
    }

    pub open spec fn side(&self) -> int {
        self@.len() as int
    }

    pub open spec fn wf(&self) -> bool {
        &&& self.inv()
        &&& grid_wf(self@, self.side())
        &&& 6 <= self.side()
        &&& self.side() % 2 == 0
        &&& self.side() <= MAX_SIDE as int
    }

    /// A fresh board: empty but for the canonical centre cross.
    pub fn new(size: usize) -> (r: Board)
        requires
            6 <= size,
            size % 2 == 0,
            size <= MAX_SIDE,
        ensures
            r.wf(),
            r.side() == size,
            forall|i: int, j: int|
                in_bounds(size as int, i, j) ==> cell(r@, i, j) == init_cell(size as int, i, j),
    {
        let mid = size / 2;
        let mut cells: Vec<Vec<Option<Player>>> = Vec::new();
        let mut i: usize = 0;
        while i < size
            invariant
                i <= size,
                size <= MAX_SIDE,
                mid == size / 2,
                6 <= size,
                cells.len() == i,
                forall|a: int| 0 <= a < i ==> (#[trigger] cells@[a]).len() == size,
                forall|a: int, b: int|
                    0 <= a < i && 0 <= b < size ==> cells@[a]@[b] == init_cell(
                        size as int,
                        a,
                        b,
                    ),
            decreases size - i,
        {
            let mut row: Vec<Option<Player>> = Vec::new();
            let mut j: usize = 0;
            while j < size
                invariant
                    j <= size,
                    i < size,
                    size <= MAX_SIDE,
                    mid == size / 2,
                    6 <= size,
                    row.len() == j,
                    forall|b: int| 0 <= b < j ==> row@[b] == init_cell(size as int, i as int, b),
                decreases size - j,
            {
                let v: Option<Player> = if (i == mid && j == mid) || (i + 1 == mid && j + 1
                    == mid) {
                    Some(Player::Green)
                } else if (i == mid && j + 1 == mid) || (i + 1 == mid && j == mid) {
                    Some(Player::Red)
                } else {
                    None
                };
                row.push(v);
                j += 1;
            }
            cells.push(row);
            i += 1;
        }
        let r = Board { cells, size };
        proof {
            assert(forall|a: int, b: int|
                in_bounds(size as int, a, b) ==> cell(r@, a, b) == r.cells@[a]@[b]);
        }
        r
    }

    /// Side length of the board.
    pub fn size(&self) -> (n: usize)
        requires
            self.wf(),
        ensures
            n as int == self.side(),
    {
        self.size
    }

    /// The owner, if any, of the cell at `coord`.
    pub fn get(&self, coord: (usize, usize)) -> (r: Option<Player>)
        requires
            self.wf(),
            in_bounds(self.side(), coord.0 as int, coord.1 as int),
        ensures
            r == cell(self@, coord.0 as int, coord.1 as int),
    {
        self.cells[coord.0][coord.1]
    }

    /// Overwrite the cell at `coord`.
    pub fn set(&mut self, coord: (usize, usize), player: Option<Player>)
        requires
            old(self).wf(),
            in_bounds(old(self).side(), coord.0 as int, coord.1 as int),
        ensures
            final(self).wf(),
            final(self).side() == old(self).side(),
            cell(final(self)@, coord.0 as int, coord.1 as int) == player,
            forall|x: int, y: int|
                in_bounds(old(self).side(), x, y) && !(x == coord.0 as int && y == coord.1 as int)
                    ==> cell(final(self)@, x, y) == cell(old(self)@, x, y),
    {
        self.cells[coord.0][coord.1] = player;
    }

    /// Flip the owner of an occupied cell.
    pub fn switch_piece(&mut self, coord: (usize, usize))
        requires
            old(self).wf(),
            in_bounds(old(self).side(), coord.0 as int, coord.1 as int),
            cell(old(self)@, coord.0 as int, coord.1 as int) is Some,
        ensures
            final(self).wf(),
            final(self).side() == old(self).side(),
            cell(final(self)@, coord.0 as int, coord.1 as int) == Some(
                cell(old(self)@, coord.0 as int, coord.1 as int)->0.spec_other(),
            ),
            forall|x: int, y: int|
                in_bounds(old(self).side(), x, y) && !(x == coord.0 as int && y == coord.1 as int)
                    ==> cell(final(self)@, x, y) == cell(old(self)@, x, y),
    {
        let owner = self.cells[coord.0][coord.1];
        match owner {
            Some(p) => {
                self.cells[coord.0][coord.1] = Some(p.other());
            },
            None => {
                proof {
                    assert(false);
                }
            },
        }
    }

    /// Every coordinate owned by `player`, in row-major order.
    pub fn pieces_for_player(&self, player: Player) -> (res: Vec<(usize, usize)>)
        requires
            self.wf(),
        ensures
            res@.len() == count_grid(self@, Some(player), self.side()),
            forall|k: int|
                0 <= k < res@.len() ==> in_bounds(
                    self.side(),
                    #[trigger] res@[k].0 as int,
                    res@[k].1 as int,
                ) && cell(self@, res@[k].0 as int, res@[k].1 as int) == Some(player),
            forall|x: int, y: int|
                in_bounds(self.side(), x, y) && cell(self@, x, y) == Some(player) ==> res@.contains(
                    ((x as usize), (y as usize)),
                ),
            forall|k: int, l: int| 0 <= k < l < res@.len() ==> res@[k] != res@[l],
            forall|k: int, l: int|
                0 <= k < l < res@.len() ==> ((#[trigger] res@[k]).0 as int) < ((
                #[trigger] res@[l]).0 as int) || (res@[k].0 as int == res@[l].0 as int && (
                res@[k].1 as int) < (res@[l].1 as int)),
    {
        let n = self.size;
        let mut res: Vec<(usize, usize)> = Vec::new();
        let mut i: usize = 0;
        while i < n
            invariant
                self.wf(),
                n as int == self.side(),
                i <= n,
                res@.len() == count_upto(self@, Some(player), i as int, n as int),
                forall|k: int|
                    0 <= k < res@.len() ==> in_bounds(
                        n as int,
                        #[trigger] res@[k].0 as int,
                        res@[k].1 as int,
                    ) && cell(self@, res@[k].0 as int, res@[k].1 as int) == Some(player),
                forall|x: int, y: int|
                    0 <= x < i && 0 <= y < n && cell(self@, x, y) == Some(player)
                        ==> res@.contains(((x as usize), (y as usize))),
                forall|k: int| 0 <= k < res@.len() ==> (#[trigger] res@[k].0 as int) < i,
                forall|k: int, l: int| 0 <= k < l < res@.len() ==> res@[k] != res@[l],
                forall|k: int, l: int|
                    0 <= k < l < res@.len() ==> ((#[trigger] res@[k]).0 as int) < ((
                    #[trigger] res@[l]).0 as int) || (res@[k].0 as int == res@[l].0 as int && (
                    res@[k].1 as int) < (res@[l].1 as int)),
            decreases n - i,
        {
            let mut j: usize = 0;
            while j < n
                invariant
                    self.wf(),
                    n as int == self.side(),
                    i < n,
                    j <= n,
                    res@.len() == count_upto(self@, Some(player), i as int, n as int) + count_row(
                        self@[i as int],
                        Some(player),
                        j as int,
                    ),
                    forall|k: int|
                        0 <= k < res@.len() ==> in_bounds(
                            n as int,
                            #[trigger] res@[k].0 as int,
                            res@[k].1 as int,
                        ) && cell(self@, res@[k].0 as int, res@[k].1 as int) == Some(player),
                    forall|x: int, y: int|
                        0 <= x < i && 0 <= y < n && cell(self@, x, y) == Some(player)
                            ==> res@.contains(((x as usize), (y as usize))),
                    forall|y: int|
                        0 <= y < j && cell(self@, i as int, y) == Some(player) ==> res@.contains(
                            ((i as usize), (y as usize)),
                        ),
                    forall|k: int|
                        0 <= k < res@.len() ==> (#[trigger] res@[k].0 as int) < i || (
                        res@[k].0 as int == i && (res@[k].1 as int) < j),
                    forall|k: int, l: int| 0 <= k < l < res@.len() ==> res@[k] != res@[l],
                    forall|k: int, l: int|
                        0 <= k < l < res@.len() ==> ((#[trigger] res@[k]).0 as int) < ((
                        #[trigger] res@[l]).0 as int) || (res@[k].0 as int == res@[l].0 as int
                        && (res@[k].1 as int) < (res@[l].1 as int)),
                decreases n - j,
            {
                let owned = match self.cells[i][j] {
                    Some(q) => q == player,
                    None => false,
                };
                proof {
                    assert(self.cells@[i as int]@[j as int] == cell(self@, i as int, j as int));
                }
                if owned {
                    let ghost oldres = res@;
                    res.push((i, j));
                    proof {
                        assert(forall|m: (usize, usize)|
                            oldres.contains(m) ==> #[trigger] res@.contains(m)) by {
                            assert(forall|k: int|
                                0 <= k < oldres.len() ==> res@[k] == #[trigger] oldres[k]);
                        }
                        assert(res@.contains(((i as usize), (j as usize)))) by {
                            assert(res@[res@.len() - 1] == (i, j));
                        }
                        assert forall|k: int, l: int|
                            0 <= k < l < res@.len() implies res@[k] != res@[l] && ((res@[k].0
                            as int) < (res@[l].0 as int) || (res@[k].0 as int == res@[l].0 as int
                            && (res@[k].1 as int) < (res@[l].1 as int))) by {
                            if l == res@.len() - 1 {
                                assert(res@[l] == (i, j));
                                assert(res@[k] == oldres[k]);
                                assert((oldres[k].0 as int) < i as int || (oldres[k].0 as int
                                    == i as int && (oldres[k].1 as int) < j as int));
                            } else {
                                assert(res@[k] == oldres[k] && res@[l] == oldres[l]);
                            }
                        }
                    }
                }
                j += 1;
            }
            i += 1;
        }
        res
    }

    /// How many pieces `player` owns.
    pub fn count_pieces(&self, player: Player) -> (r: usize)
        requires
            self.wf(),
        ensures
            r as int == count_grid(self@, Some(player), self.side()),
    {
        let v = self.pieces_for_player(player);
        v.len()
    }

    /// An identical board with freshly allocated storage.
    pub fn duplicate(&self) -> (r: Board)
        requires
            self.wf(),
        ensures
            r.wf(),
            r@ == self@,
    {
        let n = self.size;
        let mut cells: Vec<Vec<Option<Player>>> = Vec::new();
        let mut i: usize = 0;
        while i < n
            invariant
                self.wf(),
                n == self.size,
                i <= n,
                cells.len() == i,
                forall|a: int| 0 <= a < i ==> (#[trigger] cells@[a]).len() == n,
                forall|a: int, b: int|
                    0 <= a < i && 0 <= b < n ==> cells@[a]@[b] == cell(self@, a, b),
            decreases n - i,
        {
            let mut row: Vec<Option<Player>> = Vec::new();
            let mut j: usize = 0;
            while j < n
                invariant
                    self.wf(),
                    n == self.size,
                    i < n,
                    j <= n,
                    row.len() == j,
                    forall|b: int| 0 <= b < j ==> row@[b] == cell(self@, i as int, b),
                decreases n - j,
            {
                row.push(self.cells[i][j]);
                proof {
                    assert(self.cells@[i as int]@[j as int] == cell(self@, i as int, j as int));
                }
                j += 1;
            }
            cells.push(row);
            i += 1;
        }
        let r = Board { cells, size: n };
        proof {
            assert(r@.len() == n as int);
            assert(self@.len() == n as int);
            assert forall|a: int| 0 <= a < n implies r@[a] =~= self@[a] by {
                assert(r@[a].len() == n as int);
                assert(self@[a].len() == n as int);
                assert forall|b: int| 0 <= b < n implies r@[a][b] == self@[a][b] by {
                    assert(cell(r@, a, b) == r.cells@[a]@[b]);
                    assert(cell(self@, a, b) == self.cells@[a]@[b]);
                }
            }
            assert(r@ =~= self@);
        }
        r
    }
}

} // verus!
