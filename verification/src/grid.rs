use vstd::prelude::*;

use crate::player::Player;

verus! {

/// Mathematical model of a board: a square of optionally-owned cells.
pub type Grid = Seq<Seq<Option<Player>>>;

pub open spec fn grid_wf(g: Grid, n: int) -> bool {
    &&& g.len() == n
    &&& forall|i: int| 0 <= i < n ==> (#[trigger] g[i]).len() == n
}

pub open spec fn in_bounds(n: int, r: int, c: int) -> bool {
    0 <= r < n && 0 <= c < n
}

pub open spec fn cell(g: Grid, r: int, c: int) -> Option<Player> {
    g[r][c]
}

/// How many of the first `j` cells of `row` hold exactly `v`.
pub open spec fn count_row(row: Seq<Option<Player>>, v: Option<Player>, j: int) -> int
    decreases j,
{
    if j <= 0 {
        0
    } else {
        count_row(row, v, j - 1) + if row[j - 1] == v {
            1int
        } else {
            0int
        }
    }
}

/// How many cells of the first `i` full rows of `g` hold exactly `v`.
pub open spec fn count_upto(g: Grid, v: Option<Player>, i: int, n: int) -> int
    decreases i,
{
    if i <= 0 {
        0
    } else {
        count_upto(g, v, i - 1, n) + count_row(g[i - 1], v, n)
    }
}

/// How many cells of the whole grid hold exactly `v`.
pub open spec fn count_grid(g: Grid, v: Option<Player>, n: int) -> int {
    count_upto(g, v, n, n)
}

pub proof fn lemma_count_row_bounds(row: Seq<Option<Player>>, v: Option<Player>, j: int)
    ensures
        0 <= count_row(row, v, j) <= if j <= 0 {
            0int
        } else {
            j
        },
    decreases j,
{
    if j > 0 {
        lemma_count_row_bounds(row, v, j - 1);
    }
}

pub proof fn lemma_count_bounds(g: Grid, v: Option<Player>, i: int, n: int)
    requires
        n >= 0,
    ensures
        0 <= count_upto(g, v, i, n) <= if i <= 0 {
            0int
        } else {
            i * n
        },
    decreases i,
{
    if i > 0 {
        lemma_count_bounds(g, v, i - 1, n);
        lemma_count_row_bounds(g[i - 1], v, n);
        assert((i - 1) * n + n == i * n) by (nonlinear_arith);
        if i - 1 <= 0 {
            assert((i - 1) * n <= i * n) by (nonlinear_arith)
                requires
                    i - 1 <= 0 && i > 0 && n >= 0,
            ;
        }
    }
}

/// Each of the first `j` cells of a row is owned by Green, owned by Red,
/// or empty; the three counts exhaust the row.
pub proof fn lemma_count_row_partition(row: Seq<Option<Player>>, j: int)
    requires
        j >= 0,
    ensures
        count_row(row, Some(Player::Green), j) + count_row(row, Some(Player::Red), j) + count_row(
            row,
            None,
            j,
        ) == j,
    decreases j,
{
    if j > 0 {
        lemma_count_row_partition(row, j - 1);
        let c = row[j - 1];
        assert(c == Some(Player::Green) || c == Some(Player::Red) || c is None);
    }
}

pub proof fn lemma_count_partition(g: Grid, i: int, n: int)
    requires
        i >= 0,
        n >= 0,
    ensures
        count_upto(g, Some(Player::Green), i, n) + count_upto(g, Some(Player::Red), i, n)
            + count_upto(g, None, i, n) == i * n,
    decreases i,
{
    if i > 0 {
        lemma_count_partition(g, i - 1, n);
        lemma_count_row_partition(g[i - 1], n);
        assert(count_row(g[i - 1], Some(Player::Green), n) + count_row(g[i - 1], Some(Player::Red), n)
            + count_row(g[i - 1], None, n) == n);
        assert((i - 1) * n + n == i * n) by (nonlinear_arith);
    } else {
        assert(i * n == 0) by (nonlinear_arith)
            requires
                i == 0,
        ;
    }
}

proof fn lemma_count_row_ptwise(row1: Seq<Option<Player>>, row2: Seq<Option<Player>>, v: Option<Player>, j: int)
    requires
        forall|k: int| 0 <= k < j ==> row1[k] == row2[k],
    ensures
        count_row(row1, v, j) == count_row(row2, v, j),
    decreases j,
{
    if j > 0 {
        lemma_count_row_ptwise(row1, row2, v, j - 1);
    }
}

proof fn lemma_count_row_diff_at(
    row1: Seq<Option<Player>>,
    row2: Seq<Option<Player>>,
    v: Option<Player>,
    j: int,
    c: int,
)
    requires
        forall|k: int| 0 <= k < j && k != c ==> row1[k] == row2[k],
    ensures
        count_row(row2, v, j) == count_row(row1, v, j) + if 0 <= c < j {
            (if row2[c] == v {
                1int
            } else {
                0int
            }) - (if row1[c] == v {
                1int
            } else {
                0int
            })
        } else {
            0int
        },
    decreases j,
{
    if j > 0 {
        lemma_count_row_diff_at(row1, row2, v, j - 1, c);
    }
}

/// Two grids that agree everywhere but at one cell have counts that
/// differ only by the change at that cell.
pub proof fn lemma_count_diff_at(g1: Grid, g2: Grid, v: Option<Player>, n: int, r: int, c: int)
    requires
        in_bounds(n, r, c),
        forall|x: int, y: int|
            in_bounds(n, x, y) && !(x == r && y == c) ==> cell(g1, x, y) == cell(g2, x, y),
    ensures
        count_grid(g2, v, n) == count_grid(g1, v, n) + (if cell(g2, r, c) == v {
            1int
        } else {
            0int
        }) - (if cell(g1, r, c) == v {
            1int
        } else {
            0int
        }),
{
    lemma_count_diff_at_upto(g1, g2, v, n, r, c, n);
}

proof fn lemma_count_diff_at_upto(g1: Grid, g2: Grid, v: Option<Player>, n: int, r: int, c: int, i: int)
    requires
        in_bounds(n, r, c),
        i <= n,
        forall|x: int, y: int|
            in_bounds(n, x, y) && !(x == r && y == c) ==> cell(g1, x, y) == cell(g2, x, y),
    ensures
        count_upto(g2, v, i, n) == count_upto(g1, v, i, n) + if r < i {
            (if cell(g2, r, c) == v {
                1int
            } else {
                0int
            }) - (if cell(g1, r, c) == v {
                1int
            } else {
                0int
            })
        } else {
            0int
        },
    decreases i,
{
    if i > 0 {
        lemma_count_diff_at_upto(g1, g2, v, n, r, c, i - 1);
        if i - 1 == r {
            assert forall|k: int| 0 <= k < n && k != c implies #[trigger] g1[i - 1][k] == g2[i
                - 1][k] by {
                assert(cell(g1, i - 1, k) == cell(g2, i - 1, k));
            }
            lemma_count_row_diff_at(g1[i - 1], g2[i - 1], v, n, c);
        } else {
            assert forall|k: int| 0 <= k < n implies #[trigger] g1[i - 1][k] == g2[i - 1][k] by {
                assert(cell(g1, i - 1, k) == cell(g2, i - 1, k));
            }
            lemma_count_row_ptwise(g1[i - 1], g2[i - 1], v, n);
        }
    }
}

proof fn lemma_count_row_none_agree(row1: Seq<Option<Player>>, row2: Seq<Option<Player>>, j: int)
    requires
        forall|k: int| 0 <= k < j ==> ((row1[k] is None) <==> (row2[k] is None)),
    ensures
        count_row(row1, None, j) == count_row(row2, None, j),
    decreases j,
{
    if j > 0 {
        lemma_count_row_none_agree(row1, row2, j - 1);
        assert((row1[j - 1] is None) <==> (row2[j - 1] is None));
        assert((row1[j - 1] == None::<Player>) <==> (row1[j - 1] is None));
    }
}

/// Grids whose empty cells coincide have the same number of empty cells.
pub proof fn lemma_count_none_agree(g1: Grid, g2: Grid, i: int, n: int)
    requires
        forall|x: int, y: int|
            0 <= x < i && 0 <= y < n ==> ((cell(g1, x, y) is None) <==> (cell(g2, x, y) is None)),
    ensures
        count_upto(g1, None, i, n) == count_upto(g2, None, i, n),
    decreases i,
{
    if i > 0 {
        lemma_count_none_agree(g1, g2, i - 1, n);
        assert forall|k: int|
            0 <= k < n implies ((#[trigger] g1[i - 1][k] is None) <==> (g2[i - 1][k]
            is None)) by {
            assert((cell(g1, i - 1, k) is None) <==> (cell(g2, i - 1, k) is None));
        }
        lemma_count_row_none_agree(g1[i - 1], g2[i - 1], n);
    }
}

/// The cells owned by Green, the cells owned by Red and the empty cells
/// partition the board: at all times the three counts sum to the full
/// square.
pub proof fn lemma_ownership_partition(g: Grid, n: int)
    requires
        0 <= n,
    ensures
        count_grid(g, Some(Player::Green), n) + count_grid(g, Some(Player::Red), n) + count_grid(
            g,
            None,
            n,
        ) == n * n,
{
    lemma_count_partition(g, n, n);
}

/// A cell that holds `v` contributes: the count is at least one.
pub proof fn lemma_count_pos(g: Grid, v: Option<Player>, n: int, r: int, c: int)
    requires
        in_bounds(n, r, c),
        cell(g, r, c) == v,
    ensures
        count_grid(g, v, n) >= 1,
{
    lemma_count_row_pos(g[r], v, n, c);
    lemma_count_pos_upto(g, v, n, r);
}

proof fn lemma_count_row_pos(row: Seq<Option<Player>>, v: Option<Player>, j: int, c: int)
    requires
        0 <= c < j,
        row[c] == v,
    ensures
        count_row(row, v, j) >= 1,
    decreases j,
{
    if c < j - 1 {
        lemma_count_row_pos(row, v, j - 1, c);
        lemma_count_row_bounds(row, v, j - 1);
    }
    lemma_count_row_bounds(row, v, j - 1);
}

proof fn lemma_count_pos_upto(g: Grid, v: Option<Player>, n: int, r: int)
    requires
        0 <= r < n,
        count_row(g[r], v, n) >= 1,
    ensures
        count_grid(g, v, n) >= 1,
{
    lemma_count_pos_split(g, v, n, r + 1, n);
    lemma_count_bounds(g, v, r, n);
}

proof fn lemma_count_pos_split(g: Grid, v: Option<Player>, n: int, i: int, j: int)
    requires
        0 < i <= j,
        n >= 0,
        count_upto(g, v, i, n) >= count_upto(g, v, i - 1, n) + 1,
    ensures
        count_upto(g, v, j, n) >= count_upto(g, v, i - 1, n) + 1,
    decreases j - i,
{
    if i < j {
        lemma_count_row_bounds(g[j - 1], v, n);
        lemma_count_pos_split(g, v, n, i, j - 1);
    }
}

/// Positional weight of a cell: corners count 9, other edge cells 3,
/// interior cells 1.
pub open spec fn weight(n: int, r: int, c: int) -> int {
    if (r == 0 || r == n - 1) && (c == 0 || c == n - 1) {
        9
    } else if r == 0 || r == n - 1 || c == 0 || c == n - 1 {
        3
    } else {
        1
    }
}

/// Weighted count of `p`-owned cells among the first `j` of row `r`.
pub open spec fn wsum_row(row: Seq<Option<Player>>, p: Player, n: int, r: int, j: int) -> int
    decreases j,
{
    if j <= 0 {
        0
    } else {
        wsum_row(row, p, n, r, j - 1) + if row[j - 1] == Some(p) {
            weight(n, r, j - 1)
        } else {
            0int
        }
    }
}

pub open spec fn wsum_upto(g: Grid, p: Player, n: int, i: int) -> int
    decreases i,
{
    if i <= 0 {
        0
    } else {
        wsum_upto(g, p, n, i - 1) + wsum_row(g[i - 1], p, n, i - 1, n)
    }
}

/// Weighted count of `p`-owned cells over the whole grid.
pub open spec fn wsum(g: Grid, p: Player, n: int) -> int {
    wsum_upto(g, p, n, n)
}

pub proof fn lemma_wsum_row_bounds(row: Seq<Option<Player>>, p: Player, n: int, r: int, j: int)
    ensures
        0 <= wsum_row(row, p, n, r, j) <= if j <= 0 {
            0int
        } else {
            9 * j
        },
    decreases j,
{
    if j > 0 {
        lemma_wsum_row_bounds(row, p, n, r, j - 1);
    }
}

pub proof fn lemma_wsum_bounds(g: Grid, p: Player, n: int, i: int)
    requires
        n >= 0,
    ensures
        0 <= wsum_upto(g, p, n, i) <= if i <= 0 {
            0int
        } else {
            9 * i * n
        },
    decreases i,
{
    if i > 0 {
        lemma_wsum_bounds(g, p, n, i - 1);
        lemma_wsum_row_bounds(g[i - 1], p, n, i - 1, n);
        assert(9 * (i - 1) * n + 9 * n == 9 * i * n) by (nonlinear_arith);
        if i - 1 <= 0 {
            assert(9 * (i - 1) * n <= 9 * i * n) by (nonlinear_arith)
                requires
                    i - 1 <= 0 && i > 0 && n >= 0,
            ;
        }
    }
}

} // verus!
