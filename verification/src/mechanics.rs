use vstd::prelude::*;

use crate::direction::{all_directions, Direction};
use crate::grid::{cell, count_grid, in_bounds, Grid};
use crate::player::Player;

verus! {

/// Row of the `i`-th cell along a ray that leaves `r` in direction `d`.
pub open spec fn ray_r(r: int, d: Direction, i: int) -> int
    decreases i,
{
    if i <= 0 {
        r
    } else {
        ray_r(r, d, i - 1) + d.dr()
    }
}

/// Column of the `i`-th cell along a ray that leaves `c` in direction `d`.
pub open spec fn ray_c(c: int, d: Direction, i: int) -> int
    decreases i,
{
    if i <= 0 {
        c
    } else {
        ray_c(c, d, i - 1) + d.dc()
    }
}

/// From `(r, c)`, direction `d` shows `k` contiguous opponents of `p`
/// and then a piece of `p` itself.
pub open spec fn flank(g: Grid, n: int, p: Player, r: int, c: int, d: Direction, k: int) -> bool {
    &&& 1 <= k
    &&& forall|i: int|
        1 <= i <= k ==> in_bounds(n, #[trigger] ray_r(r, d, i), ray_c(c, d, i)) && cell(
            g,
            ray_r(r, d, i),
            ray_c(c, d, i),
        ) == Some(p.spec_other())
    &&& in_bounds(n, ray_r(r, d, k + 1), ray_c(c, d, k + 1))
    &&& cell(g, ray_r(r, d, k + 1), ray_c(c, d, k + 1)) == Some(p)
}

pub open spec fn has_flank(g: Grid, n: int, p: Player, r: int, c: int, d: Direction) -> bool {
    exists|k: int| flank(g, n, p, r, c, d, k)
}

pub open spec fn flank_len(g: Grid, n: int, p: Player, r: int, c: int, d: Direction) -> int {
    choose|k: int| flank(g, n, p, r, c, d, k)
}

/// An empty in-bounds cell from which some direction flanks the opponent:
/// exactly the destinations a placement may use.
pub open spec fn valid_dest(g: Grid, n: int, p: Player, r: int, c: int) -> bool {
    &&& in_bounds(n, r, c)
    &&& cell(g, r, c) is None
    &&& exists|d: Direction, k: int| flank(g, n, p, r, c, d, k)
}

/// The coordinates a placement by `p` at `(r, c)` captures along `d`,
/// nearest first.
pub open spec fn captures_dir(g: Grid, n: int, p: Player, r: int, c: int, d: Direction) -> Seq<
    (usize, usize),
> {
    if has_flank(g, n, p, r, c, d) {
        Seq::new(
            flank_len(g, n, p, r, c, d) as nat,
            |t: int| ((ray_r(r, d, t + 1) as usize), (ray_c(c, d, t + 1) as usize)),
        )
    } else {
        Seq::empty()
    }
}

/// Captures over the first `j` scan directions, in scan order.
pub open spec fn captures_upto(g: Grid, n: int, p: Player, r: int, c: int, j: int) -> Seq<
    (usize, usize),
>
    decreases j,
{
    if j <= 0 {
        Seq::empty()
    } else {
        captures_upto(g, n, p, r, c, j - 1) + captures_dir(g, n, p, r, c, all_directions()[j - 1])
    }
}

/// Every coordinate a placement by `p` at `(r, c)` captures.
pub open spec fn captures(g: Grid, n: int, p: Player, r: int, c: int) -> Seq<(usize, usize)> {
    captures_upto(g, n, p, r, c, 8)
}

/// The grid after `p` placed at `(r, c)`: the placed cell and every
/// captured cell belong to `p`, everything else is untouched.
pub open spec fn place_grid(g: Grid, n: int, p: Player, r: int, c: int) -> Grid {
    let caps = captures(g, n, p, r, c);
    Seq::new(
        g.len(),
        |x: int|
            Seq::new(
                g[x].len(),
                |y: int|
                    if x == r && y == c {
                        Some(p)
                    } else if caps.contains(((x as usize), (y as usize))) {
                        Some(p)
                    } else {
                        g[x][y]
                    },
            ),
    )
}

/// The grid after one recorded move of `mover` is taken back: the placed
/// cell is cleared and the captured cells return to the opponent.
pub open spec fn undo_grid(
    g: Grid,
    mover: Player,
    r: int,
    c: int,
    caps: Seq<(usize, usize)>,
) -> Grid {
    Seq::new(
        g.len(),
        |x: int|
            Seq::new(
                g[x].len(),
                |y: int|
                    if x == r && y == c {
                        None
                    } else if caps.contains(((x as usize), (y as usize))) {
                        Some(mover.spec_other())
                    } else {
                        g[x][y]
                    },
            ),
    )
}

/// `p` may move somewhere on the grid.
pub open spec fn spec_can_move(g: Grid, n: int, p: Player) -> bool {
    exists|r: int, c: int| valid_dest(g, n, p, r, c)
}

/// Neither side can move: the game has ended.
pub open spec fn spec_game_over(g: Grid, n: int) -> bool {
    !spec_can_move(g, n, Player::Green) && !spec_can_move(g, n, Player::Red)
}

/// A ray moves affinely: each axis either stays put or drifts one cell
/// per step, as the direction's offsets say.
pub proof fn lemma_ray_sign(r: int, c: int, d: Direction, i: int)
    requires
        0 <= i,
    ensures
        d.dr() == 0 ==> ray_r(r, d, i) == r,
        d.dr() == 1 ==> ray_r(r, d, i) == r + i,
        d.dr() == -1 ==> ray_r(r, d, i) == r - i,
        d.dc() == 0 ==> ray_c(c, d, i) == c,
        d.dc() == 1 ==> ray_c(c, d, i) == c + i,
        d.dc() == -1 ==> ray_c(c, d, i) == c - i,
    decreases i,
{
    if i > 0 {
        lemma_ray_sign(r, c, d, i - 1);
    }
}

/// A ray that stays on an `n`-sided grid cannot be longer than the side.
pub proof fn lemma_ray_bound(r: int, c: int, d: Direction, i: int, n: int)
    requires
        0 <= i,
        in_bounds(n, r, c),
        in_bounds(n, ray_r(r, d, i), ray_c(c, d, i)),
    ensures
        i < n || i == 0,
{
    lemma_ray_sign(r, c, d, i);
    crate::direction::lemma_direction_nonzero(d);
}

/// A nonempty ray walk leaves its origin.
pub proof fn lemma_ray_leaves(r: int, c: int, d: Direction, i: int)
    requires
        1 <= i,
    ensures
        ray_r(r, d, i) != r || ray_c(c, d, i) != c,
{
    lemma_ray_sign(r, c, d, i);
    crate::direction::lemma_direction_nonzero(d);
}

/// Two nonempty ray walks from one origin land on one cell only if they
/// follow the same direction for the same distance.
pub proof fn lemma_ray_distinct(r: int, c: int, d1: Direction, i: int, d2: Direction, j: int)
    requires
        1 <= i,
        1 <= j,
        ray_r(r, d1, i) == ray_r(r, d2, j),
        ray_c(c, d1, i) == ray_c(c, d2, j),
    ensures
        d1 == d2,
        i == j,
{
    lemma_ray_sign(r, c, d1, i);
    lemma_ray_sign(r, c, d2, j);
    crate::direction::lemma_direction_nonzero(d1);
    crate::direction::lemma_direction_nonzero(d2);
    assert(d1.dr() == d2.dr() && d1.dc() == d2.dc() && i == j);
    crate::direction::lemma_offsets_injective(d1, d2);
}

/// A direction flanks for at most one length.
pub proof fn lemma_flank_unique(
    g: Grid,
    n: int,
    p: Player,
    r: int,
    c: int,
    d: Direction,
    k1: int,
    k2: int,
)
    requires
        flank(g, n, p, r, c, d, k1),
        flank(g, n, p, r, c, d, k2),
    ensures
        k1 == k2,
{
    if k1 < k2 {
        assert(cell(g, ray_r(r, d, k1 + 1), ray_c(c, d, k1 + 1)) == Some(p));
        assert(cell(g, ray_r(r, d, k1 + 1), ray_c(c, d, k1 + 1)) == Some(p.spec_other()));
        assert(p != p.spec_other());
    }
    if k2 < k1 {
        assert(cell(g, ray_r(r, d, k2 + 1), ray_c(c, d, k2 + 1)) == Some(p));
        assert(cell(g, ray_r(r, d, k2 + 1), ray_c(c, d, k2 + 1)) == Some(p.spec_other()));
        assert(p != p.spec_other());
    }
}

/// The legal destinations among the first `i` cells of the row-major
/// scan, in scan order.
pub open spec fn valid_moves_upto(g: Grid, n: int, p: Player, i: int) -> Seq<(usize, usize)>
    decreases i,
{
    if i <= 0 {
        Seq::empty()
    } else {
        let r = (i - 1) / n;
        let c = (i - 1) % n;
        valid_moves_upto(g, n, p, i - 1) + if valid_dest(g, n, p, r, c) {
            seq![((r as usize), (c as usize))]
        } else {
            Seq::empty()
        }
    }
}

/// Every legal destination for `p`, in row-major order: the canonical
/// move list every cache refresh produces.
pub open spec fn valid_moves_seq(g: Grid, n: int, p: Player) -> Seq<(usize, usize)> {
    valid_moves_upto(g, n, p, n * n)
}

/// What the canonical move list holds: exactly the legal destinations
/// among the first `i` cells, each once, in strictly increasing
/// row-major order.
pub proof fn lemma_valid_moves_upto_elems(g: Grid, n: int, p: Player, i: int)
    requires
        0 < n <= usize::MAX,
        0 <= i <= n * n,
    ensures
        forall|m: (usize, usize)| #[trigger]
            valid_moves_upto(g, n, p, i).contains(m) <==> (valid_dest(
                g,
                n,
                p,
                m.0 as int,
                m.1 as int,
            ) && (m.0 as int) * n + (m.1 as int) < i),
        forall|k: int, l: int|
            0 <= k < l < valid_moves_upto(g, n, p, i).len() ==> {
                let a = #[trigger] valid_moves_upto(g, n, p, i)[k];
                let b = #[trigger] valid_moves_upto(g, n, p, i)[l];
                (a.0 as int) < (b.0 as int) || ((a.0 as int) == (b.0 as int) && (a.1 as int) < (
                b.1 as int))
            },
    decreases i,
{
    if i > 0 {
        lemma_valid_moves_upto_elems(g, n, p, i - 1);
        let r = (i - 1) / n;
        let c = (i - 1) % n;
        assert(0 <= r && 0 <= c < n && r * n + c == i - 1) by (nonlinear_arith)
            requires
                0 < n && 0 <= i - 1 < n * n && r == (i - 1) / n && c == (i - 1) % n,
        ;
        assert(r < n) by (nonlinear_arith)
            requires
                0 < n && r * n + c == i - 1 && i - 1 < n * n && 0 <= c,
        ;
        let pre = valid_moves_upto(g, n, p, i - 1);
        let cur = valid_moves_upto(g, n, p, i);
        assert forall|m: (usize, usize)| #[trigger]
            cur.contains(m) implies (valid_dest(g, n, p, m.0 as int, m.1 as int) && (m.0 as int)
            * n + (m.1 as int) < i) by {
            let t = choose|t: int| 0 <= t < cur.len() && cur[t] == m;
            if t < pre.len() {
                assert(pre.contains(m)) by {
                    assert(pre[t] == m);
                }
            } else {
                assert(m == ((r as usize), (c as usize)));
            }
        }
        assert forall|m: (usize, usize)|
            valid_dest(g, n, p, m.0 as int, m.1 as int) && (m.0 as int) * n + (m.1 as int)
                < i implies #[trigger] cur.contains(m) by {
            if (m.0 as int) * n + (m.1 as int) < i - 1 {
                assert(pre.contains(m));
                let t = choose|t: int| 0 <= t < pre.len() && pre[t] == m;
                assert(cur[t] == m);
            } else {
                assert((m.0 as int) * n + (m.1 as int) == i - 1);
                assert(m.0 as int == r && m.1 as int == c) by (nonlinear_arith)
                    requires
                        0 < n && 0 <= (m.0 as int) && 0 <= (m.1 as int) < n && (m.0 as int) * n + (
                        m.1 as int) == i - 1 && 0 <= r && 0 <= c < n && r * n + c == i - 1,
                ;
                assert(m == ((r as usize), (c as usize)));
                assert(cur[cur.len() - 1] == m);
            }
        }
        assert forall|k: int, l: int| 0 <= k < l < cur.len() implies {
            let a = #[trigger] cur[k];
            let b = #[trigger] cur[l];
            (a.0 as int) < (b.0 as int) || ((a.0 as int) == (b.0 as int) && (a.1 as int) < (
            b.1 as int))
        } by {
            if l < pre.len() {
                assert(cur[k] == pre[k] && cur[l] == pre[l]);
            } else {
                // the appended cell has the largest row-major rank so far
                assert(cur[k] == pre[k]);
                assert(pre.contains(pre[k]));
                let a = cur[k];
                let b = cur[l];
                assert(b == ((r as usize), (c as usize)));
                assert((a.0 as int) * n + (a.1 as int) < i - 1);
                assert(valid_dest(g, n, p, a.0 as int, a.1 as int));
                assert((a.0 as int) < r || ((a.0 as int) == r && (a.1 as int) < c))
                    by (nonlinear_arith)
                    requires
                        0 < n && 0 <= (a.0 as int) && 0 <= (a.1 as int) < n && (a.0 as int) * n + (
                        a.1 as int) < i - 1 && 0 <= r && 0 <= c < n && r * n + c == i - 1,
                ;
            }
        }
    }
}

/// A run of opponents that ends on an empty cell flanks nothing in that
/// direction.
pub proof fn lemma_no_flank_open(g: Grid, n: int, p: Player, r: int, c: int, d: Direction, t: int)
    requires
        0 <= t,
        forall|u: int|
            1 <= u <= t ==> in_bounds(n, #[trigger] ray_r(r, d, u), ray_c(c, d, u)) && cell(
                g,
                ray_r(r, d, u),
                ray_c(c, d, u),
            ) == Some(p.spec_other()),
        in_bounds(n, ray_r(r, d, t + 1), ray_c(c, d, t + 1)),
        cell(g, ray_r(r, d, t + 1), ray_c(c, d, t + 1)) is None,
    ensures
        forall|k: int| !flank(g, n, p, r, c, d, k),
{
    assert forall|k: int| !flank(g, n, p, r, c, d, k) by {
        if flank(g, n, p, r, c, d, k) {
            if k + 1 <= t {
                assert(cell(g, ray_r(r, d, k + 1), ray_c(c, d, k + 1)) == Some(p));
                assert(cell(g, ray_r(r, d, k + 1), ray_c(c, d, k + 1)) == Some(p.spec_other()));
            } else if k == t {
                assert(cell(g, ray_r(r, d, k + 1), ray_c(c, d, k + 1)) == Some(p));
            } else {
                assert(1 <= t + 1 <= k);
                assert(cell(g, ray_r(r, d, t + 1), ray_c(c, d, t + 1)) == Some(p.spec_other()));
            }
        }
    }
}

/// A run of opponents that runs off the board flanks nothing in that
/// direction.
pub proof fn lemma_no_flank_edge(g: Grid, n: int, p: Player, r: int, c: int, d: Direction, t: int)
    requires
        0 <= t,
        forall|u: int|
            1 <= u <= t ==> in_bounds(n, #[trigger] ray_r(r, d, u), ray_c(c, d, u)) && cell(
                g,
                ray_r(r, d, u),
                ray_c(c, d, u),
            ) == Some(p.spec_other()),
        !in_bounds(n, ray_r(r, d, t + 1), ray_c(c, d, t + 1)),
    ensures
        forall|k: int| !flank(g, n, p, r, c, d, k),
{
    assert forall|k: int| !flank(g, n, p, r, c, d, k) by {
        if flank(g, n, p, r, c, d, k) {
            if k + 1 <= t {
                assert(cell(g, ray_r(r, d, k + 1), ray_c(c, d, k + 1)) == Some(p));
                assert(cell(g, ray_r(r, d, k + 1), ray_c(c, d, k + 1)) == Some(p.spec_other()));
            } else if k == t {
                assert(in_bounds(n, ray_r(r, d, k + 1), ray_c(c, d, k + 1)));
            } else {
                assert(1 <= t + 1 <= k);
                assert(in_bounds(n, ray_r(r, d, t + 1), ray_c(c, d, t + 1)));
            }
        }
    }
}

/// A neighbouring own piece, with no opponents before it, flanks
/// nothing in that direction.
pub proof fn lemma_no_flank_adjacent(g: Grid, n: int, p: Player, r: int, c: int, d: Direction)
    requires
        cell(g, ray_r(r, d, 1), ray_c(c, d, 1)) == Some(p),
    ensures
        forall|k: int| !flank(g, n, p, r, c, d, k),
{
    assert forall|k: int| !flank(g, n, p, r, c, d, k) by {
        if flank(g, n, p, r, c, d, k) {
            assert(cell(g, ray_r(r, d, 1), ray_c(c, d, 1)) == Some(p.spec_other()));
        }
    }
}

/// What the capture list along one direction holds: when the direction
/// flanks, exactly the run of opponents; otherwise nothing.
pub proof fn lemma_captures_dir_elems(g: Grid, n: int, p: Player, r: int, c: int, d: Direction)
    requires
        in_bounds(n, r, c),
        n <= usize::MAX,
    ensures
        forall|t: int|
            0 <= t < captures_dir(g, n, p, r, c, d).len() ==> {
                let m = #[trigger] captures_dir(g, n, p, r, c, d)[t];
                &&& m.0 as int == ray_r(r, d, t + 1)
                &&& m.1 as int == ray_c(c, d, t + 1)
                &&& in_bounds(n, m.0 as int, m.1 as int)
                &&& cell(g, m.0 as int, m.1 as int) == Some(p.spec_other())
                &&& !(m.0 as int == r && m.1 as int == c)
            },
{
    if has_flank(g, n, p, r, c, d) {
        let k = flank_len(g, n, p, r, c, d);
        assert(flank(g, n, p, r, c, d, k));
        assert forall|t: int| 0 <= t < captures_dir(g, n, p, r, c, d).len() implies {
            let m = #[trigger] captures_dir(g, n, p, r, c, d)[t];
            &&& m.0 as int == ray_r(r, d, t + 1)
            &&& m.1 as int == ray_c(c, d, t + 1)
            &&& in_bounds(n, m.0 as int, m.1 as int)
            &&& cell(g, m.0 as int, m.1 as int) == Some(p.spec_other())
            &&& !(m.0 as int == r && m.1 as int == c)
        } by {
            assert(in_bounds(n, ray_r(r, d, t + 1), ray_c(c, d, t + 1)));
            assert(cell(g, ray_r(r, d, t + 1), ray_c(c, d, t + 1)) == Some(p.spec_other()));
            lemma_ray_leaves(r, c, d, t + 1);
        }
    }
}

/// Every captured coordinate is an in-bounds opponent piece, and never
/// the placed cell itself.
pub proof fn lemma_captures_elems(g: Grid, n: int, p: Player, r: int, c: int, j: int)
    requires
        in_bounds(n, r, c),
        n <= usize::MAX,
        0 <= j <= 8,
    ensures
        forall|m: (usize, usize)|
            captures_upto(g, n, p, r, c, j).contains(m) ==> in_bounds(n, m.0 as int, m.1 as int)
                && cell(g, m.0 as int, m.1 as int) == Some(p.spec_other()) && !(m.0 as int == r
                && m.1 as int == c),
    decreases j,
{
    if j > 0 {
        lemma_captures_elems(g, n, p, r, c, j - 1);
        let d = all_directions()[j - 1];
        lemma_captures_dir_elems(g, n, p, r, c, d);
        assert forall|m: (usize, usize)|
            captures_upto(g, n, p, r, c, j).contains(m) implies in_bounds(
            n,
            m.0 as int,
            m.1 as int,
        ) && cell(g, m.0 as int, m.1 as int) == Some(p.spec_other()) && !(m.0 as int == r
            && m.1 as int == c) by {
            let pre = captures_upto(g, n, p, r, c, j - 1);
            let dirpart = captures_dir(g, n, p, r, c, d);
            let t = choose|t: int| 0 <= t < captures_upto(g, n, p, r, c, j).len()
                && captures_upto(g, n, p, r, c, j)[t] == m;
            if t < pre.len() {
                assert(pre.contains(m)) by {
                    assert(pre[t] == m);
                }
            } else {
                assert(dirpart[t - pre.len()] == m);
            }
        }
    }
}

/// A placement flips at least one piece: a valid destination always
/// captures somewhere.
pub proof fn lemma_valid_dest_captures(g: Grid, n: int, p: Player, r: int, c: int)
    requires
        valid_dest(g, n, p, r, c),
    ensures
        captures(g, n, p, r, c).len() >= 1,
{
    let (d, k): (Direction, int) = choose|d: Direction, k: int| flank(g, n, p, r, c, d, k);
    assert(has_flank(g, n, p, r, c, d)) by {
        assert(flank(g, n, p, r, c, d, k));
    }
    let kk = flank_len(g, n, p, r, c, d);
    assert(flank(g, n, p, r, c, d, kk));
    assert(captures_dir(g, n, p, r, c, d).len() == kk >= 1);
    let j = choose|j: int| 0 <= j < 8 && all_directions()[j] == d;
    assert(0 <= j < 8 && all_directions()[j] == d) by {
        crate::direction::lemma_all_directions_complete();
        assert(all_directions().contains(d));
    }
    lemma_captures_upto_len_mono(g, n, p, r, c, j + 1, 8);
    assert(captures_upto(g, n, p, r, c, j + 1).len() >= captures_dir(
        g,
        n,
        p,
        r,
        c,
        d,
    ).len());
}

proof fn lemma_captures_upto_len_mono(g: Grid, n: int, p: Player, r: int, c: int, j1: int, j2: int)
    requires
        0 <= j1 <= j2,
    ensures
        captures_upto(g, n, p, r, c, j1).len() <= captures_upto(g, n, p, r, c, j2).len(),
    decreases j2 - j1,
{
    if j1 < j2 {
        lemma_captures_upto_len_mono(g, n, p, r, c, j1, j2 - 1);
    }
}

/// Scanning never reads the scanned-from cell, so grids that agree away
/// from `(r, c)` flank and capture alike from `(r, c)`.
pub proof fn lemma_captures_agree_at_origin(
    g1: Grid,
    g2: Grid,
    n: int,
    p: Player,
    r: int,
    c: int,
)
    requires
        forall|x: int, y: int|
            in_bounds(n, x, y) && !(x == r && y == c) ==> cell(g1, x, y) == cell(g2, x, y),
    ensures
        forall|d: Direction, k: int|
            #[trigger] flank(g1, n, p, r, c, d, k) <==> #[trigger] flank(g2, n, p, r, c, d, k),
        captures(g1, n, p, r, c) == captures(g2, n, p, r, c),
{
    assert forall|d: Direction, k: int|
        #[trigger] flank(g1, n, p, r, c, d, k) <==> #[trigger] flank(g2, n, p, r, c, d, k) by {
        if flank(g1, n, p, r, c, d, k) {
            lemma_flank_agree_one(g1, g2, n, p, r, c, d, k);
        }
        if flank(g2, n, p, r, c, d, k) {
            lemma_flank_agree_one(g2, g1, n, p, r, c, d, k);
        }
    }
    assert forall|d: Direction|
        #[trigger] captures_dir(g1, n, p, r, c, d) == captures_dir(g2, n, p, r, c, d) by {
        assert(has_flank(g1, n, p, r, c, d) <==> has_flank(g2, n, p, r, c, d)) by {
            if has_flank(g1, n, p, r, c, d) {
                let k = choose|k: int| flank(g1, n, p, r, c, d, k);
                assert(flank(g2, n, p, r, c, d, k));
            }
            if has_flank(g2, n, p, r, c, d) {
                let k = choose|k: int| flank(g2, n, p, r, c, d, k);
                assert(flank(g1, n, p, r, c, d, k));
            }
        }
        if has_flank(g1, n, p, r, c, d) {
            let k1 = flank_len(g1, n, p, r, c, d);
            let k2 = flank_len(g2, n, p, r, c, d);
            assert(flank(g1, n, p, r, c, d, k1));
            assert(flank(g2, n, p, r, c, d, k2));
            assert(flank(g1, n, p, r, c, d, k2));
            lemma_flank_unique(g1, n, p, r, c, d, k1, k2);
            assert(captures_dir(g1, n, p, r, c, d) =~= captures_dir(g2, n, p, r, c, d));
        } else {
            assert(captures_dir(g1, n, p, r, c, d) =~= captures_dir(g2, n, p, r, c, d));
        }
    }
    lemma_captures_upto_agree(g1, g2, n, p, r, c, 8);
}

proof fn lemma_flank_agree_one(
    g1: Grid,
    g2: Grid,
    n: int,
    p: Player,
    r: int,
    c: int,
    d: Direction,
    k: int,
)
    requires
        forall|x: int, y: int|
            in_bounds(n, x, y) && !(x == r && y == c) ==> cell(g1, x, y) == cell(g2, x, y),
        flank(g1, n, p, r, c, d, k),
    ensures
        flank(g2, n, p, r, c, d, k),
{
    assert forall|i: int| 1 <= i <= k implies in_bounds(n, #[trigger] ray_r(r, d, i), ray_c(c, d, i))
        && cell(g2, ray_r(r, d, i), ray_c(c, d, i)) == Some(p.spec_other()) by {
        assert(in_bounds(n, ray_r(r, d, i), ray_c(c, d, i)));
        lemma_ray_leaves(r, c, d, i);
    }
    lemma_ray_leaves(r, c, d, k + 1);
}

proof fn lemma_captures_upto_agree(g1: Grid, g2: Grid, n: int, p: Player, r: int, c: int, j: int)
    requires
        forall|d: Direction| #[trigger] captures_dir(g1, n, p, r, c, d) == captures_dir(
            g2,
            n,
            p,
            r,
            c,
            d,
        ),
    ensures
        captures_upto(g1, n, p, r, c, j) == captures_upto(g2, n, p, r, c, j),
    decreases j,
{
    if j > 0 {
        lemma_captures_upto_agree(g1, g2, n, p, r, c, j - 1);
    }
}

/// Taking a move straight back restores every cell: placing at a valid
/// destination and then undoing that move is the identity on the grid.
pub proof fn lemma_place_then_undo_restores(g: Grid, n: int, p: Player, r: int, c: int)
    requires
        crate::grid::grid_wf(g, n),
        n <= usize::MAX,
        valid_dest(g, n, p, r, c),
    ensures
        undo_grid(place_grid(g, n, p, r, c), p, r, c, captures(g, n, p, r, c)) == g,
{
    let caps = captures(g, n, p, r, c);
    let g1 = place_grid(g, n, p, r, c);
    let g2 = undo_grid(g1, p, r, c, caps);
    lemma_captures_elems(g, n, p, r, c, 8);
    assert forall|x: int| 0 <= x < n implies g2[x] =~= g[x] by {
        assert forall|y: int| 0 <= y < n implies g2[x][y] == g[x][y] by {
            if x == r && y == c {
                assert(cell(g, r, c) is None);
            } else if caps.contains(((x as usize), (y as usize))) {
                assert(cell(g, x, y) == Some(p.spec_other()));
            }
        }
    }
    assert(g2 =~= g);
}

/// A placement fills exactly one empty cell: the number of empty cells
/// drops by one.
pub proof fn lemma_place_grid_empties(g: Grid, n: int, p: Player, r: int, c: int)
    requires
        crate::grid::grid_wf(g, n),
        n <= usize::MAX,
        valid_dest(g, n, p, r, c),
    ensures
        count_grid(place_grid(g, n, p, r, c), None, n) == count_grid(g, None, n) - 1,
{
    let caps = captures(g, n, p, r, c);
    let g1 = place_grid(g, n, p, r, c);
    lemma_captures_elems(g, n, p, r, c, 8);
    // an intermediate grid: `g` with only the placed cell filled
    let gs = g.update(r, g[r].update(c, Some(p)));
    assert(cell(gs, r, c) == Some(p));
    assert(forall|x: int, y: int|
        in_bounds(n, x, y) && !(x == r && y == c) ==> cell(gs, x, y) == cell(g, x, y));
    crate::grid::lemma_count_diff_at(g, gs, None, n, r, c);
    assert(count_grid(gs, None, n) == count_grid(g, None, n) - 1);
    assert forall|x: int, y: int|
        0 <= x < n && 0 <= y < n implies ((cell(g1, x, y) is None) <==> (cell(gs, x, y)
        is None)) by {
        if x == r && y == c {
        } else if caps.contains(((x as usize), (y as usize))) {
            assert(cell(g, x, y) == Some(p.spec_other()));
            assert(cell(gs, x, y) == cell(g, x, y));
        } else {
            assert(cell(g1, x, y) == cell(g, x, y));
            assert(cell(gs, x, y) == cell(g, x, y));
        }
    }
    crate::grid::lemma_count_none_agree(g1, gs, n, n);
}

/// Every captured coordinate of the first `j` directions lies on the
/// ray of one of those directions, a positive number of steps out.
proof fn lemma_captures_upto_rays(g: Grid, n: int, p: Player, r: int, c: int, j: int)
    requires
        in_bounds(n, r, c),
        n <= usize::MAX,
        0 <= j <= 8,
    ensures
        forall|t: int|
            0 <= t < captures_upto(g, n, p, r, c, j).len() ==> exists|dj: int, u: int|
                0 <= dj < j && 1 <= u && #[trigger] ray_r(r, all_directions()[dj], u) == ((
                #[trigger] captures_upto(g, n, p, r, c, j)[t]).0) as int && ray_c(
                    c,
                    all_directions()[dj],
                    u,
                ) == (captures_upto(g, n, p, r, c, j)[t].1) as int,
    decreases j,
{
    if j > 0 {
        lemma_captures_upto_rays(g, n, p, r, c, j - 1);
        let d = all_directions()[j - 1];
        lemma_captures_dir_elems(g, n, p, r, c, d);
        let pre = captures_upto(g, n, p, r, c, j - 1);
        let cur = captures_upto(g, n, p, r, c, j);
        let dirpart = captures_dir(g, n, p, r, c, d);
        assert forall|t: int| 0 <= t < cur.len() implies exists|dj: int, u: int|
            0 <= dj < j && 1 <= u && #[trigger] ray_r(r, all_directions()[dj], u) == ((
            #[trigger] cur[t]).0) as int && ray_c(c, all_directions()[dj], u) == (cur[t].1)
                as int by {
            if t < pre.len() {
                assert(cur[t] == pre[t]);
                let (dj, u): (int, int) = choose|dj: int, u: int|
                    0 <= dj < j - 1 && 1 <= u && #[trigger] ray_r(r, all_directions()[dj], u) == (
                    pre[t].0) as int && ray_c(c, all_directions()[dj], u) == (pre[t].1) as int;
                assert(ray_r(r, all_directions()[dj], u) == (cur[t].0) as int && ray_c(
                    c,
                    all_directions()[dj],
                    u,
                ) == (cur[t].1) as int);
            } else {
                let u = t - pre.len() + 1;
                assert(cur[t] == dirpart[t - pre.len()]);
                assert((dirpart[t - pre.len()].0) as int == ray_r(r, d, u) && (dirpart[t
                    - pre.len()].1) as int == ray_c(c, d, u));
                assert(ray_r(r, all_directions()[j - 1], u) == (cur[t].0) as int && ray_c(
                    c,
                    all_directions()[j - 1],
                    u,
                ) == (cur[t].1) as int);
            }
        }
    }
}

/// No coordinate is captured twice: the runs of the eight directions
/// never meet.
pub proof fn lemma_captures_distinct(g: Grid, n: int, p: Player, r: int, c: int)
    requires
        in_bounds(n, r, c),
        n <= usize::MAX,
    ensures
        forall|t1: int, t2: int|
            0 <= t1 < t2 < captures(g, n, p, r, c).len() ==> #[trigger] captures(
                g,
                n,
                p,
                r,
                c,
            )[t1] != #[trigger] captures(g, n, p, r, c)[t2],
{
    lemma_captures_distinct_upto(g, n, p, r, c, 8);
}

proof fn lemma_captures_distinct_upto(g: Grid, n: int, p: Player, r: int, c: int, j: int)
    requires
        in_bounds(n, r, c),
        n <= usize::MAX,
        0 <= j <= 8,
    ensures
        forall|t1: int, t2: int|
            0 <= t1 < t2 < captures_upto(g, n, p, r, c, j).len() ==> #[trigger] captures_upto(
                g,
                n,
                p,
                r,
                c,
                j,
            )[t1] != #[trigger] captures_upto(g, n, p, r, c, j)[t2],
    decreases j,
{
    if j > 0 {
        lemma_captures_distinct_upto(g, n, p, r, c, j - 1);
        lemma_captures_upto_rays(g, n, p, r, c, j - 1);
        let d = all_directions()[j - 1];
        lemma_captures_dir_elems(g, n, p, r, c, d);
        lemma_captures_elems(g, n, p, r, c, j);
        let pre = captures_upto(g, n, p, r, c, j - 1);
        let cur = captures_upto(g, n, p, r, c, j);
        let dirpart = captures_dir(g, n, p, r, c, d);
        assert forall|t1: int, t2: int|
            0 <= t1 < t2 < cur.len() implies #[trigger] cur[t1] != #[trigger] cur[t2] by {
            if t2 < pre.len() {
                assert(cur[t1] == pre[t1] && cur[t2] == pre[t2]);
            } else if t1 >= pre.len() {
                // two steps along one direction never coincide
                let u1 = t1 - pre.len() + 1;
                let u2 = t2 - pre.len() + 1;
                assert((cur[t1].0) as int == ray_r(r, d, u1) && (cur[t1].1) as int == ray_c(
                    c,
                    d,
                    u1,
                ));
                assert((cur[t2].0) as int == ray_r(r, d, u2) && (cur[t2].1) as int == ray_c(
                    c,
                    d,
                    u2,
                ));
                if cur[t1] == cur[t2] {
                    lemma_ray_distinct(r, c, d, u1, d, u2);
                }
            } else {
                // runs of two different directions never meet
                assert(cur[t1] == pre[t1]);
                let (dj, u): (int, int) = choose|dj: int, u: int|
                    0 <= dj < j - 1 && 1 <= u && #[trigger] ray_r(r, all_directions()[dj], u) == (
                    pre[t1].0) as int && ray_c(c, all_directions()[dj], u) == (pre[t1].1) as int;
                let u2 = t2 - pre.len() + 1;
                assert((cur[t2].0) as int == ray_r(r, d, u2) && (cur[t2].1) as int == ray_c(
                    c,
                    d,
                    u2,
                ));
                if cur[t1] == cur[t2] {
                    lemma_ray_distinct(r, c, all_directions()[dj], u, d, u2);
                    assert(all_directions()[dj] == all_directions()[j - 1]);
                    assert(dj < j - 1);
                    assert(false);
                }
            }
        }
    }
}

/// The grid with the first `i` captured coordinates already flipped to
/// the mover.
spec fn flipped_upto(g: Grid, mover: Player, caps: Seq<(usize, usize)>, i: int) -> Grid {
    Seq::new(
        g.len(),
        |x: int|
            Seq::new(
                g[x].len(),
                |y: int|
                    if caps.take(i).contains(((x as usize), (y as usize))) {
                        Some(mover)
                    } else {
                        g[x][y]
                    },
            ),
    )
}

proof fn lemma_flipped_counts(
    g: Grid,
    n: int,
    mover: Player,
    caps: Seq<(usize, usize)>,
    i: int,
    v: Option<Player>,
)
    requires
        crate::grid::grid_wf(g, n),
        0 < n <= usize::MAX,
        0 <= i <= caps.len(),
        forall|t: int|
            0 <= t < caps.len() ==> in_bounds(n, ((#[trigger] caps[t]).0) as int, (caps[t].1) as int)
                && cell(g, (caps[t].0) as int, (caps[t].1) as int) == Some(mover.spec_other()),
        forall|t1: int, t2: int|
            0 <= t1 < t2 < caps.len() ==> #[trigger] caps[t1] != #[trigger] caps[t2],
    ensures
        count_grid(flipped_upto(g, mover, caps, i), v, n) == count_grid(g, v, n) + i * (
        if v == Some(mover) {
            1int
        } else if v == Some(mover.spec_other()) {
            -1int
        } else {
            0int
        }),
    decreases i,
{
    let delta: int = if v == Some(mover) {
        1int
    } else if v == Some(mover.spec_other()) {
        -1int
    } else {
        0int
    };
    if i == 0 {
        assert forall|x: int, y: int|
            in_bounds(n, x, y) implies cell(flipped_upto(g, mover, caps, 0), x, y) == cell(
            g,
            x,
            y,
        ) by {
            assert(!caps.take(0).contains(((x as usize), (y as usize))));
        }
        crate::grid::lemma_count_diff_at(g, flipped_upto(g, mover, caps, 0), v, n, 0, 0);
        assert(0int * delta == 0) by (nonlinear_arith);
    } else {
        lemma_flipped_counts(g, n, mover, caps, i - 1, v);
        let g1 = flipped_upto(g, mover, caps, i - 1);
        let g2 = flipped_upto(g, mover, caps, i);
        let m = caps[i - 1];
        let mr = (m.0) as int;
        let mc = (m.1) as int;
        assert forall|x: int, y: int|
            in_bounds(n, x, y) && !(x == mr && y == mc) implies cell(g1, x, y) == cell(
            g2,
            x,
            y,
        ) by {
            let mm = ((x as usize), (y as usize));
            assert(caps.take(i - 1).contains(mm) <==> caps.take(i).contains(mm)) by {
                if caps.take(i - 1).contains(mm) {
                    let t = choose|t: int|
                        0 <= t < i - 1 && #[trigger] caps.take(i - 1)[t] == mm;
                    assert(caps.take(i)[t] == mm);
                }
                if caps.take(i).contains(mm) {
                    let t = choose|t: int| 0 <= t < i && #[trigger] caps.take(i)[t] == mm;
                    if t == i - 1 {
                        assert(mm == m);
                    } else {
                        assert(caps.take(i - 1)[t] == mm);
                    }
                }
            }
        }
        assert(cell(g1, mr, mc) == cell(g, mr, mc)) by {
            if caps.take(i - 1).contains(m) {
                let t = choose|t: int| 0 <= t < i - 1 && #[trigger] caps.take(i - 1)[t] == m;
                assert(caps[t] == m && caps[i - 1] == m);
            }
        }
        assert(cell(g2, mr, mc) == Some(mover)) by {
            assert(caps.take(i)[i - 1] == m);
            assert(caps.take(i).contains(m));
        }
        crate::grid::lemma_count_diff_at(g1, g2, v, n, mr, mc);
        assert((i - 1) * delta + delta == i * delta) by (nonlinear_arith);
    }
}

/// What one placement does to the three counts: the mover gains the
/// placed piece and every captured piece, the opponent loses exactly
/// the captured pieces, and exactly one empty cell is filled.
pub proof fn lemma_placement_count_deltas(g: Grid, n: int, p: Player, r: int, c: int)
    requires
        crate::grid::grid_wf(g, n),
        n <= usize::MAX,
        valid_dest(g, n, p, r, c),
    ensures
        count_grid(place_grid(g, n, p, r, c), Some(p), n) == count_grid(g, Some(p), n) + 1
            + captures(g, n, p, r, c).len(),
        count_grid(place_grid(g, n, p, r, c), Some(p.spec_other()), n) == count_grid(
            g,
            Some(p.spec_other()),
            n,
        ) - captures(g, n, p, r, c).len(),
        count_grid(place_grid(g, n, p, r, c), None, n) == count_grid(g, None, n) - 1,
{
    let caps = captures(g, n, p, r, c);
    lemma_captures_elems(g, n, p, r, c, 8);
    lemma_captures_distinct(g, n, p, r, c);
    lemma_place_grid_empties(g, n, p, r, c);
    assert forall|t: int|
        0 <= t < caps.len() implies in_bounds(n, ((#[trigger] caps[t]).0) as int, (caps[t].1) as int)
        && cell(g, (caps[t].0) as int, (caps[t].1) as int) == Some(p.spec_other()) by {
        assert(caps.contains(caps[t])) by {
            assert(caps[t] == caps[t]);
        }
    }
    // flip the captured run first, then fill the placed cell
    let gf = flipped_upto(g, p, caps, caps.len() as int);
    let pg = place_grid(g, n, p, r, c);
    assert forall|x: int, y: int|
        in_bounds(n, x, y) && !(x == r && y == c) implies cell(pg, x, y) == cell(gf, x, y) by {
        let mm = ((x as usize), (y as usize));
        assert(caps.take(caps.len() as int) =~= caps);
    }
    assert(cell(pg, r, c) == Some(p));
    assert(cell(gf, r, c) == cell(g, r, c)) by {
        assert(caps.take(caps.len() as int) =~= caps);
        if caps.contains(((r as usize), (c as usize))) {
            let t = choose|t: int| 0 <= t < caps.len() && #[trigger] caps[t] == (((r as usize), (
            c as usize)));
            assert(!((caps[t].0) as int == r && (caps[t].1) as int == c));
        }
    }
    assert(cell(g, r, c) is None);
    lemma_flipped_counts(g, n, p, caps, caps.len() as int, Some(p));
    lemma_flipped_counts(g, n, p, caps, caps.len() as int, Some(p.spec_other()));
    assert(caps.len() as int * 1int == caps.len() as int) by (nonlinear_arith);
    assert(caps.len() as int * (-1int) == -(caps.len() as int)) by (nonlinear_arith);
    crate::grid::lemma_count_diff_at(gf, pg, Some(p), n, r, c);
    crate::grid::lemma_count_diff_at(gf, pg, Some(p.spec_other()), n, r, c);
}

} // verus!
