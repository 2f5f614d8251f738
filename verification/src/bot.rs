use vstd::prelude::*;

use crate::board::{Board, MAX_SIDE};
use crate::bot_algorithm::BotAlgorithm;
use crate::bot_heuristic::BotHeuristic;
use crate::grid::{
    count_grid, in_bounds, lemma_count_bounds, lemma_wsum_bounds, weight, wsum, wsum_row,
    wsum_upto, Grid,
};
use crate::history::copy_coords;
use crate::grid::{grid_wf, lemma_count_pos};
use crate::mechanics::{lemma_valid_moves_upto_elems, valid_moves_seq};
use crate::mechanics::{
    captures, lemma_captures_elems, lemma_place_grid_empties, lemma_place_then_undo_restores,
    place_grid, spec_can_move, spec_game_over, valid_dest,
};
use crate::player::Player;
use crate::reversi::Reversi;

verus! {

/// Every leaf score, under either heuristic, fits in this bound.
pub open spec fn eval_bound(n: int) -> int {
    9 * n * n
}

/// Own piece count minus the opponent's.
pub open spec fn spec_uniform_eval(g: Grid, n: int, p: Player) -> int {
    count_grid(g, Some(p), n) - count_grid(g, Some(p.spec_other()), n)
}

/// Positionally weighted piece count difference: corners 9, other edge
/// cells 3, interior 1.
pub open spec fn spec_tactical_eval(g: Grid, n: int, p: Player) -> int {
    wsum(g, p, n) - wsum(g, p.spec_other(), n)
}

/// The selected heuristic's score of `g` from `p`'s perspective.
pub open spec fn spec_eval(h: BotHeuristic, g: Grid, n: int, p: Player) -> int {
    match h {
        BotHeuristic::UniformWeighting => spec_uniform_eval(g, n, p),
        BotHeuristic::TacticalWeighting => spec_tactical_eval(g, n, p),
    }
}

/// Whether a depth bound cuts the search off at `depth`.
pub open spec fn spec_cutoff(md: Option<usize>, depth: usize) -> bool {
    match md {
        Some(m) => depth >= m,
        None => false,
    }
}

/// Second component of the search's termination measure: a node whose
/// side to move must pass sits above the node after the pass.
pub open spec fn pass_rank(g: Grid, n: int, p: Player) -> int {
    if spec_can_move(g, n, p) {
        0
    } else {
        1
    }
}

/// Swapping the perspective negates either heuristic's score.
pub proof fn lemma_eval_antisym(h: BotHeuristic, g: Grid, n: int, p: Player)
    ensures
        spec_eval(h, g, n, p) == -spec_eval(h, g, n, p.spec_other()),
{
}

/// The minimax reading of a position: a leaf when the game is over or
/// the budget is spent, the opponent's value after a forced pass, and
/// otherwise the best child value for the side to move — largest when
/// the searching side moves, smallest when its opponent does.
pub open spec fn spec_minmax(
    g: Grid,
    n: int,
    mover: Player,
    bot: Player,
    h: BotHeuristic,
    md: Option<usize>,
    depth: int,
) -> int
    decreases count_grid(g, None, n), pass_rank(g, n, mover), n * n + 1,
        when grid_wf(g, n) && 0 < n <= usize::MAX
    via spec_minmax_decreases
{
    if spec_game_over(g, n) || (md matches Some(m) && depth >= m) {
        spec_eval(h, g, n, bot)
    } else if !spec_can_move(g, n, mover) {
        spec_minmax(g, n, mover.spec_other(), bot, h, md, depth + 1)
    } else {
        match mm_scan(g, n, mover, bot, h, md, depth, 0) {
            Some(v) => v,
            None => spec_eval(h, g, n, bot),
        }
    }
}

/// Best child value over the cells with row-major index at least `i`,
/// or nothing when no such cell is a legal destination.
pub open spec fn mm_scan(
    g: Grid,
    n: int,
    mover: Player,
    bot: Player,
    h: BotHeuristic,
    md: Option<usize>,
    depth: int,
    i: int,
) -> Option<int>
    decreases count_grid(g, None, n), pass_rank(g, n, mover), n * n - i,
        when grid_wf(g, n) && 0 < n <= usize::MAX && 0 <= i
    via mm_scan_decreases
{
    if i >= n * n {
        None
    } else {
        let r = i / n;
        let c = i % n;
        let rest = mm_scan(g, n, mover, bot, h, md, depth, i + 1);
        if valid_dest(g, n, mover, r, c) {
            let v = spec_minmax(
                place_grid(g, n, mover, r, c),
                n,
                mover.spec_other(),
                bot,
                h,
                md,
                depth + 1,
            );
            match rest {
                None => Some(v),
                Some(w) => Some(
                    if mover == bot {
                        if v > w {
                            v
                        } else {
                            w
                        }
                    } else {
                        if v < w {
                            v
                        } else {
                            w
                        }
                    },
                ),
            }
        } else {
            rest
        }
    }
}

#[via_fn]
proof fn spec_minmax_decreases(
    g: Grid,
    n: int,
    mover: Player,
    bot: Player,
    h: BotHeuristic,
    md: Option<usize>,
    depth: int,
) {
    lemma_count_bounds(g, None, n, n);
    assert(n * n >= 0) by (nonlinear_arith);
    if !(spec_game_over(g, n) || (md matches Some(m) && depth >= m)) && !spec_can_move(
        g,
        n,
        mover,
    ) {
        assert(spec_can_move(g, n, mover.spec_other()));
    }
}

#[via_fn]
proof fn mm_scan_decreases(
    g: Grid,
    n: int,
    mover: Player,
    bot: Player,
    h: BotHeuristic,
    md: Option<usize>,
    depth: int,
    i: int,
) {
    lemma_count_bounds(g, None, n, n);
    if i < n * n {
        let r = i / n;
        let c = i % n;
        if valid_dest(g, n, mover, r, c) {
            assert(0 <= r < n && 0 <= c < n) by (nonlinear_arith)
                requires
                    0 < n && 0 <= i < n * n && r == i / n && c == i % n,
            ;
            crate::mechanics::lemma_place_grid_empties(g, n, mover, r, c);
            lemma_count_bounds(place_grid(g, n, mover, r, c), None, n, n);
        }
    }
}

/// The value of the child a move reaches: place it and read the
/// position one level deeper with the turn handed over.
pub open spec fn mm_child(
    g: Grid,
    n: int,
    mover: Player,
    bot: Player,
    h: BotHeuristic,
    md: Option<usize>,
    depth: int,
    r: int,
    c: int,
) -> int {
    spec_minmax(place_grid(g, n, mover, r, c), n, mover.spec_other(), bot, h, md, depth + 1)
}

/// The child values of a move list, in list order.
pub open spec fn minmax_child_scores(
    g: Grid,
    n: int,
    mover: Player,
    bot: Player,
    h: BotHeuristic,
    md: Option<usize>,
    depth: int,
    moves: Seq<(usize, usize)>,
) -> Seq<int> {
    Seq::new(
        moves.len(),
        |k: int| mm_child(g, n, mover, bot, h, md, depth, (moves[k].0) as int, (moves[k].1) as int),
    )
}

/// The index a left-to-right scan with strict improvement settles on:
/// the earliest maximum, or minimum, of `s[0..i]`.
pub open spec fn first_best_index(s: Seq<int>, maximizing: bool, i: int) -> int
    decreases i,
{
    if i <= 1 {
        0
    } else {
        let b = first_best_index(s, maximizing, i - 1);
        if (maximizing && s[i - 1] > s[b]) || (!maximizing && s[i - 1] < s[b]) {
            i - 1
        } else {
            b
        }
    }
}

pub proof fn lemma_first_best_index_bounds(s: Seq<int>, maximizing: bool, i: int)
    requires
        1 <= i,
    ensures
        0 <= first_best_index(s, maximizing, i) < i,
    decreases i,
{
    if i > 1 {
        lemma_first_best_index_bounds(s, maximizing, i - 1);
    }
}

/// The settled entry beats, or ties, every scanned entry.
pub proof fn lemma_first_best_dominates(s: Seq<int>, maximizing: bool, i: int, k: int)
    requires
        0 <= k < i,
    ensures
        maximizing ==> s[k] <= s[first_best_index(s, maximizing, i)],
        !maximizing ==> s[k] >= s[first_best_index(s, maximizing, i)],
    decreases i,
{
    lemma_first_best_index_bounds(s, maximizing, i);
    if k < i - 1 && i > 1 {
        lemma_first_best_dominates(s, maximizing, i - 1, k);
    }
}

/// What a defined scan result means: some legal destination past `i`
/// attains it, and no legal destination past `i` beats it.
pub proof fn lemma_mm_scan_props(
    g: Grid,
    n: int,
    mover: Player,
    bot: Player,
    h: BotHeuristic,
    md: Option<usize>,
    depth: int,
    i: int,
)
    requires
        grid_wf(g, n),
        0 < n <= usize::MAX,
        0 <= i <= n * n,
    ensures
        (mm_scan(g, n, mover, bot, h, md, depth, i) is Some) <==> (exists|r: int, c: int|
            valid_dest(g, n, mover, r, c) && #[trigger] cell_index(n, r, c) >= i),
        (mm_scan(g, n, mover, bot, h, md, depth, i) matches Some(v) ==> ((exists|r: int, c: int|
            valid_dest(g, n, mover, r, c) && #[trigger] cell_index(n, r, c) >= i && mm_child(
                g,
                n,
                mover,
                bot,
                h,
                md,
                depth,
                r,
                c,
            ) == v) && (forall|r: int, c: int|
            valid_dest(g, n, mover, r, c) && #[trigger] cell_index(n, r, c) >= i ==> (if mover
                == bot {
                mm_child(g, n, mover, bot, h, md, depth, r, c) <= v
            } else {
                mm_child(g, n, mover, bot, h, md, depth, r, c) >= v
            })))),
    decreases n * n - i,
{
    if i < n * n {
        lemma_mm_scan_props(g, n, mover, bot, h, md, depth, i + 1);
        let r = i / n;
        let c = i % n;
        assert(0 <= r < n && 0 <= c < n && cell_index(n, r, c) == i) by (nonlinear_arith)
            requires
                0 < n && 0 <= i < n * n && r == i / n && c == i % n,
        ;
        assert forall|rr: int, cc: int|
            valid_dest(g, n, mover, rr, cc) && #[trigger] cell_index(n, rr, cc) >= i implies (
        cell_index(n, rr, cc) >= i + 1 || (rr == r && cc == c)) by {
            if cell_index(n, rr, cc) == i {
                assert(rr == r && cc == c) by (nonlinear_arith)
                    requires
                        0 < n && 0 <= rr < n && 0 <= cc < n && rr * n + cc == i && r == i / n && c
                            == i % n,
                ;
            }
        }
    } else {
        assert forall|r: int, c: int|
            valid_dest(g, n, mover, r, c) implies !(#[trigger] cell_index(n, r, c) >= i) by {
            assert(r * n + c < n * n) by (nonlinear_arith)
                requires
                    0 <= r < n && 0 <= c < n,
            ;
        }
    }
}

/// Row-major index of a cell.
pub open spec fn cell_index(n: int, r: int, c: int) -> int {
    r * n + c
}

/// Negation that stays inside `i64`: only the smallest value, which no
/// score ever takes, is clamped.
pub open spec fn spec_neg(x: int) -> int {
    if x == i64::MIN as int {
        i64::MAX as int
    } else {
        -x
    }
}

fn neg_bound(x: i64) -> (r: i64)
    ensures
        r as int == spec_neg(x as int),
{
    if x == i64::MIN {
        i64::MAX
    } else {
        -x
    }
}

/// Flipping the perspective negates the minimax reading of a position.
pub proof fn lemma_spec_minmax_antisym(
    g: Grid,
    n: int,
    mover: Player,
    bot: Player,
    h: BotHeuristic,
    md: Option<usize>,
    depth: int,
)
    requires
        grid_wf(g, n),
        0 < n <= usize::MAX as int,
    ensures
        spec_minmax(g, n, mover, bot, h, md, depth) == -spec_minmax(
            g,
            n,
            mover,
            bot.spec_other(),
            h,
            md,
            depth,
        ),
    decreases count_grid(g, None, n), pass_rank(g, n, mover), n * n + 1,
{
    lemma_count_bounds(g, None, n, n);
    assert(n * n >= 0) by (nonlinear_arith);
    if spec_game_over(g, n) || (md matches Some(m) && depth >= m) {
        lemma_eval_antisym(h, g, n, bot);
    } else if !spec_can_move(g, n, mover) {
        assert(spec_can_move(g, n, mover.spec_other()));
        lemma_spec_minmax_antisym(g, n, mover.spec_other(), bot, h, md, depth + 1);
    } else {
        lemma_mm_scan_antisym(g, n, mover, bot, h, md, depth, 0);
        if mm_scan(g, n, mover, bot, h, md, depth, 0) is None {
            lemma_eval_antisym(h, g, n, bot);
        }
    }
}

proof fn lemma_mm_scan_antisym(
    g: Grid,
    n: int,
    mover: Player,
    bot: Player,
    h: BotHeuristic,
    md: Option<usize>,
    depth: int,
    i: int,
)
    requires
        grid_wf(g, n),
        0 < n <= usize::MAX as int,
        0 <= i,
    ensures
        (mm_scan(g, n, mover, bot, h, md, depth, i) is None) <==> (mm_scan(
            g,
            n,
            mover,
            bot.spec_other(),
            h,
            md,
            depth,
            i,
        ) is None),
        (mm_scan(g, n, mover, bot, h, md, depth, i) matches Some(v) ==> mm_scan(
            g,
            n,
            mover,
            bot.spec_other(),
            h,
            md,
            depth,
            i,
        ) == Some(-v)),
    decreases count_grid(g, None, n), pass_rank(g, n, mover), n * n - i,
{
    lemma_count_bounds(g, None, n, n);
    if i < n * n {
        lemma_mm_scan_antisym(g, n, mover, bot, h, md, depth, i + 1);
        let r = i / n;
        let c = i % n;
        if valid_dest(g, n, mover, r, c) {
            assert(0 <= r < n && 0 <= c < n) by (nonlinear_arith)
                requires
                    0 < n && 0 <= i < n * n && r == i / n && c == i % n,
            ;
            let pg = place_grid(g, n, mover, r, c);
            assert(grid_wf(pg, n)) by {
                assert(pg.len() == n);
                assert(forall|x: int| 0 <= x < n ==> (#[trigger] pg[x]).len() == n);
            }
            crate::mechanics::lemma_place_grid_empties(g, n, mover, r, c);
            lemma_count_bounds(pg, None, n, n);
            lemma_spec_minmax_antisym(pg, n, mover.spec_other(), bot, h, md, depth + 1);
            assert((mover == bot) <==> !(mover == bot.spec_other()));
        }
    }
}

/// Negating every entry turns the earliest maximum into the earliest
/// minimum, at the same index.
pub proof fn lemma_first_best_flip(s1: Seq<int>, s2: Seq<int>, i: int)
    requires
        s1.len() == s2.len(),
        forall|k: int| 0 <= k < s1.len() ==> s2[k] == -(#[trigger] s1[k]),
        1 <= i <= s1.len(),
    ensures
        first_best_index(s1, true, i) == first_best_index(s2, false, i),
    decreases i,
{
    if i > 1 {
        lemma_first_best_flip(s1, s2, i - 1);
        lemma_first_best_index_bounds(s1, true, i - 1);
    }
}

/// The move every search hands `get_move`'s caller for a given
/// position, budget and heuristic: the first best-scoring entry of the
/// canonical move list under the minimax reading from the searching
/// side's perspective.
pub open spec fn dispatched_move(
    g: Grid,
    n: int,
    cur: Player,
    bot: Player,
    h: BotHeuristic,
    md: Option<usize>,
) -> (usize, usize) {
    let moves = valid_moves_seq(g, n, cur);
    let s = minmax_child_scores(g, n, cur, bot, h, md, 0, moves);
    moves[first_best_index(s, cur == bot, moves.len() as int)]
}

/// From the searching side's own seat or from a fixed perspective, a
/// left-to-right scan settles on the same move: flipping the
/// perspective negates every child value and swaps best-for-largest
/// with best-for-smallest.
proof fn lemma_pick_direction(
    g: Grid,
    n: int,
    cur: Player,
    bot: Player,
    h: BotHeuristic,
    md: Option<usize>,
    depth: int,
    moves: Seq<(usize, usize)>,
)
    requires
        grid_wf(g, n),
        0 < n <= usize::MAX as int,
        moves.len() >= 1,
        forall|i: int|
            0 <= i < moves.len() ==> valid_dest(
                g,
                n,
                cur,
                (#[trigger] moves[i]).0 as int,
                moves[i].1 as int,
            ),
    ensures
        first_best_index(
            minmax_child_scores(g, n, cur, cur, h, md, depth, moves),
            true,
            moves.len() as int,
        ) == first_best_index(
            minmax_child_scores(g, n, cur, bot, h, md, depth, moves),
            cur == bot,
            moves.len() as int,
        ),
{
    if cur != bot {
        let s_cur = minmax_child_scores(g, n, cur, cur, h, md, depth, moves);
        let s_bot = minmax_child_scores(g, n, cur, bot, h, md, depth, moves);
        assert(bot == cur.spec_other());
        assert forall|k: int| 0 <= k < s_cur.len() implies s_bot[k] == -(#[trigger] s_cur[k]) by {
            assert(valid_dest(g, n, cur, moves[k].0 as int, moves[k].1 as int));
            let pg = place_grid(g, n, cur, (moves[k].0) as int, (moves[k].1) as int);
            assert(grid_wf(pg, n)) by {
                assert(pg.len() == n);
                assert(forall|x: int| 0 <= x < n ==> (#[trigger] pg[x]).len() == n);
            }
            lemma_spec_minmax_antisym(pg, n, cur.spec_other(), cur, h, md, depth + 1);
            assert(s_cur[k] == mm_child(g, n, cur, cur, h, md, depth, (moves[k].0) as int, (
            moves[k].1) as int));
            assert(s_bot[k] == mm_child(g, n, cur, bot, h, md, depth, (moves[k].0) as int, (
            moves[k].1) as int));
        }
        lemma_first_best_flip(s_cur, s_bot, moves.len() as int);
    }
}

/// Both heuristics score within `eval_bound` of zero.
pub proof fn lemma_eval_bound(h: BotHeuristic, g: Grid, n: int, p: Player)
    requires
        0 <= n,
    ensures
        -eval_bound(n) <= spec_eval(h, g, n, p) <= eval_bound(n),
{
    lemma_count_bounds(g, Some(p), n, n);
    lemma_count_bounds(g, Some(p.spec_other()), n, n);
    lemma_wsum_bounds(g, p, n, n);
    lemma_wsum_bounds(g, p.spec_other(), n, n);
    if n > 0 {
        assert(n * n <= 9 * n * n && 9 * n * n == eval_bound(n)) by (nonlinear_arith)
            requires
                n > 0,
        ;
    }
}

/// On a supported board the score bound itself stays well inside `i64`.
pub proof fn lemma_eval_bound_small(n: int)
    requires
        0 <= n <= MAX_SIDE as int,
    ensures
        eval_bound(n) <= 900_000_000,
{
    assert(9 * n * n <= 900_000_000) by (nonlinear_arith)
        requires
            0 <= n <= 10000,
    ;
}

/// An adversarial searcher: an algorithm, an optional depth bound
/// (absent means searching to the end of the game), a leaf heuristic,
/// and diagnostic counters reset on each top-level move request.
#[derive(Clone, Copy, Debug)]
pub struct Bot {
    algorithm: BotAlgorithm,
    max_depth: Option<usize>,
    heuristic: BotHeuristic,
    expansions: usize,
    comparisons: usize,
}

impl Bot {
    pub closed spec fn spec_algorithm(&self) -> BotAlgorithm {
        self.algorithm
    }

    pub closed spec fn spec_max_depth(&self) -> Option<usize> {
        self.max_depth
    }

    pub closed spec fn spec_heuristic(&self) -> BotHeuristic {
        self.heuristic
    }

    pub closed spec fn spec_expansions(&self) -> usize {
        self.expansions
    }

    pub closed spec fn spec_comparisons(&self) -> usize {
        self.comparisons
    }

    pub fn new(algorithm: BotAlgorithm, max_depth: Option<usize>, heuristic: BotHeuristic) -> (r:
        Bot)
        ensures
            r.spec_algorithm() == algorithm,
            r.spec_max_depth() == max_depth,
            r.spec_heuristic() == heuristic,
            r.spec_expansions() == 0,
            r.spec_comparisons() == 0,
    {
        Bot { algorithm, max_depth, heuristic, expansions: 0, comparisons: 0 }
    }

    /// Score `board` for `player` with the chosen heuristic.
    pub fn eval(heuristic: BotHeuristic, board: &Board, player: Player) -> (r: i64)
        requires
            board.wf(),
        ensures
            r as int == spec_eval(heuristic, board@, board.side(), player),
            -eval_bound(board.side()) <= r as int <= eval_bound(board.side()),
    {
        proof {
            lemma_eval_bound(heuristic, board@, board.side(), player);
            lemma_eval_bound_small(board.side());
        }
        match heuristic {
            BotHeuristic::UniformWeighting => Self::uniform_eval(board, player),
            BotHeuristic::TacticalWeighting => Self::tactical_eval(board, player),
        }
    }

    /// Own piece count minus the opponent's.
    pub fn uniform_eval(board: &Board, player: Player) -> (r: i64)
        requires
            board.wf(),
        ensures
            r as int == spec_uniform_eval(board@, board.side(), player),
    {
        let own = board.count_pieces(player);
        let opp = board.count_pieces(player.other());
        proof {
            let n = board.side();
            lemma_count_bounds(board@, Some(player), n, n);
            lemma_count_bounds(board@, Some(player.spec_other()), n, n);
            assert(n * n <= 100_000_000) by (nonlinear_arith)
                requires
                    0 <= n <= 10000,
            ;
        }
        own as i64 - opp as i64
    }

    /// Positionally weighted piece difference: corners count most, edges
    /// next, interior least.
    pub fn tactical_eval(board: &Board, player: Player) -> (r: i64)
        requires
            board.wf(),
        ensures
            r as int == spec_tactical_eval(board@, board.side(), player),
    {
        let own = Self::weighted_count(board, player);
        let opp = Self::weighted_count(board, player.other());
        own - opp
    }

    /// The weighted number of `player`'s pieces on `board`.
    fn weighted_count(board: &Board, player: Player) -> (r: i64)
        requires
            board.wf(),
        ensures
            r as int == wsum(board@, player, board.side()),
            0 <= r as int <= eval_bound(board.side()),
    {
        let n = board.size();
        let ghost g = board@;
        let ghost nn = board.side();
        proof {
            lemma_wsum_bounds(g, player, nn, nn);
            lemma_eval_bound_small(nn);
            assert(9 * nn * nn == eval_bound(nn));
        }
        let mut acc: i64 = 0;
        let mut i: usize = 0;
        while i < n
            invariant
                board.wf(),
                g == board@,
                nn == board.side(),
                n as int == nn,
                i <= n,
                acc as int == wsum_upto(g, player, nn, i as int),
                0 <= acc as int <= eval_bound(nn),
                eval_bound(nn) <= 900_000_000,
            decreases n - i,
        {
            let mut j: usize = 0;
            while j < n
                invariant
                    board.wf(),
                    g == board@,
                    nn == board.side(),
                    n as int == nn,
                    i < n,
                    j <= n,
                    acc as int == wsum_upto(g, player, nn, i as int) + wsum_row(
                        g[i as int],
                        player,
                        nn,
                        i as int,
                        j as int,
                    ),
                    0 <= acc as int,
                    acc as int <= eval_bound(nn),
                    eval_bound(nn) <= 900_000_000,
                decreases n - j,
            {
                proof {
                    lemma_wsum_bounds(g, player, nn, i as int + 1);
                    crate::grid::lemma_wsum_row_bounds(g[i as int], player, nn, i as int, nn);
                    crate::grid::lemma_wsum_row_bounds(
                        g[i as int],
                        player,
                        nn,
                        i as int,
                        j as int + 1,
                    );
                    lemma_wsum_bounds(g, player, nn, i as int);
                    assert(9 * ((j as int) + 1) <= 9 * nn) by (nonlinear_arith)
                        requires
                            (j as int) + 1 <= nn,
                    ;
                    assert(9 * (i as int) * nn + 9 * nn <= 9 * nn * nn) by (nonlinear_arith)
                        requires
                            0 <= (i as int) && (i as int) < nn,
                    ;
                }
                let owned = match board.get((i, j)) {
                    Some(q) => q == player,
                    None => false,
                };
                if owned {
                    let w = Self::get_tactical_eval_score_for_coord(board, (i, j));
                    acc = acc + w;
                }
                j += 1;
            }
            i += 1;
        }
        acc
    }

    /// The positional weight of one cell: 9 in a corner, 3 elsewhere on
    /// an edge, 1 in the interior.
    pub fn get_tactical_eval_score_for_coord(board: &Board, coord: (usize, usize)) -> (r: i64)
        requires
            board.wf(),
            in_bounds(board.side(), coord.0 as int, coord.1 as int),
        ensures
            r as int == weight(board.side(), coord.0 as int, coord.1 as int),
            1 <= r <= 9,
    {
        let n = board.size();
        let row_edge = coord.0 == 0 || coord.0 == n - 1;
        let col_edge = coord.1 == 0 || coord.1 == n - 1;
        if row_edge && col_edge {
            9
        } else if row_edge || col_edge {
            3
        } else {
            1
        }
    }

    /// Full-width, depth-bounded minimax. Descends by placing, switching
    /// and refreshing the cache, ascends by undoing; the game comes back
    /// exactly as it went in. The returned score is exactly the
    /// position's minimax value, and in a live position within the
    /// budget the returned move is the first best-scoring entry of the
    /// cached move list.
    #[verifier::loop_isolation(false)]
    #[verifier::rlimit(60)]
    pub fn minmax(&mut self, game: &mut Reversi, depth: usize) -> (r: (i64, Option<(usize, usize)>))
        requires
            old(game).wf(),
            old(game).spec_bot() is Some,
            old(game).moves_fresh(),
            depth as int + 2 * count_grid(old(game).grid(), None, old(game).side()) + pass_rank(
                old(game).grid(),
                old(game).side(),
                old(game).spec_current(),
            ) <= usize::MAX as int,
        ensures
            r.0 as int == spec_minmax(
                old(game).grid(),
                old(game).side(),
                old(game).spec_current(),
                ((old(game).spec_bot()->0).0),
                old(self).spec_heuristic(),
                old(self).spec_max_depth(),
                depth as int,
            ),
            ({
                let g = old(game).grid();
                let n = old(game).side();
                let cur = old(game).spec_current();
                let bot = ((old(game).spec_bot()->0).0);
                let h = old(self).spec_heuristic();
                let md = old(self).spec_max_depth();
                let moves = old(game).spec_moves();
                (!spec_game_over(g, n) && !spec_cutoff(md, depth) && spec_can_move(g, n, cur))
                    ==> ({
                    let cscores = minmax_child_scores(g, n, cur, bot, h, md, depth as int, moves);
                    let b = first_best_index(cscores, cur == bot, moves.len() as int);
                    r.1 == Some(moves[b]) && r.0 as int == cscores[b]
                })
            }),
            final(game).wf(),
            final(game).grid() == old(game).grid(),
            final(game).side() == old(game).side(),
            final(game).spec_current() == old(game).spec_current(),
            final(game).spec_history() == old(game).spec_history(),
            final(game).spec_bot() == old(game).spec_bot(),
            final(game).moves_fresh(),
            final(self).spec_algorithm() == old(self).spec_algorithm(),
            final(self).spec_max_depth() == old(self).spec_max_depth(),
            final(self).spec_heuristic() == old(self).spec_heuristic(),
            -eval_bound(old(game).side()) <= r.0 as int <= eval_bound(old(game).side()),
            (!spec_game_over(old(game).grid(), old(game).side()) && !spec_cutoff(
                old(self).spec_max_depth(),
                depth,
            ) && spec_can_move(old(game).grid(), old(game).side(), old(game).spec_current())) ==> (
            r.1 is Some && valid_dest(
                old(game).grid(),
                old(game).side(),
                old(game).spec_current(),
                (r.1->0).0 as int,
                (r.1->0).1 as int,
            )),
            (spec_game_over(old(game).grid(), old(game).side()) || spec_cutoff(
                old(self).spec_max_depth(),
                depth,
            )) ==> (r.0 as int == spec_eval(
                old(self).spec_heuristic(),
                old(game).grid(),
                old(game).side(),
                ((old(game).spec_bot()->0).0),
            ) && r.1 is None),
            final(self).spec_expansions() >= old(self).spec_expansions(),
            final(self).spec_comparisons() >= old(self).spec_comparisons(),
        decreases count_grid(old(game).grid(), None, old(game).side()), pass_rank(
            old(game).grid(),
            old(game).side(),
            old(game).spec_current(),
        ),
    {
        let ghost g0 = game.grid();
        let ghost nn = game.side();
        let ghost cur0 = game.spec_current();
        let ghost gbot = ((game.spec_bot()->0).0);
        proof {
            assert(grid_wf(g0, nn) && 0 < nn <= usize::MAX as int);
            lemma_count_bounds(g0, None, nn, nn);
        }
        let can_any = Reversi::anyone_can_move(game.board());
        let cutoff = match self.max_depth {
            Some(md) => depth >= md,
            None => false,
        };
        if !can_any || cutoff {
            let bot_side = match game.bot_player() {
                Some(x) => x.0,
                None => {
                    proof {
                        assert(false);
                    }
                    Player::Green
                },
            };
            let score = Self::eval(self.heuristic, game.board(), bot_side);
            return (score, None);
        }
        if self.expansions < usize::MAX {
            self.expansions = self.expansions + 1;
        }
        let cm = Reversi::can_move(game.board(), game.current_player());
        if !cm {
            proof {
                assert(spec_can_move(g0, nn, cur0.spec_other()));
                assert(pass_rank(g0, nn, cur0) == 1);
                assert(depth < usize::MAX);
            }
            game.switch_players();
            game.update_valid_moves();
            let res = self.minmax(game, depth + 1);
            game.switch_players();
            game.update_valid_moves();
            return res;
        }
        proof {
            // the mover has a move, so an empty cell exists
            let (vr, vc): (int, int) = choose|vr: int, vc: int| valid_dest(g0, nn, cur0, vr, vc);
            assert(valid_dest(g0, nn, cur0, vr, vc));
            lemma_count_pos(g0, None, nn, vr, vc);
            assert(depth as int + 2 <= usize::MAX as int);
        }
        let bot_side = match game.bot_player() {
            Some(x) => x.0,
            None => {
                proof {
                    assert(false);
                }
                Player::Green
            },
        };
        let maximizing = game.current_player() == bot_side;
        let moves = copy_coords(game.valid_moves());
        let ghost cscores = minmax_child_scores(
            g0,
            nn,
            cur0,
            gbot,
            old(self).spec_heuristic(),
            old(self).spec_max_depth(),
            depth as int,
            moves@,
        );
        proof {
            lemma_eval_bound_small(nn);
            assert(maximizing == (cur0 == ((old(game).spec_bot()->0).0)));
            assert(maximizing == (cur0 == gbot));
        }
        let mut score: i64 = if maximizing {
            i64::MIN
        } else {
            i64::MAX
        };
        let mut coord: Option<(usize, usize)> = None;
        let mut idx: usize = 0;
        proof {
            assert forall|k: int|
                0 <= k < moves@.len() implies valid_dest(
                g0,
                nn,
                cur0,
                (#[trigger] moves@[k]).0 as int,
                moves@[k].1 as int,
            ) by {
                assert(old(game).spec_moves().contains(moves@[k])) by {
                    assert(old(game).spec_moves()[k] == moves@[k]);
                }
            }
        }
        while idx < moves.len()
            invariant
                self.spec_expansions() >= old(self).spec_expansions(),
                self.spec_comparisons() >= old(self).spec_comparisons(),
                game.wf(),
                game.grid() == g0,
                game.side() == nn,
                game.spec_current() == cur0,
                game.spec_history() == old(game).spec_history(),
                game.spec_bot() == old(game).spec_bot(),
                game.moves_fresh(),
                game.spec_bot() is Some,
                self.spec_algorithm() == old(self).spec_algorithm(),
                self.spec_max_depth() == old(self).spec_max_depth(),
                self.spec_heuristic() == old(self).spec_heuristic(),
                forall|k: int|
                    0 <= k < moves@.len() ==> valid_dest(
                        g0,
                        nn,
                        cur0,
                        (#[trigger] moves@[k]).0 as int,
                        moves@[k].1 as int,
                    ),
                idx <= moves@.len(),
                eval_bound(nn) <= 900_000_000,
                coord is None ==> score as int == (if maximizing {
                    i64::MIN as int
                } else {
                    i64::MAX as int
                }),
                coord is Some ==> -eval_bound(nn) <= score as int <= eval_bound(nn) && valid_dest(
                    g0,
                    nn,
                    cur0,
                    (coord->0).0 as int,
                    (coord->0).1 as int,
                ),
                idx > 0 ==> coord is Some,
                idx == 0 ==> coord is None,
                depth as int + 2 * count_grid(g0, None, nn) <= usize::MAX as int,
                depth < usize::MAX,
                idx > 0 ==> {
                    let b = first_best_index(cscores, maximizing, idx as int);
                    &&& 0 <= b < idx
                    &&& coord == Some(moves@[b])
                    &&& score as int == cscores[b]
                },
            decreases moves@.len() - idx,
        {
            let m = moves[idx];
            proof {
                assert(valid_dest(g0, nn, cur0, m.0 as int, m.1 as int));
            }
            game.place_piece_and_add_history(m);
            game.switch_players();
            game.update_valid_moves();
            proof {
                lemma_place_grid_empties(g0, nn, cur0, m.0 as int, m.1 as int);
                assert(game.grid() == place_grid(g0, nn, cur0, m.0 as int, m.1 as int));
                assert(game.side() == nn);
                assert(count_grid(game.grid(), None, nn) == count_grid(g0, None, nn) - 1);
                lemma_count_bounds(game.grid(), None, nn, nn);
                assert(count_grid(game.grid(), None, nn) >= 0);
                assert(pass_rank(game.grid(), nn, game.spec_current()) <= 1);
            }
            let child = self.minmax(game, depth + 1);
            let new_score = child.0;
            proof {
                assert(new_score as int == cscores[idx as int]) by {
                    assert(cscores[idx as int] == mm_child(
                        g0,
                        nn,
                        cur0,
                        gbot,
                        old(self).spec_heuristic(),
                        old(self).spec_max_depth(),
                        depth as int,
                        (m.0) as int,
                        (m.1) as int,
                    ));
                }
            }
            proof {
                lemma_captures_elems(g0, nn, cur0, m.0 as int, m.1 as int, 8);
                let e = game.spec_history().last();
                assert(e == (cur0, m, captures(g0, nn, cur0, m.0 as int, m.1 as int)));
                assert forall|k: int|
                    0 <= k < e.2.len() implies in_bounds(nn, (#[trigger] e.2[k]).0 as int, e.2[k].1 as int)
                    && e.2[k] != e.1 by {
                    assert(captures(g0, nn, cur0, m.0 as int, m.1 as int).contains(e.2[k])) by {
                        assert(captures(g0, nn, cur0, m.0 as int, m.1 as int)[k] == e.2[k]);
                    }
                }
            }
            game.undo_turn();
            proof {
                lemma_place_then_undo_restores(g0, nn, cur0, m.0 as int, m.1 as int);
            }
            game.update_valid_moves();
            if self.comparisons < usize::MAX {
                self.comparisons = self.comparisons + 1;
            }
            let better = if maximizing {
                new_score > score
            } else {
                new_score < score
            };
            if better {
                score = new_score;
                coord = Some(m);
            }
            idx += 1;
            proof {
                assert(new_score as int == cscores[idx as int - 1]);
                if idx as int == 1 {
                    assert(first_best_index(cscores, maximizing, 1) == 0);
                } else {
                    lemma_first_best_index_bounds(cscores, maximizing, idx as int - 1);
                    let c0 = first_best_index(cscores, maximizing, idx as int - 1);
                    assert(first_best_index(cscores, maximizing, idx as int) == if (maximizing
                        && cscores[idx as int - 1] > cscores[c0]) || (!maximizing && cscores[idx
                        as int - 1] < cscores[c0]) {
                        idx as int - 1
                    } else {
                        c0
                    });
                }
            }
        }
        proof {
            assert(moves@.len() >= 1) by {
                let (rr, cc): (int, int) = choose|rr: int, cc: int| valid_dest(g0, nn, cur0, rr, cc);
                assert(valid_dest(g0, nn, cur0, rr, cc));
                assert(old(game).spec_moves().contains(((rr as usize), (cc as usize))));
            }
            assert(moves@ == old(game).spec_moves());
            let h = old(self).spec_heuristic();
            let md = old(self).spec_max_depth();
            let len = moves@.len() as int;
            let b = first_best_index(cscores, maximizing, len);
            lemma_first_best_index_bounds(cscores, maximizing, len);
            assert(coord == Some(moves@[b]) && score as int == cscores[b]);
            // the loop's pick attains and dominates the child values of
            // every legal destination, which is exactly what the scan
            // from cell zero computes
            lemma_mm_scan_props(g0, nn, cur0, gbot, h, md, depth as int, 0);
            let (vr, vc): (int, int) = choose|vr: int, vc: int| valid_dest(g0, nn, cur0, vr, vc);
            assert(valid_dest(g0, nn, cur0, vr, vc));
            assert(cell_index(nn, vr, vc) >= 0) by (nonlinear_arith)
                requires
                    0 <= vr && 0 <= vc && 0 <= nn && cell_index(nn, vr, vc) == vr * nn + vc,
            ;
            assert(mm_scan(g0, nn, cur0, gbot, h, md, depth as int, 0) is Some);
            let v = mm_scan(g0, nn, cur0, gbot, h, md, depth as int, 0)->0;
            // v is attained by some legal destination, whose child value
            // the pick dominates
            let (ar, ac): (int, int) = choose|ar: int, ac: int|
                valid_dest(g0, nn, cur0, ar, ac) && #[trigger] cell_index(nn, ar, ac) >= 0
                    && mm_child(g0, nn, cur0, gbot, h, md, depth as int, ar, ac) == v;
            assert(old(game).spec_moves().contains(((ar as usize), (ac as usize))));
            let k = choose|k: int|
                0 <= k < moves@.len() && #[trigger] moves@[k] == ((ar as usize), (ac as usize));
            assert(cscores[k] == mm_child(g0, nn, cur0, gbot, h, md, depth as int, ar, ac));
            lemma_first_best_dominates(cscores, maximizing, len, k);
            // and v dominates the pick's own child value
            let pr = (moves@[b].0) as int;
            let pc = (moves@[b].1) as int;
            assert(valid_dest(g0, nn, cur0, pr, pc));
            assert(cell_index(nn, pr, pc) >= 0) by (nonlinear_arith)
                requires
                    0 <= pr && 0 <= pc && 0 <= nn && cell_index(nn, pr, pc) == pr * nn + pc,
            ;
            assert(cscores[b] == mm_child(g0, nn, cur0, gbot, h, md, depth as int, pr, pc));
            assert(score as int == v);
            assert(spec_minmax(g0, nn, cur0, gbot, h, md, depth as int) == v);
        }
        (score, coord)
    }

    /// Minimax with an alpha-beta window threaded through the recursion:
    /// each child's returned window folds into the running one, and the
    /// sibling loop stops once the window crosses. A child only ever
    /// hands its own window back, so with an uncrossed window the thread
    /// never tightens, no sibling is abandoned, and the search returns
    /// exactly the position's minimax value and plain minimax's move.
    #[verifier::loop_isolation(false)]
    #[verifier::rlimit(60)]
    pub fn alphabeta(&mut self, game: &mut Reversi, depth: usize, alpha: i64, beta: i64) -> (r: (
        i64,
        Option<(usize, usize)>,
        (i64, i64),
    ))
        requires
            old(game).wf(),
            old(game).spec_bot() is Some,
            old(game).moves_fresh(),
            depth as int + 2 * count_grid(old(game).grid(), None, old(game).side()) + pass_rank(
                old(game).grid(),
                old(game).side(),
                old(game).spec_current(),
            ) <= usize::MAX as int,
        ensures
            r.2 == (alpha, beta),
            alpha <= beta ==> r.0 as int == spec_minmax(
                old(game).grid(),
                old(game).side(),
                old(game).spec_current(),
                ((old(game).spec_bot()->0).0),
                old(self).spec_heuristic(),
                old(self).spec_max_depth(),
                depth as int,
            ),
            ({
                let g = old(game).grid();
                let n = old(game).side();
                let cur = old(game).spec_current();
                let bot = ((old(game).spec_bot()->0).0);
                let h = old(self).spec_heuristic();
                let md = old(self).spec_max_depth();
                let moves = old(game).spec_moves();
                (alpha <= beta && !spec_game_over(g, n) && !spec_cutoff(md, depth)
                    && spec_can_move(g, n, cur)) ==> ({
                    let cscores = minmax_child_scores(g, n, cur, bot, h, md, depth as int, moves);
                    let b = first_best_index(cscores, cur == bot, moves.len() as int);
                    r.1 == Some(moves[b]) && r.0 as int == cscores[b]
                })
            }),
            final(game).wf(),
            final(game).grid() == old(game).grid(),
            final(game).side() == old(game).side(),
            final(game).spec_current() == old(game).spec_current(),
            final(game).spec_history() == old(game).spec_history(),
            final(game).spec_bot() == old(game).spec_bot(),
            final(game).moves_fresh(),
            final(self).spec_algorithm() == old(self).spec_algorithm(),
            final(self).spec_max_depth() == old(self).spec_max_depth(),
            final(self).spec_heuristic() == old(self).spec_heuristic(),
            -eval_bound(old(game).side()) <= r.0 as int <= eval_bound(old(game).side()),
            (!spec_game_over(old(game).grid(), old(game).side()) && !spec_cutoff(
                old(self).spec_max_depth(),
                depth,
            ) && spec_can_move(old(game).grid(), old(game).side(), old(game).spec_current())) ==> (
            r.1 is Some && valid_dest(
                old(game).grid(),
                old(game).side(),
                old(game).spec_current(),
                (r.1->0).0 as int,
                (r.1->0).1 as int,
            )),
            (spec_game_over(old(game).grid(), old(game).side()) || spec_cutoff(
                old(self).spec_max_depth(),
                depth,
            )) ==> (r.0 as int == spec_eval(
                old(self).spec_heuristic(),
                old(game).grid(),
                old(game).side(),
                ((old(game).spec_bot()->0).0),
            ) && r.1 is None),
            final(self).spec_expansions() >= old(self).spec_expansions(),
            final(self).spec_comparisons() >= old(self).spec_comparisons(),
        decreases count_grid(old(game).grid(), None, old(game).side()), pass_rank(
            old(game).grid(),
            old(game).side(),
            old(game).spec_current(),
        ),
    {
        let ghost g0 = game.grid();
        let ghost nn = game.side();
        let ghost cur0 = game.spec_current();
        let ghost gbot = ((game.spec_bot()->0).0);
        let ghost alpha0 = alpha;
        let ghost beta0 = beta;
        let mut alpha = alpha;
        let mut beta = beta;
        proof {
            assert(grid_wf(g0, nn) && 0 < nn <= usize::MAX as int);
            lemma_count_bounds(g0, None, nn, nn);
        }
        let can_any = Reversi::anyone_can_move(game.board());
        let cutoff = match self.max_depth {
            Some(md) => depth >= md,
            None => false,
        };
        if !can_any || cutoff {
            let bot_side = match game.bot_player() {
                Some(x) => x.0,
                None => {
                    proof {
                        assert(false);
                    }
                    Player::Green
                },
            };
            let score = Self::eval(self.heuristic, game.board(), bot_side);
            return (score, None, (alpha, beta));
        }
        if self.expansions < usize::MAX {
            self.expansions = self.expansions + 1;
        }
        let cm = Reversi::can_move(game.board(), game.current_player());
        if !cm {
            proof {
                assert(spec_can_move(g0, nn, cur0.spec_other()));
                assert(pass_rank(g0, nn, cur0) == 1);
                assert(depth < usize::MAX);
            }
            game.switch_players();
            game.update_valid_moves();
            let res = self.alphabeta(game, depth + 1, alpha, beta);
            game.switch_players();
            game.update_valid_moves();
            return res;
        }
        proof {
            // the mover has a move, so an empty cell exists
            let (vr, vc): (int, int) = choose|vr: int, vc: int| valid_dest(g0, nn, cur0, vr, vc);
            assert(valid_dest(g0, nn, cur0, vr, vc));
            lemma_count_pos(g0, None, nn, vr, vc);
            assert(depth as int + 2 <= usize::MAX as int);
        }
        let bot_side = match game.bot_player() {
            Some(x) => x.0,
            None => {
                proof {
                    assert(false);
                }
                Player::Green
            },
        };
        let maximizing = game.current_player() == bot_side;
        let moves = copy_coords(game.valid_moves());
        let ghost cscores = minmax_child_scores(
            g0,
            nn,
            cur0,
            gbot,
            old(self).spec_heuristic(),
            old(self).spec_max_depth(),
            depth as int,
            moves@,
        );
        proof {
            lemma_eval_bound_small(nn);
            assert(maximizing == (cur0 == ((old(game).spec_bot()->0).0)));
            assert(maximizing == (cur0 == gbot));
        }
        let mut score: i64 = if maximizing {
            i64::MIN
        } else {
            i64::MAX
        };
        let mut coord: Option<(usize, usize)> = None;
        let mut idx: usize = 0;
        let mut pruned = false;
        proof {
            assert forall|k: int|
                0 <= k < moves@.len() implies valid_dest(
                g0,
                nn,
                cur0,
                (#[trigger] moves@[k]).0 as int,
                moves@[k].1 as int,
            ) by {
                assert(old(game).spec_moves().contains(moves@[k])) by {
                    assert(old(game).spec_moves()[k] == moves@[k]);
                }
            }
        }
        while idx < moves.len() && !pruned
            invariant
                alpha == alpha0,
                beta == beta0,
                pruned ==> idx > 0,
                alpha0 <= beta0 ==> !pruned,
                self.spec_expansions() >= old(self).spec_expansions(),
                self.spec_comparisons() >= old(self).spec_comparisons(),
                game.wf(),
                game.grid() == g0,
                game.side() == nn,
                game.spec_current() == cur0,
                game.spec_history() == old(game).spec_history(),
                game.spec_bot() == old(game).spec_bot(),
                game.moves_fresh(),
                game.spec_bot() is Some,
                self.spec_algorithm() == old(self).spec_algorithm(),
                self.spec_max_depth() == old(self).spec_max_depth(),
                self.spec_heuristic() == old(self).spec_heuristic(),
                forall|k: int|
                    0 <= k < moves@.len() ==> valid_dest(
                        g0,
                        nn,
                        cur0,
                        (#[trigger] moves@[k]).0 as int,
                        moves@[k].1 as int,
                    ),
                idx <= moves@.len(),
                eval_bound(nn) <= 900_000_000,
                coord is None ==> score as int == (if maximizing {
                    i64::MIN as int
                } else {
                    i64::MAX as int
                }),
                coord is Some ==> -eval_bound(nn) <= score as int <= eval_bound(nn) && valid_dest(
                    g0,
                    nn,
                    cur0,
                    (coord->0).0 as int,
                    (coord->0).1 as int,
                ),
                idx > 0 ==> coord is Some,
                idx == 0 ==> coord is None,
                depth as int + 2 * count_grid(g0, None, nn) <= usize::MAX as int,
                depth < usize::MAX,
                alpha0 <= beta0 && idx > 0 ==> {
                    let b = first_best_index(cscores, maximizing, idx as int);
                    &&& 0 <= b < idx
                    &&& coord == Some(moves@[b])
                    &&& score as int == cscores[b]
                },
            decreases moves@.len() - idx,
        {
            let m = moves[idx];
            proof {
                assert(valid_dest(g0, nn, cur0, m.0 as int, m.1 as int));
            }
            game.place_piece_and_add_history(m);
            game.switch_players();
            game.update_valid_moves();
            proof {
                lemma_place_grid_empties(g0, nn, cur0, m.0 as int, m.1 as int);
                assert(game.grid() == place_grid(g0, nn, cur0, m.0 as int, m.1 as int));
                assert(game.side() == nn);
                assert(count_grid(game.grid(), None, nn) == count_grid(g0, None, nn) - 1);
                lemma_count_bounds(game.grid(), None, nn, nn);
                assert(count_grid(game.grid(), None, nn) >= 0);
                assert(pass_rank(game.grid(), nn, game.spec_current()) <= 1);
            }
            let child = self.alphabeta(game, depth + 1, alpha, beta);
            let new_score = child.0;
            let (new_alpha, new_beta) = child.2;
            if new_alpha > alpha {
                alpha = new_alpha;
            }
            if new_beta < beta {
                beta = new_beta;
            }
            proof {
                if alpha0 <= beta0 {
                    assert(new_score as int == cscores[idx as int]) by {
                        assert(cscores[idx as int] == mm_child(
                            g0,
                            nn,
                            cur0,
                            gbot,
                            old(self).spec_heuristic(),
                            old(self).spec_max_depth(),
                            depth as int,
                            (m.0) as int,
                            (m.1) as int,
                        ));
                    }
                }
            }
            proof {
                lemma_captures_elems(g0, nn, cur0, m.0 as int, m.1 as int, 8);
                let e = game.spec_history().last();
                assert(e == (cur0, m, captures(g0, nn, cur0, m.0 as int, m.1 as int)));
                assert forall|k: int|
                    0 <= k < e.2.len() implies in_bounds(nn, (#[trigger] e.2[k]).0 as int, e.2[k].1 as int)
                    && e.2[k] != e.1 by {
                    assert(captures(g0, nn, cur0, m.0 as int, m.1 as int).contains(e.2[k])) by {
                        assert(captures(g0, nn, cur0, m.0 as int, m.1 as int)[k] == e.2[k]);
                    }
                }
            }
            game.undo_turn();
            proof {
                lemma_place_then_undo_restores(g0, nn, cur0, m.0 as int, m.1 as int);
            }
            game.update_valid_moves();
            if self.comparisons < usize::MAX {
                self.comparisons = self.comparisons + 1;
            }
            let better = if maximizing {
                new_score > score
            } else {
                new_score < score
            };
            if better {
                score = new_score;
                coord = Some(m);
            }
            idx += 1;
            if alpha > beta {
                pruned = true;
            }
            proof {
                if alpha0 <= beta0 {
                    assert(new_score as int == cscores[idx as int - 1]);
                    if idx as int == 1 {
                        assert(first_best_index(cscores, maximizing, 1) == 0);
                    } else {
                        lemma_first_best_index_bounds(cscores, maximizing, idx as int - 1);
                        let c0 = first_best_index(cscores, maximizing, idx as int - 1);
                        assert(first_best_index(cscores, maximizing, idx as int) == if (
                        maximizing && cscores[idx as int - 1] > cscores[c0]) || (!maximizing
                            && cscores[idx as int - 1] < cscores[c0]) {
                            idx as int - 1
                        } else {
                            c0
                        });
                    }
                }
            }
        }
        proof {
            assert(moves@.len() >= 1) by {
                let (rr, cc): (int, int) = choose|rr: int, cc: int| valid_dest(g0, nn, cur0, rr, cc);
                assert(valid_dest(g0, nn, cur0, rr, cc));
                assert(old(game).spec_moves().contains(((rr as usize), (cc as usize))));
            }
            assert(moves@ == old(game).spec_moves());
            if alpha0 <= beta0 {
            assert(idx as int == moves@.len());
            let h = old(self).spec_heuristic();
            let md = old(self).spec_max_depth();
            let len = moves@.len() as int;
            let b = first_best_index(cscores, maximizing, len);
            lemma_first_best_index_bounds(cscores, maximizing, len);
            assert(coord == Some(moves@[b]) && score as int == cscores[b]);
            // the loop's pick attains and dominates the child values of
            // every legal destination, which is exactly what the scan
            // from cell zero computes
            lemma_mm_scan_props(g0, nn, cur0, gbot, h, md, depth as int, 0);
            let (vr, vc): (int, int) = choose|vr: int, vc: int| valid_dest(g0, nn, cur0, vr, vc);
            assert(valid_dest(g0, nn, cur0, vr, vc));
            assert(cell_index(nn, vr, vc) >= 0) by (nonlinear_arith)
                requires
                    0 <= vr && 0 <= vc && 0 <= nn && cell_index(nn, vr, vc) == vr * nn + vc,
            ;
            assert(mm_scan(g0, nn, cur0, gbot, h, md, depth as int, 0) is Some);
            let v = mm_scan(g0, nn, cur0, gbot, h, md, depth as int, 0)->0;
            // v is attained by some legal destination, whose child value
            // the pick dominates
            let (ar, ac): (int, int) = choose|ar: int, ac: int|
                valid_dest(g0, nn, cur0, ar, ac) && #[trigger] cell_index(nn, ar, ac) >= 0
                    && mm_child(g0, nn, cur0, gbot, h, md, depth as int, ar, ac) == v;
            assert(old(game).spec_moves().contains(((ar as usize), (ac as usize))));
            let k = choose|k: int|
                0 <= k < moves@.len() && #[trigger] moves@[k] == ((ar as usize), (ac as usize));
            assert(cscores[k] == mm_child(g0, nn, cur0, gbot, h, md, depth as int, ar, ac));
            lemma_first_best_dominates(cscores, maximizing, len, k);
            // and v dominates the pick's own child value
            let pr = (moves@[b].0) as int;
            let pc = (moves@[b].1) as int;
            assert(valid_dest(g0, nn, cur0, pr, pc));
            assert(cell_index(nn, pr, pc) >= 0) by (nonlinear_arith)
                requires
                    0 <= pr && 0 <= pc && 0 <= nn && cell_index(nn, pr, pc) == pr * nn + pc,
            ;
            assert(cscores[b] == mm_child(g0, nn, cur0, gbot, h, md, depth as int, pr, pc));
            assert(score as int == v);
            assert(spec_minmax(g0, nn, cur0, gbot, h, md, depth as int) == v);
            }
        }
        (score, coord, (alpha, beta))
    }

    /// Negamax: one code path for both sides. Leaves are scored from the
    /// mover's own perspective; every recursive call hands the child the
    /// swapped, negated window and negates the child's returned score,
    /// and the sibling loop stops once the window crosses. The window is
    /// handed back untouched, so with an uncrossed window no sibling is
    /// abandoned and the result is exactly the position's minimax value
    /// read from the mover's perspective.
    #[verifier::loop_isolation(false)]
    #[verifier::rlimit(60)]
    pub fn negamax(&mut self, game: &mut Reversi, depth: usize, alpha: i64, beta: i64) -> (r: (
        i64,
        Option<(usize, usize)>,
        (i64, i64),
    ))
        requires
            old(game).wf(),
            old(game).moves_fresh(),
            depth as int + 2 * count_grid(old(game).grid(), None, old(game).side()) + pass_rank(
                old(game).grid(),
                old(game).side(),
                old(game).spec_current(),
            ) <= usize::MAX as int,
        ensures
            r.2 == (alpha, beta),
            alpha <= beta ==> r.0 as int == spec_minmax(
                old(game).grid(),
                old(game).side(),
                old(game).spec_current(),
                old(game).spec_current(),
                old(self).spec_heuristic(),
                old(self).spec_max_depth(),
                depth as int,
            ),
            ({
                let g = old(game).grid();
                let n = old(game).side();
                let cur = old(game).spec_current();
                let h = old(self).spec_heuristic();
                let md = old(self).spec_max_depth();
                let moves = old(game).spec_moves();
                (alpha <= beta && !spec_game_over(g, n) && !spec_cutoff(md, depth)
                    && spec_can_move(g, n, cur)) ==> ({
                    let cscores = minmax_child_scores(g, n, cur, cur, h, md, depth as int, moves);
                    let b = first_best_index(cscores, true, moves.len() as int);
                    r.1 == Some(moves[b]) && r.0 as int == cscores[b]
                })
            }),
            final(game).wf(),
            final(game).grid() == old(game).grid(),
            final(game).side() == old(game).side(),
            final(game).spec_current() == old(game).spec_current(),
            final(game).spec_history() == old(game).spec_history(),
            final(game).spec_bot() == old(game).spec_bot(),
            final(game).moves_fresh(),
            final(self).spec_algorithm() == old(self).spec_algorithm(),
            final(self).spec_max_depth() == old(self).spec_max_depth(),
            final(self).spec_heuristic() == old(self).spec_heuristic(),
            -eval_bound(old(game).side()) <= r.0 as int <= eval_bound(old(game).side()),
            (!spec_game_over(old(game).grid(), old(game).side()) && !spec_cutoff(
                old(self).spec_max_depth(),
                depth,
            ) && spec_can_move(old(game).grid(), old(game).side(), old(game).spec_current())) ==> (
            r.1 is Some && valid_dest(
                old(game).grid(),
                old(game).side(),
                old(game).spec_current(),
                (r.1->0).0 as int,
                (r.1->0).1 as int,
            )),
            (spec_game_over(old(game).grid(), old(game).side()) || spec_cutoff(
                old(self).spec_max_depth(),
                depth,
            )) ==> (r.0 as int == spec_eval(
                old(self).spec_heuristic(),
                old(game).grid(),
                old(game).side(),
                old(game).spec_current(),
            ) && r.1 is None),
            final(self).spec_expansions() >= old(self).spec_expansions(),
            final(self).spec_comparisons() >= old(self).spec_comparisons(),
        decreases count_grid(old(game).grid(), None, old(game).side()), pass_rank(
            old(game).grid(),
            old(game).side(),
            old(game).spec_current(),
        ),
    {
        let ghost g0 = game.grid();
        let ghost nn = game.side();
        let ghost cur0 = game.spec_current();
        proof {
            assert(grid_wf(g0, nn) && 0 < nn <= usize::MAX as int);
            lemma_count_bounds(g0, None, nn, nn);
            lemma_eval_bound_small(nn);
        }
        let can_any = Reversi::anyone_can_move(game.board());
        let cutoff = match self.max_depth {
            Some(md) => depth >= md,
            None => false,
        };
        if !can_any || cutoff {
            let mover = game.current_player();
            let score = Self::eval(self.heuristic, game.board(), mover);
            return (score, None, (alpha, beta));
        }
        if self.expansions < usize::MAX {
            self.expansions = self.expansions + 1;
        }
        let cm = Reversi::can_move(game.board(), game.current_player());
        if !cm {
            proof {
                assert(spec_can_move(g0, nn, cur0.spec_other()));
                assert(pass_rank(g0, nn, cur0) == 1);
                assert(depth < usize::MAX);
            }
            game.switch_players();
            game.update_valid_moves();
            let child = self.negamax(game, depth + 1, neg_bound(beta), neg_bound(alpha));
            game.switch_players();
            game.update_valid_moves();
            let score = neg_bound(child.0);
            proof {
                if alpha <= beta {
                    assert(spec_neg(beta as int) <= spec_neg(alpha as int));
                    lemma_spec_minmax_antisym(
                        g0,
                        nn,
                        cur0.spec_other(),
                        cur0.spec_other(),
                        old(self).spec_heuristic(),
                        old(self).spec_max_depth(),
                        depth as int + 1,
                    );
                }
            }
            return (score, child.1, (alpha, beta));
        }
        proof {
            let (vr, vc): (int, int) = choose|vr: int, vc: int| valid_dest(g0, nn, cur0, vr, vc);
            assert(valid_dest(g0, nn, cur0, vr, vc));
            lemma_count_pos(g0, None, nn, vr, vc);
            assert(depth as int + 2 <= usize::MAX as int);
        }
        let moves = copy_coords(game.valid_moves());
        let ghost cscores = minmax_child_scores(
            g0,
            nn,
            cur0,
            cur0,
            old(self).spec_heuristic(),
            old(self).spec_max_depth(),
            depth as int,
            moves@,
        );
        let mut score: i64 = i64::MIN;
        let mut coord: Option<(usize, usize)> = None;
        let mut idx: usize = 0;
        let mut pruned = false;
        proof {
            assert forall|k: int|
                0 <= k < moves@.len() implies valid_dest(
                g0,
                nn,
                cur0,
                (#[trigger] moves@[k]).0 as int,
                moves@[k].1 as int,
            ) by {
                assert(old(game).spec_moves().contains(moves@[k])) by {
                    assert(old(game).spec_moves()[k] == moves@[k]);
                }
            }
        }
        while idx < moves.len() && !pruned
            invariant
                pruned ==> idx > 0,
                alpha <= beta ==> !pruned,
                self.spec_expansions() >= old(self).spec_expansions(),
                self.spec_comparisons() >= old(self).spec_comparisons(),
                game.wf(),
                game.grid() == g0,
                game.side() == nn,
                game.spec_current() == cur0,
                game.spec_history() == old(game).spec_history(),
                game.spec_bot() == old(game).spec_bot(),
                game.moves_fresh(),
                self.spec_algorithm() == old(self).spec_algorithm(),
                self.spec_max_depth() == old(self).spec_max_depth(),
                self.spec_heuristic() == old(self).spec_heuristic(),
                idx <= moves@.len(),
                eval_bound(nn) <= 900_000_000,
                coord is None ==> score as int == i64::MIN as int,
                coord is Some ==> -eval_bound(nn) <= score as int <= eval_bound(nn) && valid_dest(
                    g0,
                    nn,
                    cur0,
                    (coord->0).0 as int,
                    (coord->0).1 as int,
                ),
                idx > 0 ==> coord is Some,
                idx == 0 ==> coord is None,
                depth as int + 2 * count_grid(g0, None, nn) <= usize::MAX as int,
                depth < usize::MAX,
                alpha <= beta && idx > 0 ==> {
                    let b = first_best_index(cscores, true, idx as int);
                    &&& 0 <= b < idx
                    &&& coord == Some(moves@[b])
                    &&& score as int == cscores[b]
                },
            decreases moves@.len() - idx,
        {
            let m = moves[idx];
            proof {
                assert(valid_dest(g0, nn, cur0, m.0 as int, m.1 as int));
            }
            game.place_piece_and_add_history(m);
            game.switch_players();
            game.update_valid_moves();
            proof {
                lemma_place_grid_empties(g0, nn, cur0, m.0 as int, m.1 as int);
                assert(game.grid() == place_grid(g0, nn, cur0, m.0 as int, m.1 as int));
                assert(game.side() == nn);
                assert(count_grid(game.grid(), None, nn) == count_grid(g0, None, nn) - 1);
                lemma_count_bounds(game.grid(), None, nn, nn);
                assert(count_grid(game.grid(), None, nn) >= 0);
                assert(pass_rank(game.grid(), nn, game.spec_current()) <= 1);
            }
            let child = self.negamax(game, depth + 1, neg_bound(beta), neg_bound(alpha));
            let new_score = neg_bound(child.0);
            proof {
                assert(-eval_bound(nn) <= new_score as int <= eval_bound(nn));
                if alpha <= beta {
                    assert(spec_neg(beta as int) <= spec_neg(alpha as int));
                    let pg = place_grid(g0, nn, cur0, (m.0) as int, (m.1) as int);
                    assert(grid_wf(pg, nn)) by {
                        assert(pg.len() == nn);
                        assert(forall|x: int| 0 <= x < nn ==> (#[trigger] pg[x]).len() == nn);
                    }
                    lemma_spec_minmax_antisym(
                        pg,
                        nn,
                        cur0.spec_other(),
                        cur0.spec_other(),
                        old(self).spec_heuristic(),
                        old(self).spec_max_depth(),
                        depth as int + 1,
                    );
                    assert(new_score as int == cscores[idx as int]) by {
                        assert(cscores[idx as int] == mm_child(
                            g0,
                            nn,
                            cur0,
                            cur0,
                            old(self).spec_heuristic(),
                            old(self).spec_max_depth(),
                            depth as int,
                            (m.0) as int,
                            (m.1) as int,
                        ));
                    }
                }
            }
            proof {
                lemma_captures_elems(g0, nn, cur0, m.0 as int, m.1 as int, 8);
                let e = game.spec_history().last();
                assert(e == (cur0, m, captures(g0, nn, cur0, m.0 as int, m.1 as int)));
                assert forall|k: int|
                    0 <= k < e.2.len() implies in_bounds(nn, (#[trigger] e.2[k]).0 as int, e.2[k].1 as int)
                    && e.2[k] != e.1 by {
                    assert(captures(g0, nn, cur0, m.0 as int, m.1 as int).contains(e.2[k])) by {
                        assert(captures(g0, nn, cur0, m.0 as int, m.1 as int)[k] == e.2[k]);
                    }
                }
            }
            game.undo_turn();
            proof {
                lemma_place_then_undo_restores(g0, nn, cur0, m.0 as int, m.1 as int);
            }
            game.update_valid_moves();
            if self.comparisons < usize::MAX {
                self.comparisons = self.comparisons + 1;
            }
            if new_score > score {
                score = new_score;
                coord = Some(m);
            }
            idx += 1;
            proof {
                if alpha <= beta {
                    assert(new_score as int == cscores[idx as int - 1]);
                    if idx as int == 1 {
                        assert(first_best_index(cscores, true, 1) == 0);
                    } else {
                        lemma_first_best_index_bounds(cscores, true, idx as int - 1);
                        let c0 = first_best_index(cscores, true, idx as int - 1);
                        assert(first_best_index(cscores, true, idx as int) == if cscores[idx
                            as int - 1] > cscores[c0] {
                            idx as int - 1
                        } else {
                            c0
                        });
                    }
                }
            }
            if alpha > beta {
                pruned = true;
            }
        }
        proof {
            assert(moves@.len() >= 1) by {
                let (rr, cc): (int, int) = choose|rr: int, cc: int| valid_dest(g0, nn, cur0, rr, cc);
                assert(valid_dest(g0, nn, cur0, rr, cc));
                assert(old(game).spec_moves().contains(((rr as usize), (cc as usize))));
            }
            assert(moves@ == old(game).spec_moves());
            if alpha <= beta {
                assert(idx as int == moves@.len());
                let h = old(self).spec_heuristic();
                let md = old(self).spec_max_depth();
                let len = moves@.len() as int;
                let b = first_best_index(cscores, true, len);
                lemma_first_best_index_bounds(cscores, true, len);
                assert(coord == Some(moves@[b]) && score as int == cscores[b]);
                lemma_mm_scan_props(g0, nn, cur0, cur0, h, md, depth as int, 0);
                let (vr, vc): (int, int) = choose|vr: int, vc: int|
                    valid_dest(g0, nn, cur0, vr, vc);
                assert(valid_dest(g0, nn, cur0, vr, vc));
                assert(cell_index(nn, vr, vc) >= 0) by (nonlinear_arith)
                    requires
                        0 <= vr && 0 <= vc && 0 <= nn && cell_index(nn, vr, vc) == vr * nn + vc,
                ;
                assert(mm_scan(g0, nn, cur0, cur0, h, md, depth as int, 0) is Some);
                let v = mm_scan(g0, nn, cur0, cur0, h, md, depth as int, 0)->0;
                let (ar, ac): (int, int) = choose|ar: int, ac: int|
                    valid_dest(g0, nn, cur0, ar, ac) && #[trigger] cell_index(nn, ar, ac) >= 0
                        && mm_child(g0, nn, cur0, cur0, h, md, depth as int, ar, ac) == v;
                assert(old(game).spec_moves().contains(((ar as usize), (ac as usize))));
                let k = choose|k: int|
                    0 <= k < moves@.len() && #[trigger] moves@[k] == ((ar as usize), (ac as usize));
                assert(cscores[k] == mm_child(g0, nn, cur0, cur0, h, md, depth as int, ar, ac));
                lemma_first_best_dominates(cscores, true, len, k);
                let pr = (moves@[b].0) as int;
                let pc = (moves@[b].1) as int;
                assert(valid_dest(g0, nn, cur0, pr, pc));
                assert(cell_index(nn, pr, pc) >= 0) by (nonlinear_arith)
                    requires
                        0 <= pr && 0 <= pc && 0 <= nn && cell_index(nn, pr, pc) == pr * nn + pc,
                ;
                assert(cscores[b] == mm_child(g0, nn, cur0, cur0, h, md, depth as int, pr, pc));
                assert(score as int == v);
                assert(spec_minmax(g0, nn, cur0, cur0, h, md, depth as int) == v);
            }
        }
        (score, coord, (alpha, beta))
    }

    /// What the concurrent negamax computes. Every sibling subtree is
    /// explored over an independently duplicated board with the swapped,
    /// negated window as of the launch point; all siblings are explored
    /// before any result is folded in (launch-then-gather), so pruning
    /// information from one sibling never reaches another. The gather
    /// stops once the window crosses, which an uncrossed window never
    /// does, so the result is exactly the position's minimax value from
    /// the mover's perspective and the first best-scoring entry of the
    /// canonical move list — the same answer the sequential negamax
    /// gives. The fan-out itself is an execution strategy: sibling
    /// results do not depend on each other, so running them in parallel
    /// returns exactly this function's answer.
    #[verifier::loop_isolation(false)]
    #[verifier::rlimit(60)]
    pub fn spawned_negamax(
        &mut self,
        board: &Board,
        heuristic: BotHeuristic,
        current_player: Player,
        bot_player: Player,
        max_depth: Option<usize>,
        depth: usize,
        alpha: i64,
        beta: i64,
    ) -> (r: (i64, Option<(usize, usize)>, (i64, i64)))
        requires
            board.wf(),
            depth as int + 2 * count_grid(board@, None, board.side()) + pass_rank(
                board@,
                board.side(),
                current_player,
            ) <= usize::MAX as int,
        ensures
            r.2 == (alpha, beta),
            alpha <= beta ==> r.0 as int == spec_minmax(
                board@,
                board.side(),
                current_player,
                current_player,
                heuristic,
                max_depth,
                depth as int,
            ),
            ({
                let g = board@;
                let n = board.side();
                let moves = valid_moves_seq(g, n, current_player);
                (alpha <= beta && !spec_game_over(g, n) && !spec_cutoff(max_depth, depth)
                    && spec_can_move(g, n, current_player)) ==> ({
                    let cscores = minmax_child_scores(
                        g,
                        n,
                        current_player,
                        current_player,
                        heuristic,
                        max_depth,
                        depth as int,
                        moves,
                    );
                    let b = first_best_index(cscores, true, moves.len() as int);
                    r.1 == Some(moves[b]) && r.0 as int == cscores[b]
                })
            }),
            -eval_bound(board.side()) <= r.0 as int <= eval_bound(board.side()),
            (!spec_game_over(board@, board.side()) && !spec_cutoff(max_depth, depth)
                && spec_can_move(board@, board.side(), current_player)) ==> (r.1 is Some
                && valid_dest(
                board@,
                board.side(),
                current_player,
                (r.1->0).0 as int,
                (r.1->0).1 as int,
            )),
            (spec_game_over(board@, board.side()) || spec_cutoff(max_depth, depth)) ==> (r.0
                as int == spec_eval(heuristic, board@, board.side(), current_player) && r.1
                is None),
            final(self).spec_algorithm() == old(self).spec_algorithm(),
            final(self).spec_max_depth() == old(self).spec_max_depth(),
            final(self).spec_heuristic() == old(self).spec_heuristic(),
            final(self).spec_expansions() >= old(self).spec_expansions(),
            final(self).spec_comparisons() >= old(self).spec_comparisons(),
        decreases count_grid(board@, None, board.side()), pass_rank(
            board@,
            board.side(),
            current_player,
        ),
    {
        let ghost g0 = board@;
        let ghost nn = board.side();
        proof {
            assert(grid_wf(g0, nn) && 0 < nn <= usize::MAX as int);
            lemma_count_bounds(g0, None, nn, nn);
            lemma_eval_bound_small(nn);
        }
        let can_any = Reversi::anyone_can_move(board);
        let cutoff = match max_depth {
            Some(md) => depth >= md,
            None => false,
        };
        if !can_any || cutoff {
            let score = Self::eval(heuristic, board, current_player);
            return (score, None, (alpha, beta));
        }
        if self.expansions < usize::MAX {
            self.expansions = self.expansions + 1;
        }
        let cm = Reversi::can_move(board, current_player);
        if !cm {
            proof {
                assert(spec_can_move(g0, nn, current_player.spec_other()));
                assert(pass_rank(g0, nn, current_player) == 1);
                assert(depth < usize::MAX);
            }
            let child = self.spawned_negamax(
                board,
                heuristic,
                current_player.other(),
                bot_player,
                max_depth,
                depth + 1,
                neg_bound(beta),
                neg_bound(alpha),
            );
            let score = neg_bound(child.0);
            proof {
                if alpha <= beta {
                    assert(spec_neg(beta as int) <= spec_neg(alpha as int));
                    lemma_spec_minmax_antisym(
                        g0,
                        nn,
                        current_player.spec_other(),
                        current_player.spec_other(),
                        heuristic,
                        max_depth,
                        depth as int + 1,
                    );
                }
            }
            return (score, child.1, (alpha, beta));
        }
        proof {
            let (vr, vc): (int, int) = choose|vr: int, vc: int|
                valid_dest(g0, nn, current_player, vr, vc);
            assert(valid_dest(g0, nn, current_player, vr, vc));
            lemma_count_pos(g0, None, nn, vr, vc);
            assert(depth as int + 2 <= usize::MAX as int);
        }
        let valid_moves = Reversi::get_valid_moves_for_player(board, current_player);
        proof {
            assert forall|i: int|
                0 <= i < valid_moves@.len() implies valid_dest(
                g0,
                nn,
                current_player,
                (#[trigger] valid_moves@[i]).0 as int,
                valid_moves@[i].1 as int,
            ) by {
                assert(valid_moves@.contains(valid_moves@[i])) by {
                    assert(valid_moves@[i] == valid_moves@[i]);
                }
            }
        }
        let ghost cscores = minmax_child_scores(
            g0,
            nn,
            current_player,
            current_player,
            heuristic,
            max_depth,
            depth as int,
            valid_moves@,
        );
        // launch: every sibling gets the swapped, negated window as it
        // stands right now
        let launch_alpha = neg_bound(beta);
        let launch_beta = neg_bound(alpha);
        let mut results: Vec<i64> = Vec::new();
        let mut k: usize = 0;
        while k < valid_moves.len()
            invariant
                board.wf(),
                g0 == board@,
                nn == board.side(),
                k <= valid_moves@.len(),
                results@.len() == k,
                valid_moves@ == valid_moves_seq(g0, nn, current_player),
                launch_alpha as int == spec_neg(beta as int),
                launch_beta as int == spec_neg(alpha as int),
                cscores == minmax_child_scores(
                    g0,
                    nn,
                    current_player,
                    current_player,
                    heuristic,
                    max_depth,
                    depth as int,
                    valid_moves@,
                ),
                forall|i: int|
                    0 <= i < valid_moves@.len() ==> valid_dest(
                        g0,
                        nn,
                        current_player,
                        (#[trigger] valid_moves@[i]).0 as int,
                        valid_moves@[i].1 as int,
                    ),
                forall|i: int|
                    0 <= i < k ==> -eval_bound(nn) <= (#[trigger] results@[i]) as int
                        <= eval_bound(nn),
                alpha <= beta ==> forall|i: int|
                    0 <= i < k ==> (#[trigger] results@[i]) as int == -cscores[i],
                eval_bound(nn) <= 900_000_000,
                depth < usize::MAX,
                depth as int + 2 * count_grid(g0, None, nn) <= usize::MAX as int,
                self.spec_algorithm() == old(self).spec_algorithm(),
                self.spec_max_depth() == old(self).spec_max_depth(),
                self.spec_heuristic() == old(self).spec_heuristic(),
                self.spec_expansions() >= old(self).spec_expansions(),
                self.spec_comparisons() >= old(self).spec_comparisons(),
            decreases valid_moves@.len() - k,
        {
            let m = valid_moves[k];
            proof {
                assert(valid_dest(g0, nn, current_player, m.0 as int, m.1 as int));
            }
            let mut new_board = board.duplicate();
            let captured = Reversi::place_piece_on_board(&mut new_board, m, current_player);
            proof {
                lemma_place_grid_empties(g0, nn, current_player, m.0 as int, m.1 as int);
                assert(new_board@ == place_grid(g0, nn, current_player, m.0 as int, m.1 as int));
                assert(count_grid(new_board@, None, nn) == count_grid(g0, None, nn) - 1);
                lemma_count_bounds(new_board@, None, nn, nn);
                assert(pass_rank(new_board@, nn, current_player.spec_other()) <= 1);
            }
            let child = self.spawned_negamax(
                &new_board,
                heuristic,
                current_player.other(),
                bot_player,
                max_depth,
                depth + 1,
                launch_alpha,
                launch_beta,
            );
            results.push(child.0);
            proof {
                assert(forall|i: int|
                    0 <= i < k ==> #[trigger] results@[i] == results@.subrange(
                        0,
                        k as int,
                    )[i]);
                if alpha <= beta {
                    assert(spec_neg(beta as int) <= spec_neg(alpha as int));
                    let pg = place_grid(g0, nn, current_player, (m.0) as int, (m.1) as int);
                    assert(child.0 as int == spec_minmax(
                        pg,
                        nn,
                        current_player.spec_other(),
                        current_player.spec_other(),
                        heuristic,
                        max_depth,
                        depth as int + 1,
                    ));
                    assert(grid_wf(pg, nn)) by {
                        assert(pg.len() == nn);
                        assert(forall|x: int| 0 <= x < nn ==> (#[trigger] pg[x]).len() == nn);
                    }
                    lemma_spec_minmax_antisym(
                        pg,
                        nn,
                        current_player.spec_other(),
                        current_player.spec_other(),
                        heuristic,
                        max_depth,
                        depth as int + 1,
                    );
                    assert(cscores[k as int] == mm_child(
                        g0,
                        nn,
                        current_player,
                        current_player,
                        heuristic,
                        max_depth,
                        depth as int,
                        (m.0) as int,
                        (m.1) as int,
                    ));
                    assert(results@[k as int] as int == -cscores[k as int]);
                }
            }
            k += 1;
        }
        // gather: fold sibling results in launch order, stopping once the
        // window crosses; an uncrossed window never does
        let mut alpha = alpha;
        let mut beta = beta;
        let ghost alpha0 = alpha;
        let ghost beta0 = beta;
        let mut score: i64 = i64::MIN;
        let mut coord: Option<(usize, usize)> = None;
        let mut idx: usize = 0;
        let mut pruned = false;
        while idx < results.len() && !pruned
            invariant
                alpha == alpha0,
                beta == beta0,
                pruned ==> idx > 0,
                alpha0 <= beta0 ==> !pruned,
                idx <= results@.len(),
                results@.len() == valid_moves@.len(),
                valid_moves@ == valid_moves_seq(g0, nn, current_player),
                cscores == minmax_child_scores(
                    g0,
                    nn,
                    current_player,
                    current_player,
                    heuristic,
                    max_depth,
                    depth as int,
                    valid_moves@,
                ),
                forall|i: int|
                    0 <= i < valid_moves@.len() ==> valid_dest(
                        g0,
                        nn,
                        current_player,
                        (#[trigger] valid_moves@[i]).0 as int,
                        valid_moves@[i].1 as int,
                    ),
                forall|i: int|
                    0 <= i < results@.len() ==> -eval_bound(nn) <= (#[trigger] results@[i]) as int
                        <= eval_bound(nn),
                alpha0 <= beta0 ==> forall|i: int|
                    0 <= i < results@.len() ==> (#[trigger] results@[i]) as int == -cscores[i],
                eval_bound(nn) <= 900_000_000,
                coord is None ==> score as int == i64::MIN as int,
                coord is Some ==> -eval_bound(nn) <= score as int <= eval_bound(nn) && valid_dest(
                    g0,
                    nn,
                    current_player,
                    (coord->0).0 as int,
                    (coord->0).1 as int,
                ),
                idx > 0 ==> coord is Some,
                idx == 0 ==> coord is None,
                alpha0 <= beta0 && idx > 0 ==> {
                    let b = first_best_index(cscores, true, idx as int);
                    &&& 0 <= b < idx
                    &&& coord == Some(valid_moves@[b])
                    &&& score as int == cscores[b]
                },
                self.spec_algorithm() == old(self).spec_algorithm(),
                self.spec_max_depth() == old(self).spec_max_depth(),
                self.spec_heuristic() == old(self).spec_heuristic(),
                self.spec_expansions() >= old(self).spec_expansions(),
                self.spec_comparisons() >= old(self).spec_comparisons(),
            decreases results@.len() - idx,
        {
            if self.comparisons < usize::MAX {
                self.comparisons = self.comparisons + 1;
            }
            let new_score = neg_bound(results[idx]);
            proof {
                if alpha0 <= beta0 {
                    assert(results@[idx as int] as int == -cscores[idx as int]);
                    assert(-eval_bound(nn) <= cscores[idx as int] <= eval_bound(nn));
                    assert(new_score as int == cscores[idx as int]);
                }
            }
            if new_score > score {
                score = new_score;
                coord = Some(valid_moves[idx]);
            }
            idx += 1;
            proof {
                if alpha0 <= beta0 {
                    if idx as int == 1 {
                        assert(first_best_index(cscores, true, 1) == 0);
                    } else {
                        lemma_first_best_index_bounds(cscores, true, idx as int - 1);
                        let c0 = first_best_index(cscores, true, idx as int - 1);
                        assert(first_best_index(cscores, true, idx as int) == if cscores[idx
                            as int - 1] > cscores[c0] {
                            idx as int - 1
                        } else {
                            c0
                        });
                    }
                }
            }
            if alpha > beta {
                pruned = true;
            }
        }
        proof {
            assert(valid_moves@.len() >= 1) by {
                let (rr, cc): (int, int) = choose|rr: int, cc: int|
                    valid_dest(g0, nn, current_player, rr, cc);
                assert(valid_dest(g0, nn, current_player, rr, cc));
                assert(valid_moves@.contains(((rr as usize), (cc as usize))));
            }
            if alpha0 <= beta0 {
                assert(idx as int == results@.len());
                let len = valid_moves@.len() as int;
                let b = first_best_index(cscores, true, len);
                lemma_first_best_index_bounds(cscores, true, len);
                assert(coord == Some(valid_moves@[b]) && score as int == cscores[b]);
                lemma_mm_scan_props(g0, nn, current_player, current_player, heuristic, max_depth, depth as int, 0);
                let (vr, vc): (int, int) = choose|vr: int, vc: int|
                    valid_dest(g0, nn, current_player, vr, vc);
                assert(valid_dest(g0, nn, current_player, vr, vc));
                assert(cell_index(nn, vr, vc) >= 0) by (nonlinear_arith)
                    requires
                        0 <= vr && 0 <= vc && 0 <= nn && cell_index(nn, vr, vc) == vr * nn + vc,
                ;
                assert(mm_scan(g0, nn, current_player, current_player, heuristic, max_depth, depth as int, 0) is Some);
                let v = mm_scan(g0, nn, current_player, current_player, heuristic, max_depth, depth as int, 0)->0;
                let (ar, ac): (int, int) = choose|ar: int, ac: int|
                    valid_dest(g0, nn, current_player, ar, ac) && #[trigger] cell_index(nn, ar, ac)
                        >= 0 && mm_child(
                        g0,
                        nn,
                        current_player,
                        current_player,
                        heuristic,
                        max_depth,
                        depth as int,
                        ar,
                        ac,
                    ) == v;
                assert(valid_moves@.contains(((ar as usize), (ac as usize))));
                let kk = choose|kk: int|
                    0 <= kk < valid_moves@.len() && #[trigger] valid_moves@[kk] == ((ar as usize), (
                    ac as usize));
                assert(cscores[kk] == mm_child(
                    g0,
                    nn,
                    current_player,
                    current_player,
                    heuristic,
                    max_depth,
                    depth as int,
                    ar,
                    ac,
                ));
                lemma_first_best_dominates(cscores, true, len, kk);
                let pr = (valid_moves@[b].0) as int;
                let pc = (valid_moves@[b].1) as int;
                assert(valid_dest(g0, nn, current_player, pr, pc));
                assert(cell_index(nn, pr, pc) >= 0) by (nonlinear_arith)
                    requires
                        0 <= pr && 0 <= pc && 0 <= nn && cell_index(nn, pr, pc) == pr * nn + pc,
                ;
                assert(cscores[b] == mm_child(
                    g0,
                    nn,
                    current_player,
                    current_player,
                    heuristic,
                    max_depth,
                    depth as int,
                    pr,
                    pc,
                ));
                assert(score as int == v);
                assert(spec_minmax(g0, nn, current_player, current_player, heuristic, max_depth, depth as int) == v);
            }
        }
        (score, coord, (alpha, beta))
    }

    /// Reset the diagnostic counters and run the selected search on a
    /// private snapshot of the game. Whatever the algorithm, the
    /// returned coordinate is the same legal destination: the
    /// dispatcher's specified pick over the canonical move list. The
    /// caller applies it through the ordinary placement path.
    pub fn get_move(&mut self, game: Reversi) -> (r: (usize, usize))
        requires
            game.wf(),
            game.spec_bot() is Some,
            spec_can_move(game.grid(), game.side(), game.spec_current()),
            !spec_cutoff(old(self).spec_max_depth(), 0),
        ensures
            valid_dest(game.grid(), game.side(), game.spec_current(), r.0 as int, r.1 as int),
            r == dispatched_move(
                game.grid(),
                game.side(),
                game.spec_current(),
                ((game.spec_bot()->0).0),
                old(self).spec_heuristic(),
                old(self).spec_max_depth(),
            ),
            final(self).spec_algorithm() == old(self).spec_algorithm(),
            final(self).spec_max_depth() == old(self).spec_max_depth(),
            final(self).spec_heuristic() == old(self).spec_heuristic(),
    {
        self.expansions = 0;
        self.comparisons = 0;
        match self.algorithm {
            BotAlgorithm::MinMax => self.get_move_minmax(game),
            BotAlgorithm::AlphaBeta => self.get_move_alphabeta(game),
            BotAlgorithm::NegaMax => self.get_move_negamax(game),
            BotAlgorithm::Async => self.get_move_spawned(game),
        }
    }

    fn get_move_minmax(&mut self, game: Reversi) -> (r: (usize, usize))
        requires
            game.wf(),
            game.spec_bot() is Some,
            spec_can_move(game.grid(), game.side(), game.spec_current()),
            !spec_cutoff(old(self).spec_max_depth(), 0),
        ensures
            valid_dest(game.grid(), game.side(), game.spec_current(), r.0 as int, r.1 as int),
            r == dispatched_move(
                game.grid(),
                game.side(),
                game.spec_current(),
                ((game.spec_bot()->0).0),
                old(self).spec_heuristic(),
                old(self).spec_max_depth(),
            ),
            final(self).spec_algorithm() == old(self).spec_algorithm(),
            final(self).spec_max_depth() == old(self).spec_max_depth(),
            final(self).spec_heuristic() == old(self).spec_heuristic(),
    {
        let ghost g0 = game.grid();
        let ghost nn = game.side();
        let ghost cur0 = game.spec_current();
        let mut game = game;
        game.update_valid_moves();
        proof {
            assert(!spec_game_over(g0, nn));
            lemma_count_bounds(g0, None, nn, nn);
            assert(nn * nn <= 100_000_000) by (nonlinear_arith)
                requires
                    0 <= nn <= 10000,
            ;
            assert(pass_rank(g0, nn, game.spec_current()) <= 1);
        }
        let res = self.minmax(&mut game, 0);
        match res.1 {
            Some(m) => m,
            None => {
                proof {
                    assert(false);
                }
                (0, 0)
            },
        }
    }

    fn get_move_alphabeta(&mut self, game: Reversi) -> (r: (usize, usize))
        requires
            game.wf(),
            game.spec_bot() is Some,
            spec_can_move(game.grid(), game.side(), game.spec_current()),
            !spec_cutoff(old(self).spec_max_depth(), 0),
        ensures
            valid_dest(game.grid(), game.side(), game.spec_current(), r.0 as int, r.1 as int),
            r == dispatched_move(
                game.grid(),
                game.side(),
                game.spec_current(),
                ((game.spec_bot()->0).0),
                old(self).spec_heuristic(),
                old(self).spec_max_depth(),
            ),
            final(self).spec_algorithm() == old(self).spec_algorithm(),
            final(self).spec_max_depth() == old(self).spec_max_depth(),
            final(self).spec_heuristic() == old(self).spec_heuristic(),
    {
        let ghost g0 = game.grid();
        let ghost nn = game.side();
        let mut game = game;
        game.update_valid_moves();
        proof {
            assert(!spec_game_over(g0, nn));
            lemma_count_bounds(g0, None, nn, nn);
            assert(nn * nn <= 100_000_000) by (nonlinear_arith)
                requires
                    0 <= nn <= 10000,
            ;
            assert(pass_rank(g0, nn, game.spec_current()) <= 1);
        }
        let res = self.alphabeta(&mut game, 0, i64::MIN, i64::MAX);
        match res.1 {
            Some(m) => m,
            None => {
                proof {
                    assert(false);
                }
                (0, 0)
            },
        }
    }

    fn get_move_negamax(&mut self, game: Reversi) -> (r: (usize, usize))
        requires
            game.wf(),
            game.spec_bot() is Some,
            spec_can_move(game.grid(), game.side(), game.spec_current()),
            !spec_cutoff(old(self).spec_max_depth(), 0),
        ensures
            valid_dest(game.grid(), game.side(), game.spec_current(), r.0 as int, r.1 as int),
            r == dispatched_move(
                game.grid(),
                game.side(),
                game.spec_current(),
                ((game.spec_bot()->0).0),
                old(self).spec_heuristic(),
                old(self).spec_max_depth(),
            ),
            final(self).spec_algorithm() == old(self).spec_algorithm(),
            final(self).spec_max_depth() == old(self).spec_max_depth(),
            final(self).spec_heuristic() == old(self).spec_heuristic(),
    {
        let ghost g0 = game.grid();
        let ghost nn = game.side();
        let mut game = game;
        game.update_valid_moves();
        proof {
            assert(!spec_game_over(g0, nn));
            lemma_count_bounds(g0, None, nn, nn);
            assert(nn * nn <= 100_000_000) by (nonlinear_arith)
                requires
                    0 <= nn <= 10000,
            ;
            assert(pass_rank(g0, nn, game.spec_current()) <= 1);
        }
        let res = self.negamax(&mut game, 0, i64::MIN, i64::MAX);
        proof {
            let moves = valid_moves_seq(g0, nn, game.spec_current());
            assert(moves.len() >= 1) by {
                let (rr, cc): (int, int) = choose|rr: int, cc: int|
                    valid_dest(g0, nn, game.spec_current(), rr, cc);
                assert(valid_dest(g0, nn, game.spec_current(), rr, cc));
                lemma_valid_moves_upto_elems(g0, nn, game.spec_current(), nn * nn);
                assert(rr * nn + cc < nn * nn) by (nonlinear_arith)
                    requires
                        0 <= rr < nn && 0 <= cc < nn,
                ;
                assert(moves.contains(((rr as usize), (cc as usize))));
            }
            assert forall|i: int|
                0 <= i < moves.len() implies valid_dest(
                g0,
                nn,
                game.spec_current(),
                (#[trigger] moves[i]).0 as int,
                moves[i].1 as int,
            ) by {
                lemma_valid_moves_upto_elems(g0, nn, game.spec_current(), nn * nn);
                assert(moves.contains(moves[i])) by {
                    assert(moves[i] == moves[i]);
                }
            }
            lemma_pick_direction(
                g0,
                nn,
                game.spec_current(),
                ((game.spec_bot()->0).0),
                old(self).spec_heuristic(),
                old(self).spec_max_depth(),
                0,
                moves,
            );
        }
        match res.1 {
            Some(m) => m,
            None => {
                proof {
                    assert(false);
                }
                (0, 0)
            },
        }
    }

    fn get_move_spawned(&mut self, game: Reversi) -> (r: (usize, usize))
        requires
            game.wf(),
            game.spec_bot() is Some,
            spec_can_move(game.grid(), game.side(), game.spec_current()),
            !spec_cutoff(old(self).spec_max_depth(), 0),
        ensures
            valid_dest(game.grid(), game.side(), game.spec_current(), r.0 as int, r.1 as int),
            r == dispatched_move(
                game.grid(),
                game.side(),
                game.spec_current(),
                ((game.spec_bot()->0).0),
                old(self).spec_heuristic(),
                old(self).spec_max_depth(),
            ),
            final(self).spec_algorithm() == old(self).spec_algorithm(),
            final(self).spec_max_depth() == old(self).spec_max_depth(),
            final(self).spec_heuristic() == old(self).spec_heuristic(),
    {
        let bot_side = match game.bot_player() {
            Some(x) => x.0,
            None => {
                proof {
                    assert(false);
                }
                Player::Green
            },
        };
        let heuristic = self.heuristic;
        let max_depth = self.max_depth;
        proof {
            assert(!spec_game_over(game.grid(), game.side()));
            lemma_count_bounds(game.grid(), None, game.side(), game.side());
            assert(game.side() * game.side() <= 100_000_000) by (nonlinear_arith)
                requires
                    0 <= game.side() <= 10000,
            ;
            assert(pass_rank(game.grid(), game.side(), game.spec_current()) <= 1);
        }
        let res = self.spawned_negamax(
            game.board(),
            heuristic,
            game.current_player(),
            bot_side,
            max_depth,
            0,
            i64::MIN,
            i64::MAX,
        );
        proof {
            let g0 = game.grid();
            let nn = game.side();
            let moves = valid_moves_seq(g0, nn, game.spec_current());
            assert(moves.len() >= 1) by {
                let (rr, cc): (int, int) = choose|rr: int, cc: int|
                    valid_dest(g0, nn, game.spec_current(), rr, cc);
                assert(valid_dest(g0, nn, game.spec_current(), rr, cc));
                lemma_valid_moves_upto_elems(g0, nn, game.spec_current(), nn * nn);
                assert(rr * nn + cc < nn * nn) by (nonlinear_arith)
                    requires
                        0 <= rr < nn && 0 <= cc < nn,
                ;
                assert(moves.contains(((rr as usize), (cc as usize))));
            }
            assert forall|i: int|
                0 <= i < moves.len() implies valid_dest(
                g0,
                nn,
                game.spec_current(),
                (#[trigger] moves[i]).0 as int,
                moves[i].1 as int,
            ) by {
                lemma_valid_moves_upto_elems(g0, nn, game.spec_current(), nn * nn);
                assert(moves.contains(moves[i])) by {
                    assert(moves[i] == moves[i]);
                }
            }
            lemma_pick_direction(
                g0,
                nn,
                game.spec_current(),
                ((game.spec_bot()->0).0),
                old(self).spec_heuristic(),
                old(self).spec_max_depth(),
                0,
                moves,
            );
        }
        match res.1 {
            Some(m) => m,
            None => {
                proof {
                    assert(false);
                }
                (0, 0)
            },
        }
    }

    /// Which search this bot runs.
    pub fn algorithm(&self) -> (r: BotAlgorithm)
        ensures
            r == self.spec_algorithm(),
    {
        self.algorithm
    }

    /// The configured depth bound; absent means searching to the end of
    /// the game.
    pub fn max_depth(&self) -> (r: Option<usize>)
        ensures
            r == self.spec_max_depth(),
    {
        self.max_depth
    }

    /// The configured leaf heuristic.
    pub fn heuristic(&self) -> (r: BotHeuristic)
        ensures
            r == self.spec_heuristic(),
    {
        self.heuristic
    }

    /// This turn's diagnostic counters: node expansions and score
    /// comparisons.
    pub fn get_metrics(&self) -> (r: (usize, usize))
        ensures
            r.0 == self.spec_expansions(),
            r.1 == self.spec_comparisons(),
    {
        (self.expansions, self.comparisons)
    }
}

impl Default for Bot {
    /// A full-width searcher with no depth bound and the plain
    /// piece-difference heuristic.
    fn default() -> (r: Bot)
        ensures
            r.spec_algorithm() == BotAlgorithm::MinMax,
            r.spec_max_depth() is None,
            r.spec_heuristic() == BotHeuristic::UniformWeighting,
            r.spec_expansions() == 0,
            r.spec_comparisons() == 0,
    {
        Bot {
            algorithm: BotAlgorithm::MinMax,
            max_depth: None,
            heuristic: BotHeuristic::UniformWeighting,
            expansions: 0,
            comparisons: 0,
        }
    }
}

} // verus!
