use vstd::prelude::*;

use crate::board::Board;
use crate::bot::Bot;
use crate::bot_algorithm::BotAlgorithm;
use crate::bot_difficulty::{depth_for, spec_depth_for, BotDifficulty};
use crate::bot_heuristic::BotHeuristic;
use crate::direction::{all_directions, direction_list, step, Direction};
use crate::grid::{cell, count_grid, in_bounds, Grid};
use crate::history::{copy_coords, History};
use crate::mechanics::{
    captures, captures_dir, captures_upto, flank, flank_len, has_flank, lemma_captures_agree_at_origin,
    lemma_captures_elems, lemma_flank_unique,
    lemma_no_flank_adjacent, lemma_no_flank_edge, lemma_no_flank_open, lemma_ray_bound,
    lemma_valid_dest_captures, lemma_valid_moves_upto_elems, place_grid, ray_c, ray_r,
    spec_can_move, spec_game_over, undo_grid, valid_dest, valid_moves_seq, valid_moves_upto,
};
use crate::player::Player;

verus! {

/// How a line scan stopped.
#[derive(Clone, Copy, PartialEq, Eq, Structural, Debug)]
enum ScanEnd {
    OwnPiece,
    EmptyCell,
    Edge,
}

/// Walk outward from `origin` along `d`, over the contiguous run of
/// `player`'s opponents, and report what ended the run: one of
/// `player`'s own pieces, an empty cell (returned as the third
/// component), or the edge of the board. The second component is the
/// length of the run.
fn scan_ray(board: &Board, origin: (usize, usize), d: Direction, player: Player) -> (res: (
    ScanEnd,
    usize,
    (usize, usize),
))
    requires
        board.wf(),
        in_bounds(board.side(), origin.0 as int, origin.1 as int),
    ensures
        ({
            let n = board.side();
            let g = board@;
            let orow = origin.0 as int;
            let ocol = origin.1 as int;
            let t = res.1 as int;
            &&& 0 <= t < n
            &&& forall|u: int|
                1 <= u <= t ==> in_bounds(n, #[trigger] ray_r(orow, d, u), ray_c(ocol, d, u))
                    && cell(g, ray_r(orow, d, u), ray_c(ocol, d, u)) == Some(player.spec_other())
            &&& (res.0 == ScanEnd::OwnPiece ==> in_bounds(n, ray_r(orow, d, t + 1), ray_c(ocol, d, t + 1))
                && cell(g, ray_r(orow, d, t + 1), ray_c(ocol, d, t + 1)) == Some(player)
                && res.2.0 as int == ray_r(orow, d, t + 1) && res.2.1 as int == ray_c(ocol, d, t + 1))
            &&& (res.0 == ScanEnd::EmptyCell ==> in_bounds(n, ray_r(orow, d, t + 1), ray_c(ocol, d, t + 1))
                && cell(g, ray_r(orow, d, t + 1), ray_c(ocol, d, t + 1)) is None
                && res.2.0 as int == ray_r(orow, d, t + 1) && res.2.1 as int == ray_c(ocol, d, t + 1))
            &&& (res.0 == ScanEnd::Edge ==> !in_bounds(n, ray_r(orow, d, t + 1), ray_c(ocol, d, t + 1)))
        }),
{
    let n = board.size();
    let ghost orow = origin.0 as int;
    let ghost ocol = origin.1 as int;
    let mut t: usize = 0;
    let mut cur: (usize, usize) = origin;
    let mut outcome: ScanEnd = ScanEnd::Edge;
    loop
        invariant_except_break
            board.wf(),
            n as int == board.side(),
            in_bounds(n as int, orow, ocol),
            orow == origin.0 as int,
            ocol == origin.1 as int,
            t < n,
            cur.0 as int == ray_r(orow, d, t as int),
            cur.1 as int == ray_c(ocol, d, t as int),
            in_bounds(n as int, cur.0 as int, cur.1 as int),
            forall|u: int|
                1 <= u <= t as int ==> in_bounds(n as int, #[trigger] ray_r(orow, d, u), ray_c(ocol, d, u))
                    && cell(board@, ray_r(orow, d, u), ray_c(ocol, d, u)) == Some(
                    player.spec_other(),
                ),
        ensures
            ({
                let tt = t as int;
                &&& 0 <= tt < n as int
                &&& forall|u: int|
                    1 <= u <= tt ==> in_bounds(n as int, #[trigger] ray_r(orow, d, u), ray_c(ocol, d, u))
                        && cell(board@, ray_r(orow, d, u), ray_c(ocol, d, u)) == Some(
                        player.spec_other(),
                    )
                &&& (outcome == ScanEnd::OwnPiece ==> in_bounds(n as int, ray_r(orow, d, tt + 1), ray_c(ocol, d, tt + 1))
                    && cell(board@, ray_r(orow, d, tt + 1), ray_c(ocol, d, tt + 1)) == Some(player)
                    && cur.0 as int == ray_r(orow, d, tt + 1) && cur.1 as int == ray_c(ocol, d, tt + 1))
                &&& (outcome == ScanEnd::EmptyCell ==> in_bounds(n as int, ray_r(orow, d, tt + 1), ray_c(ocol, d, tt + 1))
                    && cell(board@, ray_r(orow, d, tt + 1), ray_c(ocol, d, tt + 1)) is None
                    && cur.0 as int == ray_r(orow, d, tt + 1) && cur.1 as int == ray_c(ocol, d, tt + 1))
                &&& (outcome == ScanEnd::Edge ==> !in_bounds(n as int, ray_r(orow, d, tt + 1), ray_c(ocol, d, tt + 1)))
            }),
        decreases n - t,
    {
        match step(cur.0, cur.1, d, n) {
            None => {
                outcome = ScanEnd::Edge;
                proof {
                    assert(ray_r(orow, d, t as int + 1) == ray_r(orow, d, t as int) + d.dr());
                    assert(ray_c(ocol, d, t as int + 1) == ray_c(ocol, d, t as int) + d.dc());
                }
                break;
            },
            Some(next) => {
                proof {
                    assert(ray_r(orow, d, t as int + 1) == ray_r(orow, d, t as int) + d.dr());
                    assert(ray_c(ocol, d, t as int + 1) == ray_c(ocol, d, t as int) + d.dc());
                }
                let owner = board.get(next);
                match owner {
                    None => {
                        outcome = ScanEnd::EmptyCell;
                        cur = next;
                        break;
                    },
                    Some(q) => {
                        if q == player {
                            outcome = ScanEnd::OwnPiece;
                            cur = next;
                            break;
                        } else {
                            proof {
                                assert(q == player.spec_other());
                                lemma_ray_bound(orow, ocol, d, t as int + 1, n as int);
                            }
                            cur = next;
                            t += 1;
                        }
                    },
                }
            },
        }
    }
    (outcome, t, cur)
}

/// The rules engine: a board, whose turn it is, an optional bot seat,
/// the cached legal destinations of the side to move, and the history
/// that makes every placement reversible.
#[derive(Debug)]
pub struct Reversi {
    board: Board,
    bot_player: Option<(Player, Bot)>,
    current_player: Player,
    history: History,
    valid_moves: Vec<(usize, usize)>,
}

impl Reversi {
    pub closed spec fn spec_board(&self) -> Board {
        self.board
    }

    pub open spec fn grid(&self) -> Grid {
        self.spec_board()@
    }

    pub open spec fn side(&self) -> int {
        self.spec_board().side()
    }

    pub closed spec fn spec_current(&self) -> Player {
        self.current_player
    }

    pub closed spec fn spec_bot(&self) -> Option<(Player, Bot)> {
        self.bot_player
    }

    pub closed spec fn spec_moves(&self) -> Seq<(usize, usize)> {
        self.valid_moves@
    }

    pub closed spec fn spec_history(&self) -> Seq<(Player, (usize, usize), Seq<(usize, usize)>)> {
        self.history@
    }

    pub open spec fn wf(&self) -> bool {
        self.spec_board().wf()
    }

    /// The cached move list is the canonical move list of the position:
    /// exactly the legal destinations of the side to move, each once, in
    /// row-major order.
    pub open spec fn moves_fresh(&self) -> bool {
        &&& self.spec_moves() == valid_moves_seq(self.grid(), self.side(), self.spec_current())
        &&& forall|m: (usize, usize)| #[trigger]
            self.spec_moves().contains(m) ==> valid_dest(
                self.grid(),
                self.side(),
                self.spec_current(),
                m.0 as int,
                m.1 as int,
            )
        &&& forall|r: int, c: int|
            valid_dest(self.grid(), self.side(), self.spec_current(), r, c)
                ==> self.spec_moves().contains(((r as usize), (c as usize)))
        &&& forall|k: int, l: int|
            0 <= k < l < self.spec_moves().len() ==> self.spec_moves()[k] != self.spec_moves()[l]
    }

    /// A fresh standard game: an eight-sided board with the canonical
    /// centre cross, Green to move, and optionally a bot seat whose
    /// depth bound comes from the difficulty table.
    pub fn new(bot_player: Option<(Player, BotDifficulty, BotAlgorithm, BotHeuristic)>) -> (r:
        Reversi)
        ensures
            r.wf(),
            r.side() == 8,
            forall|i: int, j: int|
                in_bounds(8, i, j) ==> cell(r.grid(), i, j) == crate::board::init_cell(8, i, j),
            r.spec_current() == Player::Green,
            r.spec_history().len() == 0,
            r.spec_moves().len() == 0,
            match bot_player {
                None => r.spec_bot() is None,
                Some(t) => {
                    let b = r.spec_bot()->0;
                    &&& r.spec_bot() is Some
                    &&& b.0 == t.0
                    &&& b.1.spec_algorithm() == t.2
                    &&& b.1.spec_max_depth() == spec_depth_for(t.1)
                    &&& b.1.spec_heuristic() == t.3
                    &&& b.1.spec_expansions() == 0
                    &&& b.1.spec_comparisons() == 0
                },
            },
    {
        let bot: Option<(Player, Bot)> = match bot_player {
            None => None,
            Some((p, difficulty, algorithm, heuristic)) => Some(
                (p, Bot::new(algorithm, depth_for(difficulty), heuristic)),
            ),
        };
        Reversi {
            board: Board::new(8),
            bot_player: bot,
            current_player: Player::Green,
            history: History::new(),
            valid_moves: Vec::new(),
        }
    }

    /// Recompute the cached legal destinations of the side to move.
    pub fn update_valid_moves(&mut self)
        requires
            old(self).wf(),
        ensures
            final(self).wf(),
            final(self).grid() == old(self).grid(),
            final(self).side() == old(self).side(),
            final(self).spec_current() == old(self).spec_current(),
            final(self).spec_bot() == old(self).spec_bot(),
            final(self).spec_history() == old(self).spec_history(),
            final(self).moves_fresh(),
    {
        let moves = Self::get_valid_moves_for_player(&self.board, self.current_player);
        self.valid_moves = moves;
    }

    /// Every legal destination for `player` on `board`, in row-major
    /// order: exactly the canonical move list `valid_moves_seq`. A cell
    /// qualifies when it is empty and some direction shows a nonempty
    /// run of opponents ended by one of `player`'s own pieces.
    pub fn get_valid_moves_for_player(board: &Board, player: Player) -> (res: Vec<(usize, usize)>)
        requires
            board.wf(),
        ensures
            res@ == valid_moves_seq(board@, board.side(), player),
            forall|m: (usize, usize)| #[trigger]
                res@.contains(m) ==> valid_dest(board@, board.side(), player, m.0 as int, m.1 as int),
            forall|r: int, c: int|
                valid_dest(board@, board.side(), player, r, c) ==> res@.contains(
                    ((r as usize), (c as usize)),
                ),
            forall|k: int, l: int| 0 <= k < l < res@.len() ==> res@[k] != res@[l],
    {
        let n = board.size();
        let ghost g = board@;
        let ghost nn = board.side();
        proof {
            assert(nn * nn <= 100_000_000) by (nonlinear_arith)
                requires
                    0 <= nn <= 10000,
            ;
        }
        let total = n * n;
        let mut res: Vec<(usize, usize)> = Vec::new();
        let mut idx: usize = 0;
        while idx < total
            invariant
                board.wf(),
                n as int == nn,
                g == board@,
                nn == board.side(),
                total == n * n,
                nn * nn <= 100_000_000,
                idx <= total,
                res@ == valid_moves_upto(g, nn, player, idx as int),
            decreases total - idx,
        {
            let r = idx / n;
            let c = idx % n;
            proof {
                assert(0 <= r as int && 0 <= c as int && (c as int) < nn && (r as int) * nn + (
                c as int) == idx as int && (r as int) < nn) by (nonlinear_arith)
                    requires
                        0 < nn && 0 <= (idx as int) < nn * nn && r as int == (idx as int) / nn
                            && c as int == (idx as int) % nn,
                ;
            }
            let empty = match board.get((r, c)) {
                None => true,
                Some(_) => false,
            };
            if empty && Self::flanks_somewhere(board, (r, c), player) {
                res.push((r, c));
                proof {
                    assert(res@ =~= valid_moves_upto(g, nn, player, idx as int + 1));
                }
            } else {
                proof {
                    assert(!valid_dest(g, nn, player, r as int, c as int));
                    assert(res@ =~= valid_moves_upto(g, nn, player, idx as int + 1));
                }
            }
            idx += 1;
        }
        proof {
            lemma_valid_moves_upto_elems(g, nn, player, nn * nn);
            assert forall|rr: int, cc: int|
                valid_dest(g, nn, player, rr, cc) implies res@.contains(
                ((rr as usize), (cc as usize)),
            ) by {
                assert(rr * nn + cc < nn * nn) by (nonlinear_arith)
                    requires
                        0 <= rr < nn && 0 <= cc < nn,
                ;
            }
            assert forall|k: int, l: int| 0 <= k < l < res@.len() implies res@[k] != res@[l] by {
                let a = res@[k];
                let b = res@[l];
                assert((a.0 as int) < (b.0 as int) || ((a.0 as int) == (b.0 as int) && (a.1 as int)
                    < (b.1 as int)));
            }
        }
        res
    }

    /// Whether some direction from `coord` flanks the opponent: a
    /// nonempty run of `player`'s opponents ended by `player`'s own
    /// piece.
    fn flanks_somewhere(board: &Board, coord: (usize, usize), player: Player) -> (r: bool)
        requires
            board.wf(),
            in_bounds(board.side(), coord.0 as int, coord.1 as int),
        ensures
            r == exists|d: Direction, k: int|
                flank(board@, board.side(), player, coord.0 as int, coord.1 as int, d, k),
    {
        let n = board.size();
        let ghost g = board@;
        let ghost nn = board.side();
        let ghost rr = coord.0 as int;
        let ghost cc = coord.1 as int;
        let dirs = direction_list();
        let mut found = false;
        let mut j: usize = 0;
        while j < dirs.len()
            invariant
                board.wf(),
                n as int == nn,
                g == board@,
                nn == board.side(),
                rr == coord.0 as int,
                cc == coord.1 as int,
                in_bounds(nn, rr, cc),
                dirs@ == all_directions(),
                j <= dirs.len(),
                found ==> exists|d: Direction, k: int| flank(g, nn, player, rr, cc, d, k),
                !found ==> forall|jj: int, k: int|
                    0 <= jj < j ==> !(#[trigger] flank(g, nn, player, rr, cc, all_directions()[jj], k)),
            decreases dirs.len() - j,
        {
            let d = dirs[j];
            let (outcome, t, _stop) = scan_ray(board, coord, d, player);
            let ghost tt = t as int;
            if outcome == ScanEnd::OwnPiece && t >= 1 {
                proof {
                    assert(flank(g, nn, player, rr, cc, d, tt));
                }
                found = true;
            } else {
                proof {
                    if outcome == ScanEnd::OwnPiece {
                        lemma_no_flank_adjacent(g, nn, player, rr, cc, d);
                    } else if outcome == ScanEnd::EmptyCell {
                        lemma_no_flank_open(g, nn, player, rr, cc, d, tt);
                    } else {
                        lemma_no_flank_edge(g, nn, player, rr, cc, d, tt);
                    }
                }
            }
            j += 1;
        }
        proof {
            if !found {
                assert forall|d: Direction, k: int| !flank(g, nn, player, rr, cc, d, k) by {
                    crate::direction::lemma_all_directions_complete();
                    assert(all_directions().contains(d));
                    let jj = choose|jj: int|
                        0 <= jj < all_directions().len() && all_directions()[jj] == d;
                    assert(!flank(g, nn, player, rr, cc, all_directions()[jj], k));
                }
            }
        }
        found
    }

    /// Whether anyone — either side — still has a legal move.
    pub fn anyone_can_move(board: &Board) -> (r: bool)
        requires
            board.wf(),
        ensures
            r == !spec_game_over(board@, board.side()),
    {
        Self::can_move(board, Player::Green) || Self::can_move(board, Player::Red)
    }

    /// Whether `player` has a legal move on `board`.
    pub fn can_move(board: &Board, player: Player) -> (r: bool)
        requires
            board.wf(),
        ensures
            r == spec_can_move(board@, board.side(), player),
    {
        let moves = Self::get_valid_moves_for_player(board, player);
        let r = moves.len() > 0;
        proof {
            if moves@.len() > 0 {
                assert(moves@.contains(moves@[0])) by {
                    assert(moves@[0] == moves@[0]);
                }
                let m = moves@[0];
                assert(valid_dest(board@, board.side(), player, m.0 as int, m.1 as int));
            } else {
                if spec_can_move(board@, board.side(), player) {
                    let (rr, cc): (int, int) = choose|rr: int, cc: int|
                        valid_dest(board@, board.side(), player, rr, cc);
                    assert(moves@.contains(((rr as usize), (cc as usize))));
                }
            }
        }
        r
    }

    /// The player with strictly more pieces, or nobody on equal counts.
    pub fn get_winner(&self) -> (r: Option<Player>)
        requires
            self.wf(),
        ensures
            ({
                let cg = count_grid(self.grid(), Some(Player::Green), self.side());
                let cr = count_grid(self.grid(), Some(Player::Red), self.side());
                &&& ((r == Some(Player::Green)) <==> cg > cr)
                &&& ((r == Some(Player::Red)) <==> cr > cg)
                &&& ((r is None) <==> cg == cr)
            }),
    {
        let green_pieces = self.board.count_pieces(Player::Green);
        let red_pieces = self.board.count_pieces(Player::Red);
        if green_pieces < red_pieces {
            Some(Player::Red)
        } else if green_pieces > red_pieces {
            Some(Player::Green)
        } else {
            None
        }
    }

    /// Place the current player's piece at `coord`, flip everything the
    /// move flanks, and record the move. The destination must be legal;
    /// at least one piece is always captured.
    pub fn place_piece_and_add_history(&mut self, coord: (usize, usize))
        requires
            old(self).wf(),
            valid_dest(
                old(self).grid(),
                old(self).side(),
                old(self).spec_current(),
                coord.0 as int,
                coord.1 as int,
            ),
        ensures
            final(self).wf(),
            final(self).side() == old(self).side(),
            final(self).grid() == place_grid(
                old(self).grid(),
                old(self).side(),
                old(self).spec_current(),
                coord.0 as int,
                coord.1 as int,
            ),
            final(self).spec_current() == old(self).spec_current(),
            final(self).spec_bot() == old(self).spec_bot(),
            final(self).spec_moves() == old(self).spec_moves(),
            final(self).spec_history() == old(self).spec_history().push(
                (
                    old(self).spec_current(),
                    coord,
                    captures(
                        old(self).grid(),
                        old(self).side(),
                        old(self).spec_current(),
                        coord.0 as int,
                        coord.1 as int,
                    ),
                ),
            ),
            captures(
                old(self).grid(),
                old(self).side(),
                old(self).spec_current(),
                coord.0 as int,
                coord.1 as int,
            ).len() >= 1,
            count_grid(final(self).grid(), Some(old(self).spec_current()), old(self).side())
                == count_grid(old(self).grid(), Some(old(self).spec_current()), old(self).side())
                + 1 + captures(
                old(self).grid(),
                old(self).side(),
                old(self).spec_current(),
                coord.0 as int,
                coord.1 as int,
            ).len(),
            count_grid(
                final(self).grid(),
                Some(old(self).spec_current().spec_other()),
                old(self).side(),
            ) == count_grid(
                old(self).grid(),
                Some(old(self).spec_current().spec_other()),
                old(self).side(),
            ) - captures(
                old(self).grid(),
                old(self).side(),
                old(self).spec_current(),
                coord.0 as int,
                coord.1 as int,
            ).len(),
            count_grid(final(self).grid(), None, old(self).side()) == count_grid(
                old(self).grid(),
                None,
                old(self).side(),
            ) - 1,
    {
        let player = self.current_player;
        let captured_pieces = Self::place_piece_on_board(&mut self.board, coord, player);
        proof {
            lemma_valid_dest_captures(
                old(self).grid(),
                old(self).side(),
                player,
                coord.0 as int,
                coord.1 as int,
            );
            crate::mechanics::lemma_placement_count_deltas(
                old(self).grid(),
                old(self).side(),
                player,
                coord.0 as int,
                coord.1 as int,
            );
        }
        self.history.push(player, coord, captured_pieces);
    }

    /// Place `player` at `coord` on `board` and flip every coordinate
    /// the placement flanks; the flipped coordinates are returned.
    pub fn place_piece_on_board(board: &mut Board, coord: (usize, usize), player: Player) -> (res:
        Vec<(usize, usize)>)
        requires
            old(board).wf(),
            in_bounds(old(board).side(), coord.0 as int, coord.1 as int),
        ensures
            final(board).wf(),
            final(board).side() == old(board).side(),
            res@ == captures(old(board)@, old(board).side(), player, coord.0 as int, coord.1 as int),
            final(board)@ == place_grid(
                old(board)@,
                old(board).side(),
                player,
                coord.0 as int,
                coord.1 as int,
            ),
    {
        let ghost g0 = board@;
        let ghost nn = board.side();
        let ghost r = coord.0 as int;
        let ghost c = coord.1 as int;
        board.set(coord, Some(player));
        proof {
            lemma_captures_agree_at_origin(g0, board@, nn, player, r, c);
        }
        let captured_pieces = Self::get_captures_for_position(board, coord, player);
        proof {
            lemma_captures_elems(g0, nn, player, r, c, 8);
        }
        let ghost caps = captures(g0, nn, player, r, c);
        let ghost g1 = board@;
        let mut t: usize = 0;
        while t < captured_pieces.len()
            invariant
                board.wf(),
                nn == board.side(),
                in_bounds(nn, r, c),
                nn <= usize::MAX,
                captured_pieces@ == caps,
                caps == captures(g0, nn, player, r, c),
                forall|m: (usize, usize)| #[trigger]
                    caps.contains(m) ==> in_bounds(nn, m.0 as int, m.1 as int) && cell(
                        g0,
                        m.0 as int,
                        m.1 as int,
                    ) == Some(player.spec_other()) && !(m.0 as int == r && m.1 as int == c),
                t <= caps.len(),
                cell(board@, r, c) == Some(player),
                forall|x: int, y: int|
                    in_bounds(nn, x, y) && !(x == r && y == c) ==> (#[trigger] cell(
                        board@,
                        x,
                        y,
                    )) == (if caps.take(t as int).contains(((x as usize), (y as usize))) {
                        Some(player)
                    } else {
                        cell(g0, x, y)
                    }),
            decreases captured_pieces.len() - t,
        {
            let m = captured_pieces[t];
            proof {
                assert(caps.contains(m)) by {
                    assert(caps[t as int] == m);
                }
            }
            board.set(m, Some(player));
            proof {
                assert forall|x: int, y: int|
                    in_bounds(nn, x, y) && !(x == r && y == c) implies cell(board@, x, y) == (
                    if caps.take(t as int + 1).contains(((x as usize), (y as usize))) {
                        Some(player)
                    } else {
                        cell(g0, x, y)
                    }) by {
                    let mm = ((x as usize), (y as usize));
                    if caps.take(t as int + 1).contains(mm) {
                        let ix = choose|ix: int|
                            0 <= ix < t as int + 1 && #[trigger] caps.take(t as int + 1)[ix] == mm;
                        if ix < t as int {
                            assert(caps.take(t as int)[ix] == mm);
                            assert(caps.take(t as int).contains(mm));
                        } else {
                            assert(caps[t as int] == mm);
                        }
                    } else {
                        assert(!caps.take(t as int).contains(mm)) by {
                            if caps.take(t as int).contains(mm) {
                                let ix = choose|ix: int|
                                    0 <= ix < t as int && #[trigger] caps.take(t as int)[ix] == mm;
                                assert(caps.take(t as int + 1)[ix] == mm);
                            }
                        }
                        assert(!(x == m.0 as int && y == m.1 as int)) by {
                            if x == m.0 as int && y == m.1 as int {
                                assert(caps.take(t as int + 1)[t as int] == m);
                                assert(mm == m);
                            }
                        }
                    }
                }
            }
            t += 1;
        }
        proof {
            let gf = board@;
            let pg = place_grid(g0, nn, player, r, c);
            assert(caps.take(caps.len() as int) =~= caps);
            assert(gf.len() == nn && pg.len() == nn);
            assert forall|x: int| 0 <= x < nn implies gf[x] =~= pg[x] by {
                assert(gf[x].len() == nn && pg[x].len() == nn);
                assert forall|y: int| 0 <= y < nn implies gf[x][y] == pg[x][y] by {
                    assert(cell(gf, x, y) == gf[x][y]);
                    if x == r && y == c {
                        assert(cell(gf, r, c) == Some(player));
                    } else {
                        assert(cell(gf, x, y) == (if caps.contains(((x as usize), (y as usize))) {
                            Some(player)
                        } else {
                            cell(g0, x, y)
                        }));
                    }
                }
            }
            assert(gf =~= pg);
        }
        captured_pieces
    }

    /// The coordinates a placement by `player` at `coord` would capture,
    /// direction by direction in scan order. The scan never reads
    /// `coord` itself.
    pub fn get_captures_for_position(board: &Board, coord: (usize, usize), player: Player) -> (res:
        Vec<(usize, usize)>)
        requires
            board.wf(),
            in_bounds(board.side(), coord.0 as int, coord.1 as int),
        ensures
            res@ == captures(board@, board.side(), player, coord.0 as int, coord.1 as int),
    {
        let n = board.size();
        let ghost g = board@;
        let ghost nn = board.side();
        let ghost r = coord.0 as int;
        let ghost c = coord.1 as int;
        let dirs = direction_list();
        let mut res: Vec<(usize, usize)> = Vec::new();
        let mut j: usize = 0;
        while j < dirs.len()
            invariant
                board.wf(),
                n as int == nn,
                g == board@,
                nn == board.side(),
                r == coord.0 as int,
                c == coord.1 as int,
                in_bounds(nn, r, c),
                dirs@ == all_directions(),
                j <= dirs.len(),
                res@ == captures_upto(g, nn, player, r, c, j as int),
            decreases dirs.len() - j,
        {
            let d = dirs[j];
            let (outcome, t, _stop) = scan_ray(board, coord, d, player);
            let ghost tt = t as int;
            if outcome == ScanEnd::OwnPiece && t >= 1 {
                proof {
                    assert(flank(g, nn, player, r, c, d, tt));
                    assert(has_flank(g, nn, player, r, c, d)) by {
                        assert(flank(g, nn, player, r, c, d, tt));
                    }
                    lemma_flank_unique(g, nn, player, r, c, d, flank_len(g, nn, player, r, c, d), tt);
                    assert(captures_dir(g, nn, player, r, c, d).len() == tt);
                }
                let mut u: usize = 0;
                let mut cur: (usize, usize) = coord;
                while u < t
                    invariant
                        board.wf(),
                        n as int == nn,
                        g == board@,
                        nn == board.side(),
                        r == coord.0 as int,
                        c == coord.1 as int,
                        in_bounds(nn, r, c),
                        u <= t,
                        tt == t as int,
                        t < n,
                        cur.0 as int == ray_r(r, d, u as int),
                        cur.1 as int == ray_c(c, d, u as int),
                        in_bounds(nn, cur.0 as int, cur.1 as int),
                        forall|w: int|
                            1 <= w <= tt ==> in_bounds(nn, #[trigger] ray_r(r, d, w), ray_c(c, d, w))
                                && cell(g, ray_r(r, d, w), ray_c(c, d, w)) == Some(
                                player.spec_other(),
                            ),
                        has_flank(g, nn, player, r, c, d),
                        captures_dir(g, nn, player, r, c, d).len() == tt,
                        flank(g, nn, player, r, c, d, tt),
                        res@ == captures_upto(g, nn, player, r, c, j as int) + captures_dir(
                            g,
                            nn,
                            player,
                            r,
                            c,
                            d,
                        ).take(u as int),
                    decreases t - u,
                {
                    let ghost oldres = res@;
                    let next = match step(cur.0, cur.1, d, n) {
                        Some(x) => x,
                        None => {
                            proof {
                                assert(ray_r(r, d, u as int + 1) == ray_r(r, d, u as int)
                                    + d.dr());
                                assert(ray_c(c, d, u as int + 1) == ray_c(c, d, u as int)
                                    + d.dc());
                                assert(in_bounds(nn, ray_r(r, d, u as int + 1), ray_c(c, d, u as int + 1)));
                                assert(false);
                            }
                            (0, 0)
                        },
                    };
                    proof {
                        assert(ray_r(r, d, u as int + 1) == ray_r(r, d, u as int) + d.dr());
                        assert(ray_c(c, d, u as int + 1) == ray_c(c, d, u as int) + d.dc());
                    }
                    res.push(next);
                    cur = next;
                    u += 1;
                    proof {
                        let cd = captures_dir(g, nn, player, r, c, d);
                        assert(cd[u as int - 1] == (((ray_r(r, d, u as int)) as usize), ((ray_c(
                            c,
                            d,
                            u as int,
                        )) as usize)));
                        assert(next == cd[u as int - 1]);
                        assert(res@ =~= captures_upto(g, nn, player, r, c, j as int) + cd.take(
                            u as int,
                        ));
                    }
                }
                proof {
                    let cd = captures_dir(g, nn, player, r, c, d);
                    assert(cd.take(tt) =~= cd);
                    assert(res@ =~= captures_upto(g, nn, player, r, c, j as int + 1));
                }
            } else {
                proof {
                    if outcome == ScanEnd::OwnPiece {
                        lemma_no_flank_adjacent(g, nn, player, r, c, d);
                    } else if outcome == ScanEnd::EmptyCell {
                        lemma_no_flank_open(g, nn, player, r, c, d, tt);
                    } else {
                        lemma_no_flank_edge(g, nn, player, r, c, d, tt);
                    }
                    assert(!has_flank(g, nn, player, r, c, d));
                    assert(captures_dir(g, nn, player, r, c, d) =~= Seq::<(usize, usize)>::empty());
                    assert(res@ =~= captures_upto(g, nn, player, r, c, j as int + 1));
                }
            }
            j += 1;
        }
        proof {
            assert(res@ == captures_upto(g, nn, player, r, c, 8));
        }
        res
    }

    /// Hand the turn to the other player. A side with no legal move is
    /// not skipped here: callers detect the forced pass themselves.
    pub fn switch_players(&mut self)
        requires
            old(self).wf(),
        ensures
            final(self).wf(),
            final(self).grid() == old(self).grid(),
            final(self).side() == old(self).side(),
            final(self).spec_current() == old(self).spec_current().spec_other(),
            final(self).spec_bot() == old(self).spec_bot(),
            final(self).spec_moves() == old(self).spec_moves(),
            final(self).spec_history() == old(self).spec_history(),
    {
        self.current_player = self.current_player.other();
    }

    /// The bot seat, if one was configured.
    pub fn bot_player(&self) -> (r: Option<&(Player, Bot)>)
        ensures
            (r is Some) == (self.spec_bot() is Some),
            r is Some ==> *(r->0) == self.spec_bot()->0,
    {
        self.bot_player.as_ref()
    }

    /// Mutable access to the bot seat, for keeping its diagnostic
    /// counters after a move request.
    pub fn bot_player_mut(&mut self) -> (r: &mut Option<(Player, Bot)>)
        ensures
            *r == old(self).spec_bot(),
            final(self).spec_bot() == *final(r),
            final(self).grid() == old(self).grid(),
            final(self).side() == old(self).side(),
            final(self).spec_current() == old(self).spec_current(),
            final(self).spec_moves() == old(self).spec_moves(),
            final(self).spec_history() == old(self).spec_history(),
            final(self).wf() == old(self).wf(),
    {
        &mut self.bot_player
    }

    /// Whose turn it is.
    pub fn current_player(&self) -> (r: Player)
        ensures
            r == self.spec_current(),
    {
        self.current_player
    }

    /// The cached legal destinations of the side to move; authoritative
    /// once `update_valid_moves` has run for the current position.
    pub fn valid_moves(&self) -> (r: &Vec<(usize, usize)>)
        ensures
            r@ == self.spec_moves(),
    {
        &self.valid_moves
    }

    /// Take back the most recent placement: clear the placed cell,
    /// return the captured pieces to the mover's opponent, and give the
    /// mover the turn again.
    pub fn undo_turn(&mut self)
        requires
            old(self).wf(),
            old(self).spec_history().len() >= 1,
            ({
                let e = old(self).spec_history().last();
                &&& in_bounds(old(self).side(), e.1.0 as int, e.1.1 as int)
                &&& forall|k: int|
                    0 <= k < e.2.len() ==> in_bounds(
                        old(self).side(),
                        (#[trigger] e.2[k]).0 as int,
                        e.2[k].1 as int,
                    ) && e.2[k] != e.1
            }),
        ensures
            final(self).wf(),
            final(self).side() == old(self).side(),
            final(self).grid() == undo_grid(
                old(self).grid(),
                old(self).spec_history().last().0,
                old(self).spec_history().last().1.0 as int,
                old(self).spec_history().last().1.1 as int,
                old(self).spec_history().last().2,
            ),
            final(self).spec_current() == old(self).spec_history().last().0,
            final(self).spec_bot() == old(self).spec_bot(),
            final(self).spec_moves() == old(self).spec_moves(),
            final(self).spec_history() == old(self).spec_history().drop_last(),
    {
        let ghost g0 = self.board@;
        let ghost nn = self.board.side();
        let popped = self.history.pop();
        let (player, coord, captured_pieces) = match popped {
            Some(e) => e,
            None => {
                proof {
                    assert(false);
                }
                (Player::Green, (0, 0), Vec::new())
            },
        };
        let ghost caps = captured_pieces@;
        proof {
            let e = old(self).spec_history().last();
            assert(player == e.0);
            assert(coord == e.1);
            assert(caps == e.2);
            assert forall|i: int|
                0 <= i < caps.len() implies in_bounds(nn, (#[trigger] caps[i]).0 as int, caps[i].1 as int)
                && caps[i] != coord by {
                assert(in_bounds(old(self).side(), (e.2[i]).0 as int, e.2[i].1 as int) && e.2[i]
                    != e.1);
            }
        }
        self.board.set(coord, None);
        let other = player.other();
        let mut k: usize = 0;
        while k < captured_pieces.len()
            invariant
                self.board.wf(),
                nn == self.board.side(),
                in_bounds(nn, coord.0 as int, coord.1 as int),
                caps == captured_pieces@,
                self.spec_bot() == old(self).spec_bot(),
                self.spec_moves() == old(self).spec_moves(),
                self.spec_history() == old(self).spec_history().drop_last(),
                self.spec_current() == old(self).spec_current(),
                forall|i: int|
                    0 <= i < caps.len() ==> in_bounds(nn, (#[trigger] caps[i]).0 as int, caps[i].1 as int)
                        && caps[i] != coord,
                other == player.spec_other(),
                k <= caps.len(),
                cell(self.board@, coord.0 as int, coord.1 as int) is None,
                forall|x: int, y: int|
                    in_bounds(nn, x, y) && !(x == coord.0 as int && y == coord.1 as int) ==> (
                    #[trigger] cell(self.board@, x, y)) == (if caps.take(k as int).contains(
                        ((x as usize), (y as usize)),
                    ) {
                        Some(player.spec_other())
                    } else {
                        cell(g0, x, y)
                    }),
            decreases captured_pieces.len() - k,
        {
            let m = captured_pieces[k];
            self.board.set(m, Some(other));
            proof {
                assert(caps[k as int] == m);
                assert(!(m.0 as int == coord.0 as int && m.1 as int == coord.1 as int)) by {
                    assert(caps[k as int] != coord);
                }
                assert forall|x: int, y: int|
                    in_bounds(nn, x, y) && !(x == coord.0 as int && y == coord.1 as int) implies cell(
                    self.board@,
                    x,
                    y,
                ) == (if caps.take(k as int + 1).contains(((x as usize), (y as usize))) {
                    Some(player.spec_other())
                } else {
                    cell(g0, x, y)
                }) by {
                    let mm = ((x as usize), (y as usize));
                    if caps.take(k as int + 1).contains(mm) {
                        let ix = choose|ix: int|
                            0 <= ix < k as int + 1 && #[trigger] caps.take(k as int + 1)[ix] == mm;
                        if ix < k as int {
                            assert(caps.take(k as int)[ix] == mm);
                            assert(caps.take(k as int).contains(mm));
                        } else {
                            assert(caps[k as int] == mm);
                        }
                    } else {
                        assert(!caps.take(k as int).contains(mm)) by {
                            if caps.take(k as int).contains(mm) {
                                let ix = choose|ix: int|
                                    0 <= ix < k as int && #[trigger] caps.take(k as int)[ix] == mm;
                                assert(caps.take(k as int + 1)[ix] == mm);
                            }
                        }
                        assert(!(x == m.0 as int && y == m.1 as int)) by {
                            if x == m.0 as int && y == m.1 as int {
                                assert(caps.take(k as int + 1)[k as int] == m);
                                assert(mm == m);
                            }
                        }
                    }
                }
            }
            k += 1;
        }
        self.current_player = player;
        proof {
            let gf = self.board@;
            let ug = undo_grid(g0, player, coord.0 as int, coord.1 as int, caps);
            assert(caps.take(caps.len() as int) =~= caps);
            assert forall|x: int| 0 <= x < nn implies gf[x] =~= ug[x] by {
                assert(gf[x].len() == nn && ug[x].len() == nn);
                assert forall|y: int| 0 <= y < nn implies gf[x][y] == ug[x][y] by {
                    assert(cell(gf, x, y) == gf[x][y]);
                    if x == coord.0 as int && y == coord.1 as int {
                    } else {
                        assert(cell(gf, x, y) == (if caps.contains(((x as usize), (y as usize))) {
                            Some(player.spec_other())
                        } else {
                            cell(g0, x, y)
                        }));
                    }
                }
            }
            assert(gf =~= ug);
        }
    }

    /// The board being played on.
    pub fn board(&self) -> (r: &Board)
        ensures
            *r == self.spec_board(),
    {
        &self.board
    }

    /// An identical game with freshly allocated storage; searching over
    /// the copy leaves the live game untouched.
    pub fn duplicate(&self) -> (r: Reversi)
        requires
            self.wf(),
        ensures
            r.wf(),
            r.grid() == self.grid(),
            r.side() == self.side(),
            r.spec_current() == self.spec_current(),
            r.spec_bot() == self.spec_bot(),
            r.spec_moves() == self.spec_moves(),
            r.spec_history() == self.spec_history(),
    {
        Reversi {
            board: self.board.duplicate(),
            bot_player: self.bot_player,
            current_player: self.current_player,
            history: self.history.duplicate(),
            valid_moves: copy_coords(&self.valid_moves),
        }
    }
}

impl Default for Reversi {
    /// A bare two-person standard game, Red to move.
    fn default() -> (r: Reversi)
        ensures
            r.wf(),
            r.side() == 8,
            r.spec_current() == Player::Red,
            r.spec_bot() is None,
            r.spec_history().len() == 0,
            r.spec_moves().len() == 0,
    {
        Reversi {
            board: Board::new(8),
            bot_player: None,
            current_player: Player::Red,
            history: History::new(),
            valid_moves: Vec::new(),
        }
    }
}

} // verus!
