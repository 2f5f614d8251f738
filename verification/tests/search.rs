use kar_reversi_minmax::{Bot, BotAlgorithm, BotDifficulty, BotHeuristic, Player, Reversi};

fn game_with_bot(algorithm: BotAlgorithm, depth: Option<usize>) -> (Reversi, Bot) {
    let mut game = Reversi::new(Some((
        Player::Green,
        BotDifficulty::Easy,
        algorithm,
        BotHeuristic::UniformWeighting,
    )));
    game.update_valid_moves();
    let bot = Bot::new(algorithm, depth, BotHeuristic::UniformWeighting);
    (game, bot)
}

#[test]
fn heuristics_on_the_standard_start_are_balanced() {
    let game = Reversi::new(None);
    assert_eq!(Bot::uniform_eval(game.board(), Player::Green), 0);
    assert_eq!(Bot::uniform_eval(game.board(), Player::Red), 0);
    assert_eq!(Bot::tactical_eval(game.board(), Player::Green), 0);
    assert_eq!(Bot::tactical_eval(game.board(), Player::Red), 0);
}

#[test]
fn heuristics_after_one_capture() {
    let mut game = Reversi::new(None);
    game.update_valid_moves();
    game.place_piece_and_add_history((4, 2));
    assert_eq!(Bot::uniform_eval(game.board(), Player::Green), 3);
    assert_eq!(Bot::uniform_eval(game.board(), Player::Red), -3);
    assert_eq!(Bot::tactical_eval(game.board(), Player::Green), 3);
}

#[test]
fn positional_weights_favour_corners_and_edges() {
    let game = Reversi::new(None);
    let b = game.board();
    assert_eq!(Bot::get_tactical_eval_score_for_coord(b, (0, 0)), 9);
    assert_eq!(Bot::get_tactical_eval_score_for_coord(b, (7, 7)), 9);
    assert_eq!(Bot::get_tactical_eval_score_for_coord(b, (0, 7)), 9);
    assert_eq!(Bot::get_tactical_eval_score_for_coord(b, (0, 3)), 3);
    assert_eq!(Bot::get_tactical_eval_score_for_coord(b, (5, 7)), 3);
    assert_eq!(Bot::get_tactical_eval_score_for_coord(b, (3, 3)), 1);
}

#[test]
fn eval_dispatches_on_the_heuristic() {
    let mut game = Reversi::new(None);
    game.update_valid_moves();
    game.place_piece_and_add_history((4, 2));
    let b = game.board();
    assert_eq!(
        Bot::eval(BotHeuristic::UniformWeighting, b, Player::Green),
        Bot::uniform_eval(b, Player::Green)
    );
    assert_eq!(
        Bot::eval(BotHeuristic::TacticalWeighting, b, Player::Green),
        Bot::tactical_eval(b, Player::Green)
    );
}

#[test]
fn one_ply_searches_agree_on_move_and_score() {
    // One-ply budget, searching side to move: plain minimax, the
    // alpha-beta search and negamax must settle on the same move, and
    // the alpha-beta score must equal the unpruned minimax score.
    let (mut g1, mut b1) = game_with_bot(BotAlgorithm::MinMax, Some(1));
    let (mut g2, mut b2) = game_with_bot(BotAlgorithm::AlphaBeta, Some(1));
    let (mut g3, mut b3) = game_with_bot(BotAlgorithm::NegaMax, Some(1));
    let mm = b1.minmax(&mut g1, 0);
    let ab = b2.alphabeta(&mut g2, 0, i64::MIN, i64::MAX);
    let ng = b3.negamax(&mut g3, 0, i64::MIN, i64::MAX);
    assert_eq!(mm.1, ab.1);
    assert_eq!(mm.1, ng.1);
    assert!(mm.1.is_some());
    assert_eq!(mm.0, ab.0);
    assert_eq!(mm.0, ng.0);
}

#[test]
fn one_ply_searches_agree_under_the_tactical_heuristic() {
    let mk = |alg: BotAlgorithm| {
        let mut game = Reversi::new(Some((
            Player::Green,
            BotDifficulty::Easy,
            alg,
            BotHeuristic::TacticalWeighting,
        )));
        game.update_valid_moves();
        (game, Bot::new(alg, Some(1), BotHeuristic::TacticalWeighting))
    };
    let (mut g1, mut b1) = mk(BotAlgorithm::MinMax);
    let (mut g2, mut b2) = mk(BotAlgorithm::AlphaBeta);
    let (mut g3, mut b3) = mk(BotAlgorithm::NegaMax);
    let mm = b1.minmax(&mut g1, 0);
    let ab = b2.alphabeta(&mut g2, 0, i64::MIN, i64::MAX);
    let ng = b3.negamax(&mut g3, 0, i64::MIN, i64::MAX);
    assert_eq!(mm.1, ab.1);
    assert_eq!(mm.1, ng.1);
    assert_eq!(mm.0, ab.0);
    assert_eq!(mm.0, ng.0);
}

#[test]
fn get_move_picks_one_legal_destination_whatever_the_algorithm() {
    let mut picks: Vec<(usize, usize)> = Vec::new();
    for alg in [
        BotAlgorithm::MinMax,
        BotAlgorithm::AlphaBeta,
        BotAlgorithm::NegaMax,
        BotAlgorithm::Async,
    ] {
        let mut game = Reversi::new(Some((
            Player::Green,
            BotDifficulty::Easy,
            alg,
            BotHeuristic::UniformWeighting,
        )));
        game.update_valid_moves();
        let mut bot = Bot::new(alg, Some(2), BotHeuristic::UniformWeighting);
        let snapshot = game.duplicate();
        let mv = bot.get_move(snapshot);
        game.update_valid_moves();
        assert!(game.valid_moves().contains(&mv));
        picks.push(mv);
    }
    assert_eq!(picks[0], picks[1]);
    assert_eq!(picks[0], picks[2]);
    assert_eq!(picks[0], picks[3]);
}

#[test]
fn fanned_out_negamax_picks_the_sequential_move() {
    // The launch-then-gather variant and the sequential negamax settle
    // on the same move and score, at any depth budget.
    for depth in [1usize, 2, 3] {
        let (g1, mut b1) = game_with_bot(BotAlgorithm::Async, Some(depth));
        let (mut g2, mut b2) = game_with_bot(BotAlgorithm::NegaMax, Some(depth));
        let fanned = b1.spawned_negamax(
            g1.board(),
            BotHeuristic::UniformWeighting,
            g1.current_player(),
            Player::Green,
            Some(depth),
            0,
            i64::MIN,
            i64::MAX,
        );
        let sequential = b2.negamax(&mut g2, 0, i64::MIN, i64::MAX);
        assert_eq!(fanned.1, sequential.1);
        assert_eq!(fanned.0, sequential.0);
        assert!(fanned.1.is_some());
    }
}

#[test]
fn search_leaves_the_game_as_it_found_it() {
    let (mut game, mut bot) = game_with_bot(BotAlgorithm::MinMax, Some(3));
    let before = game.duplicate();
    bot.minmax(&mut game, 0);
    for r in 0..8usize {
        for c in 0..8usize {
            assert_eq!(game.board().get((r, c)), before.board().get((r, c)));
        }
    }
    assert_eq!(game.current_player(), before.current_player());
}

#[test]
fn metrics_count_the_work_of_the_last_move() {
    let (game, mut bot) = game_with_bot(BotAlgorithm::MinMax, Some(2));
    let (e0, c0) = bot.get_metrics();
    assert_eq!((e0, c0), (0, 0));
    bot.get_move(game);
    let (expansions, comparisons) = bot.get_metrics();
    assert!(expansions >= 1);
    assert!(comparisons >= 4);
}

#[test]
fn deeper_searches_still_return_legal_moves() {
    for alg in [BotAlgorithm::MinMax, BotAlgorithm::AlphaBeta, BotAlgorithm::NegaMax] {
        let mut game = Reversi::new(Some((
            Player::Green,
            BotDifficulty::Medium,
            alg,
            BotHeuristic::TacticalWeighting,
        )));
        game.update_valid_moves();
        let mut bot = Bot::new(alg, Some(4), BotHeuristic::TacticalWeighting);
        let mv = bot.get_move(game.duplicate());
        assert!(game.valid_moves().contains(&mv));
    }
}

#[test]
fn deeper_searches_agree_on_move_and_score() {
    // An uncrossed window never tightens, so at any depth the window
    // search and negamax return plain minimax's move and score.
    for depth in [2usize, 3, 4] {
        let (mut g1, mut b1) = game_with_bot(BotAlgorithm::MinMax, Some(depth));
        let (mut g2, mut b2) = game_with_bot(BotAlgorithm::AlphaBeta, Some(depth));
        let (mut g3, mut b3) = game_with_bot(BotAlgorithm::NegaMax, Some(depth));
        let mm = b1.minmax(&mut g1, 0);
        let ab = b2.alphabeta(&mut g2, 0, i64::MIN, i64::MAX);
        let ng = b3.negamax(&mut g3, 0, i64::MIN, i64::MAX);
        assert_eq!(mm.0, ab.0);
        assert_eq!(mm.1, ab.1);
        assert_eq!(mm.0, ng.0);
        assert_eq!(mm.1, ng.1);
    }
}

#[test]
fn three_ply_minimax_on_the_start_has_an_exact_value() {
    let (mut game, mut bot) = game_with_bot(BotAlgorithm::MinMax, Some(3));
    let (score, mv) = bot.minmax(&mut game, 0);
    assert_eq!(score, 3);
    assert_eq!(mv, Some((2, 4)));
}
