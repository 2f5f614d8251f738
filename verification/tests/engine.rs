use std::collections::HashSet;

use kar_reversi_minmax::{Board, History, Player, Reversi};

#[test]
fn test_update_valid_moves() {
    let mut game = Reversi::new(None);
    game.update_valid_moves();

    assert_eq!(
        HashSet::<(usize, usize)>::from_iter(game.valid_moves().clone().into_iter()),
        HashSet::from_iter([(2, 4), (4, 2), (3, 5), (5, 3)])
    );
}

#[test]
fn test_get_captures_for_position() {
    let game = Reversi::new(None);

    assert_eq!(
        Reversi::get_captures_for_position(game.board(), (4, 2), Player::Green),
        vec![(4, 3)]
    );
}

#[test]
fn fresh_game_seeds_centre_cross() {
    let game = Reversi::new(None);
    let board = game.board();
    assert_eq!(board.size(), 8);
    assert_eq!(board.get((4, 4)), Some(Player::Green));
    assert_eq!(board.get((3, 3)), Some(Player::Green));
    assert_eq!(board.get((4, 3)), Some(Player::Red));
    assert_eq!(board.get((3, 4)), Some(Player::Red));
    assert_eq!(board.get((0, 0)), None);
    assert_eq!(game.current_player(), Player::Green);
    assert_eq!(board.count_pieces(Player::Green), 2);
    assert_eq!(board.count_pieces(Player::Red), 2);
}

#[test]
fn player_other_swaps() {
    assert_eq!(Player::Green.other(), Player::Red);
    assert_eq!(Player::Red.other(), Player::Green);
}

#[test]
fn small_and_larger_boards_seed_their_centres() {
    let six = Board::new(6);
    assert_eq!(six.size(), 6);
    assert_eq!(six.get((3, 3)), Some(Player::Green));
    assert_eq!(six.get((2, 2)), Some(Player::Green));
    assert_eq!(six.get((3, 2)), Some(Player::Red));
    assert_eq!(six.get((2, 3)), Some(Player::Red));
    let ten = Board::new(10);
    assert_eq!(ten.size(), 10);
    assert_eq!(ten.get((5, 5)), Some(Player::Green));
    assert_eq!(ten.count_pieces(Player::Green), 2);
    assert_eq!(ten.count_pieces(Player::Red), 2);
}

#[test]
fn board_set_and_switch_piece() {
    let mut b = Board::new(8);
    b.set((0, 0), Some(Player::Red));
    assert_eq!(b.get((0, 0)), Some(Player::Red));
    b.switch_piece((0, 0));
    assert_eq!(b.get((0, 0)), Some(Player::Green));
    b.set((0, 0), None);
    assert_eq!(b.get((0, 0)), None);
}

#[test]
fn pieces_for_player_lists_owned_coordinates() {
    let b = Board::new(8);
    let green: Vec<(usize, usize)> = b.pieces_for_player(Player::Green);
    let red: Vec<(usize, usize)> = b.pieces_for_player(Player::Red);
    assert_eq!(
        HashSet::<(usize, usize)>::from_iter(green.into_iter()),
        HashSet::from_iter([(3, 3), (4, 4)])
    );
    assert_eq!(
        HashSet::<(usize, usize)>::from_iter(red.into_iter()),
        HashSet::from_iter([(3, 4), (4, 3)])
    );
}

#[test]
fn placement_flips_the_flanked_piece() {
    // Standard start; the mover places at the square that flanks exactly
    // one opponent piece. The capture set has size one, the flipped
    // piece changes owner, and the counts become four against one.
    let mut game = Reversi::new(None);
    game.update_valid_moves();
    let caps = Reversi::get_captures_for_position(game.board(), (4, 2), Player::Green);
    assert_eq!(caps.len(), 1);
    game.place_piece_and_add_history((4, 2));
    assert_eq!(game.board().get((4, 3)), Some(Player::Green));
    assert_eq!(game.board().count_pieces(Player::Green), 4);
    assert_eq!(game.board().count_pieces(Player::Red), 1);
}

#[test]
fn every_opening_move_captures_something() {
    for mv in [(2, 4), (4, 2), (3, 5), (5, 3)] {
        let mut game = Reversi::new(None);
        game.update_valid_moves();
        let caps = Reversi::get_captures_for_position(game.board(), mv, Player::Green);
        assert_eq!(caps.len(), 1);
        game.place_piece_and_add_history(mv);
        assert_eq!(game.board().count_pieces(Player::Green), 4);
    }
}

#[test]
fn place_then_undo_restores_everything() {
    let mut game = Reversi::new(None);
    game.update_valid_moves();
    let moves_before = game.valid_moves().clone();
    let mut cells_before: Vec<Option<Player>> = Vec::new();
    for r in 0..8usize {
        for c in 0..8usize {
            cells_before.push(game.board().get((r, c)));
        }
    }
    let player_before = game.current_player();

    game.place_piece_and_add_history((4, 2));
    game.undo_turn();

    for r in 0..8usize {
        for c in 0..8usize {
            assert_eq!(game.board().get((r, c)), cells_before[r * 8 + c]);
        }
    }
    assert_eq!(game.current_player(), player_before);
    game.update_valid_moves();
    assert_eq!(
        HashSet::<(usize, usize)>::from_iter(game.valid_moves().clone().into_iter()),
        HashSet::<(usize, usize)>::from_iter(moves_before.into_iter())
    );
}

#[test]
fn ownership_counts_partition_the_board() {
    let mut game = Reversi::new(None);
    game.update_valid_moves();
    let b = game.board();
    let empties = 64 - b.count_pieces(Player::Green) - b.count_pieces(Player::Red);
    assert_eq!(empties, 60);
    game.place_piece_and_add_history((2, 4));
    let b = game.board();
    assert_eq!(b.count_pieces(Player::Green) + b.count_pieces(Player::Red), 5);
}

#[test]
fn winner_follows_strict_count_comparison() {
    let mut game = Reversi::new(None);
    assert_eq!(game.get_winner(), None);
    game.update_valid_moves();
    game.place_piece_and_add_history((4, 2));
    assert_eq!(game.get_winner(), Some(Player::Green));
}

#[test]
fn both_sides_can_move_at_the_start() {
    let game = Reversi::new(None);
    assert!(Reversi::can_move(game.board(), Player::Green));
    assert!(Reversi::can_move(game.board(), Player::Red));
    assert!(Reversi::anyone_can_move(game.board()));
}

#[test]
fn a_full_board_ends_the_game() {
    let mut b = Board::new(8);
    for r in 0..8usize {
        for c in 0..8usize {
            b.set((r, c), Some(Player::Green));
        }
    }
    assert!(!Reversi::can_move(&b, Player::Green));
    assert!(!Reversi::can_move(&b, Player::Red));
    assert!(!Reversi::anyone_can_move(&b));
}

#[test]
fn switch_players_only_flips_the_turn() {
    let mut game = Reversi::new(None);
    assert_eq!(game.current_player(), Player::Green);
    game.switch_players();
    assert_eq!(game.current_player(), Player::Red);
    game.switch_players();
    assert_eq!(game.current_player(), Player::Green);
}

#[test]
fn history_pops_in_reverse_order() {
    let mut h = History::new();
    h.push(Player::Green, (4, 2), vec![(4, 3)]);
    h.push(Player::Red, (5, 2), vec![(4, 2), (3, 3)]);
    assert_eq!(h.pop(), Some((Player::Red, (5, 2), vec![(4, 2), (3, 3)])));
    assert_eq!(h.pop(), Some((Player::Green, (4, 2), vec![(4, 3)])));
    assert_eq!(h.pop(), None);
}

#[test]
fn duplicate_is_independent_of_the_original() {
    let mut game = Reversi::new(None);
    game.update_valid_moves();
    let snapshot = game.duplicate();
    game.place_piece_and_add_history((4, 2));
    assert_eq!(snapshot.board().get((4, 2)), None);
    assert_eq!(snapshot.board().get((4, 3)), Some(Player::Red));
    assert_eq!(game.board().get((4, 2)), Some(Player::Green));
}

#[test]
fn a_game_played_to_the_end_fills_or_blocks_the_board() {
    // Both seats pick their first listed move until nobody can move;
    // ownership must partition the board the whole way down.
    let mut game = Reversi::new(None);
    let mut plies = 0usize;
    loop {
        if !Reversi::anyone_can_move(game.board()) {
            break;
        }
        game.update_valid_moves();
        if game.valid_moves().is_empty() {
            game.switch_players();
            game.update_valid_moves();
            continue;
        }
        let mv = game.valid_moves()[0];
        game.place_piece_and_add_history(mv);
        game.switch_players();
        let b = game.board();
        let owned = b.count_pieces(Player::Green) + b.count_pieces(Player::Red);
        assert!(owned <= 64);
        assert_eq!(owned, 5 + plies);
        plies += 1;
        assert!(plies <= 60);
    }
    let b = game.board();
    assert!(b.count_pieces(Player::Green) + b.count_pieces(Player::Red) <= 64);
}

#[test]
fn two_moves_undone_in_reverse_order_restore_the_start() {
    let mut game = Reversi::new(None);
    let mut cells_before: Vec<Option<Player>> = Vec::new();
    for r in 0..8usize {
        for c in 0..8usize {
            cells_before.push(game.board().get((r, c)));
        }
    }
    game.update_valid_moves();
    game.place_piece_and_add_history((2, 4));
    game.switch_players();
    game.update_valid_moves();
    let reply = game.valid_moves()[0];
    game.place_piece_and_add_history(reply);
    game.undo_turn();
    game.undo_turn();
    for r in 0..8usize {
        for c in 0..8usize {
            assert_eq!(game.board().get((r, c)), cells_before[r * 8 + c]);
        }
    }
    assert_eq!(game.current_player(), Player::Green);
}
