use chess_engine::board::{PieceKind, PieceMap};
use chess_engine::minimax::{minimax_exhaustive, search_max, search_min};
use chess_engine::play_game::comp_turn;
use chess_engine::state::State;

fn position(white: &[(i8, i8, PieceKind)], black: &[(i8, i8, PieceKind)], white_turn: bool) -> State {
    let mut w = PieceMap::new();
    for &(x, y, k) in white {
        w.insert(x, y, k);
    }
    let mut b = PieceMap::new();
    for &(x, y, k) in black {
        b.insert(x, y, k);
    }
    State::from_pieces(w, b, white_turn).unwrap()
}

fn small_positions() -> Vec<State> {
    vec![
        position(
            &[(4, 7, PieceKind::King), (0, 7, PieceKind::Rook), (3, 6, PieceKind::Pawn)],
            &[(4, 0, PieceKind::King), (3, 1, PieceKind::Pawn), (6, 0, PieceKind::Knight)],
            true,
        ),
        position(
            &[(4, 7, PieceKind::King), (2, 5, PieceKind::Bishop), (5, 4, PieceKind::Knight)],
            &[(4, 0, PieceKind::King), (3, 3, PieceKind::Queen)],
            false,
        ),
        position(
            &[(7, 7, PieceKind::King), (1, 6, PieceKind::Pawn), (2, 6, PieceKind::Pawn)],
            &[(0, 0, PieceKind::King), (1, 1, PieceKind::Pawn), (2, 4, PieceKind::Rook)],
            true,
        ),
    ]
}

#[test]
fn pruning_matches_exhaustive_minimax() {
    for s in small_positions() {
        for depth in 1..=3u16 {
            if s.is_white_turn() {
                let r = search_max(&s, depth);
                assert_eq!(r.minimax_val, minimax_exhaustive(&s, depth, true));
            } else {
                let r = search_min(&s, depth);
                assert_eq!(r.minimax_val, minimax_exhaustive(&s, depth, false));
            }
        }
    }
}

#[test]
fn chosen_action_attains_value() {
    for s in small_positions() {
        for depth in 1..=3u16 {
            let maximizing = s.is_white_turn();
            let r = if maximizing { search_max(&s, depth) } else { search_min(&s, depth) };
            assert!(s.generate_legal_moves().contains(&r.action));
            let mut child = s.copy_state();
            child.action_to_state(&r.action);
            assert_eq!(minimax_exhaustive(&child, depth - 1, !maximizing), r.minimax_val);
        }
    }
}

#[test]
fn depth_one_from_initial_position() {
    let s = State::new();
    let r = search_max(&s, 1);
    assert_eq!(r.minimax_val, 0);
    assert_eq!(r.action, s.generate_legal_moves()[0]);
    assert_eq!(r.action, [0, 6, 0, 4]);
    assert_eq!(minimax_exhaustive(&s, 2, true), 0);
}

#[test]
fn search_takes_the_king() {
    let s = position(
        &[(4, 7, PieceKind::King), (4, 3, PieceKind::Rook)],
        &[(4, 0, PieceKind::King), (0, 0, PieceKind::Queen)],
        true,
    );
    let r = search_max(&s, 2);
    assert_eq!(r.minimax_val, 1000);
    assert_eq!(r.action, [4, 3, 4, 0]);
}

#[test]
fn minimizing_side_takes_the_king() {
    let s = position(
        &[(4, 7, PieceKind::King), (0, 7, PieceKind::Queen)],
        &[(4, 0, PieceKind::King), (4, 4, PieceKind::Rook)],
        false,
    );
    let r = search_min(&s, 3);
    assert_eq!(r.minimax_val, -1000);
    assert_eq!(r.action, [4, 4, 4, 7]);
}

#[test]
fn terminal_values_dominate() {
    let mut s = position(
        &[(4, 7, PieceKind::King), (4, 3, PieceKind::Rook)],
        &[(4, 0, PieceKind::King), (0, 0, PieceKind::Queen), (1, 0, PieceKind::Queen)],
        true,
    );
    s.action_to_state(&[4, 3, 4, 0]);
    assert_eq!(minimax_exhaustive(&s, 3, false), 1000);
    assert_eq!(minimax_exhaustive(&s, 0, false), 1000);
}

#[test]
fn horizon_returns_material() {
    let s = position(&[(4, 7, PieceKind::King), (0, 7, PieceKind::Rook)], &[(4, 0, PieceKind::King)], true);
    assert_eq!(minimax_exhaustive(&s, 0, true), 15);
}

#[test]
fn search_without_legal_actions_returns_evaluation() {
    let s = position(&[], &[(4, 0, PieceKind::King), (3, 0, PieceKind::Queen)], true);
    let r = search_max(&s, 2);
    assert_eq!(r.minimax_val, -150);
    assert_eq!(r.action, [0, 0, 0, 0]);
    assert_eq!(minimax_exhaustive(&s, 2, true), -150);
}

#[test]
fn computer_turn_searches_for_side_to_move() {
    let s = position(&[(7, 7, PieceKind::King)], &[(0, 0, PieceKind::King), (7, 0, PieceKind::Rook)], false);
    let r = comp_turn(&s);
    assert_eq!(r.minimax_val, -1000);
    assert_eq!(r.action, search_min(&s, 5).action);
    let w = position(&[(7, 7, PieceKind::King), (7, 1, PieceKind::Rook)], &[(7, 0, PieceKind::King)], true);
    let rw = comp_turn(&w);
    assert_eq!(rw.minimax_val, 1000);
    assert_eq!(rw.action, [7, 1, 7, 0]);
}
