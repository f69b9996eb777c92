use chess_engine::board::{PieceKind, PieceMap};
use chess_engine::state::State;

fn position(white: &[(i8, i8, PieceKind)], black: &[(i8, i8, PieceKind)], white_turn: bool) -> State {
    let mut w = PieceMap::new();
    for &(x, y, k) in white {
        w.insert(x, y, k);
    }
    let mut b = PieceMap::new();
    for &(x, y, k) in black {
        b.insert(x, y, k);
    }
    State::from_pieces(w, b, white_turn).unwrap()
}

#[test]
fn new_position_layout() {
    let s = State::new();
    assert!(s.is_white_turn());
    assert_eq!(s.victory_check(), 0);
    assert_eq!(s.white_pieces().get(4, 7), Some(PieceKind::King));
    assert_eq!(s.white_pieces().get(3, 7), Some(PieceKind::Queen));
    assert_eq!(s.white_pieces().get(0, 6), Some(PieceKind::Pawn));
    assert_eq!(s.black_pieces().get(4, 0), Some(PieceKind::King));
    assert_eq!(s.black_pieces().get(1, 0), Some(PieceKind::Knight));
    assert_eq!(s.black_pieces().get(7, 1), Some(PieceKind::Pawn));
    assert_eq!(s.white_pieces().get(4, 4), None);
    assert_eq!(s.black_pieces().get(4, 7), None);
}

#[test]
fn initial_material_is_balanced() {
    assert_eq!(State::new().estimate_minimax(), 0);
}

#[test]
fn material_weights() {
    let s = position(&[(3, 7, PieceKind::Queen), (4, 7, PieceKind::King)], &[(4, 0, PieceKind::King)], true);
    assert_eq!(s.estimate_minimax(), 50);
    let t = position(
        &[(4, 7, PieceKind::King)],
        &[(4, 0, PieceKind::King), (0, 0, PieceKind::Rook), (2, 0, PieceKind::Bishop), (1, 0, PieceKind::Knight), (0, 1, PieceKind::Pawn)],
        true,
    );
    assert_eq!(t.estimate_minimax(), -(15 + 10 + 7 + 1));
    let e = position(&[], &[], true);
    assert_eq!(e.estimate_minimax(), 0);
}

#[test]
fn from_pieces_rejects_shared_square() {
    let mut w = PieceMap::new();
    w.insert(2, 2, PieceKind::Rook);
    let mut b = PieceMap::new();
    b.insert(2, 2, PieceKind::Pawn);
    assert!(State::from_pieces(w, b, true).is_none());
}

#[test]
fn apply_moves_piece_and_passes_turn() {
    let mut s = State::new();
    s.action_to_state(&[4, 6, 4, 4]);
    assert!(!s.is_white_turn());
    assert_eq!(s.white_pieces().get(4, 6), None);
    assert_eq!(s.white_pieces().get(4, 4), Some(PieceKind::Pawn));
    assert_eq!(s.victory_check(), 0);
    s.action_to_state(&[3, 1, 3, 3]);
    assert!(s.is_white_turn());
    s.action_to_state(&[4, 4, 3, 3]);
    assert_eq!(s.white_pieces().get(3, 3), Some(PieceKind::Pawn));
    assert_eq!(s.black_pieces().get(3, 3), None);
    assert_eq!(s.estimate_minimax(), 1);
}

#[test]
fn apply_then_inverse_does_not_restore_turn_or_captures() {
    let mut s = position(&[(0, 7, PieceKind::Rook), (4, 7, PieceKind::King)], &[(0, 3, PieceKind::Pawn), (4, 0, PieceKind::King)], true);
    s.action_to_state(&[0, 7, 0, 3]);
    s.action_to_state(&[4, 0, 4, 1]);
    s.action_to_state(&[0, 3, 0, 7]);
    assert_eq!(s.black_pieces().get(0, 3), None);
    assert_eq!(s.estimate_minimax(), 15);
}

#[test]
fn clone_isolation() {
    let s = State::new();
    let before = s.to_string();
    let mut c = s.copy_state();
    c.action_to_state(&[4, 6, 4, 4]);
    assert_eq!(s.to_string(), before);
    assert!(s.is_white_turn());
    assert_eq!(s.white_pieces().get(4, 6), Some(PieceKind::Pawn));
    assert_eq!(c.white_pieces().get(4, 4), Some(PieceKind::Pawn));
    assert_ne!(c.to_string(), before);
}

#[test]
fn king_capture_sets_outcome_for_white() {
    let mut s = position(&[(4, 7, PieceKind::King), (4, 3, PieceKind::Rook)], &[(4, 0, PieceKind::King), (0, 0, PieceKind::Rook)], true);
    s.action_to_state(&[4, 3, 4, 0]);
    assert_eq!(s.victory_check(), 1);
    assert_eq!(s.black_pieces().get(4, 0), None);
    s.action_to_state(&[0, 0, 0, 5]);
    assert_eq!(s.victory_check(), 1);
    s.action_to_state(&[4, 7, 4, 6]);
    assert_eq!(s.victory_check(), 1);
}

#[test]
fn king_capture_sets_outcome_for_black() {
    let mut s = position(&[(4, 7, PieceKind::King), (0, 7, PieceKind::Rook)], &[(4, 0, PieceKind::King), (4, 5, PieceKind::Queen)], false);
    s.action_to_state(&[4, 5, 4, 7]);
    assert_eq!(s.victory_check(), -1);
    s.action_to_state(&[0, 7, 0, 0]);
    assert_eq!(s.victory_check(), -1);
}

#[test]
fn outcome_is_not_overwritten_by_second_king_capture() {
    let mut s = position(&[(4, 7, PieceKind::King), (4, 3, PieceKind::Rook)], &[(4, 0, PieceKind::King), (4, 6, PieceKind::Queen)], true);
    s.action_to_state(&[4, 3, 4, 0]);
    assert_eq!(s.victory_check(), 1);
    s.action_to_state(&[4, 6, 4, 7]);
    assert_eq!(s.victory_check(), 1);
}

#[test]
fn non_king_capture_keeps_outcome_unset() {
    let mut s = position(&[(4, 7, PieceKind::King), (4, 3, PieceKind::Rook)], &[(4, 0, PieceKind::King), (4, 1, PieceKind::Queen)], true);
    s.action_to_state(&[4, 3, 4, 1]);
    assert_eq!(s.victory_check(), 0);
    assert_eq!(s.estimate_minimax(), 15);
}

#[test]
fn initial_board_text() {
    let header = "   A  B  C  D  E  F  G  H \n";
    let expected = String::new()
        + header
        + "8  \u{265C}  \u{265E}  \u{265D}  \u{265B}  \u{265A}  \u{265D}  \u{265E}  \u{265C}  8\n"
        + "7  \u{265F}  \u{265F}  \u{265F}  \u{265F}  \u{265F}  \u{265F}  \u{265F}  \u{265F}  7\n"
        + "6  .  .  .  .  .  .  .  .  6\n"
        + "5  .  .  .  .  .  .  .  .  5\n"
        + "4  .  .  .  .  .  .  .  .  4\n"
        + "3  .  .  .  .  .  .  .  .  3\n"
        + "2  \u{2659}  \u{2659}  \u{2659}  \u{2659}  \u{2659}  \u{2659}  \u{2659}  \u{2659}  2\n"
        + "1  \u{2656}  \u{2658}  \u{2657}  \u{2655}  \u{2654}  \u{2657}  \u{2658}  \u{2656}  1\n"
        + header;
    assert_eq!(State::new().to_string(), expected);
}
