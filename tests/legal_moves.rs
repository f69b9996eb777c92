use chess_engine::board::{PieceKind, PieceMap};
use chess_engine::legal_moves::{
    bishop_legal_moves, in_bound, king_legal_moves, knight_legal_moves, pawn_legal_moves,
    queen_legal_moves, rook_legal_moves,
};
use chess_engine::state::State;

fn sorted(mut v: Vec<[i8; 4]>) -> Vec<[i8; 4]> {
    v.sort();
    v
}

#[test]
fn in_bound_edges() {
    assert!(in_bound(0, 0));
    assert!(in_bound(7, 7));
    assert!(in_bound(3, 5));
    assert!(!in_bound(-1, 0));
    assert!(!in_bound(0, 8));
    assert!(!in_bound(8, 3));
}

#[test]
fn initial_position_white_has_twenty_actions() {
    let s = State::new();
    let moves = s.generate_legal_moves();
    assert_eq!(moves.len(), 20);
    let pawn_moves = moves.iter().filter(|a| a[1] == 6).count();
    let knight_moves = moves.iter().filter(|a| a[1] == 7).count();
    assert_eq!(pawn_moves, 16);
    assert_eq!(knight_moves, 4);
    assert!(moves.contains(&[4, 6, 4, 4]));
    assert!(moves.contains(&[4, 6, 4, 5]));
    assert!(moves.contains(&[1, 7, 0, 5]));
    assert!(moves.contains(&[1, 7, 2, 5]));
}

#[test]
fn initial_position_black_has_twenty_actions() {
    let mut s = State::new();
    s.action_to_state(&[4, 6, 4, 4]);
    let moves = s.generate_legal_moves();
    assert_eq!(moves.len(), 20);
    assert!(moves.iter().all(|a| a[1] == 0 || a[1] == 1));
    assert!(moves.contains(&[3, 1, 3, 3]));
    assert!(moves.contains(&[6, 0, 5, 2]));
}

#[test]
fn legal_actions_are_sorted_by_origin_then_destination() {
    let mut s = State::new();
    s.action_to_state(&[4, 6, 4, 4]);
    s.action_to_state(&[3, 1, 3, 3]);
    let moves = s.generate_legal_moves();
    assert!(moves.windows(2).all(|w| w[0] < w[1]));
    assert_eq!(moves[0], [0, 6, 0, 4]);
    assert!(moves.contains(&[4, 4, 3, 3]));
    assert!(moves.contains(&[5, 7, 0, 2]));
    assert!(moves.contains(&[3, 7, 7, 3]));
}

#[test]
fn rook_ray_stops_at_opponent_pawn() {
    let mut own = PieceMap::new();
    own.insert(0, 7, PieceKind::Rook);
    let mut opp = PieceMap::new();
    opp.insert(0, 4, PieceKind::Pawn);
    let mut moves = Vec::new();
    rook_legal_moves(0, 7, &own, &opp, &mut moves);
    let forward = sorted(moves.iter().copied().filter(|a| a[2] == 0).collect());
    assert_eq!(forward, vec![[0, 7, 0, 4], [0, 7, 0, 5], [0, 7, 0, 6]]);
    assert_eq!(moves.len(), 10);
}

#[test]
fn rook_blocked_by_own_piece() {
    let mut own = PieceMap::new();
    own.insert(3, 3, PieceKind::Rook);
    own.insert(3, 1, PieceKind::Pawn);
    own.insert(5, 3, PieceKind::Pawn);
    let opp = PieceMap::new();
    let mut moves = Vec::new();
    rook_legal_moves(3, 3, &own, &opp, &mut moves);
    let up: Vec<[i8; 4]> = moves.iter().copied().filter(|a| a[2] == 3 && a[3] < 3).collect();
    assert_eq!(up, vec![[3, 3, 3, 2]]);
    let right: Vec<[i8; 4]> = moves.iter().copied().filter(|a| a[3] == 3 && a[2] > 3).collect();
    assert_eq!(right, vec![[3, 3, 4, 3]]);
    assert_eq!(moves.len(), 1 + 1 + 4 + 3);
}

#[test]
fn bishop_on_empty_board() {
    let mut own = PieceMap::new();
    own.insert(2, 7, PieceKind::Bishop);
    let opp = PieceMap::new();
    let mut moves = Vec::new();
    bishop_legal_moves(2, 7, &own, &opp, &mut moves);
    let expected = vec![
        [2, 7, 0, 5], [2, 7, 1, 6], [2, 7, 3, 6], [2, 7, 4, 5], [2, 7, 5, 4], [2, 7, 6, 3],
        [2, 7, 7, 2],
    ];
    assert_eq!(sorted(moves), expected);
}

#[test]
fn queen_on_empty_board_reaches_twenty_seven_squares() {
    let mut own = PieceMap::new();
    own.insert(3, 3, PieceKind::Queen);
    let opp = PieceMap::new();
    let mut moves = Vec::new();
    queen_legal_moves(3, 3, &own, &opp, &mut moves);
    assert_eq!(moves.len(), 27);
    assert!(moves.contains(&[3, 3, 7, 7]));
    assert!(moves.contains(&[3, 3, 0, 0]));
    assert!(moves.contains(&[3, 3, 6, 0]));
    assert!(moves.contains(&[3, 3, 3, 7]));
    assert!(moves.iter().all(|a| a[0] == 3 && a[1] == 3));
}

#[test]
fn queen_captures_and_stops() {
    let mut own = PieceMap::new();
    own.insert(0, 0, PieceKind::Queen);
    let mut opp = PieceMap::new();
    opp.insert(2, 2, PieceKind::Knight);
    opp.insert(1, 0, PieceKind::Pawn);
    opp.insert(0, 1, PieceKind::Pawn);
    let mut moves = Vec::new();
    queen_legal_moves(0, 0, &own, &opp, &mut moves);
    assert_eq!(sorted(moves), vec![[0, 0, 0, 1], [0, 0, 1, 0], [0, 0, 1, 1], [0, 0, 2, 2]]);
}

#[test]
fn king_in_corner() {
    let mut own = PieceMap::new();
    own.insert(0, 0, PieceKind::King);
    own.insert(1, 1, PieceKind::Pawn);
    let mut moves = Vec::new();
    king_legal_moves(0, 0, &own, &mut moves);
    assert_eq!(sorted(moves), vec![[0, 0, 0, 1], [0, 0, 1, 0]]);
}

#[test]
fn king_in_centre_has_eight_steps() {
    let mut own = PieceMap::new();
    own.insert(4, 4, PieceKind::King);
    let mut moves = Vec::new();
    king_legal_moves(4, 4, &own, &mut moves);
    assert_eq!(moves.len(), 8);
}

#[test]
fn knight_jumps_over_pieces() {
    let s = State::new();
    let mut moves = Vec::new();
    knight_legal_moves(6, 7, s.white_pieces(), &mut moves);
    assert_eq!(sorted(moves), vec![[6, 7, 5, 5], [6, 7, 7, 5]]);
}

#[test]
fn knight_in_centre_has_eight_jumps() {
    let mut own = PieceMap::new();
    own.insert(3, 4, PieceKind::Knight);
    let mut moves = Vec::new();
    knight_legal_moves(3, 4, &own, &mut moves);
    assert_eq!(moves.len(), 8);
    assert!(moves.contains(&[3, 4, 1, 3]));
    assert!(moves.contains(&[3, 4, 4, 6]));
}

#[test]
fn pawn_single_and_double_advance() {
    let mut own = PieceMap::new();
    own.insert(4, 6, PieceKind::Pawn);
    let opp = PieceMap::new();
    let mut moves = Vec::new();
    pawn_legal_moves(true, 4, 6, &own, &opp, &mut moves);
    assert_eq!(sorted(moves), vec![[4, 6, 4, 4], [4, 6, 4, 5]]);

    let mut own_b = PieceMap::new();
    own_b.insert(2, 1, PieceKind::Pawn);
    let mut moves_b = Vec::new();
    pawn_legal_moves(false, 2, 1, &own_b, &opp, &mut moves_b);
    assert_eq!(sorted(moves_b), vec![[2, 1, 2, 2], [2, 1, 2, 3]]);
}

#[test]
fn pawn_blocked_directly_ahead_cannot_advance() {
    let mut own = PieceMap::new();
    own.insert(4, 6, PieceKind::Pawn);
    let mut opp = PieceMap::new();
    opp.insert(4, 5, PieceKind::Knight);
    let mut moves = Vec::new();
    pawn_legal_moves(true, 4, 6, &own, &opp, &mut moves);
    assert!(moves.is_empty());

    let mut own_b = PieceMap::new();
    own_b.insert(4, 1, PieceKind::Pawn);
    let mut opp_b = PieceMap::new();
    opp_b.insert(4, 2, PieceKind::Knight);
    let mut moves_b = Vec::new();
    pawn_legal_moves(false, 4, 1, &own_b, &opp_b, &mut moves_b);
    assert!(moves_b.is_empty());
}

#[test]
fn pawn_double_advance_onto_occupied_square() {
    let mut own = PieceMap::new();
    own.insert(4, 6, PieceKind::Pawn);
    let mut opp = PieceMap::new();
    opp.insert(4, 4, PieceKind::Knight);
    let mut moves = Vec::new();
    pawn_legal_moves(true, 4, 6, &own, &opp, &mut moves);
    assert_eq!(moves, vec![[4, 6, 4, 5]]);
}

#[test]
fn pawn_no_double_advance_off_start_rank() {
    let mut own = PieceMap::new();
    own.insert(4, 5, PieceKind::Pawn);
    let opp = PieceMap::new();
    let mut moves = Vec::new();
    pawn_legal_moves(true, 4, 5, &own, &opp, &mut moves);
    assert_eq!(moves, vec![[4, 5, 4, 4]]);
}

#[test]
fn pawn_captures_diagonally_only() {
    let mut own = PieceMap::new();
    own.insert(3, 4, PieceKind::Pawn);
    let mut opp = PieceMap::new();
    opp.insert(2, 3, PieceKind::Bishop);
    opp.insert(4, 3, PieceKind::Rook);
    opp.insert(3, 3, PieceKind::Queen);
    let mut moves = Vec::new();
    pawn_legal_moves(true, 3, 4, &own, &opp, &mut moves);
    assert_eq!(sorted(moves), vec![[3, 4, 2, 3], [3, 4, 4, 3]]);
}

#[test]
fn pawn_on_edge_file_captures_one_side() {
    let mut own = PieceMap::new();
    own.insert(0, 3, PieceKind::Pawn);
    let mut opp = PieceMap::new();
    opp.insert(1, 4, PieceKind::Pawn);
    let mut moves = Vec::new();
    pawn_legal_moves(false, 0, 3, &own, &opp, &mut moves);
    assert_eq!(sorted(moves), vec![[0, 3, 0, 4], [0, 3, 1, 4]]);
}
