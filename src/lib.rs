/// Squares, piece kinds and the per-side piece maps.
pub mod board;
/// Movement rules of each piece kind and the functions that enumerate them.
pub mod legal_moves;
/// Game positions: applying actions, evaluation, legal-action enumeration, rendering.
pub mod state;
/// Depth-limited minimax search with alpha-beta pruning.
pub mod minimax;
/// Action text, player input checks and the computer's turn.
pub mod play_game;
