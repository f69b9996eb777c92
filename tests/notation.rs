use chess_engine::play_game::{action_to_text, translate_player_input, validate_player_input, InputError};
use chess_engine::state::State;

#[test]
fn text_round_trip_all_squares() {
    for fx in 0..8i8 {
        for fy in 0..8i8 {
            for tx in 0..8i8 {
                for ty in 0..8i8 {
                    let a = [fx, fy, tx, ty];
                    let t = action_to_text(&a);
                    assert_eq!(translate_player_input(&t), Some(a));
                }
            }
        }
    }
}

#[test]
fn action_text_examples() {
    assert_eq!(action_to_text(&[4, 6, 4, 4]), "e2 to e4");
    assert_eq!(action_to_text(&[0, 0, 7, 7]), "a8 to h1");
}

#[test]
fn translate_examples() {
    assert_eq!(translate_player_input("e2 to e4"), Some([4, 6, 4, 4]));
    assert_eq!(translate_player_input("a1 to h8"), Some([0, 7, 7, 0]));
    assert_eq!(translate_player_input(&String::from("g1 to f3")), Some([6, 7, 5, 5]));
}

#[test]
fn translate_rejects_malformed_text() {
    for bad in [
        "", "e2 to e9", "e2 to i4", "e0 to e4", "e2-e4", "e2 to e4 ", " e2 to e4", "E2 to E4",
        "e2 TO e4", "e2 to e", "e2  to e4", "e2 to \u{e9}4", "\u{e9}2 to e4",
    ] {
        assert_eq!(translate_player_input(bad), None, "{bad:?}");
    }
}

#[test]
fn validate_accepts_legal_action() {
    let legal = State::new().generate_legal_moves();
    assert_eq!(validate_player_input("e2 to e4", &legal), Ok([4, 6, 4, 4]));
    assert_eq!(validate_player_input("b1 to c3", &legal), Ok([1, 7, 2, 5]));
}

#[test]
fn validate_reports_each_error() {
    let legal = State::new().generate_legal_moves();
    assert_eq!(validate_player_input("e2 e4", &legal), Err(InputError::BadFormat));
    assert_eq!(validate_player_input("e2 to e5", &legal), Err(InputError::Illegal));
    assert_eq!(validate_player_input("e7 to e5", &legal), Err(InputError::Illegal));
    assert_eq!(validate_player_input("e2 to e4", &Vec::new()), Err(InputError::Illegal));
}
