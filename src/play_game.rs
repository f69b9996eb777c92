use vstd::prelude::*;
use crate::board::{Move, in_board, act};
use crate::minimax::{MinimaxResult, search_max, search_min, expand_value, first_best, has_legal};
use crate::state::{State, push_char};

verus! {

broadcast use vstd::string::is_ascii_spec_bytes;

/// `t` is the text of move `m`: file letter and rank digit of the origin,
/// `" to "`, then those of the destination. File `x` is the letter
/// `'a' + x`; row `y` is the digit `8 - y`.
pub open spec fn is_action_text(t: Seq<char>, m: Move) -> bool {
    &&& t.len() == 8
    &&& t[0] as int == 'a' as int + m.0
    &&& t[1] as int == '8' as int - m.1
    &&& t[2] == ' '
    &&& t[3] == 't'
    &&& t[4] == 'o'
    &&& t[5] == ' '
    &&& t[6] as int == 'a' as int + m.2
    &&& t[7] as int == '8' as int - m.3
}

/// `t` is the text of an on-board move `m`.
pub open spec fn parses_to(t: Seq<char>, m: Move) -> bool {
    &&& in_board(m.0, m.1)
    &&& in_board(m.2, m.3)
    &&& is_action_text(t, m)
}

fn file_letter(x: i8) -> (c: char)
    requires
        0 <= x <= 7,
    ensures
        c as int == 'a' as int + x,
{
    ((x as u8) + 97) as char
}

fn rank_digit(y: i8) -> (c: char)
    requires
        0 <= y <= 7,
    ensures
        c as int == '8' as int - y,
{
    (56 - (y as u8)) as char
}

/// The text of an on-board action, such as `"e2 to e4"`.
pub fn action_to_text(action: &[i8; 4]) -> (r: String)
    requires
        in_board(act(*action).0, act(*action).1),
        in_board(act(*action).2, act(*action).3),
    ensures
        is_action_text(r@, act(*action)),
{
    let mut r = String::new();
    push_char(&mut r, file_letter(action[0]));
    push_char(&mut r, rank_digit(action[1]));
    push_char(&mut r, ' ');
    push_char(&mut r, 't');
    push_char(&mut r, 'o');
    push_char(&mut r, ' ');
    push_char(&mut r, file_letter(action[2]));
    push_char(&mut r, rank_digit(action[3]));
    r
}

/// Reads an action written as two squares joined by `" to "`, such as
/// `"e2 to e4"`; any other text is rejected.
pub fn translate_player_input(input: &str) -> (r: Option<[i8; 4]>)
    ensures
        r is Some <==> exists|m: Move| #[trigger] parses_to(input@, m),
        r matches Some(a) ==> parses_to(input@, act(a)),
{
    if !input.is_ascii() {
        proof {
            assert forall|m: Move| !#[trigger] parses_to(input@, m) by {
                if parses_to(input@, m) {
                    assert(vstd::utf8::is_ascii_chars(input@));
                }
            }
        }
        return None;
    }
    let b = input.as_bytes();
    if b.len() != 8 {
        return None;
    }
    let c0 = b[0];
    let c1 = b[1];
    let c6 = b[6];
    let c7 = b[7];
    if c0 < 97 || c0 > 104 || c1 < 49 || c1 > 56 || b[2] != 32 || b[3] != 116 || b[4] != 111
        || b[5] != 32 || c6 < 97 || c6 > 104 || c7 < 49 || c7 > 56 {
        return None;
    }
    let a: [i8; 4] = [(c0 - 97) as i8, (56 - c1) as i8, (c6 - 97) as i8, (56 - c7) as i8];
    assert(parses_to(input@, act(a)));
    Some(a)
}

/// Encoding an on-board move as text and reading the text back gives the
/// same move: the text of `m` reads as `m` and as no other move.
pub proof fn lemma_text_round_trip(m: Move, t: Seq<char>)
    requires
        in_board(m.0, m.1),
        in_board(m.2, m.3),
        is_action_text(t, m),
    ensures
        parses_to(t, m),
        forall|m2: Move| #[trigger] parses_to(t, m2) ==> m2 == m,
{
}

/// Why a line of player input was refused.
#[derive(Clone, Copy, Debug, PartialEq, Eq, Structural)]
pub enum InputError {
    /// The text is not two squares joined by `" to "`.
    BadFormat,
    /// The text names an action that is not among the legal ones.
    Illegal,
}

/// Checks a line of player input against the legal actions: the action it
/// names, or why it was refused.
pub fn validate_player_input(input: &str, legal_moves: &Vec<[i8; 4]>) -> (r: Result<[i8; 4], InputError>)
    ensures
        r matches Ok(a) ==> parses_to(input@, act(a)) && exists|i: int|
            0 <= i < legal_moves@.len() && act(#[trigger] legal_moves@[i]) == act(a),
        r matches Err(InputError::BadFormat) <==> forall|m: Move| !#[trigger] parses_to(input@, m),
        r matches Err(InputError::Illegal) <==> exists|m: Move| #[trigger] parses_to(input@, m) && forall|i: int|
            0 <= i < legal_moves@.len() ==> act(#[trigger] legal_moves@[i]) != m,
{
    match translate_player_input(input) {
        None => Err(InputError::BadFormat),
        Some(a) => {
            let mut i: usize = 0;
            while i < legal_moves.len()
                invariant
                    i <= legal_moves@.len(),
                    parses_to(input@, act(a)),
                    forall|j: int| 0 <= j < i ==> act(#[trigger] legal_moves@[j]) != act(a),
                decreases legal_moves.len() - i,
            {
                let l = legal_moves[i];
                if l[0] == a[0] && l[1] == a[1] && l[2] == a[2] && l[3] == a[3] {
                    assert(act(legal_moves@[i as int]) == act(a));
                    return Ok(a);
                }
                i = i + 1;
            }
            proof {
                assert forall|m: Move| #[trigger] parses_to(input@, m) implies m == act(a) by {
                    lemma_text_round_trip(act(a), input@);
                }
            }
            Err(InputError::Illegal)
        },
    }
}

/// The computer's move: a search of five plies for the side to move.
pub fn comp_turn(cur_state: &State) -> (r: MinimaxResult)
    requires
        cur_state.wf(),
    ensures
        r.minimax_val == expand_value(cur_state@, 5, cur_state@.white_turn),
        has_legal(cur_state@) ==> first_best(cur_state@, 5, cur_state@.white_turn, act(r.action), r.minimax_val as int),
{
    if cur_state.is_white_turn() {
        search_max(cur_state, 5)
    } else {
        search_min(cur_state, 5)
    }
}

} // verus!
