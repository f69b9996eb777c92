use vstd::prelude::*;
use crate::board::{
    PieceMap,
    PieceKind,
    Move,
    in_board,
    square,
    piece_at,
    occupied,
    act,
    candidate_index,
    material,
    lemma_material_bounds,
};
use crate::legal_moves::{
    appends_exactly,
    piece_move,
    piece_legal_moves,
    lemma_appends_compose,
    lemma_appends_equiv,
    lemma_piece_move_origin,
    lemma_piece_move_on_board,
    lemma_appends_same_moves,
    lemma_appends_concat,
    lemma_sorted_concat,
    sort_moves,
    sorted_moves,
    on_board,
};

verus! {

broadcast use crate::board::PieceMap::lemma_wf_len;

/// The mathematical value of a position.
pub struct StateModel {
    /// Side A's pieces, by square index.
    pub white: Seq<Option<PieceKind>>,
    /// Side B's pieces, by square index.
    pub black: Seq<Option<PieceKind>>,
    /// Whether side A is to move.
    pub white_turn: bool,
    /// 1 once side A has taken side B's King, -1 once side B has taken side A's, else 0.
    pub victory: int,
}

/// Both maps cover the 64 squares, no square is held by both sides, and the
/// outcome flag is one of its three values.
pub open spec fn model_wf(s: StateModel) -> bool {
    &&& s.white.len() == 64
    &&& s.black.len() == 64
    &&& forall|i: int| 0 <= i < 64 ==> !(#[trigger] s.white[i] is Some && s.black[i] is Some)
    &&& -1 <= s.victory <= 1
}

/// The pieces of the side to move.
pub open spec fn own_cells(s: StateModel) -> Seq<Option<PieceKind>> {
    if s.white_turn {
        s.white
    } else {
        s.black
    }
}

/// The pieces of the side not to move.
pub open spec fn opp_cells(s: StateModel) -> Seq<Option<PieceKind>> {
    if s.white_turn {
        s.black
    } else {
        s.white
    }
}

/// A legal action: its origin holds a piece of the side to move, and its
/// destination follows that piece's movement rule.
pub open spec fn legal(s: StateModel, m: Move) -> bool {
    match piece_at(own_cells(s), m.0, m.1) {
        Some(kind) => piece_move(kind, s.white_turn, own_cells(s), opp_cells(s), m.0, m.1, m),
        None => false,
    }
}

/// A legal action starts on a piece of the side to move and ends on the board.
pub proof fn lemma_legal_in_board(s: StateModel, m: Move)
    requires
        legal(s, m),
    ensures
        in_board(m.0, m.1),
        in_board(m.2, m.3),
        occupied(own_cells(s), m.0, m.1),
{
}

/// The position after the side to move plays `m`: the piece moves, an
/// opponent's piece on the destination is removed, taking a King sets the
/// outcome flag unless it is already set, and the turn passes.
pub open spec fn apply(s: StateModel, m: Move) -> StateModel {
    let from = square(m.0, m.1);
    let to = square(m.2, m.3);
    let own = own_cells(s);
    let opp = opp_cells(s);
    let new_own = own.update(from, None).update(to, own[from]);
    let new_opp = opp.update(to, None);
    let victory = if s.victory == 0 && opp[to] == Some(PieceKind::King) {
        if s.white_turn {
            1int
        } else {
            -1int
        }
    } else {
        s.victory
    };
    StateModel {
        white: if s.white_turn {
            new_own
        } else {
            new_opp
        },
        black: if s.white_turn {
            new_opp
        } else {
            new_own
        },
        white_turn: !s.white_turn,
        victory,
    }
}

/// Static evaluation: side A's material minus side B's.
pub open spec fn evaluate(s: StateModel) -> int {
    material(s.white) - material(s.black)
}

/// The position after playing `ms` in order from `s`.
pub open spec fn apply_all(s: StateModel, ms: Seq<Move>) -> StateModel
    decreases ms.len(),
{
    if ms.len() == 0 {
        s
    } else {
        apply_all(apply(s, ms[0]), ms.drop_first())
    }
}

/// Once the outcome flag is set, no sequence of actions changes it.
pub proof fn lemma_outcome_persists(s: StateModel, ms: Seq<Move>)
    requires
        s.victory != 0,
    ensures
        apply_all(s, ms).victory == s.victory,
    decreases ms.len(),
{
    if ms.len() > 0 {
        lemma_outcome_persists(apply(s, ms[0]), ms.drop_first());
    }
}

/// Taking the opponent's King, in a position without an outcome, makes the
/// mover the winner, and the outcome stays under any further actions.
pub proof fn lemma_king_capture_decides(s: StateModel, m: Move, ms: Seq<Move>)
    requires
        model_wf(s),
        s.victory == 0,
        piece_at(opp_cells(s), m.2, m.3) == Some(PieceKind::King),
    ensures
        apply(s, m).victory == if s.white_turn {
            1int
        } else {
            -1int
        },
        apply_all(apply(s, m), ms).victory == apply(s, m).victory,
{
    lemma_outcome_persists(apply(s, m), ms);
}

/// The kind that starts on file `x` of a back rank.
pub open spec fn back_rank(x: int) -> PieceKind {
    if x == 0 || x == 7 {
        PieceKind::Rook
    } else if x == 1 || x == 6 {
        PieceKind::Knight
    } else if x == 2 || x == 5 {
        PieceKind::Bishop
    } else if x == 3 {
        PieceKind::Queen
    } else {
        PieceKind::King
    }
}

/// The starting layout of one side, whose back rank is `back` and pawn rank `pawns`.
pub open spec fn initial_cells(back: int, pawns: int) -> Seq<Option<PieceKind>> {
    Seq::new(
        64,
        |i: int|
            if i % 8 == back {
                Some(back_rank(i / 8))
            } else if i % 8 == pawns {
                Some(PieceKind::Pawn)
            } else {
                None
            },
    )
}

/// The starting position: side A on ranks 7 and 6, side B on ranks 0 and 1,
/// side A to move, no outcome.
pub open spec fn initial_model() -> StateModel {
    StateModel {
        white: initial_cells(7, 6),
        black: initial_cells(0, 1),
        white_turn: true,
        victory: 0,
    }
}

/// Glyph of a piece: the outlined chess symbols for side A, the filled ones
/// for side B.
pub open spec fn glyph(white: bool, k: PieceKind) -> char {
    match k {
        PieceKind::King => if white { '\u{2654}' } else { '\u{265A}' },
        PieceKind::Queen => if white { '\u{2655}' } else { '\u{265B}' },
        PieceKind::Rook => if white { '\u{2656}' } else { '\u{265C}' },
        PieceKind::Bishop => if white { '\u{2657}' } else { '\u{265D}' },
        PieceKind::Knight => if white { '\u{2658}' } else { '\u{265E}' },
        PieceKind::Pawn => if white { '\u{2659}' } else { '\u{265F}' },
    }
}

/// What square `(x, y)` shows: a glyph, or `'.'` when empty.
pub open spec fn square_char(s: StateModel, x: int, y: int) -> char {
    match piece_at(s.white, x, y) {
        Some(k) => glyph(true, k),
        None => match piece_at(s.black, x, y) {
            Some(k) => glyph(false, k),
            None => '.',
        },
    }
}

/// Letter of file `x`, upper case.
pub open spec fn file_char(x: int) -> char {
    if x == 0 { 'A' } else if x == 1 { 'B' } else if x == 2 { 'C' } else if x == 3 { 'D' }
    else if x == 4 { 'E' } else if x == 5 { 'F' } else if x == 6 { 'G' } else { 'H' }
}

/// Digit of row `y`: row 0 is rank 8.
pub open spec fn rank_char(y: int) -> char {
    if y == 0 { '8' } else if y == 1 { '7' } else if y == 2 { '6' } else if y == 3 { '5' }
    else if y == 4 { '4' } else if y == 5 { '3' } else if y == 6 { '2' } else { '1' }
}

/// The first `n` file labels, each after two spaces.
pub open spec fn header_cols(n: nat) -> Seq<char>
    decreases n,
{
    if n == 0 {
        Seq::empty()
    } else {
        header_cols((n - 1) as nat) + seq![' ', ' ', file_char(n - 1)]
    }
}

/// The line of file labels drawn above and below the board.
pub open spec fn header_text() -> Seq<char> {
    seq![' '] + header_cols(8) + seq![' ', '\n']
}

/// The first `n` squares of row `y`, each padded by a space on both sides.
pub open spec fn row_cells(s: StateModel, y: int, n: nat) -> Seq<char>
    decreases n,
{
    if n == 0 {
        Seq::empty()
    } else {
        row_cells(s, y, (n - 1) as nat) + seq![' ', square_char(s, n - 1, y), ' ']
    }
}

/// Row `y` between its rank digits.
pub open spec fn row_text(s: StateModel, y: int) -> Seq<char> {
    seq![rank_char(y), ' '] + row_cells(s, y, 8) + seq![' ', rank_char(y), '\n']
}

/// The first `n` rows, from row 0 (rank 8) down.
pub open spec fn rows_text(s: StateModel, n: nat) -> Seq<char>
    decreases n,
{
    if n == 0 {
        Seq::empty()
    } else {
        rows_text(s, (n - 1) as nat) + row_text(s, n - 1)
    }
}

/// The board drawn as text: file labels, eight ranked rows, file labels.
pub open spec fn board_text(s: StateModel) -> Seq<char> {
    header_text() + rows_text(s, 8) + header_text()
}

fn glyph_of(white: bool, k: PieceKind) -> (c: char)
    ensures
        c == glyph(white, k),
{
    match k {
        PieceKind::King => if white { '\u{2654}' } else { '\u{265A}' },
        PieceKind::Queen => if white { '\u{2655}' } else { '\u{265B}' },
        PieceKind::Rook => if white { '\u{2656}' } else { '\u{265C}' },
        PieceKind::Bishop => if white { '\u{2657}' } else { '\u{265D}' },
        PieceKind::Knight => if white { '\u{2658}' } else { '\u{265E}' },
        PieceKind::Pawn => if white { '\u{2659}' } else { '\u{265F}' },
    }
}

fn file_label(x: i8) -> (c: char)
    ensures
        c == file_char(x as int),
{
    if x == 0 { 'A' } else if x == 1 { 'B' } else if x == 2 { 'C' } else if x == 3 { 'D' }
    else if x == 4 { 'E' } else if x == 5 { 'F' } else if x == 6 { 'G' } else { 'H' }
}

fn rank_label(y: i8) -> (c: char)
    ensures
        c == rank_char(y as int),
{
    if y == 0 { '8' } else if y == 1 { '7' } else if y == 2 { '6' } else if y == 3 { '5' }
    else if y == 4 { '4' } else if y == 5 { '3' } else if y == 6 { '2' } else { '1' }
}

/// Relies on `String::push`: the character is appended at the end.
#[verifier::external_body]
pub(crate) fn push_char(s: &mut String, c: char)
    ensures
        final(s)@ == old(s)@.push(c),
{
    s.push(c);
}

fn push_header(out: &mut String)
    ensures
        final(out)@ == old(out)@ + header_text(),
{
    let ghost start = out@;
    push_char(out, ' ');
    let mut x: i8 = 0;
    while x < 8
        invariant
            0 <= x <= 8,
            out@ == start + seq![' '] + header_cols(x as nat),
        decreases 8 - x,
    {
        push_char(out, ' ');
        push_char(out, ' ');
        push_char(out, file_label(x));
        proof {
            assert(header_cols((x + 1) as nat) == header_cols(x as nat) + seq![' ', ' ', file_char(x as int)]);
            assert(out@ =~= start + seq![' '] + header_cols((x + 1) as nat));
        }
        x = x + 1;
    }
    push_char(out, ' ');
    push_char(out, '\n');
    assert(out@ =~= start + header_text());
}

/// A game position.
pub struct State {
    white: PieceMap,
    black: PieceMap,
    white_turn: bool,
    victory_flag: i8,
}

impl View for State {
    type V = StateModel;

    closed spec fn view(&self) -> StateModel {
        StateModel {
            white: self.white@,
            black: self.black@,
            white_turn: self.white_turn,
            victory: self.victory_flag as int,
        }
    }
}

impl State {
    pub open spec fn wf(&self) -> bool {
        model_wf(self@)
    }

    /// The board drawn as text, one line per rank.
    pub fn to_string(&self) -> (r: String)
        requires
            self.wf(),
        ensures
            r@ == board_text(self@),
    {
        let ghost st = self@;
        let mut out = String::new();
        push_header(&mut out);
        let mut y: i8 = 0;
        while y < 8
            invariant
                0 <= y <= 8,
                st == self@,
                self.wf(),
                out@ == header_text() + rows_text(st, y as nat),
            decreases 8 - y,
        {
            let ghost row_start = out@;
            let rank = rank_label(y);
            push_char(&mut out, rank);
            push_char(&mut out, ' ');
            let mut x: i8 = 0;
            while x < 8
                invariant
                    0 <= x <= 8,
                    0 <= y < 8,
                    st == self@,
                    self.wf(),
                    rank == rank_char(y as int),
                    out@ == row_start + seq![rank_char(y as int), ' '] + row_cells(st, y as int, x as nat),
                decreases 8 - x,
            {
                let c = match self.white.get(x, y) {
                    Some(k) => glyph_of(true, k),
                    None => match self.black.get(x, y) {
                        Some(k) => glyph_of(false, k),
                        None => '.',
                    },
                };
                push_char(&mut out, ' ');
                push_char(&mut out, c);
                push_char(&mut out, ' ');
                proof {
                    assert(row_cells(st, y as int, (x + 1) as nat) == row_cells(st, y as int, x as nat)
                        + seq![' ', square_char(st, x as int, y as int), ' ']);
                    assert(out@ =~= row_start + seq![rank_char(y as int), ' '] + row_cells(
                        st,
                        y as int,
                        (x + 1) as nat,
                    ));
                }
                x = x + 1;
            }
            push_char(&mut out, ' ');
            push_char(&mut out, rank);
            push_char(&mut out, '\n');
            proof {
                assert(rows_text(st, (y + 1) as nat) == rows_text(st, y as nat) + row_text(st, y as int));
                assert(out@ =~= header_text() + rows_text(st, (y + 1) as nat));
            }
            y = y + 1;
        }
        push_header(&mut out);
        proof {
            assert(out@ =~= board_text(st));
        }
        out
    }

    /// Whether side A is to move.
    pub fn is_white_turn(&self) -> (r: bool)
        ensures
            r == self@.white_turn,
    {
        self.white_turn
    }

    /// The outcome flag: 1 if side A has taken side B's King, -1 for the
    /// reverse, 0 while neither has.
    pub fn victory_check(&self) -> (r: i8)
        ensures
            r as int == self@.victory,
    {
        self.victory_flag
    }

    /// Side A's pieces.
    pub fn white_pieces(&self) -> (r: &PieceMap)
        ensures
            r@ == self@.white,
    {
        &self.white
    }

    /// Side B's pieces.
    pub fn black_pieces(&self) -> (r: &PieceMap)
        ensures
            r@ == self@.black,
    {
        &self.black
    }

    /// An independent copy of this position.
    pub fn copy_state(&self) -> (r: State)
        ensures
            r@ == self@,
    {
        State {
            white: self.white.clone(),
            black: self.black.clone(),
            white_turn: self.white_turn,
            victory_flag: self.victory_flag,
        }
    }

    /// Static material evaluation: positive favours side A.
    pub fn estimate_minimax(&self) -> (r: i16)
        requires
            self.wf(),
        ensures
            r == evaluate(self@),
            -6400 <= r <= 6400,
    {
        let w = self.white.material_sum();
        let b = self.black.material_sum();
        w - b
    }

    /// Plays `action` for the side to move.
    pub fn action_to_state(&mut self, action: &[i8; 4])
        requires
            old(self).wf(),
            in_board(action@[0] as int, action@[1] as int),
            in_board(action@[2] as int, action@[3] as int),
            occupied(own_cells(old(self)@), action@[0] as int, action@[1] as int),
        ensures
            final(self).wf(),
            final(self)@ == apply(old(self)@, act(*action)),
    {
        let start_x = action[0];
        let start_y = action[1];
        let end_x = action[2];
        let end_y = action[3];
        let captured: Option<PieceKind>;
        if self.white_turn {
            let piece = self.white.remove(start_x, start_y);
            if let Some(k) = piece {
                self.white.insert(end_x, end_y, k);
            }
            captured = self.black.remove(end_x, end_y);
        } else {
            let piece = self.black.remove(start_x, start_y);
            if let Some(k) = piece {
                self.black.insert(end_x, end_y, k);
            }
            captured = self.white.remove(end_x, end_y);
        }
        if self.victory_flag == 0 {
            if let Some(PieceKind::King) = captured {
                self.victory_flag = if self.white_turn { 1 } else { -1 };
            }
        }
        self.white_turn = !self.white_turn;
        proof {
            let s = apply(old(self)@, act(*action));
            assert(self@.white =~= s.white);
            assert(self@.black =~= s.black);
        }
    }

    /// Every legal action of the side to move, origins in square order.
    pub fn generate_legal_moves(&self) -> (r: Vec<[i8; 4]>)
        requires
            self.wf(),
        ensures
            appends_exactly(Seq::empty(), r@, |m: Move| legal(self@, m)),
            sorted_moves(r@),
    {
        let ghost s = self@;
        let own = if self.white_turn {
            &self.white
        } else {
            &self.black
        };
        let opp = if self.white_turn {
            &self.black
        } else {
            &self.white
        };
        let mut moves: Vec<[i8; 4]> = Vec::new();
        let mut i: i8 = 0;
        while i < 64
            invariant
                0 <= i <= 64,
                s == self@,
                own.wf(),
                opp.wf(),
                own@ == own_cells(s),
                opp@ == opp_cells(s),
                appends_exactly(
                    Seq::empty(),
                    moves@,
                    |m: Move| legal(s, m) && square(m.0, m.1) < i,
                ),
                sorted_moves(moves@),
            decreases 64 - i,
        {
            let x: i8 = i / 8;
            let y: i8 = i % 8;
            let ghost before = moves@;
            let ghost qi = |m: Move| legal(s, m) && square(m.0, m.1) < i;
            let ghost qn = |m: Move| legal(s, m) && square(m.0, m.1) < i + 1;
            let cell = own.get(x, y);
            match cell {
                Some(kind) => {
                    let mut found: Vec<[i8; 4]> = Vec::new();
                    piece_legal_moves(kind, self.white_turn, x, y, own, opp, &mut found);
                    let ghost p = |m: Move| piece_move(kind, self.white_turn, own@, opp@, x as int, y as int, m);
                    proof {
                        assert forall|j: int| 0 <= j < found@.len() implies on_board(act(#[trigger] found@[j])) by {
                            assert(p(act(found@[j])));
                            lemma_piece_move_on_board(kind, self.white_turn, own@, opp@, x as int, y as int, act(found@[j]));
                        }
                    }
                    let mut sorted = sort_moves(&found);
                    let ghost sorted0 = sorted@;
                    proof {
                        lemma_appends_same_moves(found@, sorted0, p);
                        assert forall|j: int| 0 <= j < sorted0.len() implies candidate_index(act(#[trigger] sorted0[j])) >= 64 * i by {
                            assert(p(act(sorted0[j])));
                            lemma_piece_move_origin(kind, self.white_turn, own@, opp@, x as int, y as int, act(sorted0[j]));
                            lemma_piece_move_on_board(kind, self.white_turn, own@, opp@, x as int, y as int, act(sorted0[j]));
                        }
                        assert forall|j: int| 0 <= j < before.len() implies candidate_index(act(#[trigger] before[j])) < 64 * i by {
                            assert(qi(act(before[j])));
                            lemma_legal_in_board(s, act(before[j]));
                        }
                        lemma_sorted_concat(before, sorted0, 64 * i);
                    }
                    moves.append(&mut sorted);
                    proof {
                        lemma_appends_concat(before, sorted0, p);
                        lemma_appends_compose(Seq::empty(), before, moves@, qi, p);
                        assert forall|m: Move| #[trigger] qn(m) == (qi(m) || p(m)) by {
                            assert(piece_at(own_cells(s), x as int, y as int) == Some(kind));
                            if p(m) {
                                lemma_piece_move_origin(kind, self.white_turn, own@, opp@, x as int, y as int, m);
                                assert(legal(s, m));
                            }
                            if legal(s, m) && square(m.0, m.1) == i {
                                assert(m.0 == x && m.1 == y);
                            }
                        }
                        lemma_appends_equiv(Seq::empty(), moves@, |m: Move| qi(m) || p(m), qn);
                    }
                },
                None => {
                    proof {
                        assert forall|m: Move| #[trigger] qi(m) == qn(m) by {
                            if legal(s, m) && square(m.0, m.1) == i {
                                assert(m.0 == x && m.1 == y);
                            }
                        }
                        lemma_appends_equiv(Seq::empty(), moves@, qi, qn);
                    }
                },
            }
            i = i + 1;
        }
        proof {
            lemma_appends_equiv(
                Seq::empty(),
                moves@,
                |m: Move| legal(s, m) && square(m.0, m.1) < 64,
                |m: Move| legal(s, m),
            );
        }
        moves
    }

    /// The position with the given pieces, side A to move when `white_turn`,
    /// and no outcome; `None` when a square is held by both sides.
    pub fn from_pieces(white: PieceMap, black: PieceMap, white_turn: bool) -> (r: Option<State>)
        requires
            white.wf(),
            black.wf(),
        ensures
            r is Some <==> forall|i: int| 0 <= i < 64 ==> !(#[trigger] white@[i] is Some && black@[i] is Some),
            r matches Some(st) ==> st.wf() && st@ == (StateModel {
                white: white@,
                black: black@,
                white_turn,
                victory: 0,
            }),
    {
        let mut x: i8 = 0;
        while x < 8
            invariant
                0 <= x <= 8,
                white.wf(),
                black.wf(),
                forall|i: int| 0 <= i < 8 * x ==> !(#[trigger] white@[i] is Some && black@[i] is Some),
            decreases 8 - x,
        {
            let mut y: i8 = 0;
            while y < 8
                invariant
                    0 <= x < 8,
                    0 <= y <= 8,
                    white.wf(),
                    black.wf(),
                    forall|i: int| 0 <= i < 8 * x + y ==> !(#[trigger] white@[i] is Some && black@[i] is Some),
                decreases 8 - y,
            {
                if white.contains_key(x, y) && black.contains_key(x, y) {
                    assert(white@[8 * x + y] is Some && black@[8 * x + y] is Some);
                    return None;
                }
                y = y + 1;
            }
            x = x + 1;
        }
        Some(State { white, black, white_turn, victory_flag: 0 })
    }

    /// The starting position.
    pub fn new() -> (r: State)
        ensures
            r.wf(),
            r@ == initial_model(),
    {
        let mut white = PieceMap::new();
        let mut black = PieceMap::new();
        let mut x: i8 = 0;
        while x < 8
            invariant
                0 <= x <= 8,
                white.wf(),
                black.wf(),
                forall|i: int|
                    0 <= i < 64 ==> #[trigger] white@[i] == if i / 8 < x {
                        initial_cells(7, 6)[i]
                    } else {
                        None
                    },
                forall|i: int|
                    0 <= i < 64 ==> #[trigger] black@[i] == if i / 8 < x {
                        initial_cells(0, 1)[i]
                    } else {
                        None
                    },
            decreases 8 - x,
        {
            let k = back_rank_kind(x);
            white.insert(x, 7, k);
            white.insert(x, 6, PieceKind::Pawn);
            black.insert(x, 0, k);
            black.insert(x, 1, PieceKind::Pawn);
            x = x + 1;
        }
        let r = State { white, black, white_turn: true, victory_flag: 0 };
        proof {
            assert(r@.white =~= initial_cells(7, 6));
            assert(r@.black =~= initial_cells(0, 1));
        }
        r
    }
}

/// The kind that starts on file `x` of a back rank.
fn back_rank_kind(x: i8) -> (r: PieceKind)
    ensures
        r == back_rank(x as int),
{
    if x == 0 || x == 7 {
        PieceKind::Rook
    } else if x == 1 || x == 6 {
        PieceKind::Knight
    } else if x == 2 || x == 5 {
        PieceKind::Bishop
    } else if x == 3 {
        PieceKind::Queen
    } else {
        PieceKind::King
    }
}

} // verus!
