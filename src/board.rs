use vstd::prelude::*;

verus! {

/// The kind of a piece; which side owns it is given by the map that holds it.
#[derive(Clone, Copy, Debug, PartialEq, Eq, Structural)]
pub enum PieceKind {
    Pawn,
    Knight,
    Bishop,
    Rook,
    Queen,
    King,
}

/// A move `(from_x, from_y, to_x, to_y)` as mathematical integers.
pub type Move = (int, int, int, int);

/// Whether `(x, y)` lies on the 8x8 board.
pub open spec fn in_board(x: int, y: int) -> bool {
    0 <= x <= 7 && 0 <= y <= 7
}

/// Index of square `(x, y)` in a 64-cell map: squares are ordered by `x`, then `y`.
pub open spec fn square(x: int, y: int) -> int {
    8 * x + y
}

/// The piece that `cells` holds at `(x, y)`; nothing off the board.
pub open spec fn piece_at(cells: Seq<Option<PieceKind>>, x: int, y: int) -> Option<PieceKind> {
    if in_board(x, y) {
        cells[square(x, y)]
    } else {
        None
    }
}

pub open spec fn occupied(cells: Seq<Option<PieceKind>>, x: int, y: int) -> bool {
    piece_at(cells, x, y) is Some
}

/// The mathematical move that an action array denotes.
pub open spec fn act(a: [i8; 4]) -> Move {
    (a@[0] as int, a@[1] as int, a@[2] as int, a@[3] as int)
}

/// The `i`-th of the 4096 candidate moves, in order of origin, then destination.
pub open spec fn candidate(i: int) -> Move {
    (i / 512, (i / 64) % 8, (i / 8) % 8, i % 8)
}

/// Position of a move among the candidates.
pub open spec fn candidate_index(m: Move) -> int {
    512 * m.0 + 64 * m.1 + 8 * m.2 + m.3
}

pub proof fn lemma_candidate_index(m: Move)
    requires
        in_board(m.0, m.1),
        in_board(m.2, m.3),
    ensures
        0 <= candidate_index(m) < 4096,
        candidate(candidate_index(m)) == m,
{
    let i = candidate_index(m);
    assert(i / 512 == m.0) by (nonlinear_arith)
        requires i == 512 * m.0 + 64 * m.1 + 8 * m.2 + m.3, 0 <= m.1 < 8, 0 <= m.2 < 8, 0 <= m.3 < 8;
    assert(i / 64 == 8 * m.0 + m.1) by (nonlinear_arith)
        requires i == 512 * m.0 + 64 * m.1 + 8 * m.2 + m.3, 0 <= m.2 < 8, 0 <= m.3 < 8;
    assert(i / 8 == 64 * m.0 + 8 * m.1 + m.2) by (nonlinear_arith)
        requires i == 512 * m.0 + 64 * m.1 + 8 * m.2 + m.3, 0 <= m.3 < 8;
}

/// The pieces of one side, by square: a map from board coordinates to piece kinds.
pub struct PieceMap {
    cells: Vec<Option<PieceKind>>,
}

impl View for PieceMap {
    type V = Seq<Option<PieceKind>>;

    closed spec fn view(&self) -> Seq<Option<PieceKind>> {
        self.cells@
    }
}

impl PieceMap {
    pub closed spec fn wf(&self) -> bool {
        self.cells@.len() == 64
    }

    pub broadcast proof fn lemma_wf_len(m: &PieceMap)
        ensures
            #[trigger] m.wf() <==> m@.len() == 64,
    {
    }

    /// A map with no pieces.
    pub fn new() -> (r: PieceMap)
        ensures
            r.wf(),
            forall|i: int| 0 <= i < 64 ==> #[trigger] r@[i] is None,
    {
        let mut cells: Vec<Option<PieceKind>> = Vec::new();
        let mut i: usize = 0;
        while i < 64
            invariant
                i <= 64,
                cells@.len() == i,
                forall|j: int| 0 <= j < i ==> #[trigger] cells@[j] is None,
            decreases 64 - i,
        {
            cells.push(None);
            i = i + 1;
        }
        PieceMap { cells }
    }

    /// The piece at `(x, y)`, or `None` for an empty or off-board square.
    pub fn get(&self, x: i8, y: i8) -> (r: Option<PieceKind>)
        requires
            self.wf(),
        ensures
            r == piece_at(self@, x as int, y as int),
    {
        if 0 <= x && x <= 7 && 0 <= y && y <= 7 {
            let i: usize = (8 * x + y) as usize;
            self.cells[i]
        } else {
            None
        }
    }

    /// Whether a piece stands at `(x, y)`.
    pub fn contains_key(&self, x: i8, y: i8) -> (r: bool)
        requires
            self.wf(),
        ensures
            r == occupied(self@, x as int, y as int),
    {
        self.get(x, y).is_some()
    }

    /// Puts `kind` at the on-board square `(x, y)`, replacing what stood there.
    pub fn insert(&mut self, x: i8, y: i8, kind: PieceKind)
        requires
            old(self).wf(),
            in_board(x as int, y as int),
        ensures
            final(self).wf(),
            final(self)@ == old(self)@.update(square(x as int, y as int), Some(kind)),
    {
        let i: usize = (8 * x + y) as usize;
        self.cells.set(i, Some(kind));
    }

    /// Takes the piece off the on-board square `(x, y)` and returns it.
    pub fn remove(&mut self, x: i8, y: i8) -> (r: Option<PieceKind>)
        requires
            old(self).wf(),
            in_board(x as int, y as int),
        ensures
            final(self).wf(),
            r == old(self)@[square(x as int, y as int)],
            final(self)@ == old(self)@.update(square(x as int, y as int), None),
    {
        let i: usize = (8 * x + y) as usize;
        let r = self.cells[i];
        self.cells.set(i, None);
        r
    }
}

/// Material weight of a piece kind.
pub open spec fn weight(k: PieceKind) -> int {
    match k {
        PieceKind::Pawn => 1,
        PieceKind::Knight => 7,
        PieceKind::Bishop => 10,
        PieceKind::Rook => 15,
        PieceKind::Queen => 50,
        PieceKind::King => 100,
    }
}

/// Sum of the weights of the pieces in `cells`.
pub open spec fn material(cells: Seq<Option<PieceKind>>) -> int
    decreases cells.len(),
{
    if cells.len() == 0 {
        0
    } else {
        material(cells.drop_last()) + match cells.last() {
            Some(k) => weight(k),
            None => 0,
        }
    }
}

pub proof fn lemma_material_bounds(cells: Seq<Option<PieceKind>>)
    ensures
        0 <= material(cells) <= 100 * cells.len(),
    decreases cells.len(),
{
    if cells.len() > 0 {
        lemma_material_bounds(cells.drop_last());
    }
}

/// Material weight of a piece kind.
pub fn piece_weight(k: PieceKind) -> (r: i16)
    ensures
        r == weight(k),
{
    match k {
        PieceKind::Pawn => 1,
        PieceKind::Knight => 7,
        PieceKind::Bishop => 10,
        PieceKind::Rook => 15,
        PieceKind::Queen => 50,
        PieceKind::King => 100,
    }
}

impl PieceMap {
    /// Sum of the weights of the pieces in this map.
    pub fn material_sum(&self) -> (r: i16)
        requires
            self.wf(),
        ensures
            r == material(self@),
            0 <= r <= 6400,
    {
        let mut total: i16 = 0;
        let mut i: usize = 0;
        while i < 64
            invariant
                self.wf(),
                i <= 64,
                total == material(self@.subrange(0, i as int)),
                0 <= total <= 100 * i,
            decreases 64 - i,
        {
            let w: i16 = match self.cells[i] {
                Some(k) => piece_weight(k),
                None => 0,
            };
            proof {
                assert(self@.subrange(0, i + 1).drop_last() =~= self@.subrange(0, i as int));
            }
            total = total + w;
            i = i + 1;
        }
        proof {
            assert(self@.subrange(0, 64) =~= self@);
            lemma_material_bounds(self@);
        }
        total
    }
}

impl Clone for PieceMap {
    fn clone(&self) -> (r: PieceMap)
        ensures
            r@ == self@,
            r.wf() == self.wf(),
    {
        PieceMap { cells: self.cells.clone() }
    }
}

} // verus!
