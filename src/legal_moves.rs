use vstd::prelude::*;
use crate::board::{
    PieceMap,
    PieceKind,
    Move,
    in_board,
    occupied,
    act,
    candidate_index,
    lemma_candidate_index,
};

verus! {

broadcast use crate::board::PieceMap::lemma_wf_len;

/// `new` is `old` followed by actions whose moves are exactly those satisfying `p`.
pub open spec fn appends_exactly(
    old: Seq<[i8; 4]>,
    new: Seq<[i8; 4]>,
    p: spec_fn(Move) -> bool,
) -> bool {
    &&& old.len() <= new.len()
    &&& forall|i: int| 0 <= i < old.len() ==> new[i] == old[i]
    &&& forall|i: int| old.len() <= i < new.len() ==> #[trigger] p(act(new[i]))
    &&& forall|m: Move| #[trigger] p(m) ==> exists|i: int|
        old.len() <= i < new.len() && act(#[trigger] new[i]) == m
}

/// King rule: one step in any of the eight directions onto a board square
/// that the own side does not hold.
pub open spec fn king_move(own: Seq<Option<PieceKind>>, x: int, y: int, m: Move) -> bool {
    &&& m.0 == x && m.1 == y
    &&& -1 <= m.2 - x <= 1 && -1 <= m.3 - y <= 1
    &&& !(m.2 == x && m.3 == y)
    &&& in_board(m.2, m.3)
    &&& !occupied(own, m.2, m.3)
}

/// Knight rule: a jump of two squares along one axis and one along the other,
/// onto a board square that the own side does not hold.
pub open spec fn knight_move(own: Seq<Option<PieceKind>>, x: int, y: int, m: Move) -> bool {
    &&& m.0 == x && m.1 == y
    &&& {
        let dx = m.2 - x;
        let dy = m.3 - y;
        ||| (dx == 1 || dx == -1) && (dy == 2 || dy == -2)
        ||| (dx == 2 || dx == -2) && (dy == 1 || dy == -1)
    }
    &&& in_board(m.2, m.3)
    &&& !occupied(own, m.2, m.3)
}

/// Returns true exactly when `(x, y)` lies on the board.
pub fn in_bound(x: i8, y: i8) -> (r: bool)
    ensures
        r == in_board(x as int, y as int),
{
    (x >= 0 && x <= 7) && (y >= 0 && y <= 7)
}

/// The single move from `(x, y)` by `(dx, dy)`, if that square is on the board
/// and not held by the own side.
pub open spec fn step_move(own: Seq<Option<PieceKind>>, x: int, y: int, dx: int, dy: int, m: Move) -> bool {
    &&& m == (x, y, x + dx, y + dy)
    &&& in_board(x + dx, y + dy)
    &&& !occupied(own, x + dx, y + dy)
}

pub proof fn lemma_appends_compose(
    a: Seq<[i8; 4]>,
    b: Seq<[i8; 4]>,
    c: Seq<[i8; 4]>,
    p: spec_fn(Move) -> bool,
    q: spec_fn(Move) -> bool,
)
    requires
        appends_exactly(a, b, p),
        appends_exactly(b, c, q),
    ensures
        appends_exactly(a, c, |m: Move| p(m) || q(m)),
{
    let r = |m: Move| p(m) || q(m);
    assert forall|i: int| a.len() <= i < c.len() implies #[trigger] r(act(c[i])) by {
        if i < b.len() {
            assert(p(act(b[i])));
        } else {
            assert(q(act(c[i])));
        }
    }
    assert forall|m: Move| #[trigger] r(m) implies exists|i: int|
        a.len() <= i < c.len() && act(#[trigger] c[i]) == m by {
        if p(m) {
            let i = choose|i: int| a.len() <= i < b.len() && act(#[trigger] b[i]) == m;
            assert(c[i] == b[i]);
        } else {
            assert(q(m));
        }
    }
}

pub proof fn lemma_appends_equiv(
    a: Seq<[i8; 4]>,
    b: Seq<[i8; 4]>,
    p: spec_fn(Move) -> bool,
    q: spec_fn(Move) -> bool,
)
    requires
        appends_exactly(a, b, p),
        forall|m: Move| #[trigger] p(m) == q(m),
    ensures
        appends_exactly(a, b, q),
{
    assert forall|m: Move| #[trigger] q(m) implies exists|i: int|
        a.len() <= i < b.len() && act(#[trigger] b[i]) == m by {
        assert(p(m));
    }
    assert forall|i: int| a.len() <= i < b.len() implies #[trigger] q(act(b[i])) by {
        assert(p(act(b[i])));
    }
}

/// Appends the move from `(x, y)` by `(dx, dy)` when that square is on the
/// board and not held by the own side.
fn push_step(x: i8, y: i8, dx: i8, dy: i8, own: &PieceMap, moves: &mut Vec<[i8; 4]>)
    requires
        in_board(x as int, y as int),
        -2 <= dx <= 2 && -2 <= dy <= 2,
        own.wf(),
    ensures
        appends_exactly(
            old(moves)@,
            final(moves)@,
            |m: Move| step_move(own@, x as int, y as int, dx as int, dy as int, m),
        ),
{
    let ghost start = moves@;
    let nx: i8 = x + dx;
    let ny: i8 = y + dy;
    if in_bound(nx, ny) && !own.contains_key(nx, ny) {
        moves.push([x, y, nx, ny]);
        assert(act(moves@[start.len() as int]) == (x as int, y as int, nx as int, ny as int));
    }
}

/// Appends every King move from `(x, y)`.
pub fn king_legal_moves(x: i8, y: i8, own: &PieceMap, moves: &mut Vec<[i8; 4]>)
    requires
        in_board(x as int, y as int),
        own.wf(),
    ensures
        appends_exactly(old(moves)@, final(moves)@, |m: Move| king_move(own@, x as int, y as int, m)),
{
    let ghost (xi, yi, o) = (x as int, y as int, own@);
    let ghost s0 = moves@;
    push_step(x, y, 0, -1, own, moves);
    let ghost s1 = moves@;
    push_step(x, y, 1, -1, own, moves);
    let ghost s2 = moves@;
    push_step(x, y, 1, 0, own, moves);
    let ghost s3 = moves@;
    push_step(x, y, 1, 1, own, moves);
    let ghost s4 = moves@;
    push_step(x, y, 0, 1, own, moves);
    let ghost s5 = moves@;
    push_step(x, y, -1, 1, own, moves);
    let ghost s6 = moves@;
    push_step(x, y, -1, 0, own, moves);
    let ghost s7 = moves@;
    push_step(x, y, -1, -1, own, moves);
    proof {
        let f = |dx: int, dy: int| (|m: Move| step_move(o, xi, yi, dx, dy, m));
        lemma_appends_compose(s0, s1, s2, f(0, -1), f(1, -1));
        let p2 = |m: Move| f(0, -1)(m) || f(1, -1)(m);
        lemma_appends_compose(s0, s2, s3, p2, f(1, 0));
        let p3 = |m: Move| p2(m) || f(1, 0)(m);
        lemma_appends_compose(s0, s3, s4, p3, f(1, 1));
        let p4 = |m: Move| p3(m) || f(1, 1)(m);
        lemma_appends_compose(s0, s4, s5, p4, f(0, 1));
        let p5 = |m: Move| p4(m) || f(0, 1)(m);
        lemma_appends_compose(s0, s5, s6, p5, f(-1, 1));
        let p6 = |m: Move| p5(m) || f(-1, 1)(m);
        lemma_appends_compose(s0, s6, s7, p6, f(-1, 0));
        let p7 = |m: Move| p6(m) || f(-1, 0)(m);
        lemma_appends_compose(s0, s7, moves@, p7, f(-1, -1));
        let p8 = |m: Move| p7(m) || f(-1, -1)(m);
        lemma_appends_equiv(s0, moves@, p8, |m: Move| king_move(o, xi, yi, m));
    }
}

/// Appends every Knight move from `(x, y)`.
pub fn knight_legal_moves(x: i8, y: i8, own: &PieceMap, moves: &mut Vec<[i8; 4]>)
    requires
        in_board(x as int, y as int),
        own.wf(),
    ensures
        appends_exactly(old(moves)@, final(moves)@, |m: Move| knight_move(own@, x as int, y as int, m)),
{
    let ghost (xi, yi, o) = (x as int, y as int, own@);
    let ghost s0 = moves@;
    push_step(x, y, -1, -2, own, moves);
    let ghost s1 = moves@;
    push_step(x, y, 1, -2, own, moves);
    let ghost s2 = moves@;
    push_step(x, y, 2, -1, own, moves);
    let ghost s3 = moves@;
    push_step(x, y, 2, 1, own, moves);
    let ghost s4 = moves@;
    push_step(x, y, 1, 2, own, moves);
    let ghost s5 = moves@;
    push_step(x, y, -1, 2, own, moves);
    let ghost s6 = moves@;
    push_step(x, y, -2, 1, own, moves);
    let ghost s7 = moves@;
    push_step(x, y, -2, -1, own, moves);
    proof {
        let f = |dx: int, dy: int| (|m: Move| step_move(o, xi, yi, dx, dy, m));
        lemma_appends_compose(s0, s1, s2, f(-1, -2), f(1, -2));
        let p2 = |m: Move| f(-1, -2)(m) || f(1, -2)(m);
        lemma_appends_compose(s0, s2, s3, p2, f(2, -1));
        let p3 = |m: Move| p2(m) || f(2, -1)(m);
        lemma_appends_compose(s0, s3, s4, p3, f(2, 1));
        let p4 = |m: Move| p3(m) || f(2, 1)(m);
        lemma_appends_compose(s0, s4, s5, p4, f(1, 2));
        let p5 = |m: Move| p4(m) || f(1, 2)(m);
        lemma_appends_compose(s0, s5, s6, p5, f(-1, 2));
        let p6 = |m: Move| p5(m) || f(-1, 2)(m);
        lemma_appends_compose(s0, s6, s7, p6, f(-2, 1));
        let p7 = |m: Move| p6(m) || f(-2, 1)(m);
        lemma_appends_compose(s0, s7, moves@, p7, f(-2, -1));
        let p8 = |m: Move| p7(m) || f(-2, -1)(m);
        lemma_appends_equiv(s0, moves@, p8, |m: Move| knight_move(o, xi, yi, m));
    }
}

/// The coordinate `k` steps from `x` in direction `d` (-1, 0 or 1).
pub open spec fn step(x: int, d: int, k: int) -> int {
    if d > 0 {
        x + k
    } else if d < 0 {
        x - k
    } else {
        x
    }
}

/// Every square strictly between `(x, y)` and `k` steps along `(dx, dy)` is empty.
pub open spec fn path_clear(
    own: Seq<Option<PieceKind>>,
    opp: Seq<Option<PieceKind>>,
    x: int,
    y: int,
    dx: int,
    dy: int,
    k: int,
) -> bool {
    forall|j: int| #![trigger step(x, dx, j), step(y, dy, j)]
        1 <= j < k ==> !occupied(own, step(x, dx, j), step(y, dy, j)) && !occupied(
            opp,
            step(x, dx, j),
            step(y, dy, j),
        )
}

/// `m` goes `k` steps from `(x, y)` along `(dx, dy)` over empty squares, onto a
/// board square that the own side does not hold.
pub open spec fn slide_at(
    own: Seq<Option<PieceKind>>,
    opp: Seq<Option<PieceKind>>,
    x: int,
    y: int,
    dx: int,
    dy: int,
    k: int,
    m: Move,
) -> bool {
    &&& k >= 1
    &&& m == (x, y, step(x, dx, k), step(y, dy, k))
    &&& in_board(m.2, m.3)
    &&& !occupied(own, m.2, m.3)
    &&& path_clear(own, opp, x, y, dx, dy, k)
}

/// Sliding rule along one ray: the ray stops at the first occupied square,
/// which is included only when the opponent holds it.
pub open spec fn slide_move(
    own: Seq<Option<PieceKind>>,
    opp: Seq<Option<PieceKind>>,
    x: int,
    y: int,
    dx: int,
    dy: int,
    m: Move,
) -> bool {
    exists|k: int| #[trigger] slide_at(own, opp, x, y, dx, dy, k, m)
}

/// Appends every move from `(x, y)` along the ray `(dx, dy)`.
fn push_ray(
    x: i8,
    y: i8,
    dx: i8,
    dy: i8,
    own: &PieceMap,
    opp: &PieceMap,
    moves: &mut Vec<[i8; 4]>,
)
    requires
        in_board(x as int, y as int),
        -1 <= dx <= 1 && -1 <= dy <= 1,
        dx != 0 || dy != 0,
        own.wf(),
        opp.wf(),
    ensures
        appends_exactly(
            old(moves)@,
            final(moves)@,
            |m: Move| slide_move(own@, opp@, x as int, y as int, dx as int, dy as int, m),
        ),
{
    let ghost (xi, yi, dxi, dyi) = (x as int, y as int, dx as int, dy as int);
    let ghost start = moves@;
    let ghost mut k: int = 0;
    let mut nx: i8 = x;
    let mut ny: i8 = y;
    let mut done = false;
    while !done
        invariant
            in_board(xi, yi),
            -1 <= dxi <= 1 && -1 <= dyi <= 1,
            dxi != 0 || dyi != 0,
            xi == x && yi == y && dxi == dx && dyi == dy,
            own.wf(),
            opp.wf(),
            0 <= k <= 8,
            nx == step(xi, dxi, k),
            ny == step(yi, dyi, k),
            in_board(nx as int, ny as int),
            moves@.len() == start.len() + k,
            forall|i: int| 0 <= i < start.len() ==> moves@[i] == start[i],
            forall|j: int|
                1 <= j <= k ==> act(#[trigger] moves@[start.len() + j - 1]) == (
                    xi,
                    yi,
                    step(xi, dxi, j),
                    step(yi, dyi, j),
                ),
            forall|j: int|
                1 <= j <= k ==> in_board(step(xi, dxi, j), step(yi, dyi, j)) && !occupied(
                    own@,
                    step(xi, dxi, j),
                    step(yi, dyi, j),
                ),
            path_clear(own@, opp@, xi, yi, dxi, dyi, k),
            !done ==> k == 0 || !occupied(opp@, nx as int, ny as int),
            done ==> (k >= 1 && occupied(opp@, nx as int, ny as int)) || !in_board(
                step(xi, dxi, k + 1),
                step(yi, dyi, k + 1),
            ) || occupied(own@, step(xi, dxi, k + 1), step(yi, dyi, k + 1)),
        decreases 9 - k + if done { 0int } else { 1int },
    {
        let tx: i8 = nx + dx;
        let ty: i8 = ny + dy;
        if in_bound(tx, ty) && !own.contains_key(tx, ty) {
            moves.push([x, y, tx, ty]);
            proof {
                assert(path_clear(own@, opp@, xi, yi, dxi, dyi, k + 1));
                k = k + 1;
            }
            nx = tx;
            ny = ty;
            if opp.contains_key(tx, ty) {
                done = true;
            }
        } else {
            done = true;
        }
    }
    proof {
        let p = |m: Move| slide_move(own@, opp@, xi, yi, dxi, dyi, m);
        assert forall|i: int| start.len() <= i < moves@.len() implies #[trigger] p(act(moves@[i])) by {
            let j = i - start.len() + 1;
            assert(act(moves@[start.len() + j - 1]) == (xi, yi, step(xi, dxi, j), step(yi, dyi, j)));
            assert(slide_at(own@, opp@, xi, yi, dxi, dyi, j, act(moves@[i])));
        }
        assert forall|m: Move| #[trigger] p(m) implies exists|i: int|
            start.len() <= i < moves@.len() && act(#[trigger] moves@[i]) == m by {
            let kk = choose|kk: int| #[trigger] slide_at(own@, opp@, xi, yi, dxi, dyi, kk, m);
            if kk > k {
                if k >= 1 && occupied(opp@, nx as int, ny as int) {
                    assert(!occupied(opp@, step(xi, dxi, k), step(yi, dyi, k)));
                } else if kk > k + 1 {
                    assert(!occupied(own@, step(xi, dxi, k + 1), step(yi, dyi, k + 1)));
                }
            }
            assert(act(moves@[start.len() + kk - 1]) == m);
        }
    }
}

/// Rook rule: the four orthogonal rays.
pub open spec fn rook_move(
    own: Seq<Option<PieceKind>>,
    opp: Seq<Option<PieceKind>>,
    x: int,
    y: int,
    m: Move,
) -> bool {
    ||| slide_move(own, opp, x, y, 0, -1, m)
    ||| slide_move(own, opp, x, y, 1, 0, m)
    ||| slide_move(own, opp, x, y, 0, 1, m)
    ||| slide_move(own, opp, x, y, -1, 0, m)
}

/// Bishop rule: the four diagonal rays.
pub open spec fn bishop_move(
    own: Seq<Option<PieceKind>>,
    opp: Seq<Option<PieceKind>>,
    x: int,
    y: int,
    m: Move,
) -> bool {
    ||| slide_move(own, opp, x, y, -1, 1, m)
    ||| slide_move(own, opp, x, y, 1, -1, m)
    ||| slide_move(own, opp, x, y, 1, 1, m)
    ||| slide_move(own, opp, x, y, -1, -1, m)
}

/// Queen rule: the four orthogonal and the four diagonal rays.
pub open spec fn queen_move(
    own: Seq<Option<PieceKind>>,
    opp: Seq<Option<PieceKind>>,
    x: int,
    y: int,
    m: Move,
) -> bool {
    rook_move(own, opp, x, y, m) || bishop_move(own, opp, x, y, m)
}

/// Appends every Rook move from `(x, y)`.
pub fn rook_legal_moves(x: i8, y: i8, own: &PieceMap, opp: &PieceMap, moves: &mut Vec<[i8; 4]>)
    requires
        in_board(x as int, y as int),
        own.wf(),
        opp.wf(),
    ensures
        appends_exactly(old(moves)@, final(moves)@, |m: Move| rook_move(own@, opp@, x as int, y as int, m)),
{
    let ghost (xi, yi, o, q) = (x as int, y as int, own@, opp@);
    let ghost s0 = moves@;
    push_ray(x, y, 0, -1, own, opp, moves);
    let ghost s1 = moves@;
    push_ray(x, y, 1, 0, own, opp, moves);
    let ghost s2 = moves@;
    push_ray(x, y, 0, 1, own, opp, moves);
    let ghost s3 = moves@;
    push_ray(x, y, -1, 0, own, opp, moves);
    proof {
        let f = |dx: int, dy: int| (|m: Move| slide_move(o, q, xi, yi, dx, dy, m));
        lemma_appends_compose(s0, s1, s2, f(0, -1), f(1, 0));
        let p2 = |m: Move| f(0, -1)(m) || f(1, 0)(m);
        lemma_appends_compose(s0, s2, s3, p2, f(0, 1));
        let p3 = |m: Move| p2(m) || f(0, 1)(m);
        lemma_appends_compose(s0, s3, moves@, p3, f(-1, 0));
        let p4 = |m: Move| p3(m) || f(-1, 0)(m);
        lemma_appends_equiv(s0, moves@, p4, |m: Move| rook_move(o, q, xi, yi, m));
    }
}
/// Appends every Bishop move from `(x, y)`.
pub fn bishop_legal_moves(x: i8, y: i8, own: &PieceMap, opp: &PieceMap, moves: &mut Vec<[i8; 4]>)
    requires
        in_board(x as int, y as int),
        own.wf(),
        opp.wf(),
    ensures
        appends_exactly(old(moves)@, final(moves)@, |m: Move| bishop_move(own@, opp@, x as int, y as int, m)),
{
    let ghost (xi, yi, o, q) = (x as int, y as int, own@, opp@);
    let ghost s0 = moves@;
    push_ray(x, y, -1, 1, own, opp, moves);
    let ghost s1 = moves@;
    push_ray(x, y, 1, -1, own, opp, moves);
    let ghost s2 = moves@;
    push_ray(x, y, 1, 1, own, opp, moves);
    let ghost s3 = moves@;
    push_ray(x, y, -1, -1, own, opp, moves);
    proof {
        let f = |dx: int, dy: int| (|m: Move| slide_move(o, q, xi, yi, dx, dy, m));
        lemma_appends_compose(s0, s1, s2, f(-1, 1), f(1, -1));
        let p2 = |m: Move| f(-1, 1)(m) || f(1, -1)(m);
        lemma_appends_compose(s0, s2, s3, p2, f(1, 1));
        let p3 = |m: Move| p2(m) || f(1, 1)(m);
        lemma_appends_compose(s0, s3, moves@, p3, f(-1, -1));
        let p4 = |m: Move| p3(m) || f(-1, -1)(m);
        lemma_appends_equiv(s0, moves@, p4, |m: Move| bishop_move(o, q, xi, yi, m));
    }
}
/// Appends every Queen move from `(x, y)`.
pub fn queen_legal_moves(x: i8, y: i8, own: &PieceMap, opp: &PieceMap, moves: &mut Vec<[i8; 4]>)
    requires
        in_board(x as int, y as int),
        own.wf(),
        opp.wf(),
    ensures
        appends_exactly(old(moves)@, final(moves)@, |m: Move| queen_move(own@, opp@, x as int, y as int, m)),
{
    let ghost (xi, yi, o, q) = (x as int, y as int, own@, opp@);
    let ghost s0 = moves@;
    push_ray(x, y, 0, -1, own, opp, moves);
    let ghost s1 = moves@;
    push_ray(x, y, 1, -1, own, opp, moves);
    let ghost s2 = moves@;
    push_ray(x, y, 1, 0, own, opp, moves);
    let ghost s3 = moves@;
    push_ray(x, y, 1, 1, own, opp, moves);
    let ghost s4 = moves@;
    push_ray(x, y, 0, 1, own, opp, moves);
    let ghost s5 = moves@;
    push_ray(x, y, -1, 1, own, opp, moves);
    let ghost s6 = moves@;
    push_ray(x, y, -1, 0, own, opp, moves);
    let ghost s7 = moves@;
    push_ray(x, y, -1, -1, own, opp, moves);
    proof {
        let f = |dx: int, dy: int| (|m: Move| slide_move(o, q, xi, yi, dx, dy, m));
        lemma_appends_compose(s0, s1, s2, f(0, -1), f(1, -1));
        let p2 = |m: Move| f(0, -1)(m) || f(1, -1)(m);
        lemma_appends_compose(s0, s2, s3, p2, f(1, 0));
        let p3 = |m: Move| p2(m) || f(1, 0)(m);
        lemma_appends_compose(s0, s3, s4, p3, f(1, 1));
        let p4 = |m: Move| p3(m) || f(1, 1)(m);
        lemma_appends_compose(s0, s4, s5, p4, f(0, 1));
        let p5 = |m: Move| p4(m) || f(0, 1)(m);
        lemma_appends_compose(s0, s5, s6, p5, f(-1, 1));
        let p6 = |m: Move| p5(m) || f(-1, 1)(m);
        lemma_appends_compose(s0, s6, s7, p6, f(-1, 0));
        let p7 = |m: Move| p6(m) || f(-1, 0)(m);
        lemma_appends_compose(s0, s7, moves@, p7, f(-1, -1));
        let p8 = |m: Move| p7(m) || f(-1, -1)(m);
        lemma_appends_equiv(s0, moves@, p8, |m: Move| queen_move(o, q, xi, yi, m));
    }
}
/// Direction in which a pawn of the given side advances along `y`.
pub open spec fn pawn_dir(white: bool) -> int {
    if white {
        -1
    } else {
        1
    }
}

/// The rank on which the given side's pawns start.
pub open spec fn pawn_start(white: bool) -> int {
    if white {
        6
    } else {
        1
    }
}

/// Pawn rule: one square forward onto an empty square; two squares forward from
/// the starting rank over two empty squares; one square diagonally forward onto
/// an opponent's piece.
pub open spec fn pawn_move(
    white: bool,
    own: Seq<Option<PieceKind>>,
    opp: Seq<Option<PieceKind>>,
    x: int,
    y: int,
    m: Move,
) -> bool {
    let d = pawn_dir(white);
    &&& m.0 == x && m.1 == y
    &&& {
        ||| m.2 == x && m.3 == y + d && in_board(m.2, m.3) && !occupied(own, m.2, m.3)
            && !occupied(opp, m.2, m.3)
        ||| m.2 == x && m.3 == y + 2 * d && y == pawn_start(white) && !occupied(own, x, y + d)
            && !occupied(opp, x, y + d) && !occupied(own, m.2, m.3) && !occupied(opp, m.2, m.3)
        ||| (m.2 == x - 1 || m.2 == x + 1) && m.3 == y + d && occupied(opp, m.2, m.3)
    }
}

/// Appends `a` when `cond` holds.
fn push_if(cond: bool, a: [i8; 4], moves: &mut Vec<[i8; 4]>)
    ensures
        appends_exactly(old(moves)@, final(moves)@, |m: Move| cond && m == act(a)),
{
    let ghost start = moves@;
    if cond {
        moves.push(a);
        assert(moves@[start.len() as int] == a);
    }
}

/// Appends every Pawn move from `(x, y)` for the side given by `white_turn`.
pub fn pawn_legal_moves(
    white_turn: bool,
    x: i8,
    y: i8,
    own: &PieceMap,
    opp: &PieceMap,
    moves: &mut Vec<[i8; 4]>,
)
    requires
        in_board(x as int, y as int),
        own.wf(),
        opp.wf(),
    ensures
        appends_exactly(
            old(moves)@,
            final(moves)@,
            |m: Move| pawn_move(white_turn, own@, opp@, x as int, y as int, m),
        ),
{
    let ghost (xi, yi, o, q) = (x as int, y as int, own@, opp@);
    let d: i8 = if white_turn { -1 } else { 1 };
    let start_row: i8 = if white_turn { 6 } else { 1 };
    let ny: i8 = y + d;
    let ny2: i8 = y + 2 * d;
    let ahead_free = !own.contains_key(x, ny) && !opp.contains_key(x, ny);
    let c1 = in_bound(x, ny) && ahead_free;
    let a1: [i8; 4] = [x, y, x, ny];
    let two_free = !own.contains_key(x, ny2) && !opp.contains_key(x, ny2);
    let c2 = y == start_row && ahead_free && two_free;
    let a2: [i8; 4] = [x, y, x, ny2];
    let c3 = opp.contains_key(x - 1, ny);
    let a3: [i8; 4] = [x, y, x - 1, ny];
    let c4 = opp.contains_key(x + 1, ny);
    let a4: [i8; 4] = [x, y, x + 1, ny];
    let ghost s0 = moves@;
    push_if(c1, a1, moves);
    let ghost s1 = moves@;
    push_if(c2, a2, moves);
    let ghost s2 = moves@;
    push_if(c3, a3, moves);
    let ghost s3 = moves@;
    push_if(c4, a4, moves);
    proof {
        let p1 = |m: Move| (in_board(xi, yi + d) && !occupied(o, xi, yi + d) && !occupied(q, xi, yi + d)) && m == (xi, yi, xi, yi + d);
        let p2 = |m: Move| (yi == pawn_start(white_turn) && !occupied(o, xi, yi + d) && !occupied(q, xi, yi + d) && !occupied(o, xi, yi + 2 * d) && !occupied(q, xi, yi + 2 * d)) && m == (xi, yi, xi, yi + 2 * d);
        let p3 = |m: Move| occupied(q, xi - 1, yi + d) && m == (xi, yi, xi - 1, yi + d);
        let p4 = |m: Move| occupied(q, xi + 1, yi + d) && m == (xi, yi, xi + 1, yi + d);
        lemma_appends_equiv(s0, s1, |m: Move| c1 && m == act(a1), p1);
        lemma_appends_equiv(s1, s2, |m: Move| c2 && m == act(a2), p2);
        lemma_appends_equiv(s2, s3, |m: Move| c3 && m == act(a3), p3);
        lemma_appends_equiv(s3, moves@, |m: Move| c4 && m == act(a4), p4);
        lemma_appends_compose(s0, s1, s2, p1, p2);
        let q2 = |m: Move| p1(m) || p2(m);
        lemma_appends_compose(s0, s2, s3, q2, p3);
        let q3 = |m: Move| q2(m) || p3(m);
        lemma_appends_compose(s0, s3, moves@, q3, p4);
        let q4 = |m: Move| q3(m) || p4(m);
        lemma_appends_equiv(s0, moves@, q4, |m: Move| pawn_move(white_turn, o, q, xi, yi, m));
    }
}

/// The movement rule of a piece of kind `kind` standing at `(x, y)`.
pub open spec fn piece_move(
    kind: PieceKind,
    white: bool,
    own: Seq<Option<PieceKind>>,
    opp: Seq<Option<PieceKind>>,
    x: int,
    y: int,
    m: Move,
) -> bool {
    match kind {
        PieceKind::Pawn => pawn_move(white, own, opp, x, y, m),
        PieceKind::Knight => knight_move(own, x, y, m),
        PieceKind::Bishop => bishop_move(own, opp, x, y, m),
        PieceKind::Rook => rook_move(own, opp, x, y, m),
        PieceKind::Queen => queen_move(own, opp, x, y, m),
        PieceKind::King => king_move(own, x, y, m),
    }
}

/// Appends every move of a piece of kind `kind` standing at `(x, y)`.
pub fn piece_legal_moves(
    kind: PieceKind,
    white_turn: bool,
    x: i8,
    y: i8,
    own: &PieceMap,
    opp: &PieceMap,
    moves: &mut Vec<[i8; 4]>,
)
    requires
        in_board(x as int, y as int),
        own.wf(),
        opp.wf(),
    ensures
        appends_exactly(
            old(moves)@,
            final(moves)@,
            |m: Move| piece_move(kind, white_turn, own@, opp@, x as int, y as int, m),
        ),
{
    let ghost start = moves@;
    let ghost p = |m: Move| piece_move(kind, white_turn, own@, opp@, x as int, y as int, m);
    match kind {
        PieceKind::Pawn => {
            pawn_legal_moves(white_turn, x, y, own, opp, moves);
            proof {
                lemma_appends_equiv(start, moves@, |m: Move| pawn_move(white_turn, own@, opp@, x as int, y as int, m), p);
            }
        },
        PieceKind::Knight => {
            knight_legal_moves(x, y, own, moves);
            proof {
                lemma_appends_equiv(start, moves@, |m: Move| knight_move(own@, x as int, y as int, m), p);
            }
        },
        PieceKind::Bishop => {
            bishop_legal_moves(x, y, own, opp, moves);
            proof {
                lemma_appends_equiv(start, moves@, |m: Move| bishop_move(own@, opp@, x as int, y as int, m), p);
            }
        },
        PieceKind::Rook => {
            rook_legal_moves(x, y, own, opp, moves);
            proof {
                lemma_appends_equiv(start, moves@, |m: Move| rook_move(own@, opp@, x as int, y as int, m), p);
            }
        },
        PieceKind::Queen => {
            queen_legal_moves(x, y, own, opp, moves);
            proof {
                lemma_appends_equiv(start, moves@, |m: Move| queen_move(own@, opp@, x as int, y as int, m), p);
            }
        },
        PieceKind::King => {
            king_legal_moves(x, y, own, moves);
            proof {
                lemma_appends_equiv(start, moves@, |m: Move| king_move(own@, x as int, y as int, m), p);
            }
        },
    }
}

/// Every move that a piece's rule allows starts on that piece's square.
pub proof fn lemma_piece_move_origin(
    kind: PieceKind,
    white: bool,
    own: Seq<Option<PieceKind>>,
    opp: Seq<Option<PieceKind>>,
    x: int,
    y: int,
    m: Move,
)
    requires
        piece_move(kind, white, own, opp, x, y, m),
    ensures
        m.0 == x && m.1 == y,
{
}

/// Both ends of the move lie on the board.
pub open spec fn on_board(m: Move) -> bool {
    in_board(m.0, m.1) && in_board(m.2, m.3)
}

/// The moves of `v` come in strictly increasing order of origin, then destination.
pub open spec fn sorted_moves(v: Seq<[i8; 4]>) -> bool {
    forall|i: int, j: int|
        0 <= i < j < v.len() ==> candidate_index(act(#[trigger] v[i])) < candidate_index(act(#[trigger] v[j]))
}

/// Inserting a move before the first larger one keeps a sorted sequence sorted.
proof fn lemma_insert_sorted(v: Seq<[i8; 4]>, p: int, e: [i8; 4])
    requires
        sorted_moves(v),
        0 <= p <= v.len(),
        forall|i: int| 0 <= i < p ==> candidate_index(act(#[trigger] v[i])) < candidate_index(act(e)),
        p < v.len() ==> candidate_index(act(v[p])) > candidate_index(act(e)),
    ensures
        sorted_moves(v.insert(p, e)),
{
    let r = v.insert(p, e);
    assert forall|i: int, j: int|
        0 <= i < j < r.len() implies candidate_index(act(#[trigger] r[i])) < candidate_index(act(#[trigger] r[j])) by {
        if j < p {
            assert(r[i] == v[i] && r[j] == v[j]);
        } else if j == p {
            assert(r[i] == v[i]);
        } else if i < p {
            assert(r[i] == v[i] && r[j] == v[j - 1]);
            if j - 1 > p {
                assert(candidate_index(act(v[p])) < candidate_index(act(v[j - 1])));
            }
        } else if i == p {
            assert(r[j] == v[j - 1]);
            if j - 1 > p {
                assert(candidate_index(act(v[p])) < candidate_index(act(v[j - 1])));
            }
        } else {
            assert(r[i] == v[i - 1] && r[j] == v[j - 1]);
        }
    }
}

/// The sort key of an on-board move: origin first, then destination.
fn move_key(a: &[i8; 4]) -> (k: i32)
    requires
        on_board(act(*a)),
    ensures
        k == candidate_index(act(*a)),
{
    512 * (a[0] as i32) + 64 * (a[1] as i32) + 8 * (a[2] as i32) + (a[3] as i32)
}

/// Some move among the first `n` of `v` is `m`.
pub open spec fn has_move(v: Seq<[i8; 4]>, n: int, m: Move) -> bool {
    exists|i: int| 0 <= i < n && i < v.len() && act(#[trigger] v[i]) == m
}

/// Every move of `a` is among the first `n` of `b`, and every one of those is in `a`.
pub open spec fn same_moves(a: Seq<[i8; 4]>, b: Seq<[i8; 4]>, n: int) -> bool {
    &&& forall|i: int| 0 <= i < a.len() ==> has_move(b, n, act(#[trigger] a[i]))
    &&& forall|j: int| 0 <= j < n && j < b.len() ==> has_move(a, a.len() as int, act(#[trigger] b[j]))
}

proof fn lemma_same_moves_skip(r: Seq<[i8; 4]>, moves: Seq<[i8; 4]>, k: int, p: int)
    requires
        0 <= k < moves.len(),
        0 <= p < r.len(),
        same_moves(r, moves, k),
        act(r[p]) == act(moves[k]),
    ensures
        same_moves(r, moves, k + 1),
{
    assert forall|i: int| 0 <= i < r.len() implies has_move(moves, k + 1, act(#[trigger] r[i])) by {
        assert(has_move(moves, k, act(r[i])));
    }
    assert forall|j: int| 0 <= j < k + 1 && j < moves.len() implies has_move(r, r.len() as int, act(#[trigger] moves[j])) by {
        if j == k {
            assert(act(r[p]) == act(moves[j]));
        }
    }
}

proof fn lemma_same_moves_insert(r: Seq<[i8; 4]>, moves: Seq<[i8; 4]>, k: int, p: int)
    requires
        0 <= k < moves.len(),
        0 <= p <= r.len(),
        same_moves(r, moves, k),
    ensures
        same_moves(r.insert(p, moves[k]), moves, k + 1),
{
    let n = r.insert(p, moves[k]);
    assert forall|i: int| 0 <= i < n.len() implies has_move(moves, k + 1, act(#[trigger] n[i])) by {
        if i == p {
            assert(act(moves[k]) == act(n[i]));
        } else if i < p {
            assert(n[i] == r[i]);
            assert(has_move(moves, k, act(r[i])));
        } else {
            assert(n[i] == r[i - 1]);
            assert(has_move(moves, k, act(r[i - 1])));
        }
    }
    assert forall|j: int| 0 <= j < k + 1 && j < moves.len() implies has_move(n, n.len() as int, act(#[trigger] moves[j])) by {
        if j == k {
            assert(act(n[p]) == act(moves[j]));
        } else {
            assert(has_move(r, r.len() as int, act(moves[j])));
            let i0 = choose|i: int| 0 <= i < r.len() && i < r.len() && act(#[trigger] r[i]) == act(moves[j]);
            if i0 < p {
                assert(n[i0] == r[i0]);
            } else {
                assert(n[i0 + 1] == r[i0]);
            }
        }
    }
}

/// The same set of moves as `moves`, in order of origin, then destination,
/// each once.
pub fn sort_moves(moves: &Vec<[i8; 4]>) -> (r: Vec<[i8; 4]>)
    requires
        forall|j: int| 0 <= j < moves@.len() ==> on_board(act(#[trigger] moves@[j])),
    ensures
        sorted_moves(r@),
        same_moves(r@, moves@, moves@.len() as int),
{
    let mut r: Vec<[i8; 4]> = Vec::new();
    let mut k: usize = 0;
    while k < moves.len()
        invariant
            k <= moves@.len(),
            forall|j: int| 0 <= j < moves@.len() ==> on_board(act(#[trigger] moves@[j])),
            sorted_moves(r@),
            forall|i: int| 0 <= i < r@.len() ==> on_board(act(#[trigger] r@[i])),
            same_moves(r@, moves@, k as int),
        decreases moves@.len() - k,
    {
        let e = moves[k];
        let key = move_key(&e);
        let mut p: usize = 0;
        while p < r.len() && move_key(&r[p]) < key
            invariant
                p <= r@.len(),
                forall|i: int| 0 <= i < r@.len() ==> on_board(act(#[trigger] r@[i])),
                on_board(act(e)),
                key == candidate_index(act(e)),
                forall|i: int| 0 <= i < p ==> candidate_index(act(#[trigger] r@[i])) < key,
            decreases r@.len() - p,
        {
            p = p + 1;
        }
        let ghost old_r = r@;
        proof {
            lemma_candidate_index(act(e));
            if p < old_r.len() {
                lemma_candidate_index(act(old_r[p as int]));
            }
        }
        if p < r.len() && move_key(&r[p]) == key {
            proof {
                lemma_same_moves_skip(old_r, moves@, k as int, p as int);
            }
        } else {
            r.insert(p, e);
            proof {
                lemma_insert_sorted(old_r, p as int, e);
                lemma_same_moves_insert(old_r, moves@, k as int, p as int);
                assert forall|i: int| 0 <= i < r@.len() implies on_board(act(#[trigger] r@[i])) by {
                    if i < p {
                        assert(r@[i] == old_r[i]);
                    } else if i > p {
                        assert(r@[i] == old_r[i - 1]);
                    }
                }
            }
        }
        k = k + 1;
    }
    r
}

pub proof fn lemma_appends_same_moves(t: Seq<[i8; 4]>, r: Seq<[i8; 4]>, p: spec_fn(Move) -> bool)
    requires
        appends_exactly(Seq::empty(), t, p),
        same_moves(r, t, t.len() as int),
    ensures
        appends_exactly(Seq::empty(), r, p),
{
    assert forall|i: int| 0 <= i < r.len() implies #[trigger] p(act(r[i])) by {
        assert(has_move(t, t.len() as int, act(r[i])));
        let j = choose|j: int| 0 <= j < t.len() && j < t.len() && act(#[trigger] t[j]) == act(r[i]);
        assert(p(act(t[j])));
    }
    assert forall|m: Move| #[trigger] p(m) implies exists|i: int| 0 <= i < r.len() && act(#[trigger] r[i]) == m by {
        let j = choose|j: int| 0 <= j < t.len() && act(#[trigger] t[j]) == m;
        assert(has_move(r, r.len() as int, act(t[j])));
    }
}

pub proof fn lemma_appends_concat(a: Seq<[i8; 4]>, t: Seq<[i8; 4]>, p: spec_fn(Move) -> bool)
    requires
        appends_exactly(Seq::empty(), t, p),
    ensures
        appends_exactly(a, a + t, p),
{
    let n = a + t;
    assert forall|i: int| a.len() <= i < n.len() implies #[trigger] p(act(n[i])) by {
        assert(n[i] == t[i - a.len()]);
    }
    assert forall|m: Move| #[trigger] p(m) implies exists|i: int| a.len() <= i < n.len() && act(#[trigger] n[i]) == m by {
        let j = choose|j: int| 0 <= j < t.len() && act(#[trigger] t[j]) == m;
        assert(n[a.len() + j] == t[j]);
    }
}

/// Two sorted sequences whose keys are split by `bound` form a sorted sequence.
pub proof fn lemma_sorted_concat(a: Seq<[i8; 4]>, b: Seq<[i8; 4]>, bound: int)
    requires
        sorted_moves(a),
        sorted_moves(b),
        forall|i: int| 0 <= i < a.len() ==> candidate_index(act(#[trigger] a[i])) < bound,
        forall|j: int| 0 <= j < b.len() ==> candidate_index(act(#[trigger] b[j])) >= bound,
    ensures
        sorted_moves(a + b),
{
    let n = a + b;
    assert forall|i: int, j: int| 0 <= i < j < n.len() implies candidate_index(act(#[trigger] n[i]))
        < candidate_index(act(#[trigger] n[j])) by {
        if j < a.len() {
            assert(n[i] == a[i] && n[j] == a[j]);
        } else if i < a.len() {
            assert(n[i] == a[i] && n[j] == b[j - a.len()]);
        } else {
            assert(n[i] == b[i - a.len()] && n[j] == b[j - a.len()]);
        }
    }
}

/// A move that a piece's rule allows from a board square ends on the board.
pub proof fn lemma_piece_move_on_board(
    kind: PieceKind,
    white: bool,
    own: Seq<Option<PieceKind>>,
    opp: Seq<Option<PieceKind>>,
    x: int,
    y: int,
    m: Move,
)
    requires
        in_board(x, y),
        piece_move(kind, white, own, opp, x, y, m),
    ensures
        on_board(m),
{
}

} // verus!
