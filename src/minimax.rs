use vstd::prelude::*;
use crate::board::{
    Move,
    in_board,
    occupied,
    act,
    lemma_material_bounds,
    candidate,
    candidate_index,
    lemma_candidate_index,
};
use crate::legal_moves::{appends_exactly, sorted_moves};
use crate::state::{State, StateModel, model_wf, legal, apply, evaluate, lemma_legal_in_board};

verus! {

/// Value of the position reached by playing `m`, searched one ply shallower
/// for the other objective.
pub open spec fn child_value(s: StateModel, m: Move, d: nat, maximizing: bool) -> int
    decreases d, 0int,
{
    if d > 0 {
        minimax_value(apply(s, m), (d - 1) as nat, !maximizing)
    } else {
        0
    }
}

/// The maximum (or minimum) of the children's values over the legal
/// candidates from index `i` on; `None` when there is none.
pub open spec fn best_from(s: StateModel, d: nat, maximizing: bool, i: int) -> Option<int>
    decreases d, 4096 - i,
{
    if i < 0 || i >= 4096 {
        None
    } else {
        let rest = best_from(s, d, maximizing, i + 1);
        if legal(s, candidate(i)) {
            let v = child_value(s, candidate(i), d, maximizing);
            match rest {
                None => Some(v),
                Some(r) => Some(
                    if maximizing {
                        if v >= r {
                            v
                        } else {
                            r
                        }
                    } else {
                        if v <= r {
                            v
                        } else {
                            r
                        }
                    },
                ),
            }
        } else {
            rest
        }
    }
}

/// One ply of exhaustive minimax: the best child value, or the static
/// evaluation where the side to move has no legal action.
pub open spec fn expand_value(s: StateModel, d: nat, maximizing: bool) -> int
    decreases d, 4097int,
{
    match best_from(s, d, maximizing, 0) {
        Some(v) => v,
        None => evaluate(s),
    }
}

/// Exhaustive depth-limited minimax value of `s`: a taken King decides, the
/// horizon evaluates material, and otherwise every legal action is explored.
pub open spec fn minimax_value(s: StateModel, d: nat, maximizing: bool) -> int
    decreases d, 4098int,
{
    if s.victory == -1 {
        -1000
    } else if s.victory == 1 {
        1000
    } else if d == 0 {
        evaluate(s)
    } else {
        expand_value(s, d, maximizing)
    }
}

/// `v` is no worse for the searching side than the value of any legal action.
pub open spec fn bounds_all(s: StateModel, d: nat, maximizing: bool, v: int) -> bool {
    forall|m: Move|
        #[trigger] legal(s, m) ==> if maximizing {
            child_value(s, m, d, maximizing) <= v
        } else {
            child_value(s, m, d, maximizing) >= v
        }
}

pub open spec fn has_legal(s: StateModel) -> bool {
    exists|m: Move| #[trigger] legal(s, m)
}

pub proof fn lemma_best_from(s: StateModel, d: nat, maximizing: bool, i: int)
    requires
        0 <= i <= 4096,
    ensures
        best_from(s, d, maximizing, i) is None <==> forall|j: int|
            i <= j < 4096 ==> !legal(s, #[trigger] candidate(j)),
        best_from(s, d, maximizing, i) is Some ==> exists|j: int|
            i <= j < 4096 && legal(s, #[trigger] candidate(j)) && child_value(s, candidate(j), d, maximizing)
                == best_from(s, d, maximizing, i)->Some_0,
        best_from(s, d, maximizing, i) is Some ==> forall|j: int|
            i <= j < 4096 && legal(s, #[trigger] candidate(j)) ==> if maximizing {
                child_value(s, candidate(j), d, maximizing) <= best_from(s, d, maximizing, i)->Some_0
            } else {
                child_value(s, candidate(j), d, maximizing) >= best_from(s, d, maximizing, i)->Some_0
            },
    decreases 4096 - i,
{
    if i < 4096 {
        lemma_best_from(s, d, maximizing, i + 1);
        let rest = best_from(s, d, maximizing, i + 1);
        if legal(s, candidate(i)) && rest is Some {
            let j = choose|j: int|
                i + 1 <= j < 4096 && legal(s, #[trigger] candidate(j)) && child_value(s, candidate(j), d, maximizing)
                    == rest->Some_0;
            assert(i <= j < 4096);
        }
    }
}

/// One ply of exhaustive minimax: with a legal action, the value is attained
/// by one and bounds all of them; without one, it is the static evaluation.
pub proof fn lemma_expand_value(s: StateModel, d: nat, maximizing: bool)
    ensures
        has_legal(s) ==> bounds_all(s, d, maximizing, expand_value(s, d, maximizing)),
        has_legal(s) ==> exists|m: Move|
            #[trigger] legal(s, m) && child_value(s, m, d, maximizing) == expand_value(s, d, maximizing),
        !has_legal(s) ==> expand_value(s, d, maximizing) == evaluate(s),
{
    lemma_best_from(s, d, maximizing, 0);
    let v = expand_value(s, d, maximizing);
    if has_legal(s) {
        let m = choose|m: Move| #[trigger] legal(s, m);
        lemma_legal_in_board(s, m);
        lemma_candidate_index(m);
        assert(legal(s, candidate(candidate_index(m))));
        assert forall|m2: Move| #[trigger] legal(s, m2) implies if maximizing {
            child_value(s, m2, d, maximizing) <= v
        } else {
            child_value(s, m2, d, maximizing) >= v
        } by {
            lemma_legal_in_board(s, m2);
            lemma_candidate_index(m2);
            assert(legal(s, candidate(candidate_index(m2))));
        }
        let j = choose|j: int|
            0 <= j < 4096 && legal(s, #[trigger] candidate(j)) && child_value(s, candidate(j), d, maximizing) == v;
        assert(legal(s, candidate(j)));
    } else {
        assert forall|j: int| 0 <= j < 4096 implies !legal(s, #[trigger] candidate(j)) by {
            if legal(s, candidate(j)) {
                assert(has_legal(s));
            }
        }
    }
}

/// Applying a legal action keeps a position well formed.
pub proof fn lemma_apply_wf(s: StateModel, m: Move)
    requires
        model_wf(s),
        legal(s, m),
    ensures
        model_wf(apply(s, m)),
{
    lemma_legal_in_board(s, m);
    let t = apply(s, m);
    assert forall|i: int| 0 <= i < 64 implies !(#[trigger] t.white[i] is Some && t.black[i] is Some) by {
        assert(!(s.white[i] is Some && s.black[i] is Some));
    }
}

/// Every searched value lies within the range of the static evaluation.
pub proof fn lemma_value_bounds(s: StateModel, d: nat, maximizing: bool)
    requires
        model_wf(s),
    ensures
        -6400 <= minimax_value(s, d, maximizing) <= 6400,
        -6400 <= expand_value(s, d, maximizing) <= 6400,
    decreases d,
{
    lemma_material_bounds(s.white);
    lemma_material_bounds(s.black);
    lemma_expand_value(s, d, maximizing);
    if has_legal(s) {
        let m = choose|m: Move|
            #[trigger] legal(s, m) && child_value(s, m, d, maximizing) == expand_value(s, d, maximizing);
        if d > 0 {
            lemma_apply_wf(s, m);
            lemma_value_bounds(apply(s, m), (d - 1) as nat, !maximizing);
        }
    }
}

/// What a search with window `(alpha, beta)` owes for a node whose exact
/// value is `t`: `v` is exact inside the window, an upper bound on `t` at or
/// below `alpha`, and a lower bound on `t` at or above `beta`.
pub open spec fn within_window(v: int, alpha: int, beta: int, t: int) -> bool {
    &&& alpha < v < beta ==> v == t
    &&& v <= alpha ==> t <= v
    &&& v >= beta ==> t >= v
}

/// Depth-limited minimax with alpha-beta pruning: maximizes for side A when
/// `maximizing`, else minimizes for side B.
fn alpha_beta(state: &State, alpha: i16, beta: i16, depth: u16, maximizing: bool) -> (v: i16)
    requires
        state.wf(),
        alpha < beta,
    ensures
        -6400 <= v <= 6400,
        within_window(v as int, alpha as int, beta as int, minimax_value(state@, depth as nat, maximizing)),
    decreases depth,
{
    let ghost s = state@;
    proof {
        lemma_value_bounds(s, depth as nat, maximizing);
    }
    let flag = state.victory_check();
    if flag == -1 {
        return -1000;
    }
    if flag == 1 {
        return 1000;
    }
    if depth == 0 {
        return state.estimate_minimax();
    }
    let moves = state.generate_legal_moves();
    proof {
        lemma_expand_value(s, depth as nat, maximizing);
    }
    if moves.len() == 0 {
        proof {
            if has_legal(s) {
                let m = choose|m: Move| #[trigger] legal(s, m);
                let p = |m: Move| legal(s, m);
                assert(p(m));
            }
        }
        return state.estimate_minimax();
    }
    let ghost d = depth as nat;
    let mut a: i16 = alpha;
    let mut b: i16 = beta;
    let mut best: i16 = if maximizing { i16::MIN } else { i16::MAX };
    let ghost mut best_idx: int = 0;
    let mut idx: usize = 0;
    while idx < moves.len()
        invariant
            s == state@,
            state.wf(),
            d == depth as nat,
            depth > 0,
            s.victory == 0,
            alpha < beta,
            model_wf(s),
            appends_exactly(Seq::empty(), moves@, |m: Move| legal(s, m)),
            maximizing ==> a as int == if idx == 0 { alpha as int } else if alpha >= best { alpha as int } else { best as int },
            maximizing ==> b == beta,
            !maximizing ==> b as int == if idx == 0 { beta as int } else if beta <= best { beta as int } else { best as int },
            !maximizing ==> a == alpha,
            idx == 0 ==> best == if maximizing { i16::MIN } else { i16::MAX },
            idx > 0 ==> -6400 <= best <= 6400 && 0 <= best_idx < idx,
            maximizing ==> best < beta,
            !maximizing ==> best > alpha,
            idx <= moves@.len(),
            forall|j: int|
                0 <= j < idx ==> if maximizing {
                    child_value(s, act(#[trigger] moves@[j]), d, maximizing) <= best
                } else {
                    child_value(s, act(#[trigger] moves@[j]), d, maximizing) >= best
                },
            idx > 0 && maximizing && best > alpha ==> child_value(s, act(moves@[best_idx]), d, maximizing) == best,
            idx > 0 && !maximizing && best < beta ==> child_value(s, act(moves@[best_idx]), d, maximizing) == best,
        decreases moves.len() - idx,
    {
        let action = moves[idx];
        proof {
            let p = |m: Move| legal(s, m);
            assert(p(act(moves@[idx as int])));
            lemma_legal_in_board(s, act(action));
            lemma_apply_wf(s, act(action));
        }
        let mut child = state.copy_state();
        child.action_to_state(&action);
        let u = alpha_beta(&child, a, b, depth - 1, !maximizing);
        proof {
            let p = |m: Move| legal(s, m);
            assert(p(act(moves@[idx as int])));
            assert(child_value(s, act(action), d, maximizing) == minimax_value(child@, (depth - 1) as nat, !maximizing));
        }
        if maximizing {
            if u > best {
                best = u;
                proof {
                    best_idx = idx as int;
                }
                if best >= beta {
                    proof {
                        lemma_expand_value(s, d, maximizing);
                        assert(has_legal(s));
                        assert(bounds_all(s, d, maximizing, expand_value(s, d, maximizing)));
                        assert(legal(s, act(action)));
                    }
                    return best;
                }
            }
            if best > a {
                a = best;
            }
        } else {
            if u < best {
                best = u;
                proof {
                    best_idx = idx as int;
                }
                if best <= alpha {
                    proof {
                        lemma_expand_value(s, d, maximizing);
                        assert(has_legal(s));
                        assert(bounds_all(s, d, maximizing, expand_value(s, d, maximizing)));
                        assert(legal(s, act(action)));
                    }
                    return best;
                }
            }
            if best < b {
                b = best;
            }
        }
        idx = idx + 1;
    }
    proof {
        let p = |m: Move| legal(s, m);
        assert(p(act(moves@[0])));
        assert(has_legal(s));
        lemma_expand_value(s, d, maximizing);
        let t = expand_value(s, d, maximizing);
        let m = choose|m: Move| #[trigger] legal(s, m) && child_value(s, m, d, maximizing) == t;
        assert(p(m));
        let j = choose|j: int| 0 <= j < moves@.len() && act(#[trigger] moves@[j]) == m;
        assert(child_value(s, act(moves@[j]), d, maximizing) == t);
        assert(legal(s, act(moves@[best_idx])) == p(act(moves@[best_idx])));
    }
    best
}

/// Exhaustive depth-limited minimax, exploring every legal action without
/// pruning.
pub fn minimax_exhaustive(state: &State, depth: u16, maximizing: bool) -> (v: i16)
    requires
        state.wf(),
    ensures
        v == minimax_value(state@, depth as nat, maximizing),
    decreases depth,
{
    let ghost s = state@;
    let ghost d = depth as nat;
    proof {
        lemma_value_bounds(s, d, maximizing);
    }
    let flag = state.victory_check();
    if flag == -1 {
        return -1000;
    }
    if flag == 1 {
        return 1000;
    }
    if depth == 0 {
        return state.estimate_minimax();
    }
    let moves = state.generate_legal_moves();
    proof {
        lemma_expand_value(s, d, maximizing);
    }
    if moves.len() == 0 {
        proof {
            if has_legal(s) {
                let m = choose|m: Move| #[trigger] legal(s, m);
                let p = |m: Move| legal(s, m);
                assert(p(m));
            }
        }
        return state.estimate_minimax();
    }
    let mut best: i16 = 0;
    let mut idx: usize = 0;
    let ghost mut best_idx: int = 0;
    while idx < moves.len()
        invariant
            s == state@,
            state.wf(),
            model_wf(s),
            d == depth as nat,
            depth >= 1,
            appends_exactly(Seq::empty(), moves@, |m: Move| legal(s, m)),
            idx <= moves@.len(),
            idx > 0 ==> 0 <= best_idx < idx,
            idx > 0 ==> child_value(s, act(moves@[best_idx]), d, maximizing) == best,
            forall|j: int|
                0 <= j < idx ==> if maximizing {
                    child_value(s, act(#[trigger] moves@[j]), d, maximizing) <= best
                } else {
                    child_value(s, act(#[trigger] moves@[j]), d, maximizing) >= best
                },
        decreases moves.len() - idx,
    {
        let action = moves[idx];
        proof {
            let p = |m: Move| legal(s, m);
            assert(p(act(moves@[idx as int])));
            lemma_legal_in_board(s, act(action));
            lemma_apply_wf(s, act(action));
        }
        let mut child = state.copy_state();
        child.action_to_state(&action);
        let u = minimax_exhaustive(&child, depth - 1, !maximizing);
        if idx == 0 || (maximizing && u > best) || (!maximizing && u < best) {
            best = u;
            proof {
                best_idx = idx as int;
            }
        }
        idx = idx + 1;
    }
    proof {
        let p = |m: Move| legal(s, m);
        assert(p(act(moves@[0])));
        assert(has_legal(s));
        lemma_expand_value(s, d, maximizing);
        let t = expand_value(s, d, maximizing);
        let m = choose|m: Move| #[trigger] legal(s, m) && child_value(s, m, d, maximizing) == t;
        assert(p(m));
        let j = choose|j: int| 0 <= j < moves@.len() && act(#[trigger] moves@[j]) == m;
        assert(child_value(s, act(moves@[j]), d, maximizing) == t);
        assert(p(act(moves@[best_idx])));
        assert(legal(s, act(moves@[best_idx])));
    }
    best
}

/// `a` is the first legal action, in order of origin then destination, whose
/// child value is `v`: every legal action before it is strictly worse for the
/// searching side.
pub open spec fn first_best(s: StateModel, d: nat, maximizing: bool, a: Move, v: int) -> bool {
    &&& legal(s, a)
    &&& child_value(s, a, d, maximizing) == v
    &&& forall|m: Move|
        #[trigger] legal(s, m) && candidate_index(m) < candidate_index(a) ==> if maximizing {
            child_value(s, m, d, maximizing) < v
        } else {
            child_value(s, m, d, maximizing) > v
        }
}

/// The action chosen by a search and its value.
pub struct MinimaxResult {
    pub minimax_val: i16,
    pub action: [i8; 4],
}

/// Expands the root exhaustively, searching each child with the full window;
/// on equal values the earlier action is kept.
fn search_root(cur_state: &State, depth_limit: u16, maximizing: bool) -> (r: MinimaxResult)
    requires
        cur_state.wf(),
        depth_limit >= 1,
    ensures
        r.minimax_val == expand_value(cur_state@, depth_limit as nat, maximizing),
        has_legal(cur_state@) ==> first_best(cur_state@, depth_limit as nat, maximizing, act(r.action), r.minimax_val as int),
        !has_legal(cur_state@) ==> act(r.action) == (0int, 0int, 0int, 0int),
{
    let ghost s = cur_state@;
    let ghost d = depth_limit as nat;
    let moves = cur_state.generate_legal_moves();
    proof {
        lemma_expand_value(s, d, maximizing);
    }
    if moves.len() == 0 {
        proof {
            if has_legal(s) {
                let m = choose|m: Move| #[trigger] legal(s, m);
                let p = |m: Move| legal(s, m);
                assert(p(m));
            }
        }
        return MinimaxResult { minimax_val: cur_state.estimate_minimax(), action: [0; 4] };
    }
    let mut best: i16 = if maximizing { i16::MIN } else { i16::MAX };
    let mut best_action: [i8; 4] = [0; 4];
    let mut idx: usize = 0;
    let ghost mut best_idx: int = 0;
    while idx < moves.len()
        invariant
            s == cur_state@,
            cur_state.wf(),
            model_wf(s),
            d == depth_limit as nat,
            depth_limit >= 1,
            appends_exactly(Seq::empty(), moves@, |m: Move| legal(s, m)),
            idx <= moves@.len(),
            idx == 0 ==> best == if maximizing { i16::MIN } else { i16::MAX },
            idx > 0 ==> -6400 <= best <= 6400 && 0 <= best_idx < idx && best_action == moves@[best_idx],
            idx > 0 ==> child_value(s, act(moves@[best_idx]), d, maximizing) == best,
            sorted_moves(moves@),
            forall|j: int|
                0 <= j < idx ==> if maximizing {
                    child_value(s, act(#[trigger] moves@[j]), d, maximizing) <= best
                } else {
                    child_value(s, act(#[trigger] moves@[j]), d, maximizing) >= best
                },
            forall|j: int|
                0 <= j < best_idx ==> if maximizing {
                    child_value(s, act(#[trigger] moves@[j]), d, maximizing) < best
                } else {
                    child_value(s, act(#[trigger] moves@[j]), d, maximizing) > best
                },
        decreases moves.len() - idx,
    {
        let action = moves[idx];
        proof {
            let p = |m: Move| legal(s, m);
            assert(p(act(moves@[idx as int])));
            lemma_legal_in_board(s, act(action));
            lemma_apply_wf(s, act(action));
        }
        let mut child = cur_state.copy_state();
        child.action_to_state(&action);
        let u = alpha_beta(&child, i16::MIN, i16::MAX, depth_limit - 1, !maximizing);
        if (maximizing && u > best) || (!maximizing && u < best) {
            best = u;
            best_action = action;
            proof {
                best_idx = idx as int;
            }
        }
        idx = idx + 1;
    }
    proof {
        let p = |m: Move| legal(s, m);
        assert(p(act(moves@[0])));
        assert(has_legal(s));
        lemma_expand_value(s, d, maximizing);
        let t = expand_value(s, d, maximizing);
        let m = choose|m: Move| #[trigger] legal(s, m) && child_value(s, m, d, maximizing) == t;
        assert(p(m));
        let j = choose|j: int| 0 <= j < moves@.len() && act(#[trigger] moves@[j]) == m;
        assert(child_value(s, act(moves@[j]), d, maximizing) == t);
        assert(p(act(moves@[best_idx])));
        assert(legal(s, act(moves@[best_idx])));
        let a = act(moves@[best_idx]);
        assert forall|m2: Move| #[trigger] legal(s, m2) && candidate_index(m2) < candidate_index(a) implies if maximizing {
            child_value(s, m2, d, maximizing) < best
        } else {
            child_value(s, m2, d, maximizing) > best
        } by {
            assert(p(m2));
            let j2 = choose|j: int| 0 <= j < moves@.len() && act(#[trigger] moves@[j]) == m2;
            if j2 > best_idx {
                assert(candidate_index(act(moves@[best_idx])) < candidate_index(act(moves@[j2])));
            }
        }
    }
    MinimaxResult { minimax_val: best, action: best_action }
}

/// Best action for side A (the maximizing side) and its value, searching
/// `depth_limit` plies.
pub fn search_max(cur_state: &State, depth_limit: u16) -> (r: MinimaxResult)
    requires
        cur_state.wf(),
        depth_limit >= 1,
    ensures
        r.minimax_val == expand_value(cur_state@, depth_limit as nat, true),
        cur_state@.victory == 0 ==> r.minimax_val == minimax_value(cur_state@, depth_limit as nat, true),
        has_legal(cur_state@) ==> first_best(cur_state@, depth_limit as nat, true, act(r.action), r.minimax_val as int),
        !has_legal(cur_state@) ==> act(r.action) == (0int, 0int, 0int, 0int),
{
    search_root(cur_state, depth_limit, true)
}

/// Best action for side B (the minimizing side) and its value, searching
/// `depth_limit` plies.
pub fn search_min(cur_state: &State, depth_limit: u16) -> (r: MinimaxResult)
    requires
        cur_state.wf(),
        depth_limit >= 1,
    ensures
        r.minimax_val == expand_value(cur_state@, depth_limit as nat, false),
        cur_state@.victory == 0 ==> r.minimax_val == minimax_value(cur_state@, depth_limit as nat, false),
        has_legal(cur_state@) ==> first_best(cur_state@, depth_limit as nat, false, act(r.action), r.minimax_val as int),
        !has_legal(cur_state@) ==> act(r.action) == (0int, 0int, 0int, 0int),
{
    search_root(cur_state, depth_limit, false)
}

} // verus!
