//! One-step decision strategies: uniform-random and one-step greedy.

use vstd::prelude::*;
use crate::state::MazeState;
use crate::state::Coord;
use crate::state::lemma_legal_in_bounds;
use crate::rng::rng_next_usize;

verus! {

/// The index of the first move among `moves` whose probed score is maximal:
/// a later move displaces the running best only with a strictly higher score.
pub open spec fn best_index(s: MazeState, moves: Seq<Coord>) -> int
    decreases moves.len(),
{
    if moves.len() <= 1 {
        0
    } else {
        let j = best_index(s, moves.drop_last());
        if s.probe(moves.last()) > s.probe(moves[j]) {
            moves.len() - 1
        } else {
            j
        }
    }
}

/// `best_index` names a position in the sequence, its probe dominates every
/// other probe, and every earlier move probes strictly lower.
pub proof fn lemma_best_index(s: MazeState, moves: Seq<Coord>)
    requires
        moves.len() > 0,
    ensures
        0 <= best_index(s, moves) < moves.len(),
        forall|i: int|
            0 <= i < moves.len() ==> s.probe(moves[best_index(s, moves)]) >= s.probe(
                #[trigger] moves[i],
            ),
        forall|i: int|
            0 <= i < best_index(s, moves) ==> s.probe(#[trigger] moves[i]) < s.probe(
                moves[best_index(s, moves)],
            ),
    decreases moves.len(),
{
    if moves.len() > 1 {
        let pre = moves.drop_last();
        lemma_best_index(s, pre);
        let j = best_index(s, pre);
        assert(forall|i: int| 0 <= i < moves.len() - 1 ==> moves[i] == #[trigger] pre[i]);
        let b = best_index(s, moves);
        if s.probe(moves.last()) > s.probe(moves[j]) {
            assert(b == moves.len() - 1);
            assert forall|i: int| 0 <= i < moves.len() implies s.probe(moves[b]) >= s.probe(
                #[trigger] moves[i],
            ) by {
                if i < moves.len() - 1 {
                    assert(moves[i] == pre[i]);
                    assert(s.probe(pre[i]) <= s.probe(pre[j]));
                }
            }
            assert forall|i: int| 0 <= i < b implies s.probe(#[trigger] moves[i]) < s.probe(
                moves[b],
            ) by {
                assert(moves[i] == pre[i]);
                assert(s.probe(pre[i]) <= s.probe(pre[j]));
            }
        } else {
            assert(b == j);
            assert forall|i: int| 0 <= i < moves.len() implies s.probe(moves[b]) >= s.probe(
                #[trigger] moves[i],
            ) by {
                if i < moves.len() - 1 {
                    assert(moves[i] == pre[i]);
                    assert(s.probe(pre[i]) <= s.probe(pre[j]));
                }
            }
            assert forall|i: int| 0 <= i < b implies s.probe(#[trigger] moves[i]) < s.probe(
                moves[b],
            ) by {
                assert(moves[i] == pre[i]);
                assert(s.probe(pre[i]) < s.probe(pre[j]));
            }
        }
    }
}

/// The move the greedy strategy takes: the first legal move with the highest
/// probed score, or no move at all when the state has no legal move.
pub open spec fn greedy_choice(s: MazeState) -> Option<Coord> {
    if s.legal_seq().len() == 0 {
        None
    } else {
        Some(s.legal_seq()[best_index(s, s.legal_seq())])
    }
}

/// Greedy strategy: probes every legal move and takes the first one with the
/// strictly highest probed score; its choice probes at least as high as any
/// other legal move.
pub fn greedy_action(state: &MazeState) -> (r: Option<Coord>)
    requires
        state.wf(),
    ensures
        r == greedy_choice(*state),
        (r is None) <==> state.legal_seq().len() == 0,
        r matches Some(c) ==> state.legal_seq().contains(c) && forall|i: int|
            0 <= i < state.legal_seq().len() ==> state.probe(c) >= state.probe(
                #[trigger] state.legal_seq()[i],
            ),
{
    let legal_actions = state.legal_coords();
    let mut best_score: i32 = i32::MIN;
    let mut best_action: Option<Coord> = None;
    let mut i: usize = 0;
    while i < legal_actions.len()
        invariant
            state.wf(),
            legal_actions@ == state.legal_seq(),
            i <= legal_actions@.len(),
            i == 0 ==> best_action is None && best_score == i32::MIN,
            i > 0 ==> {
                let j = best_index(*state, legal_actions@.subrange(0, i as int));
                &&& best_action == Some(legal_actions@[j])
                &&& best_score == state.probe(legal_actions@[j])
            },
        decreases legal_actions@.len() - i,
    {
        proof {
            lemma_legal_in_bounds(*state);
            if i > 0 {
                lemma_best_index(*state, legal_actions@.subrange(0, i as int));
            }
        }
        let action = legal_actions[i];
        proof {
            crate::state::lemma_flat_index(
                action.y as int,
                action.x as int,
                state.height as int,
                state.width as int,
            );
        }
        let next_score: i32 = state.advance(action);
        proof {
            let pre = legal_actions@.subrange(0, i as int);
            let cur = legal_actions@.subrange(0, i + 1 as int);
            assert(cur.drop_last() =~= pre);
            assert(cur.last() == legal_actions@[i as int]);
            if i > 0 {
                lemma_best_index(*state, cur);
            }
        }
        if best_score < next_score {
            best_score = next_score;
            best_action = Some(action);
        }
        i = i + 1;
    }
    proof {
        if legal_actions@.len() > 0 {
            assert(legal_actions@.subrange(0, legal_actions@.len() as int) =~= legal_actions@);
            lemma_best_index(*state, legal_actions@);
            assert(state.legal_seq().contains(
                state.legal_seq()[best_index(*state, state.legal_seq())],
            ));
        }
    }
    best_action
}

/// The random strategy's selection rule on plain values: the move at the
/// drawn index, wrapped around the list.  With a uniformly drawn value this
/// is a uniform choice over the list; which value was drawn the generator
/// decides, but the selection itself is verified for every value.
pub fn select_move(legal: &Vec<Coord>, draw: usize) -> (r: Coord)
    requires
        legal@.len() > 0,
    ensures
        r == legal@[draw as int % legal@.len() as int],
{
    legal[draw % legal.len()]
}

/// Random strategy: takes one legal move, chosen by the given generator, or
/// no move at all when the state has no legal move (the generator is not
/// consulted then).  The drawn word picks the move through `select_move`.
pub fn random_action(state: &MazeState, rng: &mut rand::rngs::StdRng) -> (r: Option<Coord>)
    requires
        state.wf(),
    ensures
        (r is None) <==> state.legal_seq().len() == 0,
        r matches Some(c) ==> state.legal_seq().contains(c),
{
    let next_coords = state.legal_coords();
    if next_coords.len() == 0 {
        None
    } else {
        let draw: usize = rng_next_usize(rng);
        let chosen = select_move(&next_coords, draw);
        proof {
            let k = draw as int % state.legal_seq().len() as int;
            assert(state.legal_seq().contains(state.legal_seq()[k]));
        }
        Some(chosen)
    }
}

} // verus!
