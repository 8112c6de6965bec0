//! Episode runners: the driving loop that asks one strategy for a move each
//! turn, commits it, and stops at the horizon.  Each runner reports the
//! final score, or nothing when the strategy found no move, which callers
//! must treat as an aborted episode.  An episode that is already over
//! reports its score untouched; a grid without a legal move aborts; and an
//! abort never happens on a finished episode.

use vstd::prelude::*;
use crate::search::beamsearch_action;
use crate::search::beamsearch_action_with_timelimit;
use crate::state::MazeState;
use crate::state::lemma_legal_member_in_bounds;
use crate::strategy::greedy_action;
use crate::strategy::random_action;

verus! {

/// Plays one episode with the greedy strategy.  The score never decreases;
/// a reported score is the final score of a completed episode.
#[verifier::loop_isolation(false)]
pub fn run_episode_greedy(state: &mut MazeState) -> (r: Option<i32>)
    requires
        old(state).wf(),
    ensures
        final(state).wf(),
        final(state).height == old(state).height,
        final(state).width == old(state).width,
        final(state).game_score >= old(state).game_score,
        r matches Some(sc) ==> sc == final(state).game_score && final(state).is_terminal(),
        r is None ==> final(state).legal_seq().len() == 0 && !final(state).is_terminal(),
        old(state).is_terminal() ==> r == Some(old(state).game_score),
        (!old(state).is_terminal() && old(state).legal_seq().len() == 0) ==> r is None,
        (old(state).width >= 2 || old(state).height >= 2) ==> r is Some,
{
    while !state.is_done()
        invariant
            state.wf(),
            state.height == old(state).height,
            state.width == old(state).width,
            state.game_score >= old(state).game_score,
            old(state).is_terminal() ==> *state == *old(state),
            old(state).legal_seq().len() == 0 ==> *state == *old(state),
        decreases state.end_turn - state.turn,
    {
        match greedy_action(state) {
            None => {
                proof {
                    crate::state::lemma_legal_nonempty(*state);
                }
                return None;
            },
            Some(action) => {
                proof {
                    lemma_legal_member_in_bounds(*state, action);
                }
                state.update(action);
            },
        }
    }
    Some(state.game_score)
}

/// Plays one episode with the random strategy, drawing each move from the
/// given generator.
#[verifier::loop_isolation(false)]
pub fn run_episode_random(state: &mut MazeState, rng: &mut rand::rngs::StdRng) -> (r: Option<i32>)
    requires
        old(state).wf(),
    ensures
        final(state).wf(),
        final(state).height == old(state).height,
        final(state).width == old(state).width,
        final(state).game_score >= old(state).game_score,
        r matches Some(sc) ==> sc == final(state).game_score && final(state).is_terminal(),
        r is None ==> final(state).legal_seq().len() == 0 && !final(state).is_terminal(),
        old(state).is_terminal() ==> r == Some(old(state).game_score),
        (!old(state).is_terminal() && old(state).legal_seq().len() == 0) ==> r is None,
        (old(state).width >= 2 || old(state).height >= 2) ==> r is Some,
{
    while !state.is_done()
        invariant
            state.wf(),
            state.height == old(state).height,
            state.width == old(state).width,
            state.game_score >= old(state).game_score,
            old(state).is_terminal() ==> *state == *old(state),
            old(state).legal_seq().len() == 0 ==> *state == *old(state),
        decreases state.end_turn - state.turn,
    {
        match random_action(state, rng) {
            None => {
                proof {
                    crate::state::lemma_legal_nonempty(*state);
                }
                return None;
            },
            Some(action) => {
                proof {
                    lemma_legal_member_in_bounds(*state, action);
                }
                state.update(action);
            },
        }
    }
    Some(state.game_score)
}

/// Plays one episode with fixed-width, fixed-depth beam search.
#[verifier::loop_isolation(false)]
pub fn run_episode_beam(state: &mut MazeState, beam_width: u32, beam_depth: u32) -> (r: Option<i32>)
    requires
        old(state).wf(),
        old(state).first_action is None,
        beam_width >= 1,
        beam_depth >= 1,
    ensures
        final(state).wf(),
        final(state).height == old(state).height,
        final(state).width == old(state).width,
        final(state).game_score >= old(state).game_score,
        r matches Some(sc) ==> sc == final(state).game_score && final(state).is_terminal(),
        r is None ==> final(state).legal_seq().len() == 0 && !final(state).is_terminal(),
        old(state).is_terminal() ==> r == Some(old(state).game_score),
        (!old(state).is_terminal() && old(state).legal_seq().len() == 0) ==> r is None,
        (old(state).width >= 2 || old(state).height >= 2) ==> r is Some,
{
    while !state.is_done()
        invariant
            state.wf(),
            state.first_action is None,
            state.height == old(state).height,
            state.width == old(state).width,
            state.game_score >= old(state).game_score,
            old(state).is_terminal() ==> *state == *old(state),
            old(state).legal_seq().len() == 0 ==> *state == *old(state),
        decreases state.end_turn - state.turn,
    {
        match beamsearch_action(state, beam_width, beam_depth) {
            None => {
                proof {
                    crate::state::lemma_legal_nonempty(*state);
                }
                return None;
            },
            Some(action) => {
                proof {
                    lemma_legal_member_in_bounds(*state, action);
                }
                state.update(action);
            },
        }
    }
    Some(state.game_score)
}

/// Plays one episode with time-bounded beam search, one budget per turn.
/// The clock decides how deep each turn searches, so which moves are taken
/// is not pinned; but an episode that is already over reports its score
/// without consulting the clock, a grid without a legal move aborts whatever
/// the clock answers, and an abort never happens on a finished episode.
#[verifier::loop_isolation(false)]
pub fn run_episode_beam_timed(
    state: &mut MazeState,
    beam_width: u32,
    time_threshold_in_millis: u64,
) -> (r: Option<i32>)
    requires
        old(state).wf(),
        old(state).first_action is None,
        beam_width >= 1,
    ensures
        final(state).wf(),
        final(state).height == old(state).height,
        final(state).width == old(state).width,
        final(state).game_score >= old(state).game_score,
        r matches Some(sc) ==> sc == final(state).game_score && final(state).is_terminal(),
        r is None ==> !final(state).is_terminal(),
        old(state).is_terminal() ==> r == Some(old(state).game_score),
        (!old(state).is_terminal() && old(state).legal_seq().len() == 0) ==> r is None,
{
    while !state.is_done()
        invariant
            state.wf(),
            state.first_action is None,
            state.height == old(state).height,
            state.width == old(state).width,
            state.game_score >= old(state).game_score,
            old(state).is_terminal() ==> *state == *old(state),
            old(state).legal_seq().len() == 0 ==> *state == *old(state),
        decreases state.end_turn - state.turn,
    {
        match beamsearch_action_with_timelimit(state, beam_width, time_threshold_in_millis) {
            None => {
                proof {
                    crate::state::lemma_legal_nonempty(*state);
                }
                return None;
            },
            Some(action) => {
                proof {
                    lemma_legal_member_in_bounds(*state, action);
                }
                state.update(action);
            },
        }
    }
    Some(state.game_score)
}

} // verus!
