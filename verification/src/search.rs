//! Beam search over cloned states: a bounded-width best-first frontier,
//! expanded layer by layer, that returns the first move of the best
//! discovered continuation.  One variant runs to a fixed depth, the other
//! until a wall-clock budget elapses.

use vstd::prelude::*;
use crate::state::Coord;
use crate::state::MazeState;
use crate::state::lemma_legal_in_bounds;
use crate::state::lemma_legal_nonempty;
use crate::strategy::best_index;
use crate::strategy::greedy_choice;
use crate::timer::TimeKeeper;

verus! {

/// The index of the first state among `fr` whose score is maximal: a later
/// state displaces the running best only with a strictly higher score, so
/// equal-score states are ranked by arrival order.
pub open spec fn first_best(fr: Seq<MazeState>) -> int
    decreases fr.len(),
{
    if fr.len() <= 1 {
        0
    } else {
        let j = first_best(fr.drop_last());
        if fr.last().game_score > fr[j].game_score {
            fr.len() - 1
        } else {
            j
        }
    }
}

/// `first_best` names a position in the sequence and its score dominates
/// every other score.
pub proof fn lemma_first_best(fr: Seq<MazeState>)
    requires
        fr.len() > 0,
    ensures
        0 <= first_best(fr) < fr.len(),
        forall|i: int|
            0 <= i < fr.len() ==> fr[first_best(fr)].game_score >= (#[trigger] fr[i]).game_score,
    decreases fr.len(),
{
    if fr.len() > 1 {
        let pre = fr.drop_last();
        lemma_first_best(pre);
        assert(forall|i: int| 0 <= i < fr.len() - 1 ==> fr[i] == #[trigger] pre[i]);
        let j = first_best(pre);
        let b = first_best(fr);
        assert forall|i: int| 0 <= i < fr.len() implies fr[b].game_score >= (#[trigger] fr[i]).game_score by {
            if i < fr.len() - 1 {
                assert(fr[i] == pre[i]);
                assert(pre[j].game_score >= pre[i].game_score);
            }
        }
    }
}

/// What every state carried by a search frontier satisfies: it is well
/// formed, lives on the same grid and horizon as the root, and its recorded
/// first move, if any, is a legal move of the root.
pub open spec fn frame_ok(s: MazeState, init: MazeState) -> bool {
    &&& s.wf()
    &&& s.width == init.width
    &&& s.height == init.height
    &&& s.end_turn == init.end_turn
    &&& (s.first_action matches Some(c) ==> init.legal_seq().contains(c))
}

pub open spec fn all_frame_ok(fr: Seq<MazeState>, init: MazeState) -> bool {
    forall|i: int| 0 <= i < fr.len() ==> frame_ok(#[trigger] fr[i], init)
}

/// Every state of the frontier records a first move.
pub open spec fn all_stamped(fr: Seq<MazeState>) -> bool {
    forall|i: int| 0 <= i < fr.len() ==> (#[trigger] fr[i]).first_action is Some
}

/// No state of the frontier records a first move.
pub open spec fn all_unstamped(fr: Seq<MazeState>) -> bool {
    forall|i: int| 0 <= i < fr.len() ==> (#[trigger] fr[i]).first_action is None
}

/// A faithful copy of the search root, before any move was committed on it.
pub open spec fn like_init(s: MazeState, init: MazeState) -> bool {
    &&& s.wf()
    &&& s.points@ == init.points@
    &&& s.character == init.character
    &&& s.width == init.width
    &&& s.height == init.height
    &&& s.turn == init.turn
    &&& s.game_score == init.game_score
    &&& s.end_turn == init.end_turn
    &&& s.first_action is None
}

/// The frontier one layer below the root: one state for each legal move of
/// the root, in enumeration order, each recording its own move and scoring
/// exactly what the root's probe of that move gives.
pub open spec fn child_shape(fr: Seq<MazeState>, init: MazeState) -> bool {
    &&& fr.len() == init.legal_seq().len()
    &&& forall|i: int|
        0 <= i < fr.len() ==> (#[trigger] fr[i]).first_action == Some(init.legal_seq()[i])
    &&& forall|i: int|
        0 <= i < fr.len() ==> (#[trigger] fr[i]).game_score == init.probe(init.legal_seq()[i])
}

/// Every state of the frontier records the same first move.
pub open spec fn all_first(fr: Seq<MazeState>, m: Option<Coord>) -> bool {
    forall|i: int| 0 <= i < fr.len() ==> (#[trigger] fr[i]).first_action == m
}

/// When the frontier's scores are exactly the root's probes of a move list,
/// the frontier's first-best state sits at the index of the move the greedy
/// strategy takes: both keep the earliest maximum.
pub proof fn lemma_first_best_matches_best_index(s: MazeState, fr: Seq<MazeState>, moves: Seq<Coord>)
    requires
        fr.len() == moves.len(),
        fr.len() > 0,
        forall|i: int| 0 <= i < fr.len() ==> (#[trigger] fr[i]).game_score == s.probe(moves[i]),
    ensures
        first_best(fr) == best_index(s, moves),
    decreases fr.len(),
{
    if fr.len() > 1 {
        let fp = fr.drop_last();
        let mp = moves.drop_last();
        assert(forall|i: int| 0 <= i < fp.len() ==> #[trigger] fp[i] == fr[i]);
        assert(forall|i: int| 0 <= i < mp.len() ==> #[trigger] mp[i] == moves[i]);
        lemma_first_best_matches_best_index(s, fp, mp);
        lemma_first_best(fp);
        assert(fr.last() == fr[fr.len() - 1]);
        assert(moves.last() == moves[moves.len() - 1]);
    }
}

/// Popping a state keeps a shared first move on the remaining states, and
/// hands the popped state the same move.
proof fn lemma_pop_keeps_first(fr: Seq<MazeState>, k: int, m: Option<Coord>)
    requires
        0 <= k < fr.len(),
    ensures
        all_first(fr, m) ==> all_first(fr.remove(k), m) && fr[k].first_action == m,
{
    let g = fr.remove(k);
    if all_first(fr, m) {
        assert forall|i: int| 0 <= i < g.len() implies (#[trigger] g[i]).first_action == m by {
            if i < k {
                assert(fr[i].first_action == m);
            } else {
                assert(fr[i + 1].first_action == m);
            }
        }
    }
}

/// The legal moves depend only on the agent's cell and the grid dimensions.
pub proof fn lemma_legal_same(s: MazeState, t: MazeState)
    requires
        s.character == t.character,
        s.width == t.width,
        s.height == t.height,
    ensures
        s.legal_seq() == t.legal_seq(),
{
    assert(s.legal_seq() =~= t.legal_seq());
}

/// The root states from which a search can discover a move at all: the
/// episode is not over and a legal move exists.
pub open spec fn expandable(init: MazeState) -> bool {
    !init.is_terminal() && init.legal_seq().len() > 0
}

/// The model of one commit on a clone: `post` is `pre` with the reward at
/// `c` collected and zeroed, the agent moved there and the turn advanced;
/// its recorded first move is the committed move when `stamp` holds (the
/// root layer) and is inherited otherwise.
pub open spec fn child_of(post: MazeState, pre: MazeState, c: Coord, stamp: bool) -> bool {
    &&& post.points@ == pre.points@.update(pre.idx_of(c), 0)
    &&& post.game_score == pre.game_score + pre.reward_at(c)
    &&& post.character == c
    &&& post.turn == pre.turn + 1
    &&& post.height == pre.height
    &&& post.width == pre.width
    &&& post.end_turn == pre.end_turn
    &&& post.first_action == (if stamp {
        Some(c)
    } else {
        pre.first_action
    })
}

/// The model of expanding one state: one child per legal move, in the fixed
/// enumeration order.
pub open spec fn expansion_of(children: Seq<MazeState>, s: MazeState, stamp: bool) -> bool {
    &&& children.len() == s.legal_seq().len()
    &&& forall|i: int|
        0 <= i < children.len() ==> child_of(#[trigger] children[i], s, s.legal_seq()[i], stamp)
}

/// The model of one search layer: up to `b` states are popped from `cur`,
/// first-best first; a terminal state survives unchanged, any other
/// contributes its expansion; `next` is the concatenation in pop order.
pub open spec fn layer_of(next: Seq<MazeState>, cur: Seq<MazeState>, b: int, stamp: bool) -> bool
    decreases b,
{
    if b <= 0 || cur.len() == 0 {
        next.len() == 0
    } else {
        let k = first_best(cur);
        let s = cur[k];
        if s.is_terminal() {
            &&& next.len() >= 1
            &&& next[0] == s
            &&& layer_of(next.drop_first(), cur.remove(k), b - 1, stamp)
        } else {
            let n = s.legal_seq().len() as int;
            &&& next.len() >= n
            &&& expansion_of(next.take(n), s, stamp)
            &&& layer_of(next.skip(n), cur.remove(k), b - 1, stamp)
        }
    }
}

/// The model of the whole layered run: `fin` is what `d` layers of width
/// `b` leave of `start`; only the first layer stamps first moves.
pub open spec fn layers_of(
    fin: Seq<MazeState>,
    start: Seq<MazeState>,
    b: int,
    d: int,
    stamp_first: bool,
) -> bool
    decreases d,
{
    if d <= 0 {
        fin == start
    } else {
        exists|mid: Seq<MazeState>|
            #[trigger] layer_of(mid, start, b, stamp_first) && layers_of(fin, mid, b, d - 1, false)
    }
}

/// Concatenation of frontiers associates.
proof fn lemma_concat_assoc(a: Seq<MazeState>, b: Seq<MazeState>, c: Seq<MazeState>)
    ensures
        (a + b) + c == a + (b + c),
{
    assert((a + b) + c =~= a + (b + c));
}

/// Appending one state is concatenating a singleton.
proof fn lemma_push_concat(a: Seq<MazeState>, x: MazeState)
    ensures
        a.push(x) == a + seq![x],
{
    assert(a.push(x) =~= a + seq![x]);
}

/// The move a frontier yields: the first move of its first-best state,
/// peeked, not popped; none when the frontier is empty.
pub open spec fn frontier_move(fr: Seq<MazeState>) -> Option<Coord> {
    if fr.len() == 0 {
        None
    } else {
        fr[first_best(fr)].first_action
    }
}

/// What the fixed-depth search returns: the move of the frontier that
/// `depth` layers of width `b` leave of a frontier holding one faithful
/// copy of the root.  The model pins every field of every state, so `r` is
/// the first move of the best discovered continuation and nothing else.
pub open spec fn beam_result_of(r: Option<Coord>, init: MazeState, b: int, depth: int) -> bool {
    exists|s0: MazeState, fin: Seq<MazeState>|
        like_init(s0, init) && #[trigger] layers_of(fin, seq![s0], b, depth, true) && r
            == frontier_move(fin)
}

/// Running the layers one more step: a completed run of `d` layers followed
/// by one further layer is a run of `d + 1` layers.
pub proof fn lemma_layers_snoc(
    start: Seq<MazeState>,
    cur: Seq<MazeState>,
    next: Seq<MazeState>,
    b: int,
    d: int,
    stamp_first: bool,
)
    requires
        d >= 0,
        layers_of(cur, start, b, d, stamp_first),
        layer_of(
            next,
            cur,
            b,
            if d == 0 {
                stamp_first
            } else {
                false
            },
        ),
    ensures
        layers_of(next, start, b, d + 1, stamp_first),
    decreases d,
{
    if d == 0 {
        assert(cur == start);
        assert(layers_of(next, next, b, 0, false));
        assert(layer_of(next, start, b, stamp_first) && layers_of(next, next, b, 0, false));
    } else {
        let mid = choose|mid: Seq<MazeState>|
            #[trigger] layer_of(mid, start, b, stamp_first) && layers_of(cur, mid, b, d - 1, false);
        lemma_layers_snoc(mid, cur, next, b, d - 1, false);
        assert(layer_of(mid, start, b, stamp_first) && layers_of(next, mid, b, d, false));
    }
}

/// The index of the first highest-scoring state of the frontier, or nothing
/// when the frontier is empty: the peek of the bounded priority frontier.
fn best_of(frontier: &Vec<MazeState>) -> (r: Option<usize>)
    ensures
        (r is None) <==> frontier@.len() == 0,
        r matches Some(i) ==> i < frontier@.len() && i == first_best(frontier@),
{
    if frontier.len() == 0 {
        return None;
    }
    let mut best: usize = 0;
    let mut i: usize = 1;
    while i < frontier.len()
        invariant
            1 <= i <= frontier@.len(),
            best == first_best(frontier@.subrange(0, i as int)),
            best < i,
        decreases frontier@.len() - i,
    {
        proof {
            let pre = frontier@.subrange(0, i as int);
            let cur = frontier@.subrange(0, i + 1 as int);
            assert(cur.drop_last() =~= pre);
            assert(cur.last() == frontier@[i as int]);
            lemma_first_best(pre);
        }
        if frontier[i].game_score > frontier[best].game_score {
            best = i;
        }
        i = i + 1;
    }
    proof {
        assert(frontier@.subrange(0, frontier@.len() as int) =~= frontier@);
    }
    Some(best)
}

/// Removes and returns the first highest-scoring state of the frontier: the
/// pop of the bounded priority frontier.  Which state leaves is fixed by
/// arrival order among equal scores; its score dominates the whole frontier.
fn pop_best(frontier: &mut Vec<MazeState>) -> (r: Option<MazeState>)
    ensures
        (r is None) <==> old(frontier)@.len() == 0,
        r is None ==> final(frontier)@ == old(frontier)@,
        r matches Some(st) ==> ({
            &&& st == old(frontier)@[first_best(old(frontier)@)]
            &&& final(frontier)@ == old(frontier)@.remove(first_best(old(frontier)@))
            &&& forall|i: int|
                0 <= i < old(frontier)@.len() ==> st.game_score >= (#[trigger] old(
                    frontier,
                )@[i]).game_score
        }),
{
    match best_of(frontier) {
        None => None,
        Some(i) => {
            proof {
                lemma_first_best(frontier@);
            }
            let st = frontier.remove(i);
            Some(st)
        },
    }
}

/// Popping a state keeps every frontier-wide fact of the remaining states,
/// and hands the popped state the same fact.
proof fn lemma_frontier_after_pop(fr: Seq<MazeState>, init: MazeState, k: int)
    requires
        0 <= k < fr.len(),
    ensures
        all_frame_ok(fr, init) ==> all_frame_ok(fr.remove(k), init) && frame_ok(fr[k], init),
        all_stamped(fr) ==> all_stamped(fr.remove(k)) && fr[k].first_action is Some,
        all_unstamped(fr) ==> all_unstamped(fr.remove(k)) && fr[k].first_action is None,
        (forall|i: int| 0 <= i < fr.len() ==> like_init(#[trigger] fr[i], init)) ==> ((forall|
            i: int,
        |
            0 <= i < fr.remove(k).len() ==> like_init(#[trigger] fr.remove(k)[i], init))
            && like_init(fr[k], init)),
{
    let g = fr.remove(k);
    assert forall|i: int| 0 <= i < g.len() implies #[trigger] g[i] == (if i < k {
        fr[i]
    } else {
        fr[i + 1]
    }) by {}
    if all_frame_ok(fr, init) {
        assert forall|i: int| 0 <= i < g.len() implies frame_ok(#[trigger] g[i], init) by {
            if i < k {
                assert(frame_ok(fr[i], init));
            } else {
                assert(frame_ok(fr[i + 1], init));
            }
        }
    }
    if all_stamped(fr) {
        assert forall|i: int| 0 <= i < g.len() implies (#[trigger] g[i]).first_action is Some by {
            if i < k {
                assert(fr[i].first_action is Some);
            } else {
                assert(fr[i + 1].first_action is Some);
            }
        }
    }
    if all_unstamped(fr) {
        assert forall|i: int| 0 <= i < g.len() implies (#[trigger] g[i]).first_action is None by {
            if i < k {
                assert(fr[i].first_action is None);
            } else {
                assert(fr[i + 1].first_action is None);
            }
        }
    }
    if forall|i: int| 0 <= i < fr.len() ==> like_init(#[trigger] fr[i], init) {
        assert forall|i: int| 0 <= i < g.len() implies like_init(#[trigger] g[i], init) by {
            if i < k {
                assert(like_init(fr[i], init));
            } else {
                assert(like_init(fr[i + 1], init));
            }
        }
    }
}

/// Fixed-width, fixed-depth beam search: keeps at most `beam_width` states
/// per layer, expands each by every legal move for `beam_depth` layers, and
/// returns the first move of the highest-scoring state left in the final
/// frontier.  A lineage that reaches the horizon is carried along unchanged:
/// the search never plays past the horizon.  The result is pinned for every
/// width and depth: it is the move of the frontier that the layered model
/// (`layers_of`) leaves, the first move of the best discovered continuation
/// (`beam_result_of`).  It returns a move exactly when there is one to
/// find: at least one layer was asked for, the root is not terminal, and
/// the root has a legal move; and any returned move is a legal move of the
/// root.  With a beam one state wide the search degenerates to pure greedy
/// lookahead: it returns exactly the greedy strategy's move.  At depth one
/// the width does not matter: only the root is ever popped, so every width
/// returns the greedy strategy's move as well.
#[verifier::loop_isolation(false)]
#[verifier::rlimit(100)]
pub fn beamsearch_action(initial_state: &MazeState, beam_width: u32, beam_depth: u32) -> (r: Option<
    Coord,
>)
    requires
        initial_state.wf(),
        beam_width >= 1,
        initial_state.first_action is None,
    ensures
        (r is Some) <==> (beam_depth >= 1 && expandable(*initial_state)),
        r matches Some(c) ==> initial_state.legal_seq().contains(c),
        beam_result_of(r, *initial_state, beam_width as int, beam_depth as int),
        (beam_depth == 1 && expandable(*initial_state)) ==> r == greedy_choice(*initial_state),
        (beam_width == 1 && beam_depth >= 1 && expandable(*initial_state)) ==> r == greedy_choice(
            *initial_state,
        ),
{
    let mut current_beam: Vec<MazeState> = Vec::new();
    current_beam.push(initial_state.duplicate());
    let ghost s0 = current_beam@[0];
    proof {
        assert(current_beam@ =~= seq![s0]);
    }
    let mut d: u32 = 0;
    while d < beam_depth
        invariant
            d <= beam_depth,
            like_init(s0, *initial_state),
            layers_of(current_beam@, seq![s0], beam_width as int, d as int, true),
            all_frame_ok(current_beam@, *initial_state),
            d == 0 ==> current_beam@.len() == 1 && (forall|i: int|
                0 <= i < current_beam@.len() ==> like_init(
                    #[trigger] current_beam@[i],
                    *initial_state,
                )),
            expandable(*initial_state) && d >= 1 ==> current_beam@.len() >= 1 && all_stamped(
                current_beam@,
            ),
            initial_state.is_terminal() ==> all_unstamped(current_beam@),
            (initial_state.legal_seq().len() == 0 && !initial_state.is_terminal() && d >= 1)
                ==> current_beam@.len() == 0,
            (expandable(*initial_state) && d == 1) ==> child_shape(current_beam@, *initial_state),
            (beam_width == 1 && expandable(*initial_state) && d >= 2) ==> all_first(
                current_beam@,
                greedy_choice(*initial_state),
            ),
        decreases beam_depth - d,
    {
        let ghost entry = current_beam@;
        let ghost stamp = (d == 0);
        let mut next_beam: Vec<MazeState> = Vec::new();
        let mut w: u32 = 0;
        proof {
            assert forall|future: Seq<MazeState>, b2: int|
                b2 == beam_width as int - w as int && #[trigger] layer_of(
                    future,
                    current_beam@,
                    b2,
                    stamp,
                ) implies layer_of(next_beam@ + future, entry, beam_width as int, stamp) by {
                assert(next_beam@ + future =~= future);
            }
        }
        while w < beam_width && current_beam.len() > 0
            invariant
                w <= beam_width,
                all_frame_ok(current_beam@, *initial_state),
                all_frame_ok(next_beam@, *initial_state),
                d == 0 ==> (forall|i: int|
                    0 <= i < current_beam@.len() ==> like_init(
                        #[trigger] current_beam@[i],
                        *initial_state,
                    )),
                expandable(*initial_state) && d >= 1 ==> all_stamped(current_beam@),
                expandable(*initial_state) ==> all_stamped(next_beam@),
                expandable(*initial_state) ==> (next_beam@.len() >= 1 || (w == 0
                    && current_beam@.len() >= 1)),
                initial_state.is_terminal() ==> all_unstamped(current_beam@) && all_unstamped(
                    next_beam@,
                ),
                (initial_state.legal_seq().len() == 0 && !initial_state.is_terminal())
                    ==> next_beam@.len() == 0,
                (initial_state.legal_seq().len() == 0 && !initial_state.is_terminal() && d >= 1)
                    ==> current_beam@.len() == 0,
                (expandable(*initial_state) && d == 0 && w == 0) ==> next_beam@.len() == 0,
                d == 0 ==> ((w == 0 && current_beam@.len() == 1 && next_beam@.len() == 0)
                    || current_beam@.len() == 0),
                (expandable(*initial_state) && d == 0) ==> (next_beam@.len() == 0 || child_shape(
                    next_beam@,
                    *initial_state,
                )),
                (expandable(*initial_state) && d == 1 && w == 0) ==> child_shape(
                    current_beam@,
                    *initial_state,
                ),
                (beam_width == 1 && expandable(*initial_state) && d >= 2 && w == 0) ==> all_first(
                    current_beam@,
                    greedy_choice(*initial_state),
                ),
                (beam_width == 1 && expandable(*initial_state) && d >= 1) ==> all_first(
                    next_beam@,
                    greedy_choice(*initial_state),
                ),
                forall|future: Seq<MazeState>, b2: int|
                    b2 == beam_width as int - w as int && #[trigger] layer_of(
                        future,
                        current_beam@,
                        b2,
                        stamp,
                    ) ==> layer_of(next_beam@ + future, entry, beam_width as int, stamp),
            decreases beam_width - w,
        {
            let ghost cur0 = current_beam@;
            let ghost next0 = next_beam@;
            let popped = pop_best(&mut current_beam);
            match popped {
                None => {
                    proof {
                        assert(false);
                    }
                },
                Some(current_state) => {
                    proof {
                        lemma_first_best(cur0);
                        lemma_frontier_after_pop(cur0, *initial_state, first_best(cur0));
                        if beam_width == 1 && expandable(*initial_state) && d >= 1 {
                            if d == 1 {
                                lemma_first_best_matches_best_index(
                                    *initial_state,
                                    cur0,
                                    initial_state.legal_seq(),
                                );
                            } else {
                                lemma_pop_keeps_first(
                                    cur0,
                                    first_best(cur0),
                                    greedy_choice(*initial_state),
                                );
                            }
                            assert(current_state.first_action == greedy_choice(*initial_state));
                        }
                    }
                    if current_state.is_done() {
                        next_beam.push(current_state);
                        proof {
                            assert forall|future2: Seq<MazeState>, b2: int|
                                b2 == beam_width as int - w as int - 1 && #[trigger] layer_of(
                                    future2,
                                    current_beam@,
                                    b2,
                                    stamp,
                                ) implies layer_of(
                                next_beam@ + future2,
                                entry,
                                beam_width as int,
                                stamp,
                            ) by {
                                let future = seq![current_state] + future2;
                                assert(future[0] == current_state);
                                assert(future.drop_first() =~= future2);
                                assert(layer_of(
                                    future,
                                    cur0,
                                    beam_width as int - w as int,
                                    stamp,
                                ));
                                lemma_push_concat(next0, current_state);
                                lemma_concat_assoc(next0, seq![current_state], future2);
                                assert(next0 + future =~= next_beam@ + future2);
                                assert(layer_of(
                                    next0 + future,
                                    entry,
                                    beam_width as int,
                                    stamp,
                                ));
                            }
                        }
                    } else {
                        let legal_actions = current_state.legal_coords();
                        proof {
                            lemma_legal_in_bounds(current_state);
                            lemma_legal_nonempty(current_state);
                            lemma_legal_nonempty(*initial_state);
                            if d == 0 {
                                lemma_legal_same(current_state, *initial_state);
                            }
                        }
                        let ghost n0 = next_beam@.len();
                        proof {
                            assert(next_beam@.take(n0 as int) =~= next_beam@);
                        }
                        let mut a: usize = 0;
                        while a < legal_actions.len()
                            invariant
                                a <= legal_actions@.len(),
                                next_beam@.len() == n0 + a,
                                all_frame_ok(next_beam@, *initial_state),
                                expandable(*initial_state) ==> all_stamped(next_beam@),
                                initial_state.is_terminal() ==> all_unstamped(next_beam@),
                                (initial_state.legal_seq().len() == 0
                                    && !initial_state.is_terminal()) ==> next_beam@.len() == 0,
                                (expandable(*initial_state) && d == 0) ==> (n0 == 0 && (forall|
                                    i: int,
                                |
                                    0 <= i < next_beam@.len() ==> (#[trigger] next_beam@[i]).first_action
                                        == Some(initial_state.legal_seq()[i])
                                        && next_beam@[i].game_score == initial_state.probe(
                                        initial_state.legal_seq()[i],
                                    ))),
                                (beam_width == 1 && expandable(*initial_state) && d >= 1)
                                    ==> all_first(next_beam@, greedy_choice(*initial_state)),
                                forall|i: int|
                                    0 <= i < a ==> child_of(
                                        #[trigger] next_beam@[n0 + i],
                                        current_state,
                                        current_state.legal_seq()[i],
                                        stamp,
                                    ),
                                next_beam@.take(n0 as int) == next0,
                            decreases legal_actions@.len() - a,
                        {
                            let action = legal_actions[a];
                            let mut next_state = current_state.duplicate();
                            next_state.update(action);
                            if d == 0 {
                                proof {
                                    assert(initial_state.legal_seq()[a as int] == action);
                                    assert(initial_state.legal_seq().contains(action));
                                }
                                next_state.first_action = Some(action);
                            }
                            next_beam.push(next_state);
                            proof {
                                assert(child_of(next_state, current_state, action, stamp));
                                assert(next_beam@.take(n0 as int) =~= next0);
                            }
                            a = a + 1;
                        }
                        proof {
                            if expandable(*initial_state) && d == 0 {
                                assert(child_shape(next_beam@, *initial_state));
                            }
                            let children = next_beam@.skip(n0 as int);
                            let n = current_state.legal_seq().len() as int;
                            assert forall|i: int|
                                0 <= i < children.len() implies child_of(
                                #[trigger] children[i],
                                current_state,
                                current_state.legal_seq()[i],
                                stamp,
                            ) by {
                                assert(children[i] == next_beam@[n0 + i]);
                            }
                            assert(expansion_of(children, current_state, stamp));
                            assert forall|future2: Seq<MazeState>, b2: int|
                                b2 == beam_width as int - w as int - 1 && #[trigger] layer_of(
                                    future2,
                                    current_beam@,
                                    b2,
                                    stamp,
                                ) implies layer_of(
                                next_beam@ + future2,
                                entry,
                                beam_width as int,
                                stamp,
                            ) by {
                                let future = children + future2;
                                assert(future.take(n) =~= children);
                                assert(future.skip(n) =~= future2);
                                assert(layer_of(
                                    future,
                                    cur0,
                                    beam_width as int - w as int,
                                    stamp,
                                ));
                                assert(next0 + children =~= next_beam@);
                                lemma_concat_assoc(next0, children, future2);
                                assert(next0 + future =~= next_beam@ + future2);
                                assert(layer_of(
                                    next0 + future,
                                    entry,
                                    beam_width as int,
                                    stamp,
                                ));
                            }
                        }
                    }
                },
            }
            w = w + 1;
        }
        proof {
            assert(layer_of(
                Seq::<MazeState>::empty(),
                current_beam@,
                beam_width as int - w as int,
                stamp,
            ));
            assert(next_beam@ + Seq::<MazeState>::empty() =~= next_beam@);
            assert(layer_of(next_beam@, entry, beam_width as int, stamp));
            lemma_layers_snoc(seq![s0], entry, next_beam@, beam_width as int, d as int, true);
        }
        current_beam = next_beam;
        d = d + 1;
    }
    let idx_opt = best_of(&current_beam);
    proof {
        assert(layers_of(
            current_beam@,
            seq![s0],
            beam_width as int,
            beam_depth as int,
            true,
        ));
    }
    match idx_opt {
        None => {
            proof {
                assert(frontier_move(current_beam@) is None);
            }
            None
        },
        Some(i) => {
            proof {
                assert(frame_ok(current_beam@[i as int], *initial_state));
                assert(frontier_move(current_beam@) == current_beam@[i as int].first_action);
                if expandable(*initial_state) && beam_depth == 1 {
                    lemma_first_best_matches_best_index(
                        *initial_state,
                        current_beam@,
                        initial_state.legal_seq(),
                    );
                    assert(current_beam@[i as int].first_action == greedy_choice(*initial_state));
                }
                if beam_width == 1 && beam_depth >= 2 && expandable(*initial_state) {
                    assert(current_beam@[i as int].first_action == greedy_choice(*initial_state));
                }
            }
            current_beam[i].first_action
        },
    }
}

/// Time-bounded beam search: the same layered expansion, but the number of
/// layers is bounded only by the horizon, and before every pop the time
/// guard is asked; once the budget has elapsed the search stops at once and
/// falls back on the best state recorded at the end of the last fully
/// completed layer, or reports no move when no layer completed in time.
/// Whatever the clock answers: a returned move is a legal move of the root
/// and is what the fixed-depth search returns at the number of layers that
/// completed (`beam_result_of` at some depth), a zero budget finds no move,
/// and a root on which no search can find a move (a terminal one, or one
/// without a legal move) gets none.
#[verifier::loop_isolation(false)]
#[verifier::rlimit(80)]
pub fn beamsearch_action_with_timelimit(
    initial_state: &MazeState,
    beam_width: u32,
    time_threshold_in_millis: u64,
) -> (r: Option<Coord>)
    requires
        initial_state.wf(),
        beam_width >= 1,
        initial_state.first_action is None,
    ensures
        r matches Some(c) ==> initial_state.legal_seq().contains(c),
        !expandable(*initial_state) ==> r is None,
        time_threshold_in_millis == 0 ==> r is None,
        r matches Some(c) ==> exists|k: int|
            0 <= k && #[trigger] beam_result_of(r, *initial_state, beam_width as int, k),
        (beam_width == 1 && expandable(*initial_state)) ==> (r is None || r == greedy_choice(
            *initial_state,
        )),
{
    let time_keeper = TimeKeeper::new(time_threshold_in_millis);
    let mut current_beam: Vec<MazeState> = Vec::new();
    let mut wrapped_best_state: Option<MazeState> = None;
    current_beam.push(initial_state.duplicate());
    let ghost s0 = current_beam@[0];
    proof {
        assert(current_beam@ =~= seq![s0]);
    }
    let remaining: u32 = initial_state.end_turn - initial_state.turn;
    let mut d: u32 = 0;
    while d < remaining + 1
        invariant
            d <= remaining + 1,
            all_frame_ok(current_beam@, *initial_state),
            d == 0 ==> current_beam@.len() == 1 && (forall|i: int|
                0 <= i < current_beam@.len() ==> like_init(
                    #[trigger] current_beam@[i],
                    *initial_state,
                )),
            expandable(*initial_state) && d >= 1 ==> current_beam@.len() >= 1 && all_stamped(
                current_beam@,
            ),
            initial_state.is_terminal() ==> all_unstamped(current_beam@),
            (initial_state.legal_seq().len() == 0 && !initial_state.is_terminal() && d >= 1)
                ==> current_beam@.len() == 0,
            time_keeper.time_threshold_in_millis == time_threshold_in_millis,
            time_threshold_in_millis == 0 ==> wrapped_best_state is None,
            like_init(s0, *initial_state),
            layers_of(current_beam@, seq![s0], beam_width as int, d as int, true),
            wrapped_best_state matches Some(bst) ==> exists|k: int|
                0 <= k && #[trigger] beam_result_of(
                    bst.first_action,
                    *initial_state,
                    beam_width as int,
                    k,
                ),
            wrapped_best_state matches Some(b) ==> frame_ok(b, *initial_state),
            initial_state.is_terminal() ==> (wrapped_best_state matches Some(b)
                ==> b.first_action is None),
            (initial_state.legal_seq().len() == 0 && !initial_state.is_terminal())
                ==> wrapped_best_state is None,
            (expandable(*initial_state) && d == 1) ==> child_shape(current_beam@, *initial_state),
            (beam_width == 1 && expandable(*initial_state) && d >= 2) ==> all_first(
                current_beam@,
                greedy_choice(*initial_state),
            ),
            (beam_width == 1 && expandable(*initial_state)) ==> (wrapped_best_state matches Some(b)
                ==> b.first_action == greedy_choice(*initial_state)),
        decreases remaining + 1 - d,
    {
        let ghost entry = current_beam@;
        let ghost stamp = (d == 0);
        let mut next_beam: Vec<MazeState> = Vec::new();
        let mut w: u32 = 0;
        proof {
            assert forall|future: Seq<MazeState>, b2: int|
                b2 == beam_width as int - w as int && #[trigger] layer_of(
                    future,
                    current_beam@,
                    b2,
                    stamp,
                ) implies layer_of(next_beam@ + future, entry, beam_width as int, stamp) by {
                assert(next_beam@ + future =~= future);
            }
        }
        while w < beam_width && current_beam.len() > 0
            invariant
                w <= beam_width,
                all_frame_ok(current_beam@, *initial_state),
                all_frame_ok(next_beam@, *initial_state),
                d == 0 ==> (forall|i: int|
                    0 <= i < current_beam@.len() ==> like_init(
                        #[trigger] current_beam@[i],
                        *initial_state,
                    )),
                expandable(*initial_state) && d >= 1 ==> all_stamped(current_beam@),
                expandable(*initial_state) ==> all_stamped(next_beam@),
                initial_state.is_terminal() ==> all_unstamped(current_beam@) && all_unstamped(
                    next_beam@,
                ),
                (initial_state.legal_seq().len() == 0 && !initial_state.is_terminal())
                    ==> next_beam@.len() == 0,
                (initial_state.legal_seq().len() == 0 && !initial_state.is_terminal() && d >= 1)
                    ==> current_beam@.len() == 0,
                (expandable(*initial_state) && d == 0 && w == 0) ==> next_beam@.len() == 0,
                d == 0 ==> ((w == 0 && current_beam@.len() == 1 && next_beam@.len() == 0)
                    || current_beam@.len() == 0),
                (expandable(*initial_state) && d == 0) ==> (next_beam@.len() == 0 || child_shape(
                    next_beam@,
                    *initial_state,
                )),
                (expandable(*initial_state) && d == 1 && w == 0) ==> child_shape(
                    current_beam@,
                    *initial_state,
                ),
                (beam_width == 1 && expandable(*initial_state) && d >= 2 && w == 0) ==> all_first(
                    current_beam@,
                    greedy_choice(*initial_state),
                ),
                (beam_width == 1 && expandable(*initial_state) && d >= 1) ==> all_first(
                    next_beam@,
                    greedy_choice(*initial_state),
                ),
                expandable(*initial_state) ==> (next_beam@.len() >= 1 || (w == 0
                    && current_beam@.len() >= 1)),
                time_threshold_in_millis == 0 ==> next_beam@.len() == 0,
                forall|future: Seq<MazeState>, b2: int|
                    b2 == beam_width as int - w as int && #[trigger] layer_of(
                        future,
                        current_beam@,
                        b2,
                        stamp,
                    ) ==> layer_of(next_beam@ + future, entry, beam_width as int, stamp),
            decreases beam_width - w,
        {
            if time_keeper.is_timeover() {
                match wrapped_best_state {
                    None => {
                        return None;
                    },
                    Some(b) => {
                        return b.first_action;
                    },
                }
            }
            let ghost cur0 = current_beam@;
            let ghost next0 = next_beam@;
            let popped = pop_best(&mut current_beam);
            match popped {
                None => {
                    proof {
                        assert(false);
                    }
                },
                Some(current_state) => {
                    proof {
                        lemma_first_best(cur0);
                        lemma_frontier_after_pop(cur0, *initial_state, first_best(cur0));
                        if beam_width == 1 && expandable(*initial_state) && d >= 1 {
                            if d == 1 {
                                lemma_first_best_matches_best_index(
                                    *initial_state,
                                    cur0,
                                    initial_state.legal_seq(),
                                );
                            } else {
                                lemma_pop_keeps_first(
                                    cur0,
                                    first_best(cur0),
                                    greedy_choice(*initial_state),
                                );
                            }
                            assert(current_state.first_action == greedy_choice(*initial_state));
                        }
                    }
                    if current_state.is_done() {
                        next_beam.push(current_state);
                        proof {
                            assert forall|future2: Seq<MazeState>, b2: int|
                                b2 == beam_width as int - w as int - 1 && #[trigger] layer_of(
                                    future2,
                                    current_beam@,
                                    b2,
                                    stamp,
                                ) implies layer_of(
                                next_beam@ + future2,
                                entry,
                                beam_width as int,
                                stamp,
                            ) by {
                                let future = seq![current_state] + future2;
                                assert(future[0] == current_state);
                                assert(future.drop_first() =~= future2);
                                assert(layer_of(
                                    future,
                                    cur0,
                                    beam_width as int - w as int,
                                    stamp,
                                ));
                                lemma_push_concat(next0, current_state);
                                lemma_concat_assoc(next0, seq![current_state], future2);
                                assert(next0 + future =~= next_beam@ + future2);
                                assert(layer_of(
                                    next0 + future,
                                    entry,
                                    beam_width as int,
                                    stamp,
                                ));
                            }
                        }
                    } else {
                        let legal_actions = current_state.legal_coords();
                        proof {
                            lemma_legal_in_bounds(current_state);
                            lemma_legal_nonempty(current_state);
                            lemma_legal_nonempty(*initial_state);
                            if d == 0 {
                                lemma_legal_same(current_state, *initial_state);
                            }
                        }
                        let ghost n0 = next_beam@.len();
                        proof {
                            assert(next_beam@.take(n0 as int) =~= next_beam@);
                        }
                        let mut a: usize = 0;
                        while a < legal_actions.len()
                            invariant
                                a <= legal_actions@.len(),
                                next_beam@.len() == n0 + a,
                                all_frame_ok(next_beam@, *initial_state),
                                expandable(*initial_state) ==> all_stamped(next_beam@),
                                initial_state.is_terminal() ==> all_unstamped(next_beam@),
                                (initial_state.legal_seq().len() == 0
                                    && !initial_state.is_terminal()) ==> next_beam@.len() == 0,
                                (expandable(*initial_state) && d == 0) ==> (n0 == 0 && (forall|
                                    i: int,
                                |
                                    0 <= i < next_beam@.len() ==> (#[trigger] next_beam@[i]).first_action
                                        == Some(initial_state.legal_seq()[i])
                                        && next_beam@[i].game_score == initial_state.probe(
                                        initial_state.legal_seq()[i],
                                    ))),
                                (beam_width == 1 && expandable(*initial_state) && d >= 1)
                                    ==> all_first(next_beam@, greedy_choice(*initial_state)),
                                forall|i: int|
                                    0 <= i < a ==> child_of(
                                        #[trigger] next_beam@[n0 + i],
                                        current_state,
                                        current_state.legal_seq()[i],
                                        stamp,
                                    ),
                                next_beam@.take(n0 as int) == next0,
                            decreases legal_actions@.len() - a,
                        {
                            let action = legal_actions[a];
                            let mut next_state = current_state.duplicate();
                            next_state.update(action);
                            if d == 0 {
                                proof {
                                    assert(initial_state.legal_seq()[a as int] == action);
                                    assert(initial_state.legal_seq().contains(action));
                                }
                                next_state.first_action = Some(action);
                            }
                            next_beam.push(next_state);
                            proof {
                                assert(child_of(next_state, current_state, action, stamp));
                                assert(next_beam@.take(n0 as int) =~= next0);
                            }
                            a = a + 1;
                        }
                        proof {
                            if expandable(*initial_state) && d == 0 {
                                assert(child_shape(next_beam@, *initial_state));
                            }
                            let children = next_beam@.skip(n0 as int);
                            let n = current_state.legal_seq().len() as int;
                            assert forall|i: int|
                                0 <= i < children.len() implies child_of(
                                #[trigger] children[i],
                                current_state,
                                current_state.legal_seq()[i],
                                stamp,
                            ) by {
                                assert(children[i] == next_beam@[n0 + i]);
                            }
                            assert(expansion_of(children, current_state, stamp));
                            assert forall|future2: Seq<MazeState>, b2: int|
                                b2 == beam_width as int - w as int - 1 && #[trigger] layer_of(
                                    future2,
                                    current_beam@,
                                    b2,
                                    stamp,
                                ) implies layer_of(
                                next_beam@ + future2,
                                entry,
                                beam_width as int,
                                stamp,
                            ) by {
                                let future = children + future2;
                                assert(future.take(n) =~= children);
                                assert(future.skip(n) =~= future2);
                                assert(layer_of(
                                    future,
                                    cur0,
                                    beam_width as int - w as int,
                                    stamp,
                                ));
                                assert(next0 + children =~= next_beam@);
                                lemma_concat_assoc(next0, children, future2);
                                assert(next0 + future =~= next_beam@ + future2);
                                assert(layer_of(
                                    next0 + future,
                                    entry,
                                    beam_width as int,
                                    stamp,
                                ));
                            }
                        }
                    }
                },
            }
            w = w + 1;
        }
        proof {
            assert(layer_of(
                Seq::<MazeState>::empty(),
                current_beam@,
                beam_width as int - w as int,
                stamp,
            ));
            assert(next_beam@ + Seq::<MazeState>::empty() =~= next_beam@);
            assert(layer_of(next_beam@, entry, beam_width as int, stamp));
            lemma_layers_snoc(seq![s0], entry, next_beam@, beam_width as int, d as int, true);
        }
        current_beam = next_beam;
        let idx_opt = best_of(&current_beam);
        match idx_opt {
            None => {},
            Some(i) => {
                proof {
                    assert(frame_ok(current_beam@[i as int], *initial_state));
                    if expandable(*initial_state) && d == 0 {
                        lemma_first_best_matches_best_index(
                            *initial_state,
                            current_beam@,
                            initial_state.legal_seq(),
                        );
                        assert(current_beam@[i as int].first_action == greedy_choice(
                            *initial_state,
                        ));
                    }
                    assert(frontier_move(current_beam@) == current_beam@[i as int].first_action);
                    assert(beam_result_of(
                        current_beam@[i as int].first_action,
                        *initial_state,
                        beam_width as int,
                        d as int + 1,
                    ));
                }
                wrapped_best_state = Some(current_beam[i].duplicate());
            },
        }
        d = d + 1;
    }
    match wrapped_best_state {
        None => None,
        Some(b) => b.first_action,
    }
}

} // verus!
