//! The game state: a reward grid, the agent's position, the accumulated
//! score and the turn counter, together with the legal-move generator and
//! the two state transitions (the mutating commit and the pure probe).

use vstd::prelude::*;
use crate::rng::rng_from_seed;
use crate::rng::rng_next_below;
use crate::rng::rng_next_usize;

verus! {

/// In a grid of `h` rows of `w` cells each, stored row by row, the cell at
/// row `y` and column `x` has a flat index inside the grid.
pub proof fn lemma_flat_index(y: int, x: int, h: int, w: int)
    requires
        0 <= y < h,
        0 <= x < w,
    ensures
        0 <= y * w + x < h * w,
{
    assert(0 <= y * w + x < h * w) by (nonlinear_arith)
        requires
            0 <= y < h,
            0 <= x < w,
    ;
}

/// Distinct cells of a grid have distinct flat indices.
pub proof fn lemma_flat_index_injective(y1: int, x1: int, y2: int, x2: int, w: int)
    requires
        0 <= x1 < w,
        0 <= x2 < w,
        0 <= y1,
        0 <= y2,
        y1 != y2 || x1 != x2,
    ensures
        y1 * w + x1 != y2 * w + x2,
{
    assert(y1 * w + x1 != y2 * w + x2) by (nonlinear_arith)
        requires
            0 <= x1 < w,
            0 <= x2 < w,
            0 <= y1,
            0 <= y2,
            y1 != y2 || x1 != x2,
    ;
}

/// A cell of the grid, written as an (x, y) pair; x counts columns, y rows.
#[derive(Clone, Copy, PartialEq, Eq, Structural, Debug)]
pub struct Coord {
    pub x: usize,
    pub y: usize,
}

/// The largest turn horizon a state may be built with.  Keeping the horizon
/// below this bound keeps every score below `9 * MAX_HORIZON`, which fits an
/// `i32`, so committing a move can never overflow the score.
pub const MAX_HORIZON: u32 = 100000000;

/// The game state.  The reward grid is stored flat, row by row: the reward of
/// the cell (x, y) sits at index `y * width + x`.
pub struct MazeState {
    pub points: Vec<i32>,
    pub height: usize,
    pub width: usize,
    pub turn: u32,
    pub character: Coord,
    pub game_score: i32,
    pub first_action: Option<Coord>,
    pub end_turn: u32,
}

impl MazeState {
    /// The flat index of the cell `c`.
    pub open spec fn idx_of(self, c: Coord) -> int {
        c.y * self.width + c.x
    }

    /// The reward currently lying on the cell `c`.
    pub open spec fn reward_at(self, c: Coord) -> int {
        self.points@[self.idx_of(c)] as int
    }

    /// Whether the cell `c` lies on the grid.
    pub open spec fn in_bounds(self, c: Coord) -> bool {
        c.x < self.width && c.y < self.height
    }

    /// The score that committing a move to `c` would leave: the pure
    /// one-step lookahead value of `c`.
    pub open spec fn probe(self, c: Coord) -> int {
        self.game_score + self.reward_at(c)
    }

    /// Whether the episode is over: the turn counter has reached the horizon.
    pub open spec fn is_terminal(self) -> bool {
        self.turn == self.end_turn
    }

    /// Well-formedness: the grid is at least 1 x 1 and fully allocated, the
    /// agent stands on it, every reward is a single decimal digit, the turn
    /// counter has not passed the horizon, and the score is the sum of at
    /// most 9 per turn taken, which bounds it away from overflow.
    pub open spec fn wf(self) -> bool {
        &&& 1 <= self.height
        &&& 1 <= self.width
        &&& self.points@.len() == self.height * self.width
        &&& self.height * self.width <= usize::MAX
        &&& self.in_bounds(self.character)
        &&& forall|i: int| 0 <= i < self.points@.len() ==> 0 <= #[trigger] self.points@[i] <= 9
        &&& self.turn <= self.end_turn
        &&& self.end_turn <= MAX_HORIZON
        &&& 0 <= self.game_score <= 9 * self.turn
    }

    /// The legal moves from this state: the orthogonally adjacent cells that
    /// stay on the grid, in the fixed enumeration order left, right, up,
    /// down.  Beam-search tie-breaking depends on this order being kept.
    pub open spec fn legal_seq(self) -> Seq<Coord> {
        let left = if self.character.x > 0 {
            seq![Coord { x: (self.character.x - 1) as usize, y: self.character.y }]
        } else {
            Seq::<Coord>::empty()
        };
        let right = if self.character.x < self.width - 1 {
            seq![Coord { x: (self.character.x + 1) as usize, y: self.character.y }]
        } else {
            Seq::<Coord>::empty()
        };
        let up = if self.character.y > 0 {
            seq![Coord { x: self.character.x, y: (self.character.y - 1) as usize }]
        } else {
            Seq::<Coord>::empty()
        };
        let down = if self.character.y < self.height - 1 {
            seq![Coord { x: self.character.x, y: (self.character.y + 1) as usize }]
        } else {
            Seq::<Coord>::empty()
        };
        left + right + up + down
    }

    /// Whether the episode is over.
    pub fn is_done(&self) -> (r: bool)
        ensures
            r == self.is_terminal(),
    {
        self.turn == self.end_turn
    }

    /// Builds a fresh episode: an `height` x `width` grid whose rewards are
    /// drawn from the seeded generator, a random starting position (whose
    /// own cell stays at reward zero), turn zero and score zero.
    pub fn new(height: usize, width: usize, end_turn: u32, seed: u8) -> (s: Self)
        requires
            1 <= height,
            1 <= width,
            height * width <= usize::MAX,
            end_turn <= MAX_HORIZON,
        ensures
            s.wf(),
            s.height == height,
            s.width == width,
            s.end_turn == end_turn,
            s.turn == 0,
            s.game_score == 0,
            s.first_action is None,
            s.reward_at(s.character) == 0,
    {
        let mut rng = rng_from_seed(seed);
        let cx: usize = rng_next_usize(&mut rng) % width;
        let cy: usize = rng_next_usize(&mut rng) % height;
        let character = Coord { x: cx, y: cy };
        let mut points: Vec<i32> = Vec::new();
        let mut y: usize = 0;
        while y < height
            invariant
                y <= height,
                cx < width,
                cy < height,
                height * width <= usize::MAX,
                points@.len() == y * width,
                forall|i: int| 0 <= i < points@.len() ==> 0 <= #[trigger] points@[i] <= 9,
                y > cy ==> points@[cy * width + cx] == 0,
            decreases height - y,
        {
            let mut x: usize = 0;
            while x < width
                invariant
                    x <= width,
                    y < height,
                    cx < width,
                    cy < height,
                    height * width <= usize::MAX,
                    points@.len() == y * width + x,
                    forall|i: int| 0 <= i < points@.len() ==> 0 <= #[trigger] points@[i] <= 9,
                    y > cy || (y == cy && x > cx) ==> points@[cy * width + cx] == 0,
                decreases width - x,
            {
                proof {
                    lemma_flat_index(y as int, x as int, height as int, width as int);
                }
                if y == cy && x == cx {
                    points.push(0);
                } else {
                    let reward: i32 = rng_next_below(&mut rng, 10);
                    points.push(reward);
                }
                proof {
                    if y > cy {
                        assert(cy * width + cx < y * width) by (nonlinear_arith)
                            requires
                                0 <= cy < y,
                                0 <= cx < width,
                        ;
                    }
                }
                x = x + 1;
            }
            proof {
                assert((y + 1) * width == y * width + width) by (nonlinear_arith);
            }
            y = y + 1;
        }
        proof {
            lemma_flat_index(cy as int, cx as int, height as int, width as int);
        }
        MazeState {
            points,
            height,
            width,
            turn: 0,
            character,
            game_score: 0,
            first_action: None,
            end_turn,
        }
    }

    /// Commits a move: collects the reward on the destination cell, zeroes
    /// that cell, steps the agent onto it and advances the turn counter.
    /// The score never decreases, the agent stays on the grid, and probing
    /// the committed move again yields the new score unchanged: the reward
    /// has been consumed for good in this lineage.
    pub fn update(&mut self, next_coord: Coord)
        requires
            old(self).wf(),
            old(self).in_bounds(next_coord),
            !old(self).is_terminal(),
        ensures
            final(self).wf(),
            final(self).points@ == old(self).points@.update(old(self).idx_of(next_coord), 0),
            final(self).game_score == old(self).game_score + old(self).reward_at(next_coord),
            final(self).game_score >= old(self).game_score,
            final(self).reward_at(next_coord) == 0,
            final(self).probe(next_coord) == final(self).game_score,
            forall|c: Coord|
                old(self).in_bounds(c) && c != next_coord ==> final(self).reward_at(c) == old(
                    self,
                ).reward_at(c),
            final(self).character == next_coord,
            final(self).in_bounds(final(self).character),
            final(self).turn == old(self).turn + 1,
            final(self).first_action == old(self).first_action,
            final(self).height == old(self).height,
            final(self).width == old(self).width,
            final(self).end_turn == old(self).end_turn,
    {
        proof {
            lemma_flat_index(
                next_coord.y as int,
                next_coord.x as int,
                self.height as int,
                self.width as int,
            );
        }
        let idx: usize = next_coord.y * self.width + next_coord.x;
        let point: i32 = self.points[idx];
        self.game_score = self.game_score + point;
        self.points[idx] = 0;
        self.character = next_coord;
        self.turn = self.turn + 1;
        proof {
            assert forall|c: Coord|
                old(self).in_bounds(c) && c != next_coord implies self.reward_at(c) == old(
                self,
            ).reward_at(c) by {
                lemma_flat_index(c.y as int, c.x as int, self.height as int, self.width as int);
                lemma_flat_index_injective(
                    c.y as int,
                    c.x as int,
                    next_coord.y as int,
                    next_coord.x as int,
                    self.width as int,
                );
            }
        }
    }

    /// Probes a move without committing it: the score that `update` on the
    /// same cell would leave.
    pub fn advance(&self, next_coord: Coord) -> (r: i32)
        requires
            self.wf(),
            self.in_bounds(next_coord),
        ensures
            r == self.probe(next_coord),
    {
        proof {
            lemma_flat_index(
                next_coord.y as int,
                next_coord.x as int,
                self.height as int,
                self.width as int,
            );
        }
        let idx: usize = next_coord.y * self.width + next_coord.x;
        self.game_score + self.points[idx]
    }

    /// Enumerates the legal moves, exactly in the fixed order that
    /// `legal_seq` gives.
    pub fn legal_coords(&self) -> (r: Vec<Coord>)
        requires
            self.wf(),
        ensures
            r@ == self.legal_seq(),
    {
        let mut next_coords: Vec<Coord> = Vec::new();
        if self.character.x > 0 {
            next_coords.push(Coord { x: self.character.x - 1, y: self.character.y });
        }
        if self.character.x < self.width - 1 {
            next_coords.push(Coord { x: self.character.x + 1, y: self.character.y });
        }
        if self.character.y > 0 {
            next_coords.push(Coord { x: self.character.x, y: self.character.y - 1 });
        }
        if self.character.y < self.height - 1 {
            next_coords.push(Coord { x: self.character.x, y: self.character.y + 1 });
        }
        proof {
            assert(next_coords@ =~= self.legal_seq());
        }
        next_coords
    }

    /// An independent, fully-owned copy: mutating the copy never affects
    /// this state, and every field of the copy agrees with this one.
    pub fn duplicate(&self) -> (r: Self)
        ensures
            r.points@ == self.points@,
            r.height == self.height,
            r.width == self.width,
            r.turn == self.turn,
            r.character == self.character,
            r.game_score == self.game_score,
            r.first_action == self.first_action,
            r.end_turn == self.end_turn,
            r.wf() == self.wf(),
            r.legal_seq() == self.legal_seq(),
    {
        let mut pts: Vec<i32> = Vec::new();
        let mut i: usize = 0;
        while i < self.points.len()
            invariant
                i <= self.points@.len(),
                pts@ == self.points@.subrange(0, i as int),
            decreases self.points@.len() - i,
        {
            let v: i32 = self.points[i];
            pts.push(v);
            proof {
                assert(pts@ =~= self.points@.subrange(0, i + 1 as int));
            }
            i = i + 1;
        }
        proof {
            assert(pts@ =~= self.points@);
        }
        MazeState {
            points: pts,
            height: self.height,
            width: self.width,
            turn: self.turn,
            character: self.character,
            game_score: self.game_score,
            first_action: self.first_action,
            end_turn: self.end_turn,
        }
    }
}

/// Every legal move lies on the grid.
pub proof fn lemma_legal_in_bounds(s: MazeState)
    requires
        s.wf(),
    ensures
        forall|i: int| 0 <= i < s.legal_seq().len() ==> s.in_bounds(#[trigger] s.legal_seq()[i]),
{
}

/// A state has a legal move exactly when the grid has at least two cells:
/// a single-cell grid is the one degenerate configuration.
pub proof fn lemma_legal_nonempty(s: MazeState)
    requires
        s.wf(),
    ensures
        s.legal_seq().len() > 0 <==> (s.width >= 2 || s.height >= 2),
{
}

/// Any member of the legal-move set lies on the grid.
pub proof fn lemma_legal_member_in_bounds(s: MazeState, c: Coord)
    requires
        s.wf(),
        s.legal_seq().contains(c),
    ensures
        s.in_bounds(c),
{
    lemma_legal_in_bounds(s);
    let i = choose|i: int| 0 <= i < s.legal_seq().len() && s.legal_seq()[i] == c;
    assert(s.in_bounds(s.legal_seq()[i]));
}

/// The bounds invariant: a well-formed state keeps the agent on the grid.
/// `new` builds a well-formed state and `update` preserves well-formedness,
/// so the agent stays on the grid in every reachable state.
pub proof fn lemma_bounds_invariant(s: MazeState)
    requires
        s.wf(),
    ensures
        0 <= s.character.x < s.width,
        0 <= s.character.y < s.height,
{
}

} // verus!
