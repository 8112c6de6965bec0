use maze_beam::episode::run_episode_beam;
use maze_beam::episode::run_episode_beam_timed;
use maze_beam::episode::run_episode_greedy;
use maze_beam::episode::run_episode_random;
use maze_beam::rng::rng_from_seed;
use maze_beam::search::beamsearch_action;
use maze_beam::search::beamsearch_action_with_timelimit;
use maze_beam::state::Coord;
use maze_beam::state::MazeState;
use maze_beam::strategy::greedy_action;
use maze_beam::timer::TimeKeeper;

// A 3x4 grid, horizon 4, agent at (1, 1):
//   row 0:  0 5 0 0
//   row 1:  1 0 7 0
//   row 2:  0 2 0 0
// The best four-turn lineage collects 7 + 5 = 12.
fn grid_state() -> MazeState {
    MazeState {
        points: vec![0, 5, 0, 0, 1, 0, 7, 0, 0, 2, 0, 0],
        height: 3,
        width: 4,
        turn: 0,
        character: Coord { x: 1, y: 1 },
        game_score: 0,
        first_action: None,
        end_turn: 4,
    }
}

fn one_cell_state() -> MazeState {
    MazeState {
        points: vec![0],
        height: 1,
        width: 1,
        turn: 0,
        character: Coord { x: 0, y: 0 },
        game_score: 0,
        first_action: None,
        end_turn: 4,
    }
}

#[test]
fn beam_depth_zero_finds_no_move() {
    let s = grid_state();
    assert!(beamsearch_action(&s, 2, 0).is_none());
}

#[test]
fn beam_on_terminal_state_finds_no_move() {
    let mut s = grid_state();
    s.turn = 4;
    assert!(beamsearch_action(&s, 2, 4).is_none());
}

#[test]
fn beam_on_one_cell_grid_finds_no_move() {
    let s = one_cell_state();
    assert!(beamsearch_action(&s, 2, 4).is_none());
}

#[test]
fn beam_finds_the_best_lineage_first_move() {
    let s = grid_state();
    assert_eq!(beamsearch_action(&s, 2, 4), Some(Coord { x: 2, y: 1 }));
}

#[test]
fn beam_width_one_matches_iterated_greedy() {
    let s = grid_state();
    for depth in 1..5u32 {
        let mut sim = s.duplicate();
        let mut first = None;
        for d in 0..depth {
            if sim.is_done() {
                break;
            }
            let a = greedy_action(&sim).unwrap();
            if d == 0 {
                first = Some(a);
            }
            sim.update(a);
        }
        assert_eq!(beamsearch_action(&s, 1, depth), first);
    }
}

#[test]
fn beam_depth_one_is_greedy_for_every_width() {
    let s = grid_state();
    let greedy = greedy_action(&s);
    for width in 1..6u32 {
        assert_eq!(beamsearch_action(&s, width, 1), greedy);
    }
}

#[test]
fn wider_beams_never_score_worse_here() {
    let mut s1 = grid_state();
    let mut s2 = grid_state();
    let mut s3 = grid_state();
    let r1 = run_episode_beam(&mut s1, 1, 4).unwrap();
    let r2 = run_episode_beam(&mut s2, 2, 4).unwrap();
    let r3 = run_episode_beam(&mut s3, 3, 4).unwrap();
    assert!(r1 <= r2 && r2 <= r3);
    assert_eq!(r1, 12);
    assert_eq!(r3, 12);
}

#[test]
fn narrow_and_wide_beams_can_part_ways() {
    // A 2x5 grid, horizon 3, agent at (2, 0):
    //   row 0:  0 9 0 8 9
    //   row 1:  9 0 0 2 0
    // The narrow beam follows the left lineage (9, then 9 below the corner,
    // 18 in all); the wide beam also funds the right lineage, whose quick
    // 8 + 9 = 17 then crowds the left lineage out of the popped set.
    let s = MazeState {
        points: vec![0, 9, 0, 8, 9, 9, 0, 0, 2, 0],
        height: 2,
        width: 5,
        turn: 0,
        character: Coord { x: 2, y: 0 },
        game_score: 0,
        first_action: None,
        end_turn: 3,
    };
    assert_eq!(beamsearch_action(&s, 1, 3), Some(Coord { x: 1, y: 0 }));
    assert_eq!(beamsearch_action(&s, 2, 3), Some(Coord { x: 3, y: 0 }));
    let mut narrow = s.duplicate();
    let mut wide = s.duplicate();
    assert_eq!(run_episode_beam(&mut narrow, 1, 3), Some(18));
    assert_eq!(run_episode_beam(&mut wide, 2, 3), Some(17));
}

#[test]
fn timed_beam_with_no_budget_finds_no_move() {
    let s = grid_state();
    assert!(beamsearch_action_with_timelimit(&s, 2, 0).is_none());
}

#[test]
fn timed_beam_with_a_generous_budget_matches_fixed_depth() {
    let s = grid_state();
    assert_eq!(
        beamsearch_action_with_timelimit(&s, 2, 10_000),
        beamsearch_action(&s, 2, 4)
    );
}

#[test]
fn timed_beam_width_one_returns_the_greedy_move_or_nothing() {
    let s = grid_state();
    let r = beamsearch_action_with_timelimit(&s, 1, 10_000);
    assert!(r.is_none() || r == greedy_action(&s));
}

#[test]
fn timed_beam_on_terminal_state_finds_no_move() {
    let mut s = grid_state();
    s.turn = 4;
    assert!(beamsearch_action_with_timelimit(&s, 2, 10_000).is_none());
}

#[test]
fn time_keeper_trips_exactly_on_its_budget() {
    let spent = TimeKeeper::new(0);
    assert!(spent.is_timeover());
    let fresh = TimeKeeper::new(600_000);
    assert!(!fresh.is_timeover());
}

#[test]
fn budget_comparison_on_plain_values() {
    assert!(maze_beam::timer::budget_elapsed(0, 0));
    assert!(maze_beam::timer::budget_elapsed(17, 0));
    assert!(maze_beam::timer::budget_elapsed(10, 10));
    assert!(!maze_beam::timer::budget_elapsed(9, 10));
}

#[test]
fn finished_episode_reports_its_score_untouched() {
    let mut s = grid_state();
    s.turn = 4;
    s.game_score = 3;
    assert_eq!(run_episode_greedy(&mut s), Some(3));
    assert_eq!(s.turn, 4);
    let mut t = grid_state();
    t.turn = 4;
    t.game_score = 5;
    assert_eq!(run_episode_beam_timed(&mut t, 2, 10_000), Some(5));
}

#[test]
fn timed_episode_aborts_on_a_one_cell_grid() {
    let mut s = one_cell_state();
    assert!(run_episode_beam_timed(&mut s, 2, 10_000).is_none());
}

#[test]
fn greedy_episode_collects_twelve() {
    let mut s = grid_state();
    assert_eq!(run_episode_greedy(&mut s), Some(12));
    assert!(s.is_done());
}

#[test]
fn beam_episode_collects_twelve() {
    let mut s = grid_state();
    assert_eq!(run_episode_beam(&mut s, 2, 4), Some(12));
    assert!(s.is_done());
}

#[test]
fn timed_beam_episode_collects_twelve() {
    let mut s = grid_state();
    assert_eq!(run_episode_beam_timed(&mut s, 2, 10_000), Some(12));
    assert!(s.is_done());
}

#[test]
fn random_episode_completes() {
    let mut s = MazeState::new(3, 4, 4, 5);
    let mut rng = rng_from_seed(1);
    let score = run_episode_random(&mut s, &mut rng).unwrap();
    assert!(score >= 0);
    assert!(s.is_done());
}

#[test]
fn episodes_abort_on_a_one_cell_grid() {
    let mut s = one_cell_state();
    assert!(run_episode_greedy(&mut s).is_none());
    let mut s = one_cell_state();
    assert!(run_episode_beam(&mut s, 2, 4).is_none());
}
