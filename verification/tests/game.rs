use maze_beam::state::Coord;
use maze_beam::state::MazeState;
use maze_beam::strategy::greedy_action;
use maze_beam::strategy::random_action;
use maze_beam::rng::rng_from_seed;

// A 3x4 grid, horizon 4, agent at (1, 1):
//   row 0:  0 5 0 0
//   row 1:  1 0 7 0
//   row 2:  0 2 0 0
fn grid_state() -> MazeState {
    MazeState {
        points: vec![0, 5, 0, 0, 1, 0, 7, 0, 0, 2, 0, 0],
        height: 3,
        width: 4,
        turn: 0,
        character: Coord { x: 1, y: 1 },
        game_score: 0,
        first_action: None,
        end_turn: 4,
    }
}

fn one_cell_state() -> MazeState {
    MazeState {
        points: vec![0],
        height: 1,
        width: 1,
        turn: 0,
        character: Coord { x: 0, y: 0 },
        game_score: 0,
        first_action: None,
        end_turn: 4,
    }
}

#[test]
fn legal_coords_order() {
    let s = grid_state();
    let legal = s.legal_coords();
    assert_eq!(
        legal,
        vec![
            Coord { x: 0, y: 1 },
            Coord { x: 2, y: 1 },
            Coord { x: 1, y: 0 },
            Coord { x: 1, y: 2 },
        ]
    );
}

#[test]
fn legal_coords_corner() {
    let mut s = grid_state();
    s.character = Coord { x: 0, y: 0 };
    let legal = s.legal_coords();
    assert_eq!(legal, vec![Coord { x: 1, y: 0 }, Coord { x: 0, y: 1 }]);
}

#[test]
fn legal_coords_empty_on_one_cell_grid() {
    let s = one_cell_state();
    assert_eq!(s.legal_coords().len(), 0);
}

#[test]
fn advance_probes_score_plus_reward() {
    let s = grid_state();
    assert_eq!(s.advance(Coord { x: 0, y: 1 }), 1);
    assert_eq!(s.advance(Coord { x: 2, y: 1 }), 7);
    assert_eq!(s.advance(Coord { x: 1, y: 0 }), 5);
    assert_eq!(s.advance(Coord { x: 1, y: 2 }), 2);
}

#[test]
fn update_commits_a_move() {
    let mut s = grid_state();
    s.update(Coord { x: 2, y: 1 });
    assert_eq!(s.game_score, 7);
    assert_eq!(s.turn, 1);
    assert_eq!(s.character, Coord { x: 2, y: 1 });
    assert_eq!(s.points[1 * 4 + 2], 0);
    assert!(!s.is_done());
}

#[test]
fn reward_consumed_once_per_lineage() {
    let mut s = grid_state();
    s.update(Coord { x: 2, y: 1 });
    // Probing the committed move again yields the score unchanged.
    assert_eq!(s.advance(Coord { x: 2, y: 1 }), s.game_score);
    // Stepping away and back still finds the cell empty.
    s.update(Coord { x: 1, y: 1 });
    assert_eq!(s.game_score, 7);
    s.update(Coord { x: 2, y: 1 });
    assert_eq!(s.game_score, 7);
}

#[test]
fn position_stays_in_bounds_and_score_never_drops() {
    let mut s = MazeState::new(3, 4, 4, 9);
    let mut prev_score = s.game_score;
    while !s.is_done() {
        let action = greedy_action(&s).expect("a 3x4 grid always has a legal move");
        s.update(action);
        assert!(s.character.x < s.width);
        assert!(s.character.y < s.height);
        assert!(s.game_score >= prev_score);
        prev_score = s.game_score;
    }
    assert_eq!(s.turn, 4);
}

#[test]
fn construction_is_deterministic_for_a_seed() {
    let a = MazeState::new(3, 4, 4, 42);
    let b = MazeState::new(3, 4, 4, 42);
    assert_eq!(a.points, b.points);
    assert_eq!(a.character, b.character);
    assert_eq!(a.turn, 0);
    assert_eq!(a.game_score, 0);
    assert_eq!(a.end_turn, 4);
    assert!(a.first_action.is_none());
}

#[test]
fn construction_shape_and_start_cell() {
    let s = MazeState::new(3, 4, 4, 17);
    assert_eq!(s.points.len(), 12);
    assert!(s.character.x < 4 && s.character.y < 3);
    assert_eq!(s.points[s.character.y * 4 + s.character.x], 0);
    for p in &s.points {
        assert!(0 <= *p && *p <= 9);
    }
}

#[test]
fn greedy_takes_the_highest_probe() {
    let s = grid_state();
    let chosen = greedy_action(&s).unwrap();
    assert_eq!(chosen, Coord { x: 2, y: 1 });
    let best = s.advance(chosen);
    for m in s.legal_coords() {
        assert!(best >= s.advance(m));
    }
}

#[test]
fn greedy_breaks_ties_by_enumeration_order() {
    let mut s = grid_state();
    s.points = vec![0; 12];
    // All probes equal: the first legal move (left) must win.
    let chosen = greedy_action(&s).unwrap();
    assert_eq!(chosen, Coord { x: 0, y: 1 });
}

#[test]
fn greedy_reports_no_move_on_one_cell_grid() {
    let s = one_cell_state();
    assert!(greedy_action(&s).is_none());
}

#[test]
fn random_move_is_legal() {
    let s = grid_state();
    let mut rng = rng_from_seed(3);
    for _ in 0..8 {
        let chosen = random_action(&s, &mut rng).unwrap();
        assert!(s.legal_coords().contains(&chosen));
    }
}

#[test]
fn random_reports_no_move_on_one_cell_grid() {
    let s = one_cell_state();
    let mut rng = rng_from_seed(3);
    assert!(random_action(&s, &mut rng).is_none());
}
