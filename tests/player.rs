use maze3d::map::{make_new_data, GridPos, Maze, MAP_GRIDS_HEIGHT, MAP_GRIDS_WIDTH};
use maze3d::news::News;
use maze3d::player::{
    catch_input_keyboard, move_player, rotate_player, spawn_entity, spawn_facing, InAction, KeyCode, Player, Tween,
    UNIT_MOVE, UNIT_TURN,
};

fn carved(seed: u64) -> Maze {
    let mut m = Maze::new(MAP_GRIDS_WIDTH, MAP_GRIDS_HEIGHT, seed);
    make_new_data(&mut m);
    m
}

fn ahead(p: &Player, d: News) -> GridPos {
    let (dx, dy) = d.offset();
    GridPos { x: p.position.x + dx, y: p.position.y + dy }
}

/// A player at rest on the start, facing a wall.
fn facing_wall(m: &Maze) -> Player {
    for d in [News::North, News::East, News::South, News::West] {
        let p = Player { position: m.start(), direction: d, in_action: InAction::Stop };
        if m.is_wall(ahead(&p, d)) {
            return p;
        }
    }
    panic!("start is open on all four sides");
}

#[test]
fn forward_into_wall_is_ignored() {
    let m = carved(1234567890);
    let mut p = facing_wall(&m);
    let before = p;
    catch_input_keyboard(&mut p, &m, false, &vec![KeyCode::Up]);
    assert_eq!(p, before);
}

#[test]
fn backward_into_wall_is_ignored() {
    let m = carved(1234567890);
    let w = facing_wall(&m);
    let mut p = Player { direction: w.direction.back(), ..w };
    let before = p;
    catch_input_keyboard(&mut p, &m, false, &vec![KeyCode::Down]);
    assert_eq!(p, before);
}

#[test]
fn forward_into_open_cell_moves_at_once() {
    let m = carved(1234567890);
    let mut p = spawn_entity(&m, 17);
    let target = ahead(&p, p.direction);
    assert!(m.is_space(target));
    catch_input_keyboard(&mut p, &m, false, &vec![KeyCode::Up]);
    assert_eq!(p.position, target);
    assert_eq!(p.in_action, InAction::Forward);
    assert!(p.is_move());
    assert!(!p.is_stop());
}

#[test]
fn backward_into_open_cell_moves_at_once() {
    let m = carved(1234567890);
    let s = spawn_entity(&m, 17);
    let mut p = Player { direction: s.direction.back(), ..s };
    catch_input_keyboard(&mut p, &m, false, &vec![KeyCode::Down]);
    assert_eq!(p.position, ahead(&s, s.direction));
    assert_eq!(p.direction, s.direction.back());
    assert_eq!(p.in_action, InAction::Backward);
}

#[test]
fn turn_right_commits_then_settles() {
    let m = carved(7);
    let mut p = spawn_entity(&m, 17);
    let d = p.direction;
    catch_input_keyboard(&mut p, &m, false, &vec![KeyCode::Right]);
    assert_eq!(p.direction, d.turn_right());
    assert_eq!(p.in_action, InAction::TurnRight);
    assert!(p.is_turn());
    let mut progress = 0u64;
    assert_eq!(rotate_player(&mut p, &mut progress, 400), Tween::Partial(-400));
    assert_eq!(p.in_action, InAction::TurnRight);
    assert_eq!(progress, 400);
    assert_eq!(rotate_player(&mut p, &mut progress, 600), Tween::Snap);
    assert_eq!(p.in_action, InAction::Stop);
    assert_eq!(progress, 0);
    assert_eq!(p.direction, d.turn_right());
}

#[test]
fn turn_left_in_one_tick() {
    let m = carved(7);
    let mut p = spawn_entity(&m, 17);
    let d = p.direction;
    catch_input_keyboard(&mut p, &m, false, &vec![KeyCode::Left]);
    assert_eq!(p.direction, d.turn_left());
    assert_eq!(p.in_action, InAction::TurnLeft);
    let mut progress = 0u64;
    assert_eq!(rotate_player(&mut p, &mut progress, 1), Tween::Partial(1));
    assert_eq!(rotate_player(&mut p, &mut progress, UNIT_TURN * 5), Tween::Snap);
    assert_eq!((p.in_action, progress), (InAction::Stop, 0));
}

#[test]
fn integrators_hold_at_rest() {
    let m = carved(3);
    let mut p = spawn_entity(&m, 17);
    let before = p;
    let mut progress = 0u64;
    assert_eq!(rotate_player(&mut p, &mut progress, 500), Tween::Hold);
    assert_eq!(move_player(&mut p, &mut progress, 500), Tween::Hold);
    assert_eq!((p, progress), (before, 0));
}

#[test]
fn rotate_ignores_a_move_and_move_ignores_a_turn() {
    let m = carved(3);
    let mut p = spawn_entity(&m, 17);
    catch_input_keyboard(&mut p, &m, false, &vec![KeyCode::Up]);
    let mut progress = 10u64;
    assert_eq!(rotate_player(&mut p, &mut progress, 2000), Tween::Hold);
    assert_eq!((p.in_action, progress), (InAction::Forward, 10));
    let mut q = Player { in_action: InAction::TurnLeft, ..p };
    assert_eq!(move_player(&mut q, &mut progress, 2000), Tween::Hold);
    assert_eq!(q.in_action, InAction::TurnLeft);
}

#[test]
fn move_settles_after_one_unit() {
    let m = carved(11);
    let mut p = spawn_entity(&m, 17);
    catch_input_keyboard(&mut p, &m, false, &vec![KeyCode::Up]);
    let mut progress = 0u64;
    for _ in 0..3 {
        assert_eq!(move_player(&mut p, &mut progress, 300), Tween::Partial(300));
    }
    assert_eq!(progress, 900);
    assert_eq!(move_player(&mut p, &mut progress, 100), Tween::Snap);
    assert_eq!((p.in_action, progress), (InAction::Stop, 0));
    assert_eq!(UNIT_MOVE, 1000);
}

#[test]
fn backward_move_interpolates_negatively() {
    let m = carved(11);
    let s = spawn_entity(&m, 17);
    let mut p = Player { direction: s.direction.back(), ..s };
    catch_input_keyboard(&mut p, &m, false, &vec![KeyCode::Down]);
    let mut progress = 0u64;
    assert_eq!(move_player(&mut p, &mut progress, 250), Tween::Partial(-250));
}

#[test]
fn no_input_while_busy() {
    let m = carved(5);
    let mut p = spawn_entity(&m, 17);
    catch_input_keyboard(&mut p, &m, false, &vec![KeyCode::Right]);
    let busy = p;
    catch_input_keyboard(&mut p, &m, false, &vec![KeyCode::Left, KeyCode::Up]);
    assert_eq!(p, busy);
}

#[test]
fn no_input_while_overview_camera_active() {
    let m = carved(5);
    let mut p = spawn_entity(&m, 17);
    let before = p;
    catch_input_keyboard(&mut p, &m, true, &vec![KeyCode::Right, KeyCode::Up]);
    assert_eq!(p, before);
}

#[test]
fn only_first_action_of_a_tick() {
    let m = carved(5);
    let mut p = spawn_entity(&m, 17);
    let d = p.direction;
    catch_input_keyboard(&mut p, &m, false, &vec![KeyCode::Other, KeyCode::Left, KeyCode::Right, KeyCode::Up]);
    assert_eq!(p.direction, d.turn_left());
    assert_eq!(p.in_action, InAction::TurnLeft);
    assert_eq!(p.position, m.start());
}

#[test]
fn blocked_press_lets_next_press_act() {
    let m = carved(1234567890);
    let mut p = facing_wall(&m);
    let d = p.direction;
    catch_input_keyboard(&mut p, &m, false, &vec![KeyCode::Up, KeyCode::Right]);
    assert_eq!(p.direction, d.turn_right());
    assert_eq!(p.in_action, InAction::TurnRight);
}

#[test]
fn spawn_faces_an_open_side() {
    for seed in [0u64, 1, 2, 1234567890] {
        let m = carved(seed);
        let sides = m.get_sides_space(m.start());
        for k in 0..10u64 {
            let p = spawn_entity(&m, k);
            assert_eq!(p.position, m.start());
            assert!(p.is_stop());
            assert!(sides.contains(&p.direction));
        }
    }
}

#[test]
fn spawn_facing_picks_by_index() {
    let m = carved(1234567890);
    let sides = m.get_sides_space(m.start());
    for k in 0..8usize {
        let p = spawn_facing(&m, k);
        assert_eq!(p.direction, sides[k % sides.len()]);
        assert_eq!(p.position, m.start());
        assert_eq!(p.in_action, InAction::Stop);
    }
}

#[test]
fn spawn_with_same_seed_faces_the_same_way() {
    let m = carved(1234567890);
    for seed in [0u64, 5, 99] {
        assert_eq!(spawn_entity(&m, seed), spawn_entity(&m, seed));
    }
}

#[test]
fn turn_settles_on_the_tick_that_crosses_a_quarter() {
    let m = carved(9);
    let mut p = spawn_entity(&m, 1);
    catch_input_keyboard(&mut p, &m, false, &vec![KeyCode::Right]);
    let mut progress = 0u64;
    assert_eq!(rotate_player(&mut p, &mut progress, 300), Tween::Partial(-300));
    assert_eq!(rotate_player(&mut p, &mut progress, 300), Tween::Partial(-300));
    assert_eq!(p.in_action, InAction::TurnRight);
    assert_eq!(rotate_player(&mut p, &mut progress, 500), Tween::Snap);
    assert_eq!((p.in_action, progress), (InAction::Stop, 0));
    assert_eq!(rotate_player(&mut p, &mut progress, 500), Tween::Hold);
}
