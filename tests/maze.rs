use maze3d::map::{make_new_data, GridPos, Maze, MAP_GRIDS_HEIGHT, MAP_GRIDS_WIDTH};
use maze3d::news::{News, NEWS};

fn carved(width: i32, height: i32, seed: u64) -> Maze {
    let mut m = Maze::new(width, height, seed);
    make_new_data(&mut m);
    m
}

fn open(m: &Maze, x: i32, y: i32) -> bool {
    m.is_space(GridPos { x, y })
}

fn open_cells(m: &Maze) -> Vec<(i32, i32)> {
    let mut v = Vec::new();
    for x in 0..m.width() {
        for y in 0..m.height() {
            if open(m, x, y) {
                v.push((x, y));
            }
        }
    }
    v
}

fn edge_count(m: &Maze) -> usize {
    let mut n = 0;
    for (x, y) in open_cells(m) {
        if open(m, x + 1, y) {
            n += 1;
        }
        if open(m, x, y + 1) {
            n += 1;
        }
    }
    n
}

fn reachable_from_start(m: &Maze) -> usize {
    let s = m.start();
    let mut seen = vec![vec![false; m.height() as usize]; m.width() as usize];
    let mut stack = vec![(s.x, s.y)];
    seen[s.x as usize][s.y as usize] = true;
    let mut n = 0;
    while let Some((x, y)) = stack.pop() {
        n += 1;
        for (dx, dy) in [(1, 0), (-1, 0), (0, 1), (0, -1)] {
            let (nx, ny) = (x + dx, y + dy);
            if open(m, nx, ny) && !seen[nx as usize][ny as usize] {
                seen[nx as usize][ny as usize] = true;
                stack.push((nx, ny));
            }
        }
    }
    n
}

fn assert_perfect(m: &Maze) {
    let cells = open_cells(m);
    assert!(!cells.is_empty());
    assert_eq!(reachable_from_start(m), cells.len());
    assert_eq!(edge_count(m), cells.len() - 1);
}

fn assert_border_walled(m: &Maze) {
    for x in 0..m.width() {
        for y in 0..m.height() {
            if x == 0 || y == 0 || x == m.width() - 1 || y == m.height() - 1 {
                assert!(m.is_wall(GridPos { x, y }));
                assert!(!m.is_space(GridPos { x, y }));
            }
        }
    }
}

fn assert_no_thick(m: &Maze) {
    for x in 0..m.width() - 1 {
        for y in 0..m.height() - 1 {
            assert!(!(open(m, x, y) && open(m, x + 1, y) && open(m, x, y + 1) && open(m, x + 1, y + 1)));
        }
    }
}

#[test]
fn same_seed_same_maze() {
    let a = carved(MAP_GRIDS_WIDTH, MAP_GRIDS_HEIGHT, 1234567890);
    let b = carved(MAP_GRIDS_WIDTH, MAP_GRIDS_HEIGHT, 1234567890);
    assert_eq!(a.start(), b.start());
    for x in 0..MAP_GRIDS_WIDTH {
        for y in 0..MAP_GRIDS_HEIGHT {
            let c = GridPos { x, y };
            assert_eq!(a.is_wall(c), b.is_wall(c));
            assert_eq!(a.is_space(c), b.is_space(c));
            assert_eq!(a.is_deadend(c), b.is_deadend(c));
        }
    }
}

#[test]
fn different_seeds_give_different_mazes() {
    let a = carved(MAP_GRIDS_WIDTH, MAP_GRIDS_HEIGHT, 1);
    let b = carved(MAP_GRIDS_WIDTH, MAP_GRIDS_HEIGHT, 2);
    let mut differ = false;
    for x in 0..MAP_GRIDS_WIDTH {
        for y in 0..MAP_GRIDS_HEIGHT {
            if a.is_space(GridPos { x, y }) != b.is_space(GridPos { x, y }) {
                differ = true;
            }
        }
    }
    assert!(differ);
}

#[test]
fn generated_maze_is_perfect() {
    for seed in [0u64, 1, 7, 42, 1234567890] {
        let m = carved(MAP_GRIDS_WIDTH, MAP_GRIDS_HEIGHT, seed);
        assert_perfect(&m);
    }
}

#[test]
fn generated_maze_has_wall_border() {
    for seed in [0u64, 3, 1234567890] {
        assert_border_walled(&carved(MAP_GRIDS_WIDTH, MAP_GRIDS_HEIGHT, seed));
    }
}

#[test]
fn generated_maze_has_no_thick_corridor() {
    for seed in [0u64, 5, 99, 1234567890] {
        assert_no_thick(&carved(MAP_GRIDS_WIDTH, MAP_GRIDS_HEIGHT, seed));
    }
}

#[test]
fn start_is_the_open_centre() {
    let m = carved(MAP_GRIDS_WIDTH, MAP_GRIDS_HEIGHT, 1234567890);
    assert_eq!(m.start(), GridPos { x: 25, y: 25 });
    assert!(m.is_space(m.start()));
    assert!(!m.is_wall(m.start()));
}

#[test]
fn maze_covers_most_of_the_interior() {
    let m = carved(MAP_GRIDS_WIDTH, MAP_GRIDS_HEIGHT, 1234567890);
    assert!(open_cells(&m).len() > 49 * 49 / 3);
}

#[test]
fn small_maze_from_centre() {
    for seed in [0u64, 1, 2, 3, 1234567890] {
        let m = carved(5, 5, seed);
        assert_eq!(m.start(), GridPos { x: 2, y: 2 });
        assert!(m.is_space(GridPos { x: 2, y: 2 }));
        assert_border_walled(&m);
        assert_no_thick(&m);
        assert_perfect(&m);
        assert!(open_cells(&m).len() >= 2);
    }
}

#[test]
fn small_maze_takes_one_of_two_shapes() {
    let all: Vec<(i32, i32)> = (1..=3).flat_map(|x| (1..=3).map(move |y| (x, y))).collect();
    let upright: Vec<(i32, i32)> = all.iter().copied().filter(|c| *c != (1, 2) && *c != (3, 2)).collect();
    let sideways: Vec<(i32, i32)> = all.iter().copied().filter(|c| *c != (2, 1) && *c != (2, 3)).collect();
    let mut seen_upright = false;
    let mut seen_sideways = false;
    for seed in 0u64..40 {
        let m = carved(5, 5, seed);
        let cells = open_cells(&m);
        assert_eq!(cells.len(), 7);
        assert_eq!(edge_count(&m), 6);
        assert!(cells == upright || cells == sideways);
        seen_upright |= cells == upright;
        seen_sideways |= cells == sideways;
    }
    assert!(seen_upright && seen_sideways);
}

#[test]
fn small_maze_with_fixed_seed() {
    let a = carved(5, 5, 1234567890);
    let b = carved(5, 5, 1234567890);
    assert_eq!(open_cells(&a), open_cells(&b));
    assert_eq!(open_cells(&a).len(), 7);
}

#[test]
fn carve_step_stops_on_a_finished_maze() {
    let mut m = carved(MAP_GRIDS_WIDTH, MAP_GRIDS_HEIGHT, 1234567890);
    let before = open_cells(&m);
    let s = m.start();
    assert_eq!(m.carve_step(s, 0), None);
    assert_eq!(m.carve_step(s, 3), None);
    assert_eq!(open_cells(&m), before);
    assert!(!m.is_deadend(s));
}

#[test]
fn carve_step_steps_back_to_the_start() {
    let m0 = carved(MAP_GRIDS_WIDTH, MAP_GRIDS_HEIGHT, 42);
    let s = m0.start();
    let mut m = carved(MAP_GRIDS_WIDTH, MAP_GRIDS_HEIGHT, 42);
    for d in m0.get_sides_space(s) {
        let (dx, dy) = d.offset();
        let c = GridPos { x: s.x + dx, y: s.y + dy };
        assert_eq!(m.carve_step(c, 7), Some(s));
        assert!(m.is_deadend(c) && m.is_space(c));
    }
    assert_eq!(open_cells(&m), open_cells(&m0));
}

#[test]
fn carve_step_on_undecided_grid() {
    let mut m = Maze::new(5, 5, 0);
    assert_eq!(m.carve_step(GridPos { x: 2, y: 2 }, 0), None);
    assert!(!m.is_space(GridPos { x: 2, y: 2 }));
    assert!(!m.is_wall(GridPos { x: 2, y: 2 }));
}

#[test]
fn smallest_maze_is_only_its_start() {
    let m = carved(3, 3, 9);
    assert_eq!(open_cells(&m), vec![(1, 1)]);
    assert!(m.get_sides_space(m.start()).is_empty());
}

#[test]
fn queries_outside_the_grid() {
    let m = carved(5, 5, 1);
    for (x, y) in [(-1, 0), (0, -1), (5, 0), (0, 5), (i32::MAX, 2), (i32::MIN, i32::MIN), (2, i32::MAX)] {
        let c = GridPos { x, y };
        assert!(m.is_wall(c));
        assert!(!m.is_space(c));
        assert!(!m.is_deadend(c));
    }
}

#[test]
fn fresh_maze_is_undecided() {
    let m = Maze::new(4, 6, 0);
    assert_eq!(m.width(), 4);
    assert_eq!(m.height(), 6);
    assert_eq!(m.start(), GridPos { x: 0, y: 0 });
    for x in 0..4 {
        for y in 0..6 {
            let c = GridPos { x, y };
            assert!(!m.is_wall(c));
            assert!(!m.is_space(c));
            assert!(!m.is_deadend(c));
        }
    }
}

#[test]
fn dead_ends_cover_the_carved_cells_but_start() {
    let m = carved(MAP_GRIDS_WIDTH, MAP_GRIDS_HEIGHT, 77);
    for (x, y) in open_cells(&m) {
        let c = GridPos { x, y };
        assert_eq!(m.is_deadend(c), c != m.start());
    }
}

#[test]
fn open_sides_in_fixed_order() {
    let m = carved(MAP_GRIDS_WIDTH, MAP_GRIDS_HEIGHT, 1234567890);
    let s = m.start();
    let sides = m.get_sides_space(s);
    let expected: Vec<News> = NEWS
        .iter()
        .copied()
        .filter(|d| {
            let (dx, dy) = d.offset();
            m.is_space(GridPos { x: s.x + dx, y: s.y + dy })
        })
        .collect();
    assert_eq!(sides, expected);
    assert!(!sides.is_empty());
    assert_eq!(m.get_sides_space(s), sides);
}

#[test]
fn open_sides_of_corner() {
    let m = carved(5, 5, 4);
    assert!(m.get_sides_space(GridPos { x: -3, y: -3 }).is_empty());
    assert!(m.get_sides_space(GridPos { x: 0, y: 0 }).is_empty());
}

#[test]
fn direction_algebra() {
    for d in [News::North, News::East, News::South, News::West] {
        assert_eq!(d.turn_right().turn_left(), d);
        assert_eq!(d.back().back(), d);
        assert_eq!(d.turn_right().turn_right(), d.back());
        let (dx, dy) = d.offset();
        let (bx, by) = d.back().offset();
        assert_eq!((dx + bx, dy + by), (0, 0));
    }
    assert_eq!(News::North.turn_right(), News::East);
    assert_eq!(News::North.turn_left(), News::West);
    assert_eq!(News::North.offset(), (0, -1));
    assert_eq!(News::East.offset(), (1, 0));
    assert_eq!(NEWS, [News::South, News::East, News::West, News::North]);
}

/// The footprint of walls that digging `(x, y)` by a step toward `d` needs.
fn footprint(d: News) -> [(i32, i32); 5] {
    match d {
        News::North => [(-1, -1), (0, -1), (1, -1), (-1, 0), (1, 0)],
        News::South => [(-1, 0), (1, 0), (-1, 1), (0, 1), (1, 1)],
        News::West => [(-1, -1), (0, -1), (-1, 0), (-1, 1), (0, 1)],
        News::East => [(0, -1), (1, -1), (1, 0), (0, 1), (1, 1)],
    }
}

#[test]
fn carving_leaves_nothing_to_dig() {
    for (w, h, seed) in [(51, 51, 1234567890u64), (5, 5, 2), (9, 13, 8)] {
        let m = carved(w, h, seed);
        for (x, y) in open_cells(&m) {
            for d in NEWS {
                let (dx, dy) = d.offset();
                let (nx, ny) = (x + dx, y + dy);
                let interior = 1 <= nx && nx < w - 1 && 1 <= ny && ny < h - 1;
                let diggable = m.is_wall(GridPos { x: nx, y: ny })
                    && footprint(d).iter().all(|&(fx, fy)| m.is_wall(GridPos { x: nx + fx, y: ny + fy }));
                assert!(!(interior && diggable));
            }
        }
    }
}
