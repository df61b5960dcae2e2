use maze::grid::{Cell, Maze};
use rand::rngs::StdRng;
use rand::SeedableRng;

fn snapshot(m: &Maze) -> Vec<Cell> {
    let mut v = Vec::new();
    for x in 0..m.width {
        for y in 0..m.height {
            v.push(m.get(x, y));
        }
    }
    v
}

fn count_state(m: &Maze, c: Cell) -> usize {
    snapshot(m).iter().filter(|&&s| s == c).count()
}

#[test]
fn new_grid_has_open_border_and_walled_interior() {
    let m = Maze::new(7, 5);
    for x in 0..7 {
        for y in 0..5 {
            let border = x == 0 || y == 0 || x == 6 || y == 4;
            let expected = if border { Cell::Way } else { Cell::Wall };
            assert_eq!(m.get(x, y), expected);
        }
    }
}

#[test]
fn five_by_five_degenerates_to_goal_at_seed() {
    let mut rng = StdRng::seed_from_u64(7);
    let mut m = Maze::new(5, 5);
    m.make_maze(&mut rng);
    for x in 0..5 {
        for y in 0..5 {
            let border = x == 0 || y == 0 || x == 4 || y == 4;
            let expected = if border {
                Cell::Way
            } else if x == 2 && y == 2 {
                Cell::Goal
            } else {
                Cell::Wall
            };
            assert_eq!(m.get(x, y), expected, "at ({}, {})", x, y);
        }
    }
}

#[test]
fn generation_leaves_only_walls_ways_and_one_goal() {
    let mut rng = StdRng::seed_from_u64(11);
    let mut m = Maze::new(9, 7);
    m.make_maze(&mut rng);
    let mut goals = 0;
    for x in 0..9 {
        for y in 0..7 {
            let c = m.get(x, y);
            if x == 0 || y == 0 || x == 8 || y == 6 {
                assert_eq!(c, Cell::Way);
            }
            assert!(c != Cell::Route);
            if c == Cell::Goal {
                goals += 1;
                assert_eq!((x, y), (6, 4));
            }
        }
    }
    assert_eq!(goals, 1);
}

#[test]
fn generation_never_builds_open_blocks() {
    let mut rng = StdRng::seed_from_u64(3);
    let mut m = Maze::new(11, 9);
    m.make_maze(&mut rng);
    for x in 0..10 {
        for y in 0..8 {
            let open = |c: Cell| c != Cell::Wall;
            assert!(
                !(open(m.get(x, y))
                    && open(m.get(x + 1, y))
                    && open(m.get(x, y + 1))
                    && open(m.get(x + 1, y + 1))),
                "open block at ({}, {})",
                x,
                y
            );
        }
    }
}

#[test]
fn generation_connects_every_passage() {
    let mut rng = StdRng::seed_from_u64(5);
    let mut m = Maze::new(13, 11);
    m.make_maze(&mut rng);
    // Breadth-first sweep over interior passable squares from the goal.
    let w = m.width;
    let h = m.height;
    let mut seen = vec![false; w * h];
    let mut queue = vec![(w - 3, h - 3)];
    seen[(w - 3) * h + (h - 3)] = true;
    while let Some((x, y)) = queue.pop() {
        let mut push = |nx: usize, ny: usize, seen: &mut Vec<bool>, queue: &mut Vec<(usize, usize)>| {
            if nx >= 1 && ny >= 1 && nx < w - 1 && ny < h - 1 && !seen[nx * h + ny] {
                let c = m.get(nx, ny);
                if c == Cell::Way || c == Cell::Goal {
                    seen[nx * h + ny] = true;
                    queue.push((nx, ny));
                }
            }
        };
        push(x + 1, y, &mut seen, &mut queue);
        push(x - 1, y, &mut seen, &mut queue);
        push(x, y + 1, &mut seen, &mut queue);
        push(x, y - 1, &mut seen, &mut queue);
    }
    for x in 1..w - 1 {
        for y in 1..h - 1 {
            let c = m.get(x, y);
            if c == Cell::Way || c == Cell::Goal {
                assert!(seen[x * h + y], "unreached passage at ({}, {})", x, y);
            }
        }
    }
}

#[test]
fn generation_is_deterministic_for_equal_seeds() {
    let mut rng1 = StdRng::seed_from_u64(42);
    let mut rng2 = StdRng::seed_from_u64(42);
    let mut m1 = Maze::new(9, 9);
    let mut m2 = Maze::new(9, 9);
    m1.make_maze(&mut rng1);
    m2.make_maze(&mut rng2);
    assert_eq!(snapshot(&m1), snapshot(&m2));
}

#[test]
fn search_on_goal_square_reports_entry_depth() {
    let mut m = Maze::new(5, 5);
    m.set(2, 2, Cell::Goal);
    assert_eq!(m.route_search(2, 2, 5), Some(5));
    assert_eq!(m.get(2, 2), Cell::Goal);
}

#[test]
fn search_marks_straight_path_and_counts_it() {
    let mut m = Maze::new(7, 7);
    m.set(2, 2, Cell::Way);
    m.set(3, 2, Cell::Way);
    m.set(4, 2, Cell::Goal);
    assert_eq!(m.route_search(2, 2, 1), Some(3));
    assert_eq!(m.get(2, 2), Cell::Route);
    assert_eq!(m.get(3, 2), Cell::Route);
    assert_eq!(m.get(4, 2), Cell::Goal);
    assert_eq!(count_state(&m, Cell::Route), 2);
}

#[test]
fn failed_search_restores_the_grid_exactly() {
    let mut m = Maze::new(7, 7);
    m.set(2, 2, Cell::Way);
    m.set(4, 4, Cell::Goal);
    let before = snapshot(&m);
    assert_eq!(m.route_search(2, 2, 1), None);
    assert_eq!(snapshot(&m), before);
}

#[test]
fn frontier_scan_lists_each_frontier_junction_once() {
    let mut m = Maze::new(7, 7);
    m.set(2, 2, Cell::Way);
    m.set(2, 4, Cell::Way);
    // Both open junctions can still carve; each is listed exactly once, in
    // scan order.
    let xy = m.list_xy();
    assert_eq!(xy, vec![(2, 2), (2, 4)]);
}

#[test]
fn frontier_is_empty_once_the_maze_is_done() {
    let mut rng = StdRng::seed_from_u64(9);
    let mut m = Maze::new(9, 9);
    m.make_maze(&mut rng);
    assert_eq!(m.list_xy(), vec![]);
}

#[test]
fn corridor_growth_opens_walls_from_a_junction() {
    let mut rng = StdRng::seed_from_u64(13);
    let mut m = Maze::new(9, 9);
    m.set(2, 2, Cell::Way);
    let walls_before = count_state(&m, Cell::Wall);
    m.make_way(&mut rng, 2, 2);
    assert!(count_state(&m, Cell::Wall) < walls_before);
}

#[test]
fn regenerate_builds_and_solves_in_one_call() {
    let mut rng = StdRng::seed_from_u64(21);
    let mut m = Maze::new(9, 9);
    let r = m.regenerate(&mut rng);
    assert_eq!(m.get(6, 6), Cell::Goal);
    let d = r.expect("the carved maze always has a route to the goal");
    assert!(d >= 1);
    assert_eq!(count_state(&m, Cell::Route), d - 1);
}
