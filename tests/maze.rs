use maze_gen::cell::MazeCell;
use maze_gen::maze::Maze;
use maze_gen::position::{Direction, Position};

fn bytes(m: &Maze) -> Vec<u8> {
    m.cells_ptr().iter().map(|c| c.0).collect()
}

fn cleared_walls(m: &Maze) -> usize {
    let mut n = 0;
    for y in 0..m.height() {
        for x in 0..m.width() {
            let c = m.get_cell(x, y);
            if x + 1 < m.width() && !c.right() {
                n += 1;
            }
            if y + 1 < m.height() && !c.bottom() {
                n += 1;
            }
        }
    }
    n
}

fn reachable(m: &Maze) -> usize {
    let (w, h) = (m.width(), m.height());
    let mut seen = vec![false; w * h];
    let mut stack = vec![(0usize, 0usize)];
    seen[0] = true;
    let mut count = 0;
    while let Some((x, y)) = stack.pop() {
        count += 1;
        let c = m.get_cell(x, y);
        let mut next = Vec::new();
        if x + 1 < w && !c.right() {
            next.push((x + 1, y));
        }
        if y + 1 < h && !c.bottom() {
            next.push((x, y + 1));
        }
        if x > 0 && !m.get_cell(x - 1, y).right() {
            next.push((x - 1, y));
        }
        if y > 0 && !m.get_cell(x, y - 1).bottom() {
            next.push((x, y - 1));
        }
        for (nx, ny) in next {
            if !seen[nx + ny * w] {
                seen[nx + ny * w] = true;
                stack.push((nx, ny));
            }
        }
    }
    count
}

fn all_visited(m: &Maze) -> bool {
    m.cells_ptr().iter().all(|c| c.visited())
}

fn boundary_closed(m: &Maze) -> bool {
    let (w, h) = (m.width(), m.height());
    (0..h).all(|y| m.get_cell(w - 1, y).right()) && (0..w).all(|x| m.get_cell(x, h - 1).bottom())
}

#[test]
fn one_by_one_maze() {
    let mut m = Maze::from_seed(1, 1, 0);
    assert!(!m.gen_step());
    assert!(m.gen_step());
    let c = m.get_cell(0, 0);
    assert!(c.visited());
    assert!(c.right());
    assert!(c.bottom());
}

#[test]
fn two_by_one_maze_opens_rightward() {
    for seed in 0..10u64 {
        let mut m = Maze::from_seed(2, 1, seed);
        let mut steps = 0;
        loop {
            steps += 1;
            if m.gen_step() {
                break;
            }
        }
        assert_eq!(steps, 4);
        assert!(!m.get_cell(0, 0).right());
        assert!(m.get_cell(1, 0).right());
        assert!(m.get_cell(0, 0).visited());
        assert!(m.get_cell(1, 0).visited());
        let mut again = Maze::from_seed(2, 1, seed);
        assert!(again.generate(None));
        assert_eq!(bytes(&again), bytes(&m));
    }
}

#[test]
fn five_by_five_maze_is_perfect() {
    let mut m = Maze::from_seed(5, 5, 7);
    let mut unfinished_steps = 0;
    while !m.gen_step() {
        unfinished_steps += 1;
    }
    assert!(unfinished_steps <= 49);
    assert_eq!(cleared_walls(&m), 24);
    assert!(all_visited(&m));
    assert_eq!(reachable(&m), 25);
    let mut g = Maze::from_seed(5, 5, 7);
    assert!(g.generate(None));
    assert_eq!(bytes(&g), bytes(&m));
}

#[test]
fn same_seed_same_maze() {
    for (w, h, seed) in [(3, 4, 1u64), (8, 8, 99), (1, 6, 5), (10, 3, 12345)] {
        let mut a = Maze::from_seed(w, h, seed);
        let mut b = Maze::from_seed(w, h, seed);
        assert!(!a.gen_step());
        assert!(!b.gen_step());
        assert_eq!(bytes(&a), bytes(&b));
        assert!(a.generate(None));
        assert!(b.generate(None));
        assert_eq!(bytes(&a), bytes(&b));
    }
}

#[test]
fn seeds_shuffle_the_directions() {
    let mut first = Maze::from_seed(5, 5, 0);
    assert!(first.generate(None));
    let reference = bytes(&first);
    let mut differs = false;
    for seed in 1..20u64 {
        let mut m = Maze::from_seed(5, 5, seed);
        assert!(m.generate(None));
        if bytes(&m) != reference {
            differs = true;
        }
    }
    assert!(differs);
}

#[test]
fn generation_terminates_within_twice_the_cells() {
    for (w, h) in [(1, 1), (2, 3), (7, 4), (12, 12), (1, 20)] {
        let mut m = Maze::from_seed(w, h, 3);
        assert!(m.generate(Some(2 * w * h)));
        let mut n = Maze::from_seed(w, h, 3);
        assert!(!n.generate(Some(2 * w * h - 1)));
        assert!(n.generate(Some(1)));
    }
}

#[test]
fn every_cell_visited_and_tree_spanning() {
    for (w, h) in [(1, 1), (2, 2), (3, 7), (9, 9), (16, 5)] {
        for seed in 0..5u64 {
            let mut m = Maze::from_seed(w, h, seed);
            assert!(m.generate(None));
            assert!(all_visited(&m));
            assert_eq!(cleared_walls(&m), w * h - 1);
            assert_eq!(reachable(&m), w * h);
        }
    }
}

#[test]
fn outer_boundary_stays_closed() {
    for (w, h) in [(1, 1), (4, 2), (6, 6)] {
        let mut m = Maze::from_seed(w, h, 11);
        assert!(boundary_closed(&m));
        while !m.gen_step() {
            assert!(boundary_closed(&m));
        }
        assert!(boundary_closed(&m));
    }
}

#[test]
fn completed_maze_stays_complete() {
    let mut m = Maze::from_seed(4, 4, 2);
    assert!(m.generate(None));
    let done = bytes(&m);
    for _ in 0..5 {
        assert!(m.gen_step());
        assert_eq!(bytes(&m), done);
    }
    assert!(m.generate(Some(1)));
    assert!(m.generate(None));
    assert_eq!(bytes(&m), done);
}

#[test]
fn generation_resumes_after_a_limit() {
    let mut m = Maze::from_seed(6, 3, 21);
    assert!(!m.generate(Some(0)));
    assert!(!m.generate(Some(5)));
    assert!(m.generate(None));
    let mut whole = Maze::from_seed(6, 3, 21);
    assert!(whole.generate(None));
    assert_eq!(bytes(&m), bytes(&whole));
}

#[test]
fn fresh_maze_state() {
    let m = Maze::from_seed(3, 2, 0);
    assert_eq!(m.width(), 3);
    assert_eq!(m.height(), 2);
    assert_eq!(m.cells_ptr().len(), 6);
    let first = m.get_cell(0, 0);
    assert!(first.visited() && first.right() && first.bottom());
    assert_eq!(bytes(&m), vec![7, 6, 6, 6, 6, 6]);
    for y in 0..2 {
        for x in 0..3 {
            if (x, y) != (0, 0) {
                let c = m.get_cell(x, y);
                assert!(!c.visited() && c.right() && c.bottom());
            }
        }
    }
}

#[test]
fn empty_grid_construction() {
    let m = Maze::from_seed(0, 4, 1);
    assert_eq!(m.width(), 0);
    assert_eq!(m.height(), 4);
    assert!(m.cells_ptr().is_empty());
    let n = Maze::new(5, 0).expect("entropy");
    assert!(n.cells_ptr().is_empty());
}

#[test]
fn unseeded_maze_generates() {
    let mut m = Maze::new(6, 4).expect("entropy");
    assert!(m.generate(None));
    assert!(all_visited(&m));
    assert_eq!(cleared_walls(&m), 23);
}

#[test]
fn cell_offset_is_row_major() {
    let m = Maze::from_seed(5, 4, 0);
    assert_eq!(m.get_cell_offset(0, 0), 0);
    assert_eq!(m.get_cell_offset(2, 3), 17);
    assert_eq!(m.get_cell_offset(4, 0), 4);
}

#[test]
fn step_in_given_order() {
    let mut m = Maze::from_seed(2, 2, 0);
    let order = [Direction::Top, Direction::Left, Direction::Bottom, Direction::Right];
    assert!(!m.step_in_order(order));
    assert!(!m.get_cell(0, 0).bottom());
    assert!(m.get_cell(0, 0).right());
    assert!(m.get_cell(0, 1).visited());
    assert!(!m.get_cell(1, 1).visited());
    assert!(!m.step_in_order(order));
    assert!(!m.get_cell(0, 1).right());
    assert!(m.get_cell(1, 1).visited());
    assert!(!m.step_in_order(order));
    assert!(!m.get_cell(1, 0).bottom());
    assert!(m.get_cell(1, 0).visited());
    for _ in 0..4 {
        assert!(!m.step_in_order(order));
    }
    assert!(m.step_in_order(order));
    assert_eq!(cleared_walls(&m), 3);
}

#[test]
fn left_and_top_moves_clear_the_owning_cell() {
    let mut m = Maze::from_seed(2, 2, 0);
    assert!(!m.step_in_order([Direction::Right; 4]));
    assert!(!m.step_in_order([Direction::Bottom; 4]));
    assert!(!m.step_in_order([Direction::Left; 4]));
    assert!(!m.get_cell(0, 1).right());
    assert!(!m.get_cell(1, 0).bottom());
    assert!(!m.get_cell(0, 0).right());
    assert!(m.get_cell(0, 0).bottom());
    let mut t = Maze::from_seed(1, 2, 0);
    assert!(!t.step_in_order([Direction::Bottom; 4]));
    assert!(!t.get_cell(0, 0).bottom());
    assert!(!t.step_in_order([Direction::Top; 4]));
    assert!(!t.step_in_order([Direction::Top; 4]));
    assert!(t.step_in_order([Direction::Top; 4]));
}

#[test]
fn cell_flags_are_independent() {
    let mut c = MazeCell::new();
    assert_eq!(c.0, 6);
    assert!(!c.visited() && c.right() && c.bottom());
    c.set_bottom(false);
    assert_eq!(c.0, 2);
    assert!(!c.visited() && c.right() && !c.bottom());
    c.set_visited(true);
    c.set_bottom(true);
    assert_eq!(c.0, 7);
    c.set_right(false);
    assert_eq!(c.0, 5);
    assert!(c.visited() && !c.right() && c.bottom());
}

#[test]
fn generate_with_zero_limit_changes_nothing() {
    let mut m = Maze::from_seed(3, 3, 4);
    let before = bytes(&m);
    assert!(!m.generate(Some(0)));
    assert_eq!(bytes(&m), before);
}

#[test]
fn direction_moves_at_the_edge_of_usize() {
    let mut p = Position::new(usize::MAX - 1, usize::MAX - 1);
    Direction::Right.apply(&mut p);
    Direction::Bottom.apply(&mut p);
    assert_eq!(p, Position::new(usize::MAX, usize::MAX));
    Direction::Left.apply(&mut p);
    Direction::Top.apply(&mut p);
    assert_eq!(p, Position::new(usize::MAX - 1, usize::MAX - 1));
}

#[test]
fn direction_moves_position() {
    let mut p = Position::new(3, 3);
    Direction::Top.apply(&mut p);
    assert_eq!(p, Position::new(3, 2));
    Direction::Right.apply(&mut p);
    assert_eq!(p, Position::new(4, 2));
    Direction::Left.apply(&mut p);
    Direction::Left.apply(&mut p);
    assert_eq!(p, Position::new(2, 2));
    Direction::Bottom.apply(&mut p);
    assert_eq!((p.x, p.y), (2, 3));
}
