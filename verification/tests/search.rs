use npuzzle::board::invert;
use npuzzle::board::Direction;
use npuzzle::board::Puzzle;
use npuzzle::search::collect;
use npuzzle::search::pop_min;
use npuzzle::search::scramble_and_solve;
use npuzzle::search::solve;
use npuzzle::search::SolutionLink;
use npuzzle::search::TraceEvent;

#[test]
fn solved_root_detected_before_expansion() {
    // an already-solved root: success with an empty path, no edges emitted
    let p = Puzzle::new();
    let r = solve(p);
    let path = r.solution.expect("solved root must be reported solved");
    assert_eq!(path.len(), 0);
    assert_eq!(r.events.len(), 1);
    match &r.events[0] {
        TraceEvent::Node { fp, solved, .. } => {
            assert_eq!(*fp, Puzzle::new().uniq());
            assert!(*solved);
        }
        _ => panic!("first event must announce the root"),
    }
}

#[test]
fn one_move_scramble_solved_by_opposite_move() {
    // scrambled by the single move Left: the solving direction is Right
    let mut p = Puzzle::new();
    assert!(p.slide(Direction::Left));
    let root_fp = p.uniq();
    let r = solve(p);
    let path = r.solution.expect("a one-move scramble must be solved");
    assert_eq!(path.len(), 1);
    assert_eq!(path[0].0, root_fp);
    assert_eq!(path[0].1, Direction::Right);
}

#[test]
fn two_move_scramble_undone_in_reverse_order() {
    // scrambled by Left then Up: the solution is Down then Right
    let mut p = Puzzle::new();
    assert!(p.slide(Direction::Left));
    assert!(p.slide(Direction::Up));
    let r = solve(p.clone());
    let path = r.solution.expect("a two-move scramble must be solved");
    let dirs: Vec<Direction> = path.iter().rev().map(|s| s.1).collect();
    assert_eq!(dirs, vec![Direction::Down, Direction::Right]);
    // and those moves really solve the board
    let mut b = p;
    for d in &dirs {
        assert!(b.slide(*d));
    }
    assert!(b.is_solved());
}

#[test]
fn root_node_event_comes_first() {
    let mut p = Puzzle::new();
    assert!(p.slide(Direction::Left));
    let root_fp = p.uniq();
    let label = p.render();
    let r = solve(p);
    match &r.events[0] {
        TraceEvent::Node { fp, label: l, solved } => {
            assert_eq!(*fp, root_fp);
            assert_eq!(*l, label);
            assert!(!*solved);
        }
        _ => panic!("first event must announce the root"),
    }
    assert!(r
        .events
        .iter()
        .any(|e| matches!(e, TraceEvent::Edge { .. })));
    assert!(r
        .events
        .iter()
        .any(|e| matches!(e, TraceEvent::SolutionEdge { .. })));
}

#[test]
fn solution_edges_run_from_root_to_goal() {
    let mut p = Puzzle::new();
    assert!(p.slide(Direction::Left));
    assert!(p.slide(Direction::Up));
    let root_fp = p.uniq();
    let r = solve(p);
    let greens: Vec<(u64, u64, Direction)> = r
        .events
        .iter()
        .filter_map(|e| match e {
            TraceEvent::SolutionEdge { from, to, dir } => Some((*from, *to, *dir)),
            _ => None,
        })
        .collect();
    assert_eq!(greens.len(), 2);
    assert_eq!(greens[0].0, root_fp);
    // consecutive green edges chain head to tail
    assert_eq!(greens[0].1, greens[1].0);
}

#[test]
fn scrambled_board_solution_really_solves() {
    let mut p = Puzzle::new();
    p.scramble(20, 1);
    let start = p.clone();
    let r = solve(p);
    let path = r.solution.expect("a scrambled board must be solved");
    let mut b = start;
    if b.is_solved() {
        assert_eq!(path.len(), 0);
    } else {
        assert!(!path.is_empty());
    }
    for step in path.iter().rev() {
        assert!(b.slide(step.1));
    }
    assert!(b.is_solved());
}

#[test]
fn pop_order_is_cost_then_fingerprint() {
    // boards at 0, 1 and 2 slides from solved have costs 0, 2 and 4
    let a = Puzzle::new();
    let mut b = Puzzle::new();
    assert!(b.slide(Direction::Left));
    let mut c = Puzzle::new();
    assert!(c.slide(Direction::Left));
    assert!(c.slide(Direction::Up));
    let mut frontier = vec![c.clone(), a.clone(), b.clone()];
    assert_eq!(pop_min(&mut frontier), a);
    assert_eq!(pop_min(&mut frontier), b);
    assert_eq!(pop_min(&mut frontier), c);
    assert_eq!(frontier.len(), 0);
}

#[test]
fn pop_breaks_cost_ties_by_fingerprint_ascending() {
    // the two one-slide neighbours of the solved board both cost 2
    let mut b = Puzzle::new();
    assert!(b.slide(Direction::Left));
    let mut c = Puzzle::new();
    assert!(c.slide(Direction::Up));
    assert_eq!(b.cost, c.cost);
    assert_ne!(b.uniq(), c.uniq());
    let (low, high) = if b.uniq() < c.uniq() { (b, c) } else { (c, b) };
    let mut frontier = vec![high.clone(), low.clone()];
    assert_eq!(pop_min(&mut frontier), low);
    assert_eq!(pop_min(&mut frontier), high);
}

#[test]
fn collect_follows_predecessor_links_to_root() {
    let mut visited = std::collections::HashMap::new();
    visited.insert(50u64, SolutionLink { depth: 0, step: None });
    visited.insert(
        60u64,
        SolutionLink {
            depth: 1,
            step: Some((50, Direction::Right)),
        },
    );
    visited.insert(
        70u64,
        SolutionLink {
            depth: 2,
            step: Some((60, Direction::Up)),
        },
    );
    let path = collect(visited, 70);
    assert_eq!(path, vec![(60, Direction::Up), (50, Direction::Right)]);
}

#[test]
fn collect_of_root_is_empty() {
    let mut visited = std::collections::HashMap::new();
    visited.insert(9u64, SolutionLink { depth: 0, step: None });
    let path = collect(visited, 9);
    assert!(path.is_empty());
}

#[test]
fn scramble_and_solve_always_succeeds() {
    for seed in [0u64, 1, 7, 1234567] {
        let r = scramble_and_solve(18, seed);
        let path = r.solution.expect("a scrambled board is always solvable");
        // replay the returned moves on an identically scrambled board
        let mut b = Puzzle::new();
        b.scramble(18, seed);
        for step in path.iter().rev() {
            assert!(b.slide(step.1));
        }
        assert!(b.is_solved());
    }
}

#[test]
fn search_is_deterministic() {
    let mut a = Puzzle::new();
    a.scramble(15, 99);
    let mut b = Puzzle::new();
    b.scramble(15, 99);
    let ra = solve(a);
    let rb = solve(b);
    assert_eq!(ra.solution, rb.solution);
    assert_eq!(ra.events.len(), rb.events.len());
}
