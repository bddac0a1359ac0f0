use npuzzle::board::invert;
use npuzzle::board::solved_pos;
use npuzzle::board::Direction;
use npuzzle::board::Puzzle;
use npuzzle::board::Tile;

#[test]
fn new_is_solved() {
    let p = Puzzle::new();
    assert!(p.is_solved());
    assert_eq!(p.cost, 0);
    assert_eq!(p.empty_pos, (2, 2));
    assert_eq!(p.grid[0][0], Tile::Number(1));
    assert_eq!(p.grid[1][1], Tile::Number(5));
    assert_eq!(p.grid[2][1], Tile::Number(8));
    assert_eq!(p.grid[2][2], Tile::Empty);
}

#[test]
fn invert_involution() {
    for d in [Direction::Up, Direction::Down, Direction::Left, Direction::Right] {
        assert_eq!(invert(invert(d)), d);
    }
    assert_eq!(invert(Direction::Left), Direction::Right);
    assert_eq!(invert(Direction::Up), Direction::Down);
}

#[test]
fn solved_pos_goals() {
    assert_eq!(solved_pos(1), (0, 0));
    assert_eq!(solved_pos(3), (0, 2));
    assert_eq!(solved_pos(5), (1, 1));
    assert_eq!(solved_pos(8), (2, 1));
}

#[test]
fn cost_cached_after_new_and_slides() {
    let mut p = Puzzle::new();
    assert_eq!(p.cost, p.compute_cost());
    for d in [Direction::Left, Direction::Up, Direction::Right, Direction::Down] {
        p.slide(d);
        assert_eq!(p.cost, p.compute_cost());
    }
}

#[test]
fn cost_cached_after_scramble() {
    let mut p = Puzzle::new();
    p.scramble(25, 7);
    assert_eq!(p.cost, p.compute_cost());
}

#[test]
fn is_solved_iff_cost_zero() {
    let mut p = Puzzle::new();
    assert!(p.is_solved() == (p.cost == 0));
    assert!(p.is_solved());
    assert!(p.slide(Direction::Left));
    assert!(p.is_solved() == (p.cost == 0));
    assert!(!p.is_solved());
    assert!(p.cost > 0);
}

#[test]
fn one_slide_costs_two() {
    // the tile and the blank each move one step away from home
    let mut p = Puzzle::new();
    assert!(p.slide(Direction::Left));
    assert_eq!(p.compute_cost(), 2);
}

#[test]
fn illegal_slides_at_corner() {
    // blank starts at the bottom-right corner: only Left and Up are legal
    let mut p = Puzzle::new();
    assert!(!p.slide(Direction::Right));
    assert!(!p.slide(Direction::Down));
    let q = p.clone();
    assert_eq!(p, q);
    assert!(p.slide(Direction::Left));
    assert!(p.slide(Direction::Up));
}

#[test]
fn slide_roundtrip_restores_board() {
    let mut p = Puzzle::new();
    p.scramble(9, 3);
    for d in [Direction::Left, Direction::Up, Direction::Right, Direction::Down] {
        let before = p.clone();
        if p.slide(d) {
            assert!(p.slide(invert(d)));
            assert_eq!(p, before);
        } else {
            assert_eq!(p, before);
        }
    }
}

#[test]
fn fingerprint_of_solved_board() {
    // row-major digits 1..8 then 0, packed base 16
    let p = Puzzle::new();
    assert_eq!(p.uniq(), 0x123456780);
}

#[test]
fn fingerprint_changes_with_blank_position() {
    // two boards with the same numeric placement except for the blank's
    // position: the blank's zero digit makes the fingerprints differ
    let a = Puzzle::new();
    let mut b = Puzzle::new();
    assert!(b.slide(Direction::Left));
    assert_ne!(a.uniq(), b.uniq());
}

#[test]
fn fingerprint_injective_over_enumerated_states() {
    // walk every state reachable in at most six slides and check that no
    // two distinct grids share a fingerprint
    let mut seen: std::collections::HashMap<u64, Puzzle> = std::collections::HashMap::new();
    let root = Puzzle::new();
    seen.insert(root.uniq(), root.clone());
    let mut layer = vec![root];
    for _ in 0..7 {
        let mut next_layer = Vec::new();
        for b in &layer {
            for d in [Direction::Left, Direction::Right, Direction::Up, Direction::Down] {
                let mut n = b.clone();
                if n.slide(d) {
                    let fp = n.uniq();
                    match seen.get(&fp) {
                        Some(old) => assert_eq!(old.grid, n.grid),
                        None => {
                            seen.insert(fp, n.clone());
                            next_layer.push(n);
                        }
                    }
                }
            }
        }
        layer = next_layer;
    }
    assert!(seen.len() > 100);
}

#[test]
fn cost_moves_by_at_most_two_per_slide() {
    for seed in 0..8 {
        let mut p = Puzzle::new();
        p.scramble(seed * 3, seed as u64);
        for d in [Direction::Left, Direction::Right, Direction::Up, Direction::Down] {
            let before = p.cost as i64;
            if p.slide(d) {
                let delta = p.cost as i64 - before;
                assert!(delta == -2 || delta == 0 || delta == 2);
                assert!(p.slide(invert(d)));
            }
        }
    }
}

#[test]
fn scramble_deterministic_for_seed() {
    let mut a = Puzzle::new();
    let mut b = Puzzle::new();
    a.scramble(30, 12345);
    b.scramble(30, 12345);
    assert_eq!(a, b);
}

#[test]
fn render_solved_board() {
    let p = Puzzle::new();
    assert_eq!(p.render(), "1 2 3\n4 5 6\n7 8 _\n");
}

#[test]
fn render_after_slide() {
    let mut p = Puzzle::new();
    assert!(p.slide(Direction::Left));
    assert_eq!(p.render(), "1 2 3\n4 5 6\n7 _ 8\n");
}

#[test]
fn swap_exchanges_cells() {
    let mut p = Puzzle::new();
    p.swap((0, 0), (1, 1));
    assert_eq!(p.grid[0][0], Tile::Number(5));
    assert_eq!(p.grid[1][1], Tile::Number(1));
    assert_eq!(p.cost, p.compute_cost());
    assert!(p.cost > 0);
}

#[test]
fn swap_with_empty_moves_blank() {
    let mut p = Puzzle::new();
    assert!(p.swap_with_empty((0, 0)));
    assert_eq!(p.empty_pos, (0, 0));
    assert_eq!(p.grid[0][0], Tile::Empty);
    assert_eq!(p.grid[2][2], Tile::Number(1));
    assert_eq!(p.cost, p.compute_cost());
}
