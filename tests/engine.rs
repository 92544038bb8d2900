use adversarial_2048::ai::{apply_move, new_node, Ai, NodeKey, DEATH_VALUE, EXACT_DEPTH, INF};
use adversarial_2048::grid::{dead_grid, heuristic, merge_line, place, slide};
use adversarial_2048::state::{next_state, Direction, Move, State};
use adversarial_2048::symmetry::{canonical_grid, grid_code, symmetries};

fn dead_exponents() -> [[u8; 4]; 4] {
    [[1, 2, 3, 2], [8, 3, 2, 1], [2, 7, 1, 2], [1, 3, 6, 3]]
}

#[test]
fn empty_children_bug() {
    let key = NodeKey::new(771, [[8, 7, 6, 5], [7, 6, 4, 3], [5, 4, 3, 2], [1, 3, 2, 1]]);
    let node = new_node(&key);
    assert!(node.children.is_empty());
    assert_eq!(node.search_depth, EXACT_DEPTH);
    assert_eq!(node.lower_bound, DEATH_VALUE + 771);
    assert_eq!(node.upper_bound, DEATH_VALUE + 771);
}

#[test]
fn children_of_placer_node_are_empty_cells() {
    let key = NodeKey::new(2, [[1, 0, 0, 0], [0, 0, 0, 0], [0, 0, 0, 0], [0, 0, 0, 1]]);
    let node = new_node(&key);
    assert_eq!(node.children.len(), 14);
    assert!(node.children.iter().all(|c| c.turns == 3));
    assert_eq!(node.search_depth, -1);
    assert_eq!(node.lower_bound, -INF);
    assert_eq!(node.upper_bound, INF);
}

#[test]
fn all_images_share_one_representative() {
    let g = [[0, 1, 2, 3], [4, 5, 6, 7], [0, 0, 9, 1], [3, 0, 0, 2]];
    let images = symmetries(&g);
    let c = canonical_grid(&g);
    for h in images.iter() {
        assert_eq!(canonical_grid(h), c);
    }
    let best = images.iter().map(grid_code).max().unwrap();
    assert_eq!(grid_code(&c), best);
    assert_ne!(images[0], images[5]);
    assert_eq!(images[0], g);
}

#[test]
fn grid_code_is_big_endian() {
    let g = [[1, 0, 0, 0], [0, 0, 0, 0], [0, 0, 0, 0], [0, 0, 0, 2]];
    assert_eq!(grid_code(&g), (1u128 << 120) | 2);
}

#[test]
fn exponent_slide_merges_once() {
    assert_eq!(merge_line([1, 1, 1, 1]), [2, 2, 0, 0]);
    assert_eq!(merge_line([0, 2, 2, 3]), [3, 3, 0, 0]);
    assert_eq!(merge_line([1, 2, 0, 0]), [1, 2, 0, 0]);
    let g = [[1, 1, 1, 1], [0, 2, 0, 2], [1, 0, 2, 1], [2, 2, 1, 1]];
    let left = slide(&g, Direction::Left).unwrap();
    assert_eq!(left, [[2, 2, 0, 0], [3, 0, 0, 0], [1, 2, 1, 0], [3, 2, 0, 0]]);
    let still = [[1, 2, 0, 0], [0, 0, 0, 0], [0, 0, 0, 0], [0, 0, 0, 0]];
    assert_eq!(slide(&still, Direction::Left), None);
    assert_eq!(slide(&still, Direction::Up), None);
    assert!(slide(&still, Direction::Right).is_some());
}

#[test]
fn exponent_place() {
    let g = [[0; 4]; 4];
    let h = place(&g, 2, 3, 1).unwrap();
    assert_eq!(h[2][3], 1);
    assert_eq!(place(&h, 2, 3, 1), None);
}

#[test]
fn dead_exponent_grid_and_one_gap() {
    let g = dead_exponents();
    assert!(dead_grid(&g));
    let mut h = g;
    h[3][2] = 0;
    assert!(!dead_grid(&h));
    let mut e = g;
    e[3][1] = 1;
    assert!(!dead_grid(&e));
}

#[test]
fn heuristic_exact_values() {
    assert_eq!(heuristic(&[[0; 4]; 4]), 0);
    assert_eq!(heuristic(&[[1, 0, 0, 0], [0, 0, 0, 0], [0, 0, 0, 0], [0, 0, 0, 0]]), -4);
    assert_eq!(heuristic(&[[2, 0, 0, 0], [0, 0, 0, 0], [0, 0, 0, 0], [0, 0, 0, 0]]), -16);
    assert_eq!(heuristic(&[[1, 1, 0, 0], [0, 0, 0, 0], [0, 0, 0, 0], [0, 0, 0, 0]]), -4);
    let big = [[200, 0, 200, 0], [0, 200, 0, 200], [200, 0, 200, 0], [0, 200, 0, 200]];
    let v = heuristic(&big);
    assert!(v < 0 && v > -20000000);
}

#[test]
fn apply_move_turns_and_legality() {
    let k = NodeKey::new(0, [[0; 4]; 4]);
    let two = apply_move(&k, Move::Place { x: 0, y: 1, val: 2 }).unwrap();
    assert_eq!(two.turns, 1);
    assert_eq!(two.grid[0][1], 1);
    let four = apply_move(&k, Move::Place { x: 0, y: 1, val: 4 }).unwrap();
    assert_eq!(four.turns, 3);
    assert_eq!(four.grid[0][1], 2);
    assert_eq!(apply_move(&k, Move::Place { x: 0, y: 1, val: 8 }), None);
    assert_eq!(apply_move(&k, Move::Place { x: 4, y: 1, val: 2 }), None);
    assert_eq!(apply_move(&two, Move::Place { x: 0, y: 1, val: 2 }), None);
    assert_eq!(apply_move(&two, Move::Slide(Direction::Left)).unwrap().turns, 2);
    assert_eq!(apply_move(&two, Move::Slide(Direction::Up)), None);
    let top = NodeKey::new(i32::MAX, [[0; 4]; 4]);
    assert_eq!(apply_move(&top, Move::Place { x: 0, y: 0, val: 2 }), None);
}

#[test]
fn first_placement_from_empty_grid() {
    let mut ai = Ai::new(1);
    let m = ai.pick_move(&State::initial()).unwrap();
    match m {
        Move::Place { x, y, val } => {
            assert!(x < 4 && y < 4);
            assert_eq!(val, 2);
        }
        Move::Slide(_) => panic!("the Placer moves first"),
    }
    assert_eq!(m, Move::Place { x: 1, y: 1, val: 2 });
    let mut fresh = Ai::new(1);
    assert_eq!(fresh.negamax(NodeKey::new(0, [[0; 4]; 4]), 1, -INF, INF), 20);
    let next = apply_move(&NodeKey::new(0, [[0; 4]; 4]), m).unwrap();
    let cells: Vec<u8> = next.grid.iter().flatten().copied().filter(|&e| e != 0).collect();
    assert_eq!(cells, vec![1]);
}

#[test]
fn terminal_root_is_exact_at_any_depth() {
    let g = dead_exponents();
    let mut ai = Ai::new(3);
    let flat: Vec<u8> = g.iter().flatten().copied().collect();
    ai.init_from_grid(&flat);
    let root = NodeKey::new(93, g);
    let v1 = ai.negamax(root, 94, -INF, INF);
    let v2 = ai.negamax(root, 200, -INF, INF);
    let v3 = ai.negamax(root, 95, -5, 5);
    assert_eq!(v1, DEATH_VALUE + 93);
    assert_eq!(v2, v1);
    assert_eq!(v3, v1);
    assert_eq!(ai.node_bounds(root), (EXACT_DEPTH, v1, v1));
    assert_eq!(ai.pick_move(&State::initial()), None);
}

#[test]
fn re_search_only_narrows_bounds() {
    let mut ai = Ai::new(2);
    let root = NodeKey::new(0, [[0; 4]; 4]);
    let v = ai.negamax(root, 2, -INF, INF);
    let (d1, lo1, hi1) = ai.node_bounds(root);
    assert_eq!(d1, 2);
    assert!(lo1 <= v && v <= hi1);
    let w = ai.negamax(root, 2, v - 1, v + 1);
    let (_, lo2, hi2) = ai.node_bounds(root);
    assert!(lo2 >= lo1 && hi2 <= hi1);
    assert_eq!(w, v);
}

#[test]
fn deeper_search_replaces_bounds() {
    let mut ai = Ai::new(2);
    let root = NodeKey::new(0, [[0; 4]; 4]);
    let v1 = ai.negamax(root, 1, -INF, INF);
    assert_eq!(ai.node_bounds(root), (1, v1, v1));
    let v2 = ai.negamax(root, 2, -INF, INF);
    assert_eq!(ai.node_bounds(root), (2, v2, v2));
    assert_ne!(v1, v2);
}

#[test]
fn leaf_value_is_signed_heuristic() {
    let mut ai = Ai::new(0);
    let g = [[1, 0, 0, 0], [0, 0, 0, 0], [0, 0, 0, 0], [0, 0, 0, 0]];
    assert_eq!(ai.negamax(NodeKey::new(1, g), 1, -INF, INF), -4);
    assert_eq!(ai.negamax(NodeKey::new(2, g), 1, -INF, INF), 4);
}

#[test]
fn picked_moves_apply_and_game_advances() {
    let mut ai = Ai::new(2);
    let mut key = NodeKey::new(0, [[0; 4]; 4]);
    let mut s = State::initial();
    for _ in 0..8 {
        let m = ai.pick_move(&s).unwrap();
        let next = apply_move(&key, m).expect("the engine picks legal moves");
        let t = next_state(&s, m).expect("the rules accept the engine's moves");
        for r in 0..4 {
            for c in 0..4 {
                let e = next.grid[r][c];
                assert_eq!(t.grid[r][c], if e == 0 { 0 } else { 1 << e });
            }
        }
        assert!(ai.can_apply(&m));
        ai.update_move(&m, &t);
        key = next;
        s = t;
    }
    assert_eq!(key.turns, 8);
}

#[test]
fn update_move_evicts_old_bucket() {
    let mut ai = Ai::new(2);
    let s = State::initial();
    let root = NodeKey::new(0, [[0; 4]; 4]);
    ai.negamax(root, 2, -INF, INF);
    assert_eq!(ai.node_bounds(root).0, 2);
    let m = Move::Place { x: 0, y: 0, val: 2 };
    assert!(ai.can_apply(&m));
    ai.update_move(&m, &s);
    assert_eq!(ai.node_bounds(root), (-1, -INF, INF));
    assert!(!ai.can_apply(&Move::Place { x: 0, y: 0, val: 8 }));
    assert!(!ai.can_apply(&Move::Place { x: 0, y: 0, val: 2 }));
    assert!(ai.pick_move(&s).is_some());
}

#[test]
fn placing_a_four_evicts_every_skipped_bucket() {
    let mut ai = Ai::new(3);
    let s = State::initial();
    let root = NodeKey::new(0, [[0; 4]; 4]);
    ai.negamax(root, 3, -INF, INF);
    let child = apply_move(&root, Move::Place { x: 0, y: 0, val: 2 }).unwrap();
    assert_eq!(child.turns, 1);
    assert_eq!(ai.node_bounds(child).0, 3);
    ai.update_move(&Move::Place { x: 1, y: 1, val: 4 }, &s);
    assert_eq!(ai.node_bounds(child), (-1, -INF, INF));
    assert_eq!(ai.node_bounds(root), (-1, -INF, INF));
    assert!(ai.pick_move(&s).is_some());
}

#[test]
fn host_placer_and_slider_moves() {
    let mut ai = Ai::new(1);
    let p = ai.get_placer_move().unwrap();
    assert_eq!((p.x(), p.y()), (1, 1));
    assert_eq!(p.val(), 2);
    assert!(ai.get_placer_move().is_none());
    let mut ai = Ai::new(1);
    ai.init_from_grid(&[1, 0, 0, 0, 0, 0, 0, 0, 0, 0, 0, 0, 0, 0, 0, 0]);
    assert!(!ai.can_apply(&Move::Slide(Direction::Up)));
    assert!(ai.can_apply(&Move::Slide(Direction::Right)));
    ai.update_slider_move(1);
    assert!(ai.get_placer_move().is_some());
}

/// Full-width minimax over representatives, with no table and no pruning.
fn full_width(key: NodeKey, horizon: i32) -> i32 {
    let rep = NodeKey::new(key.turns, canonical_grid(&key.grid));
    let node = new_node(&rep);
    if node.search_depth == EXACT_DEPTH {
        return node.lower_bound;
    }
    if rep.turns >= horizon {
        let h = heuristic(&rep.grid);
        return if rep.turns % 2 == 1 { h } else { -h };
    }
    node.children.iter().map(|&c| -full_width(c, horizon)).max().unwrap_or(-INF)
}

#[test]
fn pruned_search_matches_full_width() {
    let positions = [
        NodeKey::new(0, [[0; 4]; 4]),
        NodeKey::new(1, [[1, 0, 0, 0], [0, 0, 0, 0], [0, 0, 0, 0], [0, 0, 0, 0]]),
        NodeKey::new(5, [[1, 2, 0, 0], [0, 1, 0, 0], [0, 0, 3, 0], [0, 0, 0, 1]]),
        NodeKey::new(8, [[2, 1, 2, 1], [1, 2, 1, 2], [2, 1, 2, 1], [1, 2, 1, 0]]),
    ];
    for key in positions {
        for depth in 1..4 {
            let horizon = key.turns + depth;
            let mut ai = Ai::new(depth);
            let v = ai.negamax(key, horizon, -INF, INF);
            assert_eq!(v, full_width(key, horizon), "turns {} depth {}", key.turns, depth);
            let again = ai.negamax(key, horizon, -INF, INF);
            assert_eq!(again, v);
        }
    }
}
