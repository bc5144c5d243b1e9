use aigi::geometry::{Rect, Split};
use aigi::tiling::{Node, Side, TilingError, TilingState};

const A: u64 = 1;
const B: u64 = 2;
const C: u64 = 3;
const D: u64 = 4;

fn output() -> Rect {
    Rect::new(0, 0, 1000, 800)
}

fn sorted(mut v: Vec<(u64, Rect)>) -> Vec<(u64, Rect)> {
    v.sort_by_key(|p| p.0);
    v
}

/// Every structure reachable from the root divides its rectangle exactly.
fn check_partition(t: &TilingState) {
    let mut work: Vec<usize> = t.root_node().into_iter().collect();
    while let Some(i) = work.pop() {
        if let Some(Node::Structure(s)) = t.node_at(i) {
            let g = t.geometry_at(i).unwrap();
            let l = t.geometry_at(s.left).unwrap();
            let r = t.geometry_at(s.right).unwrap();
            assert_eq!((l.x, l.y), (g.x, g.y));
            match s.split {
                Split::Horizontal => {
                    assert_eq!(l.w + r.w, g.w);
                    assert_eq!((l.h, r.h), (g.h, g.h));
                    assert_eq!((r.x, r.y), (l.x + l.w, l.y));
                    assert!(r.w - l.w == 0 || r.w - l.w == 1);
                }
                Split::Vertical => {
                    assert_eq!(l.h + r.h, g.h);
                    assert_eq!((l.w, r.w), (g.w, g.w));
                    assert_eq!((r.x, r.y), (l.x, l.y + l.h));
                    assert!(r.h - l.h == 0 || r.h - l.h == 1);
                }
            }
            work.push(s.left);
            work.push(s.right);
        }
    }
}

#[test]
fn scenario_split_change_destroy() {
    let mut t = TilingState::init();
    t.insert_head(A, output()).unwrap();
    assert_eq!(t.split_of(A), Some(Split::Vertical));
    t.split(A, B).unwrap();
    assert_eq!(t.geometry_of(A), Some(Rect::new(0, 0, 1000, 400)));
    assert_eq!(t.geometry_of(B), Some(Rect::new(0, 400, 1000, 400)));
    t.change_split(A, Split::Horizontal).unwrap();
    t.split(A, C).unwrap();
    assert_eq!(t.geometry_of(A), Some(Rect::new(0, 0, 500, 400)));
    assert_eq!(t.geometry_of(C), Some(Rect::new(500, 0, 500, 400)));
    assert_eq!(t.geometry_of(B), Some(Rect::new(0, 400, 1000, 400)));
    check_partition(&t);
    t.destroy(C).unwrap();
    assert_eq!(t.geometry_of(A), Some(Rect::new(0, 0, 1000, 400)));
    assert_eq!(t.geometry_of(B), Some(Rect::new(0, 400, 1000, 400)));
    assert_eq!(t.geometry_of(C), None);
    check_partition(&t);
}

#[test]
fn insert_head_makes_single_tile() {
    let mut t = TilingState::new();
    let r = t.insert_head(A, output()).unwrap();
    assert_eq!(t.root_node(), Some(r));
    assert!(matches!(
        t.node_at(r),
        Some(Node::Tile(tile)) if tile.window == A && tile.side == Side::Root
    ));
    assert_eq!(t.geometry_of(A), Some(output()));
    assert_eq!(t.window_count(), 1);
}

#[test]
fn second_insert_head_fails_and_changes_nothing() {
    let mut t = TilingState::init();
    t.insert_head(A, output()).unwrap();
    assert_eq!(t.insert_head(B, Rect::new(1, 2, 3, 4)), Err(TilingError::AlreadyInitialized));
    assert_eq!(t.window_count(), 1);
    assert!(!t.contains(B));
    assert_eq!(t.geometry_of(A), Some(output()));
}

#[test]
fn split_then_destroy_restores_single_tile() {
    let mut t = TilingState::init();
    let g = Rect::new(3, 7, 641, 479);
    t.insert_head(A, g).unwrap();
    t.split(A, B).unwrap();
    assert_eq!(t.destroy(B).map(|s| s.is_some()), Ok(true));
    assert_eq!(t.geometry_of(A), Some(g));
    assert_eq!(t.window_count(), 1);
    let root = t.root_node().unwrap();
    assert!(matches!(
        t.node_at(root),
        Some(Node::Tile(tile))
            if tile.window == A && tile.side == Side::Root && tile.container.is_none()
    ));
}

#[test]
fn split_returns_structure_in_place_of_tile() {
    let mut t = TilingState::init();
    t.insert_head(A, output()).unwrap();
    let s = t.split(A, B).unwrap();
    assert_eq!(t.root_node(), Some(s));
    match t.node_at(s) {
        Some(Node::Structure(st)) => {
            assert_eq!(st.split, Split::Vertical);
            assert_eq!(st.side, Side::Root);
            assert!(matches!(
                t.node_at(st.left),
                Some(Node::Tile(x)) if x.window == A && x.side == Side::Left
            ));
            assert!(matches!(
                t.node_at(st.right),
                Some(Node::Tile(x)) if x.window == B && x.side == Side::Right
            ));
        }
        _ => panic!("split did not return a structure"),
    }
    assert_eq!(t.geometry_at(s), Some(output()));
    assert_eq!(t.split_of(B), Some(Split::Vertical));
}

#[test]
fn new_tile_inherits_axis() {
    let mut t = TilingState::init();
    t.insert_head(A, output()).unwrap();
    t.set_split(A, Split::Horizontal).unwrap();
    t.split(A, B).unwrap();
    assert_eq!(t.split_of(B), Some(Split::Horizontal));
    assert_eq!(t.geometry_of(B), Some(Rect::new(500, 0, 500, 800)));
}

#[test]
fn odd_sizes_give_remainder_to_second_child() {
    let mut t = TilingState::init();
    t.insert_head(A, Rect::new(0, 0, 1001, 801)).unwrap();
    t.split(A, B).unwrap();
    assert_eq!(t.geometry_of(A), Some(Rect::new(0, 0, 1001, 400)));
    assert_eq!(t.geometry_of(B), Some(Rect::new(0, 400, 1001, 401)));
    check_partition(&t);
}

#[test]
fn split_of_zero_height_proceeds() {
    let mut t = TilingState::init();
    t.insert_head(A, Rect::new(0, 0, 10, 0)).unwrap();
    t.split(A, B).unwrap();
    assert_eq!(t.geometry_of(A), Some(Rect::new(0, 0, 10, 0)));
    assert_eq!(t.geometry_of(B), Some(Rect::new(0, 0, 10, 0)));
}

#[test]
fn destroy_promotes_structure_and_relays_it() {
    let mut t = TilingState::init();
    t.insert_head(A, output()).unwrap();
    t.split(A, B).unwrap(); // A top, B bottom
    t.set_split(B, Split::Horizontal).unwrap();
    t.split(B, C).unwrap(); // B bottom-left, C bottom-right
    assert_eq!(t.geometry_of(B), Some(Rect::new(0, 400, 500, 400)));
    assert_eq!(t.geometry_of(C), Some(Rect::new(500, 400, 500, 400)));
    let sib = t.destroy(A).unwrap().unwrap();
    assert_eq!(t.root_node(), Some(sib));
    assert_eq!(t.geometry_at(sib), Some(output()));
    assert_eq!(t.geometry_of(B), Some(Rect::new(0, 0, 500, 800)));
    assert_eq!(t.geometry_of(C), Some(Rect::new(500, 0, 500, 800)));
    check_partition(&t);
}

#[test]
fn destroy_inner_tile_keeps_others() {
    let mut t = TilingState::init();
    t.insert_head(A, output()).unwrap();
    t.split(A, B).unwrap();
    t.split(B, C).unwrap(); // B and C share the bottom half, stacked
    t.set_split(A, Split::Horizontal).unwrap();
    t.split(A, D).unwrap();
    assert_eq!(t.geometry_of(B), Some(Rect::new(0, 400, 1000, 200)));
    assert_eq!(t.geometry_of(C), Some(Rect::new(0, 600, 1000, 200)));
    t.destroy(B).unwrap();
    assert_eq!(t.geometry_of(C), Some(Rect::new(0, 400, 1000, 400)));
    assert_eq!(t.geometry_of(A), Some(Rect::new(0, 0, 500, 400)));
    assert_eq!(t.geometry_of(D), Some(Rect::new(500, 0, 500, 400)));
    check_partition(&t);
}

#[test]
fn destroy_last_tile_empties_tree() {
    let mut t = TilingState::init();
    t.insert_head(A, output()).unwrap();
    assert_eq!(t.destroy(A), Ok(None));
    assert_eq!(t.root_node(), None);
    assert_eq!(t.window_count(), 0);
    assert!(!t.contains(A));
    t.insert_head(B, output()).unwrap();
    assert_eq!(t.geometry_of(B), Some(output()));
}

#[test]
fn index_matches_tiles() {
    let mut t = TilingState::init();
    t.insert_head(A, output()).unwrap();
    t.split(A, B).unwrap();
    t.split(B, C).unwrap();
    t.split(A, D).unwrap();
    t.destroy(B).unwrap();
    let root = t.root_node().unwrap();
    let mut windows: Vec<u64> = t.collect_assignments(root).unwrap().iter().map(|p| p.0).collect();
    windows.sort();
    assert_eq!(windows, vec![A, C, D]);
    assert_eq!(t.window_count(), 3);
    for w in [A, C, D] {
        assert!(t.contains(w));
    }
    assert!(!t.contains(B));
}

#[test]
fn update_geometry_without_rect_is_idempotent() {
    let mut t = TilingState::init();
    t.insert_head(A, Rect::new(0, 0, 999, 777)).unwrap();
    t.split(A, B).unwrap();
    t.set_split(B, Split::Horizontal).unwrap();
    t.split(B, C).unwrap();
    let root = t.root_node().unwrap();
    let before = sorted(t.collect_assignments(root).unwrap());
    t.update_geometry_node(root, None).unwrap();
    let once = sorted(t.collect_assignments(root).unwrap());
    t.update_geometry_node(root, None).unwrap();
    let twice = sorted(t.collect_assignments(root).unwrap());
    assert_eq!(before, once);
    assert_eq!(once, twice);
}

#[test]
fn update_geometry_of_root_follows_output_resize() {
    let mut t = TilingState::init();
    t.insert_head(A, output()).unwrap();
    t.split(A, B).unwrap();
    let root = t.root_node().unwrap();
    t.update_geometry_node(root, Some(Rect::new(0, 0, 600, 300))).unwrap();
    assert_eq!(t.geometry_of(A), Some(Rect::new(0, 0, 600, 150)));
    assert_eq!(t.geometry_of(B), Some(Rect::new(0, 150, 600, 150)));
    check_partition(&t);
}

#[test]
fn collect_assignments_of_subtree() {
    let mut t = TilingState::init();
    t.insert_head(A, output()).unwrap();
    t.split(A, B).unwrap();
    t.set_split(B, Split::Horizontal).unwrap();
    let s = t.split(B, C).unwrap();
    let got = sorted(t.collect_assignments(s).unwrap());
    assert_eq!(
        got,
        vec![(B, Rect::new(0, 400, 500, 400)), (C, Rect::new(500, 400, 500, 400))]
    );
}

#[test]
fn missing_window_errors() {
    let mut t = TilingState::init();
    assert_eq!(t.split(A, B), Err(TilingError::WindowNotFound));
    assert_eq!(t.destroy(A), Err(TilingError::WindowNotFound));
    assert_eq!(t.set_split(A, Split::Horizontal), Err(TilingError::WindowNotFound));
    t.insert_head(A, output()).unwrap();
    assert_eq!(t.split(C, B), Err(TilingError::WindowNotFound));
    assert_eq!(t.destroy(C), Err(TilingError::WindowNotFound));
    assert_eq!(t.window_count(), 1);
}

#[test]
fn detached_node_errors() {
    let mut t = TilingState::init();
    assert_eq!(t.update_geometry_node(0, None), Err(TilingError::NotAttached));
    assert_eq!(t.collect_assignments(0), Err(TilingError::NotAttached));
    t.insert_head(A, output()).unwrap();
    t.split(A, B).unwrap();
    t.destroy(B).unwrap();
    // the split and B's tile were removed from their slots
    let freed = (0..t.slot_count()).find(|&i| t.node_at(i).is_none()).unwrap();
    assert_eq!(t.update_geometry_node(freed, None), Err(TilingError::NotAttached));
    assert_eq!(t.update_geometry_node(99, None), Err(TilingError::NotAttached));
}

#[test]
fn set_split_changes_no_rectangle() {
    let mut t = TilingState::init();
    t.insert_head(A, output()).unwrap();
    t.split(A, B).unwrap();
    t.set_split(B, Split::Horizontal).unwrap();
    assert_eq!(t.split_of(B), Some(Split::Horizontal));
    assert_eq!(t.split_of(A), Some(Split::Vertical));
    assert_eq!(t.geometry_of(B), Some(Rect::new(0, 400, 1000, 400)));
}

#[test]
fn long_sequence_keeps_partition_and_index() {
    let out = Rect::new(17, -3, 1919, 1077);
    let mut t = TilingState::init();
    let mut live: Vec<u64> = Vec::new();
    let mut next: u64 = 1;
    let mut seed: u64 = 12345;
    for _ in 0..300 {
        seed = seed.wrapping_mul(6364136223846793005).wrapping_add(1442695040888963407);
        let pick = (seed >> 33) as usize;
        if live.is_empty() {
            t.insert_head(next, out).unwrap();
            live.push(next);
            next += 1;
        } else if pick % 5 < 3 {
            let target = live[pick % live.len()];
            if pick % 2 == 0 {
                t.set_split(target, Split::Horizontal).unwrap();
            } else {
                t.set_split(target, Split::Vertical).unwrap();
            }
            t.split(target, next).unwrap();
            live.push(next);
            next += 1;
        } else {
            let victim = live.remove(pick % live.len());
            t.destroy(victim).unwrap();
        }
        check_partition(&t);
        assert_eq!(t.window_count(), live.len());
        if let Some(root) = t.root_node() {
            let got = t.collect_assignments(root).unwrap();
            let mut windows: Vec<u64> = got.iter().map(|p| p.0).collect();
            windows.sort();
            let mut expected = live.clone();
            expected.sort();
            assert_eq!(windows, expected);
            let area: i64 = got.iter().map(|p| p.1.w as i64 * p.1.h as i64).sum();
            assert_eq!(area, out.w as i64 * out.h as i64);
            for (w, g) in got {
                assert_eq!(t.geometry_of(w), Some(g));
            }
        } else {
            assert!(live.is_empty());
        }
    }
}

#[test]
fn root_rectangle_kept_by_split_and_destroy() {
    let out = Rect::new(5, 6, 777, 555);
    let mut t = TilingState::init();
    t.insert_head(A, out).unwrap();
    t.split(A, B).unwrap();
    assert_eq!(t.geometry_at(t.root_node().unwrap()), Some(out));
    t.set_split(B, Split::Horizontal).unwrap();
    t.split(B, C).unwrap();
    assert_eq!(t.geometry_at(t.root_node().unwrap()), Some(out));
    t.destroy(B).unwrap();
    assert_eq!(t.geometry_at(t.root_node().unwrap()), Some(out));
    t.destroy(A).unwrap();
    assert_eq!(t.geometry_at(t.root_node().unwrap()), Some(out));
    assert_eq!(t.geometry_of(C), Some(out));
}

#[test]
fn set_split_keeps_every_node() {
    let mut t = TilingState::init();
    t.insert_head(A, output()).unwrap();
    t.split(A, B).unwrap();
    t.split(A, C).unwrap();
    let before: Vec<(Option<Node>, Option<Rect>)> =
        (0..t.slot_count()).map(|i| (t.node_at(i), t.geometry_at(i))).collect();
    let leaf = (0..t.slot_count())
        .find(|&i| matches!(t.node_at(i), Some(Node::Tile(x)) if x.window == A))
        .unwrap();
    t.set_split(A, Split::Horizontal).unwrap();
    for i in 0..t.slot_count() {
        if i == leaf {
            match (t.node_at(i), before[i].0) {
                (Some(Node::Tile(now)), Some(Node::Tile(was))) => {
                    assert_eq!(now.next_split, Split::Horizontal);
                    assert_eq!((now.container, now.side, now.window), (was.container, was.side, was.window));
                }
                _ => panic!("tile of A moved"),
            }
            assert_eq!(t.geometry_at(i), before[i].1);
        } else {
            assert_eq!((t.node_at(i), t.geometry_at(i)), before[i]);
        }
    }
}
