use boids::geometry::{Rectangle, Vec2};
use boids::quadtree::{QuadTree, MAX_CAPACITY_QUADTREE};

fn sorted(mut v: Vec<usize>) -> Vec<usize> {
    v.sort();
    v
}

#[test]
fn empty_tree_answers_nothing() {
    let t = QuadTree::new(Rectangle::new(0, 0, 100, 100));
    assert!(t.query(Rectangle::new(0, 0, 100, 100)).is_empty());
    assert!(!t.is_divided());
    assert_eq!(t.local_len(), 0);
    assert_eq!(t.boundary(), Rectangle::new(0, 0, 100, 100));
}

#[test]
fn outside_points_are_dropped() {
    let mut t = QuadTree::new(Rectangle::new(0, 0, 100, 100));
    t.insert(Vec2::new(100, 50), 0);
    t.insert(Vec2::new(-1, 50), 1);
    t.insert(Vec2::new(50, 100), 2);
    assert_eq!(t.local_len(), 0);
    assert!(t.query(Rectangle::new(-10, -10, 200, 200)).is_empty());
}

#[test]
fn split_threshold_and_no_redistribution() {
    let mut t = QuadTree::new(Rectangle::new(0, 0, 100, 100));
    for i in 0..MAX_CAPACITY_QUADTREE {
        t.insert(Vec2::new(10 + 20 * i as i64, 10), i);
        assert!(!t.is_divided());
    }
    assert_eq!(t.local_len(), MAX_CAPACITY_QUADTREE);
    t.insert(Vec2::new(90, 90), 4);
    assert!(t.is_divided());
    // the first items stay at the root; the new one went down
    assert_eq!(t.local_len(), MAX_CAPACITY_QUADTREE);
    assert_eq!(sorted(t.query(Rectangle::new(0, 0, 100, 100))), vec![0, 1, 2, 3, 4]);
    // only the bottom-right item lies in the bottom-right quadrant
    assert_eq!(t.query(Rectangle::new(50, 50, 50, 50)), vec![4]);
}

#[test]
fn whole_boundary_query_returns_everything_once() {
    let mut t = QuadTree::new(Rectangle::new(-64, -64, 128, 128));
    let mut n = 0usize;
    for x in (-60..60).step_by(7) {
        for y in (-60..60).step_by(11) {
            t.insert(Vec2::new(x, y), n);
            n += 1;
        }
    }
    let all = sorted(t.query(Rectangle::new(-64, -64, 128, 128)));
    assert_eq!(all, (0..n).collect::<Vec<_>>());
}

#[test]
fn query_is_sound_and_complete() {
    let mut t = QuadTree::new(Rectangle::new(0, 0, 64, 64));
    let mut pts = Vec::new();
    for i in 0..200i64 {
        let p = Vec2::new((i * 37) % 64, (i * 53) % 64);
        pts.push(p);
        t.insert(p, i as usize);
    }
    let range = Rectangle::new(10, 20, 17, 9);
    let got = sorted(t.query(range));
    let want: Vec<usize> = (0..pts.len()).filter(|&i| range.point_inside_rect(pts[i])).collect();
    assert_eq!(got, want);
}

#[test]
fn shared_edge_point_counted_once() {
    let mut t = QuadTree::new(Rectangle::new(0, 0, 100, 100));
    for i in 0..4 {
        t.insert(Vec2::new(1 + i, 1), i as usize);
    }
    // on the edge between all four quadrants
    t.insert(Vec2::new(50, 50), 9);
    assert_eq!(t.query(Rectangle::new(0, 0, 100, 100)).iter().filter(|&&h| h == 9).count(), 1);
    assert_eq!(t.query(Rectangle::new(50, 50, 1, 1)), vec![9]);
    assert!(t.query(Rectangle::new(0, 0, 50, 50)).iter().all(|&h| h != 9));
}

#[test]
fn odd_extent_is_tiled() {
    let mut t = QuadTree::new(Rectangle::new(0, 0, 3, 3));
    let mut n = 0usize;
    for x in 0..3 {
        for y in 0..3 {
            t.insert(Vec2::new(x, y), n);
            n += 1;
        }
    }
    assert_eq!(sorted(t.query(Rectangle::new(0, 0, 3, 3))), (0..9).collect::<Vec<_>>());
}

#[test]
fn many_equal_positions() {
    let mut t = QuadTree::new(Rectangle::new(0, 0, 16, 16));
    for i in 0..40 {
        t.insert(Vec2::new(5, 5), i);
    }
    assert_eq!(sorted(t.query(Rectangle::new(5, 5, 1, 1))), (0..40).collect::<Vec<_>>());
    assert!(t.query(Rectangle::new(6, 6, 10, 10)).is_empty());
}

#[test]
fn boundaries_follow_splits() {
    let mut t = QuadTree::new(Rectangle::new(0, 0, 100, 60));
    assert_eq!(t.boundaries(), vec![Rectangle::new(0, 0, 100, 60)]);
    for i in 0..5 {
        t.insert(Vec2::new(10 * i + 1, 1), i as usize);
    }
    assert_eq!(
        t.boundaries(),
        vec![
            Rectangle::new(0, 0, 100, 60),
            Rectangle::new(0, 0, 50, 30),
            Rectangle::new(50, 0, 50, 30),
            Rectangle::new(0, 30, 50, 30),
            Rectangle::new(50, 30, 50, 30),
        ]
    );
}
