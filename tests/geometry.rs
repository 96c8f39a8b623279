use omino_hole::assemble::{
    align_perim, iter_perimeter, iter_perimeter_slow, merge_pts, merge_pts_slow, mirror_x_axis, mirror_y_axis, next_edge_to_cover,
    rotate_0, rotate_180, rotate_ccw, rotate_cw, rotate_omino, rotate_omino_edge,
    translate_a_to_b, translation_of_a_to_b, Edge,
};
use omino_hole::omino::{
    compare_points, dir_to_offset, enumerate_polyominos, invert_point, normalize_omino,
    offset_in_dir, sort_points, sum_points, to_free_points, translate_omino, Dir, FreePoint,
};
use rand::seq::SliceRandom;
use rand::thread_rng;
use std::cmp::Ordering;

fn fp(x: i8, y: i8) -> FreePoint {
    FreePoint { x, y }
}

fn pts(cells: &[(i8, i8)]) -> Vec<FreePoint> {
    cells.iter().map(|&(x, y)| fp(x, y)).collect()
}

fn point_assert(p: FreePoint) {
    assert_eq!(p, rotate_180(rotate_180(p)));
    assert_eq!(p, rotate_cw(rotate_ccw(p)));
    assert_eq!(rotate_cw(p), rotate_ccw(rotate_ccw(rotate_ccw(p))));
    assert_eq!(rotate_ccw(rotate_ccw(p)), rotate_cw(rotate_cw(p)));
}

#[test]
fn point_fiddling() {
    let points = [(0, 0), (1, 3), (4, 4), (-3, 6), (3, -5), (20, 0)].map(|(x, y)| fp(x, y));
    for p in points {
        point_assert(p);
    }
}

#[test]
fn four_clockwise_turns_are_no_turn() {
    for p in [fp(0, 0), fp(1, 3), fp(-7, 2), fp(5, -11)] {
        assert_eq!(rotate_cw(rotate_cw(rotate_cw(rotate_cw(p)))), p);
        assert_eq!(rotate_ccw(p), rotate_cw(rotate_cw(rotate_cw(p))));
        assert_eq!(rotate_0(p), p);
    }
}

#[test]
fn rotations_and_mirrors_on_one_point() {
    let p = fp(1, 3);
    assert_eq!(rotate_cw(p), fp(3, -1));
    assert_eq!(rotate_ccw(p), fp(-3, 1));
    assert_eq!(rotate_180(p), fp(-1, -3));
    assert_eq!(mirror_x_axis(p), fp(1, -3));
    assert_eq!(mirror_y_axis(p), fp(-1, 3));
}

#[test]
fn direction_algebra() {
    assert_eq!(Dir::N.flip(), Dir::S);
    assert_eq!(Dir::E.flip(), Dir::W);
    assert_eq!(Dir::S.flip(), Dir::N);
    assert_eq!(Dir::W.flip(), Dir::E);
    assert_eq!(dir_to_offset(Dir::N), fp(0, 1));
    assert_eq!(dir_to_offset(Dir::E), fp(1, 0));
    assert_eq!(dir_to_offset(Dir::S), fp(0, -1));
    assert_eq!(dir_to_offset(Dir::W), fp(-1, 0));
    assert_eq!(offset_in_dir(fp(2, 5), Dir::W), fp(1, 5));
    assert_eq!(Edge(fp(0, 0), Dir::N).flip(), Edge(fp(0, 1), Dir::S));
}

#[test]
fn point_arithmetic() {
    assert_eq!(sum_points(fp(2, -3), fp(5, 7)), fp(7, 4));
    assert_eq!(invert_point(fp(2, -3)), fp(-2, 3));
    assert_eq!(translation_of_a_to_b(fp(1, 1), fp(4, -2)), fp(3, -3));
    assert_eq!(compare_points(&fp(5, 0), &fp(0, 1)), Ordering::Less);
    assert_eq!(compare_points(&fp(0, 1), &fp(5, 0)), Ordering::Greater);
    assert_eq!(compare_points(&fp(1, 1), &fp(2, 1)), Ordering::Less);
    assert_eq!(compare_points(&fp(2, 2), &fp(2, 2)), Ordering::Equal);
}

#[test]
fn translate_and_rotate_shapes() {
    let shape = pts(&[(0, 0), (1, 0), (1, 1)]);
    assert_eq!(translate_omino(&shape, fp(2, -1)), pts(&[(2, -1), (3, -1), (3, 0)]));
    assert_eq!(rotate_omino(&shape, 1), pts(&[(0, 0), (0, -1), (1, -1)]));
    assert_eq!(rotate_omino(&shape, 3), pts(&[(0, 0), (0, 1), (-1, 1)]));
    let (moved, t) = translate_a_to_b(&shape, fp(1, 1), fp(0, 0));
    assert_eq!(t, fp(-1, -1));
    assert_eq!(moved, pts(&[(-1, -1), (0, -1), (0, 0)]));
}

#[test]
fn rotate_edge_to_face_a_direction() {
    let shape = pts(&[(0, 0), (1, 0)]);
    let (turned, pt) = rotate_omino_edge(&shape, Edge(fp(1, 0), Dir::E), Dir::S);
    assert_eq!(turned, pts(&[(0, 0), (0, -1)]));
    assert_eq!(pt, fp(0, -1));
    let placed = align_perim(&shape, Edge(fp(1, 0), Dir::E), Edge(fp(0, 1), Dir::S));
    assert_eq!(placed, pts(&[(0, 2), (0, 1)]));
}

#[test]
fn normalize_moves_least_cell_to_origin() {
    let shape = pts(&[(3, 5), (2, 6), (4, 5)]);
    assert_eq!(normalize_omino(shape), pts(&[(-1, 1), (0, 0), (1, 0)]));
}

#[test]
fn sort_orders_by_x_then_y() {
    let shape = pts(&[(1, 0), (0, 2), (0, -1), (-3, 4)]);
    assert_eq!(sort_points(&shape), pts(&[(-3, 4), (0, -1), (0, 2), (1, 0)]));
}

#[test]
fn single_cell_perimeter() {
    let mut per = iter_perimeter(&pts(&[(0, 0)]));
    per.sort();
    let mut expected = vec![
        Edge(fp(0, 0), Dir::N),
        Edge(fp(0, 0), Dir::E),
        Edge(fp(0, 0), Dir::S),
        Edge(fp(0, 0), Dir::W),
    ];
    expected.sort();
    assert_eq!(per, expected);
}

#[test]
fn domino_perimeter() {
    let mut per = iter_perimeter(&pts(&[(0, 0), (1, 0)]));
    per.sort();
    let mut expected = vec![
        Edge(fp(0, 0), Dir::N),
        Edge(fp(0, 0), Dir::S),
        Edge(fp(0, 0), Dir::W),
        Edge(fp(1, 0), Dir::N),
        Edge(fp(1, 0), Dir::E),
        Edge(fp(1, 0), Dir::S),
    ];
    expected.sort();
    assert_eq!(per, expected);
}

#[test]
fn perm_invariant_perimeter() {
    let mut rng = thread_rng();
    for size in 1..=7u8 {
        for shape in enumerate_polyominos(size) {
            let omino = to_free_points(&shape);
            let mut unshuffled = iter_perimeter(&omino);
            unshuffled.sort();
            let mut shuffled = omino.clone();
            shuffled.shuffle(&mut rng);
            let mut again = iter_perimeter(&shuffled);
            again.sort();
            assert_eq!(unshuffled, again);
            let mut reversed = omino.clone();
            reversed.reverse();
            let mut third = iter_perimeter(&reversed);
            third.sort();
            assert_eq!(unshuffled, third);
        }
    }
}

#[test]
fn merge_disjoint_sorted_lists() {
    let a = pts(&[(0, 0), (1, 2), (3, -1)]);
    let b = pts(&[(-1, 5), (1, 1), (3, 0), (4, 4)]);
    let merged = merge_pts(&a, b).unwrap();
    assert_eq!(
        merged,
        pts(&[(-1, 5), (0, 0), (1, 1), (1, 2), (3, -1), (3, 0), (4, 4)])
    );
    assert_eq!(merged.len(), 7);
}

#[test]
fn merge_with_empty_lists() {
    let a = pts(&[(0, 0), (2, 2)]);
    assert_eq!(merge_pts(&a, vec![]), Some(a.clone()));
    assert_eq!(merge_pts(&vec![], a.clone()), Some(a.clone()));
    assert_eq!(merge_pts(&vec![], vec![]), Some(vec![]));
}

#[test]
fn merge_overlapping_lists_fails() {
    let a = pts(&[(0, 0), (1, 2), (3, -1)]);
    let b = pts(&[(-1, 5), (3, -1)]);
    assert_eq!(merge_pts(&a, b), None);
    let c = pts(&[(0, 0)]);
    assert_eq!(merge_pts(&a, c), None);
}

#[test]
fn next_edge_follows_north_east_south_west() {
    assert_eq!(next_edge_to_cover(&vec![]), Some(Edge(fp(0, 1), Dir::S)));
    assert_eq!(next_edge_to_cover(&pts(&[(0, 1)])), Some(Edge(fp(1, 0), Dir::W)));
    assert_eq!(
        next_edge_to_cover(&pts(&[(0, 1), (1, 0)])),
        Some(Edge(fp(0, -1), Dir::N))
    );
    assert_eq!(
        next_edge_to_cover(&pts(&[(0, 1), (1, 0), (0, -1)])),
        Some(Edge(fp(-1, 0), Dir::E))
    );
    assert_eq!(next_edge_to_cover(&pts(&[(-1, 0), (0, 1), (1, 0), (0, -1)])), None);
}

#[test]
fn all_neighbors_each_once() {
    let mut all = FreePoint::get_all_neighbors(&pts(&[(0, 0), (1, 0)]));
    all.sort();
    let mut expected = pts(&[(-1, 0), (0, 0), (1, 0), (2, 0), (0, 1), (1, 1), (0, -1), (1, -1)]);
    expected.sort();
    assert_eq!(all, expected);
    assert_eq!(fp(3, 3).get_neighbors(), pts(&[(4, 3), (2, 3), (3, 4), (3, 2)]));
}

#[test]
fn iter_perimeter_slow_is_same() {
    let pts: Vec<FreePoint> = [(0, 0)].map(|(x, y)| FreePoint { x, y }).into_iter().collect();
    let mut per1 = iter_perimeter(&pts);
    per1.sort();
    let mut per2 = iter_perimeter_slow(&pts);
    per2.sort();
    assert_eq!(per1, per2);
}

#[test]
fn slow_perimeter_matches_on_enumerated_shapes() {
    for size in 1..=6u8 {
        for shape in enumerate_polyominos(size) {
            let mut cells = to_free_points(&shape);
            cells.sort();
            let mut fast = iter_perimeter(&cells);
            fast.sort();
            let mut slow = iter_perimeter_slow(&cells);
            slow.sort();
            assert_eq!(fast, slow);
        }
    }
}

#[test]
fn slow_merge_sorts_or_fails() {
    let a = pts(&[(0, 0), (1, 2)]);
    let b = pts(&[(5, 5), (-1, 0)]);
    assert_eq!(merge_pts_slow(&a, b), Some(pts(&[(-1, 0), (0, 0), (1, 2), (5, 5)])));
    assert_eq!(merge_pts_slow(&pts(&[(0, 0)]), pts(&[(5, 5)])), Some(pts(&[(0, 0), (5, 5)])));
    assert_eq!(merge_pts_slow(&a, pts(&[(3, 3), (1, 2)])), None);
    assert_eq!(merge_pts_slow(&vec![], vec![]), Some(vec![]));
}

#[test]
fn perimeter_length_counts_each_edge_once() {
    for size in 1..=6u8 {
        for shape in enumerate_polyominos(size) {
            let cells = to_free_points(&shape);
            let mut adjacent_pairs = 0;
            for (i, a) in cells.iter().enumerate() {
                for b in &cells[i + 1..] {
                    if (a.x - b.x).abs() + (a.y - b.y).abs() == 1 {
                        adjacent_pairs += 1;
                    }
                }
            }
            let per = iter_perimeter(&cells);
            assert_eq!(per.len(), 4 * cells.len() - 2 * adjacent_pairs);
            let mut sorted = cells.clone();
            sorted.sort();
            assert_eq!(iter_perimeter_slow(&sorted).len(), per.len());
        }
    }
}

#[test]
fn perm_invariant_perimeter_size_ten() {
    let mut rng = thread_rng();
    for shape in enumerate_polyominos(10) {
        let omino = to_free_points(&shape);
        let mut unshuffled = iter_perimeter(&omino);
        unshuffled.sort();
        let mut shuffled = omino.clone();
        shuffled.shuffle(&mut rng);
        let mut again = iter_perimeter(&shuffled);
        again.sort();
        assert_eq!(unshuffled, again);
    }
}
