use omino_hole::assemble::{
    find_arrangement, find_arrangement_translation, mirror_x_axis, mirror_y_axis, rotate_omino,
    Placement,
};
use omino_hole::equivalence::{rotational_deduplicate, rotational_equivalence};
use omino_hole::board::{covers_board, has_arrangement_board, has_corner_arrangement_unsorted, Board};
use omino_hole::omino::{enumerate_polyominos, to_free_points, FreePoint};
use std::collections::{HashSet, VecDeque};

fn fp(x: i8, y: i8) -> FreePoint {
    FreePoint { x, y }
}

fn pts(cells: &[(i8, i8)]) -> Vec<FreePoint> {
    cells.iter().map(|&(x, y)| fp(x, y)).collect()
}

fn unarrangeable25() -> Vec<FreePoint> {
    let base = vec![(0, 0), (0, 1), (0, 2), (0, 3), (1, 3), (2, 3), (1, 0), (2, 0), (3, 0), (3, 1)]
        .into_iter()
        .map(|(x, y)| FreePoint { x, y })
        .collect::<Vec<_>>();
    let mut out: HashSet<FreePoint> = HashSet::default();
    for pt in base {
        let flips = [pt, mirror_x_axis(pt), mirror_y_axis(pt), mirror_x_axis(mirror_y_axis(pt))];
        for flip in flips {
            out.insert(flip);
        }
    }
    out.into_iter().collect()
}

/// The cells that a list of placements covers, checked for overlap and for the hole.
fn placed_cells(shape: &[FreePoint], placements: &[Placement]) -> HashSet<FreePoint> {
    let mut covered = HashSet::new();
    for pl in placements {
        let turned = rotate_omino(&shape.to_vec(), pl.rotation);
        for p in turned {
            let q = fp(p.x + pl.translation.x, p.y + pl.translation.y);
            assert!(covered.insert(q), "copies overlap at {:?}", q);
        }
    }
    assert!(!covered.contains(&fp(0, 0)));
    covered
}

fn assert_surrounds(shape: &[FreePoint], placements: &[Placement]) {
    let covered = placed_cells(shape, placements);
    for n in [fp(0, 1), fp(1, 0), fp(0, -1), fp(-1, 0)] {
        assert!(covered.contains(&n));
    }
}

fn connected(cells: &[FreePoint]) -> bool {
    let set: HashSet<FreePoint> = cells.iter().copied().collect();
    let mut seen = HashSet::new();
    let mut queue = VecDeque::new();
    queue.push_back(cells[0]);
    seen.insert(cells[0]);
    while let Some(p) = queue.pop_front() {
        for (dx, dy) in [(1, 0), (-1, 0), (0, 1), (0, -1)] {
            let q = fp(p.x + dx, p.y + dy);
            if set.contains(&q) && seen.insert(q) {
                queue.push_back(q);
            }
        }
    }
    seen.len() == set.len()
}

#[test]
fn unarrange_not_arrange() {
    let un25 = unarrangeable25();
    assert_eq!(un25.len(), 25);
    assert_eq!(find_arrangement(&un25), None);
    assert_eq!(find_arrangement_translation(&un25), None);
}

#[test]
fn unarrangeable_shape_fails_on_the_board() {
    let un25 = unarrangeable25();
    assert!(!has_corner_arrangement_unsorted(&un25));
    assert!(!has_arrangement_board(&un25));
}

#[test]
fn enumeration_counts_small() {
    let expected = [1usize, 2, 6, 19, 63, 216, 760, 2725, 9910];
    for (i, &count) in expected.iter().enumerate() {
        assert_eq!(enumerate_polyominos(i as u8 + 1).len(), count);
    }
}

#[test]
fn enumeration_count_ten() {
    assert_eq!(enumerate_polyominos(10).len(), 36446);
}

#[test]
fn enumerated_shapes_are_distinct_connected_and_unique() {
    for size in 1..=7u8 {
        let shapes = enumerate_polyominos(size);
        let mut seen: HashSet<Vec<FreePoint>> = HashSet::new();
        for shape in &shapes {
            let cells = to_free_points(shape);
            assert_eq!(cells[0], fp(0, 0));
            assert!(cells.iter().all(|p| p.y > 0 || (p.y == 0 && p.x >= 0)));
            assert_eq!(cells.len(), size as usize);
            let distinct: HashSet<FreePoint> = cells.iter().copied().collect();
            assert_eq!(distinct.len(), size as usize);
            assert!(connected(&cells));
            let mut sorted = cells.clone();
            sorted.sort();
            assert!(seen.insert(sorted));
        }
    }
}

#[test]
fn single_cell_uses_four_translated_copies() {
    let single = pts(&[(0, 0)]);
    let found = find_arrangement_translation(&single).unwrap();
    assert_eq!(found.len(), 4);
    let got: HashSet<FreePoint> = found.iter().copied().collect();
    let expected: HashSet<FreePoint> = [fp(0, 1), fp(1, 0), fp(0, -1), fp(-1, 0)].into_iter().collect();
    assert_eq!(got, expected);
    let placements: Vec<Placement> =
        found.iter().map(|&t| Placement { rotation: 0, translation: t }).collect();
    assert_surrounds(&single, &placements);
}

#[test]
fn single_cell_with_rotations() {
    let single = pts(&[(0, 0)]);
    let found = find_arrangement(&single).unwrap();
    assert_eq!(found.len(), 4);
    assert_surrounds(&single, &found);
    assert!(has_arrangement_board(&single));
}

#[test]
fn small_ominos_are_arrangeable() {
    for size in 1..=7u8 {
        for shape in enumerate_polyominos(size) {
            let cells = to_free_points(&shape);
            let found = find_arrangement(&cells);
            assert!(found.is_some(), "not arrangeable: {:?}", cells);
            assert_surrounds(&cells, &found.unwrap());
            assert!(has_arrangement_board(&cells));
        }
    }
}

#[test]
fn translation_witnesses_are_valid() {
    for shape in enumerate_polyominos(5) {
        let cells = to_free_points(&shape);
        if let Some(ts) = find_arrangement_translation(&cells) {
            let placements: Vec<Placement> =
                ts.iter().map(|&t| Placement { rotation: 0, translation: t }).collect();
            assert_surrounds(&cells, &placements);
        }
    }
}

#[test]
fn surrounding_is_the_same_for_every_rotation() {
    let mut shapes: Vec<Vec<FreePoint>> =
        enumerate_polyominos(6).iter().map(|s| to_free_points(s)).collect();
    shapes.push(unarrangeable25());
    for cells in shapes {
        let answer = has_arrangement_board(&cells);
        let with_rotations = find_arrangement(&cells).is_some();
        assert_eq!(answer, with_rotations);
        for amt in 1..4u8 {
            let turned = rotate_omino(&cells, amt);
            assert_eq!(has_arrangement_board(&turned), answer);
            assert_eq!(find_arrangement(&turned).is_some(), with_rotations);
        }
        let moved: Vec<FreePoint> = cells.iter().map(|p| fp(p.x - 2, p.y + 1)).collect();
        assert_eq!(has_arrangement_board(&moved), answer);
    }
}

#[test]
fn corner_detection() {
    assert!(has_corner_arrangement_unsorted(&pts(&[(0, 0), (1, 0), (1, 1)])));
    assert!(has_corner_arrangement_unsorted(&pts(&[(0, 0)])));
    let plus = pts(&[(0, 0), (1, 0), (-1, 0), (0, 1), (0, -1)]);
    assert!(!has_corner_arrangement_unsorted(&plus));
    assert!(has_arrangement_board(&plus));
}

#[test]
fn board_search_keeps_the_board_on_success() {
    let single = pts(&[(0, 0)]);
    let ominos = [single.clone(), single.clone(), single.clone(), single.clone()];
    let per = omino_hole::assemble::iter_perimeter(&single);
    let perimeters = [per.clone(), per.clone(), per.clone(), per];
    let mut board = Board::empty();
    assert!(covers_board(&ominos, &perimeters, &mut board));
    for n in [fp(0, 1), fp(1, 0), fp(0, -1), fp(-1, 0)] {
        assert!(board.contains(n));
    }
    assert!(!board.contains(fp(0, 0)));
    assert_eq!(board.next_edge_to_cover(), None);
}

#[test]
fn deduplicate_rotated_copy() {
    let shape = pts(&[(0, 0), (1, 0), (2, 0), (2, 1)]);
    let turned = rotate_omino(&shape, 1);
    assert!(rotational_equivalence(&shape, &turned));
    let out = rotational_deduplicate(&vec![shape.clone(), turned]);
    assert_eq!(out, vec![shape]);
}

#[test]
fn deduplicate_keeps_first_of_each_class() {
    let l = pts(&[(0, 0), (1, 0), (2, 0), (2, 1)]);
    let mirrored: Vec<FreePoint> = l.iter().map(|&p| mirror_y_axis(p)).collect();
    let line = pts(&[(0, 0), (1, 0), (2, 0), (3, 0)]);
    let line_up = pts(&[(5, 5), (5, 6), (5, 7), (5, 8)]);
    let l_moved: Vec<FreePoint> = rotate_omino(&l, 2).iter().map(|p| fp(p.x + 3, p.y - 4)).collect();
    assert!(!rotational_equivalence(&l, &mirrored));
    let out = rotational_deduplicate(&vec![
        l.clone(),
        line.clone(),
        l_moved,
        mirrored.clone(),
        line_up,
    ]);
    assert_eq!(out, vec![l, line, mirrored]);
    assert_eq!(rotational_deduplicate(&vec![]), Vec::<Vec<FreePoint>>::new());
}

#[test]
fn single_cell_translation_witness_in_gap_order() {
    let single = pts(&[(0, 0)]);
    assert_eq!(
        find_arrangement_translation(&single),
        Some(vec![fp(0, 1), fp(1, 0), fp(0, -1), fp(-1, 0)])
    );
    let found = find_arrangement(&single).unwrap();
    let translations: Vec<FreePoint> = found.iter().map(|pl| pl.translation).collect();
    assert_eq!(translations, vec![fp(0, 1), fp(1, 0), fp(0, -1), fp(-1, 0)]);
}

#[test]
fn enumeration_has_every_shape_of_size_four() {
    let shapes = enumerate_polyominos(4);
    let mut seen: HashSet<Vec<FreePoint>> = HashSet::new();
    for shape in &shapes {
        let mut cells = to_free_points(shape);
        cells.sort();
        seen.insert(cells);
    }
    let mut from_smaller: HashSet<Vec<FreePoint>> = HashSet::new();
    for shape in enumerate_polyominos(3) {
        let cells = to_free_points(&shape);
        for p in &cells {
            for (dx, dy) in [(1, 0), (-1, 0), (0, 1), (0, -1)] {
                let q = fp(p.x + dx, p.y + dy);
                if cells.contains(&q) {
                    continue;
                }
                let mut grown = cells.clone();
                grown.push(q);
                let min = *grown.iter().min_by_key(|c| (c.y, c.x)).unwrap();
                let mut moved: Vec<FreePoint> = grown.iter().map(|c| fp(c.x - min.x, c.y - min.y)).collect();
                moved.sort();
                from_smaller.insert(moved);
            }
        }
    }
    assert_eq!(seen, from_smaller);
}

#[test]
fn ominoes_of_eight_are_arrangeable() {
    for shape in enumerate_polyominos(8) {
        let cells = to_free_points(&shape);
        let found = find_arrangement(&cells);
        assert!(found.is_some(), "not arrangeable: {:?}", cells);
        assert_surrounds(&cells, &found.unwrap());
    }
}
