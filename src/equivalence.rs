use vstd::prelude::*;

use crate::assemble::{
    all_in_span, can_surround, copy_cells, covered_by, in_span, lemma_unrot, placements_ok, rot,
    rot_set, rotate_omino, rotations_of_set, surrounds, touches_hole, unrot, Placement,
};
use crate::omino::{
    add_cells, cell_set, dir_vec, lemma_sorted_same_cells, normal_form, normalize_omino, shifted,
    sorted_pts, sub_cells, yx_min, Cell, Dir, FreePoint,
};

verus! {

/// Some quarter turn of `b`, once normalized, has the same cells as normalized `a`.
pub open spec fn equivalent(a: Seq<FreePoint>, b: Seq<FreePoint>) -> bool {
    exists|k: int| 0 <= k < 4 && #[trigger] normal_form(rot_set(k, cell_set(b))) == normal_form(cell_set(a))
}

/// Whether two point lists are equal.
fn same_points(a: &Vec<FreePoint>, b: &Vec<FreePoint>) -> (r: bool)
    ensures
        r == (a@ == b@),
{
    if a.len() != b.len() {
        return false;
    }
    let mut i: usize = 0;
    while i < a.len()
        invariant
            i <= a@.len(),
            a@.len() == b@.len(),
            forall|j: int| 0 <= j < i ==> a@[j] == b@[j],
        decreases a@.len() - i,
    {
        if a[i] != b[i] {
            return false;
        }
        i += 1;
    }
    assert(a@ =~= b@);
    true
}

proof fn lemma_rotated_distinct(omino: Seq<FreePoint>, rotated: Seq<FreePoint>, k: int)
    requires
        0 <= k < 4,
        omino.no_duplicates(),
        rotated.len() == omino.len(),
        forall|i: int| 0 <= i < rotated.len() ==> (#[trigger] rotated[i]).cell() == rot(k, omino[i].cell()),
    ensures
        rotated.no_duplicates(),
{
    assert forall|i: int, j: int|
        0 <= i < rotated.len() && 0 <= j < rotated.len() && i != j implies rotated[i] != rotated[j] by {
        lemma_unrot(k, omino[i].cell());
        lemma_unrot(k, omino[j].cell());
    }
}

/// Whether some quarter turn of `omino2` is a translate of `omino`.
pub fn rotational_equivalence(omino: &Vec<FreePoint>, omino2: &Vec<FreePoint>) -> (r: bool)
    requires
        omino@.len() > 0,
        omino2@.len() > 0,
        all_in_span(omino@),
        all_in_span(omino2@),
        omino@.no_duplicates(),
        omino2@.no_duplicates(),
    ensures
        r == equivalent(omino@, omino2@),
{
    let sorted_omino = normalize_omino(omino.clone());
    let mut amt: u8 = 0;
    while amt < 4
        invariant
            amt <= 4,
            all_in_span(omino2@),
            omino2@.len() > 0,
            omino2@.no_duplicates(),
            sorted_pts(sorted_omino@),
            cell_set(sorted_omino@) == normal_form(cell_set(omino@)),
            forall|k: int| 0 <= k < amt ==> #[trigger] normal_form(rot_set(k, cell_set(omino2@))) != normal_form(cell_set(omino@)),
        decreases 4 - amt,
    {
        let rotated = rotate_omino(omino2, amt);
        proof {
            lemma_rotated_distinct(omino2@, rotated@, amt as int);
        }
        let rotated_omino2 = normalize_omino(rotated);
        if same_points(&rotated_omino2, &sorted_omino) {
            return true;
        }
        proof {
            if normal_form(rot_set(amt as int, cell_set(omino2@))) == normal_form(cell_set(omino@)) {
                lemma_sorted_same_cells(rotated_omino2@, sorted_omino@);
            }
        }
        amt += 1;
    }
    false
}

/// The shapes of `s` that are not equivalent to a shape kept before them.
pub open spec fn dedup_spec(s: Seq<Seq<FreePoint>>) -> Seq<Seq<FreePoint>>
    decreases s.len(),
{
    if s.len() == 0 {
        Seq::empty()
    } else {
        let prev = dedup_spec(s.drop_last());
        if exists|k: int| 0 <= k < prev.len() && equivalent(#[trigger] prev[k], s.last()) {
            prev
        } else {
            prev.push(s.last())
        }
    }
}

/// The point lists of a list of shapes.
pub open spec fn shape_views(s: Seq<Vec<FreePoint>>) -> Seq<Seq<FreePoint>> {
    s.map_values(|v: Vec<FreePoint>| v@)
}

/// A shape the library can work on: non-empty, near the origin, without repeats.
pub open spec fn shape_ok(s: Seq<FreePoint>) -> bool {
    s.len() > 0 && all_in_span(s) && s.no_duplicates()
}

/// One shape of each rotation class of `ominos`, the first met, in their order.
pub fn rotational_deduplicate(ominos: &Vec<Vec<FreePoint>>) -> (r: Vec<Vec<FreePoint>>)
    requires
        forall|i: int| 0 <= i < ominos@.len() ==> shape_ok(#[trigger] ominos@[i]@),
    ensures
        shape_views(r@) == dedup_spec(shape_views(ominos@)),
{
    let mut out: Vec<Vec<FreePoint>> = Vec::new();
    let mut i: usize = 0;
    assert(shape_views(ominos@).subrange(0, 0) =~= Seq::<Seq<FreePoint>>::empty());
    assert(shape_views(out@) =~= Seq::<Seq<FreePoint>>::empty());
    while i < ominos.len()
        invariant
            i <= ominos@.len(),
            forall|i: int| 0 <= i < ominos@.len() ==> shape_ok(#[trigger] ominos@[i]@),
            shape_views(out@) == dedup_spec(shape_views(ominos@).subrange(0, i as int)),
            forall|k: int| 0 <= k < out@.len() ==> shape_ok(#[trigger] out@[k]@),
        decreases ominos@.len() - i,
    {
        let omino = &ominos[i];
        assert(shape_ok(ominos@[i as int]@));
        let ghost prefix = shape_views(ominos@).subrange(0, i as int + 1);
        assert(prefix.drop_last() =~= shape_views(ominos@).subrange(0, i as int));
        assert(prefix.last() == omino@);
        let mut found = false;
        let mut k: usize = 0;
        while k < out.len()
            invariant
                k <= out@.len(),
                shape_ok(omino@),
                forall|k: int| 0 <= k < out@.len() ==> shape_ok(#[trigger] out@[k]@),
                found == exists|j: int| 0 <= j < k && equivalent(#[trigger] shape_views(out@)[j], omino@),
            decreases out@.len() - k,
        {
            if rotational_equivalence(&out[k], omino) {
                found = true;
            }
            assert(shape_views(out@)[k as int] == out@[k as int]@);
            k += 1;
        }
        if !found {
            let ghost before = out@;
            out.push(omino.clone());
            proof {
                assert(out@[before.len() as int]@ == omino@);
                assert(shape_views(out@) =~= shape_views(before).push(omino@));
            }
        }
        i += 1;
    }
    assert(shape_views(ominos@).subrange(0, i as int) =~= shape_views(ominos@));
    out
}

/// Turning a set by `k` and then by `unrot(k)` gives it back.
proof fn lemma_rot_set_undo(k: int, s: Set<Cell>)
    requires
        0 <= k < 4,
    ensures
        rot_set(unrot(k), rot_set(k, s)) == s,
{
    assert forall|c: Cell| rot_set(unrot(k), rot_set(k, s)).contains(c) == s.contains(c) by {
        lemma_unrot(k, c);
        lemma_unrot(unrot(k), c);
    }
    assert(rot_set(unrot(k), rot_set(k, s)) =~= s);
}

/// A shape and any quarter turn of it are equivalent, so deduplicating the two keeps
/// exactly one, the first.
pub proof fn dedup_keeps_one_of_rotated_pair(a: Seq<FreePoint>, b: Seq<FreePoint>, k: int)
    requires
        0 <= k < 4,
        cell_set(b) == rot_set(k, cell_set(a)),
    ensures
        equivalent(a, b),
        dedup_spec(seq![a, b]) == seq![a],
{
    lemma_rot_set_undo(k, cell_set(a));
    assert(0 <= unrot(k) < 4);
    assert(normal_form(rot_set(unrot(k), cell_set(b))) == normal_form(cell_set(a)));
    let s = seq![a, b];
    assert(s.drop_last() =~= seq![a]);
    assert(seq![a].drop_last() =~= Seq::<Seq<FreePoint>>::empty());
    assert(dedup_spec(Seq::<Seq<FreePoint>>::empty()) == Seq::<Seq<FreePoint>>::empty());
    assert(dedup_spec(seq![a]) =~= seq![a]);
    assert(dedup_spec(seq![a])[0] == a);
}

/// Every cell of `s` lies in the span window.
pub open spec fn set_in_span(s: Set<Cell>) -> bool {
    forall|c: Cell| #[trigger] s.contains(c) ==> in_span(c)
}

/// Placements of a shape turned by `k`, read as placements of the shape itself.
pub open spec fn turned_placements(w: Seq<Placement>, k: int) -> Seq<Placement> {
    w.map_values(|pl: Placement| Placement { rotation: ((pl.rotation + k) % 4) as u8, translation: pl.translation })
}

/// Placements of a shape moved by `v`, read as placements of the shape itself.
pub open spec fn moved_placements(w: Seq<Placement>, v: Cell) -> Seq<Placement> {
    w.map_values(
        |pl: Placement|
            Placement {
                rotation: pl.rotation,
                translation: FreePoint {
                    x: (pl.translation.x + rot(pl.rotation as int, v).0) as i8,
                    y: (pl.translation.y + rot(pl.rotation as int, v).1) as i8,
                },
            },
    )
}

proof fn lemma_rot_set_compose(j: int, k: int, s: Set<Cell>)
    requires
        0 <= j < 4,
        0 <= k < 4,
    ensures
        rot_set(j, rot_set(k, s)) == rot_set((j + k) % 4, s),
{
    assert forall|c: Cell| rot_set(j, rot_set(k, s)).contains(c) == rot_set((j + k) % 4, s).contains(c) by {}
    assert(rot_set(j, rot_set(k, s)) =~= rot_set((j + k) % 4, s));
}

/// Placements that surround the hole with copies of one family surround it with copies of
/// another family when each placement's copy is the same set in both.
proof fn lemma_same_copies(ca: Seq<Set<Cell>>, cb: Seq<Set<Cell>>, w: Seq<Placement>, w2: Seq<Placement>)
    requires
        surrounds(cb, w),
        w2.len() == w.len(),
        forall|i: int| 0 <= i < w.len() ==> #[trigger] copy_cells(ca, w2[i]) == copy_cells(cb, w[i]) && w2[i].rotation < ca.len(),
    ensures
        surrounds(ca, w2),
{
    assert forall|i: int, j: int|
        0 <= i < w2.len() && 0 <= j < w2.len() && i != j implies (#[trigger] copy_cells(ca, w2[i])).disjoint(
            #[trigger] copy_cells(ca, w2[j])) by {
        assert(copy_cells(cb, w[i]).disjoint(copy_cells(cb, w[j])));
    }
    assert forall|i: int| 0 <= i < w2.len() implies !(#[trigger] copy_cells(ca, w2[i])).contains((0, 0))
        by {
        assert(!copy_cells(cb, w[i]).contains((0, 0)));
    }
    assert forall|i: int| 0 <= i < w2.len() implies touches_hole(#[trigger] copy_cells(ca, w2[i])) by {
        assert(touches_hole(copy_cells(cb, w[i])));
    }
    assert forall|i: int| 0 <= i < w2.len() implies (#[trigger] w2[i]).rotation < ca.len() by {
        assert(copy_cells(ca, w2[i]) == copy_cells(cb, w[i]));
    }
    assert(placements_ok(ca, w2));
    assert forall|d: Dir| covered_by(ca, w2, #[trigger] dir_vec(d)) by {
        assert(covered_by(cb, w, dir_vec(d)));
        let i = choose|i: int| 0 <= i < w.len() && (#[trigger] copy_cells(cb, w[i])).contains(dir_vec(d));
        assert(copy_cells(ca, w2[i]).contains(dir_vec(d)));
    }
}

proof fn lemma_surround_turned(a: Set<Cell>, k: int, w: Seq<Placement>)
    requires
        0 <= k < 4,
        surrounds(rotations_of_set(rot_set(k, a)), w),
    ensures
        surrounds(rotations_of_set(a), turned_placements(w, k)),
{
    let ca = rotations_of_set(a);
    let cb = rotations_of_set(rot_set(k, a));
    let tw = turned_placements(w, k);
    assert forall|i: int| 0 <= i < w.len() implies #[trigger] copy_cells(ca, tw[i]) == copy_cells(cb, w[i]) && tw[i].rotation < ca.len() by {
        assert(w[i].rotation < 4);
        lemma_rot_set_compose(w[i].rotation as int, k, a);
    }
    lemma_same_copies(ca, cb, w, tw);
}

/// Whether cells can surround the hole does not change when they are turned by any number
/// of quarter turns.
pub proof fn surrounding_ignores_rotation(a: Set<Cell>, k: int)
    requires
        0 <= k < 4,
    ensures
        can_surround(a) == can_surround(rot_set(k, a)),
{
    if can_surround(rot_set(k, a)) {
        let w = choose|w: Seq<Placement>| surrounds(rotations_of_set(rot_set(k, a)), w);
        lemma_surround_turned(a, k, w);
    }
    if can_surround(a) {
        let w = choose|w: Seq<Placement>| surrounds(rotations_of_set(a), w);
        lemma_rot_set_undo(k, a);
        assert(0 <= unrot(k) < 4);
        lemma_surround_turned(rot_set(k, a), unrot(k), w);
    }
}

proof fn lemma_surround_moved(a: Set<Cell>, v: Cell, w: Seq<Placement>)
    requires
        set_in_span(a),
        set_in_span(shifted(a, v)),
        surrounds(rotations_of_set(shifted(a, v)), w),
    ensures
        surrounds(rotations_of_set(a), moved_placements(w, v)),
{
    let b = shifted(a, v);
    let ca = rotations_of_set(a);
    let cb = rotations_of_set(b);
    let mw = moved_placements(w, v);
    assert forall|i: int| 0 <= i < w.len() implies #[trigger] copy_cells(ca, mw[i]) == copy_cells(cb, w[i]) && mw[i].rotation < ca.len() by {
        let pl = w[i];
        let j = pl.rotation as int;
        assert(j < 4);
        let t = pl.translation.cell();
        let rv = rot(j, v);
        assert(touches_hole(copy_cells(cb, pl)));
        let d = choose|d: Dir| copy_cells(cb, pl).contains(#[trigger] dir_vec(d));
        let n = dir_vec(d);
        let bc = rot(unrot(j), sub_cells(n, t));
        assert(b.contains(bc));
        assert(a.contains(sub_cells(bc, v)));
        assert(in_span(sub_cells(bc, v)));
        lemma_unrot(j, sub_cells(n, t));
        let t2 = add_cells(t, rv);
        assert(-20 <= t2.0 <= 20 && -20 <= t2.1 <= 20);
        assert(mw[i].translation.cell() == t2);
        assert forall|c: Cell| copy_cells(ca, mw[i]).contains(c) == copy_cells(cb, pl).contains(c) by {
            lemma_unrot(j, sub_cells(c, t));
            lemma_unrot(j, v);
        }
        assert(copy_cells(ca, mw[i]) =~= copy_cells(cb, pl));
    }
    lemma_same_copies(ca, cb, w, mw);
}

/// Whether cells near the origin can surround the hole does not change when they are moved,
/// as long as they stay near the origin.
pub proof fn surrounding_ignores_translation(a: Set<Cell>, v: Cell)
    requires
        set_in_span(a),
        set_in_span(shifted(a, v)),
    ensures
        can_surround(a) == can_surround(shifted(a, v)),
{
    if can_surround(shifted(a, v)) {
        let w = choose|w: Seq<Placement>| surrounds(rotations_of_set(shifted(a, v)), w);
        lemma_surround_moved(a, v, w);
    }
    if can_surround(a) {
        let b = shifted(a, v);
        let nv = (-v.0, -v.1);
        assert(shifted(b, nv) =~= a);
        let w = choose|w: Seq<Placement>| surrounds(rotations_of_set(a), w);
        lemma_surround_moved(b, nv, w);
    }
}

/// Rotationally equivalent shapes near the origin either both surround the hole or
/// neither does.
pub proof fn surrounding_respects_equivalence(a: Seq<FreePoint>, b: Seq<FreePoint>)
    requires
        all_in_span(a),
        all_in_span(b),
        equivalent(a, b),
    ensures
        can_surround(cell_set(a)) == can_surround(cell_set(b)),
{
    let k = choose|k: int| 0 <= k < 4 && #[trigger] normal_form(rot_set(k, cell_set(b))) == normal_form(cell_set(a));
    let sa = cell_set(a);
    let r = rot_set(k, cell_set(b));
    surrounding_ignores_rotation(cell_set(b), k);
    let ma = yx_min(sa);
    let mr = yx_min(r);
    let v = (mr.0 - ma.0, mr.1 - ma.1);
    assert forall|c: Cell| shifted(sa, v).contains(c) == r.contains(c) by {
        assert(normal_form(r).contains(sub_cells(c, mr)) == normal_form(sa).contains(sub_cells(c, mr)));
    }
    assert(shifted(sa, v) =~= r);
    assert forall|c: Cell| #[trigger] sa.contains(c) implies in_span(c) by {
        let i = choose|i: int| 0 <= i < a.len() && (#[trigger] a[i]).cell() == c;
    }
    assert forall|c: Cell| #[trigger] r.contains(c) implies in_span(c) by {
        lemma_unrot(k, c);
        let i = choose|i: int| 0 <= i < b.len() && (#[trigger] b[i]).cell() == rot(unrot(k), c);
        assert(in_span(b[i].cell()));
    }
    surrounding_ignores_translation(sa, v);
}

} // verus!
