use vstd::prelude::*;

use crate::omino::{
    add_cells, cell_set, dir_vec, fits, lemma_cell_set_prefix, lemma_cell_set_push, offset_in_dir,
    point_less, pt_less, shift_fits, shifted, sort_points, sorted_pts, step, sub_cells,
    translate_omino, Cell, Dir, FreePoint,
};

verus! {

/// Both coordinates lie within 16 of the origin: the window that shapes live in.
pub open spec fn in_span(c: Cell) -> bool {
    -16 <= c.0 <= 16 && -16 <= c.1 <= 16
}

/// Every cell of `s` lies in the span window.
pub open spec fn all_in_span(s: Seq<FreePoint>) -> bool {
    forall|i: int| 0 <= i < s.len() ==> in_span(#[trigger] s[i].cell())
}

/// A cell turned clockwise by `k` quarter turns: 0 keeps it, 1 is clockwise, 2 is a half
/// turn, 3 is counter-clockwise.
pub open spec fn rot(k: int, c: Cell) -> Cell {
    if k == 0 {
        c
    } else if k == 1 {
        (c.1, -c.0)
    } else if k == 2 {
        (-c.0, -c.1)
    } else {
        (-c.1, c.0)
    }
}

/// The quarter-turn count that undoes `k`.
pub open spec fn unrot(k: int) -> int {
    if k == 0 {
        0
    } else {
        4 - k
    }
}

/// The set `s` turned by `k` quarter turns.
pub open spec fn rot_set(k: int, s: Set<Cell>) -> Set<Cell> {
    Set::new(|c: Cell| s.contains(rot(unrot(k), c)))
}

/// Half turns undo themselves; four clockwise turns are no turn; a counter-clockwise turn
/// is three clockwise ones.
pub proof fn rotation_laws(c: Cell)
    ensures
        rot(2, rot(2, c)) == c,
        rot(1, rot(1, rot(1, rot(1, c)))) == c,
        rot(3, c) == rot(1, rot(1, rot(1, c))),
        rot(1, rot(3, c)) == c,
{
}

/// Turning by `k` and then by `unrot(k)` gives the cell back, in either order.
pub proof fn lemma_unrot(k: int, c: Cell)
    requires
        0 <= k < 4,
    ensures
        rot(unrot(k), rot(k, c)) == c,
        rot(k, rot(unrot(k), c)) == c,
        0 <= unrot(k) < 4,
{
}

/// The point unturned.
pub fn rotate_0(fp: FreePoint) -> (r: FreePoint)
    ensures
        r.cell() == rot(0, fp.cell()),
{
    fp
}

/// The point turned a quarter clockwise about the origin.
pub fn rotate_cw(fp: FreePoint) -> (r: FreePoint)
    requires
        fp.x > -128,
    ensures
        r.cell() == rot(1, fp.cell()),
{
    FreePoint { x: fp.y, y: -fp.x }
}

/// The point turned a quarter counter-clockwise about the origin.
pub fn rotate_ccw(fp: FreePoint) -> (r: FreePoint)
    requires
        fp.y > -128,
    ensures
        r.cell() == rot(3, fp.cell()),
{
    FreePoint { x: -fp.y, y: fp.x }
}

/// The point turned a half turn about the origin.
pub fn rotate_180(fp: FreePoint) -> (r: FreePoint)
    requires
        fp.x > -128,
        fp.y > -128,
    ensures
        r.cell() == rot(2, fp.cell()),
{
    FreePoint { x: -fp.x, y: -fp.y }
}

/// Reflects across the x axis.
pub fn mirror_x_axis(fp: FreePoint) -> (r: FreePoint)
    requires
        fp.y > -128,
    ensures
        r.cell() == (fp.x as int, -fp.y),
{
    FreePoint { x: fp.x, y: -fp.y }
}

/// Reflects across the y axis.
pub fn mirror_y_axis(fp: FreePoint) -> (r: FreePoint)
    requires
        fp.x > -128,
    ensures
        r.cell() == (-fp.x, fp.y as int),
{
    FreePoint { x: -fp.x, y: fp.y }
}

/// Turns a point by `amt` quarter turns clockwise.
pub fn rotate_point(fp: FreePoint, amt: u8) -> (r: FreePoint)
    requires
        amt < 4,
        fp.x > -128,
        fp.y > -128,
    ensures
        r.cell() == rot(amt as int, fp.cell()),
{
    if amt == 0 {
        rotate_0(fp)
    } else if amt == 1 {
        rotate_cw(fp)
    } else if amt == 2 {
        rotate_180(fp)
    } else {
        rotate_ccw(fp)
    }
}

/// Turns every cell of `omino` by `rotate_amt` quarter turns clockwise.
pub fn rotate_omino(omino: &Vec<FreePoint>, rotate_amt: u8) -> (r: Vec<FreePoint>)
    requires
        rotate_amt < 4,
        all_in_span(omino@),
    ensures
        r@.len() == omino@.len(),
        forall|i: int|
            0 <= i < r@.len() ==> (#[trigger] r@[i]).cell() == rot(
                rotate_amt as int,
                omino@[i].cell(),
            ),
        all_in_span(r@),
        cell_set(r@) == rot_set(rotate_amt as int, cell_set(omino@)),
{
    let mut out: Vec<FreePoint> = Vec::new();
    let mut i: usize = 0;
    while i < omino.len()
        invariant
            rotate_amt < 4,
            i <= omino@.len(),
            all_in_span(omino@),
            out@.len() == i,
            forall|j: int|
                0 <= j < i ==> (#[trigger] out@[j]).cell() == rot(
                    rotate_amt as int,
                    omino@[j].cell(),
                ),
        decreases omino@.len() - i,
    {
        assert(in_span(omino@[i as int].cell()));
        out.push(rotate_point(omino[i], rotate_amt));
        i += 1;
    }
    proof {
        let k = rotate_amt as int;
        assert forall|c: Cell| cell_set(out@).contains(c) == rot_set(k, cell_set(omino@)).contains(
            c,
        ) by {
            lemma_unrot(k, c);
            if cell_set(out@).contains(c) {
                let j = choose|j: int| 0 <= j < out@.len() && (#[trigger] out@[j]).cell() == c;
                lemma_unrot(k, omino@[j].cell());
            }
            if rot_set(k, cell_set(omino@)).contains(c) {
                let j = choose|j: int|
                    0 <= j < omino@.len() && (#[trigger] omino@[j]).cell() == rot(unrot(k), c);
                assert(out@[j].cell() == c);
            }
        }
        assert(cell_set(out@) =~= rot_set(k, cell_set(omino@)));
    }
    out
}

/// Quarter-turn index of a direction, clockwise from north.
pub open spec fn dir_num(d: Dir) -> int {
    match d {
        Dir::N => 0,
        Dir::E => 1,
        Dir::S => 2,
        Dir::W => 3,
    }
}

/// The quarter-turn index of a direction.
fn dir_to_num(d: Dir) -> (r: i8)
    ensures
        r == dir_num(d),
{
    match d {
        Dir::N => 0,
        Dir::E => 1,
        Dir::S => 2,
        Dir::W => 3,
    }
}

/// Turning a direction's unit step by `k` quarter turns gives the direction `k` steps on.
pub proof fn lemma_rot_dir(k: int, d: Dir)
    requires
        0 <= k < 4,
    ensures
        rot(k, dir_vec(d)) == dir_vec(dir_of_num((dir_num(d) + k) % 4)),
{
}

/// The direction with a given quarter-turn index.
pub open spec fn dir_of_num(n: int) -> Dir {
    if n == 0 {
        Dir::N
    } else if n == 1 {
        Dir::E
    } else if n == 2 {
        Dir::S
    } else {
        Dir::W
    }
}

/// A boundary segment: the cell has no neighbour of its shape in the direction.
#[derive(PartialEq, Eq, Structural, PartialOrd, Ord, Clone, Copy, Debug, Hash)]
pub struct Edge(pub FreePoint, pub Dir);

impl Edge {
    pub open spec fn view_pair(self) -> (Cell, Dir) {
        (self.0.cell(), self.1)
    }

    /// The same segment seen from the cell on its other side.
    pub fn flip(self) -> (r: Edge)
        requires
            fits(step(self.0.cell(), self.1)),
        ensures
            r.0.cell() == step(self.0.cell(), self.1),
            r.1 == self.1.flip_spec(),
    {
        Edge(offset_in_dir(self.0, self.1), self.1.flip())
    }
}

/// The boundary segments of a set of cells.
pub open spec fn perimeter_set(s: Set<Cell>) -> Set<(Cell, Dir)> {
    Set::new(|e: (Cell, Dir)| s.contains(e.0) && !s.contains(step(e.0, e.1)))
}

/// The segments that a list of edges holds.
pub open spec fn edge_set(es: Seq<Edge>) -> Set<(Cell, Dir)> {
    Set::new(|e: (Cell, Dir)| exists|i: int| 0 <= i < es.len() && (#[trigger] es[i]).view_pair() == e)
}

proof fn lemma_edge_set_push(es: Seq<Edge>, e: Edge)
    ensures
        edge_set(es.push(e)) == edge_set(es).insert(e.view_pair()),
{
    let ns = es.push(e);
    assert forall|x: (Cell, Dir)| edge_set(ns).contains(x) == edge_set(es).insert(e.view_pair()).contains(x) by {
        if edge_set(es).contains(x) {
            let i = choose|i: int| 0 <= i < es.len() && (#[trigger] es[i]).view_pair() == x;
            assert(ns[i] == es[i]);
        }
        if edge_set(ns).contains(x) && x != e.view_pair() {
            let i = choose|i: int| 0 <= i < ns.len() && (#[trigger] ns[i]).view_pair() == x;
            assert(ns[i] == es[i]);
        }
        if x == e.view_pair() {
            assert(ns[es.len() as int] == e);
        }
    }
    assert(edge_set(ns) =~= edge_set(es).insert(e.view_pair()));
}

/// Whether some point of `pts` equals `p`.
pub fn contains_point(pts: &Vec<FreePoint>, p: FreePoint) -> (r: bool)
    ensures
        r == cell_set(pts@).contains(p.cell()),
{
    let mut i: usize = 0;
    while i < pts.len()
        invariant
            i <= pts@.len(),
            forall|j: int| 0 <= j < i ==> (#[trigger] pts@[j]).cell() != p.cell(),
        decreases pts@.len() - i,
    {
        if pts[i] == p {
            assert(pts@[i as int].cell() == p.cell());
            return true;
        }
        i += 1;
    }
    false
}

/// The edge `e` belongs to a cell `fps[j]` taken before position (`i`, `k`): an earlier
/// cell, or cell `i` with a direction before the `k`-th.
pub open spec fn edge_before(fps: Seq<FreePoint>, i: int, k: int, e: Edge) -> bool {
    exists|j: int| 0 <= j <= i && j < fps.len() && e.0 == fps[j] && (j < i || dir_num(e.1) < k)
}

/// The boundary segments of a shape: each (cell, direction) whose neighbour in that
/// direction is not a cell of the shape, each once when the cells are distinct.
pub fn iter_perimeter(fps: &Vec<FreePoint>) -> (r: Vec<Edge>)
    requires
        all_in_span(fps@),
    ensures
        edge_set(r@) == perimeter_set(cell_set(fps@)),
        fps@.no_duplicates() ==> r@.no_duplicates(),
        forall|i: int| 0 <= i < r@.len() ==> in_span((#[trigger] r@[i]).0.cell()),
{
    let ghost cs = cell_set(fps@);
    let mut out: Vec<Edge> = Vec::new();
    let mut i: usize = 0;
    while i < fps.len()
        invariant
            i <= fps@.len(),
            cs == cell_set(fps@),
            all_in_span(fps@),
            forall|m: int| 0 <= m < out@.len() ==> perimeter_set(cs).contains((#[trigger] out@[m]).view_pair()),
            forall|m: int| 0 <= m < out@.len() ==> in_span((#[trigger] out@[m]).0.cell()),
            forall|j: int, d: Dir|
                0 <= j < i && #[trigger] perimeter_set(cs).contains((fps@[j].cell(), d))
                    ==> edge_set(out@).contains((fps@[j].cell(), d)),
            forall|m: int| 0 <= m < out@.len() ==> edge_before(fps@, i as int, 0, #[trigger] out@[m]),
            fps@.no_duplicates() ==> out@.no_duplicates(),
        decreases fps@.len() - i,
    {
        let pt = fps[i];
        assert(in_span(fps@[i as int].cell()));
        assert(cs.contains(pt.cell()));
        let nbrs = pt.get_neighbors_with_directions();
        let mut k: usize = 0;
        while k < 4
            invariant
                i < fps@.len(),
                k <= 4,
                pt == fps@[i as int],
                in_span(pt.cell()),
                cs == cell_set(fps@),
                cs.contains(pt.cell()),
                nbrs[0].1 == Dir::N,
                nbrs[1].1 == Dir::E,
                nbrs[2].1 == Dir::S,
                nbrs[3].1 == Dir::W,
                forall|q: int| 0 <= q < 4 ==> (#[trigger] nbrs[q]).0.cell() == step(pt.cell(), nbrs[q].1),
                forall|m: int| 0 <= m < out@.len() ==> perimeter_set(cs).contains((#[trigger] out@[m]).view_pair()),
                forall|m: int| 0 <= m < out@.len() ==> in_span((#[trigger] out@[m]).0.cell()),
                forall|j: int, d: Dir|
                    0 <= j < i && #[trigger] perimeter_set(cs).contains((fps@[j].cell(), d))
                        ==> edge_set(out@).contains((fps@[j].cell(), d)),
                forall|d: Dir|
                    dir_num(d) < k && #[trigger] perimeter_set(cs).contains((pt.cell(), d))
                        ==> edge_set(out@).contains((pt.cell(), d)),
                forall|m: int| 0 <= m < out@.len() ==> edge_before(fps@, i as int, k as int, #[trigger] out@[m]),
                fps@.no_duplicates() ==> out@.no_duplicates(),
            decreases 4 - k,
        {
            let (nb, d) = nbrs[k];
            assert(nbrs[k as int].1 == d && dir_num(d) == k);
            let ghost before = out@;
            if !contains_point(fps, nb) {
                out.push(Edge(pt, d));
                proof {
                    lemma_edge_set_push(before, Edge(pt, d));
                    assert(out@[before.len() as int] == Edge(pt, d));
                    if fps@.no_duplicates() {
                        assert forall|a: int, b: int| 0 <= a < out@.len() && 0 <= b < out@.len() && a != b implies out@[a] != out@[b] by {
                            if a < before.len() && b < before.len() {
                                assert(out@[a] == before[a] && out@[b] == before[b]);
                            } else {
                                let o = if a < before.len() { a } else { b };
                                assert(out@[o] == before[o]);
                                assert(edge_before(fps@, i as int, k as int, before[o]));
                                let j = choose|j: int| 0 <= j <= i && j < fps@.len() && before[o].0 == fps@[j] && (j < i || dir_num(before[o].1) < k);
                                if j < i {
                                    assert(fps@[j] != fps@[i as int]);
                                }
                            }
                        }
                    }
                }
            }
            proof {
                assert forall|m: int| 0 <= m < out@.len() implies edge_before(fps@, i as int, k + 1, #[trigger] out@[m]) by {
                    if m < before.len() {
                        assert(out@[m] == before[m]);
                        assert(edge_before(fps@, i as int, k as int, before[m]));
                        let j = choose|j: int| 0 <= j <= i && j < fps@.len() && before[m].0 == fps@[j] && (j < i || dir_num(before[m].1) < k);
                    } else {
                        assert(out@[m] == Edge(pt, d));
                        assert(fps@[i as int] == pt);
                    }
                }
            }
            k += 1;
        }
        assert forall|j: int, d: Dir|
            0 <= j < i + 1 && #[trigger] perimeter_set(cs).contains((fps@[j].cell(), d))
                implies edge_set(out@).contains((fps@[j].cell(), d)) by {
            if j == i {
                assert(dir_num(d) < 4);
            }
        }
        assert forall|m: int| 0 <= m < out@.len() implies edge_before(fps@, i + 1, 0, #[trigger] out@[m]) by {
            assert(edge_before(fps@, i as int, 4, out@[m]));
            let j = choose|j: int| 0 <= j <= i && j < fps@.len() && out@[m].0 == fps@[j] && (j < i || dir_num(out@[m].1) < 4);
        }
        i += 1;
    }
    proof {
        assert forall|e: (Cell, Dir)| edge_set(out@).contains(e) == perimeter_set(cs).contains(e) by {
            if edge_set(out@).contains(e) {
                let m = choose|m: int| 0 <= m < out@.len() && (#[trigger] out@[m]).view_pair() == e;
            }
            if perimeter_set(cs).contains(e) {
                let j = choose|j: int| 0 <= j < fps@.len() && (#[trigger] fps@[j]).cell() == e.0;
                assert(perimeter_set(cs).contains((fps@[j].cell(), e.1)));
            }
        }
        assert(edge_set(out@) =~= perimeter_set(cs));
    }
    out
}

/// Sorted by neighbour cell, `x` then `y`; equal neighbour cells may repeat.
pub open spec fn sorted_by_neighbor(s: Seq<(FreePoint, Edge)>) -> bool {
    forall|i: int, j: int| 0 <= i < j < s.len() ==> !pt_less(s[j].0.cell(), s[i].0.cell())
}

/// Every entry pairs a cell's neighbour with the edge that faces it.
pub open spec fn neighbor_entries_ok(s: Seq<(FreePoint, Edge)>, cells: Set<Cell>) -> bool {
    forall|j: int|
        0 <= j < s.len() ==> (#[trigger] s[j]).0.cell() == step(s[j].1.0.cell(), s[j].1.1)
            && cells.contains(s[j].1.0.cell())
}

/// The edges that the entries of `s` carry.
pub open spec fn entry_edges(s: Seq<(FreePoint, Edge)>) -> Set<(Cell, Dir)> {
    Set::new(|e: (Cell, Dir)| exists|j: int| 0 <= j < s.len() && (#[trigger] s[j]).1.view_pair() == e)
}

/// Inserts `x` into a list sorted by neighbour cell, keeping it sorted.
fn insert_by_neighbor(out: &mut Vec<(FreePoint, Edge)>, x: (FreePoint, Edge))
    requires
        sorted_by_neighbor(old(out)@),
    ensures
        sorted_by_neighbor(final(out)@),
        final(out)@.to_set() == old(out)@.to_set().insert(x),
        old(out)@.no_duplicates() && !old(out)@.contains(x) ==> final(out)@.no_duplicates(),
{
    let ghost o = out@;
    let mut pos: usize = 0;
    while pos < out.len() && !point_less(x.0, out[pos].0)
        invariant
            out@ == o,
            pos <= o.len(),
            forall|k: int| 0 <= k < pos ==> !pt_less(x.0.cell(), (#[trigger] o[k]).0.cell()),
        decreases o.len() - pos,
    {
        pos += 1;
    }
    out.insert(pos, x);
    proof {
        let n = out@;
        assert(n =~= o.insert(pos as int, x));
        assert forall|i: int, j: int| 0 <= i < j < n.len() implies !pt_less(n[j].0.cell(), n[i].0.cell()) by {
            if j < pos {
            } else if j == pos {
            } else if i < pos {
                assert(n[j] == o[j - 1]);
            } else if i == pos {
                assert(n[j] == o[j - 1]);
                if j - 1 > pos {
                    assert(!pt_less(o[j - 1].0.cell(), o[pos as int].0.cell()));
                }
            } else {
                assert(n[i] == o[i - 1] && n[j] == o[j - 1]);
            }
        }
        assert forall|y: (FreePoint, Edge)| n.to_set().contains(y) == o.to_set().insert(x).contains(y) by {
            if n.contains(y) {
                let k = choose|k: int| 0 <= k < n.len() && n[k] == y;
                if k < pos {
                    assert(o[k] == y);
                } else if k > pos {
                    assert(o[k - 1] == y);
                }
            }
            if o.contains(y) {
                let k = choose|k: int| 0 <= k < o.len() && o[k] == y;
                if k < pos {
                    assert(n[k] == y);
                } else {
                    assert(n[k + 1] == y);
                }
            }
            if y == x {
                assert(n[pos as int] == x);
            }
        }
        assert(n.to_set() =~= o.to_set().insert(x));
        if o.no_duplicates() && !o.contains(x) {
            assert forall|a: int, b: int| 0 <= a < n.len() && 0 <= b < n.len() && a != b implies n[a] != n[b] by {
                let oa = if a < pos { a } else { a - 1 };
                let ob = if b < pos { b } else { b - 1 };
                if a != pos && b != pos {
                    assert(n[a] == o[oa] && n[b] == o[ob]);
                } else if a == pos {
                    assert(n[b] == o[ob]);
                } else {
                    assert(n[a] == o[oa]);
                }
            }
        }
    }
}

/// Some entry before index `n` carries edge `e`.
pub open spec fn edge_taken(ns: Seq<(FreePoint, Edge)>, n: int, e: Edge) -> bool {
    exists|j: int| 0 <= j < n && ns[j].1 == e
}

/// Taking the edge of entry `n` after edges of earlier entries keeps the edges distinct.
proof fn lemma_walk_push(ns: Seq<(FreePoint, Edge)>, out: Seq<Edge>, n: int, cs: Set<Cell>)
    requires
        0 <= n < ns.len(),
        ns.no_duplicates(),
        neighbor_entries_ok(ns, cs),
        out.no_duplicates(),
        forall|m: int| 0 <= m < out.len() ==> edge_taken(ns, n, #[trigger] out[m]),
    ensures
        out.push(ns[n].1).no_duplicates(),
        forall|m: int| 0 <= m < out.len() + 1 ==> edge_taken(ns, n + 1, #[trigger] out.push(ns[n].1)[m]),
{
    let no = out.push(ns[n].1);
    assert forall|a: int, b: int| 0 <= a < no.len() && 0 <= b < no.len() && a != b implies no[a] != no[b] by {
        if a < out.len() && b < out.len() {
            assert(no[a] == out[a] && no[b] == out[b]);
        } else {
            let o = if a < out.len() { a } else { b };
            assert(no[o] == out[o]);
            assert(edge_taken(ns, n, out[o]));
            let j = choose|j: int| 0 <= j < n && ns[j].1 == out[o];
            assert(ns[j] != ns[n]);
            assert(ns[j].0.cell() == step(ns[j].1.0.cell(), ns[j].1.1));
            assert(ns[n].0.cell() == step(ns[n].1.0.cell(), ns[n].1.1));
        }
    }
    assert forall|m: int| 0 <= m < out.len() + 1 implies edge_taken(ns, n + 1, #[trigger] no[m]) by {
        if m < out.len() {
            assert(no[m] == out[m]);
            assert(edge_taken(ns, n, out[m]));
            let j = choose|j: int| 0 <= j < n && ns[j].1 == out[m];
        } else {
            assert(no[m] == ns[n].1);
        }
    }
}

/// The boundary segments of a sorted shape, found by sorting every (neighbour, edge) pair by
/// neighbour and walking that list beside the shape.
pub fn iter_perimeter_slow(fps: &Vec<FreePoint>) -> (r: Vec<Edge>)
    requires
        sorted_pts(fps@),
        all_in_span(fps@),
    ensures
        edge_set(r@) == perimeter_set(cell_set(fps@)),
        r@.no_duplicates(),
{
    let ghost cs = cell_set(fps@);
    let mut neighbors: Vec<(FreePoint, Edge)> = Vec::new();
    let mut i: usize = 0;
    while i < fps.len()
        invariant
            i <= fps@.len(),
            cs == cell_set(fps@),
            all_in_span(fps@),
            sorted_by_neighbor(neighbors@),
            neighbor_entries_ok(neighbors@, cs),
            forall|j: int, d: Dir| 0 <= j < i ==> #[trigger] entry_edges(neighbors@).contains((fps@[j].cell(), d)),
            sorted_pts(fps@),
            neighbors@.no_duplicates(),
            forall|m: int| 0 <= m < neighbors@.len() ==> edge_before(fps@, i as int, 0, (#[trigger] neighbors@[m]).1),
        decreases fps@.len() - i,
    {
        let pt = fps[i];
        assert(in_span(fps@[i as int].cell()));
        assert(cs.contains(pt.cell()));
        let nbrs = pt.get_neighbors_with_directions();
        let mut k: usize = 0;
        while k < 4
            invariant
                i < fps@.len(),
                k <= 4,
                pt == fps@[i as int],
                cs == cell_set(fps@),
                cs.contains(pt.cell()),
                nbrs[0].1 == Dir::N,
                nbrs[1].1 == Dir::E,
                nbrs[2].1 == Dir::S,
                nbrs[3].1 == Dir::W,
                forall|q: int| 0 <= q < 4 ==> (#[trigger] nbrs[q]).0.cell() == step(pt.cell(), nbrs[q].1),
                sorted_by_neighbor(neighbors@),
                neighbor_entries_ok(neighbors@, cs),
                forall|j: int, d: Dir| 0 <= j < i ==> #[trigger] entry_edges(neighbors@).contains((fps@[j].cell(), d)),
                forall|d: Dir| dir_num(d) < k ==> #[trigger] entry_edges(neighbors@).contains((pt.cell(), d)),
                sorted_pts(fps@),
                neighbors@.no_duplicates(),
                forall|m: int| 0 <= m < neighbors@.len() ==> edge_before(fps@, i as int, k as int, (#[trigger] neighbors@[m]).1),
            decreases 4 - k,
        {
            let (nb, d) = nbrs[k];
            assert(nbrs[k as int].1 == d && dir_num(d) == k);
            let ghost before = neighbors@;
            let entry = (nb, Edge(pt, d));
            proof {
                assert(!before.contains(entry)) by {
                    if before.contains(entry) {
                        let m = choose|m: int| 0 <= m < before.len() && before[m] == entry;
                        assert(edge_before(fps@, i as int, k as int, before[m].1));
                        let j = choose|j: int| 0 <= j <= i && j < fps@.len() && before[m].1.0 == fps@[j] && (j < i || dir_num(before[m].1.1) < k);
                        if j < i {
                            assert(pt_less(fps@[j].cell(), fps@[i as int].cell()));
                        }
                    }
                }
            }
            insert_by_neighbor(&mut neighbors, entry);
            proof {
                assert forall|e: (Cell, Dir)| entry_edges(before).contains(e) implies entry_edges(neighbors@).contains(e) by {
                    let j = choose|j: int| 0 <= j < before.len() && (#[trigger] before[j]).1.view_pair() == e;
                    assert(before.contains(before[j]));
                    assert(neighbors@.to_set().contains(before[j]));
                    assert(neighbors@.contains(before[j]));
                    let j2 = choose|j2: int| 0 <= j2 < neighbors@.len() && neighbors@[j2] == before[j];
                    assert(neighbors@[j2].1.view_pair() == e);
                }
                assert(neighbors@.to_set().contains(entry));
                assert(neighbors@.contains(entry));
                let je = choose|je: int| 0 <= je < neighbors@.len() && neighbors@[je] == entry;
                assert(neighbors@[je].1.view_pair() == (pt.cell(), d));
                assert(entry_edges(neighbors@).contains((pt.cell(), d)));
                assert forall|j: int, d2: Dir| 0 <= j < i implies #[trigger] entry_edges(neighbors@).contains((fps@[j].cell(), d2)) by {
                    assert(entry_edges(before).contains((fps@[j].cell(), d2)));
                }
                assert forall|d2: Dir| dir_num(d2) < k + 1 implies #[trigger] entry_edges(neighbors@).contains((pt.cell(), d2)) by {
                    if dir_num(d2) < k {
                        assert(entry_edges(before).contains((pt.cell(), d2)));
                    }
                }
                assert forall|j: int| 0 <= j < neighbors@.len() implies (#[trigger] neighbors@[j]).0.cell() == step(neighbors@[j].1.0.cell(), neighbors@[j].1.1)
                    && cs.contains(neighbors@[j].1.0.cell()) && edge_before(fps@, i as int, k + 1, neighbors@[j].1) by {
                    assert(neighbors@.contains(neighbors@[j]));
                    assert(neighbors@.to_set().contains(neighbors@[j]));
                    if neighbors@[j] != entry {
                        assert(before.contains(neighbors@[j]));
                        let j3 = choose|j3: int| 0 <= j3 < before.len() && before[j3] == neighbors@[j];
                        assert(edge_before(fps@, i as int, k as int, before[j3].1));
                        let jj = choose|jj: int| 0 <= jj <= i && jj < fps@.len() && before[j3].1.0 == fps@[jj] && (jj < i || dir_num(before[j3].1.1) < k);
                    } else {
                        assert(fps@[i as int] == pt);
                    }
                }
            }
            k += 1;
        }
        assert forall|m: int| 0 <= m < neighbors@.len() implies edge_before(fps@, i + 1, 0, (#[trigger] neighbors@[m]).1) by {
            assert(edge_before(fps@, i as int, 4, neighbors@[m].1));
            let j = choose|j: int| 0 <= j <= i && j < fps@.len() && neighbors@[m].1.0 == fps@[j] && (j < i || dir_num(neighbors@[m].1.1) < 4);
        }
        assert forall|j: int, d: Dir| 0 <= j < i + 1 implies #[trigger] entry_edges(neighbors@).contains((fps@[j].cell(), d)) by {
            if j == i {
                assert(dir_num(d) < 4);
            }
        }
        i += 1;
    }
    let ghost ns = neighbors@;
    let mut out: Vec<Edge> = Vec::new();
    let mut fps_index: usize = 0;
    let mut neighbors_index: usize = 0;
    while fps_index < fps.len() && neighbors_index < neighbors.len()
        invariant
            ns == neighbors@,
            cs == cell_set(fps@),
            sorted_pts(fps@),
            sorted_by_neighbor(ns),
            neighbor_entries_ok(ns, cs),
            fps_index <= fps@.len(),
            neighbors_index <= ns.len(),
            neighbors_index < ns.len() ==> forall|f: int| 0 <= f < fps_index ==> pt_less((#[trigger] fps@[f]).cell(), ns[neighbors_index as int].0.cell()),
            edge_set(out@) == Set::new(|e: (Cell, Dir)| exists|j: int| 0 <= j < neighbors_index && (#[trigger] ns[j]).1.view_pair() == e && !cs.contains(ns[j].0.cell())),
            ns.no_duplicates(),
            out@.no_duplicates(),
            forall|m: int| 0 <= m < out@.len() ==> edge_taken(ns, neighbors_index as int, #[trigger] out@[m]),
        decreases fps@.len() + ns.len() - fps_index - neighbors_index,
    {
        let nb = neighbors[neighbors_index].0;
        let f = fps[fps_index];
        if nb == f {
            proof {
                assert(cs.contains(f.cell()));
            }
            neighbors_index += 1;
            proof {
                assert forall|m: int| 0 <= m < out@.len() implies edge_taken(ns, neighbors_index as int, #[trigger] out@[m]) by {
                    assert(edge_taken(ns, neighbors_index - 1, out@[m]));
                    let j = choose|j: int| 0 <= j < neighbors_index - 1 && ns[j].1 == out@[m];
                }
                if neighbors_index < ns.len() {
                    assert forall|f2: int| 0 <= f2 < fps_index implies pt_less((#[trigger] fps@[f2]).cell(), ns[neighbors_index as int].0.cell()) by {
                        assert(!pt_less(ns[neighbors_index as int].0.cell(), ns[neighbors_index - 1].0.cell()));
                    }
                }
                assert(edge_set(out@) =~= Set::new(|e: (Cell, Dir)| exists|j: int| 0 <= j < neighbors_index && (#[trigger] ns[j]).1.view_pair() == e && !cs.contains(ns[j].0.cell())));
            }
        } else if point_less(nb, f) {
            proof {
                assert(!cs.contains(nb.cell())) by {
                    if cs.contains(nb.cell()) {
                        let g = choose|g: int| 0 <= g < fps@.len() && (#[trigger] fps@[g]).cell() == nb.cell();
                        if g < fps_index {
                        } else if g > fps_index {
                            assert(pt_less(fps@[fps_index as int].cell(), fps@[g].cell()));
                        }
                    }
                }
            }
            let ghost before = out@;
            out.push(neighbors[neighbors_index].1);
            proof {
                lemma_edge_set_push(before, ns[neighbors_index as int].1);
                lemma_walk_push(ns, before, neighbors_index as int, cs);
            }
            neighbors_index += 1;
            proof {
                if neighbors_index < ns.len() {
                    assert forall|f2: int| 0 <= f2 < fps_index implies pt_less((#[trigger] fps@[f2]).cell(), ns[neighbors_index as int].0.cell()) by {
                        assert(!pt_less(ns[neighbors_index as int].0.cell(), ns[neighbors_index - 1].0.cell()));
                    }
                }
                assert(edge_set(out@) =~= Set::new(|e: (Cell, Dir)| exists|j: int| 0 <= j < neighbors_index && (#[trigger] ns[j]).1.view_pair() == e && !cs.contains(ns[j].0.cell())));
            }
        } else {
            fps_index += 1;
        }
    }
    while neighbors_index < neighbors.len()
        invariant
            ns == neighbors@,
            cs == cell_set(fps@),
            sorted_pts(fps@),
            sorted_by_neighbor(ns),
            neighbor_entries_ok(ns, cs),
            neighbors_index <= ns.len(),
            neighbors_index < ns.len() ==> forall|f: int| 0 <= f < fps@.len() ==> pt_less((#[trigger] fps@[f]).cell(), ns[neighbors_index as int].0.cell()),
            edge_set(out@) == Set::new(|e: (Cell, Dir)| exists|j: int| 0 <= j < neighbors_index && (#[trigger] ns[j]).1.view_pair() == e && !cs.contains(ns[j].0.cell())),
            ns.no_duplicates(),
            out@.no_duplicates(),
            forall|m: int| 0 <= m < out@.len() ==> edge_taken(ns, neighbors_index as int, #[trigger] out@[m]),
        decreases ns.len() - neighbors_index,
    {
        proof {
            assert(!cs.contains(ns[neighbors_index as int].0.cell())) by {
                if cs.contains(ns[neighbors_index as int].0.cell()) {
                    let g = choose|g: int| 0 <= g < fps@.len() && (#[trigger] fps@[g]).cell() == ns[neighbors_index as int].0.cell();
                }
            }
        }
        let ghost before = out@;
        out.push(neighbors[neighbors_index].1);
        proof {
            lemma_edge_set_push(before, ns[neighbors_index as int].1);
            lemma_walk_push(ns, before, neighbors_index as int, cs);
        }
        neighbors_index += 1;
        proof {
            if neighbors_index < ns.len() {
                assert forall|f2: int| 0 <= f2 < fps@.len() implies pt_less((#[trigger] fps@[f2]).cell(), ns[neighbors_index as int].0.cell()) by {
                    assert(!pt_less(ns[neighbors_index as int].0.cell(), ns[neighbors_index - 1].0.cell()));
                }
            }
            assert(edge_set(out@) =~= Set::new(|e: (Cell, Dir)| exists|j: int| 0 <= j < neighbors_index && (#[trigger] ns[j]).1.view_pair() == e && !cs.contains(ns[j].0.cell())));
        }
    }
    proof {
        assert forall|e: (Cell, Dir)| edge_set(out@).contains(e) == perimeter_set(cs).contains(e) by {
            if edge_set(out@).contains(e) {
                let j = choose|j: int| 0 <= j < neighbors_index && (#[trigger] ns[j]).1.view_pair() == e && !cs.contains(ns[j].0.cell());
            }
            if perimeter_set(cs).contains(e) {
                let g = choose|g: int| 0 <= g < fps@.len() && (#[trigger] fps@[g]).cell() == e.0;
                assert(entry_edges(ns).contains((fps@[g].cell(), e.1)));
                let j = choose|j: int| 0 <= j < ns.len() && (#[trigger] ns[j]).1.view_pair() == e;
                assert(j < neighbors_index);
            }
        }
        assert(edge_set(out@) =~= perimeter_set(cs));
    }
    out
}

/// Two shapes with the same cells have the same boundary segments, whatever the order or
/// repetition of their cell lists; in particular a permuted cell list has the same perimeter.
pub proof fn perimeter_ignores_order(a: Seq<FreePoint>, b: Seq<FreePoint>)
    requires
        a.to_multiset() == b.to_multiset(),
    ensures
        perimeter_set(cell_set(a)) == perimeter_set(cell_set(b)),
{
    assert forall|c: Cell| cell_set(a).contains(c) implies cell_set(b).contains(c) by {
        let i = choose|i: int| 0 <= i < a.len() && (#[trigger] a[i]).cell() == c;
        vstd::seq_lib::to_multiset_contains(a, a[i]);
        vstd::seq_lib::to_multiset_contains(b, a[i]);
        assert(a.contains(a[i]));
        assert(b.contains(a[i]));
        let j = choose|j: int| 0 <= j < b.len() && b[j] == a[i];
        assert(b[j].cell() == c);
    }
    assert forall|c: Cell| cell_set(b).contains(c) implies cell_set(a).contains(c) by {
        let i = choose|i: int| 0 <= i < b.len() && (#[trigger] b[i]).cell() == c;
        vstd::seq_lib::to_multiset_contains(b, b[i]);
        vstd::seq_lib::to_multiset_contains(a, b[i]);
        assert(b.contains(b[i]));
        assert(a.contains(b[i]));
        let j = choose|j: int| 0 <= j < a.len() && a[j] == b[i];
        assert(a[j].cell() == c);
    }
    assert(cell_set(a) =~= cell_set(b));
}

/// Joins a sorted list with a list in any order into one sorted list, or gives `None` when
/// they share a cell. Overlap is found by looking each new point up in `pts`.
pub fn merge_pts_slow(pts: &Vec<FreePoint>, new_pts: Vec<FreePoint>) -> (r: Option<Vec<FreePoint>>)
    requires
        sorted_pts(pts@),
        new_pts@.no_duplicates(),
    ensures
        r.is_none() <==> !cell_set(pts@).disjoint(cell_set(new_pts@)),
        r matches Some(m) ==> {
            &&& sorted_pts(m@)
            &&& m@.len() == pts@.len() + new_pts@.len()
            &&& cell_set(m@) == cell_set(pts@).union(cell_set(new_pts@))
        },
{
    let mut i: usize = 0;
    while i < new_pts.len()
        invariant
            i <= new_pts@.len(),
            forall|j: int| 0 <= j < i ==> !cell_set(pts@).contains((#[trigger] new_pts@[j]).cell()),
        decreases new_pts@.len() - i,
    {
        if contains_point(pts, new_pts[i]) {
            assert(cell_set(new_pts@).contains(new_pts@[i as int].cell()));
            return None;
        }
        i += 1;
    }
    assert forall|c: Cell| cell_set(pts@).contains(c) implies !cell_set(new_pts@).contains(c) by {
        if cell_set(new_pts@).contains(c) {
            let j = choose|j: int| 0 <= j < new_pts@.len() && (#[trigger] new_pts@[j]).cell() == c;
        }
    }
    let mut out = new_pts;
    let mut k: usize = 0;
    let ghost start = out@;
    while k < pts.len()
        invariant
            k <= pts@.len(),
            out@ == start + pts@.subrange(0, k as int),
        decreases pts@.len() - k,
    {
        out.push(pts[k]);
        k += 1;
        assert(out@ =~= start + pts@.subrange(0, k as int));
    }
    assert(pts@.subrange(0, k as int) =~= pts@);
    proof {
        let a = out@;
        let ls = start.len() as int;
        assert forall|x: int, y: int| 0 <= x < a.len() && 0 <= y < a.len() && x != y implies a[x] != a[y] by {
            if x < ls && y < ls {
                assert(a[x] == start[x] && a[y] == start[y]);
            } else if x >= ls && y >= ls {
                assert(a[x] == pts@[x - ls] && a[y] == pts@[y - ls]);
                if x < y {
                    assert(pt_less(pts@[x - ls].cell(), pts@[y - ls].cell()));
                } else {
                    assert(pt_less(pts@[y - ls].cell(), pts@[x - ls].cell()));
                }
            } else {
                let xs = if x < ls { x } else { y };
                let xp = if x < ls { y } else { x };
                assert(a[xs] == start[xs] && a[xp] == pts@[xp - ls]);
                assert(cell_set(pts@).contains(pts@[xp - ls].cell()));
                assert(cell_set(start).contains(start[xs].cell()));
            }
        }
        assert forall|c: Cell| cell_set(a).contains(c) == cell_set(pts@).union(cell_set(start)).contains(c) by {
            if cell_set(a).contains(c) {
                let j = choose|j: int| 0 <= j < a.len() && (#[trigger] a[j]).cell() == c;
                if j < ls {
                    assert(a[j] == start[j]);
                } else {
                    assert(a[j] == pts@[j - ls]);
                }
            }
            if cell_set(start).contains(c) {
                let j = choose|j: int| 0 <= j < start.len() && (#[trigger] start[j]).cell() == c;
                assert(a[j] == start[j]);
            }
            if cell_set(pts@).contains(c) {
                let j = choose|j: int| 0 <= j < pts@.len() && (#[trigger] pts@[j]).cell() == c;
                assert(a[j + ls] == pts@[j]);
            }
        }
        assert(cell_set(a) =~= cell_set(pts@).union(cell_set(start)));
    }
    Some(sort_points(&out))
}

/// Joins two sorted point lists into one sorted list, or gives `None` when they share a cell.
pub fn merge_pts(pts: &Vec<FreePoint>, new_pts: Vec<FreePoint>) -> (r: Option<Vec<FreePoint>>)
    requires
        sorted_pts(pts@),
        sorted_pts(new_pts@),
    ensures
        r.is_none() <==> !cell_set(pts@).disjoint(cell_set(new_pts@)),
        r matches Some(m) ==> {
            &&& sorted_pts(m@)
            &&& m@.len() == pts@.len() + new_pts@.len()
            &&& cell_set(m@) == cell_set(pts@).union(cell_set(new_pts@))
        },
{
    let ghost a = pts@;
    let ghost b = new_pts@;
    let mut out: Vec<FreePoint> = Vec::new();
    let mut i: usize = 0;
    let mut j: usize = 0;
    assert(a.subrange(0, 0) =~= Seq::<FreePoint>::empty());
    assert(b.subrange(0, 0) =~= Seq::<FreePoint>::empty());
    assert(cell_set(out@) =~= cell_set(a.subrange(0, 0)).union(cell_set(b.subrange(0, 0))));
    while i < pts.len() || j < new_pts.len()
        invariant
            a == pts@,
            b == new_pts@,
            sorted_pts(a),
            sorted_pts(b),
            i <= a.len(),
            j <= b.len(),
            out@.len() == i + j,
            sorted_pts(out@),
            cell_set(out@) == cell_set(a.subrange(0, i as int)).union(cell_set(b.subrange(0, j as int))),
            cell_set(a.subrange(0, i as int)).disjoint(cell_set(b.subrange(0, j as int))),
            i < a.len() ==> forall|k: int| 0 <= k < out@.len() ==> pt_less((#[trigger] out@[k]).cell(), a[i as int].cell()),
            j < b.len() ==> forall|k: int| 0 <= k < out@.len() ==> pt_less((#[trigger] out@[k]).cell(), b[j as int].cell()),
        decreases a.len() + b.len() - i - j,
    {
        let take_a: bool;
        if i < pts.len() && j < new_pts.len() {
            if pts[i] == new_pts[j] {
                proof {
                    assert(cell_set(a).contains(a[i as int].cell()));
                    assert(cell_set(b).contains(b[j as int].cell()));
                }
                return None;
            }
            take_a = point_less(pts[i], new_pts[j]);
        } else {
            take_a = i < pts.len();
        }
        let ghost sa = cell_set(a.subrange(0, i as int));
        let ghost sb = cell_set(b.subrange(0, j as int));
        if take_a {
            let p = pts[i];
            proof {
                lemma_cell_set_prefix(a, i as int);
                lemma_cell_set_push(out@, p);
                assert(!sb.contains(p.cell())) by {
                    if sb.contains(p.cell()) {
                        let q = choose|q: int| 0 <= q < j && (#[trigger] b.subrange(0, j as int)[q]).cell() == p.cell();
                        assert(cell_set(out@).contains(p.cell()));
                        let k = choose|k: int| 0 <= k < out@.len() && (#[trigger] out@[k]).cell() == p.cell();
                    }
                }
            }
            out.push(p);
            i += 1;
            proof {
                assert(cell_set(out@) =~= cell_set(a.subrange(0, i as int)).union(sb));
                if i < a.len() {
                    assert forall|k: int| 0 <= k < out@.len() implies pt_less((#[trigger] out@[k]).cell(), a[i as int].cell()) by {
                        assert(pt_less(a[i - 1].cell(), a[i as int].cell()));
                        if k < out@.len() - 1 {
                            assert(pt_less(out@[k].cell(), a[i - 1].cell()));
                        } else {
                            assert(out@[k] == a[i - 1]);
                        }
                    }
                }
            }
        } else {
            let p = new_pts[j];
            proof {
                lemma_cell_set_prefix(b, j as int);
                lemma_cell_set_push(out@, p);
                assert(!sa.contains(p.cell())) by {
                    if sa.contains(p.cell()) {
                        let q = choose|q: int| 0 <= q < i && (#[trigger] a.subrange(0, i as int)[q]).cell() == p.cell();
                        assert(cell_set(out@).contains(p.cell()));
                        let k = choose|k: int| 0 <= k < out@.len() && (#[trigger] out@[k]).cell() == p.cell();
                    }
                }
            }
            out.push(p);
            j += 1;
            proof {
                assert(cell_set(out@) =~= sa.union(cell_set(b.subrange(0, j as int))));
                if j < b.len() {
                    assert forall|k: int| 0 <= k < out@.len() implies pt_less((#[trigger] out@[k]).cell(), b[j as int].cell()) by {
                        assert(pt_less(b[j - 1].cell(), b[j as int].cell()));
                        if k < out@.len() - 1 {
                            assert(pt_less(out@[k].cell(), b[j - 1].cell()));
                        } else {
                            assert(out@[k] == b[j - 1]);
                        }
                    }
                }
            }
        }
    }
    proof {
        assert(a.subrange(0, i as int) =~= a);
        assert(b.subrange(0, j as int) =~= b);
    }
    Some(out)
}

/// The first of the hole's neighbours, in the order north, east, south, west, that `s` does
/// not cover.
pub open spec fn first_gap(s: Set<Cell>) -> Option<Dir> {
    if !s.contains(dir_vec(Dir::N)) {
        Some(Dir::N)
    } else if !s.contains(dir_vec(Dir::E)) {
        Some(Dir::E)
    } else if !s.contains(dir_vec(Dir::S)) {
        Some(Dir::S)
    } else if !s.contains(dir_vec(Dir::W)) {
        Some(Dir::W)
    } else {
        None
    }
}

/// How many of the hole's four neighbours `s` covers.
pub open spec fn n_covered(s: Set<Cell>) -> nat {
    (if s.contains(dir_vec(Dir::N)) { 1nat } else { 0nat }) + (if s.contains(dir_vec(Dir::E)) {
        1nat
    } else {
        0nat
    }) + (if s.contains(dir_vec(Dir::S)) { 1nat } else { 0nat }) + (if s.contains(
        dir_vec(Dir::W),
    ) {
        1nat
    } else {
        0nat
    })
}

/// The edge that the search must cover next: the first uncovered neighbour of the hole,
/// facing back towards the hole.
pub open spec fn gap_edge(d: Dir) -> (Cell, Dir) {
    (dir_vec(d), d.flip_spec())
}

/// The next neighbour of the hole to cover, as the edge that a copy must present there, or
/// `None` when `pts` covers all four.
pub fn next_edge_to_cover(pts: &Vec<FreePoint>) -> (r: Option<Edge>)
    ensures
        r.is_none() <==> first_gap(cell_set(pts@)).is_none(),
        r matches Some(e) ==> e.view_pair() == gap_edge(first_gap(cell_set(pts@)).unwrap()),
{
    if !contains_point(pts, FreePoint { x: 0, y: 1 }) {
        Some(Edge(FreePoint { x: 0, y: 1 }, Dir::S))
    } else if !contains_point(pts, FreePoint { x: 1, y: 0 }) {
        Some(Edge(FreePoint { x: 1, y: 0 }, Dir::W))
    } else if !contains_point(pts, FreePoint { x: 0, y: -1 }) {
        Some(Edge(FreePoint { x: 0, y: -1 }, Dir::N))
    } else if !contains_point(pts, FreePoint { x: -1, y: 0 }) {
        Some(Edge(FreePoint { x: -1, y: 0 }, Dir::E))
    } else {
        None
    }
}

/// The translation that carries `a` onto `b`.
pub fn translation_of_a_to_b(a: FreePoint, b: FreePoint) -> (r: FreePoint)
    requires
        fits(sub_cells(b.cell(), a.cell())),
    ensures
        r.cell() == sub_cells(b.cell(), a.cell()),
{
    FreePoint { x: b.x - a.x, y: b.y - a.y }
}

/// Moves `pts` so that `a` lands on `b`; gives the moved points and the translation.
pub fn translate_a_to_b(pts: &Vec<FreePoint>, a: FreePoint, b: FreePoint) -> (r: (
    Vec<FreePoint>,
    FreePoint,
))
    requires
        fits(sub_cells(b.cell(), a.cell())),
        shift_fits(pts@, FreePoint { x: (b.x - a.x) as i8, y: (b.y - a.y) as i8 }),
    ensures
        r.1.cell() == sub_cells(b.cell(), a.cell()),
        r.0@.len() == pts@.len(),
        cell_set(r.0@) == shifted(cell_set(pts@), r.1.cell()),
        sorted_pts(pts@) ==> sorted_pts(r.0@),
        forall|i: int|
            0 <= i < r.0@.len() ==> (#[trigger] r.0@[i]).cell() == add_cells(
                pts@[i].cell(),
                r.1.cell(),
            ),
{
    let translation = translation_of_a_to_b(a, b);
    (translate_omino(pts, translation), translation)
}

/// One copy of a shape: which of its rotations, moved by how much.
#[derive(PartialEq, Eq, Structural, Clone, Copy, Debug)]
pub struct Placement {
    pub rotation: u8,
    pub translation: FreePoint,
}

/// The cells a placement occupies, given the cell sets of the available rotations.
pub open spec fn copy_cells(copies: Seq<Set<Cell>>, pl: Placement) -> Set<Cell> {
    shifted(copies[pl.rotation as int], pl.translation.cell())
}

/// Some placement of `w` covers `c`.
pub open spec fn covered_by(copies: Seq<Set<Cell>>, w: Seq<Placement>, c: Cell) -> bool {
    exists|i: int| 0 <= i < w.len() && (#[trigger] copy_cells(copies, w[i])).contains(c)
}

/// The copy covers at least one of the hole's four neighbours.
pub open spec fn touches_hole(copy: Set<Cell>) -> bool {
    exists|d: Dir| copy.contains(#[trigger] dir_vec(d))
}

/// The copies use known rotations, leave the hole empty, each cover a neighbour of the hole,
/// and do not overlap.
pub open spec fn placements_ok(copies: Seq<Set<Cell>>, w: Seq<Placement>) -> bool {
    &&& forall|i: int| 0 <= i < w.len() ==> (#[trigger] w[i]).rotation < copies.len()
    &&& forall|i: int| 0 <= i < w.len() ==> !(#[trigger] copy_cells(copies, w[i])).contains((0, 0))
    &&& forall|i: int| 0 <= i < w.len() ==> touches_hole(#[trigger] copy_cells(copies, w[i]))
    &&& forall|i: int, j: int|
        0 <= i < w.len() && 0 <= j < w.len() && i != j ==> (#[trigger] copy_cells(
            copies,
            w[i],
        )).disjoint(#[trigger] copy_cells(copies, w[j]))
}

/// `w` is a set of non-overlapping copies that covers all four neighbours of the hole at
/// the origin and leaves the hole itself empty.
pub open spec fn surrounds(copies: Seq<Set<Cell>>, w: Seq<Placement>) -> bool {
    &&& placements_ok(copies, w)
    &&& forall|d: Dir| covered_by(copies, w, #[trigger] dir_vec(d))
}

/// The four rotations of a set of cells, by quarter turns clockwise.
pub open spec fn rotations_of_set(s: Set<Cell>) -> Seq<Set<Cell>> {
    seq![rot_set(0, s), rot_set(1, s), rot_set(2, s), rot_set(3, s)]
}

/// The cell sets of the four rotations of a shape, by quarter turns clockwise.
pub open spec fn rotations_of(shape: Seq<FreePoint>) -> Seq<Set<Cell>> {
    rotations_of_set(cell_set(shape))
}

/// The cell sets of four point lists.
pub open spec fn copies_of(ominos: [Vec<FreePoint>; 4]) -> Seq<Set<Cell>> {
    seq![
        cell_set(ominos[0]@),
        cell_set(ominos[1]@),
        cell_set(ominos[2]@),
        cell_set(ominos[3]@),
    ]
}

/// A partial arrangement for the search with rotations: the sorted union of the cells placed
/// so far, and the copies placed.
#[derive(Debug)]
pub struct Configuration {
    pub pts: Vec<FreePoint>,
    pub placements: Vec<Placement>,
}

/// `pts` is exactly the sorted union of what the placements `w` cover, and those are
/// well placed.
pub open spec fn union_ok(copies: Seq<Set<Cell>>, pts: Seq<FreePoint>, w: Seq<Placement>) -> bool {
    &&& sorted_pts(pts)
    &&& placements_ok(copies, w)
    &&& forall|c: Cell| #[trigger] cell_set(pts).contains(c) == covered_by(copies, w, c)
}

/// A configuration that the search may still extend.
pub open spec fn open_config(copies: Seq<Set<Cell>>, cfg: Configuration) -> bool {
    &&& union_ok(copies, cfg.pts@, cfg.placements@)
    &&& first_gap(cell_set(cfg.pts@)).is_some()
}

/// How many configurations of `s` cover exactly `k` neighbours of the hole.
pub open spec fn count_at(s: Seq<Configuration>, k: nat) -> nat
    decreases s.len(),
{
    if s.len() == 0 {
        0
    } else {
        count_at(s.drop_last(), k) + if n_covered(cell_set(s.last().pts@)) == k {
            1nat
        } else {
            0nat
        }
    }
}

proof fn lemma_count_push(s: Seq<Configuration>, c: Configuration, k: nat)
    ensures
        count_at(s.push(c), k) == count_at(s, k) + if n_covered(cell_set(c.pts@)) == k {
            1nat
        } else {
            0nat
        },
{
    assert(s.push(c).drop_last() =~= s);
}

/// The perimeter lists hold boundary segments of the matching shapes, near the origin.
pub open spec fn perimeters_ok(ominos: [Vec<FreePoint>; 4], perimeters: [Vec<Edge>; 4]) -> bool {
    forall|i: int, m: int|
        0 <= i < 4 && 0 <= m < perimeters[i]@.len() ==> {
            &&& perimeter_set(cell_set(ominos[i]@)).contains((#[trigger] perimeters[i]@[m]).view_pair())
            &&& in_span(perimeters[i]@[m].0.cell())
        }
}

/// The shapes are sorted and near the origin.
pub open spec fn ominos_ok(ominos: [Vec<FreePoint>; 4]) -> bool {
    forall|i: int| 0 <= i < 4 ==> sorted_pts(#[trigger] ominos[i]@) && all_in_span(ominos[i]@)
}

/// What placing copy `pl` adds to a partial arrangement, when the merge succeeded.
proof fn lemma_extend(
    copies: Seq<Set<Cell>>,
    pts: Seq<FreePoint>,
    w: Seq<Placement>,
    pl: Placement,
    merged: Seq<FreePoint>,
    d: Dir,
)
    requires
        union_ok(copies, pts, w),
        pl.rotation < copies.len(),
        first_gap(cell_set(pts)) == Some(d),
        copy_cells(copies, pl).contains(dir_vec(d)),
        !copy_cells(copies, pl).contains((0, 0)),
        cell_set(pts).disjoint(copy_cells(copies, pl)),
        sorted_pts(merged),
        cell_set(merged) == cell_set(pts).union(copy_cells(copies, pl)),
    ensures
        union_ok(copies, merged, w.push(pl)),
        n_covered(cell_set(merged)) > n_covered(cell_set(pts)),
        first_gap(cell_set(merged)).is_none() ==> surrounds(copies, w.push(pl)),
{
    let nw = w.push(pl);
    let last = w.len() as int;
    assert(nw[last] == pl);
    assert(touches_hole(copy_cells(copies, pl)));
    assert forall|i: int| 0 <= i < w.len() implies nw[i] == w[i] by {}
    assert forall|c: Cell| #[trigger] cell_set(merged).contains(c) == covered_by(copies, nw, c) by {
        if cell_set(pts).contains(c) {
            let i = choose|i: int| 0 <= i < w.len() && (#[trigger] copy_cells(copies, w[i])).contains(c);
            assert(copy_cells(copies, nw[i]).contains(c));
        }
        if copy_cells(copies, pl).contains(c) {
            assert(copy_cells(copies, nw[last]).contains(c));
        }
        if covered_by(copies, nw, c) {
            let i = choose|i: int| 0 <= i < nw.len() && (#[trigger] copy_cells(copies, nw[i])).contains(c);
            if i < last {
                assert(covered_by(copies, w, c));
            }
        }
    }
    assert forall|i: int, j: int|
        0 <= i < nw.len() && 0 <= j < nw.len() && i != j implies (#[trigger] copy_cells(
            copies,
            nw[i],
        )).disjoint(#[trigger] copy_cells(copies, nw[j])) by {
        if i < last && j < last {
        } else if i < last {
            assert forall|c: Cell| copy_cells(copies, nw[i]).contains(c) implies !copy_cells(copies, nw[j]).contains(c) by {
                assert(covered_by(copies, w, c));
            }
        } else if j < last {
            assert forall|c: Cell| copy_cells(copies, nw[i]).contains(c) implies !copy_cells(copies, nw[j]).contains(c) by {
                if copy_cells(copies, nw[j]).contains(c) {
                    assert(covered_by(copies, w, c));
                }
            }
        }
    }
    if first_gap(cell_set(merged)).is_none() {
        assert forall|dd: Dir| covered_by(copies, nw, #[trigger] dir_vec(dd)) by {
            assert(cell_set(merged).contains(dir_vec(dd)));
        }
    }
}

/// The perimeter lists hold every boundary segment of the matching shapes.
pub open spec fn perimeters_full(ominos: [Vec<FreePoint>; 4], perimeters: [Vec<Edge>; 4]) -> bool {
    forall|i: int|
        0 <= i < 4 ==> edge_set(#[trigger] perimeters[i]@) == perimeter_set(cell_set(ominos[i]@))
}

/// `s` is the copy that some placement of `w` puts down.
pub open spec fn in_family(copies: Seq<Set<Cell>>, s: Set<Cell>, w: Seq<Placement>) -> bool {
    exists|k: int| 0 <= k < w.len() && copy_cells(copies, w[k]) == s
}

/// Every copy that `placed` puts down is one of the copies of `w`.
pub open spec fn within(copies: Seq<Set<Cell>>, placed: Seq<Placement>, w: Seq<Placement>) -> bool {
    forall|i: int|
        0 <= i < placed.len() ==> in_family(copies, copy_cells(copies, #[trigger] placed[i]), w)
}

/// Some configuration of `stack` from index `from` on places only copies of `w`.
pub open spec fn found_in(
    copies: Seq<Set<Cell>>,
    stack: Seq<Configuration>,
    from: int,
    w: Seq<Placement>,
) -> bool {
    exists|q: int| from <= q < stack.len() && within(copies, #[trigger] stack[q].placements@, w)
}

/// Placement `k` of `w` covers the hole's neighbour in direction `d`, and entry `m` of its
/// rotation's perimeter is the boundary segment it covers it with.
pub open spec fn is_target(
    perimeters: [Vec<Edge>; 4],
    copies: Seq<Set<Cell>>,
    d: Dir,
    w: Seq<Placement>,
    k: int,
    m: int,
) -> bool {
    &&& 0 <= k < w.len()
    &&& w[k].rotation < 4
    &&& copy_cells(copies, w[k]).contains(dir_vec(d))
    &&& 0 <= m < perimeters[w[k].rotation as int]@.len()
    &&& perimeters[w[k].rotation as int]@[m].view_pair() == (
        sub_cells(dir_vec(d), w[k].translation.cell()),
        d.flip_spec(),
    )
}

/// A copy of an arrangement that covers a neighbour of the hole is among the candidates that
/// the search tries there.
pub(crate) proof fn lemma_target_exists(
    ominos: [Vec<FreePoint>; 4],
    perimeters: [Vec<Edge>; 4],
    d: Dir,
    w: Seq<Placement>,
)
    requires
        perimeters_full(ominos, perimeters),
        placements_ok(copies_of(ominos), w),
        covered_by(copies_of(ominos), w, dir_vec(d)),
    ensures
        exists|k: int, m: int| #[trigger] is_target(perimeters, copies_of(ominos), d, w, k, m),
{
    let copies = copies_of(ominos);
    assert(covered_by(copies, w, dir_vec(d)));
    let k = choose|k: int| 0 <= k < w.len() && (#[trigger] copy_cells(copies, w[k])).contains(dir_vec(d));
    let j = w[k].rotation as int;
    assert(j < 4);
    let t = w[k].translation.cell();
    let fp = sub_cells(dir_vec(d), t);
    assert(cell_set(ominos[j]@).contains(fp));
    assert(!copy_cells(copies, w[k]).contains((0, 0)));
    assert(step(fp, d.flip_spec()) == sub_cells((0, 0), t));
    assert(perimeter_set(cell_set(ominos[j]@)).contains((fp, d.flip_spec())));
    assert(edge_set(perimeters[j]@).contains((fp, d.flip_spec())));
    let m = choose|m: int| 0 <= m < perimeters[j]@.len() && (#[trigger] perimeters[j]@[m]).view_pair() == (fp, d.flip_spec());
    assert(is_target(perimeters, copies, d, w, k, m));
}

/// A copy of an arrangement that fills a gap of a configuration drawn from the same
/// arrangement does not overlap it.
proof fn lemma_target_fits(
    copies: Seq<Set<Cell>>,
    pts: Seq<FreePoint>,
    placed: Seq<Placement>,
    w: Seq<Placement>,
    k: int,
    d: Dir,
)
    requires
        union_ok(copies, pts, placed),
        within(copies, placed, w),
        placements_ok(copies, w),
        0 <= k < w.len(),
        copy_cells(copies, w[k]).contains(dir_vec(d)),
        !cell_set(pts).contains(dir_vec(d)),
    ensures
        cell_set(pts).disjoint(copy_cells(copies, w[k])),
{
    assert forall|c: Cell| cell_set(pts).contains(c) implies !copy_cells(copies, w[k]).contains(c) by {
        assert(covered_by(copies, placed, c));
        let i = choose|i: int| 0 <= i < placed.len() && (#[trigger] copy_cells(copies, placed[i])).contains(c);
        assert(in_family(copies, copy_cells(copies, placed[i]), w));
        let k2 = choose|k2: int| 0 <= k2 < w.len() && copy_cells(copies, w[k2]) == copy_cells(copies, placed[i]);
        if k2 == k {
            assert(covered_by(copies, placed, dir_vec(d)));
        } else {
            assert(copy_cells(copies, w[k2]).disjoint(copy_cells(copies, w[k])));
        }
    }
}

proof fn lemma_within_push(copies: Seq<Set<Cell>>, placed: Seq<Placement>, w: Seq<Placement>, k: int)
    requires
        within(copies, placed, w),
        0 <= k < w.len(),
    ensures
        within(copies, placed.push(w[k]), w),
{
    let np = placed.push(w[k]);
    assert forall|i: int| 0 <= i < np.len() implies in_family(copies, copy_cells(copies, #[trigger] np[i]), w) by {
        if i < placed.len() {
            assert(np[i] == placed[i]);
        } else {
            assert(np[i] == w[k]);
        }
    }
}

proof fn lemma_found_push(
    copies: Seq<Set<Cell>>,
    stack: Seq<Configuration>,
    from: int,
    w: Seq<Placement>,
    c: Configuration,
)
    requires
        0 <= from,
        found_in(copies, stack, from, w) || (from <= stack.len() && within(copies, c.placements@, w)),
    ensures
        found_in(copies, stack.push(c), from, w),
{
    let ns = stack.push(c);
    if found_in(copies, stack, from, w) {
        let q = choose|q: int| from <= q < stack.len() && within(copies, #[trigger] stack[q].placements@, w);
        assert(ns[q] == stack[q]);
    } else {
        assert(ns[stack.len() as int] == c);
    }
}

/// The cells that the copies of `w` cover.
pub open spec fn covered_set(copies: Seq<Set<Cell>>, w: Seq<Placement>) -> Set<Cell> {
    Set::new(|c: Cell| covered_by(copies, w, c))
}

/// Copy `i` of `w` covers the first neighbour of the hole, in the order north, east, south,
/// west, that the copies before it leave uncovered.
pub open spec fn fills_gap_at(copies: Seq<Set<Cell>>, w: Seq<Placement>, i: int) -> bool {
    let before = covered_set(copies, w.subrange(0, i));
    &&& first_gap(before).is_some()
    &&& copy_cells(copies, w[i]).contains(dir_vec(first_gap(before).unwrap()))
}

/// Every copy of `w` fills the first gap that the copies before it leave.
pub open spec fn in_gap_order(copies: Seq<Set<Cell>>, w: Seq<Placement>) -> bool {
    forall|i: int| 0 <= i < w.len() ==> #[trigger] fills_gap_at(copies, w, i)
}

proof fn lemma_gap_order_push(copies: Seq<Set<Cell>>, pts: Seq<FreePoint>, w: Seq<Placement>, pl: Placement)
    requires
        in_gap_order(copies, w),
        union_ok(copies, pts, w),
        first_gap(cell_set(pts)).is_some(),
        copy_cells(copies, pl).contains(dir_vec(first_gap(cell_set(pts)).unwrap())),
    ensures
        in_gap_order(copies, w.push(pl)),
{
    let nw = w.push(pl);
    assert forall|i: int| 0 <= i < nw.len() implies #[trigger] fills_gap_at(copies, nw, i) by {
        if i < w.len() {
            assert(nw.subrange(0, i) =~= w.subrange(0, i));
            assert(nw[i] == w[i]);
            assert(fills_gap_at(copies, w, i));
        } else {
            assert(nw.subrange(0, i) =~= w);
            assert(covered_set(copies, w) =~= cell_set(pts));
            assert(nw[i] == pl);
        }
    }
}

/// A configuration extended by one candidate copy on its first gap keeps its copies in gap
/// order.
proof fn lemma_one_more_in_order(
    ominos: [Vec<FreePoint>; 4],
    perimeters: [Vec<Edge>; 4],
    cfg: Configuration,
    w2: Seq<Placement>,
)
    requires
        perimeters_ok(ominos, perimeters),
        open_config(copies_of(ominos), cfg),
        in_gap_order(copies_of(ominos), cfg.placements@),
        one_more_copy(perimeters, first_gap(cell_set(cfg.pts@)).unwrap(), cfg.placements@, w2),
    ensures
        in_gap_order(copies_of(ominos), w2),
{
    let d = first_gap(cell_set(cfg.pts@)).unwrap();
    let (i, m) = choose|i: int, m: int|
        0 <= i < 4 && 0 <= m < perimeters[i]@.len() && (#[trigger] perimeters[i]@[m]).1 == d.flip_spec()
            && w2.len() == cfg.placements@.len() + 1 && w2.subrange(0, cfg.placements@.len() as int) == cfg.placements@
            && w2.last().rotation == i && w2.last().translation.cell() == sub_cells(
            dir_vec(d),
            perimeters[i]@[m].0.cell(),
        );
    assert(perimeter_set(cell_set(ominos[i]@)).contains(perimeters[i]@[m].view_pair()));
    assert(copy_cells(copies_of(ominos), w2.last()).contains(dir_vec(d)));
    assert(w2 =~= cfg.placements@.push(w2.last()));
    lemma_gap_order_push(copies_of(ominos), cfg.pts@, cfg.placements@, w2.last());
}

/// `after` is `before` with one more copy: rotation `i` moved so that the boundary segment
/// `perimeters[i][m]`, which faces the gap `d`, lands on the hole's neighbour in direction `d`.
pub open spec fn one_more_copy(
    perimeters: [Vec<Edge>; 4],
    d: Dir,
    before: Seq<Placement>,
    after: Seq<Placement>,
) -> bool {
    exists|i: int, m: int|
        0 <= i < 4 && 0 <= m < perimeters[i]@.len() && (#[trigger] perimeters[i]@[m]).1 == d.flip_spec()
            && after.len() == before.len() + 1 && after.subrange(0, before.len() as int) == before
            && after.last().rotation == i && after.last().translation.cell() == sub_cells(
            dir_vec(d),
            perimeters[i]@[m].0.cell(),
        )
}

/// Expands one configuration of the search with rotations: every rotated copy whose
/// boundary segment can fill the next gap of the hole without overlap is either the last
/// copy needed, whose placements are returned, or a new configuration pushed on `stack`.
/// Every arrangement that extends the configuration is still reachable from what was pushed,
/// unless an arrangement was returned.
#[verifier::rlimit(100)]
pub fn add_tr_children(
    ominos: &[Vec<FreePoint>; 4],
    perimeters: &[Vec<Edge>; 4],
    stack: &mut Vec<Configuration>,
    config: Configuration,
) -> (r: Option<Vec<Placement>>)
    requires
        ominos_ok(*ominos),
        perimeters_ok(*ominos, *perimeters),
        perimeters_full(*ominos, *perimeters),
        open_config(copies_of(*ominos), config),
    ensures
        r matches Some(w) ==> surrounds(copies_of(*ominos), w@),
        old(stack)@.len() <= final(stack)@.len(),
        final(stack)@.subrange(0, old(stack)@.len() as int) == old(stack)@,
        forall|q: int|
            old(stack)@.len() <= q < final(stack)@.len() ==> open_config(
                copies_of(*ominos),
                #[trigger] final(stack)@[q],
            ),
        forall|k: nat|
            k <= n_covered(cell_set(config.pts@)) ==> #[trigger] count_at(final(stack)@, k)
                == count_at(old(stack)@, k),
        r matches Some(w) ==> one_more_copy(
            *perimeters,
            first_gap(cell_set(config.pts@)).unwrap(),
            config.placements@,
            w@,
        ) && first_gap(cell_set(config.pts@).union(copy_cells(copies_of(*ominos), w@.last()))).is_none(),
        forall|q: int|
            old(stack)@.len() <= q < final(stack)@.len() ==> one_more_copy(
                *perimeters,
                first_gap(cell_set(config.pts@)).unwrap(),
                config.placements@,
                (#[trigger] final(stack)@[q]).placements@,
            ) && cell_set(final(stack)@[q].pts@) == cell_set(config.pts@).union(
                copy_cells(copies_of(*ominos), final(stack)@[q].placements@.last()),
            ),
        forall|w: Seq<Placement>|
            #[trigger] surrounds(copies_of(*ominos), w) && within(
                copies_of(*ominos),
                config.placements@,
                w,
            ) ==> r.is_some() || found_in(
                copies_of(*ominos),
                final(stack)@,
                old(stack)@.len() as int,
                w,
            ),
{
    let ghost copies = copies_of(*ominos);
    let ghost gap = first_gap(cell_set(config.pts@)).unwrap();
    let ghost s0 = stack@;
    let edge_to_cover = next_edge_to_cover(&config.pts).unwrap();
    let pt_to_cover = edge_to_cover.0;
    let dir_to_cover = edge_to_cover.1;
    assert(stack@.subrange(0, s0.len() as int) =~= s0);
    let mut i: usize = 0;
    while i < 4
        invariant
            i <= 4,
            copies == copies_of(*ominos),
            ominos_ok(*ominos),
            perimeters_ok(*ominos, *perimeters),
            open_config(copies, config),
            first_gap(cell_set(config.pts@)) == Some(gap),
            (pt_to_cover.cell(), dir_to_cover) == gap_edge(gap),
            s0 == old(stack)@,
            s0.len() <= stack@.len(),
            stack@.subrange(0, s0.len() as int) == s0,
            forall|q: int| s0.len() <= q < stack@.len() ==> open_config(copies, #[trigger] stack@[q]),
            forall|q: int|
                s0.len() <= q < stack@.len() ==> one_more_copy(
                    *perimeters,
                    gap,
                    config.placements@,
                    (#[trigger] stack@[q]).placements@,
                ) && cell_set(stack@[q].pts@) == cell_set(config.pts@).union(
                    copy_cells(copies, stack@[q].placements@.last()),
                ),
            forall|k: nat|
                k <= n_covered(cell_set(config.pts@)) ==> #[trigger] count_at(stack@, k)
                    == count_at(s0, k),
            forall|w: Seq<Placement>, k: int, m2: int|
                #[trigger] is_target(*perimeters, copies, gap, w, k, m2) && surrounds(copies, w)
                    && within(copies, config.placements@, w) && w[k].rotation < i ==> found_in(
                    copies,
                    stack@,
                    s0.len() as int,
                    w,
                ),
        decreases 4 - i,
    {
        let mut m: usize = 0;
        while m < perimeters[i].len()
            invariant
                i < 4,
                copies == copies_of(*ominos),
                ominos_ok(*ominos),
                perimeters_ok(*ominos, *perimeters),
                open_config(copies, config),
                first_gap(cell_set(config.pts@)) == Some(gap),
                (pt_to_cover.cell(), dir_to_cover) == gap_edge(gap),
                s0 == old(stack)@,
                s0.len() <= stack@.len(),
                stack@.subrange(0, s0.len() as int) == s0,
                forall|q: int| s0.len() <= q < stack@.len() ==> open_config(copies, #[trigger] stack@[q]),
            forall|q: int|
                s0.len() <= q < stack@.len() ==> one_more_copy(
                    *perimeters,
                    gap,
                    config.placements@,
                    (#[trigger] stack@[q]).placements@,
                ) && cell_set(stack@[q].pts@) == cell_set(config.pts@).union(
                    copy_cells(copies, stack@[q].placements@.last()),
                ),
                forall|k: nat|
                    k <= n_covered(cell_set(config.pts@)) ==> #[trigger] count_at(stack@, k)
                        == count_at(s0, k),
                forall|w: Seq<Placement>, k: int, m2: int|
                    #[trigger] is_target(*perimeters, copies, gap, w, k, m2) && surrounds(copies, w)
                        && within(copies, config.placements@, w) && (w[k].rotation < i || (
                        w[k].rotation == i && m2 < m)) ==> found_in(
                        copies,
                        stack@,
                        s0.len() as int,
                        w,
                    ),
            decreases perimeters[i as int]@.len() - m,
        {
            let fp = perimeters[i][m].0;
            let d = perimeters[i][m].1;
            if d == dir_to_cover {
                let ghost om = ominos[i as int]@;
                assert(perimeter_set(cell_set(om)).contains(perimeters[i as int]@[m as int].view_pair()));
                assert(sorted_pts(om) && all_in_span(om));
                assert forall|k: int| 0 <= k < om.len() implies fits(add_cells((#[trigger] om[k]).cell(), sub_cells(pt_to_cover.cell(), fp.cell()))) by {
                    assert(in_span(om[k].cell()));
                }
                let (moved, translation) = translate_a_to_b(&ominos[i], fp, pt_to_cover);
                let pl = Placement { rotation: i as u8, translation };
                proof {
                    assert(copy_cells(copies, pl) == shifted(cell_set(om), translation.cell()));
                    assert(copy_cells(copies, pl).contains(dir_vec(gap))) by {
                        assert(sub_cells(dir_vec(gap), translation.cell()) == fp.cell());
                    }
                    assert(!copy_cells(copies, pl).contains((0, 0))) by {
                        assert(sub_cells((0, 0), translation.cell()) == step(fp.cell(), d));
                    }
                    assert forall|w: Seq<Placement>, k: int, m2: int|
                        #[trigger] is_target(*perimeters, copies, gap, w, k, m2) && w[k].rotation == i && m2 == m
                            implies w[k] == pl by {
                        assert(w[k].translation.cell() == translation.cell());
                    }
                }
                match merge_pts(&config.pts, moved) {
                    Some(merged_pts) => {
                        let mut new_pairs = config.placements.clone();
                        assert(new_pairs@ =~= config.placements@);
                        new_pairs.push(pl);
                        proof {
                            lemma_extend(copies, config.pts@, config.placements@, pl, merged_pts@, gap);
                        }
                        proof {
                            assert(new_pairs@.subrange(0, config.placements@.len() as int) =~= config.placements@);
                            assert(new_pairs@.last() == pl);
                            assert(perimeters[i as int]@[m as int].1 == gap.flip_spec());
                            assert(one_more_copy(*perimeters, gap, config.placements@, new_pairs@));
                        }
                        match next_edge_to_cover(&merged_pts) {
                            None => {
                                return Some(new_pairs);
                            },
                            Some(_) => {
                                let ghost before = stack@;
                                let new_config = Configuration { pts: merged_pts, placements: new_pairs };
                                stack.push(new_config);
                                proof {
                                    assert forall|k: nat|
                                        k <= n_covered(cell_set(config.pts@)) implies #[trigger] count_at(stack@, k)
                                            == count_at(s0, k) by {
                                        lemma_count_push(before, new_config, k);
                                    }
                                    assert forall|q: int| s0.len() <= q < stack@.len() implies open_config(copies, #[trigger] stack@[q]) && one_more_copy(
                                        *perimeters,
                                        gap,
                                        config.placements@,
                                        stack@[q].placements@,
                                    ) && cell_set(stack@[q].pts@) == cell_set(config.pts@).union(
                                        copy_cells(copies, stack@[q].placements@.last()),
                                    ) by {
                                        if q < before.len() {
                                            assert(stack@[q] == before[q]);
                                        }
                                    }
                                    assert(stack@.subrange(0, s0.len() as int) =~= s0) by {
                                        assert(before.subrange(0, s0.len() as int) == s0);
                                    }
                                    assert forall|w: Seq<Placement>, k: int, m2: int|
                                        #[trigger] is_target(*perimeters, copies, gap, w, k, m2) && surrounds(copies, w)
                                            && within(copies, config.placements@, w) && (w[k].rotation < i || (
                                            w[k].rotation == i && m2 < m + 1)) implies found_in(
                                            copies,
                                            stack@,
                                            s0.len() as int,
                                            w,
                                        ) by {
                                        if w[k].rotation == i && m2 == m {
                                            lemma_within_push(copies, config.placements@, w, k);
                                            assert(new_config.placements@ == config.placements@.push(w[k]));
                                        }
                                        lemma_found_push(copies, before, s0.len() as int, w, new_config);
                                    }
                                }
                            },
                        }
                    },
                    None => {
                        proof {
                            assert forall|w: Seq<Placement>, k: int, m2: int|
                                #[trigger] is_target(*perimeters, copies, gap, w, k, m2) && surrounds(copies, w)
                                    && within(copies, config.placements@, w) && (w[k].rotation < i || (
                                    w[k].rotation == i && m2 < m + 1)) implies found_in(
                                    copies,
                                    stack@,
                                    s0.len() as int,
                                    w,
                                ) by {
                                if w[k].rotation == i && m2 == m {
                                    assert(!cell_set(config.pts@).contains(dir_vec(gap)));
                                    lemma_target_fits(copies, config.pts@, config.placements@, w, k, gap);
                                }
                            }
                        }
                    },
                }
            } else {
                proof {
                    assert forall|w: Seq<Placement>, k: int, m2: int|
                        #[trigger] is_target(*perimeters, copies, gap, w, k, m2) && surrounds(copies, w)
                            && within(copies, config.placements@, w) && (w[k].rotation < i || (
                            w[k].rotation == i && m2 < m + 1)) implies found_in(
                            copies,
                            stack@,
                            s0.len() as int,
                            w,
                        ) by {
                        if w[k].rotation == i && m2 == m {
                            assert(perimeters[i as int]@[m as int].view_pair().1 == gap.flip_spec());
                        }
                    }
                }
            }
            m += 1;
        }
        i += 1;
    }
    proof {
        assert forall|w: Seq<Placement>|
            #[trigger] surrounds(copies, w) && within(copies, config.placements@, w) implies found_in(
                copies,
                stack@,
                s0.len() as int,
                w,
            ) by {
            lemma_target_exists(*ominos, *perimeters, gap, w);
            let (k, m2) = choose|k: int, m2: int| #[trigger] is_target(*perimeters, copies, gap, w, k, m2);
        }
    }
    None
}

impl Default for Configuration {
    /// The configuration with nothing placed yet.
    fn default() -> (r: Configuration)
        ensures
            r.pts@.len() == 0,
            r.placements@.len() == 0,
    {
        Configuration { pts: Vec::new(), placements: Vec::new() }
    }
}

impl Default for ConfigurationTranslation {
    /// The configuration with nothing placed yet.
    fn default() -> (r: ConfigurationTranslation)
        ensures
            r.pts@.len() == 0,
            r.translations@.len() == 0,
    {
        ConfigurationTranslation { pts: Vec::new(), translations: Vec::new() }
    }
}

proof fn lemma_empty_open(copies: Seq<Set<Cell>>, cfg: Configuration)
    requires
        cfg.pts@.len() == 0,
        cfg.placements@.len() == 0,
    ensures
        open_config(copies, cfg),
{
    assert(!cell_set(cfg.pts@).contains(dir_vec(Dir::N)));
}

/// The four rotations of a shape, each sorted, with their perimeters.
pub(crate) fn rotations_and_perimeters(omino: &Vec<FreePoint>) -> (r: ([Vec<FreePoint>; 4], [Vec<Edge>; 4]))
    requires
        all_in_span(omino@),
        omino@.no_duplicates(),
    ensures
        ominos_ok(r.0),
        perimeters_ok(r.0, r.1),
        perimeters_full(r.0, r.1),
        copies_of(r.0) == rotations_of(omino@),
{
    let r0 = sort_rotation(omino, 0);
    let r1 = sort_rotation(omino, 1);
    let r2 = sort_rotation(omino, 2);
    let r3 = sort_rotation(omino, 3);
    let p0 = iter_perimeter(&r0);
    let p1 = iter_perimeter(&r1);
    let p2 = iter_perimeter(&r2);
    let p3 = iter_perimeter(&r3);
    let ominos = [r0, r1, r2, r3];
    let perimeters = [p0, p1, p2, p3];
    proof {
        assert forall|i: int, m: int|
            0 <= i < 4 && 0 <= m < perimeters[i]@.len() implies {
                &&& perimeter_set(cell_set(ominos[i]@)).contains((#[trigger] perimeters[i]@[m]).view_pair())
                &&& in_span(perimeters[i]@[m].0.cell())
            } by {
            assert(edge_set(perimeters[i]@).contains(perimeters[i]@[m].view_pair()));
        }
        assert(copies_of(ominos) =~= rotations_of(omino@));
        assert(perimeters_full(ominos, perimeters));
    }
    (ominos, perimeters)
}

/// A rotation of a shape, sorted.
fn sort_rotation(omino: &Vec<FreePoint>, amt: u8) -> (r: Vec<FreePoint>)
    requires
        amt < 4,
        all_in_span(omino@),
        omino@.no_duplicates(),
    ensures
        sorted_pts(r@),
        all_in_span(r@),
        cell_set(r@) == rot_set(amt as int, cell_set(omino@)),
{
    let rotated = rotate_omino(omino, amt);
    proof {
        assert forall|i: int, j: int|
            0 <= i < rotated@.len() && 0 <= j < rotated@.len() && i != j implies rotated@[i]
            != rotated@[j] by {
            lemma_unrot(amt as int, omino@[i].cell());
            lemma_unrot(amt as int, omino@[j].cell());
        }
    }
    let sorted = sort_points(&rotated);
    proof {
        assert forall|i: int| 0 <= i < sorted@.len() implies in_span(#[trigger] sorted@[i].cell()) by {
            assert(cell_set(sorted@).contains(sorted@[i].cell()));
            let j = choose|j: int| 0 <= j < rotated@.len() && (#[trigger] rotated@[j]).cell() == sorted@[i].cell();
        }
    }
    sorted
}

/// Searches for rotated and translated copies of `omino` that surround the hole at the
/// origin without overlap, filling the hole's neighbours in the order north, east, south,
/// west: each placed copy covers the first neighbour that the copies before it leave open.
/// Gives the placements found, or `None` when no arrangement exists.
pub fn find_arrangement(omino: &Vec<FreePoint>) -> (r: Option<Vec<Placement>>)
    requires
        all_in_span(omino@),
        omino@.no_duplicates(),
    ensures
        r matches Some(w) ==> surrounds(rotations_of(omino@), w@),
        r.is_some() == can_surround(cell_set(omino@)),
        r matches Some(w) ==> in_gap_order(rotations_of(omino@), w@),
{
    let (rotated_ominos, perimeters) = rotations_and_perimeters(omino);
    let ghost copies = copies_of(rotated_ominos);
    let mut stack: Vec<Configuration> = Vec::new();
    let start = Configuration::default();
    proof {
        lemma_empty_open(copies, start);
    }
    stack.push(start);
    proof {
        assert forall|w: Seq<Placement>| #[trigger] surrounds(copies, w) implies found_in(copies, stack@, 0, w) by {
            assert(within(copies, stack@[0].placements@, w));
        }
    }
    while stack.len() > 0
        invariant
            copies == copies_of(rotated_ominos),
            copies == rotations_of(omino@),
            forall|w: Seq<Placement>| #[trigger] surrounds(copies, w) ==> found_in(copies, stack@, 0, w),
            ominos_ok(rotated_ominos),
            perimeters_ok(rotated_ominos, perimeters),
            perimeters_full(rotated_ominos, perimeters),
            forall|q: int| 0 <= q < stack@.len() ==> open_config(copies, #[trigger] stack@[q]),
            forall|q: int| 0 <= q < stack@.len() ==> in_gap_order(copies, (#[trigger] stack@[q]).placements@),
        decreases count_at(stack@, 0), count_at(stack@, 1), count_at(stack@, 2), count_at(stack@, 3),
    {
        let ghost s_before = stack@;
        let config = stack.pop().unwrap();
        let ghost s_popped = stack@;
        let ghost k0 = n_covered(cell_set(config.pts@));
        proof {
            assert(s_popped.push(config) =~= s_before);
            assert(open_config(copies, s_before[s_before.len() - 1]));
            assert forall|k: nat| #[trigger] count_at(s_before, k) == count_at(s_popped, k) + if k0 == k { 1nat } else { 0nat } by {
                lemma_count_push(s_popped, config, k);
            }
            assert(k0 <= 3);
            assert(in_gap_order(copies, s_before[s_before.len() - 1].placements@));
        }
        match add_tr_children(&rotated_ominos, &perimeters, &mut stack, config) {
            Some(ans) => {
                proof {
                    lemma_one_more_in_order(rotated_ominos, perimeters, config, ans@);
                }
                return Some(ans);
            },
            None => (),
        }
        proof {
            assert forall|q: int| 0 <= q < stack@.len() implies open_config(copies, #[trigger] stack@[q])
                && in_gap_order(copies, stack@[q].placements@) by {
                if q < s_popped.len() {
                    assert(stack@.subrange(0, s_popped.len() as int)[q] == stack@[q]);
                    assert(s_popped[q] == s_before[q]);
                } else {
                    lemma_one_more_in_order(rotated_ominos, perimeters, config, stack@[q].placements@);
                }
            }
            assert forall|w: Seq<Placement>| #[trigger] surrounds(copies, w) implies found_in(copies, stack@, 0, w) by {
                let q = choose|q: int| 0 <= q < s_before.len() && within(copies, #[trigger] s_before[q].placements@, w);
                if q < s_popped.len() {
                    assert(stack@.subrange(0, s_popped.len() as int)[q] == stack@[q]);
                    assert(s_popped[q] == s_before[q]);
                } else {
                    assert(found_in(copies, stack@, s_popped.len() as int, w));
                    let q2 = choose|q2: int| s_popped.len() <= q2 < stack@.len() && within(copies, #[trigger] stack@[q2].placements@, w);
                }
            }
            assert(count_at(stack@, 0) == count_at(s_popped, 0));
            if k0 >= 1 {
                assert(count_at(stack@, 1) == count_at(s_popped, 1));
            }
            if k0 >= 2 {
                assert(count_at(stack@, 2) == count_at(s_popped, 2));
            }
            if k0 >= 3 {
                assert(count_at(stack@, 3) == count_at(s_popped, 3));
            }
        }
    }
    proof {
        if can_surround(cell_set(omino@)) {
            let w = choose|w: Seq<Placement>| surrounds(rotations_of_set(cell_set(omino@)), w);
            assert(found_in(copies, stack@, 0, w));
        }
    }
    None
}

/// Translations as placements of the unturned shape.
pub open spec fn as_placements(ts: Seq<FreePoint>) -> Seq<Placement> {
    ts.map_values(|t: FreePoint| Placement { rotation: 0, translation: t })
}

/// A partial arrangement for the search by translation alone: the sorted union of the cells
/// placed so far, and the translation of each copy.
#[derive(Debug)]
pub struct ConfigurationTranslation {
    pub pts: Vec<FreePoint>,
    pub translations: Vec<FreePoint>,
}

/// A translation-only configuration that the search may still extend.
pub open spec fn open_config_translation(copies: Seq<Set<Cell>>, cfg: ConfigurationTranslation) -> bool {
    &&& union_ok(copies, cfg.pts@, as_placements(cfg.translations@))
    &&& first_gap(cell_set(cfg.pts@)).is_some()
}

/// How many configurations of `s` cover exactly `k` neighbours of the hole.
pub open spec fn count_at_translation(s: Seq<ConfigurationTranslation>, k: nat) -> nat
    decreases s.len(),
{
    if s.len() == 0 {
        0
    } else {
        count_at_translation(s.drop_last(), k) + if n_covered(cell_set(s.last().pts@)) == k {
            1nat
        } else {
            0nat
        }
    }
}

proof fn lemma_count_translation_push(s: Seq<ConfigurationTranslation>, c: ConfigurationTranslation, k: nat)
    ensures
        count_at_translation(s.push(c), k) == count_at_translation(s, k) + if n_covered(
            cell_set(c.pts@),
        ) == k {
            1nat
        } else {
            0nat
        },
{
    assert(s.push(c).drop_last() =~= s);
}

/// Copies of the cells `s`, all in their own orientation and only moved, can surround the
/// hole.
pub open spec fn can_surround_translating(s: Set<Cell>) -> bool {
    exists|w: Seq<Placement>| surrounds(seq![s], w)
}

/// Some configuration of `stack` from index `from` on places only copies of `w`.
pub open spec fn found_in_translation(
    copies: Seq<Set<Cell>>,
    stack: Seq<ConfigurationTranslation>,
    from: int,
    w: Seq<Placement>,
) -> bool {
    exists|q: int|
        from <= q < stack.len() && within(copies, as_placements((#[trigger] stack[q]).translations@), w)
}

/// Placement `k` of `w` covers the hole's neighbour in direction `d`, and entry `m` of the
/// perimeter is the boundary segment it covers it with.
pub open spec fn is_target_translation(
    perimeter: Seq<Edge>,
    copies: Seq<Set<Cell>>,
    d: Dir,
    w: Seq<Placement>,
    k: int,
    m: int,
) -> bool {
    &&& 0 <= k < w.len()
    &&& w[k].rotation == 0
    &&& copy_cells(copies, w[k]).contains(dir_vec(d))
    &&& 0 <= m < perimeter.len()
    &&& perimeter[m].view_pair() == (sub_cells(dir_vec(d), w[k].translation.cell()), d.flip_spec())
}

proof fn lemma_target_exists_translation(
    omino: Seq<FreePoint>,
    perimeter: Seq<Edge>,
    d: Dir,
    w: Seq<Placement>,
)
    requires
        edge_set(perimeter) == perimeter_set(cell_set(omino)),
        placements_ok(seq![cell_set(omino)], w),
        covered_by(seq![cell_set(omino)], w, dir_vec(d)),
    ensures
        exists|k: int, m: int| #[trigger] is_target_translation(perimeter, seq![cell_set(omino)], d, w, k, m),
{
    let copies = seq![cell_set(omino)];
    let k = choose|k: int| 0 <= k < w.len() && (#[trigger] copy_cells(copies, w[k])).contains(dir_vec(d));
    assert(w[k].rotation < 1);
    let t = w[k].translation.cell();
    let fp = sub_cells(dir_vec(d), t);
    assert(cell_set(omino).contains(fp));
    assert(!copy_cells(copies, w[k]).contains((0, 0)));
    assert(step(fp, d.flip_spec()) == sub_cells((0, 0), t));
    assert(perimeter_set(cell_set(omino)).contains((fp, d.flip_spec())));
    assert(edge_set(perimeter).contains((fp, d.flip_spec())));
    let m = choose|m: int| 0 <= m < perimeter.len() && (#[trigger] perimeter[m]).view_pair() == (fp, d.flip_spec());
    assert(is_target_translation(perimeter, copies, d, w, k, m));
}

proof fn lemma_found_translation_push(
    copies: Seq<Set<Cell>>,
    stack: Seq<ConfigurationTranslation>,
    from: int,
    w: Seq<Placement>,
    c: ConfigurationTranslation,
)
    requires
        0 <= from,
        found_in_translation(copies, stack, from, w) || (from <= stack.len() && within(
            copies,
            as_placements(c.translations@),
            w,
        )),
    ensures
        found_in_translation(copies, stack.push(c), from, w),
{
    let ns = stack.push(c);
    if found_in_translation(copies, stack, from, w) {
        let q = choose|q: int|
            from <= q < stack.len() && within(copies, as_placements((#[trigger] stack[q]).translations@), w);
        assert(ns[q] == stack[q]);
    } else {
        assert(ns[stack.len() as int] == c);
    }
}

/// `after` is `before` with one more translation: the one that moves the boundary segment
/// `perimeter[m]`, which faces the gap `d`, onto the hole's neighbour in direction `d`.
pub open spec fn one_more_translation(
    perimeter: Seq<Edge>,
    d: Dir,
    before: Seq<FreePoint>,
    after: Seq<FreePoint>,
) -> bool {
    exists|m: int|
        0 <= m < perimeter.len() && (#[trigger] perimeter[m]).1 == d.flip_spec() && after.len()
            == before.len() + 1 && after.subrange(0, before.len() as int) == before
            && after.last().cell() == sub_cells(dir_vec(d), perimeter[m].0.cell())
}

/// The translation that carries boundary segment `e` onto the hole's neighbour in
/// direction `d`.
pub open spec fn candidate_shift(d: Dir, e: Edge) -> Cell {
    sub_cells(dir_vec(d), e.0.cell())
}

/// Perimeter entry `m` faces gap `d`, and the copy it places fits beside `placed` and closes
/// every gap of the hole.
pub open spec fn closing_translation(
    shape: Set<Cell>,
    placed: Set<Cell>,
    perimeter: Seq<Edge>,
    d: Dir,
    m: int,
) -> bool {
    &&& 0 <= m < perimeter.len()
    &&& perimeter[m].1 == d.flip_spec()
    &&& placed.disjoint(shifted(shape, candidate_shift(d, perimeter[m])))
    &&& first_gap(placed.union(shifted(shape, candidate_shift(d, perimeter[m])))).is_none()
}

/// A translation-only configuration extended by one candidate on its first gap keeps its
/// copies in gap order.
proof fn lemma_one_more_translation_in_order(
    shape: Set<Cell>,
    perimeter: Seq<Edge>,
    cfg: ConfigurationTranslation,
    ts: Seq<FreePoint>,
)
    requires
        forall|m: int| 0 <= m < perimeter.len() ==> perimeter_set(shape).contains((#[trigger] perimeter[m]).view_pair()),
        open_config_translation(seq![shape], cfg),
        in_gap_order(seq![shape], as_placements(cfg.translations@)),
        one_more_translation(perimeter, first_gap(cell_set(cfg.pts@)).unwrap(), cfg.translations@, ts),
    ensures
        in_gap_order(seq![shape], as_placements(ts)),
{
    let d = first_gap(cell_set(cfg.pts@)).unwrap();
    let prev = cfg.translations@;
    let m = choose|m: int|
        0 <= m < perimeter.len() && (#[trigger] perimeter[m]).1 == d.flip_spec() && ts.len() == prev.len() + 1
            && ts.subrange(0, prev.len() as int) == prev && ts.last().cell() == sub_cells(dir_vec(d), perimeter[m].0.cell());
    assert(perimeter_set(shape).contains(perimeter[m].view_pair()));
    let pl = Placement { rotation: 0, translation: ts.last() };
    assert(copy_cells(seq![shape], pl).contains(dir_vec(d)));
    assert(as_placements(ts) =~= as_placements(prev).push(pl));
    lemma_gap_order_push(seq![shape], cfg.pts@, as_placements(prev), pl);
}

/// Expands one configuration of the search by translation: every boundary segment of the
/// shape that faces the next gap of the hole and lets the moved copy fit without overlap
/// either completes the arrangement, whose translations are returned, or gives a new
/// configuration pushed on `stack`. The first completing segment, in perimeter order, ends
/// the expansion. Every arrangement that extends the configuration is still reachable from
/// what was pushed, unless an arrangement was returned.
#[verifier::rlimit(60)]
pub fn add_translation_children(
    omino: &Vec<FreePoint>,
    perimeter: &Vec<Edge>,
    stack: &mut Vec<ConfigurationTranslation>,
    config: ConfigurationTranslation,
) -> (r: Option<Vec<FreePoint>>)
    requires
        sorted_pts(omino@),
        all_in_span(omino@),
        edge_set(perimeter@) == perimeter_set(cell_set(omino@)),
        open_config_translation(seq![cell_set(omino@)], config),
    ensures
        r matches Some(w) ==> surrounds(seq![cell_set(omino@)], as_placements(w@)),
        old(stack)@.len() <= final(stack)@.len(),
        final(stack)@.subrange(0, old(stack)@.len() as int) == old(stack)@,
        forall|q: int|
            old(stack)@.len() <= q < final(stack)@.len() ==> open_config_translation(
                seq![cell_set(omino@)],
                #[trigger] final(stack)@[q],
            ),
        forall|k: nat|
            k <= n_covered(cell_set(config.pts@)) ==> #[trigger] count_at_translation(
                final(stack)@,
                k,
            ) == count_at_translation(old(stack)@, k),
        r matches Some(w) ==> one_more_translation(
            perimeter@,
            first_gap(cell_set(config.pts@)).unwrap(),
            config.translations@,
            w@,
        ) && first_gap(cell_set(config.pts@).union(shifted(cell_set(omino@), w@.last().cell()))).is_none(),
        forall|q: int|
            old(stack)@.len() <= q < final(stack)@.len() ==> one_more_translation(
                perimeter@,
                first_gap(cell_set(config.pts@)).unwrap(),
                config.translations@,
                (#[trigger] final(stack)@[q]).translations@,
            ) && cell_set(final(stack)@[q].pts@) == cell_set(config.pts@).union(
                shifted(cell_set(omino@), final(stack)@[q].translations@.last().cell()),
            ),
        r matches Some(w) ==> exists|m: int|
            #[trigger] closing_translation(
                cell_set(omino@),
                cell_set(config.pts@),
                perimeter@,
                first_gap(cell_set(config.pts@)).unwrap(),
                m,
            ) && w@.last().cell() == candidate_shift(
                first_gap(cell_set(config.pts@)).unwrap(),
                perimeter@[m],
            ) && forall|m2: int|
                0 <= m2 < m ==> !#[trigger] closing_translation(
                    cell_set(omino@),
                    cell_set(config.pts@),
                    perimeter@,
                    first_gap(cell_set(config.pts@)).unwrap(),
                    m2,
                ),
        r.is_none() ==> forall|m: int|
            !#[trigger] closing_translation(
                cell_set(omino@),
                cell_set(config.pts@),
                perimeter@,
                first_gap(cell_set(config.pts@)).unwrap(),
                m,
            ),
        forall|w: Seq<Placement>|
            #[trigger] surrounds(seq![cell_set(omino@)], w) && within(
                seq![cell_set(omino@)],
                as_placements(config.translations@),
                w,
            ) ==> r.is_some() || found_in_translation(
                seq![cell_set(omino@)],
                final(stack)@,
                old(stack)@.len() as int,
                w,
            ),
{
    let ghost copies = seq![cell_set(omino@)];
    let ghost gap = first_gap(cell_set(config.pts@)).unwrap();
    let ghost s0 = stack@;
    let edge_to_cover = next_edge_to_cover(&config.pts).unwrap();
    let pt_to_cover = edge_to_cover.0;
    let dir_to_cover = edge_to_cover.1;
    assert(stack@.subrange(0, s0.len() as int) =~= s0);
    let mut m: usize = 0;
    while m < perimeter.len()
        invariant
            copies == seq![cell_set(omino@)],
            sorted_pts(omino@),
            all_in_span(omino@),
            edge_set(perimeter@) == perimeter_set(cell_set(omino@)),
            open_config_translation(copies, config),
            first_gap(cell_set(config.pts@)) == Some(gap),
            (pt_to_cover.cell(), dir_to_cover) == gap_edge(gap),
            s0 == old(stack)@,
            s0.len() <= stack@.len(),
            stack@.subrange(0, s0.len() as int) == s0,
            forall|q: int|
                s0.len() <= q < stack@.len() ==> open_config_translation(copies, #[trigger] stack@[q]),
            forall|m2: int|
                0 <= m2 < m ==> !#[trigger] closing_translation(cell_set(omino@), cell_set(config.pts@), perimeter@, gap, m2),
            forall|q: int|
                s0.len() <= q < stack@.len() ==> one_more_translation(
                    perimeter@,
                    gap,
                    config.translations@,
                    (#[trigger] stack@[q]).translations@,
                ) && cell_set(stack@[q].pts@) == cell_set(config.pts@).union(
                    shifted(cell_set(omino@), stack@[q].translations@.last().cell()),
                ),
            forall|k: nat|
                k <= n_covered(cell_set(config.pts@)) ==> #[trigger] count_at_translation(stack@, k)
                    == count_at_translation(s0, k),
            forall|w: Seq<Placement>, k: int, m2: int|
                #[trigger] is_target_translation(perimeter@, copies, gap, w, k, m2) && surrounds(copies, w)
                    && within(copies, as_placements(config.translations@), w) && m2 < m
                    ==> found_in_translation(copies, stack@, s0.len() as int, w),
        decreases perimeter@.len() - m,
    {
        let fp = perimeter[m].0;
        let d = perimeter[m].1;
        assert(edge_set(perimeter@).contains(perimeter@[m as int].view_pair()));
        if d == dir_to_cover {
            let ghost om = omino@;
            assert(in_span(fp.cell()));
            assert forall|k: int| 0 <= k < om.len() implies fits(add_cells((#[trigger] om[k]).cell(), sub_cells(pt_to_cover.cell(), fp.cell()))) by {
                assert(in_span(om[k].cell()));
            }
            let (moved, translation) = translate_a_to_b(omino, fp, pt_to_cover);
            let ghost pl = Placement { rotation: 0, translation };
            proof {
                assert(copy_cells(copies, pl) == shifted(cell_set(om), translation.cell()));
                assert(copy_cells(copies, pl).contains(dir_vec(gap))) by {
                    assert(sub_cells(dir_vec(gap), translation.cell()) == fp.cell());
                }
                assert(!copy_cells(copies, pl).contains((0, 0))) by {
                    assert(sub_cells((0, 0), translation.cell()) == step(fp.cell(), d));
                }
                assert forall|w: Seq<Placement>, k: int, m2: int|
                    #[trigger] is_target_translation(perimeter@, copies, gap, w, k, m2) && m2 == m
                        implies w[k] == pl by {
                    assert(w[k].translation.cell() == translation.cell());
                }
            }
            match merge_pts(&config.pts, moved) {
                Some(merged_pts) => {
                    let mut new_translations = config.translations.clone();
                    assert(new_translations@ =~= config.translations@);
                    new_translations.push(translation);
                    proof {
                        lemma_extend(copies, config.pts@, as_placements(config.translations@), pl, merged_pts@, gap);
                        assert(as_placements(new_translations@) =~= as_placements(config.translations@).push(pl));
                    }
                    proof {
                        assert(new_translations@.subrange(0, config.translations@.len() as int) =~= config.translations@);
                        assert(new_translations@.last() == translation);
                        assert(perimeter@[m as int].1 == gap.flip_spec());
                        assert(one_more_translation(perimeter@, gap, config.translations@, new_translations@));
                        assert(copy_cells(copies, pl) == shifted(cell_set(omino@), translation.cell()));
                    }
                    proof {
                        assert(candidate_shift(gap, perimeter@[m as int]) == translation.cell());
                    }
                    match next_edge_to_cover(&merged_pts) {
                        None => {
                            proof {
                                assert(closing_translation(cell_set(omino@), cell_set(config.pts@), perimeter@, gap, m as int));
                                assert(new_translations@.last().cell() == candidate_shift(gap, perimeter@[m as int]));
                                assert(forall|m2: int|
                                    0 <= m2 < m ==> !#[trigger] closing_translation(cell_set(omino@), cell_set(config.pts@), perimeter@, gap, m2));
                                assert(gap == first_gap(cell_set(config.pts@)).unwrap());
                            }
                            return Some(new_translations);
                        },
                        Some(_) => {
                            let ghost before = stack@;
                            let new_config = ConfigurationTranslation { pts: merged_pts, translations: new_translations };
                            stack.push(new_config);
                            proof {
                                assert forall|k: nat|
                                    k <= n_covered(cell_set(config.pts@)) implies #[trigger] count_at_translation(stack@, k)
                                        == count_at_translation(s0, k) by {
                                    lemma_count_translation_push(before, new_config, k);
                                }
                                assert forall|q: int| s0.len() <= q < stack@.len() implies open_config_translation(copies, #[trigger] stack@[q]) && one_more_translation(
                                    perimeter@,
                                    gap,
                                    config.translations@,
                                    stack@[q].translations@,
                                ) && cell_set(stack@[q].pts@) == cell_set(config.pts@).union(
                                    shifted(cell_set(omino@), stack@[q].translations@.last().cell()),
                                ) by {
                                    if q < before.len() {
                                        assert(stack@[q] == before[q]);
                                    }
                                }
                                assert(stack@.subrange(0, s0.len() as int) =~= s0) by {
                                    assert(before.subrange(0, s0.len() as int) == s0);
                                }
                                assert forall|w: Seq<Placement>, k: int, m2: int|
                                    #[trigger] is_target_translation(perimeter@, copies, gap, w, k, m2) && surrounds(copies, w)
                                        && within(copies, as_placements(config.translations@), w) && m2 < m + 1
                                        implies found_in_translation(copies, stack@, s0.len() as int, w) by {
                                    if m2 == m {
                                        lemma_within_push(copies, as_placements(config.translations@), w, k);
                                    }
                                    lemma_found_translation_push(copies, before, s0.len() as int, w, new_config);
                                }
                                assert(!closing_translation(cell_set(omino@), cell_set(config.pts@), perimeter@, gap, m as int));
                            }
                        },
                    }
                },
                None => {
                    proof {
                        assert forall|w: Seq<Placement>, k: int, m2: int|
                            #[trigger] is_target_translation(perimeter@, copies, gap, w, k, m2) && surrounds(copies, w)
                                && within(copies, as_placements(config.translations@), w) && m2 < m + 1
                                implies found_in_translation(copies, stack@, s0.len() as int, w) by {
                            if m2 == m {
                                assert(!cell_set(config.pts@).contains(dir_vec(gap)));
                                lemma_target_fits(copies, config.pts@, as_placements(config.translations@), w, k, gap);
                            }
                        }
                        assert(candidate_shift(gap, perimeter@[m as int]) == translation.cell());
                        assert(!closing_translation(cell_set(omino@), cell_set(config.pts@), perimeter@, gap, m as int));
                    }
                },
            }
        } else {
            proof {
                assert forall|w: Seq<Placement>, k: int, m2: int|
                    #[trigger] is_target_translation(perimeter@, copies, gap, w, k, m2) && surrounds(copies, w)
                        && within(copies, as_placements(config.translations@), w) && m2 < m + 1
                        implies found_in_translation(copies, stack@, s0.len() as int, w) by {
                    if m2 == m {
                        assert(perimeter@[m as int].view_pair().1 == gap.flip_spec());
                    }
                }
                assert(!closing_translation(cell_set(omino@), cell_set(config.pts@), perimeter@, gap, m as int));
            }
        }
        m += 1;
    }
    proof {
        assert forall|w: Seq<Placement>|
            #[trigger] surrounds(copies, w) && within(copies, as_placements(config.translations@), w)
                implies found_in_translation(copies, stack@, s0.len() as int, w) by {
            lemma_target_exists_translation(omino@, perimeter@, gap, w);
            let (k, m2) = choose|k: int, m2: int| #[trigger] is_target_translation(perimeter@, copies, gap, w, k, m2);
        }
    }
    None
}

/// Searches for translated copies of `omino`, all in its own orientation, that surround the
/// hole at the origin without overlap. Gives the translations found, or `None` when no such
/// arrangement exists.
#[verifier::rlimit(100)]
pub fn find_arrangement_translation(omino: &Vec<FreePoint>) -> (r: Option<Vec<FreePoint>>)
    requires
        all_in_span(omino@),
        omino@.no_duplicates(),
    ensures
        r matches Some(w) ==> surrounds(seq![cell_set(omino@)], as_placements(w@)),
        r.is_some() == can_surround_translating(cell_set(omino@)),
        r matches Some(w) ==> in_gap_order(seq![cell_set(omino@)], as_placements(w@)),
{
    let sorted_omino = sort_rotation(omino, 0);
    let perimeter = iter_perimeter(&sorted_omino);
    let ghost copies = seq![cell_set(sorted_omino@)];
    proof {
        assert(cell_set(sorted_omino@) =~= cell_set(omino@)) by {
            assert forall|c: Cell| rot_set(0, cell_set(omino@)).contains(c) == cell_set(omino@).contains(c) by {}
        }
    }
    let mut stack: Vec<ConfigurationTranslation> = Vec::new();
    let start = ConfigurationTranslation::default();
    proof {
        assert(!cell_set(start.pts@).contains(dir_vec(Dir::N)));
        assert(as_placements(start.translations@) =~= Seq::<Placement>::empty());
    }
    stack.push(start);
    proof {
        assert forall|w: Seq<Placement>| #[trigger] surrounds(copies, w) implies found_in_translation(copies, stack@, 0, w) by {
            assert(within(copies, as_placements(stack@[0].translations@), w));
        }
    }
    while stack.len() > 0
        invariant
            copies == seq![cell_set(sorted_omino@)],
            cell_set(sorted_omino@) == cell_set(omino@),
            sorted_pts(sorted_omino@),
            all_in_span(sorted_omino@),
            edge_set(perimeter@) == perimeter_set(cell_set(sorted_omino@)),
            forall|q: int| 0 <= q < stack@.len() ==> open_config_translation(copies, #[trigger] stack@[q]),
            forall|q: int| 0 <= q < stack@.len() ==> in_gap_order(copies, as_placements((#[trigger] stack@[q]).translations@)),
            forall|w: Seq<Placement>| #[trigger] surrounds(copies, w) ==> found_in_translation(copies, stack@, 0, w),
        decreases count_at_translation(stack@, 0), count_at_translation(stack@, 1),
            count_at_translation(stack@, 2), count_at_translation(stack@, 3),
    {
        let ghost s_before = stack@;
        let config = stack.pop().unwrap();
        let ghost s_popped = stack@;
        let ghost k0 = n_covered(cell_set(config.pts@));
        proof {
            assert(s_popped.push(config) =~= s_before);
            assert(open_config_translation(copies, s_before[s_before.len() - 1]));
            assert forall|k: nat| #[trigger] count_at_translation(s_before, k) == count_at_translation(s_popped, k) + if k0 == k { 1nat } else { 0nat } by {
                lemma_count_translation_push(s_popped, config, k);
            }
            assert(k0 <= 3);
            assert(in_gap_order(copies, as_placements(s_before[s_before.len() - 1].translations@)));
            assert forall|m: int| 0 <= m < perimeter@.len() implies perimeter_set(cell_set(sorted_omino@)).contains((#[trigger] perimeter@[m]).view_pair()) by {
                assert(edge_set(perimeter@).contains(perimeter@[m].view_pair()));
            }
        }
        match add_translation_children(&sorted_omino, &perimeter, &mut stack, config) {
            Some(ans) => {
                proof {
                    lemma_one_more_translation_in_order(cell_set(sorted_omino@), perimeter@, config, ans@);
                }
                return Some(ans);
            },
            None => (),
        }
        proof {
            assert forall|q: int| 0 <= q < stack@.len() implies open_config_translation(copies, #[trigger] stack@[q])
                && in_gap_order(copies, as_placements(stack@[q].translations@)) by {
                if q < s_popped.len() {
                    assert(stack@.subrange(0, s_popped.len() as int)[q] == stack@[q]);
                    assert(s_popped[q] == s_before[q]);
                } else {
                    lemma_one_more_translation_in_order(cell_set(sorted_omino@), perimeter@, config, stack@[q].translations@);
                }
            }
            assert forall|w: Seq<Placement>| #[trigger] surrounds(copies, w) implies found_in_translation(copies, stack@, 0, w) by {
                let q = choose|q: int|
                    0 <= q < s_before.len() && within(copies, as_placements((#[trigger] s_before[q]).translations@), w);
                if q < s_popped.len() {
                    assert(stack@.subrange(0, s_popped.len() as int)[q] == stack@[q]);
                    assert(s_popped[q] == s_before[q]);
                } else {
                    assert(found_in_translation(copies, stack@, s_popped.len() as int, w));
                    let q2 = choose|q2: int|
                        s_popped.len() <= q2 < stack@.len() && within(copies, as_placements((#[trigger] stack@[q2]).translations@), w);
                }
            }
            assert(count_at_translation(stack@, 0) == count_at_translation(s_popped, 0));
            if k0 >= 1 {
                assert(count_at_translation(stack@, 1) == count_at_translation(s_popped, 1));
            }
            if k0 >= 2 {
                assert(count_at_translation(stack@, 2) == count_at_translation(s_popped, 2));
            }
            if k0 >= 3 {
                assert(count_at_translation(stack@, 3) == count_at_translation(s_popped, 3));
            }
        }
    }
    proof {
        if can_surround_translating(cell_set(omino@)) {
            let w = choose|w: Seq<Placement>| surrounds(seq![cell_set(omino@)], w);
            assert(found_in_translation(copies, stack@, 0, w));
        }
    }
    None
}

/// The quarter turns clockwise that carry direction `from` onto direction `to`.
pub open spec fn turn_between(from: Dir, to: Dir) -> int {
    (dir_num(to) - dir_num(from) + 4) % 4
}

/// Turns `omino` so that the edge `src` comes to face `target_dir`; gives the turned shape
/// and where the edge's cell went.
pub fn rotate_omino_edge(omino: &Vec<FreePoint>, src: Edge, target_dir: Dir) -> (r: (
    Vec<FreePoint>,
    FreePoint,
))
    requires
        all_in_span(omino@),
        in_span(src.0.cell()),
    ensures
        rot(turn_between(src.1, target_dir), dir_vec(src.1)) == dir_vec(target_dir),
        r.1.cell() == rot(turn_between(src.1, target_dir), src.0.cell()),
        r.0@.len() == omino@.len(),
        forall|i: int|
            0 <= i < r.0@.len() ==> (#[trigger] r.0@[i]).cell() == rot(
                turn_between(src.1, target_dir),
                omino@[i].cell(),
            ),
        all_in_span(r.0@),
        in_span(r.1.cell()),
{
    let amt_to_rotate = ((dir_to_num(target_dir) - dir_to_num(src.1) + 4) % 4) as u8;
    proof {
        lemma_rot_dir(amt_to_rotate as int, src.1);
    }
    (rotate_omino(omino, amt_to_rotate), rotate_point(src.0, amt_to_rotate))
}

/// Turns and moves `omino` so that its boundary edge `src` lands on `target`: same cell,
/// same direction.
pub fn align_perim(omino: &Vec<FreePoint>, src: Edge, target: Edge) -> (r: Vec<FreePoint>)
    requires
        all_in_span(omino@),
        in_span(src.0.cell()),
        in_span(target.0.cell()),
    ensures
        rot(turn_between(src.1, target.1), dir_vec(src.1)) == dir_vec(target.1),
        r@.len() == omino@.len(),
        forall|i: int|
            0 <= i < r@.len() ==> (#[trigger] r@[i]).cell() == add_cells(
                rot(turn_between(src.1, target.1), omino@[i].cell()),
                sub_cells(target.0.cell(), rot(turn_between(src.1, target.1), src.0.cell())),
            ),
{
    let (rotated_omino, rotated_src_pt) = rotate_omino_edge(omino, src, target.1);
    let translation = translation_of_a_to_b(rotated_src_pt, target.0);
    proof {
        assert forall|i: int| 0 <= i < rotated_omino@.len() implies fits(add_cells((#[trigger] rotated_omino@[i]).cell(), translation.cell())) by {
            assert(in_span(rotated_omino@[i].cell()));
        }
    }
    translate_omino(&rotated_omino, translation)
}

/// Copies of the cells `s`, turned and moved, can surround the hole.
pub open spec fn can_surround(s: Set<Cell>) -> bool {
    exists|w: Seq<Placement>| surrounds(rotations_of_set(s), w)
}


} // verus!
