use vstd::prelude::*;
use vstd::arithmetic::div_mod::lemma_fundamental_div_mod_converse;

use crate::assemble::{all_in_span, in_span};

verus! {

/// A cell position as a pair of mathematical integers.
pub type Cell = (int, int);

/// The four compass directions.
#[derive(PartialEq, Eq, Structural, PartialOrd, Ord, Clone, Copy, Debug, Hash)]
pub enum Dir {
    N,
    E,
    S,
    W,
}

impl Dir {
    pub open spec fn flip_spec(self) -> Dir {
        match self {
            Dir::N => Dir::S,
            Dir::S => Dir::N,
            Dir::E => Dir::W,
            Dir::W => Dir::E,
        }
    }

    /// The opposite direction.
    pub fn flip(self) -> (r: Dir)
        ensures
            r == self.flip_spec(),
    {
        match self {
            Dir::N => Dir::S,
            Dir::S => Dir::N,
            Dir::E => Dir::W,
            Dir::W => Dir::E,
        }
    }
}

/// The unit step of a direction.
pub open spec fn dir_vec(d: Dir) -> Cell {
    match d {
        Dir::N => (0, 1),
        Dir::E => (1, 0),
        Dir::S => (0, -1),
        Dir::W => (-1, 0),
    }
}

/// The cell one step from `c` in direction `d`.
pub open spec fn step(c: Cell, d: Dir) -> Cell {
    (c.0 + dir_vec(d).0, c.1 + dir_vec(d).1)
}

pub open spec fn add_cells(a: Cell, b: Cell) -> Cell {
    (a.0 + b.0, a.1 + b.1)
}

pub open spec fn sub_cells(a: Cell, b: Cell) -> Cell {
    (a.0 - b.0, a.1 - b.1)
}

pub open spec fn fits_i8(v: int) -> bool {
    -128 <= v <= 127
}

pub open spec fn fits(c: Cell) -> bool {
    fits_i8(c.0) && fits_i8(c.1)
}

/// Whether two cells share an edge.
pub open spec fn adjacent(a: Cell, b: Cell) -> bool {
    exists|d: Dir| step(a, d) == b
}

/// A cell with both coordinates signed.
#[derive(PartialEq, Eq, Structural, PartialOrd, Ord, Clone, Copy, Debug, Hash)]
pub struct FreePoint {
    pub x: i8,
    pub y: i8,
}

impl FreePoint {
    pub open spec fn cell(self) -> Cell {
        (self.x as int, self.y as int)
    }

    /// The four edge neighbours: right, left, up, down.
    pub fn get_neighbors(&self) -> (r: Vec<FreePoint>)
        requires
            -128 < self.x < 127,
            -128 < self.y < 127,
        ensures
            r@.len() == 4,
            r@[0].cell() == step(self.cell(), Dir::E),
            r@[1].cell() == step(self.cell(), Dir::W),
            r@[2].cell() == step(self.cell(), Dir::N),
            r@[3].cell() == step(self.cell(), Dir::S),
    {
        let mut out: Vec<FreePoint> = Vec::new();
        out.push(FreePoint { x: self.x + 1, y: self.y });
        out.push(FreePoint { x: self.x - 1, y: self.y });
        out.push(FreePoint { x: self.x, y: self.y + 1 });
        out.push(FreePoint { x: self.x, y: self.y - 1 });
        out
    }

    /// Every cell next to some cell of `pts`, each once.
    pub fn get_all_neighbors(pts: &Vec<FreePoint>) -> (r: Vec<FreePoint>)
        requires
            forall|i: int|
                0 <= i < pts@.len() ==> -128 < (#[trigger] pts@[i]).x < 127 && -128 < pts@[i].y
                    < 127,
        ensures
            r@.no_duplicates(),
            forall|c: Cell|
                #[trigger] cell_set(r@).contains(c) <==> exists|i: int|
                    0 <= i < pts@.len() && adjacent((#[trigger] pts@[i]).cell(), c),
    {
        let mut out: Vec<FreePoint> = Vec::new();
        let mut i: usize = 0;
        while i < pts.len()
            invariant
                i <= pts@.len(),
                forall|i: int|
                    0 <= i < pts@.len() ==> -128 < (#[trigger] pts@[i]).x < 127 && -128 < pts@[i].y
                        < 127,
                out@.no_duplicates(),
                forall|c: Cell|
                    #[trigger] cell_set(out@).contains(c) <==> exists|j: int|
                        0 <= j < i && adjacent((#[trigger] pts@[j]).cell(), c),
            decreases pts@.len() - i,
        {
            let p = pts[i];
            let nbrs = p.get_neighbors();
            let mut k: usize = 0;
            while k < 4
                invariant
                    i < pts@.len(),
                    p == pts@[i as int],
                    k <= 4,
                    nbrs@.len() == 4,
                    nbrs@[0].cell() == step(p.cell(), Dir::E),
                    nbrs@[1].cell() == step(p.cell(), Dir::W),
                    nbrs@[2].cell() == step(p.cell(), Dir::N),
                    nbrs@[3].cell() == step(p.cell(), Dir::S),
                    out@.no_duplicates(),
                    forall|c: Cell|
                        #[trigger] cell_set(out@).contains(c) <==> (exists|j: int|
                            0 <= j < i && adjacent((#[trigger] pts@[j]).cell(), c)) || exists|q: int|
                            0 <= q < k && (#[trigger] nbrs@[q]).cell() == c,
                decreases 4 - k,
            {
                let nb = nbrs[k];
                let mut seen = false;
                let mut m: usize = 0;
                while m < out.len()
                    invariant
                        m <= out@.len(),
                        seen == exists|q: int| 0 <= q < m && out@[q] == nb,
                    decreases out@.len() - m,
                {
                    if out[m] == nb {
                        seen = true;
                    }
                    m += 1;
                }
                let ghost before = out@;
                if !seen {
                    out.push(nb);
                    proof {
                        lemma_cell_set_push(before, nb);
                        assert forall|a: int, b: int|
                            0 <= a < out@.len() && 0 <= b < out@.len() && a != b implies out@[a] != out@[b] by {
                            if a < before.len() && b < before.len() {
                                assert(out@[a] == before[a] && out@[b] == before[b]);
                            }
                        }
                    }
                } else {
                    proof {
                        let q = choose|q: int| 0 <= q < before.len() && before[q] == nb;
                        assert(cell_set(before).contains(nb.cell()));
                    }
                }
                proof {
                    assert forall|c: Cell|
                        #[trigger] cell_set(out@).contains(c) <==> (exists|j: int|
                            0 <= j < i && adjacent((#[trigger] pts@[j]).cell(), c)) || exists|q: int|
                            0 <= q < k + 1 && (#[trigger] nbrs@[q]).cell() == c by {
                        if c == nb.cell() {
                            assert(nbrs@[k as int].cell() == c);
                        }
                    }
                }
                k += 1;
            }
            proof {
                assert forall|c: Cell|
                    #[trigger] cell_set(out@).contains(c) <==> exists|j: int|
                        0 <= j < i + 1 && adjacent((#[trigger] pts@[j]).cell(), c) by {
                    if exists|q: int| 0 <= q < 4 && (#[trigger] nbrs@[q]).cell() == c {
                        let q = choose|q: int| 0 <= q < 4 && (#[trigger] nbrs@[q]).cell() == c;
                        if q == 0 { assert(step(p.cell(), Dir::E) == c); }
                        if q == 1 { assert(step(p.cell(), Dir::W) == c); }
                        if q == 2 { assert(step(p.cell(), Dir::N) == c); }
                        if q == 3 { assert(step(p.cell(), Dir::S) == c); }
                        assert(adjacent(pts@[i as int].cell(), c));
                    }
                    if adjacent(p.cell(), c) {
                        let d = choose|d: Dir| step(p.cell(), d) == c;
                        match d {
                            Dir::E => assert(nbrs@[0].cell() == c),
                            Dir::W => assert(nbrs@[1].cell() == c),
                            Dir::N => assert(nbrs@[2].cell() == c),
                            Dir::S => assert(nbrs@[3].cell() == c),
                        }
                    }
                }
            }
            i += 1;
        }
        out
    }

    /// The four edge neighbours, each with the direction that leads to it.
    pub fn get_neighbors_with_directions(self) -> (r: [(FreePoint, Dir); 4])
        requires
            -128 < self.x < 127,
            -128 < self.y < 127,
        ensures
            r[0].1 == Dir::N,
            r[1].1 == Dir::E,
            r[2].1 == Dir::S,
            r[3].1 == Dir::W,
            forall|i: int| 0 <= i < 4 ==> (#[trigger] r[i]).0.cell() == step(self.cell(), r[i].1),
    {
        [
            (offset_in_dir(self, Dir::N), Dir::N),
            (offset_in_dir(self, Dir::E), Dir::E),
            (offset_in_dir(self, Dir::S), Dir::S),
            (offset_in_dir(self, Dir::W), Dir::W),
        ]
    }
}

/// The set of cells of a point list.
pub open spec fn cell_set(s: Seq<FreePoint>) -> Set<Cell> {
    Set::new(|c: Cell| exists|i: int| 0 <= i < s.len() && (#[trigger] s[i]).cell() == c)
}

/// The order of points by `x`, then `y`.
pub open spec fn pt_less(p: Cell, q: Cell) -> bool {
    p.0 < q.0 || (p.0 == q.0 && p.1 < q.1)
}

/// Strictly increasing by `pt_less`, hence free of repeats.
pub open spec fn sorted_pts(s: Seq<FreePoint>) -> bool {
    forall|i: int, j: int| 0 <= i < j < s.len() ==> pt_less(s[i].cell(), s[j].cell())
}

/// Whether `p` comes before `q` by `x`, then `y`.
pub fn point_less(p: FreePoint, q: FreePoint) -> (r: bool)
    ensures
        r == pt_less(p.cell(), q.cell()),
{
    p.x < q.x || (p.x == q.x && p.y < q.y)
}

pub proof fn lemma_cell_set_push(s: Seq<FreePoint>, p: FreePoint)
    ensures
        cell_set(s.push(p)) == cell_set(s).insert(p.cell()),
{
    let ns = s.push(p);
    assert forall|c: Cell| cell_set(ns).contains(c) == cell_set(s).insert(p.cell()).contains(c) by {
        if cell_set(s).contains(c) {
            let i = choose|i: int| 0 <= i < s.len() && (#[trigger] s[i]).cell() == c;
            assert(ns[i] == s[i]);
        }
        if cell_set(ns).contains(c) && c != p.cell() {
            let i = choose|i: int| 0 <= i < ns.len() && (#[trigger] ns[i]).cell() == c;
            assert(ns[i] == s[i]);
        }
        if c == p.cell() {
            assert(ns[s.len() as int] == p);
        }
    }
    assert(cell_set(ns) =~= cell_set(s).insert(p.cell()));
}

pub proof fn lemma_cell_set_prefix(s: Seq<FreePoint>, i: int)
    requires
        0 <= i < s.len(),
    ensures
        cell_set(s.subrange(0, i + 1)) == cell_set(s.subrange(0, i)).insert(s[i].cell()),
{
    assert(s.subrange(0, i + 1) =~= s.subrange(0, i).push(s[i]));
    lemma_cell_set_push(s.subrange(0, i), s[i]);
}

/// The unit offset of a direction.
pub fn dir_to_offset(d: Dir) -> (r: FreePoint)
    ensures
        r.cell() == dir_vec(d),
{
    match d {
        Dir::N => FreePoint { x: 0, y: 1 },
        Dir::E => FreePoint { x: 1, y: 0 },
        Dir::S => FreePoint { x: 0, y: -1 },
        Dir::W => FreePoint { x: -1, y: 0 },
    }
}

/// The point one step from `fp` in direction `d`.
pub fn offset_in_dir(fp: FreePoint, d: Dir) -> (r: FreePoint)
    requires
        fits(step(fp.cell(), d)),
    ensures
        r.cell() == step(fp.cell(), d),
{
    sum_points(fp, dir_to_offset(d))
}

/// Componentwise sum of two points.
pub fn sum_points(p: FreePoint, q: FreePoint) -> (r: FreePoint)
    requires
        fits(add_cells(p.cell(), q.cell())),
    ensures
        r.cell() == add_cells(p.cell(), q.cell()),
{
    FreePoint { x: p.x + q.x, y: p.y + q.y }
}

/// The order that compares `y` first, then `x`.
pub open spec fn yx_less(p: Cell, q: Cell) -> bool {
    p.1 < q.1 || (p.1 == q.1 && p.0 < q.0)
}

/// Compares two points by `y`, then by `x`.
pub fn compare_points(p: &FreePoint, q: &FreePoint) -> (r: std::cmp::Ordering)
    ensures
        (r == std::cmp::Ordering::Less) <==> yx_less(p.cell(), q.cell()),
        (r == std::cmp::Ordering::Greater) <==> yx_less(q.cell(), p.cell()),
        (r == std::cmp::Ordering::Equal) <==> *p == *q,
{
    if p.y < q.y {
        std::cmp::Ordering::Less
    } else if p.y > q.y {
        std::cmp::Ordering::Greater
    } else if p.x < q.x {
        std::cmp::Ordering::Less
    } else if p.x > q.x {
        std::cmp::Ordering::Greater
    } else {
        std::cmp::Ordering::Equal
    }
}

/// The point reflected through the origin.
pub fn invert_point(p: FreePoint) -> (r: FreePoint)
    requires
        p.x > -128,
        p.y > -128,
    ensures
        r.cell() == (-p.x, -p.y),
{
    FreePoint { x: -p.x, y: -p.y }
}

/// Every cell of `s` shifted by `t` stays within `i8`.
pub open spec fn shift_fits(s: Seq<FreePoint>, t: FreePoint) -> bool {
    forall|i: int| 0 <= i < s.len() ==> fits(add_cells((#[trigger] s[i]).cell(), t.cell()))
}

/// The set `s` moved by `t`.
pub open spec fn shifted(s: Set<Cell>, t: Cell) -> Set<Cell> {
    Set::new(|c: Cell| s.contains(sub_cells(c, t)))
}

/// Adds `translation` to every point of `omino`.
pub fn translate_omino(omino: &Vec<FreePoint>, translation: FreePoint) -> (r: Vec<FreePoint>)
    requires
        shift_fits(omino@, translation),
    ensures
        r@.len() == omino@.len(),
        forall|i: int|
            0 <= i < r@.len() ==> (#[trigger] r@[i]).cell() == add_cells(
                omino@[i].cell(),
                translation.cell(),
            ),
        cell_set(r@) == shifted(cell_set(omino@), translation.cell()),
        sorted_pts(omino@) ==> sorted_pts(r@),
{
    let mut out: Vec<FreePoint> = Vec::new();
    let mut i: usize = 0;
    while i < omino.len()
        invariant
            i <= omino@.len(),
            shift_fits(omino@, translation),
            out@.len() == i,
            forall|j: int|
                0 <= j < i ==> (#[trigger] out@[j]).cell() == add_cells(
                    omino@[j].cell(),
                    translation.cell(),
                ),
        decreases omino@.len() - i,
    {
        out.push(sum_points(omino[i], translation));
        i += 1;
    }
    proof {
        let t = translation.cell();
        assert forall|c: Cell| cell_set(out@).contains(c) == shifted(cell_set(omino@), t).contains(c) by {
            if cell_set(out@).contains(c) {
                let j = choose|j: int| 0 <= j < out@.len() && (#[trigger] out@[j]).cell() == c;
                assert(omino@[j].cell() == sub_cells(c, t));
            }
            if shifted(cell_set(omino@), t).contains(c) {
                let j = choose|j: int| 0 <= j < omino@.len() && (#[trigger] omino@[j]).cell() == sub_cells(c, t);
                assert(out@[j].cell() == c);
            }
        }
        assert(cell_set(out@) =~= shifted(cell_set(omino@), t));
        if sorted_pts(omino@) {
            assert forall|i: int, j: int| 0 <= i < j < out@.len() implies pt_less(
                out@[i].cell(),
                out@[j].cell(),
            ) by {
                assert(pt_less(omino@[i].cell(), omino@[j].cell()));
            }
        }
    }
    out
}

/// Inserts `p` into a sorted list, keeping it sorted.
fn insert_sorted(out: &mut Vec<FreePoint>, p: FreePoint)
    requires
        sorted_pts(old(out)@),
        !cell_set(old(out)@).contains(p.cell()),
    ensures
        sorted_pts(final(out)@),
        final(out)@.len() == old(out)@.len() + 1,
        cell_set(final(out)@) == cell_set(old(out)@).insert(p.cell()),
{
    let ghost o = out@;
    let mut pos: usize = 0;
    while pos < out.len() && point_less(out[pos], p)
        invariant
            out@ == o,
            pos <= o.len(),
            forall|k: int| 0 <= k < pos ==> pt_less((#[trigger] o[k]).cell(), p.cell()),
        decreases o.len() - pos,
    {
        pos += 1;
    }
    proof {
        if pos < o.len() {
            assert(o[pos as int].cell() != p.cell()) by {
                assert(cell_set(o).contains(o[pos as int].cell()));
            }
        }
    }
    out.insert(pos, p);
    proof {
        let n = out@;
        assert(n =~= o.insert(pos as int, p));
        assert forall|i: int, j: int| 0 <= i < j < n.len() implies pt_less(n[i].cell(), n[j].cell()) by {
            if j < pos {
            } else if j == pos {
            } else if i < pos {
                assert(n[j] == o[j - 1]);
                if j - 1 > pos {
                    assert(pt_less(o[pos as int].cell(), o[j - 1].cell()));
                }
            } else if i == pos {
                assert(n[j] == o[j - 1]);
                if j - 1 > pos {
                    assert(pt_less(o[pos as int].cell(), o[j - 1].cell()));
                }
            } else {
                assert(n[i] == o[i - 1] && n[j] == o[j - 1]);
            }
        }
        assert forall|c: Cell| cell_set(n).contains(c) == cell_set(o).insert(p.cell()).contains(c) by {
            if cell_set(n).contains(c) {
                let k = choose|k: int| 0 <= k < n.len() && (#[trigger] n[k]).cell() == c;
                if k < pos {
                    assert(o[k] == n[k]);
                } else if k > pos {
                    assert(o[k - 1] == n[k]);
                }
            }
            if cell_set(o).contains(c) {
                let k = choose|k: int| 0 <= k < o.len() && (#[trigger] o[k]).cell() == c;
                if k < pos {
                    assert(o[k] == n[k]);
                } else {
                    assert(o[k] == n[k + 1]);
                }
            }
            if c == p.cell() {
                assert(n[pos as int] == p);
            }
        }
        assert(cell_set(n) =~= cell_set(o).insert(p.cell()));
    }
}

/// The points of `pts` in increasing order by `x`, then `y`.
pub fn sort_points(pts: &Vec<FreePoint>) -> (r: Vec<FreePoint>)
    requires
        pts@.no_duplicates(),
    ensures
        sorted_pts(r@),
        r@.len() == pts@.len(),
        cell_set(r@) == cell_set(pts@),
{
    let mut out: Vec<FreePoint> = Vec::new();
    let mut i: usize = 0;
    assert(cell_set(out@) =~= cell_set(pts@.subrange(0, 0)));
    while i < pts.len()
        invariant
            i <= pts@.len(),
            pts@.no_duplicates(),
            sorted_pts(out@),
            out@.len() == i,
            cell_set(out@) == cell_set(pts@.subrange(0, i as int)),
        decreases pts@.len() - i,
    {
        proof {
            lemma_cell_set_prefix(pts@, i as int);
            if cell_set(out@).contains(pts@[i as int].cell()) {
                let k = choose|k: int|
                    0 <= k < i && (#[trigger] pts@.subrange(0, i as int)[k]).cell() == pts@[i as int].cell();
                assert(pts@[k] == pts@[i as int]);
            }
        }
        insert_sorted(&mut out, pts[i]);
        i += 1;
    }
    assert(pts@.subrange(0, i as int) =~= pts@);
    out
}

/// Half the width of the enumeration grid; rows run from 0 to `GRID_SIZE - 1`.
pub const GRID_SIZE: usize = 17;

/// Number of tiles of the enumeration grid.
pub const GRID_TILES: usize = 561;

/// A cell in grid-local form: the row is never negative.
#[derive(PartialEq, Eq, Structural, PartialOrd, Ord, Clone, Copy, Debug, Hash)]
pub struct Point {
    pub x: i8,
    pub y: u8,
}

impl Point {
    pub open spec fn cell(self) -> Cell {
        (self.x as int, self.y as int)
    }
}

impl FreePoint {
    /// The same cell in free form.
    pub fn from_point(p: Point) -> (r: FreePoint)
        requires
            p.y <= 127,
        ensures
            r.cell() == p.cell(),
    {
        FreePoint { x: p.x, y: p.y as i8 }
    }

    /// The same cell in grid-local form.
    pub fn to_point(self) -> (r: Point)
        requires
            self.y >= 0,
        ensures
            r.cell() == self.cell(),
    {
        Point { x: self.x, y: self.y as u8 }
    }
}

/// Whether a cell lies inside the enumeration grid.
pub open spec fn in_grid(c: Cell) -> bool {
    -16 <= c.0 <= 16 && 0 <= c.1 <= 16
}

/// Where a grid cell is stored in the flat tile table.
pub open spec fn grid_index(c: Cell) -> int {
    (c.0 + 16) * 17 + c.1
}

/// The tile a fresh grid holds at a cell: the left half of row 0 is border.
pub open spec fn fresh_tile(c: Cell) -> TileState {
    if c.1 == 0 && c.0 < 0 {
        TileState::Border
    } else {
        TileState::Free
    }
}

proof fn lemma_grid_index(c: Cell)
    requires
        in_grid(c),
    ensures
        0 <= grid_index(c) < 561,
        grid_index(c) % 17 == c.1,
        grid_index(c) / 17 == c.0 + 16,
{
    lemma_fundamental_div_mod_converse(grid_index(c), 17, c.0 + 16, c.1);
}

proof fn lemma_grid_index_injective(a: Cell, b: Cell)
    requires
        in_grid(a),
        in_grid(b),
        grid_index(a) == grid_index(b),
    ensures
        a == b,
{
    lemma_grid_index(a);
    lemma_grid_index(b);
}

/// The state of one tile of the enumeration grid.
#[derive(PartialEq, Eq, Structural, Clone, Copy, Debug, Hash)]
pub enum TileState {
    Border,
    Occupied,
    Reachable,
    Free,
}

impl TileState {
    /// A one-character picture of the state.
    pub fn to_char(&self) -> (r: char)
        ensures
            r == match *self {
                TileState::Border => 'B',
                TileState::Occupied => '#',
                TileState::Reachable => 'r',
                TileState::Free => '.',
            },
    {
        match self {
            TileState::Border => 'B',
            TileState::Occupied => '#',
            TileState::Reachable => 'r',
            TileState::Free => '.',
        }
    }
}

/// The bounded working grid of the enumerator, one tile per cell of `in_grid`.
#[derive(Debug)]
pub struct Grid {
    tiles: Vec<TileState>,
}

impl View for Grid {
    type V = Map<Cell, TileState>;

    closed spec fn view(&self) -> Map<Cell, TileState> {
        Map::new(|c: Cell| in_grid(c), |c: Cell| self.tiles@[grid_index(c)])
    }
}

impl Default for Grid {
    /// A fresh grid: every tile free except the border half-row left of the origin.
    fn default() -> (r: Grid)
        ensures
            r.wf(),
            r@.dom() == Set::new(|c: Cell| in_grid(c)),
            forall|c: Cell| in_grid(c) ==> #[trigger] r@[c] == fresh_tile(c),
    {
        let mut tiles: Vec<TileState> = Vec::new();
        let mut i: usize = 0;
        while i < GRID_TILES
            invariant
                i <= GRID_TILES,
                tiles@.len() == i,
                forall|j: int|
                    0 <= j < i ==> #[trigger] tiles@[j] == fresh_tile((j / 17 - 16, j % 17)),
            decreases GRID_TILES - i,
        {
            let col: usize = i / 17;
            let row: usize = i % 17;
            if row == 0 && col < 16 {
                tiles.push(TileState::Border);
            } else {
                tiles.push(TileState::Free);
            }
            i += 1;
        }
        let r = Grid { tiles };
        assert forall|c: Cell| in_grid(c) implies #[trigger] r@[c] == fresh_tile(c) by {
            lemma_grid_index(c);
        }
        assert(r@.dom() =~= Set::new(|c: Cell| in_grid(c)));
        r
    }
}

impl Grid {
    pub closed spec fn wf(&self) -> bool {
        self.tiles@.len() == GRID_TILES
    }

    /// The state of an in-grid point.
    pub fn get_pos(&self, p: Point) -> (r: TileState)
        requires
            self.wf(),
            in_grid(p.cell()),
        ensures
            r == self@[p.cell()],
    {
        proof {
            lemma_grid_index(p.cell());
        }
        let idx: usize = ((p.x as i16 + 16) as usize) * 17 + p.y as usize;
        self.tiles[idx]
    }

    /// Sets the state of an in-grid point.
    pub fn set_pos(&mut self, p: Point, new_val: TileState)
        requires
            old(self).wf(),
            in_grid(p.cell()),
        ensures
            final(self).wf(),
            final(self)@ == old(self)@.insert(p.cell(), new_val),
    {
        proof {
            lemma_grid_index(p.cell());
        }
        let idx: usize = ((p.x as i16 + 16) as usize) * 17 + p.y as usize;
        self.tiles.set(idx, new_val);
        proof {
            assert forall|c: Cell| in_grid(c) implies #[trigger] self@[c] == old(self)@.insert(
                p.cell(),
                new_val,
            )[c] by {
                lemma_grid_index(c);
                if grid_index(c) == grid_index(p.cell()) {
                    lemma_grid_index_injective(c, p.cell());
                }
            }
            assert(self@ =~= old(self)@.insert(p.cell(), new_val));
        }
    }

    /// The in-grid edge neighbours of an in-grid point: up, down, right, left.
    pub fn get_neighbors(p: Point) -> (r: Vec<Point>)
        requires
            in_grid(p.cell()),
        ensures
            forall|i: int| 0 <= i < r@.len() ==> in_grid((#[trigger] r@[i]).cell()),
            forall|i: int| 0 <= i < r@.len() ==> adjacent(p.cell(), (#[trigger] r@[i]).cell()),
            forall|d: Dir|
                in_grid(#[trigger] step(p.cell(), d)) ==> exists|i: int|
                    0 <= i < r@.len() && (#[trigger] r@[i]).cell() == step(p.cell(), d),
            r@.no_duplicates(),
    {
        let mut out: Vec<Point> = Vec::new();
        if p.y < 16 {
            out.push(Point { x: p.x, y: p.y + 1 });
            assert(step(p.cell(), Dir::N) == out@[0].cell());
        }
        let n1 = out.len();
        if p.y > 0 {
            out.push(Point { x: p.x, y: p.y - 1 });
            assert(step(p.cell(), Dir::S) == out@[n1 as int].cell());
        }
        let n2 = out.len();
        if p.x < 16 {
            out.push(Point { x: p.x + 1, y: p.y });
            assert(step(p.cell(), Dir::E) == out@[n2 as int].cell());
        }
        let n3 = out.len();
        if p.x > -16 {
            out.push(Point { x: p.x - 1, y: p.y });
            assert(step(p.cell(), Dir::W) == out@[n3 as int].cell());
        }
        assert forall|d: Dir| in_grid(#[trigger] step(p.cell(), d)) implies exists|i: int|
            0 <= i < out@.len() && (#[trigger] out@[i]).cell() == step(p.cell(), d) by {
            match d {
                Dir::N => assert(out@[0].cell() == step(p.cell(), d)),
                Dir::S => assert(out@[n1 as int].cell() == step(p.cell(), d)),
                Dir::E => assert(out@[n2 as int].cell() == step(p.cell(), d)),
                Dir::W => assert(out@[n3 as int].cell() == step(p.cell(), d)),
            }
        }
        out
    }
}

/// Every cell after the first shares an edge with an earlier one, so the cells form one
/// edge-connected piece.
pub open spec fn grown_connected(s: Seq<Point>) -> bool {
    forall|i: int| 0 < i < s.len() ==> #[trigger] has_earlier_neighbor(s, i)
}

/// The cell at index `i` shares an edge with a cell before it.
pub open spec fn has_earlier_neighbor(s: Seq<Point>, i: int) -> bool {
    exists|j: int| 0 <= j < i && adjacent(s[j].cell(), s[i].cell())
}

/// The cell is not on the border half-row: row 0 left of the origin.
pub open spec fn above_border(c: Cell) -> bool {
    !(c.1 == 0 && c.0 < 0)
}

/// A list of exactly `n` pairwise distinct, edge-connected cells of the grid, none of them
/// on the border half-row.
pub open spec fn is_shape(s: Seq<Point>, n: nat) -> bool {
    &&& s.len() == n
    &&& s.no_duplicates()
    &&& grown_connected(s)
    &&& forall|i: int| 0 <= i < s.len() ==> in_grid(#[trigger] s[i].cell())
    &&& forall|i: int| 0 <= i < s.len() ==> above_border(#[trigger] s[i].cell())
}

/// Every point of `s` lies in the grid and holds state `st` in `g`.
pub open spec fn all_in_state(g: Map<Cell, TileState>, s: Seq<Point>, st: TileState) -> bool {
    forall|i: int| 0 <= i < s.len() ==> in_grid(#[trigger] s[i].cell()) && g[s[i].cell()] == st
}

/// `c` shares an edge with some point of `occ`.
pub open spec fn touches(occ: Seq<Point>, c: Cell) -> bool {
    exists|j: int| 0 <= j < occ.len() && adjacent(occ[j].cell(), c)
}

/// `after` keeps `before` as its prefix, and each shape it adds is a shape of `n` cells.
pub open spec fn extends_with_shapes(before: Seq<Vec<Point>>, after: Seq<Vec<Point>>, n: nat) -> bool {
    &&& before.len() <= after.len()
    &&& after.subrange(0, before.len() as int) == before
    &&& forall|k: int| before.len() <= k < after.len() ==> is_shape(#[trigger] after[k]@, n)
}

/// The search state the enumerator works on: grid tiles, frontier, and partial shape agree.
pub open spec fn search_state(
    g: Map<Cell, TileState>,
    untried: Seq<Point>,
    occupied: Seq<Point>,
) -> bool {
    &&& all_in_state(g, untried, TileState::Reachable)
    &&& untried.no_duplicates()
    &&& all_in_state(g, occupied, TileState::Occupied)
    &&& occupied.no_duplicates()
    &&& grown_connected(occupied)
    &&& forall|c: Cell| in_grid(c) && !above_border(c) ==> #[trigger] g[c] == TileState::Border
    &&& forall|i: int, d: Dir|
        0 <= i < occupied.len() && in_grid(#[trigger] step(occupied[i].cell(), d)) ==> g[step(
            occupied[i].cell(),
            d,
        )] != TileState::Free
    &&& occupied.len() == 0 ==> untried.len() <= 1
    &&& occupied.len() > 0 ==> forall|i: int|
        0 <= i < untried.len() ==> touches(occupied, #[trigger] untried[i].cell())
}

/// Some point of `s` sits at cell `c`.
pub open spec fn in_cells(s: Seq<Point>, c: Cell) -> bool {
    exists|i: int| 0 <= i < s.len() && (#[trigger] s[i]).cell() == c
}

/// `g` with every point of `s` set to `st`, in order.
pub open spec fn marks(g: Map<Cell, TileState>, s: Seq<Point>, st: TileState) -> Map<
    Cell,
    TileState,
>
    decreases s.len(),
{
    if s.len() == 0 {
        g
    } else {
        marks(g, s.drop_last(), st).insert(s.last().cell(), st)
    }
}

proof fn lemma_marks(g: Map<Cell, TileState>, s: Seq<Point>, st: TileState)
    requires
        forall|i: int| 0 <= i < s.len() ==> g.dom().contains((#[trigger] s[i]).cell()),
    ensures
        marks(g, s, st).dom() == g.dom(),
        forall|c: Cell|
            #[trigger] marks(g, s, st)[c] == (if in_cells(s, c) {
                st
            } else {
                g[c]
            }),
    decreases s.len(),
{
    if s.len() > 0 {
        let t = s.drop_last();
        assert forall|i: int| 0 <= i < t.len() implies g.dom().contains((#[trigger] t[i]).cell()) by {
            assert(t[i] == s[i]);
        }
        lemma_marks(g, t, st);
        assert(marks(g, s, st).dom() =~= g.dom());
        assert forall|c: Cell|
            #[trigger] marks(g, s, st)[c] == (if in_cells(s, c) {
                st
            } else {
                g[c]
            }) by {
            if in_cells(t, c) {
                let i = choose|i: int| 0 <= i < t.len() && (#[trigger] t[i]).cell() == c;
                assert(s[i] == t[i]);
            }
            if in_cells(s, c) && c != s.last().cell() {
                let i = choose|i: int| 0 <= i < s.len() && (#[trigger] s[i]).cell() == c;
                assert(t[i] == s[i]);
            }
        }
    }
}

proof fn lemma_marks_push(g: Map<Cell, TileState>, s: Seq<Point>, p: Point, st: TileState)
    ensures
        marks(g, s.push(p), st) == marks(g, s, st).insert(p.cell(), st),
{
    assert(s.push(p).drop_last() =~= s);
}

/// Setting tiles back to the value they already held in `g` gives `g` again.
proof fn lemma_marks_restore(g: Map<Cell, TileState>, s: Seq<Point>, st: TileState, st2: TileState)
    requires
        forall|i: int| 0 <= i < s.len() ==> g.dom().contains((#[trigger] s[i]).cell()),
        forall|i: int| 0 <= i < s.len() ==> g[(#[trigger] s[i]).cell()] == st,
    ensures
        marks(marks(g, s, st2), s, st) == g,
{
    lemma_marks(g, s, st2);
    lemma_marks(marks(g, s, st2), s, st);
    assert forall|c: Cell| #[trigger] marks(marks(g, s, st2), s, st)[c] == g[c] by {
        if in_cells(s, c) {
            let i = choose|i: int| 0 <= i < s.len() && (#[trigger] s[i]).cell() == c;
        }
    }
    assert(marks(marks(g, s, st2), s, st) =~= g);
}

/// The search state of a child step: `t`, the last frontier point, joins the shape, and its
/// free neighbours `free` join the frontier.
proof fn lemma_child_state(
    g_in: Map<Cell, TileState>,
    orig: Seq<Point>,
    n: int,
    occ: Seq<Point>,
    free: Seq<Point>,
    t: Point,
)
    requires
        g_in.dom() == Set::new(|c: Cell| in_grid(c)),
        search_state(g_in, orig, occ),
        0 <= n < orig.len(),
        t == orig[n],
        !occ.contains(t),
        free.no_duplicates(),
        forall|i: int| 0 <= i < free.len() ==> in_grid((#[trigger] free[i]).cell()),
        forall|i: int|
            0 <= i < free.len() ==> g_in.insert(t.cell(), TileState::Occupied)[(
            #[trigger] free[i]).cell()] == TileState::Free,
        forall|i: int| 0 <= i < free.len() ==> adjacent(t.cell(), (#[trigger] free[i]).cell()),
        grown_connected(occ.push(t)),
        forall|d: Dir|
            in_grid(#[trigger] step(t.cell(), d)) ==> marks(
                g_in.insert(t.cell(), TileState::Occupied),
                free,
                TileState::Reachable,
            )[step(t.cell(), d)] != TileState::Free,
    ensures
        search_state(
            marks(g_in.insert(t.cell(), TileState::Occupied), free, TileState::Reachable),
            orig.subrange(0, n) + free,
            occ.push(t),
        ),
{
    let g1 = g_in.insert(t.cell(), TileState::Occupied);
    let gm = marks(g1, free, TileState::Reachable);
    let u = orig.subrange(0, n);
    let nu = u + free;
    let no = occ.push(t);
    lemma_marks(g1, free, TileState::Reachable);
    assert forall|i: int| 0 <= i < u.len() implies g1[(#[trigger] u[i]).cell()]
        == TileState::Reachable && in_grid(u[i].cell()) by {
        assert(u[i] == orig[i]);
        assert(g_in[orig[i].cell()] == TileState::Reachable);
    }
    assert forall|i: int| 0 <= i < nu.len() implies in_grid((#[trigger] nu[i]).cell()) && gm[nu[i].cell()]
        == TileState::Reachable by {
        if i < u.len() {
            assert(nu[i] == u[i]);
        } else {
            assert(nu[i] == free[i - u.len()]);
            assert(in_cells(free, nu[i].cell()));
        }
    }
    assert forall|i: int, j: int| 0 <= i < nu.len() && 0 <= j < nu.len() && i != j implies nu[i]
        != nu[j] by {
        if i < u.len() && j < u.len() {
            assert(nu[i] == orig[i] && nu[j] == orig[j]);
        } else if i >= u.len() && j >= u.len() {
            assert(nu[i] == free[i - u.len()] && nu[j] == free[j - u.len()]);
        } else if i < u.len() {
            assert(nu[j] == free[j - u.len()]);
            assert(nu[i] == u[i]);
        } else {
            assert(nu[i] == free[i - u.len()]);
            assert(nu[j] == u[j]);
        }
    }
    assert forall|i: int| 0 <= i < no.len() implies in_grid((#[trigger] no[i]).cell()) && gm[no[i].cell()]
        == TileState::Occupied by {
        if i < occ.len() {
            assert(no[i] == occ[i]);
            assert(g_in[occ[i].cell()] == TileState::Occupied);
        }
        if in_cells(free, no[i].cell()) {
            let k = choose|k: int| 0 <= k < free.len() && (#[trigger] free[k]).cell() == no[i].cell();
        }
    }
    assert(no.no_duplicates()) by {
        assert forall|i: int, j: int| 0 <= i < no.len() && 0 <= j < no.len() && i != j implies no[i]
            != no[j] by {
            if i < occ.len() && j < occ.len() {
                assert(no[i] == occ[i] && no[j] == occ[j]);
            } else if i < occ.len() {
                assert(no[i] == occ[i]);
                assert(occ.contains(occ[i]));
            } else if j < occ.len() {
                assert(no[j] == occ[j]);
                assert(occ.contains(occ[j]));
            }
        }
    }
    if occ.len() == 0 {
        assert(u.len() == 0);
    }
    assert(g_in[t.cell()] == TileState::Reachable);
    assert forall|i: int, d: Dir|
        0 <= i < no.len() && in_grid(#[trigger] step(no[i].cell(), d)) implies gm[step(no[i].cell(), d)]
            != TileState::Free by {
        if i < occ.len() {
            assert(no[i] == occ[i]);
            let c = step(occ[i].cell(), d);
            assert(g_in[c] != TileState::Free);
            if in_cells(free, c) {
                let k = choose|k: int| 0 <= k < free.len() && (#[trigger] free[k]).cell() == c;
            }
        } else {
            assert(no[i] == t);
        }
    }
    assert forall|c: Cell| in_grid(c) && !above_border(c) implies #[trigger] gm[c] == TileState::Border by {
        assert(g_in[c] == TileState::Border);
        if in_cells(free, c) {
            let k = choose|k: int| 0 <= k < free.len() && (#[trigger] free[k]).cell() == c;
        }
    }
    assert forall|i: int| 0 <= i < nu.len() implies touches(no, #[trigger] nu[i].cell()) by {
        if i < u.len() {
            assert(nu[i] == orig[i]);
            assert(touches(occ, orig[i].cell()));
            let j = choose|j: int| 0 <= j < occ.len() && adjacent(occ[j].cell(), orig[i].cell());
            assert(no[j] == occ[j]);
        } else {
            assert(nu[i] == free[i - u.len()]);
            assert(no[occ.len() as int] == t);
            let d = choose|d: Dir| step(t.cell(), d) == nu[i].cell();
            assert(adjacent(no[occ.len() as int].cell(), nu[i].cell()));
        }
    }
}

/// Adding `t` to `occ` keeps it growth-connected when `t` touches `occ` or `occ` is empty.
proof fn lemma_push_connected(occ: Seq<Point>, t: Point)
    requires
        grown_connected(occ),
        occ.len() > 0 ==> touches(occ, t.cell()),
    ensures
        grown_connected(occ.push(t)),
{
    let no = occ.push(t);
    assert forall|i: int| 0 < i < no.len() implies #[trigger] has_earlier_neighbor(no, i) by {
        if i < occ.len() {
            assert(no[i] == occ[i]);
            assert(has_earlier_neighbor(occ, i));
            let j = choose|j: int| 0 <= j < i && adjacent(occ[j].cell(), occ[i].cell());
            assert(no[j] == occ[j]);
        } else {
            assert(no[i] == t);
            let j = choose|j: int| 0 <= j < occ.len() && adjacent(occ[j].cell(), t.cell());
            assert(no[j] == occ[j]);
        }
    }
}

proof fn lemma_extends_trans(
    a: Seq<Vec<Point>>,
    b: Seq<Vec<Point>>,
    c: Seq<Vec<Point>>,
    n: nat,
)
    requires
        extends_with_shapes(a, b, n),
        extends_with_shapes(b, c, n),
    ensures
        extends_with_shapes(a, c, n),
{
    assert(c.subrange(0, a.len() as int) =~= b.subrange(0, a.len() as int));
    assert forall|k: int| a.len() <= k < c.len() implies is_shape(#[trigger] c[k]@, n) by {
        if k < b.len() {
            assert(c[k] == b[k]);
        }
    }
}

/// The cells of a grid-local point list.
pub open spec fn point_set(s: Seq<Point>) -> Set<Cell> {
    Set::new(|c: Cell| in_cells(s, c))
}

/// Every cell of `s` is a cell of `occ`, a cell of `untried`, or free in `g`.
pub open spec fn drawn_from(
    s: Seq<Point>,
    g: Map<Cell, TileState>,
    occ: Seq<Point>,
    untried: Seq<Point>,
) -> bool {
    forall|i: int|
        0 <= i < s.len() ==> in_cells(occ, #[trigger] s[i].cell()) || in_cells(untried, s[i].cell())
            || g[s[i].cell()] == TileState::Free
}

/// `s` has every cell of `occ`.
pub open spec fn holds_all(s: Seq<Point>, occ: Seq<Point>) -> bool {
    forall|i: int| 0 <= i < occ.len() ==> in_cells(s, #[trigger] occ[i].cell())
}

/// `s` starts with `occ`, and its next cell is a point of `untried`.
pub open spec fn grows_from(s: Seq<Point>, occ: Seq<Point>, untried: Seq<Point>) -> bool {
    &&& occ.len() < s.len()
    &&& s.subrange(0, occ.len() as int) == occ
    &&& untried.contains(s[occ.len() as int])
}

/// The shapes of `out` from index `from` on differ pairwise as sets of cells.
pub open spec fn distinct_from(out: Seq<Vec<Point>>, from: int) -> bool {
    forall|a: int, b: int|
        from <= a < out.len() && from <= b < out.len() && a != b ==> point_set(#[trigger] out[a]@)
            != point_set(#[trigger] out[b]@)
}

/// What a child step's shapes are drawn from, seen from the parent: the parent's shape, its
/// frontier, or its free tiles; never a frontier point that the parent already tried.
proof fn lemma_child_drawn(
    g_in: Map<Cell, TileState>,
    orig: Seq<Point>,
    n: int,
    occ: Seq<Point>,
    free: Seq<Point>,
    t: Point,
    s: Seq<Point>,
)
    requires
        g_in.dom() == Set::new(|c: Cell| in_grid(c)),
        search_state(g_in, orig, occ),
        0 <= n < orig.len(),
        t == orig[n],
        forall|i: int| 0 <= i < free.len() ==> in_grid((#[trigger] free[i]).cell()),
        forall|i: int|
            0 <= i < free.len() ==> g_in.insert(t.cell(), TileState::Occupied)[(
            #[trigger] free[i]).cell()] == TileState::Free,
        drawn_from(
            s,
            marks(g_in.insert(t.cell(), TileState::Occupied), free, TileState::Reachable),
            occ.push(t),
            orig.subrange(0, n) + free,
        ),
    ensures
        drawn_from(s, g_in, occ, orig),
        forall|p: int| n < p < orig.len() ==> !in_cells(s, #[trigger] orig[p].cell()),
{
    let g1 = g_in.insert(t.cell(), TileState::Occupied);
    let gm = marks(g1, free, TileState::Reachable);
    let u = orig.subrange(0, n);
    let nu = u + free;
    let no = occ.push(t);
    lemma_marks(g1, free, TileState::Reachable);
    assert forall|i: int| 0 <= i < s.len() implies in_cells(occ, #[trigger] s[i].cell()) || in_cells(orig, s[i].cell())
        || g_in[s[i].cell()] == TileState::Free by {
        let c = s[i].cell();
        if in_cells(no, c) {
            let j = choose|j: int| 0 <= j < no.len() && (#[trigger] no[j]).cell() == c;
            if j < occ.len() {
                assert(occ[j] == no[j]);
            } else {
                assert(orig[n].cell() == c);
            }
        } else if in_cells(nu, c) {
            let j = choose|j: int| 0 <= j < nu.len() && (#[trigger] nu[j]).cell() == c;
            if j < u.len() {
                assert(nu[j] == orig[j]);
            } else {
                assert(nu[j] == free[j - u.len()]);
                assert(g1[c] == TileState::Free);
            }
        } else {
            assert(gm[c] == TileState::Free);
            if in_cells(free, c) {
            }
        }
    }
    assert forall|p: int| n < p < orig.len() implies !in_cells(s, #[trigger] orig[p].cell()) by {
        let c = orig[p].cell();
        assert(g_in[c] == TileState::Reachable);
        assert(orig[p] != t);
        if in_cells(s, c) {
            let i = choose|i: int| 0 <= i < s.len() && (#[trigger] s[i]).cell() == c;
            assert(in_cells(no, c) || in_cells(nu, c) || gm[c] == TileState::Free);
            if in_cells(no, c) {
                let j = choose|j: int| 0 <= j < no.len() && (#[trigger] no[j]).cell() == c;
                if j < occ.len() {
                    assert(no[j] == occ[j]);
                    assert(g_in[occ[j].cell()] == TileState::Occupied);
                }
            } else if in_cells(nu, c) {
                let j = choose|j: int| 0 <= j < nu.len() && (#[trigger] nu[j]).cell() == c;
                if j < u.len() {
                    assert(nu[j] == orig[j]);
                } else {
                    assert(nu[j] == free[j - u.len()]);
                }
            } else {
                if in_cells(free, c) {
                }
            }
        }
    }
}

/// Every cell of `s` outside the partial shape `occ` is still open to the search: on the
/// frontier `untried`, or free in `g`.
pub open spec fn open_to(s: Seq<Point>, g: Map<Cell, TileState>, occ: Seq<Point>, untried: Seq<Point>) -> bool {
    forall|i: int|
        0 <= i < s.len() ==> in_cells(occ, #[trigger] s[i].cell()) || in_cells(untried, s[i].cell())
            || g[s[i].cell()] == TileState::Free
}

/// With nothing placed yet, `s` must start from the frontier.
pub open spec fn rooted(s: Seq<Point>, occ: Seq<Point>, untried: Seq<Point>) -> bool {
    occ.len() == 0 ==> exists|i: int| 0 <= i < s.len() && in_cells(untried, #[trigger] s[i].cell())
}

/// A shape of `out` from index `from` on has the same cells as `s`.
pub open spec fn emitted(s: Seq<Point>, out: Seq<Vec<Point>>, from: int) -> bool {
    exists|k: int| from <= k < out.len() && point_set(#[trigger] out[k]@) == point_set(s)
}

/// The shapes that a search step owes: every shape of `n` cells that holds the partial
/// shape and whose other cells are still open to the search.
pub open spec fn owed(
    s: Seq<Point>,
    n: nat,
    g: Map<Cell, TileState>,
    occ: Seq<Point>,
    untried: Seq<Point>,
) -> bool {
    &&& is_shape(s, n)
    &&& holds_all(s, occ)
    &&& open_to(s, g, occ, untried)
    &&& rooted(s, occ, untried)
}

/// A list of distinct points has as many cells as points.
pub proof fn lemma_point_set_len(s: Seq<Point>)
    requires
        s.no_duplicates(),
    ensures
        point_set(s).finite(),
        point_set(s).len() == s.len(),
    decreases s.len(),
{
    if s.len() == 0 {
        assert(point_set(s) =~= Set::<Cell>::empty());
    } else {
        let t = s.drop_last();
        assert(t.no_duplicates()) by {
            assert forall|i: int, j: int| 0 <= i < t.len() && 0 <= j < t.len() && i != j implies t[i] != t[j] by {
                assert(t[i] == s[i] && t[j] == s[j]);
            }
        }
        lemma_point_set_len(t);
        assert forall|c: Cell| point_set(s).contains(c) == point_set(t).insert(s.last().cell()).contains(c) by {
            if in_cells(t, c) {
                let i = choose|i: int| 0 <= i < t.len() && (#[trigger] t[i]).cell() == c;
                assert(s[i] == t[i]);
            }
            if in_cells(s, c) && c != s.last().cell() {
                let i = choose|i: int| 0 <= i < s.len() && (#[trigger] s[i]).cell() == c;
                assert(t[i] == s[i]);
            }
        }
        assert(point_set(s) =~= point_set(t).insert(s.last().cell()));
        assert(!point_set(t).contains(s.last().cell())) by {
            if in_cells(t, s.last().cell()) {
                let i = choose|i: int| 0 <= i < t.len() && (#[trigger] t[i]).cell() == s.last().cell();
                assert(s[i] == t[i]);
                assert(s[i] == s[s.len() - 1]);
            }
        }
    }
}

/// A distinct list `a` whose cells all lie in `b`, with as many points as `b`, has the same
/// cells as `b`.
proof fn lemma_same_point_set(a: Seq<Point>, b: Seq<Point>)
    requires
        a.no_duplicates(),
        b.no_duplicates(),
        a.len() == b.len(),
        holds_all(b, a),
    ensures
        point_set(a) == point_set(b),
{
    lemma_point_set_len(a);
    lemma_point_set_len(b);
    assert forall|c: Cell| point_set(a).contains(c) implies point_set(b).contains(c) by {
        let i = choose|i: int| 0 <= i < a.len() && (#[trigger] a[i]).cell() == c;
        assert(in_cells(b, a[i].cell()));
    }
    vstd::set_lib::lemma_subset_equality(point_set(a), point_set(b));
}

/// In a growth-connected list whose first `k` points agree on membership in `occ`, a point
/// from index `k` on that disagrees touches a point that agrees.
proof fn lemma_crossing(s: Seq<Point>, occ: Seq<Point>, k: int)
    requires
        grown_connected(s),
        1 <= k <= s.len(),
        forall|i: int| 0 <= i < k ==> in_cells(occ, (#[trigger] s[i]).cell()) == in_cells(occ, s[0].cell()),
        exists|i: int| 0 <= i < s.len() && in_cells(occ, (#[trigger] s[i]).cell()) != in_cells(occ, s[0].cell()),
    ensures
        exists|i: int, j: int|
            0 <= i < s.len() && 0 <= j < s.len() && in_cells(occ, (#[trigger] s[i]).cell()) && !in_cells(
                occ,
                (#[trigger] s[j]).cell(),
            ) && adjacent(s[i].cell(), s[j].cell()),
    decreases s.len() - k,
{
    if in_cells(occ, s[k].cell()) != in_cells(occ, s[0].cell()) {
        assert(has_earlier_neighbor(s, k));
        let j = choose|j: int| 0 <= j < k && adjacent(s[j].cell(), s[k].cell());
        assert(in_cells(occ, s[j].cell()) == in_cells(occ, s[0].cell()));
        let d = choose|d: Dir| step(s[j].cell(), d) == s[k].cell();
        if in_cells(occ, s[k].cell()) {
            let d2 = match d {
                Dir::N => Dir::S,
                Dir::S => Dir::N,
                Dir::E => Dir::W,
                Dir::W => Dir::E,
            };
            assert(step(s[k].cell(), d2) == s[j].cell());
            assert(adjacent(s[k].cell(), s[j].cell()));
        } else {
            assert(adjacent(s[j].cell(), s[k].cell()));
        }
    } else {
        if k + 1 == s.len() {
            let i = choose|i: int| 0 <= i < s.len() && in_cells(occ, (#[trigger] s[i]).cell()) != in_cells(occ, s[0].cell());
            assert(i < k + 1);
        }
        lemma_crossing(s, occ, k + 1);
    }
}

/// An owed shape that avoids the frontier point `orig[n]` is still owed by the rest of the
/// frontier.
proof fn lemma_skip_owed(g: Map<Cell, TileState>, orig: Seq<Point>, n: int, occ: Seq<Point>, sh: Seq<Point>)
    requires
        0 <= n < orig.len(),
        open_to(sh, g, occ, orig.subrange(0, n + 1)),
        rooted(sh, occ, orig.subrange(0, n + 1)),
        !in_cells(sh, orig[n].cell()),
    ensures
        open_to(sh, g, occ, orig.subrange(0, n)),
        rooted(sh, occ, orig.subrange(0, n)),
{
    let u1 = orig.subrange(0, n + 1);
    let u0 = orig.subrange(0, n);
    assert forall|c: Cell| in_cells(u1, c) && c != orig[n].cell() implies in_cells(u0, c) by {
        let j = choose|j: int| 0 <= j < u1.len() && (#[trigger] u1[j]).cell() == c;
        assert(u0[j] == u1[j]);
    }
    assert forall|i: int| 0 <= i < sh.len() implies in_cells(occ, #[trigger] sh[i].cell()) || in_cells(u0, sh[i].cell())
        || g[sh[i].cell()] == TileState::Free by {
        if in_cells(u1, sh[i].cell()) && sh[i].cell() == orig[n].cell() {
            assert(in_cells(sh, orig[n].cell()));
        }
    }
    if occ.len() == 0 {
        let i = choose|i: int| 0 <= i < sh.len() && in_cells(u1, #[trigger] sh[i].cell());
        if sh[i].cell() == orig[n].cell() {
            assert(in_cells(sh, orig[n].cell()));
        }
        assert(in_cells(u0, sh[i].cell()));
    }
}

/// An owed shape that takes the frontier point `t == orig[n]` is owed by the child step.
proof fn lemma_child_owed(
    g_in: Map<Cell, TileState>,
    orig: Seq<Point>,
    n: int,
    occ: Seq<Point>,
    free: Seq<Point>,
    t: Point,
    sh: Seq<Point>,
    size: nat,
)
    requires
        g_in.dom() == Set::new(|c: Cell| in_grid(c)),
        search_state(g_in, orig, occ),
        0 <= n < orig.len(),
        t == orig[n],
        forall|i: int| 0 <= i < free.len() ==> in_grid((#[trigger] free[i]).cell()),
        is_shape(sh, size),
        holds_all(sh, occ),
        open_to(sh, g_in, occ, orig.subrange(0, n + 1)),
        in_cells(sh, t.cell()),
    ensures
        owed(
            sh,
            size,
            marks(g_in.insert(t.cell(), TileState::Occupied), free, TileState::Reachable),
            occ.push(t),
            orig.subrange(0, n) + free,
        ),
{
    let g1 = g_in.insert(t.cell(), TileState::Occupied);
    let gm = marks(g1, free, TileState::Reachable);
    let u1 = orig.subrange(0, n + 1);
    let u0 = orig.subrange(0, n);
    let nu = u0 + free;
    let no = occ.push(t);
    lemma_marks(g1, free, TileState::Reachable);
    assert(g_in[t.cell()] == TileState::Reachable);
    assert forall|i: int| 0 <= i < no.len() implies in_cells(sh, #[trigger] no[i].cell()) by {
        if i < occ.len() {
            assert(no[i] == occ[i]);
        }
    }
    assert forall|i: int| 0 <= i < sh.len() implies in_cells(no, #[trigger] sh[i].cell()) || in_cells(nu, sh[i].cell())
        || gm[sh[i].cell()] == TileState::Free by {
        let c = sh[i].cell();
        if in_cells(occ, c) {
            let j = choose|j: int| 0 <= j < occ.len() && (#[trigger] occ[j]).cell() == c;
            assert(no[j] == occ[j]);
        } else if c == t.cell() {
            assert(no[occ.len() as int] == t);
        } else if in_cells(u1, c) {
            let j = choose|j: int| 0 <= j < u1.len() && (#[trigger] u1[j]).cell() == c;
            assert(j < n);
            assert(nu[j] == u1[j]);
        } else {
            assert(g_in[c] == TileState::Free);
            if in_cells(free, c) {
                let j = choose|j: int| 0 <= j < free.len() && (#[trigger] free[j]).cell() == c;
                assert(nu[u0.len() + j] == free[j]);
            }
        }
    }
}

/// When the frontier is used up, nothing more is owed: a shape larger than the partial
/// shape would need a cell next to it, and every such cell has left the free state.
proof fn lemma_nothing_owed(g: Map<Cell, TileState>, orig: Seq<Point>, occ: Seq<Point>, sh: Seq<Point>, size: nat)
    requires
        search_state(g, orig, occ),
        occ.len() < size,
        is_shape(sh, size),
        holds_all(sh, occ),
    ensures
        !(open_to(sh, g, occ, Seq::<Point>::empty()) && rooted(sh, occ, Seq::<Point>::empty())),
{
    if open_to(sh, g, occ, Seq::<Point>::empty()) && rooted(sh, occ, Seq::<Point>::empty()) {
        lemma_open_contradiction(g, orig, occ, sh, size);
    }
}

proof fn lemma_open_contradiction(g: Map<Cell, TileState>, orig: Seq<Point>, occ: Seq<Point>, sh: Seq<Point>, size: nat)
    requires
        search_state(g, orig, occ),
        occ.len() < size,
        is_shape(sh, size),
        holds_all(sh, occ),
        open_to(sh, g, occ, Seq::<Point>::empty()),
        rooted(sh, occ, Seq::<Point>::empty()),
    ensures
        occ.len() >= size,
{
    let e = Seq::<Point>::empty();
    assert(occ.len() > 0) by {
        if occ.len() == 0 {
            let i = choose|i: int| 0 <= i < sh.len() && in_cells(e, #[trigger] sh[i].cell());
        }
    }
    let outside = exists|i: int| 0 <= i < sh.len() && !in_cells(occ, (#[trigger] sh[i]).cell());
    if !outside {
        lemma_point_set_len(sh);
        lemma_point_set_len(occ);
        assert forall|c: Cell| point_set(sh).contains(c) implies point_set(occ).contains(c) by {
            let i = choose|i: int| 0 <= i < sh.len() && (#[trigger] sh[i]).cell() == c;
        }
        vstd::set_lib::lemma_len_subset(point_set(sh), point_set(occ));
    } else {
        let io = choose|i: int| 0 <= i < sh.len() && !in_cells(occ, (#[trigger] sh[i]).cell());
        assert(in_cells(sh, occ[0].cell()));
        let ii = choose|i: int| 0 <= i < sh.len() && (#[trigger] sh[i]).cell() == occ[0].cell();
        assert(in_cells(occ, sh[ii].cell()));
        if in_cells(occ, sh[0].cell()) {
            assert(in_cells(occ, sh[io].cell()) != in_cells(occ, sh[0].cell()));
        } else {
            assert(in_cells(occ, sh[ii].cell()) != in_cells(occ, sh[0].cell()));
        }
        lemma_crossing(sh, occ, 1);
        let (i, j) = choose|i: int, j: int|
            0 <= i < sh.len() && 0 <= j < sh.len() && in_cells(occ, (#[trigger] sh[i]).cell()) && !in_cells(
                occ,
                (#[trigger] sh[j]).cell(),
            ) && adjacent(sh[i].cell(), sh[j].cell());
        let m = choose|m: int| 0 <= m < occ.len() && (#[trigger] occ[m]).cell() == sh[i].cell();
        let d = choose|d: Dir| step(sh[i].cell(), d) == sh[j].cell();
        assert(step(occ[m].cell(), d) == sh[j].cell());
        assert(in_grid(sh[j].cell()));
        assert(g[sh[j].cell()] != TileState::Free);
        assert(in_cells(occ, sh[j].cell()) || in_cells(e, sh[j].cell()) || g[sh[j].cell()] == TileState::Free);
    }
}

proof fn lemma_emitted_grow(sh: Seq<Point>, a: Seq<Vec<Point>>, b: Seq<Vec<Point>>, from: int)
    requires
        0 <= from,
        emitted(sh, a, from),
        a.len() <= b.len(),
        b.subrange(0, a.len() as int) == a,
    ensures
        emitted(sh, b, from),
{
    let k = choose|k: int| from <= k < a.len() && point_set(#[trigger] a[k]@) == point_set(sh);
    assert(b[k] == b.subrange(0, a.len() as int)[k]);
}

/// Grows the partial shape `occupied_set` by every choice from the frontier `untried_set`,
/// pushing each completed shape of `size` cells to `out`. The grid and the partial shape
/// come back exactly as they were.
fn enumerate_recursion(
    out: &mut Vec<Vec<Point>>,
    grid: &mut Grid,
    untried_set: Vec<Point>,
    occupied_set: &mut Vec<Point>,
    cur_omino_size: u8,
    size: u8,
)
    requires
        old(grid).wf(),
        cur_omino_size < size,
        old(occupied_set)@.len() == cur_omino_size,
        search_state(old(grid)@, untried_set@, old(occupied_set)@),
    ensures
        final(grid).wf(),
        final(grid)@ == old(grid)@,
        final(occupied_set)@ == old(occupied_set)@,
        extends_with_shapes(old(out)@, final(out)@, size as nat),
        distinct_from(final(out)@, old(out)@.len() as int),
        forall|k: int|
            old(out)@.len() <= k < final(out)@.len() ==> drawn_from(
                #[trigger] final(out)@[k]@,
                old(grid)@,
                old(occupied_set)@,
                untried_set@,
            ) && holds_all(final(out)@[k]@, old(occupied_set)@) && grows_from(
                final(out)@[k]@,
                old(occupied_set)@,
                untried_set@,
            ),
        forall|sh: Seq<Point>|
            #[trigger] owed(sh, size as nat, old(grid)@, old(occupied_set)@, untried_set@) ==> emitted(
                sh,
                final(out)@,
                old(out)@.len() as int,
            ),
    decreases size - cur_omino_size,
{
    let ghost orig = untried_set@;
    let ghost g_in = grid@;
    let ghost occ_in = occupied_set@;
    let mut untried_set = untried_set;
    assert(out@.subrange(0, out@.len() as int) =~= out@);
    while untried_set.len() > 0
        invariant
            grid.wf(),
            grid@ == g_in,
            g_in.dom() == Set::new(|c: Cell| in_grid(c)),
            occupied_set@ == occ_in,
            cur_omino_size < size,
            occ_in.len() == cur_omino_size,
            search_state(g_in, orig, occ_in),
            untried_set@.len() <= orig.len(),
            untried_set@ == orig.subrange(0, untried_set@.len() as int),
            extends_with_shapes(old(out)@, out@, size as nat),
            distinct_from(out@, old(out)@.len() as int),
            forall|k: int|
                old(out)@.len() <= k < out@.len() ==> drawn_from(#[trigger] out@[k]@, g_in, occ_in, orig)
                    && holds_all(out@[k]@, occ_in) && grows_from(out@[k]@, occ_in, orig),
            forall|k: int|
                old(out)@.len() <= k < out@.len() ==> exists|p: int|
                    untried_set@.len() <= p < orig.len() && in_cells(#[trigger] out@[k]@, orig[p].cell()),
            forall|sh: Seq<Point>|
                #[trigger] owed(sh, size as nat, g_in, occ_in, orig) ==> emitted(sh, out@, old(out)@.len() as int) || (
                open_to(sh, g_in, occ_in, untried_set@) && rooted(sh, occ_in, untried_set@)),
        decreases untried_set@.len(),
    {
        let ghost n = untried_set@.len() - 1;
        let ghost out_head = out@;
        assert(untried_set@ =~= orig.subrange(0, n + 1));
        let next_tile = untried_set.pop().unwrap();
        assert(next_tile == orig[n]);
        assert(untried_set@ =~= orig.subrange(0, n));
        assert(in_grid(next_tile.cell()) && g_in[next_tile.cell()] == TileState::Reachable);
        grid.set_pos(next_tile, TileState::Occupied);
        let ghost g1 = grid@;
        occupied_set.push(next_tile);
        let new_size: u8 = cur_omino_size + 1;
        assert(!occ_in.contains(next_tile)) by {
            if occ_in.contains(next_tile) {
                let j = choose|j: int| 0 <= j < occ_in.len() && occ_in[j] == next_tile;
                assert(g_in[occ_in[j].cell()] == TileState::Occupied);
            }
        }
        proof {
            if occ_in.len() > 0 {
                assert(touches(occ_in, orig[n].cell()));
            }
            lemma_push_connected(occ_in, next_tile);
        }
        assert(occupied_set@ =~= occ_in.push(next_tile));
        assert(occupied_set@.no_duplicates()) by {
            assert forall|i: int, j: int|
                0 <= i < occupied_set@.len() && 0 <= j < occupied_set@.len() && i != j implies
                occupied_set@[i] != occupied_set@[j] by {
                if i < occ_in.len() && j < occ_in.len() {
                } else if i < occ_in.len() {
                    assert(occ_in.contains(occupied_set@[i]));
                } else if j < occ_in.len() {
                    assert(occ_in.contains(occupied_set@[j]));
                }
            }
        }
        if new_size == size {
            let shape = occupied_set.clone();
            assert(shape@ =~= occupied_set@);
            assert forall|i: int| 0 <= i < shape@.len() implies in_grid(#[trigger] shape@[i].cell()) && above_border(shape@[i].cell()) by {
                if i < occ_in.len() {
                    assert(shape@[i] == occ_in[i]);
                    assert(g_in[occ_in[i].cell()] == TileState::Occupied);
                } else {
                    assert(g_in[next_tile.cell()] == TileState::Reachable);
                }
            }
            let ghost out_before = out@;
            out.push(shape);
            assert(is_shape(out@[out@.len() - 1]@, size as nat));
            assert(extends_with_shapes(old(out)@, out@, size as nat)) by {
                assert(out@.subrange(0, old(out)@.len() as int) =~= old(out)@);
            }
            proof {
                let last = out_before.len() as int;
                let sh = out@[last]@;
                assert(sh == occ_in.push(next_tile));
                assert(in_cells(sh, orig[n].cell())) by {
                    assert(sh[occ_in.len() as int] == next_tile);
                }
                assert forall|p: int| n < p < orig.len() implies !in_cells(sh, #[trigger] orig[p].cell()) by {
                    assert(g_in[orig[p].cell()] == TileState::Reachable);
                    if in_cells(sh, orig[p].cell()) {
                        let i = choose|i: int| 0 <= i < sh.len() && (#[trigger] sh[i]).cell() == orig[p].cell();
                        if i < occ_in.len() {
                            assert(sh[i] == occ_in[i]);
                            assert(g_in[occ_in[i].cell()] == TileState::Occupied);
                        }
                    }
                }
                assert(drawn_from(sh, g_in, occ_in, orig)) by {
                    assert forall|i: int| 0 <= i < sh.len() implies in_cells(occ_in, #[trigger] sh[i].cell()) || in_cells(orig, sh[i].cell())
                        || g_in[sh[i].cell()] == TileState::Free by {
                        if i < occ_in.len() {
                            assert(sh[i] == occ_in[i]);
                        } else {
                            assert(sh[i] == orig[n]);
                        }
                    }
                }
                assert(holds_all(sh, occ_in)) by {
                    assert forall|i: int| 0 <= i < occ_in.len() implies in_cells(sh, #[trigger] occ_in[i].cell()) by {
                        assert(sh[i] == occ_in[i]);
                    }
                }
                assert(grows_from(sh, occ_in, orig)) by {
                    assert(sh.subrange(0, occ_in.len() as int) =~= occ_in);
                    assert(sh[occ_in.len() as int] == orig[n]);
                }
                assert forall|k: int| old(out)@.len() <= k < out@.len() implies exists|p: int|
                    untried_set@.len() <= p < orig.len() && in_cells(#[trigger] out@[k]@, orig[p].cell()) by {
                    if k < last {
                        assert(out@[k] == out_before[k]);
                    }
                }
                assert forall|k: int| old(out)@.len() <= k < out@.len() implies drawn_from(#[trigger] out@[k]@, g_in, occ_in, orig)
                    && holds_all(out@[k]@, occ_in) && grows_from(out@[k]@, occ_in, orig) by {
                    if k < last {
                        assert(out@[k] == out_before[k]);
                    }
                }
                assert forall|a: int, b: int|
                    old(out)@.len() <= a < out@.len() && old(out)@.len() <= b < out@.len() && a != b
                        implies point_set(#[trigger] out@[a]@) != point_set(#[trigger] out@[b]@) by {
                    if a < last && b < last {
                        assert(out@[a] == out_before[a] && out@[b] == out_before[b]);
                    } else {
                        let o = if a < last { a } else { b };
                        assert(out@[o] == out_before[o]);
                        let p = choose|p: int| n + 1 <= p < orig.len() && in_cells(out_before[o]@, orig[p].cell());
                        assert(point_set(out@[o]@).contains(orig[p].cell()));
                        assert(!point_set(sh).contains(orig[p].cell()));
                    }
                }
                assert(out@.subrange(0, out_head.len() as int) =~= out_head);
                assert forall|w: Seq<Point>| #[trigger] owed(w, size as nat, g_in, occ_in, orig) implies emitted(w, out@, old(out)@.len() as int) || (
                    open_to(w, g_in, occ_in, untried_set@) && rooted(w, occ_in, untried_set@)) by {
                    if emitted(w, out_head, old(out)@.len() as int) {
                        lemma_emitted_grow(w, out_head, out@, old(out)@.len() as int);
                    } else if in_cells(w, next_tile.cell()) {
                        assert forall|i: int| 0 <= i < sh.len() implies in_cells(w, #[trigger] sh[i].cell()) by {
                            if i < occ_in.len() {
                                assert(sh[i] == occ_in[i]);
                            }
                        }
                        lemma_same_point_set(sh, w);
                    } else {
                        lemma_skip_owed(g_in, orig, n, occ_in, w);
                    }
                }
            }
        } else {
            let mut new_reachable_set = untried_set.clone();
            assert(new_reachable_set@ =~= untried_set@);
            let neighbors = Grid::get_neighbors(next_tile);
            let mut free_neighbors: Vec<Point> = Vec::new();
            let mut k: usize = 0;
            assert(marks(g1, free_neighbors@, TileState::Reachable) == g1);
            assert(untried_set@ + free_neighbors@ =~= untried_set@);
            while k < neighbors.len()
                invariant
                    grid.wf(),
                    g1.dom() == Set::new(|c: Cell| in_grid(c)),
                    in_grid(next_tile.cell()),
                    k <= neighbors@.len(),
                    forall|i: int|
                        0 <= i < neighbors@.len() ==> in_grid((#[trigger] neighbors@[i]).cell()),
                    forall|i: int|
                        0 <= i < neighbors@.len() ==> adjacent(
                            next_tile.cell(),
                            (#[trigger] neighbors@[i]).cell(),
                        ),
                    neighbors@.no_duplicates(),
                    free_neighbors@.no_duplicates(),
                    forall|i: int|
                        0 <= i < free_neighbors@.len() ==> g1[(
                        #[trigger] free_neighbors@[i]).cell()] == TileState::Free,
                    forall|i: int|
                        0 <= i < free_neighbors@.len() ==> in_grid(
                            (#[trigger] free_neighbors@[i]).cell(),
                        ),
                    forall|i: int|
                        0 <= i < free_neighbors@.len() ==> adjacent(
                            next_tile.cell(),
                            (#[trigger] free_neighbors@[i]).cell(),
                        ),
                    forall|i: int|
                        0 <= i < free_neighbors@.len() ==> exists|j: int|
                            0 <= j < k && neighbors@[j] == #[trigger] free_neighbors@[i],
                    new_reachable_set@ == untried_set@ + free_neighbors@,
                    grid@ == marks(g1, free_neighbors@, TileState::Reachable),
                    forall|j: int| 0 <= j < k ==> grid@[(#[trigger] neighbors@[j]).cell()] != TileState::Free,
                decreases neighbors@.len() - k,
            {
                let nb = neighbors[k];
                proof {
                    lemma_marks(g1, free_neighbors@, TileState::Reachable);
                }
                if grid.get_pos(nb) == TileState::Free {
                    assert(!free_neighbors@.contains(nb)) by {
                        if free_neighbors@.contains(nb) {
                            let i = choose|i: int|
                                0 <= i < free_neighbors@.len() && free_neighbors@[i] == nb;
                            assert(in_cells(free_neighbors@, nb.cell()));
                        }
                    }
                    assert(!in_cells(free_neighbors@, nb.cell())) by {
                        if in_cells(free_neighbors@, nb.cell()) {
                            let i = choose|i: int|
                                0 <= i < free_neighbors@.len() && (#[trigger] free_neighbors@[i]).cell() == nb.cell();
                            assert(free_neighbors@[i] == nb);
                        }
                    }
                    let ghost before = free_neighbors@;
                    free_neighbors.push(nb);
                    new_reachable_set.push(nb);
                    grid.set_pos(nb, TileState::Reachable);
                    proof {
                        lemma_marks_push(g1, before, nb, TileState::Reachable);
                        assert(new_reachable_set@ =~= untried_set@ + free_neighbors@);
                        assert forall|i: int| 0 <= i < free_neighbors@.len() implies exists|j: int|
                            0 <= j < k + 1 && neighbors@[j] == #[trigger] free_neighbors@[i] by {
                            if i < before.len() {
                                assert(free_neighbors@[i] == before[i]);
                            } else {
                                assert(neighbors@[k as int] == free_neighbors@[i]);
                            }
                        }
                        assert(free_neighbors@.no_duplicates()) by {
                            assert forall|i: int, j: int|
                                0 <= i < free_neighbors@.len() && 0 <= j < free_neighbors@.len()
                                    && i != j implies free_neighbors@[i] != free_neighbors@[j] by {
                                if i < before.len() && j < before.len() {
                                } else if i < before.len() {
                                    assert(before.contains(free_neighbors@[i]));
                                } else if j < before.len() {
                                    assert(before.contains(free_neighbors@[j]));
                                }
                            }
                        }
                    }
                }
                k += 1;
            }
            proof {
                assert forall|d: Dir| in_grid(#[trigger] step(next_tile.cell(), d)) implies grid@[step(next_tile.cell(), d)] != TileState::Free by {
                    let j = choose|j: int| 0 <= j < neighbors@.len() && (#[trigger] neighbors@[j]).cell() == step(next_tile.cell(), d);
                }
                lemma_child_state(g_in, orig, n, occ_in, free_neighbors@, next_tile);
            }
            let ghost gm = grid@;
            let ghost out_before = out@;
            enumerate_recursion(out, grid, new_reachable_set, occupied_set, new_size, size);
            let mut k: usize = 0;
            while k < free_neighbors.len()
                invariant
                    grid.wf(),
                    k <= free_neighbors@.len(),
                    g1.dom() == Set::new(|c: Cell| in_grid(c)),
                    forall|i: int|
                        0 <= i < free_neighbors@.len() ==> in_grid(
                            (#[trigger] free_neighbors@[i]).cell(),
                        ),
                    grid@ == marks(gm, free_neighbors@.subrange(0, k as int), TileState::Free),
                decreases free_neighbors@.len() - k,
            {
                proof {
                    lemma_marks_push(
                        gm,
                        free_neighbors@.subrange(0, k as int),
                        free_neighbors@[k as int],
                        TileState::Free,
                    );
                    assert(free_neighbors@.subrange(0, k as int).push(free_neighbors@[k as int])
                        =~= free_neighbors@.subrange(0, k + 1));
                }
                grid.set_pos(free_neighbors[k], TileState::Free);
                k += 1;
            }
            proof {
                assert(free_neighbors@.subrange(0, k as int) =~= free_neighbors@);
                lemma_marks_restore(g1, free_neighbors@, TileState::Free, TileState::Reachable);
                lemma_extends_trans(old(out)@, out_before, out@, size as nat);
                let last = out_before.len() as int;
                let occ2 = occ_in.push(next_tile);
                let untried2 = orig.subrange(0, n) + free_neighbors@;
                assert forall|k: int| last <= k < out@.len() implies {
                    &&& drawn_from(#[trigger] out@[k]@, g_in, occ_in, orig)
                    &&& holds_all(out@[k]@, occ_in)
                    &&& grows_from(out@[k]@, occ_in, orig)
                    &&& in_cells(out@[k]@, orig[n].cell())
                    &&& forall|p: int| n < p < orig.len() ==> !in_cells(out@[k]@, #[trigger] orig[p].cell())
                } by {
                    assert(drawn_from(out@[k]@, gm, occ2, untried2));
                    assert(holds_all(out@[k]@, occ2));
                    lemma_child_drawn(g_in, orig, n, occ_in, free_neighbors@, next_tile, out@[k]@);
                    assert(grows_from(out@[k]@, occ2, untried2));
                    let sk = out@[k]@;
                    assert(sk.subrange(0, occ_in.len() as int) =~= sk.subrange(0, occ2.len() as int).subrange(0, occ_in.len() as int));
                    assert(occ2.subrange(0, occ_in.len() as int) =~= occ_in);
                    assert(sk[occ_in.len() as int] == sk.subrange(0, occ2.len() as int)[occ_in.len() as int]);
                    assert(sk[occ_in.len() as int] == orig[n]);
                    assert(grows_from(sk, occ_in, orig));
                    assert forall|i: int| 0 <= i < occ_in.len() implies in_cells(out@[k]@, #[trigger] occ_in[i].cell()) by {
                        assert(occ2[i] == occ_in[i]);
                    }
                    assert(occ2[occ_in.len() as int] == orig[n]);
                }
                assert forall|k: int| old(out)@.len() <= k < out@.len() implies exists|p: int|
                    untried_set@.len() <= p < orig.len() && in_cells(#[trigger] out@[k]@, orig[p].cell()) by {
                    if k < last {
                        assert(out@[k] == out_before[k]);
                    }
                }
                assert forall|k: int| old(out)@.len() <= k < out@.len() implies drawn_from(#[trigger] out@[k]@, g_in, occ_in, orig)
                    && holds_all(out@[k]@, occ_in) && grows_from(out@[k]@, occ_in, orig) by {
                    if k < last {
                        assert(out@[k] == out_before[k]);
                    }
                }
                assert forall|a: int, b: int|
                    old(out)@.len() <= a < out@.len() && old(out)@.len() <= b < out@.len() && a != b
                        implies point_set(#[trigger] out@[a]@) != point_set(#[trigger] out@[b]@) by {
                    if a < last && b < last {
                        assert(out@[a] == out_before[a] && out@[b] == out_before[b]);
                    } else if a >= last && b >= last {
                    } else {
                        let o = if a < last { a } else { b };
                        let nw = if a < last { b } else { a };
                        assert(out@[o] == out_before[o]);
                        let p = choose|p: int| n + 1 <= p < orig.len() && in_cells(out_before[o]@, orig[p].cell());
                        assert(point_set(out@[o]@).contains(orig[p].cell()));
                        assert(!in_cells(out@[nw]@, orig[p].cell()));
                        assert(!point_set(out@[nw]@).contains(orig[p].cell()));
                    }
                }
                assert(out_before =~= out_head);
                assert forall|w: Seq<Point>| #[trigger] owed(w, size as nat, g_in, occ_in, orig) implies emitted(w, out@, old(out)@.len() as int) || (
                    open_to(w, g_in, occ_in, untried_set@) && rooted(w, occ_in, untried_set@)) by {
                    if emitted(w, out_head, old(out)@.len() as int) {
                        lemma_emitted_grow(w, out_head, out@, old(out)@.len() as int);
                    } else if in_cells(w, next_tile.cell()) {
                        lemma_child_owed(g_in, orig, n, occ_in, free_neighbors@, next_tile, w, size as nat);
                        assert(owed(w, size as nat, gm, occ2, untried2));
                        let k = choose|k: int| last <= k < out@.len() && point_set(#[trigger] out@[k]@) == point_set(w);
                    } else {
                        lemma_skip_owed(g_in, orig, n, occ_in, w);
                    }
                }
            }
        }
        occupied_set.pop();
        assert(occupied_set@ =~= occ_in);
        grid.set_pos(next_tile, TileState::Reachable);
        assert(grid@ =~= g_in);
    }
    proof {
        assert forall|sh: Seq<Point>| #[trigger] owed(sh, size as nat, g_in, occ_in, orig) implies emitted(
            sh,
            out@,
            old(out)@.len() as int,
        ) by {
            if !emitted(sh, out@, old(out)@.len() as int) {
                assert(untried_set@ =~= Seq::<Point>::empty());
                lemma_nothing_owed(g_in, orig, occ_in, sh, size as nat);
            }
        }
    }
}

/// Fixed polyominoes of `size` cells as grid-local cell lists, grown from the origin: each
/// list starts at the origin and holds `size` distinct, edge-connected cells, none left of
/// the origin on row 0, and no two lists hold the same cells.
pub fn enumerate_polyominos(size: u8) -> (r: Vec<Vec<Point>>)
    requires
        1 <= size <= GRID_SIZE,
    ensures
        forall|k: int| 0 <= k < r@.len() ==> is_shape(#[trigger] r@[k]@, size as nat),
        forall|k: int| 0 <= k < r@.len() ==> (#[trigger] r@[k]@)[0] == (Point { x: 0, y: 0 }),
        forall|a: int, b: int|
            0 <= a < r@.len() && 0 <= b < r@.len() && a != b ==> point_set(#[trigger] r@[a]@)
                != point_set(#[trigger] r@[b]@),
        forall|s: Seq<Point>|
            #[trigger] is_shape(s, size as nat) && in_cells(s, (0, 0)) ==> exists|k: int|
                0 <= k < r@.len() && point_set(#[trigger] r@[k]@) == point_set(s),
{
    let mut out: Vec<Vec<Point>> = Vec::new();
    let mut enum_grid = Grid::default();
    let origin = Point { x: 0, y: 0 };
    enum_grid.set_pos(origin, TileState::Reachable);
    let mut reachable_set: Vec<Point> = Vec::new();
    reachable_set.push(origin);
    let mut occupied_set: Vec<Point> = Vec::new();
    assert(reachable_set@[0] == origin);
    assert(enum_grid@[origin.cell()] == TileState::Reachable);
    assert forall|c: Cell| in_grid(c) && !above_border(c) implies #[trigger] enum_grid@[c] == TileState::Border by {
        assert(c != origin.cell());
    }
    let ghost start = reachable_set@;
    let ghost g0 = enum_grid@;
    enumerate_recursion(&mut out, &mut enum_grid, reachable_set, &mut occupied_set, 0, size);
    assert(out@.subrange(0, 0) =~= Seq::<Vec<Point>>::empty());
    assert forall|sh: Seq<Point>| #[trigger] is_shape(sh, size as nat) && in_cells(sh, (0, 0)) implies exists|k: int|
        0 <= k < out@.len() && point_set(#[trigger] out@[k]@) == point_set(sh) by {
        let e = Seq::<Point>::empty();
        assert forall|i: int| 0 <= i < sh.len() implies in_cells(e, #[trigger] sh[i].cell()) || in_cells(start, sh[i].cell())
            || g0[sh[i].cell()] == TileState::Free by {
            if sh[i].cell() == origin.cell() {
                assert(start[0] == origin);
            } else {
                assert(in_grid(sh[i].cell()) && above_border(sh[i].cell()));
            }
        }
        let i0 = choose|i: int| 0 <= i < sh.len() && (#[trigger] sh[i]).cell() == (0int, 0int);
        assert(start[0] == origin);
        assert(in_cells(start, sh[i0].cell()));
        assert(owed(sh, size as nat, g0, e, start));
    }
    assert forall|k: int| 0 <= k < out@.len() implies (#[trigger] out@[k]@)[0] == (Point { x: 0, y: 0 }) by {
        assert(grows_from(out@[k]@, Seq::<Point>::empty(), start));
        let j = choose|j: int| 0 <= j < start.len() && start[j] == out@[k]@[0];
    }
    out
}

/// The cells of a grid-local list in free form.
pub fn to_free_points(pts: &Vec<Point>) -> (r: Vec<FreePoint>)
    requires
        forall|i: int| 0 <= i < pts@.len() ==> (#[trigger] pts@[i]).y <= 127,
    ensures
        r@.len() == pts@.len(),
        forall|i: int| 0 <= i < r@.len() ==> (#[trigger] r@[i]).cell() == pts@[i].cell(),
{
    let mut out: Vec<FreePoint> = Vec::new();
    let mut i: usize = 0;
    while i < pts.len()
        invariant
            i <= pts@.len(),
            forall|j: int| 0 <= j < pts@.len() ==> (#[trigger] pts@[j]).y <= 127,
            out@.len() == i,
            forall|j: int| 0 <= j < i ==> (#[trigger] out@[j]).cell() == pts@[j].cell(),
        decreases pts@.len() - i,
    {
        out.push(FreePoint::from_point(pts[i]));
        i += 1;
    }
    out
}

/// `c` is the least cell of `s` when cells are compared by `y`, then `x`.
pub open spec fn is_yx_min(s: Set<Cell>, c: Cell) -> bool {
    s.contains(c) && forall|d: Cell| #[trigger] s.contains(d) ==> !yx_less(d, c)
}

/// The least cell of `s` by `y`, then `x`.
pub open spec fn yx_min(s: Set<Cell>) -> Cell {
    choose|c: Cell| is_yx_min(s, c)
}

/// The cells of `s` moved so that the least one by `y`, then `x`, sits at the origin.
pub open spec fn normal_form(s: Set<Cell>) -> Set<Cell> {
    shifted(s, (-yx_min(s).0, -yx_min(s).1))
}

pub proof fn lemma_yx_min_unique(s: Set<Cell>, c: Cell)
    requires
        is_yx_min(s, c),
    ensures
        yx_min(s) == c,
{
    let m = yx_min(s);
    assert(is_yx_min(s, m));
    assert(!yx_less(m, c) && !yx_less(c, m));
}

/// Two sorted lists with the same cells are equal.
pub proof fn lemma_sorted_same_cells(a: Seq<FreePoint>, b: Seq<FreePoint>)
    requires
        sorted_pts(a),
        sorted_pts(b),
        cell_set(a) == cell_set(b),
    ensures
        a == b,
    decreases a.len() + b.len(),
{
    if a.len() == 0 || b.len() == 0 {
        if a.len() > 0 {
            assert(cell_set(a).contains(a[0].cell()));
        }
        if b.len() > 0 {
            assert(cell_set(b).contains(b[0].cell()));
        }
        assert(a =~= b);
    } else {
        assert(cell_set(a).contains(a[0].cell()));
        assert(cell_set(b).contains(b[0].cell()));
        let ja = choose|j: int| 0 <= j < b.len() && (#[trigger] b[j]).cell() == a[0].cell();
        let jb = choose|j: int| 0 <= j < a.len() && (#[trigger] a[j]).cell() == b[0].cell();
        if ja > 0 {
            assert(pt_less(b[0].cell(), b[ja].cell()));
        }
        if jb > 0 {
            assert(pt_less(a[0].cell(), a[jb].cell()));
        }
        assert(a[0] == b[0]);
        let ta = a.subrange(1, a.len() as int);
        let tb = b.subrange(1, b.len() as int);
        assert forall|c: Cell| cell_set(ta).contains(c) == cell_set(tb).contains(c) by {
            if cell_set(ta).contains(c) {
                let i = choose|i: int| 0 <= i < ta.len() && (#[trigger] ta[i]).cell() == c;
                assert(a[i + 1] == ta[i]);
                assert(pt_less(a[0].cell(), c));
                assert(cell_set(a).contains(c));
                let j = choose|j: int| 0 <= j < b.len() && (#[trigger] b[j]).cell() == c;
                assert(j != 0);
                assert(tb[j - 1] == b[j]);
            }
            if cell_set(tb).contains(c) {
                let i = choose|i: int| 0 <= i < tb.len() && (#[trigger] tb[i]).cell() == c;
                assert(b[i + 1] == tb[i]);
                assert(pt_less(b[0].cell(), c));
                assert(cell_set(b).contains(c));
                let j = choose|j: int| 0 <= j < a.len() && (#[trigger] a[j]).cell() == c;
                assert(j != 0);
                assert(ta[j - 1] == a[j]);
            }
        }
        assert(cell_set(ta) =~= cell_set(tb));
        lemma_sorted_same_cells(ta, tb);
        assert(a =~= seq![a[0]] + ta);
        assert(b =~= seq![b[0]] + tb);
    }
}

/// The least point of a non-empty list by `y`, then `x`.
pub fn min_point(omino: &Vec<FreePoint>) -> (r: FreePoint)
    requires
        omino@.len() > 0,
    ensures
        is_yx_min(cell_set(omino@), r.cell()),
{
    let mut best = omino[0];
    let mut i: usize = 1;
    assert(cell_set(omino@).contains(omino@[0].cell()));
    while i < omino.len()
        invariant
            1 <= i <= omino@.len(),
            cell_set(omino@).contains(best.cell()),
            forall|j: int| 0 <= j < i ==> !yx_less((#[trigger] omino@[j]).cell(), best.cell()),
        decreases omino@.len() - i,
    {
        if let std::cmp::Ordering::Less = compare_points(&omino[i], &best) {
            best = omino[i];
            assert(cell_set(omino@).contains(omino@[i as int].cell()));
        }
        i += 1;
    }
    assert forall|d: Cell| #[trigger] cell_set(omino@).contains(d) implies !yx_less(d, best.cell()) by {
        let j = choose|j: int| 0 <= j < omino@.len() && (#[trigger] omino@[j]).cell() == d;
    }
    best
}

/// Moves a shape so that its least cell by `y`, then `x`, sits at the origin, and sorts it.
pub fn normalize_omino(omino: Vec<FreePoint>) -> (r: Vec<FreePoint>)
    requires
        omino@.len() > 0,
        all_in_span(omino@),
        omino@.no_duplicates(),
    ensures
        sorted_pts(r@),
        r@.len() == omino@.len(),
        cell_set(r@) == normal_form(cell_set(omino@)),
{
    let m = min_point(&omino);
    proof {
        lemma_yx_min_unique(cell_set(omino@), m.cell());
        assert(in_span(m.cell())) by {
            let j = choose|j: int| 0 <= j < omino@.len() && (#[trigger] omino@[j]).cell() == m.cell();
        }
    }
    let translation = invert_point(m);
    proof {
        assert forall|i: int| 0 <= i < omino@.len() implies fits(add_cells((#[trigger] omino@[i]).cell(), translation.cell())) by {
            assert(in_span(omino@[i].cell()));
        }
    }
    let translated = translate_omino(&omino, translation);
    proof {
        assert forall|i: int, j: int| 0 <= i < translated@.len() && 0 <= j < translated@.len() && i != j implies translated@[i] != translated@[j] by {
            assert(omino@[i] != omino@[j]);
        }
    }
    sort_points(&translated)
}

} // verus!
