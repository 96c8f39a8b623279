use vstd::prelude::*;
use vstd::arithmetic::div_mod::lemma_fundamental_div_mod_converse;

use crate::assemble::{
    all_in_span, can_surround, copies_of, copy_cells, covered_by, dir_num, dir_of_num, first_gap,
    gap_edge, in_span, is_target, lemma_target_exists, lemma_unrot, n_covered, perimeter_set,
    perimeters_full, perimeters_ok, placements_ok, rot, rot_set, rotations_and_perimeters,
    rotations_of, rotations_of_set, surrounds, touches_hole, translation_of_a_to_b, unrot, Edge,
    Placement,
};
use crate::omino::{
    add_cells, cell_set, dir_vec, fits, shifted, step, sub_cells, sum_points, Cell, Dir, FreePoint,
};

verus! {

/// Distance from the board's first row and column to the origin.
pub const OFFSET: usize = 34;

/// Width and height of the board.
pub const MAX_SIZE: usize = 68;

/// Number of squares of the board.
pub const BOARD_SQUARES: usize = 4624;

/// Whether a cell lies on the board.
pub open spec fn in_window(c: Cell) -> bool {
    -34 <= c.0 < 34 && -34 <= c.1 < 34
}

/// Where a board cell is stored in the flat table.
pub open spec fn board_index(c: Cell) -> int {
    (c.0 + 34) * 68 + (c.1 + 34)
}

proof fn lemma_board_index(c: Cell)
    requires
        in_window(c),
    ensures
        0 <= board_index(c) < 4624,
        board_index(c) % 68 == c.1 + 34,
        board_index(c) / 68 == c.0 + 34,
{
    lemma_fundamental_div_mod_converse(board_index(c), 68, c.0 + 34, c.1 + 34);
    assert(0 <= board_index(c) < 4624) by (nonlinear_arith)
        requires
            -34 <= c.0 < 34,
            -34 <= c.1 < 34,
    ;
}

/// A dense occupancy table over the cells of `in_window`.
pub struct Board {
    squares: Vec<bool>,
}

impl View for Board {
    type V = Set<Cell>;

    closed spec fn view(&self) -> Set<Cell> {
        Set::new(|c: Cell| in_window(c) && self.squares@[board_index(c)])
    }
}

/// Cells whose shift by `t` lies on the board.
pub open spec fn shift_in_window(s: Seq<FreePoint>, t: FreePoint) -> bool {
    forall|i: int| 0 <= i < s.len() ==> in_window(add_cells((#[trigger] s[i]).cell(), t.cell()))
}

fn square(pt: FreePoint) -> (r: usize)
    requires
        in_window(pt.cell()),
    ensures
        r == board_index(pt.cell()),
        r < BOARD_SQUARES,
{
    proof {
        lemma_board_index(pt.cell());
    }
    ((pt.x as i16 + OFFSET as i16) as usize) * MAX_SIZE + ((pt.y as i16 + OFFSET as i16) as usize)
}

impl Board {
    pub closed spec fn wf(&self) -> bool {
        self.squares@.len() == BOARD_SQUARES
    }

    /// A board with no cell occupied.
    pub fn empty() -> (r: Board)
        ensures
            r.wf(),
            r@ == Set::<Cell>::empty(),
    {
        let mut squares: Vec<bool> = Vec::new();
        let mut i: usize = 0;
        while i < BOARD_SQUARES
            invariant
                i <= BOARD_SQUARES,
                squares@.len() == i,
                forall|j: int| 0 <= j < i ==> !(#[trigger] squares@[j]),
            decreases BOARD_SQUARES - i,
        {
            squares.push(false);
            i += 1;
        }
        let r = Board { squares };
        assert forall|c: Cell| !r@.contains(c) by {
            if in_window(c) {
                lemma_board_index(c);
            }
        }
        assert(r@ =~= Set::<Cell>::empty());
        r
    }

    /// Whether `pt` is occupied.
    pub fn contains(&self, pt: FreePoint) -> (r: bool)
        requires
            self.wf(),
            in_window(pt.cell()),
        ensures
            r == self@.contains(pt.cell()),
    {
        self.squares[square(pt)]
    }

    fn set(&mut self, pt: FreePoint, v: bool)
        requires
            old(self).wf(),
            in_window(pt.cell()),
        ensures
            final(self).wf(),
            final(self)@ == if v {
                old(self)@.insert(pt.cell())
            } else {
                old(self)@.remove(pt.cell())
            },
    {
        let idx = square(pt);
        self.squares.set(idx, v);
        proof {
            assert forall|c: Cell| self@.contains(c) == (if v {
                old(self)@.insert(pt.cell())
            } else {
                old(self)@.remove(pt.cell())
            }).contains(c) by {
                if in_window(c) {
                    lemma_board_index(c);
                    lemma_board_index(pt.cell());
                }
            }
            assert(self@ =~= (if v {
                old(self)@.insert(pt.cell())
            } else {
                old(self)@.remove(pt.cell())
            }));
        }
    }

    /// Marks every cell of `fpl` occupied, whatever it held.
    pub fn add_always(&mut self, fpl: &[FreePoint])
        requires
            old(self).wf(),
            forall|i: int| 0 <= i < fpl@.len() ==> in_window((#[trigger] fpl@[i]).cell()),
        ensures
            final(self).wf(),
            final(self)@ == old(self)@.union(cell_set(fpl@)),
    {
        let mut i: usize = 0;
        while i < fpl.len()
            invariant
                self.wf(),
                i <= fpl@.len(),
                forall|i: int| 0 <= i < fpl@.len() ==> in_window((#[trigger] fpl@[i]).cell()),
                self@ == old(self)@.union(cell_set(fpl@.subrange(0, i as int))),
            decreases fpl@.len() - i,
        {
            proof {
                crate::omino::lemma_cell_set_prefix(fpl@, i as int);
            }
            self.set(fpl[i], true);
            i += 1;
            assert(self@ =~= old(self)@.union(cell_set(fpl@.subrange(0, i as int))));
        }
        assert(fpl@.subrange(0, i as int) =~= fpl@);
    }

    /// Marks the cells of `fpl` occupied if none of them is; otherwise changes nothing and
    /// gives `false`.
    pub fn add(&mut self, fpl: &[FreePoint]) -> (r: bool)
        requires
            old(self).wf(),
            forall|i: int| 0 <= i < fpl@.len() ==> in_window((#[trigger] fpl@[i]).cell()),
        ensures
            final(self).wf(),
            r == old(self)@.disjoint(cell_set(fpl@)),
            r ==> final(self)@ == old(self)@.union(cell_set(fpl@)),
            !r ==> final(self)@ == old(self)@,
    {
        let mut i: usize = 0;
        while i < fpl.len()
            invariant
                self.wf(),
                i <= fpl@.len(),
                self@ == old(self)@,
                forall|i: int| 0 <= i < fpl@.len() ==> in_window((#[trigger] fpl@[i]).cell()),
                forall|j: int| 0 <= j < i ==> !old(self)@.contains((#[trigger] fpl@[j]).cell()),
            decreases fpl@.len() - i,
        {
            if self.contains(fpl[i]) {
                assert(cell_set(fpl@).contains(fpl@[i as int].cell()));
                return false;
            }
            i += 1;
        }
        assert forall|c: Cell| old(self)@.contains(c) implies !cell_set(fpl@).contains(c) by {
            if cell_set(fpl@).contains(c) {
                let j = choose|j: int| 0 <= j < fpl@.len() && (#[trigger] fpl@[j]).cell() == c;
            }
        }
        self.add_always(fpl);
        true
    }

    /// Clears every cell of `fpl`, each of which must be occupied.
    pub fn undo(&mut self, fpl: &[FreePoint])
        requires
            old(self).wf(),
            forall|i: int| 0 <= i < fpl@.len() ==> in_window((#[trigger] fpl@[i]).cell()),
            forall|i: int| 0 <= i < fpl@.len() ==> old(self)@.contains((#[trigger] fpl@[i]).cell()),
        ensures
            final(self).wf(),
            final(self)@ == old(self)@.difference(cell_set(fpl@)),
    {
        let mut i: usize = 0;
        while i < fpl.len()
            invariant
                self.wf(),
                i <= fpl@.len(),
                forall|i: int| 0 <= i < fpl@.len() ==> in_window((#[trigger] fpl@[i]).cell()),
                self@ == old(self)@.difference(cell_set(fpl@.subrange(0, i as int))),
            decreases fpl@.len() - i,
        {
            proof {
                crate::omino::lemma_cell_set_prefix(fpl@, i as int);
            }
            self.set(fpl[i], false);
            i += 1;
            assert(self@ =~= old(self)@.difference(cell_set(fpl@.subrange(0, i as int))));
        }
        assert(fpl@.subrange(0, i as int) =~= fpl@);
    }

    /// Marks the cells of `omino` moved by `translation` occupied if none of them is;
    /// otherwise changes nothing and gives `false`.
    pub fn add_(&mut self, omino: &[FreePoint], translation: FreePoint) -> (r: bool)
        requires
            old(self).wf(),
            shift_in_window(omino@, translation),
        ensures
            final(self).wf(),
            r == old(self)@.disjoint(shifted(cell_set(omino@), translation.cell())),
            r ==> final(self)@ == old(self)@.union(shifted(cell_set(omino@), translation.cell())),
            !r ==> final(self)@ == old(self)@,
    {
        let ghost moved = shifted(cell_set(omino@), translation.cell());
        let mut i: usize = 0;
        while i < omino.len()
            invariant
                self.wf(),
                i <= omino@.len(),
                self@ == old(self)@,
                shift_in_window(omino@, translation),
                forall|j: int| 0 <= j < i ==> !old(self)@.contains(add_cells((#[trigger] omino@[j]).cell(), translation.cell())),
            decreases omino@.len() - i,
        {
            let pt = sum_points(omino[i], translation);
            if self.contains(pt) {
                assert(shifted(cell_set(omino@), translation.cell()).contains(pt.cell())) by {
                    assert(sub_cells(pt.cell(), translation.cell()) == omino@[i as int].cell());
                    assert(cell_set(omino@).contains(omino@[i as int].cell()));
                }
                return false;
            }
            i += 1;
        }
        assert forall|c: Cell| old(self)@.contains(c) implies !moved.contains(c) by {
            if moved.contains(c) {
                let j = choose|j: int| 0 <= j < omino@.len() && (#[trigger] omino@[j]).cell() == sub_cells(c, translation.cell());
                assert(add_cells(omino@[j].cell(), translation.cell()) == c);
            }
        }
        let mut i: usize = 0;
        while i < omino.len()
            invariant
                self.wf(),
                i <= omino@.len(),
                shift_in_window(omino@, translation),
                self@ == old(self)@.union(shifted(cell_set(omino@.subrange(0, i as int)), translation.cell())),
            decreases omino@.len() - i,
        {
            proof {
                crate::omino::lemma_cell_set_prefix(omino@, i as int);
            }
            let pt = sum_points(omino[i], translation);
            self.set(pt, true);
            i += 1;
            assert(self@ =~= old(self)@.union(shifted(cell_set(omino@.subrange(0, i as int)), translation.cell())));
        }
        assert(omino@.subrange(0, i as int) =~= omino@);
        true
    }

    /// Clears the cells of `omino` moved by `translation`.
    pub fn undo_(&mut self, omino: &[FreePoint], translation: FreePoint)
        requires
            old(self).wf(),
            shift_in_window(omino@, translation),
        ensures
            final(self).wf(),
            final(self)@ == old(self)@.difference(shifted(cell_set(omino@), translation.cell())),
    {
        let mut i: usize = 0;
        while i < omino.len()
            invariant
                self.wf(),
                i <= omino@.len(),
                shift_in_window(omino@, translation),
                self@ == old(self)@.difference(shifted(cell_set(omino@.subrange(0, i as int)), translation.cell())),
            decreases omino@.len() - i,
        {
            proof {
                crate::omino::lemma_cell_set_prefix(omino@, i as int);
            }
            let pt = sum_points(omino[i], translation);
            self.set(pt, false);
            i += 1;
            assert(self@ =~= old(self)@.difference(shifted(cell_set(omino@.subrange(0, i as int)), translation.cell())));
        }
        assert(omino@.subrange(0, i as int) =~= omino@);
    }

    /// The next neighbour of the hole to cover, as the edge that a copy must present there,
    /// or `None` when all four are occupied.
    pub fn next_edge_to_cover(&self) -> (r: Option<Edge>)
        requires
            self.wf(),
        ensures
            r.is_none() <==> first_gap(self@).is_none(),
            r matches Some(e) ==> e.view_pair() == gap_edge(first_gap(self@).unwrap()),
    {
        if !self.contains(FreePoint { x: 0, y: 1 }) {
            Some(Edge(FreePoint { x: 0, y: 1 }, Dir::S))
        } else if !self.contains(FreePoint { x: 1, y: 0 }) {
            Some(Edge(FreePoint { x: 1, y: 0 }, Dir::W))
        } else if !self.contains(FreePoint { x: 0, y: -1 }) {
            Some(Edge(FreePoint { x: 0, y: -1 }, Dir::N))
        } else if !self.contains(FreePoint { x: -1, y: 0 }) {
            Some(Edge(FreePoint { x: -1, y: 0 }, Dir::E))
        } else {
            None
        }
    }
}

/// `w` completes a partial arrangement whose cells are `occ`: its copies are well placed,
/// stay off `occ`, and together with `occ` cover all four neighbours of the hole.
pub open spec fn completes(copies: Seq<Set<Cell>>, occ: Set<Cell>, w: Seq<Placement>) -> bool {
    &&& placements_ok(copies, w)
    &&& forall|i: int| 0 <= i < w.len() ==> (#[trigger] copy_cells(copies, w[i])).disjoint(occ)
    &&& forall|d: Dir| occ.contains(#[trigger] dir_vec(d)) || covered_by(copies, w, dir_vec(d))
}

/// Every shape lies in the span window.
pub open spec fn ominos_in_span(ominos: [Vec<FreePoint>; 4]) -> bool {
    forall|i: int| 0 <= i < 4 ==> all_in_span(#[trigger] ominos[i]@)
}

/// The cells that the copies of `w` cover.
pub open spec fn union_of(copies: Seq<Set<Cell>>, w: Seq<Placement>) -> Set<Cell> {
    Set::new(|c: Cell| covered_by(copies, w, c))
}

proof fn lemma_prepend(copies: Seq<Set<Cell>>, occ: Set<Cell>, pl: Placement, w: Seq<Placement>)
    requires
        pl.rotation < copies.len(),
        !copy_cells(copies, pl).contains((0, 0)),
        touches_hole(copy_cells(copies, pl)),
        copy_cells(copies, pl).disjoint(occ),
        completes(copies, occ.union(copy_cells(copies, pl)), w),
    ensures
        completes(copies, occ, seq![pl] + w),
        union_of(copies, seq![pl] + w) == copy_cells(copies, pl).union(union_of(copies, w)),
{
    let nw = seq![pl] + w;
    assert forall|c: Cell| union_of(copies, nw).contains(c) == copy_cells(copies, pl).union(union_of(copies, w)).contains(c) by {
        if covered_by(copies, nw, c) {
            let i = choose|i: int| 0 <= i < nw.len() && (#[trigger] copy_cells(copies, nw[i])).contains(c);
            if i > 0 {
                assert(nw[i] == w[i - 1]);
                assert(covered_by(copies, w, c));
            }
        }
        if covered_by(copies, w, c) {
            let i = choose|i: int| 0 <= i < w.len() && (#[trigger] copy_cells(copies, w[i])).contains(c);
            assert(nw[i + 1] == w[i]);
            assert(copy_cells(copies, nw[i + 1]).contains(c));
        }
        if copy_cells(copies, pl).contains(c) {
            assert(copy_cells(copies, nw[0]).contains(c));
        }
    }
    assert(union_of(copies, nw) =~= copy_cells(copies, pl).union(union_of(copies, w)));
    let s = copy_cells(copies, pl);
    assert(nw[0] == pl);
    assert forall|i: int| 0 < i < nw.len() implies nw[i] == w[i - 1] by {}
    assert forall|i: int| 0 <= i < nw.len() implies (#[trigger] copy_cells(copies, nw[i])).disjoint(occ) by {
        if i > 0 {
            assert(copy_cells(copies, w[i - 1]).disjoint(occ.union(s)));
        }
    }
    assert forall|i: int, j: int|
        0 <= i < nw.len() && 0 <= j < nw.len() && i != j implies (#[trigger] copy_cells(
            copies,
            nw[i],
        )).disjoint(#[trigger] copy_cells(copies, nw[j])) by {
        if i > 0 && j > 0 {
            assert(copy_cells(copies, w[i - 1]).disjoint(copy_cells(copies, w[j - 1])));
        } else if i > 0 {
            assert(copy_cells(copies, w[i - 1]).disjoint(occ.union(s)));
        } else {
            assert(copy_cells(copies, w[j - 1]).disjoint(occ.union(s)));
        }
    }
    assert forall|d: Dir| occ.contains(#[trigger] dir_vec(d)) || covered_by(copies, nw, dir_vec(d)) by {
        if s.contains(dir_vec(d)) {
            assert(copy_cells(copies, nw[0]).contains(dir_vec(d)));
        } else if covered_by(copies, w, dir_vec(d)) {
            let i = choose|i: int| 0 <= i < w.len() && (#[trigger] copy_cells(copies, w[i])).contains(dir_vec(d));
            assert(copy_cells(copies, nw[i + 1]).contains(dir_vec(d)));
        }
    }
}

/// Removing one copy of an arrangement and adding its cells to the board leaves an
/// arrangement that completes the larger board.
proof fn lemma_remove(copies: Seq<Set<Cell>>, occ: Set<Cell>, w: Seq<Placement>, k: int)
    requires
        completes(copies, occ, w),
        0 <= k < w.len(),
    ensures
        completes(copies, occ.union(copy_cells(copies, w[k])), w.remove(k)),
{
    let nw = w.remove(k);
    let occ2 = occ.union(copy_cells(copies, w[k]));
    assert forall|i: int| 0 <= i < nw.len() implies #[trigger] nw[i] == w[if i < k { i } else { i + 1 }] by {}
    assert forall|i: int| 0 <= i < nw.len() implies (#[trigger] copy_cells(copies, nw[i])).disjoint(occ2) by {
        let oi = if i < k { i } else { i + 1 };
        assert(nw[i] == w[oi]);
        assert(copy_cells(copies, w[oi]).disjoint(occ));
        assert(copy_cells(copies, w[oi]).disjoint(copy_cells(copies, w[k])));
    }
    assert forall|i: int| 0 <= i < nw.len() implies (#[trigger] nw[i]).rotation < copies.len()
        && !copy_cells(copies, nw[i]).contains((0, 0)) && touches_hole(copy_cells(copies, nw[i])) by {
        let oi = if i < k { i } else { i + 1 };
        assert(nw[i] == w[oi]);
        assert(w[oi].rotation < copies.len());
        assert(!copy_cells(copies, w[oi]).contains((0, 0)));
        assert(touches_hole(copy_cells(copies, w[oi])));
    }
    assert forall|i: int, j: int|
        0 <= i < nw.len() && 0 <= j < nw.len() && i != j implies (#[trigger] copy_cells(
            copies,
            nw[i],
        )).disjoint(#[trigger] copy_cells(copies, nw[j])) by {
        let oi = if i < k { i } else { i + 1 };
        let oj = if j < k { j } else { j + 1 };
        assert(nw[i] == w[oi] && nw[j] == w[oj]);
        assert(copy_cells(copies, w[oi]).disjoint(copy_cells(copies, w[oj])));
    }
    assert forall|d: Dir| occ2.contains(#[trigger] dir_vec(d)) || covered_by(copies, nw, dir_vec(d)) by {
        if !occ.contains(dir_vec(d)) {
            assert(covered_by(copies, w, dir_vec(d)));
            let i = choose|i: int| 0 <= i < w.len() && (#[trigger] copy_cells(copies, w[i])).contains(dir_vec(d));
            if i < k {
                assert(nw[i] == w[i]);
                assert(copy_cells(copies, nw[i]).contains(dir_vec(d)));
            } else if i > k {
                assert(nw[i - 1] == w[i]);
                assert(copy_cells(copies, nw[i - 1]).contains(dir_vec(d)));
            }
        }
    }
}

/// A copy placed on a gap, followed by copies that complete the larger board, completes the
/// board and leaves exactly their cells added.
proof fn lemma_board_success(copies: Seq<Set<Cell>>, b0: Set<Cell>, pl: Placement, fin: Set<Cell>)
    requires
        pl.rotation < copies.len(),
        !copy_cells(copies, pl).contains((0, 0)),
        touches_hole(copy_cells(copies, pl)),
        copy_cells(copies, pl).disjoint(b0),
        exists|w: Seq<Placement>|
            completes(copies, b0.union(copy_cells(copies, pl)), w) && fin == b0.union(
                copy_cells(copies, pl),
            ).union(union_of(copies, w)),
    ensures
        exists|w: Seq<Placement>| completes(copies, b0, w) && fin == b0.union(union_of(copies, w)),
{
    let w = choose|w: Seq<Placement>|
        completes(copies, b0.union(copy_cells(copies, pl)), w) && fin == b0.union(
            copy_cells(copies, pl),
        ).union(union_of(copies, w));
    lemma_prepend(copies, b0, pl, w);
    assert(fin =~= b0.union(union_of(copies, seq![pl] + w)));
}

/// Depth-first search on the board: fills the next gap of the hole with each rotated copy
/// whose boundary segment fits there without overlap, and recurses. On `true` the copies
/// that finished the arrangement are added to the board; on `false` the board is as it was.
pub fn covers_board(
    ominos: &[Vec<FreePoint>; 4],
    perimeters: &[Vec<Edge>; 4],
    board: &mut Board,
) -> (r: bool)
    requires
        old(board).wf(),
        ominos_in_span(*ominos),
        perimeters_ok(*ominos, *perimeters),
        perimeters_full(*ominos, *perimeters),
        !old(board)@.contains((0, 0)),
    ensures
        final(board).wf(),
        r == exists|w: Seq<Placement>| completes(copies_of(*ominos), old(board)@, w),
        r ==> exists|w: Seq<Placement>|
            completes(copies_of(*ominos), old(board)@, w) && final(board)@ == old(board)@.union(
                union_of(copies_of(*ominos), w),
            ),
        !r ==> final(board)@ == old(board)@,
    decreases 4 - n_covered(old(board)@),
{
    let ghost copies = copies_of(*ominos);
    let ghost b0 = board@;
    let edge_to_cover = match board.next_edge_to_cover() {
        None => {
            assert(completes(copies, b0, Seq::<Placement>::empty()));
            assert(b0.union(union_of(copies, Seq::<Placement>::empty())) =~= b0);
            return true;
        },
        Some(e) => e,
    };
    let ghost gap = first_gap(b0).unwrap();
    let pt_to_cover = edge_to_cover.0;
    let dir_to_cover = edge_to_cover.1;
    let mut i: usize = 0;
    while i < 4
        invariant
            i <= 4,
            copies == copies_of(*ominos),
            board.wf(),
            board@ == b0,
            b0 == old(board)@,
            !b0.contains((0, 0)),
            ominos_in_span(*ominos),
            perimeters_ok(*ominos, *perimeters),
            perimeters_full(*ominos, *perimeters),
            first_gap(b0) == Some(gap),
            (pt_to_cover.cell(), dir_to_cover) == gap_edge(gap),
            forall|w: Seq<Placement>, k: int, m2: int|
                #[trigger] is_target(*perimeters, copies, gap, w, k, m2) && completes(copies, b0, w)
                    ==> w[k].rotation >= i,
        decreases 4 - i,
    {
        let mut m: usize = 0;
        while m < perimeters[i].len()
            invariant
                i < 4,
                copies == copies_of(*ominos),
                board.wf(),
                board@ == b0,
                b0 == old(board)@,
                !b0.contains((0, 0)),
                ominos_in_span(*ominos),
                perimeters_ok(*ominos, *perimeters),
                perimeters_full(*ominos, *perimeters),
                first_gap(b0) == Some(gap),
                (pt_to_cover.cell(), dir_to_cover) == gap_edge(gap),
                forall|w: Seq<Placement>, k: int, m2: int|
                    #[trigger] is_target(*perimeters, copies, gap, w, k, m2) && completes(copies, b0, w)
                        ==> w[k].rotation > i || (w[k].rotation == i && m2 >= m),
            decreases perimeters[i as int]@.len() - m,
        {
            let fp = perimeters[i][m].0;
            let d = perimeters[i][m].1;
            if d == dir_to_cover {
                let ghost om = ominos[i as int]@;
                assert(perimeter_set(cell_set(om)).contains(perimeters[i as int]@[m as int].view_pair()));
                assert(all_in_span(om));
                let translation = translation_of_a_to_b(fp, pt_to_cover);
                let ghost pl = Placement { rotation: i as u8, translation };
                let ghost moved = shifted(cell_set(om), translation.cell());
                proof {
                    assert forall|k: int| 0 <= k < om.len() implies in_window(add_cells((#[trigger] om[k]).cell(), translation.cell())) by {
                        assert(in_span(om[k].cell()));
                    }
                    assert(copy_cells(copies, pl) == moved);
                    assert(moved.contains(dir_vec(gap))) by {
                        assert(sub_cells(dir_vec(gap), translation.cell()) == fp.cell());
                    }
                    assert(touches_hole(moved));
                    assert(!moved.contains((0, 0))) by {
                        assert(sub_cells((0, 0), translation.cell()) == step(fp.cell(), d));
                    }
                }
                proof {
                    assert forall|w: Seq<Placement>, k: int, m2: int|
                        #[trigger] is_target(*perimeters, copies, gap, w, k, m2) && w[k].rotation == i && m2 == m
                            implies w[k] == pl by {
                        assert(w[k].translation.cell() == translation.cell());
                    }
                }
                if board.add_(ominos[i].as_slice(), translation) {
                    proof {
                        assert(!board@.contains((0, 0)));
                        assert(n_covered(board@) > n_covered(b0));
                    }
                    if covers_board(ominos, perimeters, board) {
                        proof {
                            lemma_board_success(copies, b0, pl, board@);
                        }
                        return true;
                    }
                    board.undo_(ominos[i].as_slice(), translation);
                    assert(board@ =~= b0);
                    proof {
                        assert forall|w: Seq<Placement>, k: int, m2: int|
                            #[trigger] is_target(*perimeters, copies, gap, w, k, m2) && completes(copies, b0, w)
                                implies w[k].rotation > i || (w[k].rotation == i && m2 >= m + 1) by {
                            if w[k].rotation == i && m2 == m {
                                lemma_remove(copies, b0, w, k);
                            }
                        }
                    }
                } else {
                    proof {
                        assert forall|w: Seq<Placement>, k: int, m2: int|
                            #[trigger] is_target(*perimeters, copies, gap, w, k, m2) && completes(copies, b0, w)
                                implies w[k].rotation > i || (w[k].rotation == i && m2 >= m + 1) by {
                            if w[k].rotation == i && m2 == m {
                                assert(copy_cells(copies, w[k]).disjoint(b0));
                                assert(b0.disjoint(moved));
                            }
                        }
                    }
                }
            } else {
                proof {
                    assert forall|w: Seq<Placement>, k: int, m2: int|
                        #[trigger] is_target(*perimeters, copies, gap, w, k, m2) && completes(copies, b0, w)
                            implies w[k].rotation > i || (w[k].rotation == i && m2 >= m + 1) by {
                        if w[k].rotation == i && m2 == m {
                            assert(perimeters[i as int]@[m as int].view_pair().1 == gap.flip_spec());
                        }
                    }
                }
            }
            m += 1;
        }
        i += 1;
    }
    proof {
        assert forall|w: Seq<Placement>| !completes(copies, b0, w) by {
            if completes(copies, b0, w) {
                assert(!b0.contains(dir_vec(gap)));
                assert(covered_by(copies, w, dir_vec(gap)));
                lemma_target_exists(*ominos, *perimeters, gap, w);
                let (k, m2) = choose|k: int, m2: int| #[trigger] is_target(*perimeters, copies, gap, w, k, m2);
            }
        }
    }
    false
}

/// The cell at index `i` lies on an extreme column and an extreme row of the shape's
/// bounding box.
pub open spec fn is_corner(s: Seq<FreePoint>, i: int) -> bool {
    &&& 0 <= i < s.len()
    &&& (forall|j: int| 0 <= j < s.len() ==> (#[trigger] s[j]).x >= s[i].x) || (forall|j: int|
        0 <= j < s.len() ==> (#[trigger] s[j]).x <= s[i].x)
    &&& (forall|j: int| 0 <= j < s.len() ==> (#[trigger] s[j]).y >= s[i].y) || (forall|j: int|
        0 <= j < s.len() ==> (#[trigger] s[j]).y <= s[i].y)
}

/// Some cell of the shape is a corner of its bounding box.
pub open spec fn has_corner(s: Seq<FreePoint>) -> bool {
    exists|i: int| is_corner(s, i)
}

/// Whether some cell of `omino` is a corner of its bounding box. Such a shape surrounds the
/// hole with four copies, one in each quadrant around it.
pub fn has_corner_arrangement_unsorted(omino: &[FreePoint]) -> (r: bool)
    requires
        omino@.len() > 0,
    ensures
        r == has_corner(omino@),
{
    let ghost s = omino@;
    let mut min_x = omino[0].x;
    let mut max_x = omino[0].x;
    let mut min_y = omino[0].y;
    let mut max_y = omino[0].y;
    let mut i: usize = 0;
    while i < omino.len()
        invariant
            s == omino@,
            i <= s.len(),
            s.len() > 0,
            exists|k: int| 0 <= k < s.len() && s[k].x == min_x,
            exists|k: int| 0 <= k < s.len() && s[k].x == max_x,
            exists|k: int| 0 <= k < s.len() && s[k].y == min_y,
            exists|k: int| 0 <= k < s.len() && s[k].y == max_y,
            forall|j: int| 0 <= j < i ==> min_x <= (#[trigger] s[j]).x <= max_x,
            forall|j: int| 0 <= j < i ==> min_y <= (#[trigger] s[j]).y <= max_y,
        decreases s.len() - i,
    {
        let pt = omino[i];
        if pt.x < min_x {
            min_x = pt.x;
        }
        if pt.x > max_x {
            max_x = pt.x;
        }
        if pt.y < min_y {
            min_y = pt.y;
        }
        if pt.y > max_y {
            max_y = pt.y;
        }
        i += 1;
    }
    let mut i: usize = 0;
    while i < omino.len()
        invariant
            s == omino@,
            i <= s.len(),
            exists|k: int| 0 <= k < s.len() && s[k].x == min_x,
            exists|k: int| 0 <= k < s.len() && s[k].x == max_x,
            exists|k: int| 0 <= k < s.len() && s[k].y == min_y,
            exists|k: int| 0 <= k < s.len() && s[k].y == max_y,
            forall|j: int| 0 <= j < s.len() ==> min_x <= (#[trigger] s[j]).x <= max_x,
            forall|j: int| 0 <= j < s.len() ==> min_y <= (#[trigger] s[j]).y <= max_y,
            forall|j: int| 0 <= j < i ==> !is_corner(s, j),
        decreases s.len() - i,
    {
        let pt = omino[i];
        if (pt.x == min_x || pt.x == max_x) && (pt.y == min_y || pt.y == max_y) {
            assert(is_corner(s, i as int));
            return true;
        }
        proof {
            let kx1 = choose|k: int| 0 <= k < s.len() && s[k].x == min_x;
            let kx2 = choose|k: int| 0 <= k < s.len() && s[k].x == max_x;
            let ky1 = choose|k: int| 0 <= k < s.len() && s[k].y == min_y;
            let ky2 = choose|k: int| 0 <= k < s.len() && s[k].y == max_y;
            assert(!is_corner(s, i as int)) by {
                if pt.x != min_x && pt.x != max_x {
                    assert(s[kx1].x < pt.x && s[kx2].x > pt.x);
                } else {
                    assert(s[ky1].y < pt.y && s[ky2].y > pt.y);
                }
            }
        }
        i += 1;
    }
    false
}

/// The quadrant around the hole that the copy at quarter-turn `k` of the corner
/// arrangement occupies.
pub open spec fn quadrant(k: int, c: Cell) -> bool {
    if k == 0 {
        c.0 >= 0 && c.1 >= 1
    } else if k == 1 {
        c.0 >= 1 && c.1 <= 0
    } else if k == 2 {
        c.0 <= 0 && c.1 <= -1
    } else {
        c.0 <= -1 && c.1 >= 0
    }
}

/// After turning by `r`, the corner cell `c` is the least in both coordinates.
pub open spec fn lowest_after(s: Seq<FreePoint>, c: Cell, r: int) -> bool {
    forall|j: int|
        0 <= j < s.len() ==> rot(r, (#[trigger] s[j]).cell()).0 >= rot(r, c).0 && rot(
            r,
            s[j].cell(),
        ).1 >= rot(r, c).1
}

/// The copy at quarter-turn `k` of the corner arrangement: turned `r + k` times and moved
/// so that the corner cell lands on the hole's neighbour in direction `k`.
pub open spec fn corner_placement(c: Cell, r: int, k: int) -> Placement {
    let rk = (r + k) % 4;
    let t = sub_cells(dir_vec(dir_of_num(k)), rot(rk, c));
    Placement { rotation: rk as u8, translation: FreePoint { x: t.0 as i8, y: t.1 as i8 } }
}

proof fn lemma_corner_copy(s: Seq<FreePoint>, c: Cell, r: int, k: int, x: Cell)
    requires
        0 <= r < 4,
        0 <= k < 4,
        in_span(c),
        lowest_after(s, c, r),
        copy_cells(rotations_of(s), corner_placement(c, r, k)).contains(x),
    ensures
        quadrant(k, x),
{
    let rk = (r + k) % 4;
    let pl = corner_placement(c, r, k);
    let t = sub_cells(dir_vec(dir_of_num(k)), rot(rk, c));
    assert(pl.translation.cell() == t);
    assert(pl.rotation as int == rk);
    let y = sub_cells(x, t);
    assert(rot_set(rk, cell_set(s)).contains(y));
    assert(cell_set(s).contains(rot(unrot(rk), y)));
    let j = choose|j: int| 0 <= j < s.len() && (#[trigger] s[j]).cell() == rot(unrot(rk), y);
    lemma_unrot(rk, y);
    assert(rot(rk, s[j].cell()) == y);
    assert(rot(r, s[j].cell()).0 >= rot(r, c).0 && rot(r, s[j].cell()).1 >= rot(r, c).1);
}

proof fn lemma_corner_covers(s: Seq<FreePoint>, i: int, r: int, k: int)
    requires
        0 <= r < 4,
        0 <= k < 4,
        0 <= i < s.len(),
        in_span(s[i].cell()),
    ensures
        copy_cells(rotations_of(s), corner_placement(s[i].cell(), r, k)).contains(dir_vec(dir_of_num(k))),
{
    let c = s[i].cell();
    let rk = (r + k) % 4;
    let pl = corner_placement(c, r, k);
    let t = sub_cells(dir_vec(dir_of_num(k)), rot(rk, c));
    assert(pl.translation.cell() == t);
    assert(pl.rotation as int == rk);
    lemma_unrot(rk, c);
    assert(cell_set(s).contains(c));
}

/// A shape with a corner of its bounding box surrounds the hole: four copies, each turned
/// a quarter further than the last, fill the four quadrants around it.
pub proof fn corner_shapes_surround(s: Seq<FreePoint>)
    requires
        all_in_span(s),
        has_corner(s),
    ensures
        exists|w: Seq<Placement>| surrounds(rotations_of(s), w),
{
    let i = choose|i: int| is_corner(s, i);
    let c = s[i].cell();
    assert(in_span(c));
    let xmin = forall|j: int| 0 <= j < s.len() ==> (#[trigger] s[j]).x >= s[i].x;
    let ymin = forall|j: int| 0 <= j < s.len() ==> (#[trigger] s[j]).y >= s[i].y;
    let r: int = if xmin && ymin {
        0
    } else if !xmin && ymin {
        1
    } else if !xmin && !ymin {
        2
    } else {
        3
    };
    assert(lowest_after(s, c, r));
    let copies = rotations_of(s);
    let w = seq![
        corner_placement(c, r, 0),
        corner_placement(c, r, 1),
        corner_placement(c, r, 2),
        corner_placement(c, r, 3),
    ];
    assert forall|k: int| 0 <= k < 4 implies !(#[trigger] copy_cells(copies, w[k])).contains((0, 0)) && w[k].rotation < 4 && touches_hole(copy_cells(copies, w[k])) by {
        if copy_cells(copies, w[k]).contains((0, 0)) {
            lemma_corner_copy(s, c, r, k, (0, 0));
        }
        lemma_corner_covers(s, i, r, k);
    }
    assert forall|a: int, b: int|
        0 <= a < w.len() && 0 <= b < w.len() && a != b implies (#[trigger] copy_cells(
            copies,
            w[a],
        )).disjoint(#[trigger] copy_cells(copies, w[b])) by {
        assert forall|x: Cell| copy_cells(copies, w[a]).contains(x) implies !copy_cells(copies, w[b]).contains(x) by {
            lemma_corner_copy(s, c, r, a, x);
            if copy_cells(copies, w[b]).contains(x) {
                lemma_corner_copy(s, c, r, b, x);
            }
        }
    }
    assert forall|d: Dir| covered_by(copies, w, #[trigger] dir_vec(d)) by {
        let k = dir_num(d);
        lemma_corner_covers(s, i, r, k);
        assert(dir_of_num(k) == d);
        assert(copy_cells(copies, w[k]).contains(dir_vec(d)));
    }
    assert(surrounds(copies, w));
}

/// Whether rotated and translated copies of `omino` can surround the hole at the origin:
/// a shape with a bounding-box corner does at once; any other is searched on a board.
pub fn has_arrangement_board(omino: &Vec<FreePoint>) -> (r: bool)
    requires
        omino@.len() > 0,
        all_in_span(omino@),
        omino@.no_duplicates(),
    ensures
        r == can_surround(cell_set(omino@)),
        has_corner(omino@) ==> r,
{
    if has_corner_arrangement_unsorted(omino.as_slice()) {
        proof {
            corner_shapes_surround(omino@);
        }
        return true;
    }
    let (rotated_ominos, perimeters) = rotations_and_perimeters(omino);
    let mut board = Board::empty();
    let found = covers_board(&rotated_ominos, &perimeters, &mut board);
    proof {
        let copies = copies_of(rotated_ominos);
        if found {
            let w = choose|w: Seq<Placement>| completes(copies, Set::<Cell>::empty(), w);
            assert(surrounds(rotations_of(omino@), w)) by {
                assert forall|d: Dir| covered_by(rotations_of(omino@), w, #[trigger] dir_vec(d)) by {
                    assert(!Set::<Cell>::empty().contains(dir_vec(d)));
                }
            }
        }
        if can_surround(cell_set(omino@)) {
            let w = choose|w: Seq<Placement>| surrounds(rotations_of_set(cell_set(omino@)), w);
            assert(completes(copies, Set::<Cell>::empty(), w));
        }
    }
    found
}

} // verus!
