use vstd::prelude::*;

use crate::grid::{adjacent, Cell, Grid, Point};

verus! {

/// Hidden cells in one row of a mask.
pub open spec fn hidden_in(row: Seq<bool>) -> nat
    decreases row.len(),
{
    if row.len() == 0 {
        0
    } else {
        hidden_in(row.drop_last()) + if row.last() {
            0nat
        } else {
            1nat
        }
    }
}

/// Hidden cells in the rows of a mask.
pub open spec fn hidden_rows(rows: Seq<Vec<bool>>) -> nat
    decreases rows.len(),
{
    if rows.len() == 0 {
        0
    } else {
        hidden_rows(rows.drop_last()) + hidden_in(rows.last()@)
    }
}

proof fn lemma_hidden_in_update(row: Seq<bool>, c: int)
    requires
        0 <= c < row.len(),
        !row[c],
    ensures
        hidden_in(row.update(c, true)) + 1 == hidden_in(row),
    decreases row.len(),
{
    let u = row.update(c, true);
    if c == row.len() - 1 {
        assert(u.drop_last() == row.drop_last());
    } else {
        assert(u.drop_last() == row.drop_last().update(c, true));
        lemma_hidden_in_update(row.drop_last(), c);
    }
}

proof fn lemma_hidden_all(row: Seq<bool>)
    requires
        forall|j: int| 0 <= j < row.len() ==> !#[trigger] row[j],
    ensures
        hidden_in(row) == row.len(),
    decreases row.len(),
{
    if row.len() > 0 {
        lemma_hidden_all(row.drop_last());
    }
}

proof fn lemma_hidden_rows_update(rows: Seq<Vec<bool>>, r: int, v: Vec<bool>)
    requires
        0 <= r < rows.len(),
        hidden_in(v@) + 1 == hidden_in(rows[r]@),
    ensures
        hidden_rows(rows.update(r, v)) + 1 == hidden_rows(rows),
    decreases rows.len(),
{
    let u = rows.update(r, v);
    if r == rows.len() - 1 {
        assert(u.drop_last() == rows.drop_last());
    } else {
        assert(u.drop_last() == rows.drop_last().update(r, v));
        lemma_hidden_rows_update(rows.drop_last(), r, v);
    }
}

/// Every cell of `s` outside `base` that has no mine around it has all its
/// neighbours on the board in `s` too, but those listed in `pending`.
pub open spec fn spreads_except(g: &Grid, s: Set<(int, int)>, base: Set<(int, int)>, pending: Seq<(int, int)>) -> bool {
    forall|a: (int, int), b: (int, int)|
        #![trigger s.contains(a), adjacent(a, b)]
        s.contains(a) && !base.contains(a) && g.is_empty(a) && !pending.contains(a) && adjacent(a, b)
            && g.in_bounds(b) ==> s.contains(b)
}

/// Every cell of `s` outside `base` that has no mine around it has all its
/// neighbours on the board in `s` too.
pub open spec fn spreads(g: &Grid, s: Set<(int, int)>, base: Set<(int, int)>) -> bool {
    spreads_except(g, s, base, Seq::empty())
}

/// Every uncovered cell with no mine around it has all its neighbours uncovered.
pub open spec fn closed(g: &Grid, s: Set<(int, int)>) -> bool {
    spreads(g, s, Set::empty())
}

/// `after` is what uncovering `start` makes of `before`: the least set that
/// holds `before` and `start` and in which every cell outside `before` with
/// no mine around it has all its neighbours.
pub open spec fn uncovered_from(g: &Grid, before: Set<(int, int)>, start: (int, int), after: Set<(int, int)>) -> bool {
    &&& before.subset_of(after)
    &&& after.contains(start)
    &&& spreads(g, after, before)
    &&& forall|t: Set<(int, int)>|
        #[trigger] spreads(g, t, before) && before.subset_of(t) && t.contains(start) ==> after.subset_of(t)
}

/// The positions of a list of points.
pub open spec fn positions(s: Seq<Point>) -> Seq<(int, int)> {
    s.map_values(|p: Point| p.pos())
}

/// The set of cells the player has uncovered on a board of side `size`.
///
/// `mask` answers membership at once; `order` lists each uncovered cell once,
/// in the order it was uncovered, and so gives the size of the set.
pub struct Visible {
    pub size: usize,
    pub mask: Vec<Vec<bool>>,
    pub order: Vec<Point>,
}

impl View for Visible {
    type V = Set<(int, int)>;

    open spec fn view(&self) -> Set<(int, int)> {
        Set::new(|p: (int, int)| self.shown(p))
    }
}

impl Visible {
    pub open spec fn shown(&self, p: (int, int)) -> bool {
        &&& 0 <= p.0 < self.size
        &&& 0 <= p.1 < self.size
        &&& self.mask@[p.0]@[p.1]
    }

    /// How many cells are still covered.
    pub open spec fn hidden(&self) -> nat {
        hidden_rows(self.mask@)
    }

    pub open spec fn wf(&self) -> bool {
        &&& self.mask@.len() == self.size
        &&& forall|r: int| 0 <= r < self.size ==> (#[trigger] self.mask@[r])@.len() == self.size
        &&& positions(self.order@).no_duplicates()
        &&& forall|i: int| 0 <= i < self.order@.len() ==> self.shown(#[trigger] self.order@[i].pos())
        &&& forall|p: (int, int)| #[trigger] self.shown(p) ==> positions(self.order@).contains(p)
        &&& self.hidden() + self.order@.len() == self.size * self.size
    }

    /// No cell of a board of side `size` uncovered.
    pub fn new(size: usize) -> (v: Visible)
        ensures
            v.wf(),
            v.size == size,
            v@ == Set::<(int, int)>::empty(),
    {
        let mut mask: Vec<Vec<bool>> = Vec::new();
        let mut r: usize = 0;
        while r < size
            invariant
                r <= size,
                mask@.len() == r,
                hidden_rows(mask@) == r * size,
                forall|i: int| 0 <= i < r ==> (#[trigger] mask@[i])@.len() == size,
                forall|i: int, j: int| 0 <= i < r && 0 <= j < size ==> !(#[trigger] mask@[i]@[j]),
            decreases size - r,
        {
            let row: Vec<bool> = vec![false; size];
            proof {
                lemma_hidden_all(row@);
                assert(mask@.push(row).drop_last() == mask@);
                assert((r + 1) * size == r * size + size) by (nonlinear_arith);
            }
            mask.push(row);
            r = r + 1;
        }
        let v = Visible { size, mask, order: Vec::new() };
        assert(v@ =~= Set::<(int, int)>::empty());
        v
    }

    /// Whether `p` is uncovered; a point off the board never is.
    pub fn contains(&self, p: Point) -> (b: bool)
        requires
            self.wf(),
        ensures
            b == self@.contains(p.pos()),
    {
        if p.row < self.size && p.column < self.size {
            self.mask[p.row][p.column]
        } else {
            false
        }
    }

    /// The number of uncovered cells.
    pub fn len(&self) -> (n: usize)
        requires
            self.wf(),
        ensures
            n == self@.len(),
            self@.finite(),
    {
        proof {
            self.lemma_view_is_positions();
        }
        self.order.len()
    }

    /// The set is exactly the cells that `order` lists.
    pub proof fn lemma_view_is_positions(&self)
        requires
            self.wf(),
        ensures
            self@ == positions(self.order@).to_set(),
            self@.finite(),
            self@.len() == self.order@.len(),
    {
        let ps = positions(self.order@);
        assert forall|p: (int, int)| ps.contains(p) implies self.shown(p) by {
            let i = choose|i: int| 0 <= i < ps.len() && ps[i] == p;
            assert(self.shown(self.order@[i].pos()));
        }
        assert(self@ =~= ps.to_set());
        ps.unique_seq_to_set();
    }

    /// The cells uncovered so far, each once, in the order they were uncovered.
    pub fn cells(&self) -> (s: &Vec<Point>)
        requires
            self.wf(),
        ensures
            positions(s@).to_set() == self@,
            s@.len() == self@.len(),
    {
        proof {
            self.lemma_view_is_positions();
        }
        &self.order
    }

    /// Uncovers `p`, which lies on the board and is still covered.
    pub fn insert(&mut self, p: Point)
        requires
            old(self).wf(),
            p.row < old(self).size,
            p.column < old(self).size,
            !old(self)@.contains(p.pos()),
        ensures
            final(self).wf(),
            final(self).size == old(self).size,
            final(self)@ == old(self)@.insert(p.pos()),
            final(self).hidden() + 1 == old(self).hidden(),
    {
        let ghost before = *self;
        assert(!before.shown(p.pos()));
        let mut row: Vec<bool> = Vec::new();
        std::mem::swap(&mut row, &mut self.mask[p.row]);
        row.set(p.column, true);
        std::mem::swap(&mut row, &mut self.mask[p.row]);
        self.order.push(p);
        proof {
            lemma_hidden_in_update(before.mask@[p.row as int]@, p.column as int);
            assert(self.mask@ == before.mask@.update(p.row as int, self.mask@[p.row as int]));
            lemma_hidden_rows_update(before.mask@, p.row as int, self.mask@[p.row as int]);
            let ps = positions(before.order@);
            assert(positions(self.order@) == ps.push(p.pos()));
            assert(!ps.contains(p.pos())) by {
                if ps.contains(p.pos()) {
                    let i = choose|i: int| 0 <= i < ps.len() && ps[i] == p.pos();
                    assert(before.shown(before.order@[i].pos()));
                }
            }
            assert forall|i: int| 0 <= i < self.order@.len() implies self.shown(
                #[trigger] self.order@[i].pos(),
            ) by {
                if i < before.order@.len() {
                    assert(before.shown(before.order@[i].pos()));
                }
            }
            assert forall|q: (int, int)| #[trigger] self.shown(q) implies positions(
                self.order@,
            ).contains(q) by {
                if q != p.pos() {
                    assert(before.shown(q));
                    let i = choose|i: int| 0 <= i < ps.len() && ps[i] == q;
                    assert(positions(self.order@)[i] == q);
                } else {
                    assert(positions(self.order@)[ps.len() as int] == q);
                }
            }
            assert(self@ =~= before@.insert(p.pos()));
        }
    }
}


/// `after` is `before` with cells appended that were covered in `vb`, are
/// uncovered in `va` and have no mine around them; and every such cell of `va`
/// is listed in `after`.
spec fn grows(g: &Grid, before: Seq<Point>, after: Seq<Point>, vb: Set<(int, int)>, va: Set<(int, int)>) -> bool {
    &&& before.len() <= after.len()
    &&& after.subrange(0, before.len() as int) == before
    &&& forall|i: int|
        before.len() <= i < after.len() ==> !vb.contains(#[trigger] after[i].pos()) && va.contains(after[i].pos())
            && g.is_empty(after[i].pos())
    &&& forall|b: (int, int)|
        va.contains(b) && !vb.contains(b) && g.is_empty(b) ==> #[trigger] positions(after).contains(b)
}

proof fn lemma_grows_refl(g: &Grid, s: Seq<Point>, v: Set<(int, int)>)
    ensures
        grows(g, s, s, v, v),
{
    assert(s.subrange(0, s.len() as int) == s);
}

proof fn lemma_grows_trans(
    g: &Grid,
    s1: Seq<Point>,
    s2: Seq<Point>,
    s3: Seq<Point>,
    v1: Set<(int, int)>,
    v2: Set<(int, int)>,
    v3: Set<(int, int)>,
)
    requires
        grows(g, s1, s2, v1, v2),
        grows(g, s2, s3, v2, v3),
        v1.subset_of(v2),
        v2.subset_of(v3),
    ensures
        grows(g, s1, s3, v1, v3),
{
    assert(s3.subrange(0, s1.len() as int) == s2.subrange(0, s1.len() as int));
    assert forall|i: int| s1.len() <= i < s3.len() implies !v1.contains(#[trigger] s3[i].pos()) && v3.contains(
        s3[i].pos(),
    ) && g.is_empty(s3[i].pos()) by {
        if i < s2.len() {
            assert(s3[i] == s2[i]);
        }
    }
    assert forall|b: (int, int)| v3.contains(b) && !v1.contains(b) && g.is_empty(b) implies #[trigger] positions(
        s3,
    ).contains(b) by {
        if v2.contains(b) {
            assert(positions(s2).contains(b));
            let i = choose|i: int| 0 <= i < positions(s2).len() && positions(s2)[i] == b;
            assert(s3.subrange(0, s2.len() as int)[i] == s2[i]);
            assert(positions(s3)[i] == b);
        }
    }
}

/// The neighbour of `q` at offset `(dr - 1, dc - 1)`.
pub open spec fn offset(q: Point, dr: int, dc: int) -> (int, int) {
    (q.row + dr - 1, q.column + dc - 1)
}

/// Uncovers the neighbour of `q` at offset `(dr - 1, dc - 1)` if it lies on
/// the board and is covered, and queues it if it has no mine around it.
fn visit(g: &Grid, q: Point, dr: usize, dc: usize, visible: &mut Visible, stack: &mut Vec<Point>)
    requires
        g.wf(),
        old(visible).wf(),
        old(visible).size == g.size,
        g.in_bounds(q.pos()),
        dr <= 2,
        dc <= 2,
    ensures
        final(visible).wf(),
        final(visible).size == g.size,
        forall|b: (int, int)|
            #[trigger] final(visible)@.contains(b) <==> old(visible)@.contains(b) || (b == offset(q, dr as int, dc as int)
                && g.in_bounds(b)),
        grows(g, old(stack)@, final(stack)@, old(visible)@, final(visible)@),
        (*final(visible) == *old(visible) && final(stack)@ == old(stack)@) || final(visible).hidden() < old(
            visible,
        ).hidden(),
{
    let ghost v0 = visible@;
    let ghost s0 = stack@;
    proof {
        lemma_grows_refl(g, s0, v0);
    }
    if (dr == 0 && q.row == 0) || (dc == 0 && q.column == 0) {
        return;
    }
    let row: usize = if dr == 0 { q.row - 1 } else { q.row + (dr - 1) };
    let column: usize = if dc == 0 { q.column - 1 } else { q.column + (dc - 1) };
    if row >= g.size || column >= g.size {
        return;
    }
    let b = Point { row, column };
    if visible.contains(b) {
        return;
    }
    visible.insert(b);
    if g.cell(b) == Cell::Count(0) {
        stack.push(b);
        proof {
            assert(stack@.subrange(0, s0.len() as int) == s0);
            assert(positions(stack@)[s0.len() as int] == b.pos());
        }
    } else {
        proof {
            assert(stack@.subrange(0, s0.len() as int) == s0);
        }
    }
}


/// The place of `b` among the nine cells of the square centred on `q`,
/// counted row by row.
spec fn rank(q: Point, b: (int, int)) -> int {
    (b.0 - q.row + 1) * 3 + (b.1 - q.column + 1)
}

/// Uncovers every covered neighbour of the uncovered cell `q`, queueing those
/// with no mine around them.
fn expand(g: &Grid, q: Point, visible: &mut Visible, stack: &mut Vec<Point>)
    requires
        g.wf(),
        old(visible).wf(),
        old(visible).size == g.size,
        g.in_bounds(q.pos()),
        old(visible)@.contains(q.pos()),
    ensures
        final(visible).wf(),
        final(visible).size == g.size,
        forall|b: (int, int)|
            #[trigger] final(visible)@.contains(b) <==> old(visible)@.contains(b) || (adjacent(q.pos(), b)
                && g.in_bounds(b)),
        grows(g, old(stack)@, final(stack)@, old(visible)@, final(visible)@),
        (*final(visible) == *old(visible) && final(stack)@ == old(stack)@) || final(visible).hidden() < old(
            visible,
        ).hidden(),
{
    let ghost vis0 = *visible;
    let ghost v0 = visible@;
    let ghost s0 = stack@;
    proof {
        lemma_grows_refl(g, s0, v0);
    }
    let mut k: usize = 0;
    while k < 9
        invariant
            g.wf(),
            visible.wf(),
            visible.size == g.size,
            g.in_bounds(q.pos()),
            v0 == vis0@,
            v0.contains(q.pos()),
            k <= 9,
            forall|b: (int, int)|
                #[trigger] visible@.contains(b) <==> v0.contains(b) || (g.in_bounds(b) && adjacent(q.pos(), b)
                    && rank(q, b) < k),
            grows(g, s0, stack@, v0, visible@),
            (*visible == vis0 && stack@ == s0) || visible.hidden() < vis0.hidden(),
        decreases 9 - k,
    {
        let ghost vb = visible@;
        let ghost sb = stack@;
        let dr = k / 3;
        let dc = k % 3;
        visit(g, q, dr, dc, visible, stack);
        proof {
            assert forall|b: (int, int)| #[trigger] visible@.contains(b) <==> v0.contains(b) || (g.in_bounds(b)
                && adjacent(q.pos(), b) && rank(q, b) < k + 1) by {
                if g.in_bounds(b) && adjacent(q.pos(), b) && rank(q, b) == k {
                    assert(b == offset(q, dr as int, dc as int));
                }
                if b == offset(q, dr as int, dc as int) {
                    assert(rank(q, b) == k);
                }
            }
            assert(v0.subset_of(vb));
            assert(vb.subset_of(visible@));
            lemma_grows_trans(g, s0, sb, stack@, v0, vb, visible@);
        }
        k = k + 1;
    }
}

/// Uncovers `start` and, when it has no mine around it, cascades: every
/// newly uncovered cell with no mine around it has its neighbours uncovered
/// in turn. Cells uncovered before the call are not expanded again.
///
/// The result is the least set that holds the cells uncovered before, holds
/// `start`, and in which every newly uncovered cell with no mine around it
/// has all its neighbours; an uncovered `start` leaves the set as it was.
pub fn search_map(g: &Grid, start: Point, visible: &mut Visible)
    requires
        g.wf(),
        old(visible).wf(),
        old(visible).size == g.size,
        g.in_bounds(start.pos()),
        !g.is_mine(start.pos()),
    ensures
        final(visible).wf(),
        final(visible).size == g.size,
        uncovered_from(g, old(visible)@, start.pos(), final(visible)@),
        forall|p: (int, int)|
            #[trigger] final(visible)@.contains(p) && !old(visible)@.contains(p) ==> !g.is_mine(p),
        old(visible)@.contains(start.pos()) ==> final(visible)@ == old(visible)@,
{
    if visible.contains(start) {
        return;
    }
    let ghost base = visible@;
    visible.insert(start);
    if g.cell(start) != Cell::Count(0) {
        return;
    }
    let mut stack: Vec<Point> = Vec::new();
    stack.push(start);
    proof {
        assert(positions(stack@)[0] == start.pos());
    }
    while stack.len() > 0
        invariant
            g.wf(),
            visible.wf(),
            visible.size == g.size,
            g.in_bounds(start.pos()),
            base.subset_of(visible@),
            visible@.contains(start.pos()),
            !base.contains(start.pos()),
            forall|i: int|
                0 <= i < stack@.len() ==> visible@.contains(#[trigger] stack@[i].pos()) && !base.contains(
                    stack@[i].pos(),
                ) && g.is_empty(stack@[i].pos()),
            spreads_except(g, visible@, base, positions(stack@)),
            forall|p: (int, int)| #[trigger] visible@.contains(p) && !base.contains(p) ==> !g.is_mine(p),
            forall|t: Set<(int, int)>|
                #[trigger] spreads(g, t, base) && base.subset_of(t) && t.contains(start.pos()) ==> visible@.subset_of(
                    t,
                ),
        decreases visible.hidden(), stack.len(),
    {
        let ghost s_full = stack@;
        let q = stack.pop().unwrap();
        let ghost v1 = visible@;
        let ghost s1 = stack@;
        proof {
            assert(s_full == s1.push(q));
            assert(positions(s_full) == positions(s1).push(q.pos()));
            assert(visible@.contains(s_full[s1.len() as int].pos()));
        }
        expand(g, q, visible, &mut stack);
        proof {
            let v2 = visible@;
            let s2 = stack@;
            assert forall|i: int| 0 <= i < s2.len() implies v2.contains(#[trigger] s2[i].pos()) && !base.contains(
                s2[i].pos(),
            ) && g.is_empty(s2[i].pos()) by {
                if i < s1.len() {
                    assert(s2.subrange(0, s1.len() as int)[i] == s1[i]);
                    assert(s1[i] == s_full[i]);
                }
            }
            assert forall|a: (int, int), b: (int, int)|
                #![trigger v2.contains(a), adjacent(a, b)]
                v2.contains(a) && !base.contains(a) && g.is_empty(a) && !positions(s2).contains(a) && adjacent(
                    a,
                    b,
                ) && g.in_bounds(b) implies v2.contains(b) by {
                if a == q.pos() {
                } else if v1.contains(a) {
                    if positions(s_full).contains(a) {
                        let i = choose|i: int| 0 <= i < positions(s_full).len() && positions(s_full)[i] == a;
                        assert(i < s1.len());
                        assert(s2.subrange(0, s1.len() as int)[i] == s1[i]);
                        assert(positions(s2)[i] == a);
                    }
                    assert(v1.contains(b));
                }
            }
            assert forall|p: (int, int)| #[trigger] v2.contains(p) && !base.contains(p) implies !g.is_mine(p) by {
                if !v1.contains(p) {
                    g.lemma_empty_neighbours_safe(q.pos(), p);
                }
            }
            assert forall|t: Set<(int, int)>|
                #[trigger] spreads(g, t, base) && base.subset_of(t) && t.contains(start.pos()) implies v2.subset_of(
                t,
            ) by {
                assert(t.contains(q.pos()));
                assert forall|b: (int, int)| v2.contains(b) implies t.contains(b) by {
                    if !v1.contains(b) {
                        assert(adjacent(q.pos(), b));
                    }
                }
            }
        }
    }
    proof {
        assert(positions(stack@) =~= Seq::<(int, int)>::empty());
    }
}

/// Uncovering a cell keeps a closed set closed.
pub proof fn lemma_uncover_keeps_closed(g: &Grid, before: Set<(int, int)>, start: (int, int), after: Set<(int, int)>)
    requires
        closed(g, before),
        uncovered_from(g, before, start, after),
    ensures
        closed(g, after),
{
    assert forall|a: (int, int), b: (int, int)|
        #![trigger after.contains(a), adjacent(a, b)]
        after.contains(a) && !Set::<(int, int)>::empty().contains(a) && g.is_empty(a)
            && !Seq::<(int, int)>::empty().contains(a) && adjacent(a, b) && g.in_bounds(b) implies after.contains(b) by {
        if before.contains(a) {
            assert(before.contains(b));
        }
    }
}

/// Uncovering a cell that is already uncovered changes nothing.
pub proof fn lemma_uncover_again(g: &Grid, before: Set<(int, int)>, start: (int, int), after: Set<(int, int)>)
    requires
        uncovered_from(g, before, start, after),
        before.contains(start),
    ensures
        after == before,
{
    assert(spreads(g, before, before));
    assert(after =~= before);
}

/// In a closed set, a chain of touching cells that starts at an uncovered
/// cell and passes only through cells with no mine around them is uncovered
/// all along, its last cell included.
pub proof fn lemma_chain_in_closed(g: &Grid, s: Set<(int, int)>, path: Seq<(int, int)>)
    requires
        closed(g, s),
        path.len() > 0,
        s.contains(path[0]),
        forall|i: int| 0 <= i < path.len() ==> g.in_bounds(#[trigger] path[i]),
        forall|i: int| 0 <= i < path.len() - 1 ==> g.is_empty(#[trigger] path[i]) && adjacent(path[i], path[i + 1]),
    ensures
        forall|i: int| 0 <= i < path.len() ==> s.contains(#[trigger] path[i]),
    decreases path.len(),
{
    if path.len() > 1 {
        let front = path.drop_last();
        assert forall|i: int| 0 <= i < front.len() - 1 implies g.is_empty(#[trigger] front[i]) && adjacent(
            front[i],
            front[i + 1],
        ) by {
            assert(front[i] == path[i] && front[i + 1] == path[i + 1]);
        }
        assert forall|i: int| 0 <= i < front.len() implies g.in_bounds(#[trigger] front[i]) by {
            assert(front[i] == path[i]);
        }
        lemma_chain_in_closed(g, s, front);
        let k = path.len() - 2;
        assert(front[k] == path[k]);
        assert(s.contains(path[k]));
        assert(g.is_empty(path[k]) && adjacent(path[k], path[k + 1]));
        assert forall|i: int| 0 <= i < path.len() implies s.contains(#[trigger] path[i]) by {
            if i < front.len() {
                assert(front[i] == path[i]);
            }
        }
    }
}

/// Cascade completeness: when the cells uncovered before form a closed set,
/// uncovering `start` uncovers every chain of touching cells that leaves
/// `start` through cells with no mine around them, together with the cell
/// that ends the chain.
pub proof fn lemma_uncover_reaches_chains(
    g: &Grid,
    before: Set<(int, int)>,
    start: (int, int),
    after: Set<(int, int)>,
    path: Seq<(int, int)>,
)
    requires
        closed(g, before),
        uncovered_from(g, before, start, after),
        path.len() > 0,
        path[0] == start,
        forall|i: int| 0 <= i < path.len() ==> g.in_bounds(#[trigger] path[i]),
        forall|i: int| 0 <= i < path.len() - 1 ==> g.is_empty(#[trigger] path[i]) && adjacent(path[i], path[i + 1]),
    ensures
        closed(g, after),
        forall|i: int| 0 <= i < path.len() ==> after.contains(#[trigger] path[i]),
{
    lemma_uncover_keeps_closed(g, before, start, after);
    lemma_chain_in_closed(g, after, path);
}

} // verus!
