//! The minefield: cells with an immutable kind and a mutable state, the
//! flood-fill opening rule, flagging, full reveal, win detection, the random
//! field generator, and the per-tick game state machine.

use vstd::prelude::*;
use crate::collections::{Vec2D, flat_idx, lemma_flat_idx_bounds};
use crate::geom::{Point2D, Size2D, neighbours_of, pt, lemma_neighbours_adjacent};

verus! {

/// What a cell is: plain water or a mine. The kind never changes after
/// generation.
#[derive(Debug, Copy, Clone, PartialEq, Eq, Structural)]
pub enum CellType {
    Water,
    Mine,
}

impl Default for CellType {
    /// Cells are water unless the generator placed a mine.
    fn default() -> (r: Self)
        ensures
            r == CellType::Water,
    {
        CellType::Water
    }
}

/// The player-visible lifecycle of a cell. `Closed` can become `Flagged` or
/// `Opened`; `Flagged` can only go back to `Closed`; `Opened` is terminal.
#[derive(Debug, Copy, Clone, PartialEq, Eq, Structural)]
pub enum CellState {
    Closed,
    Flagged,
    Opened,
}

impl Default for CellState {
    /// Cells start closed.
    fn default() -> (r: Self)
        ensures
            r == CellState::Closed,
    {
        CellState::Closed
    }
}

/// The state an open attempt leaves a cell state in: only `Closed` opens;
/// `Flagged` and `Opened` are unchanged.
pub open spec fn state_after_open(s: CellState) -> CellState {
    if s == CellState::Closed {
        CellState::Opened
    } else {
        s
    }
}

/// The state a flag toggle leaves a cell state in: `Closed` and `Flagged`
/// swap; `Opened` is unchanged.
pub open spec fn state_after_toggle(s: CellState) -> CellState {
    match s {
        CellState::Closed => CellState::Flagged,
        CellState::Flagged => CellState::Closed,
        CellState::Opened => CellState::Opened,
    }
}

impl CellState {
    /// The state after an open attempt.
    pub fn open(&self) -> (r: CellState)
        ensures
            r == state_after_open(*self),
    {
        match self {
            CellState::Closed => CellState::Opened,
            state => *state,
        }
    }

    /// The state after a flag toggle.
    pub fn toggle_flag(&self) -> (r: CellState)
        ensures
            r == state_after_toggle(*self),
    {
        match self {
            CellState::Closed => CellState::Flagged,
            CellState::Flagged => CellState::Closed,
            CellState::Opened => CellState::Opened,
        }
    }
}

/// One board cell: its kind and its current state.
#[derive(Debug, Copy, Clone, PartialEq, Eq, Structural)]
pub struct Cell {
    pub cell_type: CellType,
    pub state: CellState,
}

impl Default for Cell {
    /// A freshly built cell: closed water.
    fn default() -> (r: Self)
        ensures
            r == (Cell { cell_type: CellType::Water, state: CellState::Closed }),
    {
        Cell { cell_type: CellType::Water, state: CellState::Closed }
    }
}

impl Cell {
    /// Attempt to open the cell; flagged and opened cells are unchanged.
    pub fn open(&mut self)
        ensures
            final(self).cell_type == old(self).cell_type,
            final(self).state == state_after_open(old(self).state),
    {
        self.state = self.state.open();
    }

    /// Whether the cell has been opened.
    pub fn is_open(&self) -> (r: bool)
        ensures
            r == (self.state == CellState::Opened),
    {
        matches!(self.state, CellState::Opened)
    }

    /// Toggle the cell's flag; opened cells are unchanged.
    pub fn flag(&mut self)
        ensures
            final(self).cell_type == old(self).cell_type,
            final(self).state == state_after_toggle(old(self).state),
    {
        self.state = self.state.toggle_flag();
    }
}

/// The cell `c` turns into when it opens: same kind, state `Opened`.
pub open spec fn opened_cell(c: Cell) -> Cell {
    Cell { cell_type: c.cell_type, state: CellState::Opened }
}

/// The one-step cell order of a round: a cell either stays as it is or goes
/// from `Closed` to `Opened` with its kind kept. Flag toggles are excluded;
/// this is the order the opening operations preserve.
pub open spec fn cell_le(a: Cell, b: Cell) -> bool {
    b == a || (a.state == CellState::Closed && b == opened_cell(a))
}

/// One if the condition holds, zero otherwise; for counting cells.
pub open spec fn b2n(b: bool) -> nat {
    if b {
        1
    } else {
        0
    }
}

/// The number of mine cells in a storage sequence.
pub open spec fn count_mines(s: Seq<Cell>) -> nat
    decreases s.len(),
{
    if s.len() == 0 {
        0
    } else {
        count_mines(s.drop_last()) + b2n(s.last().cell_type == CellType::Mine)
    }
}

/// The number of water cells in a storage sequence.
pub open spec fn count_water(s: Seq<Cell>) -> nat
    decreases s.len(),
{
    if s.len() == 0 {
        0
    } else {
        count_water(s.drop_last()) + b2n(s.last().cell_type == CellType::Water)
    }
}

/// The number of cells not yet opened; the measure that shrinks with every
/// fresh open and bounds the flood-fill recursion.
pub open spec fn count_unopened(s: Seq<Cell>) -> nat
    decreases s.len(),
{
    if s.len() == 0 {
        0
    } else {
        count_unopened(s.drop_last()) + b2n(s.last().state != CellState::Opened)
    }
}

proof fn lemma_count_mines_update(s: Seq<Cell>, i: int, c: Cell)
    requires
        0 <= i < s.len(),
    ensures
        count_mines(s.update(i, c)) == count_mines(s) - b2n(s[i].cell_type == CellType::Mine)
            + b2n(c.cell_type == CellType::Mine),
    decreases s.len(),
{
    if i == s.len() - 1 {
        assert(s.update(i, c).drop_last() =~= s.drop_last());
    } else {
        assert(s.update(i, c).drop_last() =~= s.drop_last().update(i, c));
        lemma_count_mines_update(s.drop_last(), i, c);
    }
}

proof fn lemma_count_unopened_update(s: Seq<Cell>, i: int, c: Cell)
    requires
        0 <= i < s.len(),
    ensures
        count_unopened(s.update(i, c)) == count_unopened(s) - b2n(s[i].state != CellState::Opened)
            + b2n(c.state != CellState::Opened),
    decreases s.len(),
{
    if i == s.len() - 1 {
        assert(s.update(i, c).drop_last() =~= s.drop_last());
    } else {
        assert(s.update(i, c).drop_last() =~= s.drop_last().update(i, c));
        lemma_count_unopened_update(s.drop_last(), i, c);
    }
}

proof fn lemma_count_unopened_le(a: Seq<Cell>, b: Seq<Cell>)
    requires
        a.len() == b.len(),
        forall|i: int| 0 <= i < a.len() ==> cell_le(a[i], #[trigger] b[i]),
    ensures
        count_unopened(b) <= count_unopened(a),
    decreases a.len(),
{
    if a.len() > 0 {
        assert(forall|i: int| 0 <= i < a.len() - 1
            ==> cell_le(a.drop_last()[i], #[trigger] b.drop_last()[i]));
        lemma_count_unopened_le(a.drop_last(), b.drop_last());
        assert(cell_le(a.last(), b.last()));
    }
}

proof fn lemma_count_water_take_step(s: Seq<Cell>, i: int)
    requires
        0 <= i < s.len(),
    ensures
        count_water(s.take(i + 1)) == count_water(s.take(i)) + b2n(
            s[i].cell_type == CellType::Water,
        ),
{
    assert(s.take(i + 1).drop_last() =~= s.take(i));
    assert(s.take(i + 1).last() == s[i]);
}

/// In a sequence of cells, mines and water partition the whole.
proof fn lemma_count_kinds_total(s: Seq<Cell>)
    ensures
        count_mines(s) + count_water(s) == s.len(),
    decreases s.len(),
{
    if s.len() > 0 {
        lemma_count_kinds_total(s.drop_last());
    }
}

/// A minefield: a grid of cells. The grid is owned exclusively; cells are
/// only ever changed through the operations below, which keep every kind
/// fixed and move states only along the cell lifecycle.
pub struct Minefield {
    data: Vec2D<Cell>,
}

impl View for Minefield {
    type V = Seq<Cell>;

    closed spec fn view(&self) -> Seq<Cell> {
        self.data@
    }
}

impl Minefield {
    /// The extent of the board.
    pub closed spec fn spec_size(&self) -> Size2D {
        self.data.spec_size()
    }

    pub open spec fn spec_width(&self) -> int {
        self.spec_size().0 as int
    }

    pub open spec fn spec_height(&self) -> int {
        self.spec_size().1 as int
    }

    /// One storage slot per coordinate.
    pub open spec fn wf(&self) -> bool {
        self@.len() == self.spec_width() * self.spec_height()
    }

    pub open spec fn in_bounds(&self, x: int, y: int) -> bool {
        0 <= x < self.spec_width() && 0 <= y < self.spec_height()
    }

    pub open spec fn idx_of(&self, x: int, y: int) -> int {
        flat_idx(x, y, self.spec_height())
    }

    /// The cell at the in-bounds coordinate (x, y).
    pub open spec fn cell_at(&self, x: int, y: int) -> Cell {
        self@[self.idx_of(x, y)]
    }
}

/// Whether there is a mine at (x, y); false for out-of-bounds coordinates.
pub open spec fn mine_at(f: Minefield, x: int, y: int) -> bool {
    f.in_bounds(x, y) && f.cell_at(x, y).cell_type == CellType::Mine
}

/// The number of mines among the up-to-8 in-bounds Moore neighbours of
/// (x, y); out-of-bounds neighbour positions contribute nothing.
pub open spec fn spec_neighbour_mines(f: Minefield, x: int, y: int) -> nat {
    b2n(mine_at(f, x - 1, y - 1)) + b2n(mine_at(f, x - 1, y)) + b2n(mine_at(f, x - 1, y + 1))
        + b2n(mine_at(f, x, y - 1)) + b2n(mine_at(f, x, y + 1)) + b2n(mine_at(f, x + 1, y - 1))
        + b2n(mine_at(f, x + 1, y)) + b2n(mine_at(f, x + 1, y + 1))
}

/// The number of mines under the points `pts[..k]`; mirrors the scan the
/// executable neighbour count performs.
spec fn count_nb_mines(f: Minefield, pts: Seq<Point2D>) -> nat
    decreases pts.len(),
{
    if pts.len() == 0 {
        0
    } else {
        count_nb_mines(f, pts.drop_last()) + b2n(
            mine_at(f, pts.last().0 as int, pts.last().1 as int),
        )
    }
}

proof fn lemma_count_nb_take_step(f: Minefield, pts: Seq<Point2D>, i: int)
    requires
        0 <= i < pts.len(),
    ensures
        count_nb_mines(f, pts.take(i + 1)) == count_nb_mines(f, pts.take(i)) + b2n(
            mine_at(f, pts[i].0 as int, pts[i].1 as int),
        ),
{
    assert(pts.take(i + 1).drop_last() =~= pts.take(i));
    assert(pts.take(i + 1).last() == pts[i]);
}

/// Scanning exactly the neighbour list of `p` counts the same mines as the
/// eight-position neighbour-mine sum.
proof fn lemma_count_nb_is_spec(f: Minefield, p: Point2D)
    requires
        p.0 < usize::MAX,
        p.1 < usize::MAX,
    ensures
        count_nb_mines(f, neighbours_of(p)) == spec_neighbour_mines(f, p.0 as int, p.1 as int),
{
    reveal_with_fuel(count_nb_mines, 9);
    let x = p.0 as int;
    let y = p.1 as int;
    if x > 0 && y > 0 {
        assert(count_nb_mines(f, neighbours_of(p)) == spec_neighbour_mines(f, x, y));
    } else if x > 0 {
        assert(!mine_at(f, x - 1, y - 1) && !mine_at(f, x, y - 1) && !mine_at(f, x + 1, y - 1));
        assert(count_nb_mines(f, neighbours_of(p)) == spec_neighbour_mines(f, x, y));
    } else if y > 0 {
        assert(!mine_at(f, x - 1, y - 1) && !mine_at(f, x - 1, y) && !mine_at(f, x - 1, y + 1));
        assert(count_nb_mines(f, neighbours_of(p)) == spec_neighbour_mines(f, x, y));
    } else {
        assert(count_nb_mines(f, neighbours_of(p)) == spec_neighbour_mines(f, x, y));
    }
}

/// The board `b` is a later stage of the same round as `a`: same extent, and
/// every cell either unchanged or freshly opened.
pub open spec fn evolves_to(a: Minefield, b: Minefield) -> bool {
    &&& b.spec_size() == a.spec_size()
    &&& b@.len() == a@.len()
    &&& forall|i: int| 0 <= i < a@.len() ==> cell_le(a@[i], #[trigger] b@[i])
}

/// Between stages `a` and `b`, the cell at (x, y) was freshly opened, is
/// water, and had no neighbouring mines at stage `a` — exactly the cells the
/// flood fill recurses from.
pub open spec fn freshly_opened_zero(a: Minefield, b: Minefield, x: int, y: int) -> bool {
    &&& a.in_bounds(x, y)
    &&& a.cell_at(x, y).state == CellState::Closed
    &&& b.cell_at(x, y).state == CellState::Opened
    &&& a.cell_at(x, y).cell_type == CellType::Water
    &&& spec_neighbour_mines(a, x, y) == 0
}

/// At stage `b`, no neighbour of (x, y) is still closed (each is opened, or
/// flagged and thus skipped).
pub open spec fn neighbourhood_cleared(b: Minefield, x: int, y: int) -> bool {
    forall|k: int|
        #![trigger neighbours_of(pt(x, y))[k]]
        0 <= k < neighbours_of(pt(x, y)).len() ==> {
            let q = neighbours_of(pt(x, y))[k];
            b.in_bounds(q.0 as int, q.1 as int) ==> b.cell_at(
                q.0 as int,
                q.1 as int,
            ).state != CellState::Closed
        }
}

/// The flood fill ran to completion: around every cell it freshly opened as
/// zero-neighbour water, no closed cell remains.
pub open spec fn cascade_saturated(a: Minefield, b: Minefield) -> bool {
    forall|x: int, y: int|
        #![trigger freshly_opened_zero(a, b, x, y)]
        freshly_opened_zero(a, b, x, y) ==> neighbourhood_cleared(b, x, y)
}

/// Every cell the flood fill opened, other than the one directly
/// addressed, is reachable from it along a path of cells that were closed
/// zero-neighbour water, ending in the opened cell: the cascade stays
/// within the connected region it started in.
pub open spec fn cascade_reached(a: Minefield, b: Minefield, lx: int, ly: int) -> bool {
    forall|x: int, y: int|
        #![trigger a.in_bounds(x, y), b.cell_at(x, y)]
        a.in_bounds(x, y) && a.cell_at(x, y).state == CellState::Closed && b.cell_at(
            x,
            y,
        ).state == CellState::Opened && !(x == lx && y == ly) ==> exists|path: Seq<Point2D>|
            #[trigger] flood_path(a, path, pt(lx, ly)) && path.last() == pt(x, y)
}

/// Opening never touches a mine cell other than the one directly addressed.
pub open spec fn mines_preserved_except(a: Minefield, b: Minefield, lx: int, ly: int) -> bool {
    forall|x: int, y: int|
        #![trigger a.cell_at(x, y), b.cell_at(x, y)]
        a.in_bounds(x, y) && a.cell_at(x, y).cell_type == CellType::Mine && !(x == lx && y == ly)
            ==> b.cell_at(x, y) == a.cell_at(x, y)
}

/// Everything an open attempt at (x, y) does to the board: no change unless
/// the cell is in bounds and closed; a fresh open leaves that cell opened,
/// changes it alone unless the flood fill runs, preserves every other mine
/// cell and all kinds, clears the neighbourhood of every zero-neighbour
/// water cell it opens, and opens nothing outside the region of closed
/// zero-neighbour water reachable from (x, y).
pub open spec fn open_post(a: Minefield, b: Minefield, x: int, y: int) -> bool {
    &&& b.wf()
    &&& evolves_to(a, b)
    &&& (!(a.in_bounds(x, y) && a.cell_at(x, y).state == CellState::Closed) ==> b@ == a@)
    &&& (a.in_bounds(x, y) && a.cell_at(x, y).state == CellState::Closed ==> b.cell_at(
        x,
        y,
    ).state == CellState::Opened)
    &&& (a.in_bounds(x, y) && a.cell_at(x, y).state == CellState::Closed && (a.cell_at(
        x,
        y,
    ).cell_type == CellType::Mine || spec_neighbour_mines(a, x, y) != 0) ==> b@ == a@.update(
        a.idx_of(x, y),
        opened_cell(a.cell_at(x, y)),
    ))
    &&& mines_preserved_except(a, b, x, y)
    &&& cascade_saturated(a, b)
    &&& cascade_reached(a, b, x, y)
}

/// Whether an open attempt at `p` freshly opens a cell: it must be in bounds
/// and still closed.
pub open spec fn spec_opens(f: Minefield, p: Point2D) -> bool {
    f.in_bounds(p.0 as int, p.1 as int) && f.cell_at(
        p.0 as int,
        p.1 as int,
    ).state == CellState::Closed
}

/// What an open attempt reports: the kind of the cell on a fresh open,
/// absent otherwise (out of bounds, flagged, or already opened).
pub open spec fn spec_open_result(f: Minefield, p: Point2D) -> Option<CellType> {
    if spec_opens(f, p) {
        Some(f.cell_at(p.0 as int, p.1 as int).cell_type)
    } else {
        None
    }
}

/// Pointwise view of `evolves_to` at a single in-bounds coordinate.
proof fn lemma_cell_le_at(a: Minefield, b: Minefield, x: int, y: int)
    requires
        a.wf(),
        evolves_to(a, b),
        a.in_bounds(x, y),
    ensures
        b.in_bounds(x, y),
        cell_le(a.cell_at(x, y), b.cell_at(x, y)),
        b.cell_at(x, y).cell_type == a.cell_at(x, y).cell_type,
{
    lemma_flat_idx_bounds(x, y, a.spec_width(), a.spec_height());
}

proof fn lemma_evolves_trans(a: Minefield, b: Minefield, c: Minefield)
    requires
        evolves_to(a, b),
        evolves_to(b, c),
    ensures
        evolves_to(a, c),
{
    assert forall|i: int| 0 <= i < a@.len() implies cell_le(a@[i], #[trigger] c@[i]) by {
        assert(cell_le(a@[i], b@[i]));
        assert(cell_le(b@[i], c@[i]));
    }
}

/// Kinds never change along `evolves_to`, so neighbour-mine counts do not
/// either.
proof fn lemma_evolves_nc(a: Minefield, b: Minefield)
    requires
        a.wf(),
        evolves_to(a, b),
    ensures
        forall|x: int, y: int| #[trigger]
            spec_neighbour_mines(b, x, y) == spec_neighbour_mines(a, x, y),
        forall|x: int, y: int| #[trigger] mine_at(b, x, y) == mine_at(a, x, y),
{
    assert forall|x: int, y: int| #[trigger] mine_at(b, x, y) == mine_at(a, x, y) by {
        if a.in_bounds(x, y) {
            lemma_cell_le_at(a, b, x, y);
        }
    }
}

impl Minefield {
    /// Wrap a grid of cells as a minefield.
    pub fn with_data(data: Vec2D<Cell>) -> (r: Self)
        requires
            data.wf(),
        ensures
            r.wf(),
            r@ == data@,
            r.spec_size() == data.spec_size(),
    {
        Self { data }
    }

    /// The extent of the board.
    pub fn size(&self) -> (r: &Size2D)
        ensures
            r.0 == self.spec_width(),
            r.1 == self.spec_height(),
    {
        self.data.size()
    }

    /// The cell at `location`; absent for out-of-bounds coordinates.
    pub fn get(&self, location: &Point2D) -> (r: Option<&Cell>)
        requires
            self.wf(),
        ensures
            r is Some <==> self.in_bounds(location.0 as int, location.1 as int),
            r matches Some(c) ==> *c == self.cell_at(location.0 as int, location.1 as int),
    {
        self.data.get(location)
    }

    /// Store `cell` at the in-bounds coordinate `location`.
    fn set_cell(&mut self, location: &Point2D, cell: Cell)
        requires
            old(self).wf(),
            old(self).in_bounds(location.0 as int, location.1 as int),
        ensures
            final(self).wf(),
            final(self).spec_size() == old(self).spec_size(),
            final(self)@ == old(self)@.update(
                old(self).idx_of(location.0 as int, location.1 as int),
                cell,
            ),
    {
        let _ok = self.data.set(location, cell);
    }

    /// The number of mines among the in-bounds Moore neighbours of
    /// `location`; between 0 and 8.
    pub fn count_neighbours(&self, location: &Point2D) -> (r: u8)
        requires
            self.wf(),
            location.0 < usize::MAX,
            location.1 < usize::MAX,
        ensures
            r as nat == spec_neighbour_mines(*self, location.0 as int, location.1 as int),
            r <= 8,
    {
        let nbs = location.neighbours();
        let mut count: u8 = 0;
        let mut k: usize = 0;
        proof {
            lemma_neighbour_len_le_8(*location);
        }
        while k < nbs.len()
            invariant
                self.wf(),
                k <= nbs@.len(),
                nbs@ == neighbours_of(*location),
                nbs@.len() <= 8,
                count as nat == count_nb_mines(*self, nbs@.take(k as int)),
                count as int <= k,
            decreases nbs@.len() - k,
        {
            let q = nbs[k];
            let is_mine = match self.get(&q) {
                Some(c) => c.cell_type == CellType::Mine,
                None => false,
            };
            proof {
                lemma_count_nb_take_step(*self, nbs@, k as int);
                assert(mine_at(*self, q.0 as int, q.1 as int) == is_mine);
            }
            if is_mine {
                count = count + 1;
            }
            k = k + 1;
        }
        proof {
            assert(nbs@.take(nbs@.len() as int) =~= nbs@);
            lemma_count_nb_is_spec(*self, *location);
        }
        count
    }
}

proof fn lemma_neighbour_len_le_8(p: Point2D)
    ensures
        neighbours_of(p).len() <= 8,
{
}

impl Minefield {
    /// Open the cell at `location`. Out-of-bounds, flagged, and already
    /// opened cells are untouched and report absent; a closed cell opens and
    /// reports its kind. Freshly opening a water cell with no neighbouring
    /// mines recursively opens all its neighbours (the flood fill); opening
    /// anything else changes that one cell alone. Flood filling never alters
    /// any other mine cell, clears the whole neighbourhood of every
    /// zero-neighbour water cell it opens, and opens nothing outside the
    /// connected region of closed zero-neighbour water it started from.
    pub fn open(&mut self, location: &Point2D) -> (r: Option<CellType>)
        requires
            old(self).wf(),
        ensures
            r == spec_open_result(*old(self), *location),
            open_post(*old(self), *final(self), location.0 as int, location.1 as int),
        decreases count_unopened(self@),
    {
        let ghost pre = *old(self);
        let ghost lx = location.0 as int;
        let ghost ly = location.1 as int;
        let cell: Cell = match self.get(location) {
            None => {
                proof {
                    lemma_open_noop_posts(pre, *self, lx, ly);
                }
                return None;
            },
            Some(c) => *c,
        };
        if !matches!(cell.state, CellState::Closed) {
            proof {
                lemma_open_noop_posts(pre, *self, lx, ly);
            }
            return None;
        }
        // The cell is in bounds and closed: open it.
        proof {
            lemma_flat_idx_bounds(lx, ly, pre.spec_width(), pre.spec_height());
        }
        self.set_cell(location, Cell { cell_type: cell.cell_type, state: CellState::Opened });
        let ghost mid = *self;
        proof {
            lemma_count_unopened_update(pre@, pre.idx_of(lx, ly), opened_cell(cell));
            assert(count_unopened(mid@) + 1 == count_unopened(pre@));
            lemma_open_mid_posts(pre, mid, lx, ly);
        }
        let mut cascade = false;
        if matches!(cell.cell_type, CellType::Water) {
            let nc = self.count_neighbours(location);
            if nc == 0 {
                cascade = true;
            }
        }
        proof {
            lemma_evolves_nc(pre, mid);
        }
        if cascade {
            assert(spec_neighbour_mines(pre, lx, ly) == 0);
            let nbs = location.neighbours();
            let ghost nseq = nbs@;
            proof {
                lemma_neighbours_adjacent(*location);
            }
            let mut k: usize = 0;
            while k < nbs.len()
                invariant
                    self.wf(),
                    k <= nseq.len(),
                    nbs@ == nseq,
                    nseq == neighbours_of(*location),
                    pre == *old(self),
                    pre.wf(),
                    mid.wf(),
                    lx == location.0 as int,
                    ly == location.1 as int,
                    pre.in_bounds(lx, ly),
                    cell == pre.cell_at(lx, ly),
                    cell.state == CellState::Closed,
                    cell.cell_type == CellType::Water,
                    spec_neighbour_mines(pre, lx, ly) == 0,
                    mid@ == pre@.update(pre.idx_of(lx, ly), opened_cell(cell)),
                    mid.spec_size() == pre.spec_size(),
                    evolves_to(pre, mid),
                    evolves_to(mid, *self),
                    evolves_to(pre, *self),
                    count_unopened(self@) <= count_unopened(mid@),
                    count_unopened(mid@) + 1 == count_unopened(pre@),
                    self.cell_at(lx, ly).state == CellState::Opened,
                    mines_preserved_except(pre, *self, lx, ly),
                    forall|j: int|
                        #![trigger nseq[j]]
                        0 <= j < k ==> (self.in_bounds(nseq[j].0 as int, nseq[j].1 as int)
                            ==> self.cell_at(
                            nseq[j].0 as int,
                            nseq[j].1 as int,
                        ).state != CellState::Closed),
                    forall|x: int, y: int|
                        #![trigger freshly_opened_zero(pre, *self, x, y)]
                        freshly_opened_zero(pre, *self, x, y) && !(x == lx && y == ly)
                            ==> neighbourhood_cleared(*self, x, y),
                    cascade_reached(pre, *self, lx, ly),
                decreases nseq.len() - k,
            {
                let q = nbs[k];
                let ghost qx = q.0 as int;
                let ghost qy = q.1 as int;
                let ghost before = *self;
                proof {
                    // The recursion terminates: something already opened.
                    assert(count_unopened(self@) < count_unopened(pre@));
                    // No neighbour of a zero-count cell is a mine.
                    assert(!mine_at(pre, qx, qy)) by {
                        assert(spec_neighbour_mines(pre, lx, ly) == 0);
                    }
                }
                let _ = self.open(&q);
                proof {
                    lemma_open_step_posts(pre, mid, before, *self, nseq, lx, ly, k as int, q);
                }
                k = k + 1;
            }
            proof {
                assert(cascade_saturated(pre, *self)) by {
                    assert forall|x: int, y: int|
                        freshly_opened_zero(pre, *self, x, y) implies neighbourhood_cleared(
                        *self,
                        x,
                        y,
                    ) by {
                        if x == lx && y == ly {
                            assert(pt(x, y) == *location);
                            assert forall|j: int|
                                #![trigger neighbours_of(pt(x, y))[j]]
                                0 <= j < neighbours_of(pt(x, y)).len() implies {
                                let qq = neighbours_of(pt(x, y))[j];
                                self.in_bounds(qq.0 as int, qq.1 as int) ==> self.cell_at(
                                    qq.0 as int,
                                    qq.1 as int,
                                ).state != CellState::Closed
                            } by {
                                assert(nseq[j] == neighbours_of(pt(x, y))[j]);
                            }
                        }
                    }
                }
            }
            return Some(cell.cell_type);
        }
        proof {
            lemma_open_single_posts(pre, mid, lx, ly);
        }
        Some(cell.cell_type)
    }
}

/// After a no-change open attempt every postcondition of `open` holds
/// between the unchanged states.
proof fn lemma_open_noop_posts(pre: Minefield, cur: Minefield, lx: int, ly: int)
    requires
        pre.wf(),
        cur == pre,
        !spec_opens(pre, pt(lx, ly)),
    ensures
        evolves_to(pre, cur),
        mines_preserved_except(pre, cur, lx, ly),
        cascade_saturated(pre, cur),
        cascade_reached(pre, cur, lx, ly),
{
    assert forall|x: int, y: int|
        freshly_opened_zero(pre, cur, x, y) implies neighbourhood_cleared(cur, x, y) by {
        assert(false);
    }
    assert forall|x: int, y: int|
        pre.in_bounds(x, y) && pre.cell_at(x, y).state == CellState::Closed && cur.cell_at(
            x,
            y,
        ).state == CellState::Opened && !(x == lx && y == ly) implies exists|path: Seq<Point2D>|
        #[trigger] flood_path(pre, path, pt(lx, ly)) && path.last() == pt(x, y) by {
        assert(false);
    }
}

/// A cell other than the one written is untouched by a one-cell update.
proof fn lemma_update_unchanged_at(
    pre: Minefield,
    mid: Minefield,
    lx: int,
    ly: int,
    x: int,
    y: int,
    c: Cell,
)
    requires
        pre.wf(),
        pre.in_bounds(lx, ly),
        pre.in_bounds(x, y),
        !(x == lx && y == ly),
        mid@ == pre@.update(pre.idx_of(lx, ly), c),
        mid.spec_size() == pre.spec_size(),
    ensures
        mid.cell_at(x, y) == pre.cell_at(x, y),
{
    lemma_flat_idx_bounds(lx, ly, pre.spec_width(), pre.spec_height());
    lemma_flat_idx_bounds(x, y, pre.spec_width(), pre.spec_height());
    if pre.idx_of(x, y) == pre.idx_of(lx, ly) {
        crate::collections::lemma_flat_idx_injective(x, y, lx, ly, pre.spec_height());
    }
}

/// Directly after opening the addressed cell, before any recursion: the
/// evolution, mine-preservation, saturation-away-from-the-root and
/// justification postconditions all hold of the one-cell update.
proof fn lemma_open_mid_posts(pre: Minefield, mid: Minefield, lx: int, ly: int)
    requires
        pre.wf(),
        pre.in_bounds(lx, ly),
        pre.cell_at(lx, ly).state == CellState::Closed,
        mid@ == pre@.update(pre.idx_of(lx, ly), opened_cell(pre.cell_at(lx, ly))),
        mid.spec_size() == pre.spec_size(),
    ensures
        mid.wf(),
        evolves_to(pre, mid),
        mid.cell_at(lx, ly).state == CellState::Opened,
        mines_preserved_except(pre, mid, lx, ly),
        forall|x: int, y: int|
            #![trigger freshly_opened_zero(pre, mid, x, y)]
            freshly_opened_zero(pre, mid, x, y) && !(x == lx && y == ly)
                ==> neighbourhood_cleared(mid, x, y),
        cascade_reached(pre, mid, lx, ly),
{
    lemma_flat_idx_bounds(lx, ly, pre.spec_width(), pre.spec_height());
    assert forall|i: int| 0 <= i < pre@.len() implies cell_le(pre@[i], #[trigger] mid@[i]) by {}
    assert forall|x: int, y: int|
        freshly_opened_zero(pre, mid, x, y) && !(x == lx && y == ly)
            implies neighbourhood_cleared(mid, x, y) by {
        lemma_update_unchanged_at(pre, mid, lx, ly, x, y, opened_cell(pre.cell_at(lx, ly)));
        assert(false);
    }
    assert forall|x: int, y: int|
        pre.in_bounds(x, y) && pre.cell_at(x, y).state == CellState::Closed && mid.cell_at(
            x,
            y,
        ).state == CellState::Opened && !(x == lx && y == ly) implies exists|path: Seq<Point2D>|
        #[trigger] flood_path(pre, path, pt(lx, ly)) && path.last() == pt(x, y) by {
        lemma_update_unchanged_at(pre, mid, lx, ly, x, y, opened_cell(pre.cell_at(lx, ly)));
        assert(false);
    }
    assert forall|x: int, y: int|
        pre.in_bounds(x, y) && pre.cell_at(x, y).cell_type == CellType::Mine && !(x == lx && y
            == ly) implies mid.cell_at(x, y) == pre.cell_at(x, y) by {
        lemma_update_unchanged_at(pre, mid, lx, ly, x, y, opened_cell(pre.cell_at(lx, ly)));
    }
}

/// After opening a single cell that does not cascade (a mine, or water with
/// neighbouring mines), the cascade postconditions hold of the one-cell
/// update.
proof fn lemma_open_single_posts(pre: Minefield, mid: Minefield, lx: int, ly: int)
    requires
        pre.wf(),
        pre.in_bounds(lx, ly),
        pre.cell_at(lx, ly).state == CellState::Closed,
        mid@ == pre@.update(pre.idx_of(lx, ly), opened_cell(pre.cell_at(lx, ly))),
        mid.spec_size() == pre.spec_size(),
        !(pre.cell_at(lx, ly).cell_type == CellType::Water && spec_neighbour_mines(pre, lx, ly)
            == 0),
    ensures
        evolves_to(pre, mid),
        mid.cell_at(lx, ly).state == CellState::Opened,
        mines_preserved_except(pre, mid, lx, ly),
        cascade_saturated(pre, mid),
        cascade_reached(pre, mid, lx, ly),
{
    lemma_open_mid_posts(pre, mid, lx, ly);
    lemma_evolves_nc(pre, mid);
    assert forall|x: int, y: int|
        freshly_opened_zero(pre, mid, x, y) implies neighbourhood_cleared(mid, x, y) by {
        if x == lx && y == ly {
            assert(false);
        }
    }
}

/// Extending a flood path backwards: a path from a neighbour `q` of the
/// root, walked in a later stage, is still a path in the earlier stage once
/// the root is put in front.
proof fn lemma_flood_path_prepend(
    pre: Minefield,
    before: Minefield,
    tail: Seq<Point2D>,
    lx: int,
    ly: int,
    q: Point2D,
)
    requires
        pre.wf(),
        evolves_to(pre, before),
        pre.in_bounds(lx, ly),
        pre.cell_at(lx, ly).cell_type == CellType::Water,
        spec_neighbour_mines(pre, lx, ly) == 0,
        neighbours_of(pt(lx, ly)).contains(q),
        spec_opens(before, q),
        flood_path(before, tail, q),
    ensures
        flood_path(pre, seq![pt(lx, ly)] + tail, pt(lx, ly)),
        (seq![pt(lx, ly)] + tail).last() == tail.last(),
{
    lemma_evolves_nc(pre, before);
    let path = seq![pt(lx, ly)] + tail;
    assert(path.len() == 1 + tail.len());
    assert(path[0] == pt(lx, ly));
    assert forall|i: int| 1 <= i < path.len() implies #[trigger] path[i] == tail[i - 1] by {}
    let qx = q.0 as int;
    let qy = q.1 as int;
    assert(tail[0] == q);
    assert(pt(qx, qy) == q);
    assert(pre.cell_at(qx, qy).state == CellState::Closed) by {
        lemma_cell_le_at(pre, before, qx, qy);
    }
    assert forall|i: int|
        #![trigger path[i]]
        0 <= i < path.len() implies pre.in_bounds(path[i].0 as int, path[i].1 as int) by {
        if i >= 1 {
            assert(tail[i - 1] == path[i]);
            assert(before.in_bounds(tail[i - 1].0 as int, tail[i - 1].1 as int));
        }
    }
    assert forall|i: int|
        #![trigger path[i]]
        0 <= i < path.len() - 1 implies {
        &&& pre.cell_at(path[i].0 as int, path[i].1 as int).cell_type == CellType::Water
        &&& spec_neighbour_mines(pre, path[i].0 as int, path[i].1 as int) == 0
        &&& neighbours_of(path[i]).contains(path[i + 1])
    } by {
        if i == 0 {
            assert(path[1] == tail[0]);
        } else {
            assert(path[i] == tail[i - 1]);
            assert(path[i + 1] == tail[i]);
            assert(before.cell_at(tail[i - 1].0 as int, tail[i - 1].1 as int).cell_type
                == CellType::Water);
            assert(spec_neighbour_mines(before, tail[i - 1].0 as int, tail[i - 1].1 as int) == 0);
            assert(neighbours_of(tail[i - 1]).contains(tail[i]));
            lemma_cell_le_at(pre, before, tail[i - 1].0 as int, tail[i - 1].1 as int);
        }
    }
    assert forall|i: int|
        #![trigger path[i]]
        1 <= i < path.len() implies pre.cell_at(
        path[i].0 as int,
        path[i].1 as int,
    ).state == CellState::Closed by {
        assert(path[i] == tail[i - 1]);
        if i == 1 {
            assert(path[i] == q);
        } else {
            assert(before.cell_at(tail[i - 1].0 as int, tail[i - 1].1 as int).state
                == CellState::Closed);
            lemma_cell_le_at(pre, before, tail[i - 1].0 as int, tail[i - 1].1 as int);
        }
    }
}

/// One step of the flood-fill loop: carries every loop invariant of `open`
/// across the recursive call on the `k`-th neighbour.
proof fn lemma_open_step_posts(
    pre: Minefield,
    mid: Minefield,
    before: Minefield,
    cur: Minefield,
    nseq: Seq<Point2D>,
    lx: int,
    ly: int,
    k: int,
    q: Point2D,
)
    requires
        pre.wf(),
        mid.wf(),
        before.wf(),
        cur.wf(),
        0 <= k < nseq.len(),
        nseq == neighbours_of(pt(lx, ly)),
        q == nseq[k],
        pre.in_bounds(lx, ly),
        pre.cell_at(lx, ly).state == CellState::Closed,
        pre.cell_at(lx, ly).cell_type == CellType::Water,
        spec_neighbour_mines(pre, lx, ly) == 0,
        mid@ == pre@.update(pre.idx_of(lx, ly), opened_cell(pre.cell_at(lx, ly))),
        mid.spec_size() == pre.spec_size(),
        evolves_to(pre, mid),
        evolves_to(mid, before),
        evolves_to(pre, before),
        before.cell_at(lx, ly).state == CellState::Opened,
        mines_preserved_except(pre, before, lx, ly),
        forall|j: int|
            #![trigger nseq[j]]
            0 <= j < k ==> (before.in_bounds(nseq[j].0 as int, nseq[j].1 as int)
                ==> before.cell_at(nseq[j].0 as int, nseq[j].1 as int).state != CellState::Closed),
        forall|x: int, y: int|
            #![trigger freshly_opened_zero(pre, before, x, y)]
            freshly_opened_zero(pre, before, x, y) && !(x == lx && y == ly)
                ==> neighbourhood_cleared(before, x, y),
        cascade_reached(pre, before, lx, ly),
        // What the recursive call on q guarantees:
        evolves_to(before, cur),
        !spec_opens(before, q) ==> cur@ == before@,
        spec_opens(before, q) ==> cur.cell_at(q.0 as int, q.1 as int).state == CellState::Opened,
        mines_preserved_except(before, cur, q.0 as int, q.1 as int),
        cascade_saturated(before, cur),
        cascade_reached(before, cur, q.0 as int, q.1 as int),
    ensures
        evolves_to(mid, cur),
        evolves_to(pre, cur),
        count_unopened(cur@) <= count_unopened(mid@),
        cur.cell_at(lx, ly).state == CellState::Opened,
        mines_preserved_except(pre, cur, lx, ly),
        forall|j: int|
            #![trigger nseq[j]]
            0 <= j < k + 1 ==> (cur.in_bounds(nseq[j].0 as int, nseq[j].1 as int)
                ==> cur.cell_at(nseq[j].0 as int, nseq[j].1 as int).state != CellState::Closed),
        forall|x: int, y: int|
            #![trigger freshly_opened_zero(pre, cur, x, y)]
            freshly_opened_zero(pre, cur, x, y) && !(x == lx && y == ly)
                ==> neighbourhood_cleared(cur, x, y),
        cascade_reached(pre, cur, lx, ly),
{
    let qx = q.0 as int;
    let qy = q.1 as int;
    lemma_evolves_trans(mid, before, cur);
    lemma_evolves_trans(pre, before, cur);
    lemma_count_unopened_le(mid@, cur@);
    lemma_evolves_nc(pre, before);
    lemma_evolves_nc(pre, cur);
    lemma_neighbours_adjacent(pt(lx, ly));
    lemma_cell_le_at(pre, cur, lx, ly);

    // The addressed cell stays opened.
    assert(cur.cell_at(lx, ly).state == CellState::Opened) by {
        lemma_cell_le_at(before, cur, lx, ly);
    }

    // q is not a mine, so all mines other than the root stay untouched.
    assert(!mine_at(pre, qx, qy));
    assert forall|x: int, y: int|
        pre.in_bounds(x, y) && pre.cell_at(x, y).cell_type == CellType::Mine && !(x == lx && y
            == ly) implies cur.cell_at(x, y) == pre.cell_at(x, y) by {
        assert(before.cell_at(x, y) == pre.cell_at(x, y));
        lemma_cell_le_at(pre, before, x, y);
        assert(before.cell_at(x, y).cell_type == CellType::Mine);
        if x == qx && y == qy {
            assert(mine_at(pre, qx, qy));
            assert(false);
        }
        assert(cur.cell_at(x, y) == before.cell_at(x, y));
    }

    // Neighbours up to and including q are no longer closed.
    assert forall|j: int|
        #![trigger nseq[j]]
        0 <= j < k + 1 && cur.in_bounds(nseq[j].0 as int, nseq[j].1 as int) implies cur.cell_at(
        nseq[j].0 as int,
        nseq[j].1 as int,
    ).state != CellState::Closed by {
        let jx = nseq[j].0 as int;
        let jy = nseq[j].1 as int;
        if j < k {
            lemma_cell_le_at(before, cur, jx, jy);
        } else {
            assert(nseq[j] == q);
            if spec_opens(before, q) {
            } else {
                assert(cur@ == before@);
            }
        }
    }

    // Saturation for every cell opened so far other than the root.
    assert forall|x: int, y: int|
        freshly_opened_zero(pre, cur, x, y) && !(x == lx && y == ly)
            implies neighbourhood_cleared(cur, x, y) by {
        lemma_cell_le_at(pre, before, x, y);
        if before.cell_at(x, y).state == CellState::Opened {
            // Already opened before this step; its neighbourhood was cleared
            // and stays cleared.
            assert(freshly_opened_zero(pre, before, x, y));
            assert(neighbourhood_cleared(before, x, y));
            assert forall|kk: int|
                #![trigger neighbours_of(pt(x, y))[kk]]
                0 <= kk < neighbours_of(pt(x, y)).len() implies {
                let qq = neighbours_of(pt(x, y))[kk];
                cur.in_bounds(qq.0 as int, qq.1 as int) ==> cur.cell_at(
                    qq.0 as int,
                    qq.1 as int,
                ).state != CellState::Closed
            } by {
                let qq = neighbours_of(pt(x, y))[kk];
                if cur.in_bounds(qq.0 as int, qq.1 as int) {
                    lemma_cell_le_at(before, cur, qq.0 as int, qq.1 as int);
                }
            }
        } else {
            // Freshly opened by the recursive call; its saturation applies.
            assert(before.cell_at(x, y).state == CellState::Closed);
            assert(freshly_opened_zero(before, cur, x, y));
            assert(neighbourhood_cleared(cur, x, y));
        }
    }

    // Every cell opened so far lies at the end of a flood path from the root.
    assert forall|x: int, y: int|
        pre.in_bounds(x, y) && pre.cell_at(x, y).state == CellState::Closed && cur.cell_at(
            x,
            y,
        ).state == CellState::Opened && !(x == lx && y == ly) implies exists|path: Seq<Point2D>|
        #[trigger] flood_path(pre, path, pt(lx, ly)) && path.last() == pt(x, y) by {
        lemma_cell_le_at(pre, before, x, y);
        if before.cell_at(x, y).state == CellState::Opened {
            // Reached before this step; the same path still serves.
            let path = choose|path: Seq<Point2D>|
                #[trigger] flood_path(pre, path, pt(lx, ly)) && path.last() == pt(x, y);
            assert(flood_path(pre, path, pt(lx, ly)) && path.last() == pt(x, y));
        } else {
            // Opened by the recursive call on q, which must have freshly
            // opened q itself.
            assert(before.cell_at(x, y).state == CellState::Closed);
            assert(spec_opens(before, q)) by {
                if !spec_opens(before, q) {
                    assert(cur@ == before@);
                    assert(false);
                }
            }
            if x == qx && y == qy {
                let tail = seq![q];
                assert(flood_path(before, tail, q));
                lemma_flood_path_prepend(pre, before, tail, lx, ly, q);
                let path = seq![pt(lx, ly)] + tail;
                assert(path.last() == pt(x, y));
                assert(flood_path(pre, path, pt(lx, ly)) && path.last() == pt(x, y));
            } else {
                let tail = choose|tail: Seq<Point2D>|
                    #[trigger] flood_path(before, tail, pt(qx, qy)) && tail.last() == pt(x, y);
                assert(pt(qx, qy) == q);
                lemma_flood_path_prepend(pre, before, tail, lx, ly, q);
                let path = seq![pt(lx, ly)] + tail;
                assert(flood_path(pre, path, pt(lx, ly)) && path.last() == pt(x, y));
            }
        }
    }
}

/// A minefield has won when every water cell is opened: only mines remain
/// closed or flagged.
pub open spec fn spec_only_mines_remaining(f: Minefield) -> bool {
    forall|x: int, y: int|
        #![trigger f.cell_at(x, y)]
        f.in_bounds(x, y) && f.cell_at(x, y).cell_type == CellType::Water ==> f.cell_at(
            x,
            y,
        ).state == CellState::Opened
}

/// Relies on itertools::Itertools::cartesian_product on two ranges: it
/// yields the pairs of (0..a) x (0..b) in order with the second coordinate
/// cycling fastest, so the pair at index `x * b + y` is `(x, y)`.
#[verifier::external_body]
fn cartesian_pairs(a: usize, b: usize) -> (r: Vec<(usize, usize)>)
    requires
        a * b <= usize::MAX,
    ensures
        r@.len() == a * b,
        forall|x: int, y: int|
            0 <= x < a && 0 <= y < b ==> r@[flat_idx(x, y, b as int)] == (
            x as usize,
            y as usize,
            ),
{
    itertools::Itertools::cartesian_product(0..a, 0..b).collect()
}

/// Everything a flag toggle at (x, y) does to the board: nothing when out
/// of bounds, otherwise exactly that cell's state toggles along the
/// closed/flagged cycle, its kind kept.
pub open spec fn flag_post(a: Minefield, b: Minefield, x: int, y: int) -> bool {
    &&& b.wf()
    &&& b.spec_size() == a.spec_size()
    &&& (a.in_bounds(x, y) ==> b@ == a@.update(
        a.idx_of(x, y),
        Cell {
            cell_type: a.cell_at(x, y).cell_type,
            state: state_after_toggle(a.cell_at(x, y).state),
        },
    ))
    &&& (!a.in_bounds(x, y) ==> b@ == a@)
}

/// Everything a full reveal does to the board: every flagged cell stays
/// flagged, every other cell ends opened, and no kind changes.
pub open spec fn reveal_post(a: Minefield, b: Minefield) -> bool {
    &&& b.wf()
    &&& b.spec_size() == a.spec_size()
    &&& evolves_to(a, b)
    &&& forall|x: int, y: int|
        #![trigger b.cell_at(x, y)]
        a.in_bounds(x, y) ==> b.cell_at(x, y).state == (if a.cell_at(
            x,
            y,
        ).state == CellState::Flagged {
            CellState::Flagged
        } else {
            CellState::Opened
        })
}

impl Minefield {
    /// Toggle the flag of the cell at `location`: closed cells flag, flagged
    /// cells unflag, opened and out-of-bounds cells are untouched.
    pub fn flag(&mut self, location: &Point2D)
        requires
            old(self).wf(),
        ensures
            flag_post(*old(self), *final(self), location.0 as int, location.1 as int),
    {
        let mut cell: Cell = match self.get(location) {
            None => {
                return;
            },
            Some(c) => *c,
        };
        cell.flag();
        self.set_cell(location, cell);
    }

    /// Open every cell on the board: every non-flagged cell ends opened,
    /// flagged cells stay flagged. Used at game end to show the whole board.
    pub fn reveal_all(&mut self)
        requires
            old(self).wf(),
        ensures
            reveal_post(*old(self), *final(self)),
    {
        let ghost pre = *old(self);
        let locs = self.data.all_locations();
        let ghost lseq = locs@;
        let mut k: usize = 0;
        proof {
            assert forall|i: int| 0 <= i < pre@.len() implies cell_le(
                pre@[i],
                #[trigger] pre@[i],
            ) by {}
            assert(pre.data == self.data);
            assert forall|x: int, y: int| pre.in_bounds(x, y) implies lseq[pre.idx_of(x, y)]
                == Point2D(x as usize, y as usize) by {
                lemma_flat_idx_bounds(x, y, pre.spec_width(), pre.spec_height());
                assert(self.data.in_bounds(x, y));
                assert(lseq[crate::collections::flat_idx(x, y, self.data.spec_size().1 as int)]
                    == Point2D(x as usize, y as usize));
            }
        }
        while k < locs.len()
            invariant
                pre == *old(self),
                pre.wf(),
                self.wf(),
                k <= lseq.len(),
                locs@ == lseq,
                lseq.len() == pre.spec_width() * pre.spec_height(),
                forall|x: int, y: int| pre.in_bounds(x, y)
                    ==> lseq[pre.idx_of(x, y)] == Point2D(x as usize, y as usize),
                forall|j: int| 0 <= j < lseq.len()
                    ==> pre.in_bounds(#[trigger] lseq[j].0 as int, lseq[j].1 as int),
                evolves_to(pre, *self),
                forall|j: int|
                    #![trigger lseq[j]]
                    0 <= j < k ==> self.cell_at(
                        lseq[j].0 as int,
                        lseq[j].1 as int,
                    ).state != CellState::Closed,
            decreases lseq.len() - k,
        {
            let p = locs[k];
            let ghost before = *self;
            let _ = self.open(&p);
            proof {
                lemma_evolves_trans(pre, before, *self);
                assert forall|j: int|
                    #![trigger lseq[j]]
                    0 <= j < k + 1 implies self.cell_at(
                    lseq[j].0 as int,
                    lseq[j].1 as int,
                ).state != CellState::Closed by {
                    if j < k {
                        lemma_cell_le_at(before, *self, lseq[j].0 as int, lseq[j].1 as int);
                    } else {
                        assert(lseq[j] == p);
                        if !spec_opens(before, p) {
                            assert(self@ == before@);
                        }
                    }
                }
            }
            k = k + 1;
        }
        proof {
            assert forall|x: int, y: int| pre.in_bounds(x, y) implies self.cell_at(
                x,
                y,
            ).state == (if pre.cell_at(x, y).state == CellState::Flagged {
                CellState::Flagged
            } else {
                CellState::Opened
            }) by {
                lemma_flat_idx_bounds(x, y, pre.spec_width(), pre.spec_height());
                assert(lseq[pre.idx_of(x, y)] == Point2D(x as usize, y as usize));
                lemma_cell_le_at(pre, *self, x, y);
            }
        }
    }

    /// The win condition: true iff no water cell remains closed or flagged,
    /// i.e. every non-mine cell has been opened.
    pub fn only_mines_remaining(&self) -> (r: bool)
        requires
            self.wf(),
        ensures
            r == spec_only_mines_remaining(*self),
    {
        let s = self.data.size();
        let w = s.0;
        let h = s.1;
        // The grid stores w * h cells, so that product fits in usize.
        let _stored = self.data.len();
        let pairs = cartesian_pairs(w, h);
        let ghost pseq = pairs@;
        proof {
            assert forall|x: int, y: int| self.in_bounds(x, y) implies pseq[self.idx_of(x, y)]
                == (x as usize, y as usize) by {
                lemma_flat_idx_bounds(x, y, self.spec_width(), self.spec_height());
            }
        }
        let mut k: usize = 0;
        while k < pairs.len()
            invariant
                self.wf(),
                k <= pseq.len(),
                pairs@ == pseq,
                w == self.spec_width(),
                h == self.spec_height(),
                pseq.len() == w * h,
                forall|x: int, y: int|
                    #![trigger pseq[self.idx_of(x, y)]]
                    self.in_bounds(x, y) ==> pseq[self.idx_of(x, y)] == (x as usize, y as usize),
                forall|x: int, y: int|
                    #![trigger self.cell_at(x, y)]
                    self.in_bounds(x, y) && self.idx_of(x, y) < k && self.cell_at(
                        x,
                        y,
                    ).cell_type == CellType::Water ==> self.cell_at(
                        x,
                        y,
                    ).state == CellState::Opened,
            decreases pseq.len() - k,
        {
            let ghost hh = h as int;
            proof {
                crate::collections::lemma_flat_idx_coords(k as int, w as int, hh);
                assert(self.in_bounds(k as int / hh, k as int % hh));
                assert(pseq[self.idx_of(k as int / hh, k as int % hh)] == (
                    (k as int / hh) as usize,
                    (k as int % hh) as usize,
                ));
            }
            let p = pairs[k];
            let cell = match self.get(&Point2D(p.0, p.1)) {
                Some(c) => *c,
                None => unreached(),
            };
            if !cell.is_open() && matches!(cell.cell_type, CellType::Water) {
                return false;
            }
            k = k + 1;
            proof {
                assert forall|x: int, y: int|
                    self.in_bounds(x, y) && self.idx_of(x, y) < k && self.cell_at(
                        x,
                        y,
                    ).cell_type == CellType::Water implies self.cell_at(
                    x,
                    y,
                ).state == CellState::Opened by {
                    if self.idx_of(x, y) == k - 1 {
                        crate::collections::lemma_flat_idx_injective(
                            x,
                            y,
                            (k - 1) as int / hh,
                            (k - 1) as int % hh,
                            hh,
                        );
                    }
                }
            }
        }
        proof {
            assert forall|x: int, y: int|
                self.in_bounds(x, y) && self.cell_at(x, y).cell_type == CellType::Water
                    implies self.cell_at(x, y).state == CellState::Opened by {
                lemma_flat_idx_bounds(x, y, self.spec_width(), self.spec_height());
            }
        }
        true
    }
}

/// The configuration error of field generation: more mines requested than
/// the board has cells. Generation refuses outright rather than building a
/// partial field.
#[derive(Debug, Clone, Copy, PartialEq, Eq, Structural)]
pub enum GenerateError {
    TooManyMines,
}

/// Declares rand's thread-local generator handle so that it can sit in a
/// field; the verifier sees nothing of its inside.
#[verifier::external_type_specification]
#[verifier::external_body]
pub struct ExThreadRng(rand::rngs::ThreadRng);

/// Relies on rand::thread_rng: a handle to the thread-local random
/// generator. Nothing is assumed of the values it will produce.
#[verifier::external_body]
pub(crate) fn fresh_rng() -> rand::rngs::ThreadRng {
    rand::thread_rng()
}

/// Relies on rand::Rng::gen_range on the range 0..n: it panics on an empty
/// range, and otherwise returns a value of the range. Nothing more is
/// assumed of which value comes back.
#[verifier::external_body]
fn gen_below(rng: &mut rand::rngs::ThreadRng, n: usize) -> (r: usize)
    requires
        n > 0,
    ensures
        r < n,
{
    rand::Rng::gen_range(rng, 0..n)
}

proof fn lemma_count_mines_none(s: Seq<Cell>)
    requires
        forall|i: int| 0 <= i < s.len() ==> (#[trigger] s[i]).cell_type != CellType::Mine,
    ensures
        count_mines(s) == 0,
    decreases s.len(),
{
    if s.len() > 0 {
        assert(forall|i: int| 0 <= i < s.len() - 1 ==> s.drop_last()[i] == s[i]);
        lemma_count_mines_none(s.drop_last());
    }
}

/// The index of the water cell with exactly `r` water cells before it in
/// storage order. Used to pick the `r`-th remaining water cell uniformly.
fn find_nth_water(cells: &Vec2D<Cell>, r: usize) -> (idx: usize)
    requires
        r < count_water(cells@),
    ensures
        idx < cells@.len(),
        cells@[idx as int].cell_type == CellType::Water,
{
    let n = cells.len();
    let mut i: usize = 0;
    let mut seen: usize = 0;
    while i < n
        invariant
            n == cells@.len(),
            i <= n,
            seen as nat == count_water(cells@.take(i as int)),
            seen <= r,
            r < count_water(cells@),
        decreases n - i,
    {
        let keep = matches!(cells.at_flat(i).cell_type, CellType::Water);
        proof {
            lemma_count_water_take_step(cells@, i as int);
        }
        if keep {
            if seen == r {
                return i;
            }
            seen = seen + 1;
        }
        i = i + 1;
    }
    proof {
        assert(cells@.take(n as int) =~= cells@);
        assert(false);
    }
    unreached()
}

/// Places mines uniformly at random, without replacement, drawing from the
/// thread-local random generator it owns.
pub struct RandomMineFieldGenerator {
    pub random: rand::rngs::ThreadRng,
}

impl RandomMineFieldGenerator {
    /// Build a minefield of extent `size` with exactly `mine_count` mines,
    /// every cell closed. Each mine lands on a uniformly chosen cell that is
    /// still water, so no two mines share a cell. Refuses, building nothing,
    /// iff more mines are requested than the board has cells.
    pub fn generate(&mut self, size: Size2D, mine_count: usize) -> (r: Result<
        Minefield,
        GenerateError,
    >)
        requires
            size.0 * size.1 <= usize::MAX,
        ensures
            r is Ok <==> mine_count <= size.0 * size.1,
            r matches Ok(f) ==> {
                &&& f.wf()
                &&& f.spec_size() == size
                &&& count_mines(f@) == mine_count
                &&& forall|i: int|
                    0 <= i < f@.len() ==> (#[trigger] f@[i]).state == CellState::Closed
            },
    {
        let total = size.0 * size.1;
        if total < mine_count {
            return Err(GenerateError::TooManyMines);
        }
        let mut cells = Vec2D::sized(&size, Cell::default());
        proof {
            lemma_count_mines_none(cells@);
        }
        let mut placed: usize = 0;
        while placed < mine_count
            invariant
                total == size.0 * size.1,
                cells.wf(),
                cells.spec_size() == size,
                cells@.len() == size.0 * size.1,
                placed <= mine_count,
                mine_count <= size.0 * size.1,
                count_mines(cells@) == placed,
                forall|i: int|
                    0 <= i < cells@.len() ==> (#[trigger] cells@[i]).state == CellState::Closed,
            decreases mine_count - placed,
        {
            proof {
                lemma_count_kinds_total(cells@);
            }
            let pick = gen_below(&mut self.random, total - placed);
            let idx = find_nth_water(&cells, pick);
            let ghost old_cells = cells@;
            cells.set_flat(idx, Cell { cell_type: CellType::Mine, state: CellState::Closed });
            proof {
                lemma_count_mines_update(
                    old_cells,
                    idx as int,
                    Cell { cell_type: CellType::Mine, state: CellState::Closed },
                );
            }
            placed = placed + 1;
        }
        Ok(Minefield::with_data(cells))
    }
}

/// Along `evolves_to`, every in-bounds cell keeps its kind.
proof fn lemma_evolves_kinds(a: Minefield, b: Minefield)
    requires
        a.wf(),
        evolves_to(a, b),
    ensures
        forall|x: int, y: int|
            #![trigger b.cell_at(x, y)]
            a.in_bounds(x, y) ==> b.cell_at(x, y).cell_type == a.cell_at(x, y).cell_type,
{
    assert forall|x: int, y: int| a.in_bounds(x, y) implies #[trigger] b.cell_at(
        x,
        y,
    ).cell_type == a.cell_at(x, y).cell_type by {
        lemma_cell_le_at(a, b, x, y);
    }
}

/// Flag toggling keeps every kind, the extent, and well-formedness.
proof fn lemma_flag_kinds(pre: Minefield, post: Minefield, lx: int, ly: int)
    requires
        pre.wf(),
        post.spec_size() == pre.spec_size(),
        pre.in_bounds(lx, ly) ==> post@ == pre@.update(
            pre.idx_of(lx, ly),
            Cell {
                cell_type: pre.cell_at(lx, ly).cell_type,
                state: state_after_toggle(pre.cell_at(lx, ly).state),
            },
        ),
        !pre.in_bounds(lx, ly) ==> post@ == pre@,
    ensures
        post.wf(),
        forall|x: int, y: int|
            #![trigger post.cell_at(x, y)]
            pre.in_bounds(x, y) ==> post.cell_at(x, y).cell_type == pre.cell_at(x, y).cell_type,
{
    if pre.in_bounds(lx, ly) {
        lemma_flat_idx_bounds(lx, ly, pre.spec_width(), pre.spec_height());
        assert forall|x: int, y: int| pre.in_bounds(x, y) implies #[trigger] post.cell_at(
            x,
            y,
        ).cell_type == pre.cell_at(x, y).cell_type by {
            if !(x == lx && y == ly) {
                lemma_update_unchanged_at(
                    pre,
                    post,
                    lx,
                    ly,
                    x,
                    y,
                    Cell {
                        cell_type: pre.cell_at(lx, ly).cell_type,
                        state: state_after_toggle(pre.cell_at(lx, ly).state),
                    },
                );
            }
        }
    }
}

/// The per-tick input of a running game: which controls were pressed.
#[derive(Debug, Clone, Copy, PartialEq, Eq, Structural)]
pub struct GameInput {
    pub left: bool,
    pub up: bool,
    pub right: bool,
    pub down: bool,
    pub open: bool,
    pub flag: bool,
    pub exit: bool,
}

/// The cursor is clamped to the extent: strictly inside it, or pinned to 0
/// on an empty axis.
pub open spec fn cursor_clamped(c: Point2D, s: Size2D) -> bool {
    &&& if s.0 == 0 {
        c.0 == 0
    } else {
        (c.0 as int) < s.0
    }
    &&& if s.1 == 0 {
        c.1 == 0
    } else {
        (c.1 as int) < s.1
    }
}

/// Where the cursor lands after one tick of movement input: left and up
/// move only off 0, right and down always try, and the result is clamped
/// to the board.
pub open spec fn spec_moved_cursor(c: Point2D, input: GameInput, size: Size2D) -> Point2D {
    let x1: int = if input.left && c.0 > 0 {
        c.0 - 1
    } else {
        c.0 as int
    };
    let x2: int = if input.right {
        x1 + 1
    } else {
        x1
    };
    let y1: int = if input.up && c.1 > 0 {
        c.1 - 1
    } else {
        c.1 as int
    };
    let y2: int = if input.down {
        y1 + 1
    } else {
        y1
    };
    let xc: int = if size.0 == 0 {
        0
    } else if x2 < size.0 {
        x2
    } else {
        size.0 - 1
    };
    let yc: int = if size.1 == 0 {
        0
    } else if y2 < size.1 {
        y2
    } else {
        size.1 - 1
    };
    Point2D(xc as usize, yc as usize)
}

/// Everything one acting tick of a running round does to the board and the
/// two terminal flags, through the intermediate stages: `f1` is the board
/// after the open action (if any) at the moved cursor, `f2` the board after
/// the flag action (if any) there. The round is lost exactly on freshly
/// opening a mine, and won exactly when no closed or flagged water remains
/// after the actions; either ending reveals the whole board (`f3`), and
/// otherwise the board stays as the actions left it.
pub open spec fn game_tick_rel(
    f0: Minefield,
    f1: Minefield,
    f2: Minefield,
    f3: Minefield,
    input: GameInput,
    moved: Point2D,
    game_over: bool,
    won: bool,
) -> bool {
    let hit = input.open && spec_opens(f0, moved) && f0.cell_at(
        moved.0 as int,
        moved.1 as int,
    ).cell_type == CellType::Mine;
    &&& (if input.open {
        open_post(f0, f1, moved.0 as int, moved.1 as int)
    } else {
        f1 == f0
    })
    &&& (if input.flag {
        flag_post(f1, f2, moved.0 as int, moved.1 as int)
    } else {
        f2 == f1
    })
    &&& game_over == hit
    &&& won == (!hit && spec_only_mines_remaining(f2))
    &&& (if game_over || won {
        reveal_post(f2, f3)
    } else {
        f3 == f2
    })
}

/// There are intermediate board stages witnessing that one acting tick
/// took the board from `f0` to `f3` and set the two terminal flags by the
/// rules of `game_tick_rel`.
pub open spec fn some_tick_states(
    f0: Minefield,
    f3: Minefield,
    input: GameInput,
    moved: Point2D,
    game_over: bool,
    won: bool,
) -> bool {
    exists|f1: Minefield, f2: Minefield|
        #[trigger] game_tick_rel(f0, f1, f2, f3, input, moved, game_over, won)
}

/// One running round: the minefield, the player's cursor, and the two
/// terminal flags. Once the round is over or won, all open and flag input
/// is ignored.
pub struct Game {
    field: Minefield,
    cursor: Point2D,
    game_over: bool,
    won: bool,
}

impl Game {
    /// The board of this round.
    pub closed spec fn spec_field(&self) -> Minefield {
        self.field
    }

    /// The player's cursor.
    pub closed spec fn spec_cursor(&self) -> Point2D {
        self.cursor
    }

    /// Whether a mine was opened and the round is lost.
    pub closed spec fn spec_game_over(&self) -> bool {
        self.game_over
    }

    /// Whether every water cell was opened and the round is won.
    pub closed spec fn spec_won(&self) -> bool {
        self.won
    }

    pub open spec fn wf(&self) -> bool {
        &&& self.spec_field().wf()
        &&& !(self.spec_game_over() && self.spec_won())
        &&& cursor_clamped(self.spec_cursor(), self.spec_field().spec_size())
    }

    /// Start a round on `field` with the cursor at the origin and both
    /// terminal flags clear.
    pub fn with_minefield(field: Minefield) -> (r: Game)
        requires
            field.wf(),
        ensures
            r.wf(),
            r.spec_field() == field,
            r.spec_cursor() == Point2D(0usize, 0usize),
            !r.spec_game_over(),
            !r.spec_won(),
    {
        Game { field, cursor: Point2D::default(), game_over: false, won: false }
    }

    /// The board, for rendering.
    pub fn field(&self) -> (r: &Minefield)
        ensures
            *r == self.spec_field(),
    {
        &self.field
    }

    /// The cursor, for rendering.
    pub fn cursor(&self) -> (r: &Point2D)
        ensures
            *r == self.spec_cursor(),
    {
        &self.cursor
    }

    /// Whether the round is lost.
    pub fn is_game_over(&self) -> (r: bool)
        ensures
            r == self.spec_game_over(),
    {
        self.game_over
    }

    /// Whether the round is won.
    pub fn is_won(&self) -> (r: bool)
        ensures
            r == self.spec_won(),
    {
        self.won
    }

    /// Apply one tick of movement input to the cursor.
    fn move_cursor(&mut self, input: &GameInput)
        requires
            old(self).wf(),
        ensures
            final(self).wf(),
            final(self).field == old(self).field,
            final(self).game_over == old(self).game_over,
            final(self).won == old(self).won,
            final(self).cursor == spec_moved_cursor(
                old(self).cursor,
                *input,
                old(self).field.spec_size(),
            ),
    {
        if input.left && self.cursor.0 > 0 {
            self.cursor.0 = self.cursor.0 - 1;
        }
        if input.up && self.cursor.1 > 0 {
            self.cursor.1 = self.cursor.1 - 1;
        }
        if input.right {
            self.cursor.0 = self.cursor.0 + 1;
        }
        if input.down {
            self.cursor.1 = self.cursor.1 + 1;
        }
        let size = *self.field.size();
        self.cursor.clip_excl(&size);
    }

    /// One tick of the running round. Exit input wins over everything and
    /// changes nothing; after the round is over or won all other input is
    /// ignored. Otherwise the cursor moves, open and flag input act on the
    /// cell under it, and the round ends lost the moment a closed mine is
    /// opened, or won the moment no closed or flagged water remains; either
    /// ending reveals the whole board.
    pub fn update(&mut self, input: &GameInput) -> (exit: bool)
        requires
            old(self).wf(),
        ensures
            final(self).wf(),
            exit == input.exit,
            input.exit ==> *final(self) == *old(self),
            !input.exit && (old(self).spec_game_over() || old(self).spec_won()) ==> *final(self)
                == *old(self),
            !input.exit && !old(self).spec_game_over() && !old(self).spec_won() ==> ({
                let f0 = old(self).spec_field();
                let moved = spec_moved_cursor(old(self).spec_cursor(), *input, f0.spec_size());
                let hit_mine = input.open && spec_opens(f0, moved) && f0.cell_at(
                    moved.0 as int,
                    moved.1 as int,
                ).cell_type == CellType::Mine;
                &&& final(self).spec_cursor() == moved
                &&& final(self).spec_field().spec_size() == f0.spec_size()
                &&& forall|x: int, y: int|
                    #![trigger final(self).spec_field().cell_at(x, y)]
                    f0.in_bounds(x, y) ==> final(self).spec_field().cell_at(x, y).cell_type
                        == f0.cell_at(x, y).cell_type
                &&& final(self).spec_game_over() == hit_mine
                &&& (final(self).spec_won() ==> spec_only_mines_remaining(final(self).spec_field()))
                &&& (!final(self).spec_game_over() && !final(self).spec_won()
                    ==> !spec_only_mines_remaining(final(self).spec_field()))
                &&& ((final(self).spec_game_over() || final(self).spec_won())
                    ==> forall|x: int, y: int|
                        #![trigger final(self).spec_field().cell_at(x, y)]
                        f0.in_bounds(x, y) ==> final(self).spec_field().cell_at(
                            x,
                            y,
                        ).state != CellState::Closed)
            }),
            !input.exit && !old(self).spec_game_over() && !old(self).spec_won()
                ==> some_tick_states(
                old(self).spec_field(),
                final(self).spec_field(),
                *input,
                spec_moved_cursor(
                    old(self).spec_cursor(),
                    *input,
                    old(self).spec_field().spec_size(),
                ),
                final(self).spec_game_over(),
                final(self).spec_won(),
            ),
    {
        if input.exit {
            return true;
        }
        if self.game_over || self.won {
            return false;
        }
        self.move_cursor(input);
        let ghost f0 = self.field;
        let mut opened_type: Option<CellType> = None;
        if input.open {
            opened_type = self.field.open(&self.cursor);
        }
        let ghost f1 = self.field;
        if input.flag {
            self.field.flag(&self.cursor);
        }
        let ghost f2 = self.field;
        proof {
            if input.open {
                lemma_evolves_kinds(f0, f1);
            }
            if input.flag {
                lemma_flag_kinds(f1, f2, self.cursor.0 as int, self.cursor.1 as int);
            }
        }
        let hit = matches!(opened_type, Some(CellType::Mine));
        if hit {
            self.field.reveal_all();
            self.game_over = true;
        } else if self.field.only_mines_remaining() {
            self.field.reveal_all();
            self.won = true;
        }
        proof {
            if self.game_over || self.won {
                lemma_evolves_kinds(f2, self.field);
            }
            assert forall|x: int, y: int| f0.in_bounds(x, y) implies #[trigger] self.field.cell_at(
                x,
                y,
            ).cell_type == f0.cell_at(x, y).cell_type by {
                assert(f1.cell_at(x, y).cell_type == f0.cell_at(x, y).cell_type);
                assert(f2.cell_at(x, y).cell_type == f1.cell_at(x, y).cell_type);
            }
            let ghost moved = spec_moved_cursor(
                old(self).spec_cursor(),
                *input,
                old(self).spec_field().spec_size(),
            );
            assert(self.cursor == moved);
            assert(f0 == old(self).spec_field());
            assert(game_tick_rel(
                old(self).spec_field(),
                f1,
                f2,
                self.field,
                *input,
                moved,
                self.game_over,
                self.won,
            ));
            assert(some_tick_states(
                old(self).spec_field(),
                self.field,
                *input,
                moved,
                self.game_over,
                self.won,
            ));
        }
        false
    }
}

/// A board with no mines and no flags is trivially won once revealed: given
/// the reveal relation, `only_mines_remaining` holds of the revealed board.
pub proof fn lemma_reveal_all_trivial_win(before: Minefield, after: Minefield)
    requires
        before.wf(),
        count_mines(before@) == 0,
        forall|i: int|
            0 <= i < before@.len() ==> (#[trigger] before@[i]).state != CellState::Flagged,
        reveal_post(before, after),
    ensures
        spec_only_mines_remaining(after),
{
    assert forall|x: int, y: int|
        after.in_bounds(x, y) && after.cell_at(x, y).cell_type == CellType::Water
            implies #[trigger] after.cell_at(x, y).state == CellState::Opened by {
        lemma_flat_idx_bounds(x, y, before.spec_width(), before.spec_height());
    }
}

/// Whether `path` walks a flood-fillable region of `f` from `start`: every
/// point is in bounds, consecutive points are neighbours, every point before
/// the last is zero-neighbour water, and every point after the first is
/// closed.
pub open spec fn flood_path(f: Minefield, path: Seq<Point2D>, start: Point2D) -> bool {
    &&& path.len() >= 1
    &&& path[0] == start
    &&& forall|i: int|
        #![trigger path[i]]
        0 <= i < path.len() ==> f.in_bounds(path[i].0 as int, path[i].1 as int)
    &&& forall|i: int|
        #![trigger path[i]]
        0 <= i < path.len() - 1 ==> {
            &&& f.cell_at(path[i].0 as int, path[i].1 as int).cell_type == CellType::Water
            &&& spec_neighbour_mines(f, path[i].0 as int, path[i].1 as int) == 0
            &&& neighbours_of(path[i]).contains(path[i + 1])
        }
    &&& forall|i: int|
        #![trigger path[i]]
        1 <= i < path.len() ==> f.cell_at(path[i].0 as int, path[i].1 as int).state
            == CellState::Closed
}

proof fn lemma_flood_path_point_opened(
    before: Minefield,
    after: Minefield,
    start: Point2D,
    path: Seq<Point2D>,
    i: int,
)
    requires
        before.wf(),
        evolves_to(before, after),
        cascade_saturated(before, after),
        spec_opens(before, start),
        before.cell_at(start.0 as int, start.1 as int).cell_type == CellType::Water,
        spec_neighbour_mines(before, start.0 as int, start.1 as int) == 0,
        after.cell_at(start.0 as int, start.1 as int).state == CellState::Opened,
        flood_path(before, path, start),
        0 <= i < path.len(),
    ensures
        after.cell_at(path[i].0 as int, path[i].1 as int).state == CellState::Opened,
    decreases i,
{
    if i > 0 {
        lemma_flood_path_point_opened(before, after, start, path, i - 1);
        let p = path[i - 1];
        let px = p.0 as int;
        let py = p.1 as int;
        let q = path[i];
        let qx = q.0 as int;
        let qy = q.1 as int;
        assert(freshly_opened_zero(before, after, px, py));
        assert(neighbourhood_cleared(after, px, py));
        assert(pt(px, py) == p);
        let k = choose|k: int| 0 <= k < neighbours_of(p).len() && neighbours_of(p)[k] == q;
        assert(neighbours_of(pt(px, py))[k] == q);
        lemma_cell_le_at(before, after, qx, qy);
        assert(after.cell_at(qx, qy).state != CellState::Closed);
    }
}

/// The flood-fill cascade law: when opening freshly opens a zero-neighbour
/// water cell, every cell connected to it through closed zero-neighbour
/// water cells ends opened, including each such region's closed border
/// cells; and (by `mines_preserved_except`) the cascade never reaches into
/// a mine. The premises are what `open` ensures when it freshly opens such
/// a cell; the converse, that nothing outside the region opens, is
/// `cascade_reached` in `open_post` itself.
pub proof fn lemma_flood_fill_cascade(
    before: Minefield,
    after: Minefield,
    start: Point2D,
    path: Seq<Point2D>,
)
    requires
        before.wf(),
        open_post(before, after, start.0 as int, start.1 as int),
        spec_opens(before, start),
        before.cell_at(start.0 as int, start.1 as int).cell_type == CellType::Water,
        spec_neighbour_mines(before, start.0 as int, start.1 as int) == 0,
        flood_path(before, path, start),
    ensures
        forall|i: int|
            #![trigger path[i]]
            0 <= i < path.len() ==> after.cell_at(
                path[i].0 as int,
                path[i].1 as int,
            ).state == CellState::Opened,
{
    assert forall|i: int| 0 <= i < path.len() implies after.cell_at(
        (#[trigger] path[i]).0 as int,
        path[i].1 as int,
    ).state == CellState::Opened by {
        lemma_flood_path_point_opened(before, after, start, path, i);
    }
}

} // verus!
