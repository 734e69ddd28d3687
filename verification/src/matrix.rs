//! The dancing-links matrix and its cover / uncover primitives.
//!
//! The matrix owns its cells and columns in two vectors; every link is a
//! dense index. Column `c`'s header cell is cell `c`, so the first
//! `headers.len()` cells are header cells and all later cells are data
//! cells. The specification-level state of a matrix is a [`MatState`], and
//! the effect of every mutating operation is stated exactly over it: the
//! link surgery of a single cell is mirrored by the `spec_skip_*` and
//! `spec_restore_*` functions, and a whole cover or uncover by
//! [`spec_cover`] and [`spec_uncover`], which walk the rings just as the
//! code does, spending one unit of fuel per step.

use vstd::prelude::*;

use crate::cells::{Cell, CellRow, ColumnInfo, ColumnName};
use crate::item::Item;
use crate::queue::{spec_column_priority, ColumnPriorityQueue};

verus! {

/// A column to be: its item name and whether the column must be covered
/// exactly once (primary) or at most once (secondary).
#[derive(Debug, Clone)]
pub struct ColumnSpec<T> {
    pub name: T,
    pub primary: bool,
}

impl<T> ColumnSpec<T> {
    /// A primary column with this name.
    pub fn primary(name: T) -> (r: ColumnSpec<T>)
        ensures
            r.name == name,
            r.primary,
    {
        ColumnSpec { name, primary: true }
    }

    /// A secondary column with this name.
    pub fn secondary(name: T) -> (r: ColumnSpec<T>)
        ensures
            r.name == name,
            !r.primary,
    {
        ColumnSpec { name, primary: false }
    }
}

impl<T> From<T> for ColumnSpec<T> {
    /// A bare item value stands for a primary column.
    fn from(name: T) -> (r: ColumnSpec<T>) {
        ColumnSpec::primary(name)
    }
}

impl<T> vstd::std_specs::convert::FromSpecImpl<T> for ColumnSpec<T> {
    open spec fn obeys_from_spec() -> bool {
        true
    }

    open spec fn from_spec(name: T) -> ColumnSpec<T> {
        ColumnSpec { name, primary: true }
    }
}

/// The state of a matrix: its cells and columns, the contents of the
/// priority queue, and the row and column counts.
pub ghost struct MatState<T> {
    pub cells: Seq<Cell>,
    pub headers: Seq<ColumnInfo<T>>,
    pub queue: Map<usize, (usize, usize)>,
    pub row_count: usize,
    pub column_count: usize,
}

/// What always holds of one cell: its index is its position, its links stay
/// inside the matrix, vertical neighbours belong to the same column, a
/// header cell is its own column's header and sits in the header ring, and a
/// data cell carries a row number of a built row and sits in a ring of cells
/// of that row.
pub open spec fn cell_ok<T>(s: MatState<T>, i: int) -> bool {
    let c = s.cells[i];
    &&& c.index == i
    &&& c.up < s.cells.len()
    &&& c.down < s.cells.len()
    &&& c.left < s.cells.len()
    &&& c.right < s.cells.len()
    &&& c.header < s.headers.len()
    &&& s.cells[c.up as int].header == c.header
    &&& s.cells[c.down as int].header == c.header
    &&& (i < s.headers.len() <==> c.row is Header)
    &&& (c.row is Header ==> c.header == i && c.left < s.headers.len() && c.right
        < s.headers.len())
    &&& (c.row is Data ==> 1 <= c.row.row_number() <= s.row_count && 1 <= c.header
        && s.headers.len() <= c.left && s.headers.len() <= c.right && s.cells[c.left as int].row
        == c.row && s.cells[c.right as int].row == c.row)
}

/// What always holds of one column: its index is its position, its header
/// cell is the cell of the same index, and only the sentinel is named First.
pub open spec fn header_ok<T>(s: MatState<T>, h: int) -> bool {
    let hd = s.headers[h];
    &&& hd.index == h
    &&& hd.cell == Some(h as usize)
    &&& (h == 0 <==> hd.name is First)
    &&& (h == 0 ==> !hd.primary)
}

/// What always holds of the priority queue: it holds column indices of
/// primary columns only, each under the priority computed from the column's
/// current size.
pub open spec fn queue_ok<T>(s: MatState<T>) -> bool {
    forall|c: usize| #[trigger]
        s.queue.dom().contains(c) ==> 1 <= c < s.headers.len() && s.headers[c as int].primary
            && s.queue[c] == spec_column_priority(s.headers[c as int].size, c)
}

/// Well-formedness of a matrix state.
pub open spec fn mat_wf<T>(s: MatState<T>) -> bool {
    &&& 1 <= s.headers.len() <= s.cells.len()
    &&& s.headers.len() == s.column_count + 1
    &&& forall|i: int| 0 <= i < s.cells.len() ==> #[trigger] cell_ok(s, i)
    &&& forall|h: int| 0 <= h < s.headers.len() ==> #[trigger] header_ok(s, h)
    &&& queue_ok(s)
}

/// The cells after cell `i` is unlinked from its horizontal ring: the cell
/// to its right is told its left neighbour, then the cell to its left is
/// told its right neighbour, exactly as the code writes them.
pub open spec fn spec_skip_h(cells: Seq<Cell>, i: int) -> Seq<Cell> {
    let l = cells[i].left;
    let r = cells[i].right;
    let c1 = cells.update(r as int, Cell { left: l, ..cells[r as int] });
    c1.update(l as int, Cell { right: r, ..c1[l as int] })
}

/// The cells after cell `i` is linked back into its horizontal ring.
pub open spec fn spec_restore_h(cells: Seq<Cell>, i: int) -> Seq<Cell> {
    let l = cells[i].left;
    let r = cells[i].right;
    let c1 = cells.update(r as int, Cell { left: i as usize, ..cells[r as int] });
    c1.update(l as int, Cell { right: i as usize, ..c1[l as int] })
}

/// The cells after cell `i` is unlinked from its vertical ring.
pub open spec fn spec_skip_v(cells: Seq<Cell>, i: int) -> Seq<Cell> {
    let u = cells[i].up;
    let d = cells[i].down;
    let c1 = cells.update(d as int, Cell { up: u, ..cells[d as int] });
    c1.update(u as int, Cell { down: d, ..c1[u as int] })
}

/// The cells after cell `i` is linked back into its vertical ring.
pub open spec fn spec_restore_v(cells: Seq<Cell>, i: int) -> Seq<Cell> {
    let u = cells[i].up;
    let d = cells[i].down;
    let c1 = cells.update(d as int, Cell { up: i as usize, ..cells[d as int] });
    c1.update(u as int, Cell { down: i as usize, ..c1[u as int] })
}

/// One vertical skip with its bookkeeping, as one step of a cover: cell `j`
/// leaves its column's vertical ring, the column's size is decremented, and
/// the column is re-ranked in the queue if it is queued.
pub open spec fn state_skip_step<T>(s: MatState<T>, j: int) -> MatState<T> {
    let h = s.cells[j].header;
    let hd = s.headers[h as int];
    let hd2 = ColumnInfo { size: hd.spec_decreased(), ..hd };
    MatState {
        cells: spec_skip_v(s.cells, j),
        headers: s.headers.update(h as int, hd2),
        queue: if s.queue.dom().contains(h) {
            s.queue.insert(h, spec_column_priority(hd2.size, h))
        } else {
            s.queue
        },
        ..s
    }
}

/// One vertical restore with its bookkeeping, as one step of an uncover:
/// cell `j` re-enters its column's vertical ring, the column's size is
/// incremented, and the column is re-ranked in the queue if it is queued.
pub open spec fn state_restore_step<T>(s: MatState<T>, j: int) -> MatState<T> {
    let h = s.cells[j].header;
    let hd = s.headers[h as int];
    let hd2 = ColumnInfo { size: hd.spec_increased(), ..hd };
    MatState {
        cells: spec_restore_v(s.cells, j),
        headers: s.headers.update(h as int, hd2),
        queue: if s.queue.dom().contains(h) {
            s.queue.insert(h, spec_column_priority(hd2.size, h))
        } else {
            s.queue
        },
        ..s
    }
}

/// The state after covering one row: walking right from `cur` until the walk
/// returns to `stop` or the fuel is spent, every visited cell is skipped
/// vertically with its bookkeeping.
pub open spec fn spec_cover_row<T>(s: MatState<T>, cur: int, stop: int, fuel: nat) -> MatState<T>
    decreases fuel,
{
    if fuel == 0 {
        s
    } else {
        let nxt = s.cells[cur].right as int;
        if nxt == stop {
            s
        } else {
            spec_cover_row(state_skip_step(s, nxt), nxt, stop, (fuel - 1) as nat)
        }
    }
}

/// The state after covering the rows of a column: walking down from `cur`
/// until the walk returns to `stop` or the fuel is spent, every visited
/// row is covered.
pub open spec fn spec_cover_cols<T>(s: MatState<T>, cur: int, stop: int, fuel: nat) -> MatState<T>
    decreases fuel,
{
    if fuel == 0 {
        s
    } else {
        let nxt = s.cells[cur].down as int;
        if nxt == stop {
            s
        } else {
            spec_cover_cols(
                spec_cover_row(s, nxt, nxt, s.cells.len()),
                nxt,
                stop,
                (fuel - 1) as nat,
            )
        }
    }
}

/// The state after covering column `c`: the header cell leaves the header
/// ring, the column leaves the queue, and every row of the column is covered
/// walking down.
pub open spec fn spec_cover<T>(s: MatState<T>, c: int) -> MatState<T> {
    let s1 = MatState { cells: spec_skip_h(s.cells, c), ..s };
    let s2 = MatState { queue: s1.queue.remove(c as usize), ..s1 };
    spec_cover_cols(s2, c, c, s2.cells.len())
}

/// The state after uncovering one row: walking left from `cur`, every
/// visited cell is restored vertically with its bookkeeping.
pub open spec fn spec_uncover_row<T>(s: MatState<T>, cur: int, stop: int, fuel: nat) -> MatState<
    T,
>
    decreases fuel,
{
    if fuel == 0 {
        s
    } else {
        let nxt = s.cells[cur].left as int;
        if nxt == stop {
            s
        } else {
            spec_uncover_row(state_restore_step(s, nxt), nxt, stop, (fuel - 1) as nat)
        }
    }
}

/// The state after uncovering the rows of a column, walking up.
pub open spec fn spec_uncover_cols<T>(s: MatState<T>, cur: int, stop: int, fuel: nat) -> MatState<
    T,
>
    decreases fuel,
{
    if fuel == 0 {
        s
    } else {
        let nxt = s.cells[cur].up as int;
        if nxt == stop {
            s
        } else {
            spec_uncover_cols(
                spec_uncover_row(s, nxt, nxt, s.cells.len()),
                nxt,
                stop,
                (fuel - 1) as nat,
            )
        }
    }
}

/// The state after uncovering column `c`: the exact inverse of
/// [`spec_cover`], done in reverse order: the rows are uncovered walking up
/// and left, the header cell re-enters the header ring, and a primary column
/// is queued again under its current size.
pub open spec fn spec_uncover<T>(s: MatState<T>, c: int) -> MatState<T> {
    let s1 = spec_uncover_cols(s, c, c, s.cells.len());
    let s2 = MatState { cells: spec_restore_h(s1.cells, c), ..s1 };
    if s2.headers[c].primary {
        MatState {
            queue: s2.queue.insert(
                c as usize,
                spec_column_priority(s2.headers[c].size, c as usize),
            ),
            ..s2
        }
    } else {
        s2
    }
}

/// The four neighbour links of every cell close their rings: following any
/// link and then the opposite link of the cell it reaches leads back to the
/// cell. This is the dancing-links invariant of a fully linked structure; it
/// holds of a freshly built matrix, where every cell is live.
pub open spec fn cell_ring_closed_at(cells: Seq<Cell>, i: int) -> bool {
    &&& cells[cells[i].right as int].left == i
    &&& cells[cells[i].left as int].right == i
    &&& cells[cells[i].up as int].down == i
    &&& cells[cells[i].down as int].up == i
}

pub open spec fn rings_ok(cells: Seq<Cell>) -> bool {
    forall|i: int| 0 <= i < cells.len() ==> #[trigger] cell_ring_closed_at(cells, i)
}

/// The parts of a state that no cover or uncover touches: the counts, and
/// every cell's and column's identity fields.
pub open spec fn same_shape<T>(a: MatState<T>, b: MatState<T>) -> bool {
    &&& b.cells.len() == a.cells.len()
    &&& b.headers.len() == a.headers.len()
    &&& b.row_count == a.row_count
    &&& b.column_count == a.column_count
    &&& forall|i: int|
        0 <= i < a.cells.len() ==> (#[trigger] b.cells[i]).index == a.cells[i].index
            && b.cells[i].row == a.cells[i].row && b.cells[i].header == a.cells[i].header
    &&& forall|h: int|
        0 <= h < a.headers.len() ==> (#[trigger] b.headers[h]).index == a.headers[h].index
            && b.headers[h].name == a.headers[h].name && b.headers[h].primary
            == a.headers[h].primary && b.headers[h].cell == a.headers[h].cell
}

/// The horizontal links of data cells, which no cover or uncover touches.
pub open spec fn same_row_links<T>(a: MatState<T>, b: MatState<T>) -> bool {
    forall|i: int|
        a.headers.len() <= i < a.cells.len() ==> (#[trigger] b.cells[i]).left == a.cells[i].left
            && b.cells[i].right == a.cells[i].right
}

/// A matrix built from a column schema and rows: the sparse 0/1 matrix as a
/// toroidal structure, plus the priority queue of its primary columns.
pub struct DancingLinksMatrix<T> {
    pub(crate) row_count: usize,
    pub(crate) column_count: usize,
    pub(crate) headers: Vec<ColumnInfo<T>>,
    pub(crate) cells: Vec<Cell>,
    pub(crate) columns_queue: ColumnPriorityQueue,
}

impl<T> View for DancingLinksMatrix<T> {
    type V = MatState<T>;

    closed spec fn view(&self) -> MatState<T> {
        MatState {
            cells: self.cells@,
            headers: self.headers@,
            queue: self.columns_queue@,
            row_count: self.row_count,
            column_count: self.column_count,
        }
    }
}

impl<T> DancingLinksMatrix<T> {
    /// Assembles a matrix from its parts. Used by the builder; the parts
    /// must already form a well-formed state.
    pub(crate) fn from_parts(
        row_count: usize,
        column_count: usize,
        headers: Vec<ColumnInfo<T>>,
        cells: Vec<Cell>,
        columns_queue: ColumnPriorityQueue,
    ) -> (r: DancingLinksMatrix<T>)
        ensures
            r@ == (MatState {
                cells: cells@,
                headers: headers@,
                queue: columns_queue@,
                row_count,
                column_count,
            }),
    {
        DancingLinksMatrix { row_count, column_count, headers, cells, columns_queue }
    }

    /// The number of rows the matrix was built with.
    pub fn row_count(&self) -> (r: usize)
        ensures
            r == self@.row_count,
    {
        self.row_count
    }

    /// The number of columns the matrix was built with, the sentinel not
    /// counted.
    pub fn column_count(&self) -> (r: usize)
        ensures
            r == self@.column_count,
    {
        self.column_count
    }

    /// The number of columns, the sentinel counted.
    pub fn header_count(&self) -> (r: usize)
        ensures
            r == self@.headers.len(),
    {
        self.headers.len()
    }

    /// The number of cells, header cells counted.
    pub fn cell_count(&self) -> (r: usize)
        ensures
            r == self@.cells.len(),
    {
        self.cells.len()
    }

    /// The right link of a cell.
    pub fn cell_right(&self, i: usize) -> (r: usize)
        requires
            i < self@.cells.len(),
        ensures
            r == self@.cells[i as int].right,
    {
        self.cells[i].right
    }

    /// The left link of a cell.
    pub fn cell_left(&self, i: usize) -> (r: usize)
        requires
            i < self@.cells.len(),
        ensures
            r == self@.cells[i as int].left,
    {
        self.cells[i].left
    }

    /// The up link of a cell.
    pub fn cell_up(&self, i: usize) -> (r: usize)
        requires
            i < self@.cells.len(),
        ensures
            r == self@.cells[i as int].up,
    {
        self.cells[i].up
    }

    /// The down link of a cell.
    pub fn cell_down(&self, i: usize) -> (r: usize)
        requires
            i < self@.cells.len(),
        ensures
            r == self@.cells[i as int].down,
    {
        self.cells[i].down
    }

    /// The column that owns a cell.
    pub fn cell_header(&self, i: usize) -> (r: usize)
        requires
            i < self@.cells.len(),
        ensures
            r == self@.cells[i as int].header,
    {
        self.cells[i].header
    }

    /// The row tag of a cell.
    pub fn cell_row(&self, i: usize) -> (r: CellRow)
        requires
            i < self@.cells.len(),
        ensures
            r == self@.cells[i as int].row,
    {
        self.cells[i].row
    }

    /// The name of a column.
    pub fn header_name(&self, h: usize) -> (r: &ColumnName<T>)
        requires
            h < self@.headers.len(),
        ensures
            *r == self@.headers[h as int].name,
    {
        &self.headers[h].name
    }

    /// Whether a column is primary.
    pub fn header_primary(&self, h: usize) -> (r: bool)
        requires
            h < self@.headers.len(),
        ensures
            r == self@.headers[h as int].primary,
    {
        self.headers[h].primary
    }

    /// The current size of a column.
    pub fn header_size(&self, h: usize) -> (r: usize)
        requires
            h < self@.headers.len(),
        ensures
            r == self@.headers[h as int].size,
    {
        self.headers[h].size
    }

    /// Unlinks cell `at` from its horizontal ring: its neighbours are linked
    /// to each other, while `at` keeps its own links for a later restore.
    pub fn skip_horizontal(&mut self, at: usize)
        requires
            mat_wf(old(self)@),
            at < old(self)@.cells.len(),
        ensures
            final(self)@ == (MatState { cells: spec_skip_h(old(self)@.cells, at as int), ..old(
                self,
            )@ }),
            mat_wf(final(self)@),
    {
        proof {
            assert(cell_ok(self@, at as int));
        }
        let l = self.cells[at].left;
        let r = self.cells[at].right;
        self.cells[r].left = l;
        self.cells[l].right = r;
        proof {
            lemma_h_write_wf(old(self)@, final(self)@, at as int);
        }
    }

    /// Links cell `at` back into its horizontal ring, undoing
    /// [`Self::skip_horizontal`] when the neighbours still link each other.
    pub fn restore_horizontal(&mut self, at: usize)
        requires
            mat_wf(old(self)@),
            at < old(self)@.cells.len(),
        ensures
            final(self)@ == (MatState { cells: spec_restore_h(old(self)@.cells, at as int), ..old(
                self,
            )@ }),
            mat_wf(final(self)@),
    {
        proof {
            assert(cell_ok(self@, at as int));
        }
        let l = self.cells[at].left;
        let r = self.cells[at].right;
        self.cells[r].left = at;
        self.cells[l].right = at;
        proof {
            lemma_h_write_wf(old(self)@, final(self)@, at as int);
        }
    }

    /// Unlinks cell `at` from its vertical ring: its neighbours are linked
    /// to each other, while `at` keeps its own links for a later restore.
    pub fn skip_vertical(&mut self, at: usize)
        requires
            mat_wf(old(self)@),
            at < old(self)@.cells.len(),
        ensures
            final(self)@ == (MatState { cells: spec_skip_v(old(self)@.cells, at as int), ..old(
                self,
            )@ }),
            mat_wf(final(self)@),
    {
        proof {
            assert(cell_ok(self@, at as int));
        }
        let u = self.cells[at].up;
        let d = self.cells[at].down;
        self.cells[d].up = u;
        self.cells[u].down = d;
        proof {
            lemma_v_write_wf(old(self)@, final(self)@, at as int);
        }
    }

    /// Links cell `at` back into its vertical ring, undoing
    /// [`Self::skip_vertical`] when the neighbours still link each other.
    pub fn restore_vertical(&mut self, at: usize)
        requires
            mat_wf(old(self)@),
            at < old(self)@.cells.len(),
        ensures
            final(self)@ == (MatState { cells: spec_restore_v(old(self)@.cells, at as int), ..old(
                self,
            )@ }),
            mat_wf(final(self)@),
    {
        proof {
            assert(cell_ok(self@, at as int));
        }
        let u = self.cells[at].up;
        let d = self.cells[at].down;
        self.cells[d].up = at;
        self.cells[u].down = at;
        proof {
            lemma_v_write_wf(old(self)@, final(self)@, at as int);
        }
    }
}

impl<T> DancingLinksMatrix<T> {
    /// Covers a column: unlinks its header cell from the header ring, takes
    /// the column out of the queue, and walks the column's rows downwards,
    /// unlinking every other cell of each row from its own column's vertical
    /// ring, with sizes and queue ranks kept in step.
    pub fn cover(&mut self, column: usize)
        requires
            mat_wf(old(self)@),
            1 <= column < old(self)@.headers.len(),
        ensures
            final(self)@ == spec_cover(old(self)@, column as int),
            mat_wf(final(self)@),
            same_shape(old(self)@, final(self)@),
            same_row_links(old(self)@, final(self)@),
    {
        let ghost orig = self@;
        self.skip_horizontal(column);
        proof {
            assert(header_ok(self@, column as int));
        }
        let ghost mid = self@;
        self.columns_queue.remove(&self.headers[column]);
        let ghost target = spec_cover(orig, column as int);
        proof {
            assert(queue_ok(self@)) by {
                assert forall|c: usize| #[trigger] self@.queue.dom().contains(c) implies 1 <= c
                    < self@.headers.len() && self@.headers[c as int].primary && self@.queue[c]
                    == spec_column_priority(self@.headers[c as int].size, c) by {
                    assert(mid.queue.dom().contains(c));
                }
            }
            lemma_wf_requeue(mid, self@);
            lemma_h_write_shape(orig, mid, column as int);
            assert(same_shape(orig, self@));
            assert(same_row_links(orig, self@));
            assert(target == spec_cover_cols(
                self@,
                column as int,
                column as int,
                self@.cells.len(),
            ));
        }
        let n = self.cells.len();
        let mut cur = column;
        let mut fuel = n;
        loop
            invariant_except_break
                mat_wf(self@),
                cur < n,
                self@.cells.len() == n,
                self@.headers.len() == orig.headers.len(),
                target == spec_cover_cols(self@, cur as int, column as int, fuel as nat),
                same_shape(orig, self@),
                same_row_links(orig, self@),
            ensures
                self@ == target,
                mat_wf(self@),
                same_shape(orig, self@),
                same_row_links(orig, self@),
            decreases fuel,
        {
            let nxt = self.cells[cur].down;
            proof {
                assert(cell_ok(self@, cur as int));
            }
            if fuel == 0 || nxt == column {
                proof {
                    assert(target == self@);
                }
                break ;
            }
            let ghost row_pre = self@;
            let ghost row_target = spec_cover_row(self@, nxt as int, nxt as int, n as nat);
            let mut jcur = nxt;
            let mut jfuel = n;
            loop
                invariant_except_break
                    mat_wf(self@),
                    jcur < n,
                    nxt < n,
                    self@.cells.len() == n,
                    self@.headers.len() == orig.headers.len(),
                    row_target == spec_cover_row(self@, jcur as int, nxt as int, jfuel as nat),
                    same_shape(orig, self@),
                    same_row_links(orig, self@),
                ensures
                    self@ == row_target,
                    mat_wf(self@),
                    self@.cells.len() == n,
                    self@.headers.len() == orig.headers.len(),
                    same_shape(orig, self@),
                    same_row_links(orig, self@),
                decreases jfuel,
            {
                let jnxt = self.cells[jcur].right;
                proof {
                    assert(cell_ok(self@, jcur as int));
                }
                if jfuel == 0 || jnxt == nxt {
                    proof {
                        assert(row_target == self@);
                    }
                    break ;
                }
                let ghost pre = self@;
                proof {
                    assert(cell_ok(pre, jnxt as int));
                }
                self.skip_vertical(jnxt);
                proof {
                    assert(self@.cells.len() == n);
                }
                let h = self.cells[jnxt].header;
                proof {
                    assert(h == pre.cells[jnxt as int].header);
                }
                let hs = self.headers[h].size;
                let ns = if hs > 0 {
                    hs - 1
                } else {
                    0
                };
                self.headers[h].size = ns;
                proof {
                    assert(header_ok(pre, h as int));
                    assert(self.headers@[h as int].index == h);
                }
                self.columns_queue.change_priority(&self.headers[h]);
                proof {
                    assert(self@ == state_skip_step(pre, jnxt as int));
                    lemma_skip_step_wf(pre, jnxt as int);
                    assert(same_shape(orig, self@));
                    assert(same_row_links(orig, self@));
                }
                jcur = jnxt;
                jfuel = jfuel - 1;
            }
            proof {
                assert(target == spec_cover_cols(
                    self@,
                    nxt as int,
                    column as int,
                    (fuel - 1) as nat,
                ));
            }
            cur = nxt;
            fuel = fuel - 1;
        }
    }

    /// Uncovers a column: the exact inverse of [`Self::cover`], done in
    /// reverse order. The column's rows are walked upwards and each row's
    /// other cells are relinked walking left; then the header cell re-enters
    /// the header ring, and a primary column is queued again.
    pub fn uncover(&mut self, column: usize)
        requires
            mat_wf(old(self)@),
            1 <= column < old(self)@.headers.len(),
        ensures
            final(self)@ == spec_uncover(old(self)@, column as int),
            mat_wf(final(self)@),
            same_shape(old(self)@, final(self)@),
            same_row_links(old(self)@, final(self)@),
    {
        let ghost orig = self@;
        let ghost target = spec_uncover_cols(orig, column as int, column as int, orig.cells.len());
        let n = self.cells.len();
        let mut cur = column;
        let mut fuel = n;
        loop
            invariant_except_break
                mat_wf(self@),
                cur < n,
                column < self@.headers.len(),
                self@.cells.len() == n,
                self@.headers.len() == orig.headers.len(),
                target == spec_uncover_cols(self@, cur as int, column as int, fuel as nat),
                same_shape(orig, self@),
                same_row_links(orig, self@),
            ensures
                self@ == target,
                mat_wf(self@),
                column < self@.headers.len(),
                same_shape(orig, self@),
                same_row_links(orig, self@),
            decreases fuel,
        {
            let nxt = self.cells[cur].up;
            proof {
                assert(cell_ok(self@, cur as int));
            }
            if fuel == 0 || nxt == column {
                proof {
                    assert(target == self@);
                }
                break ;
            }
            let ghost row_target = spec_uncover_row(self@, nxt as int, nxt as int, n as nat);
            let mut jcur = nxt;
            let mut jfuel = n;
            loop
                invariant_except_break
                    mat_wf(self@),
                    jcur < n,
                    nxt < n,
                    self@.cells.len() == n,
                    self@.headers.len() == orig.headers.len(),
                    row_target == spec_uncover_row(self@, jcur as int, nxt as int, jfuel as nat),
                    same_shape(orig, self@),
                    same_row_links(orig, self@),
                ensures
                    self@ == row_target,
                    mat_wf(self@),
                    self@.cells.len() == n,
                    self@.headers.len() == orig.headers.len(),
                    same_shape(orig, self@),
                    same_row_links(orig, self@),
                decreases jfuel,
            {
                let jnxt = self.cells[jcur].left;
                proof {
                    assert(cell_ok(self@, jcur as int));
                }
                if jfuel == 0 || jnxt == nxt {
                    proof {
                        assert(row_target == self@);
                    }
                    break ;
                }
                let ghost pre = self@;
                proof {
                    assert(cell_ok(pre, jnxt as int));
                }
                self.restore_vertical(jnxt);
                proof {
                    assert(self@.cells.len() == n);
                }
                let h = self.cells[jnxt].header;
                proof {
                    assert(h == pre.cells[jnxt as int].header);
                }
                let hs = self.headers[h].size;
                let ns = if hs < usize::MAX {
                    hs + 1
                } else {
                    usize::MAX
                };
                self.headers[h].size = ns;
                proof {
                    assert(header_ok(pre, h as int));
                    assert(self.headers@[h as int].index == h);
                }
                self.columns_queue.change_priority(&self.headers[h]);
                proof {
                    assert(self@ == state_restore_step(pre, jnxt as int));
                    lemma_restore_step_wf(pre, jnxt as int);
                    assert(same_shape(orig, self@));
                    assert(same_row_links(orig, self@));
                }
                jcur = jnxt;
                jfuel = jfuel - 1;
            }
            proof {
                assert(target == spec_uncover_cols(
                    self@,
                    nxt as int,
                    column as int,
                    (fuel - 1) as nat,
                ));
            }
            cur = nxt;
            fuel = fuel - 1;
        }
        let ghost walked = self@;
        self.restore_horizontal(column);
        proof {
            assert(header_ok(self@, column as int));
            lemma_h_write_shape(walked, self@, column as int);
        }
        let ghost relinked = self@;
        if self.header_primary(column) {
            self.columns_queue.push(&self.headers[column]);
            proof {
                assert(queue_ok(self@)) by {
                    assert forall|c: usize| #[trigger] self@.queue.dom().contains(c) implies 1 <= c
                        < self@.headers.len() && self@.headers[c as int].primary && self@.queue[c]
                        == spec_column_priority(self@.headers[c as int].size, c) by {
                        if c != column {
                            assert(relinked.queue.dom().contains(c));
                        }
                    }
                }
                lemma_wf_requeue(relinked, self@);
            }
        }
        proof {
            assert(same_shape(old(self)@, self@));
            assert(same_row_links(old(self)@, self@));
        }
    }
}

/// One cover step preserves well-formedness: the vertical surgery keeps the
/// rings consistent, and the re-ranking keeps the queue in step with the
/// decremented size.
proof fn lemma_skip_step_wf<T>(s: MatState<T>, j: int)
    requires
        mat_wf(s),
        0 <= j < s.cells.len(),
    ensures
        mat_wf(state_skip_step(s, j)),
        same_shape(s, state_skip_step(s, j)),
        same_row_links(s, state_skip_step(s, j)),
{
    let s2 = state_skip_step(s, j);
    assert(cell_ok(s, j));
    assert forall|i: int| 0 <= i < s2.cells.len() implies #[trigger] cell_ok(s2, i) by {
        assert(cell_ok(s, i));
        assert(cell_ok(s, s.cells[i].up as int));
        assert(cell_ok(s, s.cells[i].down as int));
    }
    assert forall|h: int| 0 <= h < s2.headers.len() implies #[trigger] header_ok(s2, h) by {
        assert(header_ok(s, h));
    }
    assert(queue_ok(s2)) by {
        assert forall|c: usize| #[trigger] s2.queue.dom().contains(c) implies 1 <= c
            < s2.headers.len() && s2.headers[c as int].primary && s2.queue[c]
            == spec_column_priority(s2.headers[c as int].size, c) by {
            assert(s.queue.dom().contains(c));
        }
    }
}

/// One uncover step preserves well-formedness.
proof fn lemma_restore_step_wf<T>(s: MatState<T>, j: int)
    requires
        mat_wf(s),
        0 <= j < s.cells.len(),
    ensures
        mat_wf(state_restore_step(s, j)),
        same_shape(s, state_restore_step(s, j)),
        same_row_links(s, state_restore_step(s, j)),
{
    let s2 = state_restore_step(s, j);
    assert(cell_ok(s, j));
    assert forall|i: int| 0 <= i < s2.cells.len() implies #[trigger] cell_ok(s2, i) by {
        assert(cell_ok(s, i));
        assert(cell_ok(s, s.cells[i].up as int));
        assert(cell_ok(s, s.cells[i].down as int));
    }
    assert forall|h: int| 0 <= h < s2.headers.len() implies #[trigger] header_ok(s2, h) by {
        assert(header_ok(s, h));
    }
    assert(queue_ok(s2)) by {
        assert forall|c: usize| #[trigger] s2.queue.dom().contains(c) implies 1 <= c
            < s2.headers.len() && s2.headers[c as int].primary && s2.queue[c]
            == spec_column_priority(s2.headers[c as int].size, c) by {
            assert(s.queue.dom().contains(c));
        }
    }
}

/// The least column index at or after `from` whose name is the given item,
/// or nothing when no column matches. The sentinel never matches.
pub open spec fn spec_locate_header<T: Item>(
    headers: Seq<ColumnInfo<T>>,
    v: T,
    from: int,
) -> Option<usize>
    decreases headers.len() - from,
{
    if from < 0 || from >= headers.len() {
        None
    } else {
        match headers[from].name {
            ColumnName::First => spec_locate_header(headers, v, from + 1),
            ColumnName::Other(n) => if n.eqv(v) {
                Some(from as usize)
            } else {
                spec_locate_header(headers, v, from + 1)
            },
        }
    }
}

/// The first cell with the given row tag on the downward walk from `cur`,
/// the starting cell included, the walk ending when it would return to
/// `stop` or when the fuel is spent.
pub open spec fn spec_find_down(
    cells: Seq<Cell>,
    cur: int,
    stop: int,
    row: CellRow,
    fuel: nat,
) -> Option<usize>
    decreases fuel,
{
    if cells[cur].row == row {
        Some(cur as usize)
    } else if fuel == 0 {
        None
    } else {
        let nxt = cells[cur].down as int;
        if nxt == stop {
            None
        } else {
            spec_find_down(cells, nxt, stop, row, (fuel - 1) as nat)
        }
    }
}

/// A column is the queue's minimum: queued, of least size among the queued
/// columns, the least index among those of that size.
pub open spec fn is_queue_min<T>(s: MatState<T>, c: usize) -> bool {
    s.queue.dom().contains(c) && forall|j: usize| #[trigger]
        s.queue.dom().contains(j) ==> s.headers[c as int].size < s.headers[j as int].size || (
        s.headers[c as int].size == s.headers[j as int].size && c <= j)
}

/// The column a minimum-size choice takes: the unique queue minimum, or
/// nothing when the queue is empty.
pub open spec fn spec_min_column<T>(s: MatState<T>) -> Option<usize> {
    if exists|c: usize| s.queue.dom().contains(c) {
        Some(choose|c: usize| is_queue_min(s, c))
    } else {
        None
    }
}

/// The header cells of the top ring, walking right from `cur` until the
/// walk reaches the sentinel or the fuel is spent, `cur` itself included.
pub open spec fn spec_top_ring<T>(s: MatState<T>, cur: int, fuel: nat) -> Seq<usize>
    decreases fuel,
{
    if cur == 0 || fuel == 0 {
        Seq::empty()
    } else {
        seq![cur as usize] + spec_top_ring(s, s.cells[cur].right as int, (fuel - 1) as nat)
    }
}

/// The header cells currently linked into the top ring, the sentinel
/// excluded: those reached walking right from the sentinel.
pub open spec fn top_ring<T>(s: MatState<T>) -> Seq<usize> {
    spec_top_ring(s, s.cells[0].right as int, s.cells.len())
}

/// The cell found by looking a row up by column name: the first cell of the
/// given data row on the downward walk from the matching column's header.
pub open spec fn spec_locate_cell<T: Item>(s: MatState<T>, row: usize, v: T) -> Option<usize> {
    match spec_locate_header(s.headers, v, 0) {
        None => None,
        Some(h) => spec_find_down(s.cells, h as int, h as int, CellRow::Data(row), s.cells.len()),
    }
}

/// The names of the cells of row `rnum` among the first `n` cells, in cell
/// order: for each data cell of that row, the item name of its column.
pub open spec fn row_names_upto<T>(s: MatState<T>, rnum: usize, n: int) -> Seq<T>
    decreases n,
{
    if n <= 0 {
        Seq::empty()
    } else {
        let prefix = row_names_upto(s, rnum, n - 1);
        if s.cells[n - 1].row == CellRow::Data(rnum) {
            prefix.push(s.headers[s.cells[n - 1].header as int].name->Other_0)
        } else {
            prefix
        }
    }
}

/// The names of the cells of row `rnum`, in cell order.
pub open spec fn row_names<T>(s: MatState<T>, rnum: usize) -> Seq<T> {
    row_names_upto(s, rnum, s.cells.len() as int)
}

impl<T> DancingLinksMatrix<T> {
    /// The queued primary column of least size, ties broken towards the
    /// least column index; nothing exactly when the queue is empty.
    pub fn min_column(&self) -> (r: Option<usize>)
        requires
            mat_wf(self@),
        ensures
            r == spec_min_column(self@),
            match r {
                None => self@.queue.dom() == Set::<usize>::empty(),
                Some(c) => self@.queue.dom().contains(c) && 1 <= c < self@.headers.len()
                    && self@.headers[c as int].primary && forall|j: usize| #[trigger]
                    self@.queue.dom().contains(j) ==> self@.headers[c as int].size
                    < self@.headers[j as int].size || (self@.headers[c as int].size
                    == self@.headers[j as int].size && c <= j),
            },
    {
        match self.columns_queue.peek() {
            None => {
                proof {
                    assert(forall|c: usize| !(#[trigger] self@.queue.dom().contains(c)));
                }
                None
            },
            Some((c, p)) => {
                proof {
                    assert(self@.queue.dom().contains(c));
                    assert forall|j: usize| #[trigger] self@.queue.dom().contains(j) implies self@
                        .headers[c as int].size < self@.headers[j as int].size || (self@.headers[c
                        as int].size == self@.headers[j as int].size && c <= j) by {
                        assert(crate::queue::prio_le(self@.queue[j], p));
                    }
                    assert(is_queue_min(self@, c));
                    let c2 = choose|cc: usize| is_queue_min(self@, cc);
                    assert(is_queue_min(self@, c2));
                    assert(c == c2);
                }
                Some(c)
            },
        }
    }

    /// A column whose header cell is linked into the top ring, drawn at
    /// random from the headers reachable walking right from the sentinel;
    /// nothing exactly when the sentinel's right link points back at the
    /// sentinel.
    pub fn random_column(&self) -> (r: Option<usize>)
        requires
            mat_wf(self@),
        ensures
            match r {
                None => self@.cells[0].right == 0,
                Some(c) => 1 <= c < self@.headers.len() && self@.cells[0].right != 0 && top_ring(
                    self@,
                ).contains(c),
            },
    {
        proof {
            assert(cell_ok(self@, 0));
        }
        let n = self.cells.len();
        let ghost whole = top_ring(self@);
        let mut members: Vec<usize> = Vec::new();
        let mut cur = self.cells[0].right;
        let mut fuel = n;
        proof {
            assert(whole =~= members@ + spec_top_ring(self@, cur as int, fuel as nat));
        }
        while cur != 0 && fuel > 0
            invariant
                mat_wf(self@),
                cur < self@.headers.len(),
                members@.len() + fuel == n,
                whole == top_ring(self@),
                whole == members@ + spec_top_ring(self@, cur as int, fuel as nat),
                members@.len() == 0 ==> cur == self@.cells[0].right,
                members@.len() > 0 ==> self@.cells[0].right != 0,
                forall|k: int|
                    0 <= k < members@.len() ==> 1 <= #[trigger] members@[k]
                        < self@.headers.len(),
            decreases fuel,
        {
            let ghost pre_members = members@;
            members.push(cur);
            proof {
                assert(cell_ok(self@, cur as int));
                assert(spec_top_ring(self@, cur as int, fuel as nat) == seq![cur]
                    + spec_top_ring(
                    self@,
                    self@.cells[cur as int].right as int,
                    (fuel - 1) as nat,
                ));
                assert(whole =~= pre_members.push(cur) + spec_top_ring(
                    self@,
                    self@.cells[cur as int].right as int,
                    (fuel - 1) as nat,
                ));
            }
            cur = self.cells[cur].right;
            fuel = fuel - 1;
        }
        proof {
            assert(spec_top_ring(self@, cur as int, fuel as nat) =~= Seq::<usize>::empty());
            assert(whole =~= members@);
        }
        if members.len() == 0 {
            None
        } else {
            let pick = random_below(members.len());
            proof {
                assert(whole[pick as int] == members@[pick as int]);
            }
            Some(members[pick])
        }
    }

    /// The index of the first column, scanning by index, whose name is the
    /// given item.
    pub fn locate_header(&self, name: &T) -> (r: Option<usize>) where T: Item
        requires
            mat_wf(self@),
        ensures
            r == spec_locate_header(self@.headers, *name, 0),
    {
        let mut h: usize = 0;
        let len = self.headers.len();
        while h < len
            invariant
                mat_wf(self@),
                len == self@.headers.len(),
                h <= len,
                spec_locate_header(self@.headers, *name, 0) == spec_locate_header(
                    self@.headers,
                    *name,
                    h as int,
                ),
            decreases len - h,
        {
            match self.headers[h].name.get_name() {
                Some(n) => if n.same(name) {
                    return Some(h);
                },
                None => {},
            }
            h = h + 1;
        }
        None
    }

    /// The first cell of the given data row on the downward walk from the
    /// header cell of the column named by the given item; nothing when no
    /// column matches or the walk finds no such cell.
    pub fn locate_cell(&self, row: usize, name: &T) -> (r: Option<usize>) where T: Item
        requires
            mat_wf(self@),
        ensures
            r == spec_locate_cell(self@, row, *name),
    {
        let target = CellRow::Data(row);
        match self.locate_header(name) {
            None => None,
            Some(h) => {
                let hl = self.headers.len();
                proof {
                    assert(self@.headers.len() == hl);
                    lemma_locate_header_in_range(self@.headers, *name, 0);
                }
                let n = self.cells.len();
                let mut cur = h;
                let mut fuel = n;
                loop
                    invariant
                        mat_wf(self@),
                        cur < self@.cells.len(),
                        self@.cells.len() == n,
                        h < self@.cells.len(),
                        target == CellRow::Data(row),
                        spec_locate_header(self@.headers, *name, 0) == Some(h),
                        spec_find_down(self@.cells, h as int, h as int, target, n as nat)
                            == spec_find_down(
                            self@.cells,
                            cur as int,
                            h as int,
                            target,
                            fuel as nat,
                        ),
                    decreases fuel,
                {
                    if self.cells[cur].row == target {
                        proof {
                            assert(spec_find_down(
                                self@.cells,
                                cur as int,
                                h as int,
                                target,
                                fuel as nat,
                            ) == Some(cur));
                        }
                        return Some(cur);
                    }
                    proof {
                        assert(cell_ok(self@, cur as int));
                    }
                    let nxt = self.cells[cur].down;
                    if fuel == 0 || nxt == h {
                        proof {
                            assert(spec_find_down(
                                self@.cells,
                                cur as int,
                                h as int,
                                target,
                                fuel as nat,
                            ) is None);
                            assert(spec_locate_cell(self@, row, *name) is None);
                        }
                        return None;
                    }
                    cur = nxt;
                    fuel = fuel - 1;
                }
            },
        }
    }

    /// The rows the matrix was built from, each as the list of its item
    /// names in cell order; row `k` of the result is data row `k + 1`.
    pub fn iter_rows(&self) -> (r: Vec<Vec<T>>) where T: Item
        requires
            mat_wf(self@),
        ensures
            r@.len() == self@.row_count,
            forall|k: int|
                0 <= k < r@.len() ==> #[trigger] r@[k]@ == row_names(
                    self@,
                    (k + 1) as usize,
                ),
    {
        let rc = self.row_count;
        let n = self.cells.len();
        let mut out: Vec<Vec<T>> = Vec::new();
        for k in 0..rc
            invariant
                mat_wf(self@),
                rc == self@.row_count,
                n == self@.cells.len(),
                out@.len() == k,
                forall|j: int|
                    0 <= j < k ==> #[trigger] out@[j]@ == row_names(self@, (j + 1) as usize),
        {
            let rnum = k + 1;
            let mut names: Vec<T> = Vec::new();
            for i in 0..n
                invariant
                    mat_wf(self@),
                    rc == self@.row_count,
                    n == self@.cells.len(),
                    names@ == row_names_upto(self@, rnum, i as int),
            {
                if self.cells[i].row == CellRow::Data(rnum) {
                    proof {
                        assert(cell_ok(self@, i as int));
                    }
                    let h = self.cells[i].header;
                    proof {
                        assert(header_ok(self@, h as int));
                    }
                    match self.headers[h].name.get_name() {
                        Some(nm) => {
                            names.push(nm.duplicate());
                        },
                        None => {
                            proof {
                                assert(false);
                            }
                        },
                    }
                }
            }
            out.push(names);
        }
        out
    }
}

/// A located header index lies among the columns.
proof fn lemma_locate_header_in_range<T: Item>(headers: Seq<ColumnInfo<T>>, v: T, from: int)
    requires
        headers.len() <= usize::MAX,
    ensures
        match spec_locate_header(headers, v, from) {
            None => true,
            Some(h) => from <= h < headers.len(),
        },
    decreases headers.len() - from,
{
    if 0 <= from < headers.len() {
        lemma_locate_header_in_range(headers, v, from + 1);
        match headers[from].name {
            ColumnName::First => {
                assert(spec_locate_header(headers, v, from) == spec_locate_header(
                    headers,
                    v,
                    from + 1,
                ));
            },
            ColumnName::Other(n) => {
                if !n.eqv(v) {
                    assert(spec_locate_header(headers, v, from) == spec_locate_header(
                        headers,
                        v,
                        from + 1,
                    ));
                }
            },
        }
    } else {
        assert(spec_locate_header(headers, v, from) is None);
    }
}

/// Relies on rand::thread_rng and rand::Rng::gen_range: a number drawn
/// uniformly below the bound, so always below the bound.
#[verifier::external_body]
fn random_below(n: usize) -> (r: usize)
    requires
        n > 0,
    ensures
        r < n,
{
    rand::Rng::gen_range(&mut rand::thread_rng(), 0..n)
}

/// A change of the queue alone preserves well-formedness, provided the new
/// queue is itself in step with the columns.
proof fn lemma_wf_requeue<T>(a: MatState<T>, b: MatState<T>)
    requires
        mat_wf(a),
        b.cells == a.cells,
        b.headers == a.headers,
        b.row_count == a.row_count,
        b.column_count == a.column_count,
        queue_ok(b),
    ensures
        mat_wf(b),
{
    assert forall|i: int| 0 <= i < b.cells.len() implies #[trigger] cell_ok(b, i) by {
        assert(cell_ok(a, i));
    }
    assert forall|h: int| 0 <= h < b.headers.len() implies #[trigger] header_ok(b, h) by {
        assert(header_ok(a, h));
    }
}

/// Horizontal link surgery around a header cell leaves every cell's identity
/// fields and every data cell's row links alone.
proof fn lemma_h_write_shape<T>(s: MatState<T>, s2: MatState<T>, at: int)
    requires
        mat_wf(s),
        0 <= at < s.headers.len(),
        s2.headers == s.headers,
        s2.row_count == s.row_count,
        s2.column_count == s.column_count,
        s2.cells == spec_skip_h(s.cells, at) || s2.cells == spec_restore_h(s.cells, at),
    ensures
        same_shape(s, s2),
        same_row_links(s, s2),
{
    assert(cell_ok(s, at));
}

/// Horizontal link surgery around a cell preserves well-formedness: the two
/// rewritten links aim at cells of the same ring.
proof fn lemma_h_write_wf<T>(s: MatState<T>, s2: MatState<T>, at: int)
    requires
        mat_wf(s),
        0 <= at < s.cells.len(),
        s2.headers == s.headers,
        s2.queue == s.queue,
        s2.row_count == s.row_count,
        s2.column_count == s.column_count,
        s2.cells == spec_skip_h(s.cells, at) || s2.cells == spec_restore_h(s.cells, at),
    ensures
        mat_wf(s2),
{
    assert(cell_ok(s, at));
    let l = s.cells[at].left as int;
    let r = s.cells[at].right as int;
    assert(cell_ok(s, l));
    assert(cell_ok(s, r));
    assert forall|i: int| 0 <= i < s2.cells.len() implies #[trigger] cell_ok(s2, i) by {
        assert(cell_ok(s, i));
        assert(cell_ok(s, s.cells[i].left as int));
        assert(cell_ok(s, s.cells[i].right as int));
    }
    assert forall|h: int| 0 <= h < s2.headers.len() implies #[trigger] header_ok(s2, h) by {
        assert(header_ok(s, h));
    }
    assert(queue_ok(s2)) by {
        assert forall|c: usize| #[trigger] s2.queue.dom().contains(c) implies 1 <= c
            < s2.headers.len() && s2.headers[c as int].primary && s2.queue[c]
            == spec_column_priority(s2.headers[c as int].size, c) by {
            assert(s.queue.dom().contains(c));
        }
    }
}

/// Vertical link surgery around a cell preserves well-formedness.
proof fn lemma_v_write_wf<T>(s: MatState<T>, s2: MatState<T>, at: int)
    requires
        mat_wf(s),
        0 <= at < s.cells.len(),
        s2.headers == s.headers,
        s2.queue == s.queue,
        s2.row_count == s.row_count,
        s2.column_count == s.column_count,
        s2.cells == spec_skip_v(s.cells, at) || s2.cells == spec_restore_v(s.cells, at),
    ensures
        mat_wf(s2),
{
    assert(cell_ok(s, at));
    let u = s.cells[at].up as int;
    let d = s.cells[at].down as int;
    assert(cell_ok(s, u));
    assert(cell_ok(s, d));
    assert forall|i: int| 0 <= i < s2.cells.len() implies #[trigger] cell_ok(s2, i) by {
        assert(cell_ok(s, i));
        assert(cell_ok(s, s.cells[i].up as int));
        assert(cell_ok(s, s.cells[i].down as int));
    }
    assert forall|h: int| 0 <= h < s2.headers.len() implies #[trigger] header_ok(s2, h) by {
        assert(header_ok(s, h));
    }
    assert(queue_ok(s2)) by {
        assert forall|c: usize| #[trigger] s2.queue.dom().contains(c) implies 1 <= c
            < s2.headers.len() && s2.headers[c as int].primary && s2.queue[c]
            == spec_column_priority(s2.headers[c as int].size, c) by {
            assert(s.queue.dom().contains(c));
        }
    }
}

} // verus!
