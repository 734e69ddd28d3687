//! Two-phase construction of a matrix: columns first, then rows.
//!
//! The column phase creates the sentinel column and one column per
//! specification, each with a self-linked header cell, and threads the
//! sentinel and the primary headers into one horizontal ring. The row phase
//! appends one data cell per referenced column for each row: the cell is
//! hung at the bottom of its column's vertical ring, and the row's cells are
//! threaded into one horizontal ring. The contracts state the new cells and
//! the patched links exactly.

use vstd::map::*;
use vstd::prelude::*;

use crate::cells::{Cell, CellRow, ColumnInfo, ColumnName, ProtoCell, ProtoColumn};
use crate::item::Item;
use crate::matrix::{mat_wf, ColumnSpec, DancingLinksMatrix};
use crate::queue::{spec_column_priority, ColumnPriorityQueue};

verus! {

/// The cells after the link from `a` rightwards to `b` is recorded: `a` is
/// told its right neighbour, then `b` its left one, in the order the code
/// writes them.
pub open spec fn spec_plink_h(cells: Seq<ProtoCell>, a: int, b: int) -> Seq<ProtoCell> {
    let c1 = cells.update(a, ProtoCell { right: b as usize, ..cells[a] });
    c1.update(b, ProtoCell { left: a as usize, ..c1[b] })
}

/// The cells after the link from `a` downwards to `b` is recorded.
pub open spec fn spec_plink_v(cells: Seq<ProtoCell>, a: int, b: int) -> Seq<ProtoCell> {
    let c1 = cells.update(a, ProtoCell { down: b as usize, ..cells[a] });
    c1.update(b, ProtoCell { up: a as usize, ..c1[b] })
}

/// What always holds of one cell under construction; the data-row numbers
/// stay below the bound `rows`.
pub open spec fn pcell_ok(
    cells: Seq<ProtoCell>,
    n_columns: int,
    rows: int,
    i: int,
) -> bool {
    let c = cells[i];
    &&& c.index == i
    &&& c.up < cells.len()
    &&& c.down < cells.len()
    &&& c.left < cells.len()
    &&& c.right < cells.len()
    &&& c.column < n_columns
    &&& cells[c.up as int].column == c.column
    &&& cells[c.down as int].column == c.column
    &&& (i < n_columns <==> c.row is Header)
    &&& (c.row is Header ==> c.column == i && c.left < n_columns && c.right < n_columns)
    &&& (c.row is Data ==> 1 <= c.row.row_number() <= rows && 1 <= c.column && n_columns
        <= c.left && n_columns <= c.right && cells[c.left as int].row == c.row
        && cells[c.right as int].row == c.row)
}

/// Well-formedness of a matrix under construction, with `rows` bounding the
/// data-row numbers.
pub open spec fn proto_wf<T>(
    cells: Seq<ProtoCell>,
    columns: Seq<ProtoColumn<T>>,
    rows: int,
) -> bool {
    &&& 1 <= columns.len() <= cells.len()
    &&& forall|i: int| 0 <= i < cells.len() ==> #[trigger] pcell_ok(cells, columns.len() as int, rows, i)
    &&& forall|c: int|
        0 <= c < columns.len() ==> (#[trigger] columns[c]).index == c && (c == 0 <==> columns[c].name
            is First) && (c == 0 ==> !columns[c].primary) && columns[c].size < cells.len()
}

/// The four neighbour links all close their rings: following any link and
/// the opposite link of the cell it reaches leads back to the cell. This is
/// the dancing-links invariant of a fully linked structure; it holds of a
/// freshly built matrix, where every cell is live.
pub open spec fn ring_closed_at(cells: Seq<ProtoCell>, i: int) -> bool {
    &&& cells[cells[i].right as int].left == i
    &&& cells[cells[i].left as int].right == i
    &&& cells[cells[i].up as int].down == i
    &&& cells[cells[i].down as int].up == i
}

pub open spec fn proto_rings_ok(cells: Seq<ProtoCell>) -> bool {
    forall|i: int| 0 <= i < cells.len() ==> #[trigger] ring_closed_at(cells, i)
}

/// The header indices threaded into the horizontal header ring after the
/// first `k` column specifications: the sentinel and every primary column.
pub open spec fn prim_seq_upto<T>(specs: Seq<ColumnSpec<T>>, k: int) -> Seq<usize>
    decreases k,
{
    if k <= 0 {
        seq![0usize]
    } else {
        let p = prim_seq_upto(specs, k - 1);
        if specs[k - 1].primary {
            p.push(k as usize)
        } else {
            p
        }
    }
}

/// The header ring of a full column schema.
pub open spec fn prim_seq<T>(specs: Seq<ColumnSpec<T>>) -> Seq<usize> {
    prim_seq_upto(specs, specs.len() as int)
}

/// The ring sequence grows along the schema, stays strictly increasing and
/// bounded, starts at the sentinel, and holds exactly the sentinel and the
/// primary columns.
pub proof fn lemma_prim_seq_props<T>(specs: Seq<ColumnSpec<T>>, k: int)
    requires
        0 <= k <= specs.len(),
        specs.len() <= usize::MAX,
    ensures
        prim_seq_upto(specs, k).len() >= 1,
        prim_seq_upto(specs, k)[0] == 0,
        forall|j: int|
            0 <= j < prim_seq_upto(specs, k).len() ==> #[trigger] prim_seq_upto(specs, k)[j] <= k,
        forall|j1: int, j2: int|
            0 <= j1 < j2 < prim_seq_upto(specs, k).len() ==> prim_seq_upto(specs, k)[j1]
                < prim_seq_upto(specs, k)[j2],
        forall|j: int|
            0 <= j < prim_seq_upto(specs, k).len() ==> (#[trigger] prim_seq_upto(specs, k)[j] == 0
                || specs[prim_seq_upto(specs, k)[j] - 1].primary),
        forall|c: int|
            1 <= c <= k && (#[trigger] specs[c - 1]).primary ==> prim_seq_upto(specs, k).contains(
                c as usize,
            ),
    decreases k,
{
    if k > 0 {
        lemma_prim_seq_props(specs, k - 1);
        let p = prim_seq_upto(specs, k - 1);
        let q = prim_seq_upto(specs, k);
        if specs[k - 1].primary {
            assert(q == p.push(k as usize));
            assert forall|j: int| 0 <= j < q.len() implies #[trigger] q[j] <= k by {
                if j < p.len() {
                    assert(q[j] == p[j]);
                } else {
                    assert(q[j] == k as usize);
                }
            }
            assert forall|j: int|
                0 <= j < q.len() implies #[trigger] q[j] == 0 || specs[q[j] - 1].primary by {
                if j < p.len() {
                    assert(q[j] == p[j]);
                } else {
                    assert(q[j] == k as usize);
                }
            }
            assert forall|j1: int, j2: int| 0 <= j1 < j2 < q.len() implies q[j1] < q[j2] by {
                if j2 < p.len() {
                    assert(q[j1] == p[j1] && q[j2] == p[j2]);
                } else {
                    assert(q[j1] == p[j1]);
                    assert(q[j2] == k as usize);
                    assert(p[j1] <= k - 1);
                }
            }
        } else {
            assert(q == p);
        }
        if specs[k - 1].primary {
            assert forall|c: int|
                1 <= c <= k && (#[trigger] specs[c - 1]).primary implies prim_seq_upto(
                specs,
                k,
            ).contains(c as usize) by {
                if c < k {
                    let j = choose|j: int| 0 <= j < p.len() && p[j] == c as usize;
                    assert(p.push(k as usize)[j] == c as usize);
                } else {
                    assert(p.push(k as usize)[p.len() as int] == k as usize);
                }
            }
        } else {
            assert forall|c: int|
                1 <= c <= k && (#[trigger] specs[c - 1]).primary implies prim_seq_upto(
                specs,
                k,
            ).contains(c as usize) by {
                let j = choose|j: int| 0 <= j < p.len() && p[j] == c as usize;
            }
        }
    }
}

/// A matrix being built: the counts, the columns so far, and the cells so
/// far, linked by index.
pub struct ProtoMatrix<T> {
    pub row_count: usize,
    pub column_count: usize,
    pub columns: Vec<ProtoColumn<T>>,
    pub cells: Vec<ProtoCell>,
}

impl<T> ProtoMatrix<T> {
    /// Well-formedness of the matrix being built, between rows.
    pub open spec fn wf(&self) -> bool {
        &&& proto_wf(self.cells@, self.columns@, self.row_count as int)
        &&& self.columns@.len() == self.column_count + 1
    }

    /// Adds a fresh, self-linked cell and returns its index.
    pub fn add_cell(&mut self, column: usize, row: CellRow) -> (r: usize)
        ensures
            r == old(self).cells@.len(),
            final(self).cells@ == old(self).cells@.push(
                (ProtoCell {
                    index: r,
                    up: r,
                    down: r,
                    left: r,
                    right: r,
                    column,
                    row,
                }),
            ),
            final(self).columns == old(self).columns,
            final(self).row_count == old(self).row_count,
            final(self).column_count == old(self).column_count,
    {
        let cell_index = self.cells.len();
        self.cells.push(ProtoCell::new(cell_index, column, row));
        cell_index
    }

    /// Adds a column with its self-linked header cell and returns its index;
    /// during the column phase column `c`'s header cell is cell `c`.
    pub fn add_column(&mut self, name: ColumnName<T>, primary: bool) -> (r: usize)
        requires
            old(self).cells@.len() == old(self).columns@.len(),
        ensures
            r == old(self).columns@.len(),
            final(self).cells@ == old(self).cells@.push(
                (ProtoCell {
                    index: r,
                    up: r,
                    down: r,
                    left: r,
                    right: r,
                    column: r,
                    row: CellRow::Header,
                }),
            ),
            final(self).columns@ == old(self).columns@.push(
                (ProtoColumn { index: r, name, size: 0, primary }),
            ),
            final(self).row_count == old(self).row_count,
            final(self).column_count == old(self).column_count,
    {
        let column_index = self.columns.len();
        let column_cell_index = self.add_cell(column_index, CellRow::Header);
        proof {
            assert(column_index == column_cell_index);
        }
        self.columns.push(ProtoColumn::new(column_index, name, primary));
        column_index
    }

    /// Links two cells together, from left to right.
    pub fn link_horizontal(&mut self, left: usize, right: usize)
        requires
            left < old(self).cells@.len(),
            right < old(self).cells@.len(),
        ensures
            final(self).cells@ == spec_plink_h(old(self).cells@, left as int, right as int),
            final(self).columns == old(self).columns,
            final(self).row_count == old(self).row_count,
            final(self).column_count == old(self).column_count,
    {
        self.cells[left].right = right;
        self.cells[right].left = left;
    }

    /// Links two cells together, from up to down.
    pub fn link_vertical(&mut self, up: usize, down: usize)
        requires
            up < old(self).cells@.len(),
            down < old(self).cells@.len(),
        ensures
            final(self).cells@ == spec_plink_v(old(self).cells@, up as int, down as int),
            final(self).columns == old(self).columns,
            final(self).row_count == old(self).row_count,
            final(self).column_count == old(self).column_count,
    {
        self.cells[up].down = down;
        self.cells[down].up = up;
    }
}

/// The entry point of construction.
pub struct MatrixBuilder;

impl MatrixBuilder {
    /// Starts a matrix from a whole column schema at once, ready for rows.
    pub fn from_iterable<T>(specs: Vec<ColumnSpec<T>>) -> (r: MatrixRowBuilder<T>)
        requires
            specs@.len() > 0,
            specs@.len() < usize::MAX,
        ensures
            columns_built(specs@, r.matrix),
    {
        MatrixColBuilder { columns: specs }.end_columns()
    }

    /// Starts a matrix with its first column.
    pub fn add_column<T>(self, spec: ColumnSpec<T>) -> (r: MatrixColBuilder<T>)
        ensures
            r.columns@ == seq![spec],
    {
        MatrixColBuilder::new().add_column(spec)
    }
}

/// The column phase: collects the column schema.
pub struct MatrixColBuilder<T> {
    pub columns: Vec<ColumnSpec<T>>,
}

/// What the column phase leaves behind: the sentinel column and one column
/// per specification, every header cell self-linked vertically, the sentinel
/// and the primary headers threaded into one horizontal ring in schema
/// order, and every other header cell self-linked horizontally too.
pub open spec fn columns_built<T>(specs: Seq<ColumnSpec<T>>, m: ProtoMatrix<T>) -> bool {
    let n = specs.len() as int;
    let ring = prim_seq(specs);
    &&& m.row_count == 0
    &&& m.column_count == n
    &&& m.columns@.len() == n + 1
    &&& m.cells@.len() == n + 1
    &&& m.columns@[0] == (ProtoColumn::<T> {
        index: 0,
        name: ColumnName::First,
        size: 0,
        primary: false,
    })
    &&& forall|c: int|
        1 <= c <= n ==> #[trigger] m.columns@[c] == (ProtoColumn {
            index: c as usize,
            name: ColumnName::Other(specs[c - 1].name),
            size: 0,
            primary: specs[c - 1].primary,
        })
    &&& forall|i: int|
        0 <= i <= n ==> (#[trigger] m.cells@[i]).index == i && m.cells@[i].up == i
            && m.cells@[i].down == i && m.cells@[i].column == i && m.cells@[i].row is Header
    &&& forall|c: int|
        1 <= c <= n && !specs[c - 1].primary ==> (#[trigger] m.cells@[c]).left == c
            && m.cells@[c].right == c
    &&& forall|j: int|
        0 <= j < ring.len() ==> (#[trigger] m.cells@[ring[j] as int]).right == ring[(j + 1) % (
        ring.len() as int)] && m.cells@[ring[(j + 1) % (ring.len() as int)] as int].left == ring[j]
    &&& m.wf()
    &&& proto_rings_ok(m.cells@)
}

impl<T> MatrixColBuilder<T> {
    fn new() -> (r: MatrixColBuilder<T>)
        ensures
            r.columns@ == Seq::<ColumnSpec<T>>::empty(),
    {
        MatrixColBuilder { columns: Vec::new() }
    }

    /// Adds a column to the schema; returns the builder, for chaining.
    pub fn add_column(self, spec: ColumnSpec<T>) -> (r: MatrixColBuilder<T>)
        ensures
            r.columns@ == self.columns@.push(spec),
    {
        let mut columns = self.columns;
        columns.push(spec);
        MatrixColBuilder { columns }
    }

    /// Ends the column phase: builds the sentinel and the columns with their
    /// header cells and threads the header ring. The schema must not be
    /// empty, and one more column than the schema's must be countable.
    #[verifier::rlimit(100)]
    pub fn end_columns(self) -> (r: MatrixRowBuilder<T>)
        requires
            self.columns@.len() > 0,
            self.columns@.len() < usize::MAX,
        ensures
            columns_built(self.columns@, r.matrix),
    {
        let ghost specs = self.columns@;
        let n = self.columns.len();
        let mut m = ProtoMatrix {
            row_count: 0,
            column_count: n,
            columns: Vec::new(),
            cells: Vec::new(),
        };
        m.add_column(ColumnName::First, false);
        let mut cols = self.columns;
        let mut k: usize = 0;
        while cols.len() > 0
            invariant
                k + cols@.len() == n,
                n == specs.len(),
                n < usize::MAX,
                cols@ == specs.skip(k as int),
                m.row_count == 0,
                m.column_count == n,
                m.columns@.len() == k + 1,
                m.cells@.len() == k + 1,
                m.columns@[0] == (ProtoColumn::<T> {
                    index: 0,
                    name: ColumnName::First,
                    size: 0,
                    primary: false,
                }),
                forall|c: int|
                    1 <= c <= k ==> #[trigger] m.columns@[c] == (ProtoColumn {
                        index: c as usize,
                        name: ColumnName::Other(specs[c - 1].name),
                        size: 0,
                        primary: specs[c - 1].primary,
                    }),
                forall|i: int|
                    0 <= i <= k ==> #[trigger] m.cells@[i] == (ProtoCell {
                        index: i as usize,
                        up: i as usize,
                        down: i as usize,
                        left: i as usize,
                        right: i as usize,
                        column: i as usize,
                        row: CellRow::Header,
                    }),
            decreases cols@.len(),
        {
            let sp = cols.remove(0);
            proof {
                assert(sp == specs[k as int]);
                assert(cols@ =~= specs.skip(k + 1));
            }
            m.add_column(ColumnName::Other(sp.name), sp.primary);
            k = k + 1;
        }
        let ghost frozen_columns = m.columns@;
        let mut prims: Vec<usize> = Vec::new();
        prims.push(0);
        let mut c: usize = 1;
        while c <= n
            invariant
                1 <= c <= n + 1,
                n == specs.len(),
                n < usize::MAX,
                m.columns@.len() == n + 1,
                m.columns@ == frozen_columns,
                forall|cc: int|
                    1 <= cc <= n ==> (#[trigger] m.columns@[cc]).primary == specs[cc - 1].primary,
                prims@ == prim_seq_upto(specs, c - 1),
            decreases n + 1 - c,
        {
            if m.columns[c].primary {
                prims.push(c);
            }
            c = c + 1;
        }
        proof {
            assert(prims@ == prim_seq(specs));
            lemma_prim_seq_props(specs, n as int);
        }
        let ghost frozen_cells = m.cells@;
        let np = prims.len();
        let mut j: usize = 1;
        while j < np
            invariant
                1 <= j <= np || np < 1,
                np == prims@.len(),
                n == specs.len(),
                prims@ == prim_seq(specs),
                np >= 1,
                m.row_count == 0,
                m.column_count == n,
                m.columns@ == frozen_columns,
                m.columns@.len() == n + 1,
                m.cells@.len() == n + 1,
                forall|jj: int| 0 <= jj < np ==> #[trigger] prims@[jj] <= n,
                forall|j1: int, j2: int|
                    0 <= j1 < j2 < np ==> prims@[j1] < prims@[j2],
                forall|i: int|
                    0 <= i <= n ==> (#[trigger] m.cells@[i]).index == i && m.cells@[i].up == i
                        && m.cells@[i].down == i && m.cells@[i].column == i && m.cells@[i].row
                        is Header,
                forall|i: int|
                    0 <= i <= n && !prims@.contains(i as usize) ==> (#[trigger] m.cells@[i]).left
                        == i && m.cells@[i].right == i,
                forall|t: int|
                    1 <= t < j ==> (#[trigger] m.cells@[prims@[t - 1] as int]).right == prims@[t]
                        && m.cells@[prims@[t] as int].left == prims@[t - 1],
                m.cells@[prims@[0] as int].left == prims@[0],
                j < np ==> m.cells@[prims@[np - 1] as int].right == prims@[np - 1],
            decreases np - j,
        {
            let a = prims[j - 1];
            let b = prims[j];
            m.link_horizontal(a, b);
            j = j + 1;
        }
        let last = prims[np - 1];
        let first = prims[0];
        m.link_horizontal(last, first);
        proof {
            lemma_columns_built(specs, m, prims@);
        }
        MatrixRowBuilder { matrix: m }
    }
}

/// The facts the linking loop leaves behind: columns and header cells in
/// place, the ring members linked consecutively and around the wrap, and
/// every header outside the ring still self-linked.
pub open spec fn linked_columns_shape<T>(
    specs: Seq<ColumnSpec<T>>,
    m: ProtoMatrix<T>,
    ring: Seq<usize>,
) -> bool {
    &&& specs.len() >= 1
    &&& specs.len() <= usize::MAX
    &&& ring == prim_seq(specs)
    &&& m.row_count == 0
    &&& m.column_count == specs.len()
    &&& m.columns@.len() == specs.len() + 1
    &&& m.cells@.len() == specs.len() + 1
    &&& m.columns@[0] == (ProtoColumn::<T> {
        index: 0,
        name: ColumnName::First,
        size: 0,
        primary: false,
    })
    &&& forall|c: int|
        1 <= c <= specs.len() ==> #[trigger] m.columns@[c] == (ProtoColumn {
            index: c as usize,
            name: ColumnName::Other(specs[c - 1].name),
            size: 0,
            primary: specs[c - 1].primary,
        })
    &&& forall|i: int|
        0 <= i <= specs.len() ==> (#[trigger] m.cells@[i]).index == i && m.cells@[i].up == i
            && m.cells@[i].down == i && m.cells@[i].column == i && m.cells@[i].row is Header
    &&& forall|i: int|
        0 <= i <= specs.len() && !ring.contains(i as usize) ==> (#[trigger] m.cells@[i]).left == i
            && m.cells@[i].right == i
    &&& forall|t: int|
        1 <= t < ring.len() ==> (#[trigger] m.cells@[ring[t - 1] as int]).right == ring[t]
            && m.cells@[ring[t] as int].left == ring[t - 1]
    &&& m.cells@[ring[ring.len() - 1] as int].right == ring[0]
    &&& m.cells@[ring[0] as int].left == ring[ring.len() - 1]
}

/// Under the linked shape, the ring links written consecutively close into a
/// ring in the modulo form.
proof fn lemma_ring_mod_form<T>(specs: Seq<ColumnSpec<T>>, m: ProtoMatrix<T>, ring: Seq<usize>)
    requires
        linked_columns_shape(specs, m, ring),
    ensures
        forall|j: int|
            0 <= j < ring.len() ==> (#[trigger] m.cells@[ring[j] as int]).right == ring[(j + 1) % (
            ring.len() as int)] && m.cells@[ring[(j + 1) % (ring.len() as int)] as int].left
                == ring[j],
{
    let np = ring.len() as int;
    lemma_prim_seq_props(specs, specs.len() as int);
    assert forall|j: int|
        0 <= j < np implies (#[trigger] m.cells@[ring[j] as int]).right == ring[(j + 1) % np]
        && m.cells@[ring[(j + 1) % np] as int].left == ring[j] by {
        if j + 1 < np {
            assert((j + 1) % np == j + 1) by (nonlinear_arith)
                requires
                    0 <= j + 1 < np,
            ;
            assert(m.cells@[ring[(j + 1) - 1] as int].right == ring[j + 1]);
            assert(m.cells@[ring[j + 1] as int].left == ring[(j + 1) - 1]);
        } else {
            assert((j + 1) % np == 0) by (nonlinear_arith)
                requires
                    np >= 1 && j + 1 == np,
            ;
            assert(j == np - 1);
        }
    }
}

/// Under the linked shape, every header cell of a non-primary column is
/// self-linked.
proof fn lemma_nonprimary_self_linked<T>(
    specs: Seq<ColumnSpec<T>>,
    m: ProtoMatrix<T>,
    ring: Seq<usize>,
)
    requires
        linked_columns_shape(specs, m, ring),
    ensures
        forall|c: int|
            1 <= c <= specs.len() && !specs[c - 1].primary ==> (#[trigger] m.cells@[c]).left == c
                && m.cells@[c].right == c,
{
    let np = ring.len() as int;
    lemma_prim_seq_props(specs, specs.len() as int);
    assert forall|c: int|
        1 <= c <= specs.len() && !specs[c - 1].primary implies (#[trigger] m.cells@[c]).left == c
        && m.cells@[c].right == c by {
        if ring.contains(c as usize) {
            let j = choose|j: int| 0 <= j < np && ring[j] == c as usize;
            assert(ring[j] == 0 || specs[ring[j] - 1].primary);
        }
    }
}

/// Under the linked shape, every cell is well-formed.
#[verifier::rlimit(100)]
#[verifier::spinoff_prover]
proof fn lemma_linked_shape_pcells<T>(
    specs: Seq<ColumnSpec<T>>,
    m: ProtoMatrix<T>,
    ring: Seq<usize>,
)
    requires
        linked_columns_shape(specs, m, ring),
    ensures
        m.wf(),
{
    let n = specs.len() as int;
    let np = ring.len() as int;
    lemma_prim_seq_props(specs, n);
    assert forall|i: int|
        0 <= i <= n implies (#[trigger] m.cells@[i]).left <= n && m.cells@[i].right <= n by {
        if ring.contains(i as usize) {
            let j = choose|j: int| 0 <= j < np && ring[j] == i as usize;
            if 1 <= j {
                assert(m.cells@[ring[j - 1] as int].right == ring[j]);
                assert(m.cells@[ring[j] as int].left == ring[j - 1]);
            } else {
                assert(m.cells@[ring[0] as int].left == ring[np - 1]);
            }
            if j + 1 < np {
                assert(m.cells@[ring[(j + 1) - 1] as int].right == ring[j + 1]);
                assert(m.cells@[ring[j] as int].right == ring[j + 1]);
            } else {
                assert(m.cells@[ring[np - 1] as int].right == ring[0]);
            }
        }
    }
    assert forall|i: int|
        0 <= i < m.cells@.len() implies #[trigger] pcell_ok(
        m.cells@,
        m.columns@.len() as int,
        m.row_count as int,
        i,
    ) by {
        assert(m.cells@[i].left <= n && m.cells@[i].right <= n);
        assert(m.cells@[m.cells@[i].up as int].column == m.cells@[i].column);
        assert(m.cells@[m.cells@[i].down as int].column == m.cells@[i].column);
    }
    assert forall|c: int|
        0 <= c < m.columns@.len() implies (#[trigger] m.columns@[c]).index == c && (c == 0
        <==> m.columns@[c].name is First) && (c == 0 ==> !m.columns@[c].primary)
        && m.columns@[c].size < m.cells@.len() by {
        if c >= 1 {
            assert(m.columns@[c] == (ProtoColumn {
                index: c as usize,
                name: ColumnName::Other(specs[c - 1].name),
                size: 0,
                primary: specs[c - 1].primary,
            }));
        }
    }
}

/// Under the linked shape, every link closes its ring.
#[verifier::rlimit(100)]
#[verifier::spinoff_prover]
proof fn lemma_linked_shape_rings<T>(
    specs: Seq<ColumnSpec<T>>,
    m: ProtoMatrix<T>,
    ring: Seq<usize>,
)
    requires
        linked_columns_shape(specs, m, ring),
    ensures
        proto_rings_ok(m.cells@),
{
    let np = ring.len() as int;
    lemma_prim_seq_props(specs, specs.len() as int);
    assert forall|i: int|
        0 <= i < m.cells@.len() implies #[trigger] ring_closed_at(m.cells@, i) by {
        if ring.contains(i as usize) {
            let j = choose|j: int| 0 <= j < np && ring[j] == i as usize;
            if j + 1 < np {
                assert(m.cells@[ring[(j + 1) - 1] as int].right == ring[j + 1]);
                assert(m.cells@[ring[j + 1] as int].left == ring[(j + 1) - 1]);
            } else {
                assert(m.cells@[ring[np - 1] as int].right == ring[0]);
                assert(m.cells@[ring[0] as int].left == ring[np - 1]);
            }
            if 1 <= j {
                assert(m.cells@[ring[(j - 1) + 1] as int].left == ring[j - 1]);
                assert(m.cells@[ring[(j - 1) + 1 - 1] as int].right == ring[j]);
            } else {
                assert(m.cells@[ring[0] as int].left == ring[np - 1]);
                assert(m.cells@[ring[np - 1] as int].right == ring[0]);
            }
        }
    }
}

/// From the facts the linking loop leaves behind, the column phase's whole
/// contract follows.
proof fn lemma_columns_built<T>(specs: Seq<ColumnSpec<T>>, m: ProtoMatrix<T>, ring: Seq<usize>)
    requires
        linked_columns_shape(specs, m, ring),
    ensures
        columns_built(specs, m),
{
    lemma_ring_mod_form(specs, m, ring);
    lemma_nonprimary_self_linked(specs, m, ring);
    lemma_linked_shape_pcells(specs, m, ring);
    lemma_linked_shape_rings(specs, m, ring);
}

/// The row phase: the matrix being built, ready to take rows.
pub struct MatrixRowBuilder<T> {
    pub matrix: ProtoMatrix<T>,
}


/// One step of appending a row, exactly as the code performs it: a fresh
/// self-linked cell for column `id` and row `rnum` is pushed; from the
/// second step on it is chained to the previous new cell; the column's size
/// grows by one; and the cell is linked in between the column's old bottom
/// cell and the header. `start` is the number of cells before the row and
/// `k` the number of the row's cells already appended.
pub open spec fn spec_row_step<T>(
    cells: Seq<ProtoCell>,
    cols: Seq<ProtoColumn<T>>,
    id: usize,
    rnum: usize,
    start: int,
    k: int,
) -> (Seq<ProtoCell>, Seq<ProtoColumn<T>>) {
    let last = cells[id as int].up as int;
    let newi = start + k;
    let c1 = cells.push(
        ProtoCell {
            index: newi as usize,
            up: newi as usize,
            down: newi as usize,
            left: newi as usize,
            right: newi as usize,
            column: id,
            row: CellRow::Data(rnum),
        },
    );
    let c2 = if k > 0 {
        spec_plink_h(c1, newi - 1, newi)
    } else {
        c1
    };
    let k2 = cols.update(
        id as int,
        ProtoColumn { size: (cols[id as int].size + 1) as usize, ..cols[id as int] },
    );
    let c3 = spec_plink_v(c2, newi, id as int);
    let c4 = spec_plink_v(c3, last, newi);
    (c4, k2)
}

/// The first `k` steps of appending a row.
pub open spec fn spec_row_fold<T>(
    cells: Seq<ProtoCell>,
    cols: Seq<ProtoColumn<T>>,
    ids: Seq<usize>,
    rnum: usize,
    start: int,
    k: int,
) -> (Seq<ProtoCell>, Seq<ProtoColumn<T>>)
    decreases k,
{
    if k <= 0 {
        (cells, cols)
    } else {
        let prev = spec_row_fold(cells, cols, ids, rnum, start, k - 1);
        spec_row_step(prev.0, prev.1, ids[k - 1], rnum, start, k - 1)
    }
}

/// A whole appended row: every cell appended in order, and then the last new
/// cell linked back to the first, closing the row's horizontal ring.
pub open spec fn spec_add_row<T>(
    cells: Seq<ProtoCell>,
    cols: Seq<ProtoColumn<T>>,
    ids: Seq<usize>,
    rnum: usize,
) -> (Seq<ProtoCell>, Seq<ProtoColumn<T>>) {
    let start = cells.len() as int;
    let m = ids.len() as int;
    let f = spec_row_fold(cells, cols, ids, rnum, start, m);
    (spec_plink_h(f.0, start + m - 1, start), f.1)
}

/// The indices of a row name existing columns, the sentinel excluded.
pub open spec fn ids_in_range(ids: Seq<usize>, column_count: usize) -> bool {
    forall|k: int| 0 <= k < ids.len() ==> 1 <= #[trigger] ids[k] <= column_count
}

/// What the row steps keep intact: well-formedness with the new row number
/// admitted, unchanged lengths apart from the appended cells, and every
/// appended cell carrying the new row number.
pub open spec fn fold_inv<T>(
    cells: Seq<ProtoCell>,
    cols: Seq<ProtoColumn<T>>,
    rnum: usize,
    start: int,
    k: int,
) -> bool {
    &&& proto_wf(cells, cols, rnum as int)
    &&& cells.len() == start + k
    &&& start >= cols.len()
    &&& forall|i: int| start <= i < cells.len() ==> (#[trigger] cells[i]).row == CellRow::Data(rnum)
}

/// One row step keeps [`fold_inv`].
#[verifier::rlimit(60)]
proof fn lemma_row_step_inv<T>(
    cells: Seq<ProtoCell>,
    cols: Seq<ProtoColumn<T>>,
    id: usize,
    rnum: usize,
    start: int,
    k: int,
)
    requires
        fold_inv(cells, cols, rnum, start, k),
        k >= 0,
        start + k <= usize::MAX,
        rnum >= 1,
        1 <= id < cols.len(),
    ensures
        fold_inv(
            spec_row_step(cells, cols, id, rnum, start, k).0,
            spec_row_step(cells, cols, id, rnum, start, k).1,
            rnum,
            start,
            k + 1,
        ),
{
    let newi = start + k;
    let nc = cols.len() as int;
    assert(pcell_ok(cells, nc, rnum as int, id as int));
    let last = cells[id as int].up as int;
    assert(pcell_ok(cells, nc, rnum as int, last));
    let post = spec_row_step(cells, cols, id, rnum, start, k);
    let fresh = ProtoCell {
        index: newi as usize,
        up: newi as usize,
        down: newi as usize,
        left: newi as usize,
        right: newi as usize,
        column: id,
        row: CellRow::Data(rnum),
    };
    let c1 = cells.push(fresh);
    assert(cells.len() == newi);
    assert(c1[newi] == fresh);
    assert(c1.len() == newi + 1);
    let c2 = if k > 0 {
        spec_plink_h(c1, newi - 1, newi)
    } else {
        c1
    };
    let c3 = spec_plink_v(c2, newi, id as int);
    let c4 = spec_plink_v(c3, last, newi);
    assert(post.0 == c4);
    if k > 0 {
        assert(pcell_ok(cells, nc, rnum as int, newi - 1));
        assert(c2[newi].left == newi - 1);
        assert(c2[newi].right == newi);
    } else {
        assert(c2 == c1);
        assert(c2[newi] == fresh);
    }
    assert(c4[newi].left == c2[newi].left);
    assert(c4[newi].right == c2[newi].right);
    assert(c4[newi].up == last);
    assert(c4[newi].down == id);
    assert(c4[newi].column == id);
    assert(c4[newi].row == CellRow::Data(rnum));
    assert forall|i: int|
        0 <= i < post.0.len() implies #[trigger] pcell_ok(post.0, nc, rnum as int, i) by {
        if i < newi {
            assert(pcell_ok(cells, nc, rnum as int, i));
            assert(pcell_ok(cells, nc, rnum as int, cells[i].up as int));
            assert(pcell_ok(cells, nc, rnum as int, cells[i].down as int));
            assert(pcell_ok(cells, nc, rnum as int, cells[i].left as int));
            assert(pcell_ok(cells, nc, rnum as int, cells[i].right as int));
        } else {
            assert(post.0[newi].column == id);
            assert(post.0[newi].row == CellRow::Data(rnum));
            assert(post.0[last].column == id);
            assert(post.0[id as int].column == id);
            assert(post.0[newi].up == last);
            assert(post.0[newi].down == id);
            if k > 0 {
                assert(post.0[newi - 1].row == CellRow::Data(rnum));
                assert(post.0[newi].left == newi - 1);
            } else {
                assert(post.0[newi].left == newi);
            }
            assert(post.0[newi].right == newi);
        }
    }
    assert forall|c: int|
        0 <= c < post.1.len() implies (#[trigger] post.1[c]).index == c && (c == 0 <==> post.1[c].name
        is First) && (c == 0 ==> !post.1[c].primary) && post.1[c].size < post.0.len() by {
        assert(cols[c].size < cells.len());
    }
}

/// Every prefix of the row steps keeps [`fold_inv`].
proof fn lemma_row_fold_inv<T>(
    cells: Seq<ProtoCell>,
    cols: Seq<ProtoColumn<T>>,
    ids: Seq<usize>,
    rnum: usize,
    k: int,
)
    requires
        fold_inv(cells, cols, rnum, cells.len() as int, 0),
        0 <= k <= ids.len(),
        cells.len() + ids.len() <= usize::MAX + 1,
        rnum >= 1,
        ids_in_range(ids, (cols.len() - 1) as usize),
    ensures
        fold_inv(
            spec_row_fold(cells, cols, ids, rnum, cells.len() as int, k).0,
            spec_row_fold(cells, cols, ids, rnum, cells.len() as int, k).1,
            rnum,
            cells.len() as int,
            k,
        ),
        spec_row_fold(cells, cols, ids, rnum, cells.len() as int, k).1.len() == cols.len(),
    decreases k,
{
    if k > 0 {
        lemma_row_fold_inv(cells, cols, ids, rnum, k - 1);
        let prev = spec_row_fold(cells, cols, ids, rnum, cells.len() as int, k - 1);
        lemma_row_step_inv(prev.0, prev.1, ids[k - 1], rnum, cells.len() as int, k - 1);
    }
}

/// The vertical links all close their rings.
pub open spec fn vert_ring_closed_at(cells: Seq<ProtoCell>, i: int) -> bool {
    &&& cells[cells[i].up as int].down == i
    &&& cells[cells[i].down as int].up == i
}

pub open spec fn vert_rings_ok(cells: Seq<ProtoCell>) -> bool {
    forall|i: int| 0 <= i < cells.len() ==> #[trigger] vert_ring_closed_at(cells, i)
}

/// The horizontal links close their rings everywhere but at the two ends of
/// the row chain under construction: the chain's last cell still points
/// right at itself, and its first cell still points left at itself.
pub open spec fn right_closed_at(cells: Seq<ProtoCell>, i: int) -> bool {
    cells[cells[i].right as int].left == i
}

pub open spec fn left_closed_at(cells: Seq<ProtoCell>, i: int) -> bool {
    cells[cells[i].left as int].right == i
}

pub open spec fn horiz_rings_except(cells: Seq<ProtoCell>, start: int, k: int) -> bool {
    &&& forall|i: int|
        0 <= i < cells.len() && i != start + k - 1 ==> #[trigger] right_closed_at(cells, i)
    &&& forall|i: int|
        0 <= i < cells.len() && i != start ==> #[trigger] left_closed_at(cells, i)
    &&& cells[start + k - 1].right == start + k - 1
    &&& cells[start].left == start
    &&& forall|j: int| 1 <= j < k ==> (#[trigger] cells[start + j]).left == start + j - 1
    &&& forall|j: int| 0 <= j < k - 1 ==> (#[trigger] cells[start + j]).right == start + j + 1
    &&& forall|i: int| 0 <= i < start ==> (#[trigger] cells[i]).left < start && cells[i].right < start
}

/// The ring state during a row's construction: vertical rings always closed,
/// horizontal rings closed but at the open chain once it has begun.
pub open spec fn rows_rings_ok(cells: Seq<ProtoCell>, start: int, k: int) -> bool {
    &&& vert_rings_ok(cells)
    &&& if k == 0 {
        proto_rings_ok(cells)
    } else {
        horiz_rings_except(cells, start, k)
    }
}

/// One row step keeps the vertical rings closed.
#[verifier::rlimit(100)]
#[verifier::spinoff_prover]
proof fn lemma_row_step_vert<T>(
    cells: Seq<ProtoCell>,
    cols: Seq<ProtoColumn<T>>,
    id: usize,
    rnum: usize,
    start: int,
    k: int,
)
    requires
        fold_inv(cells, cols, rnum, start, k),
        k >= 0,
        start + k <= usize::MAX,
        rnum >= 1,
        1 <= id < cols.len(),
        vert_rings_ok(cells),
    ensures
        vert_rings_ok(spec_row_step(cells, cols, id, rnum, start, k).0),
{
    let newi = start + k;
    let nc = cols.len() as int;
    assert(pcell_ok(cells, nc, rnum as int, id as int));
    assert(vert_ring_closed_at(cells, id as int));
    let last = cells[id as int].up as int;
    assert(pcell_ok(cells, nc, rnum as int, last));
    assert(vert_ring_closed_at(cells, last));
    assert(cells[last].down == id);
    let post = spec_row_step(cells, cols, id, rnum, start, k).0;
    assert forall|i: int|
        0 <= i < post.len() implies #[trigger] vert_ring_closed_at(post, i) by {
        if i < newi {
            assert(pcell_ok(cells, nc, rnum as int, i));
            assert(vert_ring_closed_at(cells, i));
            assert(vert_ring_closed_at(cells, cells[i].up as int));
            assert(vert_ring_closed_at(cells, cells[i].down as int));
        }
    }
}

/// One row step keeps the horizontal rings closed up to the open chain.
#[verifier::rlimit(100)]
#[verifier::spinoff_prover]
proof fn lemma_row_step_horiz<T>(
    cells: Seq<ProtoCell>,
    cols: Seq<ProtoColumn<T>>,
    id: usize,
    rnum: usize,
    start: int,
    k: int,
)
    requires
        fold_inv(cells, cols, rnum, start, k),
        k >= 0,
        start + k <= usize::MAX,
        rnum >= 1,
        1 <= id < cols.len(),
        k == 0 ==> proto_rings_ok(cells),
        k >= 1 ==> horiz_rings_except(cells, start, k),
    ensures
        horiz_rings_except(spec_row_step(cells, cols, id, rnum, start, k).0, start, k + 1),
{
    let newi = start + k;
    let nc = cols.len() as int;
    assert(pcell_ok(cells, nc, rnum as int, id as int));
    let last = cells[id as int].up as int;
    assert(pcell_ok(cells, nc, rnum as int, last));
    let post = spec_row_step(cells, cols, id, rnum, start, k).0;
    assert forall|i: int|
        0 <= i < post.len() && i != start + k implies #[trigger] right_closed_at(post, i) by {
        if i < newi {
            assert(pcell_ok(cells, nc, rnum as int, i));
            assert(pcell_ok(cells, nc, rnum as int, cells[i].right as int));
            if k == 0 {
                assert(ring_closed_at(cells, i));
            } else if i != start + k - 1 {
                assert(right_closed_at(cells, i));
            }
            assert(post[i].right == if i == newi - 1 && k > 0 {
                newi as usize
            } else {
                cells[i].right
            });
        } else {
            assert(post[i].right == i);
            assert(post[i].left == if k > 0 {
                (newi - 1) as usize
            } else {
                newi as usize
            });
        }
    }
    assert forall|i: int|
        0 <= i < post.len() && i != start implies #[trigger] left_closed_at(post, i) by {
        if i < newi {
            assert(pcell_ok(cells, nc, rnum as int, i));
            assert(pcell_ok(cells, nc, rnum as int, cells[i].left as int));
            if k == 0 {
                assert(ring_closed_at(cells, i));
            } else {
                assert(left_closed_at(cells, i));
            }
            assert(post[i].left == cells[i].left);
            if k > 0 && i == start + k - 1 {
                assert(post[i].right == newi);
            }
            if k > 0 && cells[i].left as int == newi - 1 {
                assert(cells[(newi - 1) as int].right == newi - 1);
                assert(i == newi - 1);
                if k >= 2 {
                    assert(cells[start + (k - 1)].left == start + k - 2);
                    assert(false);
                } else {
                    assert(false);
                }
            }
            assert(cells[i].left as int != newi - 1 || k == 0);
            assert(post[cells[i].left as int].right == cells[cells[i].left as int].right || (k > 0
                && cells[i].left as int == newi - 1));
        } else {
            assert(post[i].left == if k > 0 {
                (newi - 1) as usize
            } else {
                newi as usize
            });
            if k > 0 {
                assert(post[newi - 1].right == newi);
            } else {
                assert(post[newi].right == newi);
            }
        }
    }
    assert forall|j: int|
        1 <= j < k + 1 implies (#[trigger] post[start + j]).left == start + j - 1 by {
        if j < k {
            assert(pcell_ok(cells, nc, rnum as int, start + j));
        }
    }
    assert forall|j: int|
        0 <= j < k implies (#[trigger] post[start + j]).right == start + j + 1 by {
        if j < k - 1 {
            assert(pcell_ok(cells, nc, rnum as int, start + j));
        }
    }
    assert forall|i: int|
        0 <= i < start implies (#[trigger] post[i]).left < start && post[i].right < start by {
        if k == 0 {
            assert(pcell_ok(cells, nc, rnum as int, i));
            assert(ring_closed_at(cells, i));
            assert(pcell_ok(cells, nc, rnum as int, cells[i].left as int));
            assert(pcell_ok(cells, nc, rnum as int, cells[i].right as int));
            if cells[i].left as int >= start {
                assert(false);
            }
            if cells[i].right as int >= start {
                assert(false);
            }
        }
    }
}

/// Every prefix of the row steps keeps the rings closed up to the open
/// chain.
proof fn lemma_row_fold_rings<T>(
    cells: Seq<ProtoCell>,
    cols: Seq<ProtoColumn<T>>,
    ids: Seq<usize>,
    rnum: usize,
    k: int,
)
    requires
        fold_inv(cells, cols, rnum, cells.len() as int, 0),
        0 <= k <= ids.len(),
        cells.len() + ids.len() <= usize::MAX + 1,
        rnum >= 1,
        ids_in_range(ids, (cols.len() - 1) as usize),
        proto_rings_ok(cells),
    ensures
        rows_rings_ok(
            spec_row_fold(cells, cols, ids, rnum, cells.len() as int, k).0,
            cells.len() as int,
            k,
        ),
    decreases k,
{
    assert(vert_rings_ok(cells)) by {
        assert forall|i: int|
            0 <= i < cells.len() implies #[trigger] vert_ring_closed_at(cells, i) by {
            assert(ring_closed_at(cells, i));
        }
    }
    if k > 0 {
        lemma_row_fold_rings(cells, cols, ids, rnum, k - 1);
        lemma_row_fold_inv(cells, cols, ids, rnum, k - 1);
        let prev = spec_row_fold(cells, cols, ids, rnum, cells.len() as int, k - 1);
        lemma_row_step_vert(prev.0, prev.1, ids[k - 1], rnum, cells.len() as int, k - 1);
        lemma_row_step_horiz(prev.0, prev.1, ids[k - 1], rnum, cells.len() as int, k - 1);
    }
}

/// Closing the row chain closes every ring: a whole appended row keeps the
/// structure's rings intact.
#[verifier::rlimit(100)]
#[verifier::spinoff_prover]
proof fn lemma_add_row_rings<T>(
    cells: Seq<ProtoCell>,
    cols: Seq<ProtoColumn<T>>,
    ids: Seq<usize>,
    rnum: usize,
)
    requires
        fold_inv(cells, cols, rnum, cells.len() as int, 0),
        1 <= ids.len(),
        cells.len() + ids.len() <= usize::MAX + 1,
        rnum >= 1,
        ids_in_range(ids, (cols.len() - 1) as usize),
        proto_rings_ok(cells),
    ensures
        proto_rings_ok(spec_add_row(cells, cols, ids, rnum).0),
{
    let start = cells.len() as int;
    let m = ids.len() as int;
    lemma_row_fold_rings(cells, cols, ids, rnum, m);
    lemma_row_fold_inv(cells, cols, ids, rnum, m);
    let f = spec_row_fold(cells, cols, ids, rnum, start, m);
    let closed = spec_plink_h(f.0, start + m - 1, start);
    assert(spec_add_row(cells, cols, ids, rnum).0 == closed);
    assert(rows_rings_ok(f.0, start, m));
    assert forall|i: int| 0 <= i < closed.len() implies #[trigger] ring_closed_at(closed, i) by {
        assert(pcell_ok(f.0, f.1.len() as int, rnum as int, i));
        assert(pcell_ok(f.0, f.1.len() as int, rnum as int, f.0[i].right as int));
        assert(pcell_ok(f.0, f.1.len() as int, rnum as int, f.0[i].left as int));
        assert(vert_ring_closed_at(f.0, i));
        assert(closed[start].left == start + m - 1);
        assert(closed[start + m - 1].right == start);
        assert(f.0[start].left == start);
        assert(f.0[start + m - 1].right == start + m - 1);
        if i != start + m - 1 {
            assert(right_closed_at(f.0, i));
            if f.0[i].right as int == start {
                assert(i == start);
                if m >= 2 {
                    assert(f.0[start + 0].right == start + 1);
                    assert(false);
                } else {
                    assert(false);
                }
            }
            assert(closed[closed[i].right as int].left == f.0[f.0[i].right as int].left);
        } else {
            assert(closed[start].left == i);
        }
        if i != start {
            assert(left_closed_at(f.0, i));
            if f.0[i].left as int == start + m - 1 {
                assert(i == start + m - 1);
                if m >= 2 {
                    assert(f.0[start + (m - 1)].left == start + m - 2);
                    assert(false);
                } else {
                    assert(false);
                }
            }
            assert(closed[closed[i].left as int].right == f.0[f.0[i].left as int].right);
        } else {
            assert(closed[start + m - 1].right == i);
        }
    }
}

impl<T> MatrixRowBuilder<T> {
    /// Appends a row given by 1-based column indices, taken in the order
    /// given; the caller keeps them sorted. The indices must name existing
    /// columns, the row must not be empty, and one more row must be
    /// countable.
    #[verifier::rlimit(60)]
    pub fn add_sorted_row_index(self, row: Vec<usize>) -> (r: Self)
        requires
            self.matrix.wf(),
            row@.len() >= 1,
            ids_in_range(row@, self.matrix.column_count),
            self.matrix.row_count < usize::MAX,
        ensures
            r.matrix.wf(),
            r.matrix.row_count == self.matrix.row_count + 1,
            r.matrix.column_count == self.matrix.column_count,
            r.matrix.columns@.len() == self.matrix.columns@.len(),
            r.matrix.cells@.len() == self.matrix.cells@.len() + row@.len(),
            r.matrix.cells@ == spec_add_row(
                self.matrix.cells@,
                self.matrix.columns@,
                row@,
                (self.matrix.row_count + 1) as usize,
            ).0,
            r.matrix.columns@ == spec_add_row(
                self.matrix.cells@,
                self.matrix.columns@,
                row@,
                (self.matrix.row_count + 1) as usize,
            ).1,
            proto_rings_ok(self.matrix.cells@) ==> proto_rings_ok(r.matrix.cells@),
    {
        let ghost pre_cells = self.matrix.cells@;
        let ghost pre_cols = self.matrix.columns@;
        let ghost ids = row@;
        let mut mx = self.matrix;
        let rc = mx.row_count;
        let rnum = rc + 1;
        let start = mx.cells.len();
        let m = row.len();
        proof {
            assert(fold_inv(pre_cells, pre_cols, rnum, start as int, 0)) by {
                assert forall|i: int|
                    0 <= i < pre_cells.len() implies #[trigger] pcell_ok(
                    pre_cells,
                    pre_cols.len() as int,
                    rnum as int,
                    i,
                ) by {
                    assert(pcell_ok(pre_cells, pre_cols.len() as int, rc as int, i));
                }
            }
        }
        let mut k: usize = 0;
        while k < m
            invariant
                k <= m,
                m == ids.len(),
                m >= 1,
                rnum == rc + 1,
                rc < usize::MAX,
                start as int == pre_cells.len() as int,
                row@ == ids,
                ids_in_range(ids, mx.column_count),
                mx.row_count == rc,
                mx.column_count + 1 == mx.columns@.len(),
                mx.columns@.len() == pre_cols.len(),
                mx.cells@.len() == start + k,
                fold_inv(mx.cells@, mx.columns@, rnum, start as int, k as int),
                (mx.cells@, mx.columns@) == spec_row_fold(
                    pre_cells,
                    pre_cols,
                    ids,
                    rnum,
                    start as int,
                    k as int,
                ),
            decreases m - k,
        {
            let ghost prev_cells = mx.cells@;
            let ghost prev_cols = mx.columns@;
            let id = row[k];
            let cur_len = mx.cells.len();
            proof {
                assert(start + k <= usize::MAX);
                assert(1 <= id < mx.columns@.len());
                assert(pcell_ok(prev_cells, prev_cols.len() as int, rnum as int, id as int));
                lemma_row_step_inv(prev_cells, prev_cols, id, rnum, start as int, k as int);
            }
            let last = cell_up(&mx, id);
            let newi = mx.add_cell(id, CellRow::Data(rnum));
            if k > 0 {
                mx.link_horizontal(newi - 1, newi);
            }
            let sz = column_size(&mx, id);
            set_column_size(&mut mx, id, sz + 1);
            mx.link_vertical(newi, id);
            mx.link_vertical(last, newi);
            proof {
                assert((mx.cells@, mx.columns@) == spec_row_step(
                    prev_cells,
                    prev_cols,
                    id,
                    rnum,
                    start as int,
                    k as int,
                ));
            }
            k = k + 1;
        }
        proof {
            assert(pcell_ok(mx.cells@, mx.columns@.len() as int, rnum as int, start as int));
        }
        let total = mx.cells.len();
        mx.link_horizontal(total - 1, start);
        proof {
            assert(total - 1 == start + m - 1);
        }
        mx.row_count = rnum;
        proof {
            let post = spec_add_row(pre_cells, pre_cols, ids, rnum);
            assert(mx.cells@ == post.0);
            if proto_rings_ok(pre_cells) {
                lemma_add_row_rings(pre_cells, pre_cols, ids, rnum);
            }
            assert(mx.columns@ == post.1);
            assert(proto_wf(mx.cells@, mx.columns@, rnum as int)) by {
                let f = spec_row_fold(pre_cells, pre_cols, ids, rnum, start as int, m as int);
                assert(fold_inv(f.0, f.1, rnum, start as int, m as int));
                assert(pcell_ok(f.0, f.1.len() as int, rnum as int, start as int));
                assert(pcell_ok(f.0, f.1.len() as int, rnum as int, (start + m - 1) as int));
                assert forall|i: int|
                    0 <= i < mx.cells@.len() implies #[trigger] pcell_ok(
                    mx.cells@,
                    mx.columns@.len() as int,
                    rnum as int,
                    i,
                ) by {
                    assert(pcell_ok(f.0, f.1.len() as int, rnum as int, i));
                    assert(pcell_ok(f.0, f.1.len() as int, rnum as int, f.0[i].up as int));
                    assert(pcell_ok(f.0, f.1.len() as int, rnum as int, f.0[i].down as int));
                    assert(pcell_ok(f.0, f.1.len() as int, rnum as int, f.0[i].left as int));
                    assert(pcell_ok(f.0, f.1.len() as int, rnum as int, f.0[i].right as int));
                }
            }
        }
        MatrixRowBuilder { matrix: mx }
    }
}

/// The current size of a column of a matrix being built.
fn column_size<T>(m: &ProtoMatrix<T>, c: usize) -> (r: usize)
    requires
        c < m.columns@.len(),
    ensures
        r == m.columns@[c as int].size,
{
    m.columns[c].size
}

/// Sets the size of a column of a matrix being built.
fn set_column_size<T>(m: &mut ProtoMatrix<T>, c: usize, size: usize)
    requires
        c < old(m).columns@.len(),
    ensures
        final(m).columns@ == old(m).columns@.update(
            c as int,
            (ProtoColumn { size, ..old(m).columns@[c as int] }),
        ),
        final(m).cells == old(m).cells,
        final(m).row_count == old(m).row_count,
        final(m).column_count == old(m).column_count,
{
    m.columns[c].size = size;
}

/// The up link of a cell of a matrix being built.
fn cell_up<T>(m: &ProtoMatrix<T>, i: usize) -> (r: usize)
    requires
        i < m.cells@.len(),
    ensures
        r == m.cells@[i as int].up,
{
    m.cells[i].up
}

/// How a row's construction can fail: a by-value row names an item that no
/// column carries.
#[derive(Debug, Clone, Copy, PartialEq, Eq, Structural)]
pub enum BuilderError {
    UnknownItem,
}

/// The order the rows' column indices are sorted by.
pub open spec fn usize_leq() -> spec_fn(usize, usize) -> bool {
    |a: usize, b: usize| a <= b
}

/// [`usize_leq`] is a total order.
pub proof fn lemma_usize_leq_total()
    ensures
        vstd::relations::total_ordering(usize_leq()),
{
}

/// Sorts column indices ascending: the result is the one sorted sequence
/// with the same elements as the input.
fn sort_ids(ids: Vec<usize>) -> (r: Vec<usize>)
    ensures
        r@ == ids@.sort_by(usize_leq()),
        r@.to_multiset() == ids@.to_multiset(),
        r@.len() == ids@.len(),
{
    broadcast use vstd::seq_lib::group_to_multiset_ensures;

    let ghost orig = ids@;
    let mut rest = ids;
    let mut out: Vec<usize> = Vec::new();
    while rest.len() > 0
        invariant
            vstd::relations::sorted_by(out@, usize_leq()),
            out@.to_multiset().add(rest@.to_multiset()) =~= orig.to_multiset(),
            forall|i: int, j: int|
                0 <= i < out@.len() && 0 <= j < rest@.len() ==> out@[i] <= rest@[j],
            out@.len() + rest@.len() == orig.len(),
        decreases rest@.len(),
    {
        let mut mi: usize = 0;
        let mut mv = rest[0];
        let mut t: usize = 1;
        while t < rest.len()
            invariant
                mi < rest@.len(),
                t <= rest@.len(),
                mv == rest@[mi as int],
                forall|u: int| 0 <= u < t ==> mv <= rest@[u],
            decreases rest@.len() - t,
        {
            if rest[t] < mv {
                mi = t;
                mv = rest[t];
            }
            t = t + 1;
        }
        let ghost pre_rest = rest@;
        let ghost pre_out = out@;
        let x = rest.remove(mi);
        out.push(x);
        proof {
            broadcast use vstd::seq_lib::group_to_multiset_ensures;

            assert(pre_rest.remove(mi as int).to_multiset() =~= pre_rest.to_multiset().remove(x));
            assert(pre_out.push(x).to_multiset() =~= pre_out.to_multiset().insert(x));
            assert(out@.to_multiset().add(rest@.to_multiset()) =~= orig.to_multiset()) by {
                assert(pre_rest.to_multiset().count(x) >= 1);
                vstd::assert_multisets_equal!(
                    pre_out.to_multiset().insert(x).add(pre_rest.to_multiset().remove(x)),
                    pre_out.to_multiset().add(pre_rest.to_multiset())
                );
            }
            assert forall|i: int, j: int|
                0 <= i < out@.len() && 0 <= j < rest@.len() implies out@[i] <= rest@[j] by {
                assert(rest@ == pre_rest.remove(mi as int));
                if j < mi {
                    assert(rest@[j] == pre_rest[j]);
                } else {
                    assert(rest@[j] == pre_rest[j + 1]);
                }
                if i < pre_out.len() {
                    assert(out@[i] == pre_out[i]);
                } else {
                    assert(out@[i] == x);
                }
            }
            assert(vstd::relations::sorted_by(out@, usize_leq())) by {
                assert forall|i: int, j: int|
                    0 <= i < j < out@.len() implies usize_leq()(out@[i], out@[j]) by {
                    if j < pre_out.len() {
                        assert(out@[i] == pre_out[i] && out@[j] == pre_out[j]);
                    } else {
                        assert(out@[j] == x);
                        assert(pre_rest.to_multiset().count(x) >= 1);
                        assert(pre_rest.contains(x));
                        let w = choose|w: int| 0 <= w < pre_rest.len() && pre_rest[w] == x;
                        assert(pre_out[i] <= pre_rest[w]);
                    }
                }
            }
        }
    }
    proof {
        broadcast use vstd::seq_lib::group_to_multiset_ensures;

        lemma_usize_leq_total();
        assert(rest@.to_multiset().len() == 0);
        vstd::assert_multisets_equal!(out@.to_multiset(), orig.to_multiset());
        orig.lemma_sort_by_ensures(usize_leq());
        vstd::seq_lib::lemma_sorted_unique(out@, orig.sort_by(usize_leq()), usize_leq());
        assert(out@ =~= orig.sort_by(usize_leq()));
    }
    out
}

/// The least column index at or after `from` whose name is the given item,
/// while the matrix is being built.
pub open spec fn spec_resolve<T: Item>(
    cols: Seq<ProtoColumn<T>>,
    v: T,
    from: int,
) -> Option<usize>
    decreases cols.len() - from,
{
    if from < 0 || from >= cols.len() {
        None
    } else {
        match cols[from].name {
            ColumnName::First => spec_resolve(cols, v, from + 1),
            ColumnName::Other(n) => if n.eqv(v) {
                Some(from as usize)
            } else {
                spec_resolve(cols, v, from + 1)
            },
        }
    }
}

/// A resolved index names an existing column and never the sentinel.
pub proof fn lemma_resolve_in_range<T: Item>(cols: Seq<ProtoColumn<T>>, v: T, from: int)
    requires
        cols.len() <= usize::MAX,
        cols.len() >= 1,
        cols[0].name is First,
    ensures
        match spec_resolve(cols, v, from) {
            None => true,
            Some(c) => from <= c < cols.len() && 1 <= c,
        },
    decreases cols.len() - from,
{
    if 0 <= from < cols.len() {
        lemma_resolve_in_range(cols, v, from + 1);
    }
}

/// The column indices of a by-value row, each value resolved independently
/// by a scan of the columns from the first onward, the first match winning.
pub open spec fn resolved_ids<T: Item>(cols: Seq<ProtoColumn<T>>, vals: Seq<T>) -> Seq<usize> {
    Seq::new(vals.len(), |k: int| spec_resolve(cols, vals[k], 0)->Some_0)
}

/// Every value of a by-value row names some column.
pub open spec fn all_resolve<T: Item>(cols: Seq<ProtoColumn<T>>, vals: Seq<T>) -> bool {
    forall|k: int| 0 <= k < vals.len() ==> (#[trigger] spec_resolve(cols, vals[k], 0)) is Some
}

impl<T> MatrixRowBuilder<T> {
    /// Appends a row given by 1-based column indices in any order; the
    /// indices are sorted before insertion.
    pub fn add_row_index(self, row: Vec<usize>) -> (r: Self)
        requires
            self.matrix.wf(),
            row@.len() >= 1,
            ids_in_range(row@, self.matrix.column_count),
            self.matrix.row_count < usize::MAX,
        ensures
            r.matrix.wf(),
            r.matrix.row_count == self.matrix.row_count + 1,
            r.matrix.column_count == self.matrix.column_count,
            r.matrix.cells@ == spec_add_row(
                self.matrix.cells@,
                self.matrix.columns@,
                row@.sort_by(usize_leq()),
                (self.matrix.row_count + 1) as usize,
            ).0,
            r.matrix.columns@ == spec_add_row(
                self.matrix.cells@,
                self.matrix.columns@,
                row@.sort_by(usize_leq()),
                (self.matrix.row_count + 1) as usize,
            ).1,
            proto_rings_ok(self.matrix.cells@) ==> proto_rings_ok(r.matrix.cells@),
    {
        broadcast use vstd::seq_lib::group_to_multiset_ensures;

        let ghost pre = row@;
        let sorted = sort_ids(row);
        proof {
            assert(ids_in_range(sorted@, self.matrix.column_count)) by {
                assert forall|k: int|
                    0 <= k < sorted@.len() implies 1 <= #[trigger] sorted@[k]
                    <= self.matrix.column_count by {
                    assert(sorted@.to_multiset().count(sorted@[k]) >= 1);
                    assert(pre.contains(sorted@[k]));
                    let w = choose|w: int| 0 <= w < pre.len() && pre[w] == sorted@[k];
                }
            }
        }
        self.add_sorted_row_index(sorted)
    }

    /// Appends a row given by item values, taken in the order given; the
    /// caller keeps them in column order. Each value is resolved to the
    /// first column with that name; an unknown value fails the row.
    pub fn add_sorted_row(self, row: Vec<T>) -> (r: Result<Self, BuilderError>) where T: Item
        requires
            self.matrix.wf(),
            row@.len() >= 1,
            self.matrix.row_count < usize::MAX,
        ensures
            match r {
                Ok(b) => all_resolve(self.matrix.columns@, row@) && b.matrix.wf()
                    && b.matrix.row_count == self.matrix.row_count + 1 && b.matrix.column_count
                    == self.matrix.column_count && b.matrix.cells@ == spec_add_row(
                    self.matrix.cells@,
                    self.matrix.columns@,
                    resolved_ids(self.matrix.columns@, row@),
                    (self.matrix.row_count + 1) as usize,
                ).0 && b.matrix.columns@ == spec_add_row(
                    self.matrix.cells@,
                    self.matrix.columns@,
                    resolved_ids(self.matrix.columns@, row@),
                    (self.matrix.row_count + 1) as usize,
                ).1 && (proto_rings_ok(self.matrix.cells@) ==> proto_rings_ok(b.matrix.cells@)),
                Err(e) => e == BuilderError::UnknownItem && !all_resolve(
                    self.matrix.columns@,
                    row@,
                ),
            },
    {
        match self.resolve_row(&row) {
            Ok(ids) => Ok(self.add_sorted_row_index(ids)),
            Err(e) => Err(e),
        }
    }

    /// Appends a row given by item values in any order: the values are
    /// resolved to column indices, which are sorted before insertion.
    pub fn add_row(self, row: Vec<T>) -> (r: Result<Self, BuilderError>) where T: Item
        requires
            self.matrix.wf(),
            row@.len() >= 1,
            self.matrix.row_count < usize::MAX,
        ensures
            match r {
                Ok(b) => all_resolve(self.matrix.columns@, row@) && b.matrix.wf()
                    && b.matrix.row_count == self.matrix.row_count + 1 && b.matrix.column_count
                    == self.matrix.column_count && b.matrix.cells@ == spec_add_row(
                    self.matrix.cells@,
                    self.matrix.columns@,
                    resolved_ids(self.matrix.columns@, row@).sort_by(usize_leq()),
                    (self.matrix.row_count + 1) as usize,
                ).0 && b.matrix.columns@ == spec_add_row(
                    self.matrix.cells@,
                    self.matrix.columns@,
                    resolved_ids(self.matrix.columns@, row@).sort_by(usize_leq()),
                    (self.matrix.row_count + 1) as usize,
                ).1 && (proto_rings_ok(self.matrix.cells@) ==> proto_rings_ok(b.matrix.cells@)),
                Err(e) => e == BuilderError::UnknownItem && !all_resolve(
                    self.matrix.columns@,
                    row@,
                ),
            },
    {
        match self.resolve_row(&row) {
            Ok(ids) => Ok(self.add_row_index(ids)),
            Err(e) => Err(e),
        }
    }

    /// Resolves a by-value row to column indices, the first matching column
    /// winning for each value.
    fn resolve_row(&self, row: &Vec<T>) -> (r: Result<Vec<usize>, BuilderError>) where T: Item
        requires
            self.matrix.wf(),
        ensures
            match r {
                Ok(ids) => all_resolve(self.matrix.columns@, row@) && ids@ == resolved_ids(
                    self.matrix.columns@,
                    row@,
                ) && ids_in_range(ids@, self.matrix.column_count) && ids@.len() == row@.len(),
                Err(e) => e == BuilderError::UnknownItem && !all_resolve(
                    self.matrix.columns@,
                    row@,
                ),
            },
    {
        let ghost cols = self.matrix.columns@;
        let mut ids: Vec<usize> = Vec::new();
        let m = row.len();
        let ncols = self.matrix.columns.len();
        let mut k: usize = 0;
        while k < m
            invariant
                k <= m,
                m == row@.len(),
                ncols == cols.len(),
                self.matrix.wf(),
                cols == self.matrix.columns@,
                ids@.len() == k,
                forall|kk: int|
                    0 <= kk < k ==> (#[trigger] spec_resolve(cols, row@[kk], 0)) is Some,
                forall|kk: int|
                    0 <= kk < k ==> #[trigger] ids@[kk] == spec_resolve(cols, row@[kk], 0)->Some_0,
                forall|kk: int| 0 <= kk < k ==> 1 <= #[trigger] ids@[kk] <= ncols - 1,
            decreases m - k,
        {
            let val = &row[k];
            let mut c: usize = 0;
            let mut found: Option<usize> = None;
            while c < ncols
                invariant_except_break
                    c <= ncols,
                    ncols == cols.len(),
                    self.matrix.wf(),
                    cols == self.matrix.columns@,
                    m == row@.len(),
                    k < m,
                    val == &row[k as int],
                    found is None,
                    spec_resolve(cols, row@[k as int], 0) == spec_resolve(
                        cols,
                        row@[k as int],
                        c as int,
                    ),
                ensures
                    match found {
                        Some(cc) => spec_resolve(cols, row@[k as int], 0) == Some(cc),
                        None => spec_resolve(cols, row@[k as int], 0) is None,
                    },
                decreases ncols - c,
            {
                match self.matrix.columns[c].name.get_name() {
                    Some(n) => if n.same(val) {
                        found = Some(c);
                        proof {
                            assert(spec_resolve(cols, row@[k as int], c as int) == Some(c));
                        }
                        break ;
                    },
                    None => {},
                }
                c = c + 1;
            }
            match found {
                Some(c) => {
                    proof {
                        assert(spec_resolve(cols, row@[k as int], 0) == Some(c));
                        lemma_resolve_in_range(cols, row@[k as int], 0);
                    }
                    ids.push(c);
                },
                None => {
                    proof {
                        assert(spec_resolve(cols, row@[k as int], 0) is None);
                    }
                    return Err(BuilderError::UnknownItem);
                },
            }
            k = k + 1;
        }
        proof {
            assert(ids@ =~= resolved_ids(cols, row@));
        }
        Ok(ids)
    }

    /// Finishes construction: the prototypes become the matrix's cells and
    /// columns, each column learns its header cell, and every primary column
    /// is queued under its starting size.
    #[verifier::rlimit(100)]
    pub fn build(self) -> (r: DancingLinksMatrix<T>)
        requires
            self.matrix.wf(),
        ensures
            mat_wf(r@),
            r@.row_count == self.matrix.row_count,
            r@.column_count == self.matrix.column_count,
            r@.cells.len() == self.matrix.cells@.len(),
            r@.headers.len() == self.matrix.columns@.len(),
            forall|i: int|
                0 <= i < r@.cells.len() ==> #[trigger] r@.cells[i] == cell_of_proto(
                    self.matrix.cells@[i],
                ),
            forall|c: int|
                0 <= c < r@.headers.len() ==> #[trigger] r@.headers[c] == (ColumnInfo {
                    index: c as usize,
                    name: self.matrix.columns@[c].name,
                    size: self.matrix.columns@[c].size,
                    cell: Some(c as usize),
                    primary: self.matrix.columns@[c].primary,
                }),
            r@.queue == built_queue(r@.headers),
            proto_rings_ok(self.matrix.cells@) ==> crate::matrix::rings_ok(r@.cells),
    {
        let ghost pcells = self.matrix.cells@;
        let ghost pcols = self.matrix.columns@;
        let mut mx = self.matrix;
        let rc0 = mx.row_count;
        let cc0 = mx.column_count;
        let ncells = mx.cells.len();
        let ncols = mx.columns.len();
        let mut cells: Vec<Cell> = Vec::new();
        let mut i: usize = 0;
        while i < ncells
            invariant
                i <= ncells,
                ncells == pcells.len(),
                mx.cells@ == pcells,
                cells@.len() == i,
                forall|j: int|
                    0 <= j < i ==> #[trigger] cells@[j] == cell_of_proto(pcells[j]),
            decreases ncells - i,
        {
            let p = copy_proto_cell(&mx, i);
            cells.push(Cell::from_proto(p));
            i = i + 1;
        }
        let mut headers: Vec<ColumnInfo<T>> = Vec::new();
        let mut queue = ColumnPriorityQueue::new();
        let mut c: usize = 0;
        while mx.columns.len() > 0
            invariant
                c + mx.columns@.len() == ncols,
                ncols == pcols.len(),
                mx.row_count == rc0,
                mx.column_count == cc0,
                mx.columns@ == pcols.skip(c as int),
                headers@.len() == c,
                forall|cc: int|
                    0 <= cc < c ==> #[trigger] headers@[cc] == (ColumnInfo {
                        index: cc as usize,
                        name: pcols[cc].name,
                        size: pcols[cc].size,
                        cell: Some(cc as usize),
                        primary: pcols[cc].primary,
                    }),
                forall|cc: int| 0 <= cc < c ==> (#[trigger] pcols[cc]).index == cc,
                forall|cc: int| 0 <= cc < ncols ==> ((#[trigger] pcols[cc]).name is First <==> cc == 0),
                forall|cc: int| 0 <= cc < ncols ==> (cc == 0 ==> !(#[trigger] pcols[cc]).primary),
                forall|cc: int| 0 <= cc < ncols ==> (#[trigger] pcols[cc]).index == cc,
                queue@ == built_queue_upto(headers@, c as int),
            decreases mx.columns@.len(),
        {
            let proto = mx.columns.remove(0);
            proof {
                assert(proto == pcols[c as int]);
                assert(mx.columns@ =~= pcols.skip(c + 1));
            }
            let mut info = ColumnInfo::from_proto(proto);
            info.update_pointer(c);
            proof {
                assert(info.index == c);
            }
            let is_plain = info.name.is_first();
            if !is_plain && info.primary {
                queue.push(&info);
            }
            let ghost pre_headers = headers@;
            headers.push(info);
            proof {
                assert(headers@ == pre_headers.push(info));
                assert(queue@ =~= built_queue_upto(headers@, c + 1)) by {
                    assert_maps_equal!(queue@, built_queue_upto(headers@, c + 1 as int));
                }
            }
            c = c + 1;
        }
        proof {
            assert(queue@ == built_queue(headers@)) by {
                assert_maps_equal!(queue@, built_queue(headers@));
            }
        }
        let r = DancingLinksMatrix::from_parts(mx.row_count, mx.column_count, headers, cells, queue);
        proof {
            lemma_built_wf(pcells, pcols, r@);
        }
        r
    }
}

/// The finished form of a cell prototype.
pub open spec fn cell_of_proto(p: ProtoCell) -> Cell {
    Cell {
        index: p.index,
        up: p.up,
        down: p.down,
        left: p.left,
        right: p.right,
        header: p.column,
        row: p.row,
    }
}

/// The queue a build populates from the first `c` columns: every primary
/// column under its starting priority.
pub open spec fn built_queue_upto<T>(headers: Seq<ColumnInfo<T>>, c: int) -> Map<
    usize,
    (usize, usize),
> {
    Map::new(
        |h: usize| 1 <= h < c && h < headers.len() && headers[h as int].primary,
        |h: usize| spec_column_priority(headers[h as int].size, h),
    )
}

/// The queue a build populates: every primary column under its starting
/// priority.
pub open spec fn built_queue<T>(headers: Seq<ColumnInfo<T>>) -> Map<usize, (usize, usize)> {
    built_queue_upto(headers, headers.len() as int)
}

/// Reads one cell prototype out of a matrix being built.
fn copy_proto_cell<T>(m: &ProtoMatrix<T>, i: usize) -> (r: ProtoCell)
    requires
        i < m.cells@.len(),
    ensures
        r == m.cells@[i as int],
{
    m.cells[i]
}

/// A finished build of a well-formed prototype is a well-formed matrix, and
/// closed prototype rings stay closed.
#[verifier::rlimit(60)]
proof fn lemma_built_wf<T>(
    pcells: Seq<ProtoCell>,
    pcols: Seq<ProtoColumn<T>>,
    s: crate::matrix::MatState<T>,
)
    requires
        proto_wf(pcells, pcols, s.row_count as int),
        pcols.len() == s.column_count + 1,
        s.cells.len() == pcells.len(),
        s.headers.len() == pcols.len(),
        forall|i: int| 0 <= i < s.cells.len() ==> #[trigger] s.cells[i] == cell_of_proto(pcells[i]),
        forall|c: int|
            0 <= c < s.headers.len() ==> #[trigger] s.headers[c] == (ColumnInfo {
                index: c as usize,
                name: pcols[c].name,
                size: pcols[c].size,
                cell: Some(c as usize),
                primary: pcols[c].primary,
            }),
        s.queue == built_queue(s.headers),
    ensures
        mat_wf(s),
        proto_rings_ok(pcells) ==> crate::matrix::rings_ok(s.cells),
{
    assert forall|i: int|
        0 <= i < s.cells.len() implies #[trigger] crate::matrix::cell_ok(s, i) by {
        assert(pcell_ok(pcells, pcols.len() as int, s.row_count as int, i));
        assert(s.cells[pcells[i].up as int] == cell_of_proto(pcells[pcells[i].up as int]));
        assert(s.cells[pcells[i].down as int] == cell_of_proto(pcells[pcells[i].down as int]));
        assert(s.cells[pcells[i].left as int] == cell_of_proto(pcells[pcells[i].left as int]));
        assert(s.cells[pcells[i].right as int] == cell_of_proto(pcells[pcells[i].right as int]));
    }
    assert forall|h: int|
        0 <= h < s.headers.len() implies #[trigger] crate::matrix::header_ok(s, h) by {}
    assert(crate::matrix::queue_ok(s)) by {
        assert forall|cq: usize| #[trigger] s.queue.dom().contains(cq) implies 1 <= cq
            < s.headers.len() && s.headers[cq as int].primary && s.queue[cq]
            == spec_column_priority(s.headers[cq as int].size, cq) by {}
    }
    if proto_rings_ok(pcells) {
        assert forall|i: int|
            0 <= i < s.cells.len() implies #[trigger] crate::matrix::cell_ring_closed_at(
            s.cells,
            i,
        ) by {
            assert(pcell_ok(pcells, pcols.len() as int, s.row_count as int, i));
            assert(ring_closed_at(pcells, i));
            assert(s.cells[pcells[i].right as int] == cell_of_proto(pcells[pcells[i].right as int]));
            assert(s.cells[pcells[i].left as int] == cell_of_proto(pcells[pcells[i].left as int]));
            assert(s.cells[pcells[i].up as int] == cell_of_proto(pcells[pcells[i].up as int]));
            assert(s.cells[pcells[i].down as int] == cell_of_proto(pcells[pcells[i].down as int]));
        }
    }
}

/// The names of the cells of row `rnum` among the first `n` cells of a
/// matrix being built, in cell order: for each data cell of that row, the
/// item name of its column.
pub open spec fn proto_row_names_upto<T>(
    cells: Seq<ProtoCell>,
    cols: Seq<ProtoColumn<T>>,
    rnum: usize,
    n: int,
) -> Seq<T>
    decreases n,
{
    if n <= 0 {
        Seq::empty()
    } else {
        let prefix = proto_row_names_upto(cells, cols, rnum, n - 1);
        if cells[n - 1].row == CellRow::Data(rnum) {
            prefix.push(cols[cells[n - 1].column as int].name->Other_0)
        } else {
            prefix
        }
    }
}

/// The names of the cells of row `rnum` of a matrix being built.
pub open spec fn proto_row_names<T>(
    cells: Seq<ProtoCell>,
    cols: Seq<ProtoColumn<T>>,
    rnum: usize,
) -> Seq<T> {
    proto_row_names_upto(cells, cols, rnum, cells.len() as int)
}

/// The names a by-index row carries, in the order its indices are given.
pub open spec fn names_of_ids<T>(cols: Seq<ProtoColumn<T>>, ids: Seq<usize>) -> Seq<T> {
    Seq::new(ids.len(), |k: int| cols[ids[k] as int].name->Other_0)
}

/// Name collection reads only row tags, column fields and column names, so
/// it is the same over any two states that agree on those.
proof fn lemma_names_congruent<T>(
    c1: Seq<ProtoCell>,
    k1: Seq<ProtoColumn<T>>,
    c2: Seq<ProtoCell>,
    k2: Seq<ProtoColumn<T>>,
    rnum: usize,
    n: int,
)
    requires
        n <= c1.len(),
        n <= c2.len(),
        forall|i: int|
            0 <= i < n ==> (#[trigger] c2[i]).row == c1[i].row && c2[i].column == c1[i].column,
        forall|c: int|
            0 <= c < k1.len() ==> 0 <= c < k2.len() && (#[trigger] k2[c]).name == k1[c].name,
        forall|i: int| 0 <= i < n ==> 0 <= (#[trigger] c1[i]).column < k1.len(),
    ensures
        proto_row_names_upto(c2, k2, rnum, n) == proto_row_names_upto(c1, k1, rnum, n),
    decreases n,
{
    if n > 0 {
        lemma_names_congruent(c1, k1, c2, k2, rnum, n - 1);
    }
}

/// The row steps set each appended cell's row tag and column and touch no
/// other cell's row tag or column, nor any column's name.
proof fn lemma_fold_fields<T>(
    cells: Seq<ProtoCell>,
    cols: Seq<ProtoColumn<T>>,
    ids: Seq<usize>,
    rnum: usize,
    k: int,
)
    requires
        fold_inv(cells, cols, rnum, cells.len() as int, 0),
        0 <= k <= ids.len(),
        cells.len() + ids.len() <= usize::MAX + 1,
        rnum >= 1,
        ids_in_range(ids, (cols.len() - 1) as usize),
    ensures
        ({
            let f = spec_row_fold(cells, cols, ids, rnum, cells.len() as int, k);
            &&& forall|i: int|
                0 <= i < cells.len() ==> (#[trigger] f.0[i]).row == cells[i].row && f.0[i].column
                    == cells[i].column
            &&& forall|j: int|
                0 <= j < k ==> (#[trigger] f.0[cells.len() + j]).row == CellRow::Data(rnum)
                    && f.0[cells.len() + j].column == ids[j]
            &&& forall|c: int|
                0 <= c < cols.len() ==> (#[trigger] f.1[c]).name == cols[c].name
        }),
    decreases k,
{
    if k > 0 {
        lemma_fold_fields(cells, cols, ids, rnum, k - 1);
        lemma_row_fold_inv(cells, cols, ids, rnum, k - 1);
        let prev = spec_row_fold(cells, cols, ids, rnum, cells.len() as int, k - 1);
        let cur = spec_row_fold(cells, cols, ids, rnum, cells.len() as int, k);
        assert(cur == spec_row_step(prev.0, prev.1, ids[k - 1], rnum, cells.len() as int, k - 1));
        assert(prev.0.len() == cells.len() + k - 1);
        let id = ids[k - 1];
        assert(pcell_ok(prev.0, prev.1.len() as int, rnum as int, id as int));
        let lastv = prev.0[id as int].up as int;
        assert(pcell_ok(prev.0, prev.1.len() as int, rnum as int, lastv));
        let newi = cells.len() + k - 1;
        let fresh = ProtoCell {
            index: newi as usize,
            up: newi as usize,
            down: newi as usize,
            left: newi as usize,
            right: newi as usize,
            column: id,
            row: CellRow::Data(rnum),
        };
        let c1 = prev.0.push(fresh);
        let c2 = if k - 1 > 0 {
            spec_plink_h(c1, newi - 1, newi)
        } else {
            c1
        };
        let c3 = spec_plink_v(c2, newi, id as int);
        let c4 = spec_plink_v(c3, lastv, newi);
        assert(cur.0 == c4);
        assert forall|i: int|
            0 <= i < prev.0.len() implies (#[trigger] c4[i]).row == prev.0[i].row && c4[i].column
            == prev.0[i].column by {}
        assert forall|i: int|
            0 <= i < cells.len() implies (#[trigger] cur.0[i]).row == cells[i].row
            && cur.0[i].column == cells[i].column by {
            assert(prev.0[i].row == cells[i].row && prev.0[i].column == cells[i].column);
        }
        assert forall|j: int|
            0 <= j < k implies (#[trigger] cur.0[cells.len() + j]).row == CellRow::Data(rnum)
            && cur.0[cells.len() + j].column == ids[j] by {
            if j < k - 1 {
                assert(prev.0[cells.len() + j].row == CellRow::Data(rnum));
                assert(prev.0[cells.len() + j].column == ids[j]);
            }
        }
        assert forall|c: int|
            0 <= c < cols.len() implies (#[trigger] cur.1[c]).name == cols[c].name by {
            assert(prev.1[c].name == cols[c].name);
        }
    }
}

/// What one appended row does to the names of each row: the new row's names
/// are those of its column indices, in order, and every other row keeps its
/// names. This is the heart of reading a built matrix back row by row.
#[verifier::rlimit(100)]
#[verifier::spinoff_prover]
pub proof fn lemma_add_row_names<T>(
    cells: Seq<ProtoCell>,
    cols: Seq<ProtoColumn<T>>,
    ids: Seq<usize>,
    rnum: usize,
    rn: usize,
)
    requires
        proto_wf(cells, cols, rnum - 1),
        1 <= ids.len(),
        cells.len() + ids.len() <= usize::MAX + 1,
        rnum >= 1,
        ids_in_range(ids, (cols.len() - 1) as usize),
    ensures
        proto_row_names(
            spec_add_row(cells, cols, ids, rnum).0,
            spec_add_row(cells, cols, ids, rnum).1,
            rn,
        ) == if rn == rnum {
            names_of_ids(cols, ids)
        } else {
            proto_row_names(cells, cols, rn)
        },
{
    let start = cells.len() as int;
    let m = ids.len() as int;
    assert(fold_inv(cells, cols, rnum, start, 0)) by {
        assert forall|i: int|
            0 <= i < cells.len() implies #[trigger] pcell_ok(
            cells,
            cols.len() as int,
            rnum as int,
            i,
        ) by {
            assert(pcell_ok(cells, cols.len() as int, rnum - 1, i));
        }
    }
    lemma_fold_fields(cells, cols, ids, rnum, m);
    lemma_row_fold_inv(cells, cols, ids, rnum, m);
    let f = spec_row_fold(cells, cols, ids, rnum, start, m);
    let post = spec_add_row(cells, cols, ids, rnum);
    assert(post.0 == spec_plink_h(f.0, start + m - 1, start));
    assert(post.1 == f.1);
    assert forall|i: int|
        0 <= i < start + m implies (#[trigger] post.0[i]).row == f.0[i].row && post.0[i].column
        == f.0[i].column by {}
    assert forall|i: int|
        0 <= i < start implies 0 <= (#[trigger] cells[i]).column < cols.len() by {
        assert(pcell_ok(cells, cols.len() as int, rnum - 1, i));
    }
    lemma_names_congruent(cells, cols, post.0, post.1, rn, start);
    assert(proto_row_names_upto(post.0, post.1, rn, start) == proto_row_names_upto(
        cells,
        cols,
        rn,
        start,
    ));
    if rn == rnum {
        assert(proto_row_names_upto(cells, cols, rn, start) =~= Seq::<T>::empty()) by {
            lemma_no_such_row(cells, cols, rn, start);
        }
        lemma_block_names(post.0, post.1, cells, cols, ids, rnum, rn, m);
        assert(proto_row_names_upto(post.0, post.1, rn, start + m) =~= names_of_ids(cols, ids));
    } else {
        lemma_block_names(post.0, post.1, cells, cols, ids, rnum, rn, m);
        assert(proto_row_names_upto(post.0, post.1, rn, start + m) =~= proto_row_names_upto(
            cells,
            cols,
            rn,
            start,
        ));
    }
}

/// A matrix built so far carries no cell of a row not yet appended.
proof fn lemma_no_such_row<T>(
    cells: Seq<ProtoCell>,
    cols: Seq<ProtoColumn<T>>,
    rn: usize,
    n: int,
)
    requires
        proto_wf(cells, cols, rn - 1),
        n <= cells.len(),
    ensures
        proto_row_names_upto(cells, cols, rn, n) == Seq::<T>::empty(),
    decreases n,
{
    if n > 0 {
        lemma_no_such_row(cells, cols, rn, n - 1);
        assert(pcell_ok(cells, cols.len() as int, rn - 1, n - 1));
    }
}

/// The appended block contributes the row's names in order when the row
/// numbers match, and nothing otherwise.
proof fn lemma_block_names<T>(
    post_cells: Seq<ProtoCell>,
    post_cols: Seq<ProtoColumn<T>>,
    cells: Seq<ProtoCell>,
    cols: Seq<ProtoColumn<T>>,
    ids: Seq<usize>,
    rnum: usize,
    rn: usize,
    j: int,
)
    requires
        0 <= j <= ids.len(),
        post_cells.len() == cells.len() + ids.len(),
        1 <= cols.len() <= usize::MAX,
        ids_in_range(ids, (cols.len() - 1) as usize),
        forall|jj: int|
            0 <= jj < ids.len() ==> (#[trigger] post_cells[cells.len() + jj]).row == CellRow::Data(
                rnum,
            ) && post_cells[cells.len() + jj].column == ids[jj],
        forall|c: int|
            0 <= c < cols.len() ==> 0 <= c < post_cols.len() && (#[trigger] post_cols[c]).name
                == cols[c].name,
    ensures
        proto_row_names_upto(post_cells, post_cols, rn, cells.len() + j)
            == proto_row_names_upto(post_cells, post_cols, rn, cells.len() as int) + (if rn == rnum {
            names_of_ids(cols, ids).take(j)
        } else {
            Seq::<T>::empty()
        }),
    decreases j,
{
    let start = cells.len() as int;
    if j == 0 {
        assert(proto_row_names_upto(post_cells, post_cols, rn, start) =~= proto_row_names_upto(
            post_cells,
            post_cols,
            rn,
            start,
        ) + (if rn == rnum {
            names_of_ids(cols, ids).take(0)
        } else {
            Seq::<T>::empty()
        }));
    } else {
        lemma_block_names(post_cells, post_cols, cells, cols, ids, rnum, rn, j - 1);
        if rn == rnum {
            assert(post_cells[start + j - 1].row == CellRow::Data(rnum));
            let nm = post_cols[post_cells[start + j - 1].column as int].name->Other_0;
            assert(post_cells[start + j - 1].column == ids[j - 1]);
            assert(1 <= ids[j - 1] < cols.len());
            assert(post_cols[ids[j - 1] as int].name == cols[ids[j - 1] as int].name);
            assert(nm == cols[ids[j - 1] as int].name->Other_0);
            assert(proto_row_names_upto(post_cells, post_cols, rn, start + j)
                == proto_row_names_upto(post_cells, post_cols, rn, start + j - 1).push(nm));
            assert(names_of_ids(cols, ids).take(j) =~= names_of_ids(cols, ids).take(j - 1).push(
                cols[ids[j - 1] as int].name->Other_0,
            ));
            assert(proto_row_names_upto(post_cells, post_cols, rn, start + j)
                =~= proto_row_names_upto(post_cells, post_cols, rn, start) + names_of_ids(
                cols,
                ids,
            ).take(j));
        } else {
            assert(post_cells[start + j - 1].row == CellRow::Data(rnum));
            assert(post_cells[start + j - 1].row != CellRow::Data(rn));
            assert(proto_row_names_upto(post_cells, post_cols, rn, start + j)
                =~= proto_row_names_upto(post_cells, post_cols, rn, start));
        }
    }
}

/// A finished build keeps every row's names: reading names through the
/// matrix's headers gives the same sequences as reading them through the
/// prototypes the matrix was built from. Together with
/// [`lemma_add_row_names`], the rows read back from a built matrix are
/// exactly the rows that were put in.
pub proof fn lemma_built_row_names<T>(
    pcells: Seq<ProtoCell>,
    pcols: Seq<ProtoColumn<T>>,
    s: crate::matrix::MatState<T>,
    rn: usize,
    n: int,
)
    requires
        s.cells.len() == pcells.len(),
        s.headers.len() == pcols.len(),
        n <= pcells.len(),
        forall|i: int| 0 <= i < s.cells.len() ==> #[trigger] s.cells[i] == cell_of_proto(pcells[i]),
        forall|c: int|
            0 <= c < s.headers.len() ==> (#[trigger] s.headers[c]).name == pcols[c].name,
        forall|i: int| 0 <= i < pcells.len() ==> (#[trigger] pcells[i]).column < pcols.len(),
    ensures
        crate::matrix::row_names_upto(s, rn, n) == proto_row_names_upto(pcells, pcols, rn, n),
    decreases n,
{
    if n > 0 {
        lemma_built_row_names(pcells, pcols, s, rn, n - 1);
    }
}

} // verus!
