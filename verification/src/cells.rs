//! Cell and column records of the matrix.
//!
//! Cells and columns live in contiguous vectors and refer to one another by
//! dense indices, so every link is a plain `usize`. `ProtoCell` and
//! `ProtoColumn` are the records used while the matrix is being built;
//! `Cell` and `ColumnInfo` are their finished forms.

use vstd::prelude::*;

verus! {

/// The row of a cell: either the header row of a column or a data row,
/// counted from 1 in insertion order.
#[derive(Debug, Clone, Copy, PartialEq, Eq, Structural)]
pub enum CellRow {
    Header,
    Data(usize),
}

impl CellRow {
    /// The 1-based number of a data row.
    pub open spec fn row_number(self) -> usize {
        self->Data_0
    }
}

/// A cell as recorded during construction: four neighbour links, the owning
/// column and the row tag. A fresh cell is linked to itself in all four
/// directions.
#[derive(Debug, Clone, Copy)]
pub struct ProtoCell {
    pub index: usize,
    pub up: usize,
    pub down: usize,
    pub left: usize,
    pub right: usize,
    pub column: usize,
    pub row: CellRow,
}

impl ProtoCell {
    /// Creates a cell prototype whose four links all point at the cell itself.
    pub fn new(index: usize, column: usize, row: CellRow) -> (r: ProtoCell)
        ensures
            r.index == index,
            r.up == index,
            r.down == index,
            r.left == index,
            r.right == index,
            r.column == column,
            r.row == row,
    {
        ProtoCell { index, up: index, down: index, left: index, right: index, column, row }
    }
}

/// A finished cell of the matrix. Identical in shape to [`ProtoCell`]; the
/// owning column is recorded in the `header` field.
#[derive(Debug, Clone)]
pub struct Cell {
    pub index: usize,
    pub up: usize,
    pub down: usize,
    pub left: usize,
    pub right: usize,
    pub header: usize,
    pub row: CellRow,
}

impl Cell {
    /// Creates a cell whose four links all point at the cell itself.
    pub fn new(index: usize, header: usize, row: CellRow) -> (r: Cell)
        ensures
            r.index == index,
            r.up == index,
            r.down == index,
            r.left == index,
            r.right == index,
            r.header == header,
            r.row == row,
    {
        Cell { index, up: index, down: index, left: index, right: index, header, row }
    }

    /// The finished form of a cell prototype.
    pub fn from_proto(proto: ProtoCell) -> (r: Cell)
        ensures
            r.index == proto.index,
            r.up == proto.up,
            r.down == proto.down,
            r.left == proto.left,
            r.right == proto.right,
            r.header == proto.column,
            r.row == proto.row,
    {
        Cell {
            index: proto.index,
            up: proto.up,
            down: proto.down,
            left: proto.left,
            right: proto.right,
            header: proto.column,
            row: proto.row,
        }
    }
}

/// The name of a column: the distinguished first (sentinel) column, or a
/// caller-supplied item value.
#[derive(Debug, Clone, PartialEq, Eq)]
pub enum ColumnName<T> {
    First,
    Other(T),
}

impl<T> ColumnName<T> {
    /// The caller-supplied value of the name, if the column is not the sentinel.
    pub fn get_name(&self) -> (r: Option<&T>)
        ensures
            match r {
                Some(name) => *self matches ColumnName::Other(n) && n == name,
                None => *self is First,
            },
    {
        match self {
            ColumnName::Other(name) => Some(name),
            ColumnName::First => None,
        }
    }

    /// True of the sentinel column's name.
    pub fn is_first(&self) -> (r: bool)
        ensures
            r == (*self is First),
    {
        match self {
            ColumnName::First => true,
            ColumnName::Other(_) => false,
        }
    }
}

/// A column as recorded during construction.
#[derive(Debug, Clone)]
pub struct ProtoColumn<T> {
    pub index: usize,
    pub name: ColumnName<T>,
    pub size: usize,
    pub primary: bool,
}

impl<T> ProtoColumn<T> {
    /// Creates a column prototype of size 0.
    pub fn new(index: usize, name: ColumnName<T>, primary: bool) -> (r: ProtoColumn<T>)
        ensures
            r.index == index,
            r.name == name,
            r.size == 0,
            r.primary == primary,
    {
        ProtoColumn { index, name, size: 0, primary }
    }
}

/// A finished column of the matrix: its dense index, name, whether it is
/// primary, the number of cells currently linked into its vertical ring,
/// and the index of its header cell once that cell exists.
#[derive(Debug, Clone)]
pub struct ColumnInfo<T> {
    pub index: usize,
    pub name: ColumnName<T>,
    pub size: usize,
    pub cell: Option<usize>,
    pub primary: bool,
}

impl<T> ColumnInfo<T> {
    /// Creates a column whose header cell is not yet known.
    pub fn new(name: ColumnName<T>, index: usize, size: usize, primary: bool) -> (r: ColumnInfo<
        T,
    >)
        ensures
            r.index == index,
            r.name == name,
            r.size == size,
            r.cell is None,
            r.primary == primary,
    {
        ColumnInfo { index, name, size, cell: None, primary }
    }

    /// The finished form of a column prototype; the header cell is still unset.
    pub fn from_proto(proto: ProtoColumn<T>) -> (r: ColumnInfo<T>)
        ensures
            r.index == proto.index,
            r.name == proto.name,
            r.size == proto.size,
            r.cell is None,
            r.primary == proto.primary,
    {
        ColumnInfo::new(proto.name, proto.index, proto.size, proto.primary)
    }

    /// Records the index of the column's header cell.
    pub fn update_pointer(&mut self, cell: usize)
        ensures
            *final(self) == (ColumnInfo { cell: Some(cell), ..*old(self) }),
    {
        self.cell = Some(cell);
    }

    /// True once the column's header cell has been recorded.
    pub fn has_cell(&self) -> (r: bool)
        ensures
            r == (self.cell is Some),
    {
        self.cell.is_some()
    }

    /// Increments the column's size, stopping at the largest representable
    /// value, and returns the new size.
    pub fn increase_size(&mut self) -> (r: usize)
        ensures
            final(self).size == old(self).spec_increased(),
            *final(self) == (ColumnInfo { size: final(self).size, ..*old(self) }),
            r == final(self).size,
    {
        if self.size < usize::MAX {
            self.size = self.size + 1;
        }
        self.size
    }

    /// Decrements the column's size, stopping at 0, and returns the new size.
    pub fn decrease_size(&mut self) -> (r: usize)
        ensures
            final(self).size == old(self).spec_decreased(),
            *final(self) == (ColumnInfo { size: final(self).size, ..*old(self) }),
            r == final(self).size,
    {
        if self.size > 0 {
            self.size = self.size - 1;
        }
        self.size
    }

    /// The size after one increment.
    pub open spec fn spec_increased(self) -> usize {
        if self.size < usize::MAX {
            (self.size + 1) as usize
        } else {
            usize::MAX
        }
    }

    /// The size after one decrement.
    pub open spec fn spec_decreased(self) -> usize {
        if self.size > 0 {
            (self.size - 1) as usize
        } else {
            0
        }
    }

    /// The number of cells currently linked into the column's vertical ring.
    pub fn size(&self) -> (r: usize)
        ensures
            r == self.size,
    {
        self.size
    }

    /// True when no cell is linked into the column's vertical ring.
    pub fn empty(&self) -> (r: bool)
        ensures
            r == (self.size == 0),
    {
        self.size == 0
    }
}

} // verus!
