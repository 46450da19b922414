//! Traversal of a matrix stored column by column.

use vstd::prelude::*;
use vstd::arithmetic::div_mod::lemma_fundamental_div_mod_converse;

verus! {

/// Walks over the entries of a matrix in storage order, column after column,
/// and names the row and the column of each.
pub struct MatrixIterator<'a, T> {
    col_index: usize,
    row_index: usize,
    index: usize,
    data: &'a [T],
    num_cols: usize,
    num_rows: usize,
}

impl<'a, T> MatrixIterator<'a, T> {
    /// The entries of the matrix, in storage order.
    pub closed spec fn entries(&self) -> Seq<T> {
        self.data@
    }

    /// Number of rows.
    pub closed spec fn rows(&self) -> nat {
        self.num_rows as nat
    }

    /// Number of columns.
    pub closed spec fn columns(&self) -> nat {
        self.num_cols as nat
    }

    /// Number of entries handed out so far.
    pub closed spec fn position(&self) -> nat {
        self.index as nat
    }

    /// The matrix has a row, its storage holds every entry, and the row and
    /// column in hand are those of the next entry.
    pub closed spec fn wf(&self) -> bool {
        &&& self.num_rows > 0
        &&& self.data@.len() == self.num_rows * self.num_cols
        &&& self.row_index <= self.num_rows
        &&& self.col_index <= self.num_cols
        &&& self.col_index == self.num_cols ==> self.row_index == 0
        &&& self.index == self.col_index * self.num_rows + self.row_index
    }

    /// An iterator over a matrix of `num_rows` rows and `num_cols` columns
    /// stored in `data`.
    pub fn new(data: &'a [T], num_rows: usize, num_cols: usize) -> (iterator: MatrixIterator<'a, T>)
        requires
            num_rows > 0,
            data@.len() == num_rows * num_cols,
        ensures
            iterator.wf(),
            iterator.entries() == data@,
            iterator.rows() == num_rows,
            iterator.columns() == num_cols,
            iterator.position() == 0,
    {
        proof {
            assert(0 * num_rows + 0 == 0);
        }
        MatrixIterator {
            col_index: 0,
            row_index: 0,
            index: 0,
            data: data,
            num_rows: num_rows,
            num_cols: num_cols,
        }
    }

    /// The next entry with its row and its column, or `None` when every entry
    /// has been handed out.
    pub fn next(&mut self) -> (item: Option<(&'a T, usize, usize)>)
        requires
            old(self).wf(),
        ensures
            final(self).wf(),
            final(self).entries() == old(self).entries(),
            final(self).rows() == old(self).rows(),
            final(self).columns() == old(self).columns(),
            old(self).position() < old(self).entries().len() ==> {
                &&& item is Some
                &&& *item->Some_0.0 == old(self).entries()[old(self).position() as int]
                &&& item->Some_0.1 == old(self).position() % old(self).rows()
                &&& item->Some_0.2 == old(self).position() / old(self).rows()
                &&& final(self).position() == old(self).position() + 1
            },
            old(self).position() >= old(self).entries().len() ==> {
                &&& item is None
                &&& final(self).position() == old(self).position()
            },
    {
        proof {
            lemma_storage_order(
                self.col_index as nat,
                self.row_index as nat,
                self.num_rows as nat,
                self.num_cols as nat,
            );
        }
        if self.row_index == self.num_rows {
            self.col_index = self.col_index + 1;
            self.row_index = 0;
        }
        proof {
            lemma_storage_order(
                self.col_index as nat,
                self.row_index as nat,
                self.num_rows as nat,
                self.num_cols as nat,
            );
        }
        if self.col_index == self.num_cols {
            None
        } else {
            let data: &'a [T] = self.data;
            let result: Option<(&'a T, usize, usize)> = Some(
                (&data[self.index], self.row_index, self.col_index),
            );
            self.index = self.index + 1;
            self.row_index = self.row_index + 1;
            result
        }
    }
}

/// Entry `row` of column `column` is stored at `column * rows + row`, a
/// position from which division by `rows` gives back both. The last position
/// of a column is also the one before the next column.
pub proof fn lemma_storage_order(column: nat, row: nat, rows: nat, columns: nat)
    requires
        rows > 0,
        row <= rows,
        column <= columns,
        column == columns ==> row == 0,
    ensures
        column * rows + row <= rows * columns,
        row < rows ==> (column * rows + row) / rows == column && (column * rows + row) % rows
            == row,
        row < rows && column < columns ==> column * rows + row < rows * columns,
        column == columns ==> column * rows + row == rows * columns,
        row == rows ==> column * rows + row == (column + 1) * rows && column < columns,
{
    assert((column + 1) * rows == column * rows + rows) by (nonlinear_arith);
    assert(columns * rows == rows * columns) by (nonlinear_arith);
    if column < columns {
        assert((column + 1) * rows <= columns * rows) by (nonlinear_arith)
            requires
                column + 1 <= columns,
        ;
    }
    if row < rows {
        lemma_fundamental_div_mod_converse(
            (column * rows + row) as int,
            rows as int,
            column as int,
            row as int,
        );
    }
}

} // verus!
