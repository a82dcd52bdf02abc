use crate::error::MatError;
use crate::number::Number;
use vstd::prelude::*;

verus! {

/// One row of a matrix: an ordered sequence of elements.
///
/// A row built by [`ParRow::new`] is never empty. The field is open so that a
/// row can also be assembled directly, in which case [`ParRow::wf`] says
/// whether it is fit to stand in a matrix.
#[derive(Debug)]
pub struct ParRow<T> {
    pub data: Vec<T>,
}

impl<T> View for ParRow<T> {
    type V = Seq<T>;

    open spec fn view(&self) -> Seq<T> {
        self.data@
    }
}

impl<T: Number> ParRow<T> {
    /// A row is well formed when it holds at least one element.
    pub open spec fn wf(&self) -> bool {
        self@.len() > 0
    }

    /// Wraps `data` as a row, keeping the order of its elements. An empty
    /// `data` is refused with [`MatError::EmptyRow`].
    pub fn new(data: Vec<T>) -> (r: Result<Self, MatError>)
        ensures
            r.is_ok() <==> data@.len() > 0,
            r matches Ok(row) ==> row@ == data@ && row.wf(),
            r matches Err(e) ==> e == MatError::EmptyRow,
    {
        if data.is_empty() {
            return Err(MatError::EmptyRow);
        }
        Ok(ParRow { data })
    }

    /// Exclusive access to the whole row. Whatever the caller leaves behind
    /// the reference is the row's new content.
    pub fn get_mut_ref(&mut self) -> (r: &mut Vec<T>)
        ensures
            r@ == old(self)@,
            final(self)@ == final(r)@,
    {
        &mut self.data
    }

    /// Shared access to the whole row.
    pub fn get_ref(&self) -> (r: &Vec<T>)
        ensures
            r@ == self@,
    {
        &self.data
    }

    /// The element at position `i`, or [`MatError::IndexOutOfRange`] when `i`
    /// is not a position of the row.
    pub fn loc(&self, i: usize) -> (r: Result<&T, MatError>)
        ensures
            r.is_ok() <==> i < self@.len(),
            r matches Ok(element) ==> *element == self@[i as int],
            r matches Err(e) ==> e == MatError::IndexOutOfRange,
    {
        if i < self.len() {
            Ok(&self.data[i])
        } else {
            Err(MatError::IndexOutOfRange)
        }
    }

    /// The number of elements in the row.
    pub fn len(&self) -> (n: usize)
        ensures
            n == self@.len(),
    {
        self.data.len()
    }
}

} // verus!
