//! Changes to a vector, one at a time.

use vstd::prelude::*;

verus! {

/// One change to a vector.
#[derive(Debug, PartialEq)]
pub enum VecDiff<A> {
    /// The whole content becomes `values`.
    Replace { values: Vec<A> },
    /// `value` is inserted in front of the element at `index`.
    InsertAt { index: usize, value: A },
    /// The element at `index` becomes `value`.
    UpdateAt { index: usize, value: A },
    /// The element at `index` is taken out.
    RemoveAt { index: usize },
    /// The element at `old_index` is taken out, and inserted at `new_index`.
    Move { old_index: usize, new_index: usize },
    /// `value` is appended.
    Push { value: A },
    /// The last element is taken out.
    Pop,
    /// All elements are taken out.
    Clear,
}

/// One change to a sequence: what a `VecDiff` means.
pub enum Patch<A> {
    Replace(Seq<A>),
    InsertAt(int, A),
    UpdateAt(int, A),
    RemoveAt(int),
    Move(int, int),
    Push(A),
    Pop,
    Clear,
}

impl<A> View for VecDiff<A> {
    type V = Patch<A>;

    open spec fn view(&self) -> Patch<A> {
        match *self {
            VecDiff::Replace { values } => Patch::Replace(values@),
            VecDiff::InsertAt { index, value } => Patch::InsertAt(index as int, value),
            VecDiff::UpdateAt { index, value } => Patch::UpdateAt(index as int, value),
            VecDiff::RemoveAt { index } => Patch::RemoveAt(index as int),
            VecDiff::Move { old_index, new_index } => Patch::Move(
                old_index as int,
                new_index as int,
            ),
            VecDiff::Push { value } => Patch::Push(value),
            VecDiff::Pop => Patch::Pop,
            VecDiff::Clear => Patch::Clear,
        }
    }
}

impl<A> Patch<A> {
    /// Whether the change can be made to a sequence of length `len`.
    pub open spec fn fits(self, len: int) -> bool {
        match self {
            Patch::Replace(values) => true,
            Patch::InsertAt(index, value) => 0 <= index <= len,
            Patch::UpdateAt(index, value) => 0 <= index < len,
            Patch::RemoveAt(index) => 0 <= index < len,
            Patch::Move(old_index, new_index) => 0 <= old_index < len && 0 <= new_index < len,
            Patch::Push(value) => true,
            Patch::Pop => 0 < len,
            Patch::Clear => true,
        }
    }

    /// The sequence after the change.
    pub open spec fn apply(self, s: Seq<A>) -> Seq<A>
        recommends
            self.fits(s.len() as int),
    {
        match self {
            Patch::Replace(values) => values,
            Patch::InsertAt(index, value) => s.insert(index, value),
            Patch::UpdateAt(index, value) => s.update(index, value),
            Patch::RemoveAt(index) => s.remove(index),
            Patch::Move(old_index, new_index) => s.remove(old_index).insert(
                new_index,
                s[old_index],
            ),
            Patch::Push(value) => s.push(value),
            Patch::Pop => s.drop_last(),
            Patch::Clear => Seq::empty(),
        }
    }
}

} // verus!
