//! Atomic cells, reached through exclusive borrows.
//!
//! A cell is written only through `&mut`, so between two writes every read
//! gives the word that the first of them stored. That is what makes it sound
//! to speak of the word that a cell holds.

use atomic::Atomic;
use atomic::Ordering;
use vstd::prelude::*;

verus! {

#[verifier::external_type_specification]
#[verifier::external_body]
#[verifier::reject_recursive_types(T)]
pub struct ExAtomic<T>(Atomic<T>);

/// The word that an atomic cell holds.
pub uninterp spec fn word_of(cell: Atomic<usize>) -> usize;

/// `Atomic::new`: the new cell holds the word it was made from.
#[verifier::external_body]
pub(crate) fn cell_new(word: usize) -> (cell: Atomic<usize>)
    ensures
        word_of(cell) == word,
{
    Atomic::new(word)
}

/// `Atomic::load`: the word last written to the cell. The cell is only ever
/// written through an exclusive borrow, so no other write can come between.
/// The call panics on a `Release` or `AcqRel` ordering, which are left out.
#[verifier::external_body]
pub(crate) fn cell_load(cell: &Atomic<usize>, order: Ordering) -> (word: usize)
    requires
        order != Ordering::Release,
        order != Ordering::AcqRel,
    ensures
        word == word_of(*cell),
{
    cell.load(order)
}

/// `Atomic::store`: afterwards the cell holds `word`. The call panics on an
/// `Acquire` or `AcqRel` ordering, which are left out.
#[verifier::external_body]
pub(crate) fn cell_store(cell: &mut Atomic<usize>, word: usize, order: Ordering)
    requires
        order != Ordering::Acquire,
        order != Ordering::AcqRel,
    ensures
        word_of(*final(cell)) == word,
{
    cell.store(word, order)
}

/// `Atomic::swap`: afterwards the cell holds `word`, and the word it held
/// before is returned.
#[verifier::external_body]
pub(crate) fn cell_swap(cell: &mut Atomic<usize>, word: usize, order: Ordering) -> (prev: usize)
    ensures
        prev == word_of(*old(cell)),
        word_of(*final(cell)) == word,
{
    cell.swap(word, order)
}

} // verus!
