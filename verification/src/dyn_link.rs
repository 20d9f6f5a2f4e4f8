//! Inline storage for the words of an intrusive link.

use vstd::prelude::*;

verus! {

/// A link that several kinds of intrusive collection can share: room for `N`
/// address-sized words, embedded by value in a node.
#[derive(Debug)]
pub struct DynLink<const N: usize> {
    words: [usize; N],
}

impl<const N: usize> DynLink<N> {
    /// The words of the link, in order.
    pub closed spec fn words(&self) -> Seq<usize> {
        self.words@
    }

    /// A link with every word cleared.
    pub fn new() -> (link: Self)
        ensures
            link.words().len() == N,
            forall|i: int| 0 <= i < N ==> link.words()[i] == 0,
    {
        Self { words: [0usize; N] }
    }

    /// The word at `index`.
    pub fn word(&self, index: usize) -> (word: usize)
        requires
            index < N,
        ensures
            word == self.words()[index as int],
    {
        self.words[index]
    }
}

impl<const N: usize> Default for DynLink<N> {
    fn default() -> (link: Self)
        ensures
            link.words().len() == N,
            forall|i: int| 0 <= i < N ==> link.words()[i] == 0,
    {
        Self::new()
    }
}

} // verus!
