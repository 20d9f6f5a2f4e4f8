//! Owning pointers, nodes, and the claim that guards a node while an intrusive
//! structure holds it.

use core::marker::PhantomData;
use vstd::prelude::*;

verus! {

/// The address of the field that lies `offset` bytes into the object at
/// `node`.
pub open spec fn field_addr(node: usize, offset: usize) -> int {
    node + offset
}

/// The address of the field `offset` bytes into the object at `node`.
pub fn field_of(node: usize, offset: usize) -> (field: usize)
    requires
        field_addr(node, offset) <= usize::MAX,
    ensures
        field == field_addr(node, offset),
{
    node + offset
}

/// The address of the object that holds, `offset` bytes in, the field at
/// `field`.
pub fn container_of(field: usize, offset: usize) -> (node: usize)
    requires
        offset <= field,
    ensures
        node == field - offset,
        field_addr(node, offset) == field,
{
    field - offset
}

/// Going from an object to its field and back gives the object again, and
/// the same holds the other way round.
pub proof fn lemma_translation_inverse(node: usize, field: usize, offset: usize)
    requires
        field_addr(node, offset) <= usize::MAX,
        offset <= field,
    ensures
        field_addr(node, offset) - offset == node,
        field_addr((field - offset) as usize, offset) == field,
{
}

/// What a node type supplies so that it can sit in an intrusive structure
/// through an embedded link of type `L`.
pub trait Node<L> {
    /// How many bytes into the node its link lies.
    spec fn link_offset() -> usize;

    /// Tries to claim the node for one intrusive structure. `false` means
    /// that it is claimed already.
    fn acquire(node: &Self) -> bool;

    /// Gives up a claim that `acquire` granted.
    fn release(node: &Self);

    /// The address of the link in the node at `node`.
    fn as_link(node: usize) -> (link: usize)
        requires
            field_addr(node, Self::link_offset()) <= usize::MAX,
        ensures
            link == field_addr(node, Self::link_offset()),
    ;

    /// The address of the node whose link is at `link`.
    fn as_node(link: usize) -> (node: usize)
        requires
            Self::link_offset() <= link,
        ensures
            node == link - Self::link_offset(),
    ;
}

/// A pointer that owns its pointee and can give the ownership up for a bare
/// address, and take it back from one.
pub trait Pointer: Sized {
    type Pointee;

    /// The address of the pointee. It is never null.
    spec fn addr(&self) -> usize;

    /// The pointee.
    fn pointee(&self) -> &Self::Pointee;

    /// The pointee's address, with the ownership kept.
    fn as_raw(&self) -> (raw: usize)
        ensures
            raw == self.addr(),
            raw != 0,
    ;

    /// Gives up the ownership and returns the pointee's address.
    fn into_raw(self) -> (raw: usize)
        ensures
            raw == self.addr(),
            raw != 0,
    ;

    /// Takes back the ownership that `into_raw` gave up at `raw`.
    fn from_raw(raw: usize) -> (pointer: Self)
        requires
            raw != 0,
        ensures
            pointer.addr() == raw,
    ;
}

/// How many bytes into its node the link of type `L` lies, for the nodes
/// that `P` points to.
pub open spec fn link_offset_of<P, L>() -> usize where P: Pointer, P::Pointee: Node<L> {
    <P::Pointee as Node<L>>::link_offset()
}

/// The address of the link of type `L` in the node at `node`, for the nodes
/// that `P` points to.
pub open spec fn link_addr_of<P, L>(node: usize) -> int where P: Pointer, P::Pointee: Node<L> {
    field_addr(node, link_offset_of::<P, L>())
}

/// A bare reference to a `T` that lives at a known address and is owned
/// elsewhere.
pub struct UnsafeRef<T> {
    addr: usize,
    _t: PhantomData<T>,
}

impl<T> UnsafeRef<T> {
    /// The address referred to.
    pub closed spec fn addr(&self) -> usize {
        self.addr
    }

    /// A reference to the `T` at `raw`.
    pub fn from_raw(raw: usize) -> (reference: Self)
        requires
            raw != 0,
        ensures
            reference.addr() == raw,
    {
        UnsafeRef { addr: raw, _t: PhantomData }
    }

    /// The address referred to.
    pub fn as_raw(&self) -> (raw: usize)
        ensures
            raw == self.addr(),
    {
        self.addr
    }
}

/// The claim on a node failed; the pointer comes back untouched.
#[derive(Debug)]
pub struct AcquireError<P>(pub P);

/// A claimed node. It is to be used up exactly once: by `release`, or by
/// `into_link`, which hands the node to a structure of bare links.
#[derive(Debug)]
pub struct Acquired<P, L>(P, PhantomData<L>) where P: Pointer, P::Pointee: Node<L>;

impl<P, L> Acquired<P, L> where P: Pointer, P::Pointee: Node<L> {
    /// The pointer that the claim was made through.
    pub closed spec fn pointer(&self) -> P {
        self.0
    }

    /// The address of the link inside the claimed node.
    pub open spec fn link_addr(&self) -> int {
        link_addr_of::<P, L>(self.pointer().addr())
    }

    /// Takes a claimed node back from the address of its link. The claim is
    /// taken to be held still: none is made.
    pub fn from_link_unchecked(link: usize) -> (guard: Self)
        requires
            <P::Pointee as Node<L>>::link_offset() < link,
        ensures
            guard.link_addr() == link,
    {
        let raw = <P::Pointee as Node<L>>::as_node(link);
        Acquired(P::from_raw(raw), PhantomData)
    }

    /// Wraps a pointer whose node the caller has claimed already.
    pub fn new_unchecked(node: P) -> (guard: Self)
        ensures
            guard.pointer() == node,
    {
        Acquired(node, PhantomData)
    }

    /// Gives up the claim and returns the pointer.
    pub fn release(self) -> (node: P)
        ensures
            node == self.pointer(),
    {
        let node = self.leak();
        <P::Pointee as Node<L>>::release(node.pointee());
        node
    }

    /// Hands the node over as the address of its link. The pointer's
    /// ownership goes with the address.
    pub fn into_link(self) -> (link: usize)
        requires
            self.link_addr() <= usize::MAX,
        ensures
            link == self.link_addr(),
            self.pointer().addr() != 0,
    {
        let raw = self.leak().into_raw();
        <P::Pointee as Node<L>>::as_link(raw)
    }

    fn leak(self) -> (node: P)
        ensures
            node == self.pointer(),
    {
        self.0
    }
}

/// What a claim on `node` comes to: a guard over that pointer where the node
/// granted the claim, the pointer itself inside an error where it did not.
pub open spec fn claim_outcome<P, L>(
    node: P,
    granted: bool,
    res: Result<Acquired<P, L>, AcquireError<P>>,
) -> bool where P: Pointer, P::Pointee: Node<L> {
    match res {
        Ok(guard) => granted && guard.pointer() == node,
        Err(error) => !granted && error.0 == node,
    }
}

/// A claim and the release that follows it give back the very pointer that
/// went in: `release` returns the guard's pointer, and the guard of a granted
/// claim holds the pointer that was claimed through.
pub proof fn law_claim_round_trip<P, L>(node: P, res: Result<Acquired<P, L>, AcquireError<P>>)
    where P: Pointer, P::Pointee: Node<L>,
    requires
        claim_outcome(node, true, res),
    ensures
        res is Ok,
        res->Ok_0.pointer() == node,
        res->Ok_0.link_addr() == link_addr_of::<P, L>(node.addr()),
{
}

/// What `acquire` returns once the node has answered the claim: the guard if
/// it granted it, the pointer back if not.
pub fn settle_claim<P, L>(node: P, granted: bool) -> (res: Result<Acquired<P, L>, AcquireError<P>>)
    where P: Pointer, P::Pointee: Node<L>,
    ensures
        claim_outcome(node, granted, res),
{
    if granted {
        Ok(Acquired(node, PhantomData))
    } else {
        Err(AcquireError(node))
    }
}

/// Claims the node behind `node`. On success the pointer is wrapped in a
/// guard; on failure it comes back unchanged inside the error. Which of the
/// two happens is the node's answer to the claim.
pub fn acquire<P, L>(node: P) -> (res: Result<Acquired<P, L>, AcquireError<P>>)
    where P: Pointer, P::Pointee: Node<L>,
    ensures
        claim_outcome(node, res is Ok, res),
{
    let granted = <P::Pointee as Node<L>>::acquire(node.pointee());
    settle_claim(node, granted)
}

} // verus!
