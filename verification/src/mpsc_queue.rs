//! A multi-producer/single-consumer queue of link addresses, kept non-empty
//! inside by a stub link.

use crate::cell::{cell_load, cell_new, cell_store, cell_swap, word_of};
use crate::node::{acquire, link_addr_of, link_offset_of, AcquireError, Acquired, Node, Pointer};
use crate::queue_view::QueueView;
use atomic::Atomic;
use atomic::Ordering;
use core::marker::PhantomData;
use std::collections::HashMap;
use vstd::prelude::*;

verus! {

broadcast use vstd::std_specs::hash::group_hash_axioms;

/// The slot that chains one queue element to the next.
#[derive(Debug)]
pub struct Link {
    next: Atomic<usize>,
}

impl Link {
    /// The address of the following link, if one was published. The slot
    /// holds the address itself, and zero for none.
    pub closed spec fn next(&self) -> Option<usize> {
        if word_of(self.next) == 0 {
            None
        } else {
            Some(word_of(self.next))
        }
    }

    /// A link with nothing after it.
    pub fn new() -> (link: Self)
        ensures
            link.next() == None::<usize>,
    {
        Link { next: cell_new(0) }
    }

    /// Reads the slot, so as to see what a producer has published.
    fn load_next(&self) -> (next: Option<usize>)
        ensures
            next == self.next(),
    {
        let word = cell_load(&self.next, Ordering::Acquire);
        if word == 0 {
            None
        } else {
            Some(word)
        }
    }

    /// Empties the slot. Only the producer that is about to push the link can
    /// see it, so the write is unordered.
    fn clear_next(&mut self)
        ensures
            final(self).next() == None::<usize>,
    {
        cell_store(&mut self.next, 0, Ordering::Relaxed);
    }

    /// Writes `link` into the slot, which publishes it to the consumer.
    fn publish_next(&mut self, link: usize)
        requires
            link != 0,
        ensures
            final(self).next() == Some(link),
    {
        cell_store(&mut self.next, link, Ordering::Release);
    }
}

impl Default for Link {
    fn default() -> (link: Self)
        ensures
            link.next() == None::<usize>,
    {
        Link::new()
    }
}

/// The queue proper: head, tail and stub addresses, and the link cells that
/// can be reached from them.
pub struct UnsafeMpscQueue {
    head: Atomic<usize>,
    tail: Atomic<usize>,
    stub: usize,
    links: HashMap<usize, Link>,
    order: Ghost<Seq<usize>>,
}

impl UnsafeMpscQueue {
    /// What each cell in the table has in its slot.
    spec fn slots(&self) -> Map<usize, Option<usize>> {
        self.links@.map_values(|cell: Link| cell.next())
    }

    /// The chain from tail to head is intact: every cell on it is in the
    /// table, and each slot is empty or names the cell after it.
    spec fn chain_wf(&self) -> bool {
        let order = self.order@;
        &&& self.stub != 0
        &&& order.len() >= 1
        &&& order[0] == word_of(self.tail)
        &&& order.last() == word_of(self.head)
        &&& order.no_duplicates()
        &&& forall|i: int| 0 <= i < order.len() ==> #[trigger] order[i] != 0
        &&& forall|a: usize| #[trigger]
            self.slots().contains_key(a) <==> (a == self.stub || order.contains(a))
        &&& forall|i: int|
            0 <= i < order.len() - 1 ==> {
                let next = #[trigger] self.slots()[order[i]];
                next == None::<usize> || next == Some(order[i + 1])
            }
        &&& self.slots()[order.last()] == None::<usize>
    }

    /// Where the elements start on the chain: behind the stub when the tail
    /// rests on it.
    spec fn start(&self) -> int {
        if self.order@[0] == self.stub {
            1
        } else {
            0
        }
    }

    /// The queue is intact, and the stub is on the chain at the tail or not at
    /// all.
    pub closed spec fn wf(&self) -> bool {
        &&& self.chain_wf()
        &&& forall|i: int| 1 <= i < self.order@.len() ==> #[trigger] self.order@[i] != self.stub
    }

    /// The address of the stub link.
    pub closed spec fn stub(&self) -> usize {
        self.stub
    }

    /// What the queue holds, and which of it the consumer can reach.
    pub closed spec fn view(&self) -> QueueView {
        let start = self.start();
        let order = self.order@;
        QueueView {
            stub: self.stub,
            nodes: order.skip(start),
            published: Seq::new(
                (order.len() - start) as nat,
                |i: int|
                    start + i == 0 || self.slots()[order[start + i - 1]] == Some(
                        order[start + i],
                    ),
            ),
        }
    }

    /// An intact queue has a well-formed view.
    pub proof fn lemma_view_wf(&self)
        requires
            self.wf(),
        ensures
            self@.wf(),
            self@.stub == self.stub(),
    {
        let order = self.order@;
        let start = self.start();
        let nodes = order.skip(start);
        assert forall|i: int, j: int|
            0 <= i < nodes.len() && 0 <= j < nodes.len() && i != j implies nodes[i] != nodes[j] by {
            assert(nodes[i] == order[start + i]);
            assert(nodes[j] == order[start + j]);
        }
        assert forall|i: int| 0 <= i < nodes.len() implies #[trigger] nodes[i] != 0 && nodes[i]
            != self.stub by {
            assert(nodes[i] == order[start + i]);
        }
    }

    /// A queue that holds only the stub: the cell `link`, which lives at the
    /// address `stub`.
    pub fn with_stub(stub: usize, link: Link) -> (queue: Self)
        requires
            stub != 0,
            link.next() == None::<usize>,
        ensures
            queue.wf(),
            queue.stub() == stub,
            queue@ == QueueView::empty(stub),
    {
        let mut links: HashMap<usize, Link> = HashMap::new();
        links.insert(stub, link);
        assert(links@.map_values(|cell: Link| cell.next()) =~= Map::<
            usize,
            Option<usize>,
        >::empty().insert(stub, None));
        let order = Ghost(Seq::<usize>::empty().push(stub));
        let queue = UnsafeMpscQueue {
            head: cell_new(stub),
            tail: cell_new(stub),
            stub,
            links,
            order,
        };
        proof {
            assert(queue.order@[0] == stub);
            assert forall|a: usize| #[trigger]
                queue.slots().contains_key(a) <==> (a == stub || queue.order@.contains(a)) by {
                if queue.order@.contains(a) {
                    assert(a == stub);
                }
            }
            assert(queue@.nodes =~= Seq::<usize>::empty());
            assert(queue@.published =~= Seq::<bool>::empty());
        }
        queue
    }

    /// The slot of the cell at `link`.
    fn next_of(&self, link: usize) -> (next: Option<usize>)
        requires
            self.slots().contains_key(link),
        ensures
            next == self.slots()[link],
    {
        match self.links.get(&link) {
            Some(cell) => cell.load_next(),
            None => None,
        }
    }

    /// Clears the slot of `link` and exchanges the head for it.
    fn exchange_head(&mut self, link: usize) -> (prev: usize)
        requires
            old(self).chain_wf(),
            link != 0,
            !old(self).order@.contains(link),
        ensures
            final(self).chain_wf(),
            prev == old(self).order@.last(),
            final(self).order@ == old(self).order@.push(link),
            final(self).slots() == old(self).slots().insert(link, None),
            final(self).stub == old(self).stub,
            word_of(final(self).tail) == word_of(old(self).tail),
    {
        let mut cell = match self.links.remove(&link) {
            Some(cell) => cell,
            None => Link::new(),
        };
        cell.clear_next();
        self.links.insert(link, cell);
        assert(self.slots() =~= old(self).slots().insert(link, None));
        let prev = cell_swap(&mut self.head, link, Ordering::AcqRel);
        self.order = Ghost(self.order@.push(link));
        proof {
            let before = old(self).order@;
            let after = self.order@;
            assert(after.last() == link);
            assert forall|i: int| 0 <= i < before.len() implies after[i] == before[i] && before[i]
                != link by {
                assert(before.contains(before[i]));
            }
            assert forall|a: usize| #[trigger]
                self.slots().contains_key(a) <==> (a == self.stub || after.contains(a)) by {
                if after.contains(a) {
                    let i = choose|i: int| 0 <= i < after.len() && after[i] == a;
                    if i < before.len() {
                        assert(before.contains(a));
                    }
                }
                if before.contains(a) {
                    let i = choose|i: int| 0 <= i < before.len() && before[i] == a;
                    assert(after[i] == a);
                }
                if a == link {
                    assert(after.last() == a);
                }
            }
            assert forall|i: int| 0 <= i < after.len() - 1 implies ({
                let next = #[trigger] self.slots()[after[i]];
                next == None::<usize> || next == Some(after[i + 1])
            }) by {
                assert(self.slots()[after[i]] == old(self).slots()[before[i]]);
            }
        }
        prev
    }

    /// Writes `link` into the slot of `prev`, the cell before it on the chain.
    fn publish(&mut self, prev: usize, link: usize)
        requires
            old(self).chain_wf(),
            exists|i: int|
                0 <= i < old(self).order@.len() - 1 && #[trigger] old(self).order@[i] == prev
                    && old(self).order@[i + 1] == link,
        ensures
            final(self).chain_wf(),
            final(self).order@ == old(self).order@,
            final(self).slots() == old(self).slots().insert(prev, Some(link)),
            final(self).stub == old(self).stub,
            word_of(final(self).tail) == word_of(old(self).tail),
            word_of(final(self).head) == word_of(old(self).head),
    {
        proof {
            let order = self.order@;
            let at = choose|i: int|
                0 <= i < order.len() - 1 && #[trigger] order[i] == prev && order[i + 1] == link;
            assert(order.contains(prev));
            assert(order[at + 1] != 0);
            assert(self.slots().contains_key(prev));
            assert(self.links@.contains_key(prev));
        }
        if let Some(mut cell) = self.links.remove(&prev) {
            cell.publish_next(link);
            self.links.insert(prev, cell);
        }
        assert(self.slots() =~= old(self).slots().insert(prev, Some(link)));
        proof {
            let order = self.order@;
            let at = choose|i: int|
                0 <= i < order.len() - 1 && #[trigger] order[i] == prev && order[i + 1] == link;
            assert(order.contains(prev));
            assert forall|i: int| 0 <= i < order.len() - 1 implies ({
                let next = #[trigger] self.slots()[order[i]];
                next == None::<usize> || next == Some(order[i + 1])
            }) by {
                if i != at {
                    assert(self.slots()[order[i]] == old(self).slots()[order[i]]);
                }
            }
        }
    }

    /// The tail rests on an element, the stub is off the chain, and the chain
    /// holds what `view` shows.
    spec fn shows(&self, view: QueueView) -> bool {
        let order = self.order@;
        &&& self.chain_wf()
        &&& forall|i: int| 0 <= i < order.len() ==> #[trigger] order[i] != self.stub
        &&& view.stub == self.stub
        &&& view.nodes == order
        &&& view.published.len() == order.len()
        &&& view.published[0]
        &&& forall|j: int|
            1 <= j < order.len() ==> #[trigger] view.published[j] == (self.slots()[order[j - 1]]
                == Some(order[j]))
    }

    proof fn lemma_admits(&self, link: usize)
        requires
            self.wf(),
            self@.admits(link),
        ensures
            !self.order@.contains(link),
    {
        let order = self.order@;
        let start = self.start();
        if order.contains(link) {
            let i = choose|i: int| 0 <= i < order.len() && order[i] == link;
            if i >= start {
                assert(self@.nodes[i - start] == link);
            }
        }
    }

    proof fn lemma_no_stub(&self)
        requires
            self.wf(),
            self.order@[0] != self.stub,
        ensures
            self.shows(self@),
    {
        assert(self@.nodes =~= self.order@);
    }

    proof fn lemma_idle(&self)
        requires
            self.wf(),
            self.order@[0] == self.stub,
            self.slots()[self.stub] == None::<usize>,
        ensures
            !self@.front_ready(),
    {
    }

    proof fn lemma_past_stub(pre: Self, post: Self, next: usize)
        requires
            pre.wf(),
            pre.order@[0] == pre.stub,
            pre.slots()[pre.stub] == Some(next),
            post.order@ == pre.order@.skip(1),
            post.slots() == pre.slots(),
            post.stub == pre.stub,
            word_of(post.tail) == next,
            word_of(post.head) == word_of(pre.head),
        ensures
            post.shows(pre@),
            post.order@[0] == next,
    {
        let before = pre.order@;
        let after = post.order@;
        assert(before.len() > 1);
        assert(pre.slots()[before[0]] == Some(before[1]));
        assert forall|i: int| 0 <= i < after.len() implies after[i] == before[i + 1] by {}
        assert(after.last() == before.last());
        assert forall|a: usize| #[trigger]
            post.slots().contains_key(a) <==> (a == post.stub || after.contains(a)) by {
            if after.contains(a) {
                let i = choose|i: int| 0 <= i < after.len() && after[i] == a;
                assert(before[i + 1] == a);
            }
            if before.contains(a) && a != post.stub {
                let i = choose|i: int| 0 <= i < before.len() && before[i] == a;
                assert(after[i - 1] == a);
            }
        }
        assert forall|i: int| 0 <= i < after.len() - 1 implies ({
            let next = #[trigger] post.slots()[after[i]];
            next == None::<usize> || next == Some(after[i + 1])
        }) by {
            assert(post.slots()[after[i]] == pre.slots()[before[i + 1]]);
        }
        assert(pre@.nodes =~= after);
    }

    proof fn lemma_stalled(&self, view: QueueView)
        requires
            self.shows(view),
            self.slots()[self.order@[0]] == None::<usize>,
            self.order@[0] != word_of(self.head),
        ensures
            self.wf(),
            self@ == view,
            !view.front_ready(),
    {
        assert(self@.nodes =~= self.order@);
        assert(self@.published =~= view.published);
    }

    proof fn lemma_taken(pre: Self, post: Self, view: QueueView, next: usize)
        requires
            pre.shows(view),
            pre.slots()[pre.order@[0]] == Some(next),
            post.order@ == pre.order@.skip(1),
            post.slots() == pre.slots().remove(pre.order@[0]),
            post.stub == pre.stub,
            word_of(post.tail) == next,
            word_of(post.head) == word_of(pre.head),
        ensures
            post.wf(),
            view.front_ready(),
            post@ == view.pop().0,
    {
        let before = pre.order@;
        let after = post.order@;
        assert(before.len() > 1);
        assert(pre.slots()[before[0]] == Some(before[1]));
        assert forall|i: int| 0 <= i < after.len() implies after[i] == before[i + 1] by {}
        assert(after.last() == before.last());
        assert forall|a: usize| #[trigger]
            post.slots().contains_key(a) <==> (a == post.stub || after.contains(a)) by {
            if after.contains(a) {
                let i = choose|i: int| 0 <= i < after.len() && after[i] == a;
                assert(before[i + 1] == a);
                assert(before.contains(a));
            }
            if before.contains(a) && a != before[0] {
                let i = choose|i: int| 0 <= i < before.len() && before[i] == a;
                assert(after[i - 1] == a);
            }
        }
        assert forall|i: int| 0 <= i < after.len() - 1 implies ({
            let next = #[trigger] post.slots()[after[i]];
            next == None::<usize> || next == Some(after[i + 1])
        }) by {
            assert(post.slots()[after[i]] == pre.slots()[before[i + 1]]);
        }
        assert(view.published[1]);
        assert(post@.nodes =~= view.nodes.skip(1));
        assert forall|j: int| 0 <= j < after.len() implies post@.published[j]
            == view.published.skip(1)[j] by {
            if j > 0 {
                assert(post.slots()[after[j - 1]] == pre.slots()[before[j]]);
            }
        }
        assert(post@.published =~= view.published.skip(1));
    }

    proof fn lemma_taken_last(pre: Self, post: Self, view: QueueView)
        requires
            pre.chain_wf(),
            view.stub == pre.stub,
            view.nodes.len() == 1,
            view.published.len() == 1,
            view.published[0],
            pre.order@.len() == 2,
            pre.order@[0] != pre.stub,
            pre.order@[1] == pre.stub,
            post.order@ == pre.order@.skip(1),
            post.slots() == pre.slots().remove(pre.order@[0]),
            post.stub == pre.stub,
            word_of(post.tail) == pre.stub,
            word_of(post.head) == word_of(pre.head),
        ensures
            post.wf(),
            view.front_ready(),
            post@ == view.pop().0,
    {
        let before = pre.order@;
        let after = post.order@;
        assert(after[0] == before[1]);
        assert forall|a: usize| #[trigger]
            post.slots().contains_key(a) <==> (a == post.stub || after.contains(a)) by {
            if after.contains(a) {
                assert(a == post.stub);
            }
            if before.contains(a) && a != before[0] {
                assert(a == before[1]);
            }
        }
        assert(post.slots()[after[0]] == pre.slots()[before[1]]);
        assert(post@.nodes =~= view.nodes.skip(1));
        assert(post@.published =~= view.published.skip(1));
    }

    /// Steps one and two of a push: clears the slot of `link` and exchanges
    /// the head for it. Until `push_finish` the consumer cannot reach `link`.
    /// Returns the head that was exchanged out.
    pub fn push_begin(&mut self, link: usize) -> (prev: usize)
        requires
            old(self).wf(),
            old(self)@.admits(link),
        ensures
            final(self).wf(),
            final(self).stub() == old(self).stub(),
            final(self)@ == old(self)@.begin_push(link),
            final(self)@.awaits(prev, link),
            prev == old(self)@.begin_push(link).pred(old(self)@.nodes.len() as int),
    {
        proof {
            self.lemma_admits(link);
        }
        let prev = self.exchange_head(link);
        proof {
            let before = old(self).order@;
            let start = old(self).start();
            assert(self.order@[0] == before[0]);
            assert(self@.nodes =~= old(self)@.nodes.push(link));
            assert forall|j: int| 0 <= j < self@.published.len() implies self@.published[j]
                == old(self)@.published.push(false)[j] by {
                if start + j > 0 {
                    assert(before.contains(before[start + j - 1]));
                }
            }
            assert(self@.published =~= old(self)@.published.push(false));
            let at = old(self)@.nodes.len() as int;
            assert(self@.nodes[at] == link);
        }
        prev
    }

    /// Step three of a push: writes `link` into the slot of `prev`, which
    /// publishes it to the consumer.
    pub fn push_finish(&mut self, prev: usize, link: usize)
        requires
            old(self).wf(),
            old(self)@.awaits(prev, link),
        ensures
            final(self).wf(),
            final(self).stub() == old(self).stub(),
            final(self)@ == old(self)@.finish_push(link),
    {
        proof {
            let view = self@;
            let start = self.start();
            let at = choose|i: int|
                0 <= i < view.nodes.len() && #[trigger] view.nodes[i] == link && !view.published[i]
                    && prev == view.pred(i);
            assert(self.order@[start + at - 1] == prev);
            assert(self.order@[start + at - 1 + 1] == link);
        }
        self.publish(prev, link);
        proof {
            let order = self.order@;
            let start = self.start();
            let view = old(self)@;
            let at = choose|i: int|
                0 <= i < view.nodes.len() && #[trigger] view.nodes[i] == link && !view.published[i]
                    && prev == view.pred(i);
            assert(self@.nodes =~= view.nodes);
            assert forall|j: int| 0 <= j < self@.published.len() implies self@.published[j]
                == view.finish_push(link).published[j] by {
                assert(view.nodes[j] == order[start + j]);
                assert(view.nodes[at] == order[start + at]);
                if start + j > 0 && j != at {
                    assert(order[start + j - 1] != order[start + at - 1]);
                }
            }
            assert(self@.published =~= view.finish_push(link).published);
        }
    }

    /// Appends the link at `link`: all three steps of a push at once.
    pub fn push(&mut self, link: usize)
        requires
            old(self).wf(),
            old(self)@.admits(link),
        ensures
            final(self).wf(),
            final(self).stub() == old(self).stub(),
            final(self)@ == old(self)@.push(link),
    {
        let prev = self.push_begin(link);
        self.push_finish(prev, link);
        proof {
            let mid = old(self)@.begin_push(link);
            assert(self@.published =~= old(self)@.published.push(true)) by {
                assert forall|j: int| 0 <= j < mid.nodes.len() - 1 implies mid.nodes[j] != link by {
                    assert(old(self)@.nodes.contains(mid.nodes[j]));
                    assert(mid.nodes[j] == old(self)@.nodes[j]);
                }
                old(self).lemma_view_wf();
            }
        }
    }

    /// Takes the oldest element, if the consumer can reach it. `None` means
    /// that the queue is empty or that the push of the element, or of the one
    /// behind it, has not finished: the two are not told apart, and the queue
    /// then shows what it showed before.
    pub fn pop(&mut self) -> (popped: Option<usize>)
        requires
            old(self).wf(),
        ensures
            final(self).wf(),
            final(self).stub() == old(self).stub(),
            final(self)@ == old(self)@.pop().0,
            popped == old(self)@.pop().1,
    {
        let mut tail = cell_load(&self.tail, Ordering::Relaxed);
        proof {
            assert(self.order@.contains(self.order@[0]));
        }
        let mut next = self.next_of(tail);

        if tail == self.stub {
            if let Some(n) = next {
                cell_store(&mut self.tail, n, Ordering::Release);
                self.order = Ghost(self.order@.skip(1));
                proof {
                    Self::lemma_past_stub(*old(self), *self, n);
                    assert(self.order@.contains(self.order@[0]));
                }
                tail = n;
                next = self.next_of(n);
            } else {
                proof {
                    self.lemma_idle();
                }
                return None;
            }
        } else {
            proof {
                self.lemma_no_stub();
            }
        }
        assert(self.shows(old(self)@));

        if let Some(n) = next {
            let ghost before = *self;
            cell_store(&mut self.tail, n, Ordering::Release);
            self.links.remove(&tail);
            self.order = Ghost(self.order@.skip(1));
            proof {
                assert(self.slots() =~= before.slots().remove(tail));
                Self::lemma_taken(before, *self, old(self)@, n);
            }
            return Some(tail);
        }
        let head = cell_load(&self.head, Ordering::Acquire);
        if tail != head {
            proof {
                self.lemma_stalled(old(self)@);
            }
            return None;
        }
        proof {
            assert(self.order@.len() == 1);
            assert(!self.order@.contains(self.stub));
        }
        let prev = self.exchange_head(self.stub);
        self.publish(prev, self.stub);
        next = self.next_of(tail);
        match next {
            Some(n) => {
                let ghost before = *self;
                cell_store(&mut self.tail, n, Ordering::Release);
                self.links.remove(&tail);
                self.order = Ghost(self.order@.skip(1));
                proof {
                    assert(self.slots() =~= before.slots().remove(tail));
                    Self::lemma_taken_last(before, *self, old(self)@);
                }
                Some(tail)
            },
            None => None,
        }
    }

    /// Whether the table holds a cell at `link`: the stub's, or that of an
    /// element that was pushed and not yet popped.
    pub fn holds(&self, link: usize) -> (held: bool)
        requires
            self.wf(),
        ensures
            held == (link == self.stub() || self@.nodes.contains(link)),
    {
        proof {
            let order = self.order@;
            let start = self.start();
            assert(self.links@.contains_key(link) == self.slots().contains_key(link));
            if order.contains(link) && link != self.stub {
                let i = choose|i: int| 0 <= i < order.len() && order[i] == link;
                assert(self@.nodes[i - start] == link);
            }
            if self@.nodes.contains(link) {
                let i = choose|i: int| 0 <= i < self@.nodes.len() && self@.nodes[i] == link;
                assert(order[start + i] == link);
            }
        }
        self.links.contains_key(&link)
    }
}

/// The sentinel that a queue chains its elements behind: a link of its own,
/// and the address that it lives at.
#[derive(Debug)]
pub struct Stub {
    addr: usize,
    link: Link,
}

impl Stub {
    /// The address of the stub's link.
    pub closed spec fn addr(&self) -> usize {
        self.addr
    }

    /// The address is non-null and the link has nothing after it.
    pub closed spec fn wf(&self) -> bool {
        self.addr != 0 && self.link.next() == None::<usize>
    }

    /// A stub whose link lives at `addr`.
    pub fn new(addr: usize) -> (stub: Self)
        requires
            addr != 0,
        ensures
            stub.wf(),
            stub.addr() == addr,
    {
        Stub { addr, link: Link::new() }
    }
}

/// A queue of owning pointers of type `P`, with at most one consumer at a
/// time.
pub struct MpscQueue<P> {
    raw: UnsafeMpscQueue,
    /// Non-zero while a consumer is out.
    consuming: Atomic<usize>,
    _p: PhantomData<P>,
}

/// The right to pop from one queue, held by one party at a time.
///
/// The handle holds no borrow of its queue, so it cannot give the right back
/// by itself when it goes out of scope: a handle that is dropped leaves the
/// queue without a consumer for good. Hand it to `release` instead.
pub struct Consumer<P> {
    stub: usize,
    _p: PhantomData<P>,
}

impl<P> MpscQueue<P> where P: Pointer, P::Pointee: Node<Link> {
    /// The queue is intact, and each element is the address of a link that
    /// lies inside a node at a non-null address.
    pub closed spec fn wf(&self) -> bool {
        &&& self.raw.wf()
        &&& forall|i: int|
            0 <= i < self.raw@.nodes.len() ==> link_offset_of::<P, Link>()
                < #[trigger] self.raw@.nodes[i]
    }

    /// The link addresses in the queue.
    pub closed spec fn view(&self) -> QueueView {
        self.raw@
    }

    /// Whether a consumer is out.
    pub closed spec fn consuming(&self) -> bool {
        word_of(self.consuming) != 0
    }

    /// An intact queue has a well-formed view, and each of its elements lies
    /// behind the link offset of the nodes.
    pub proof fn lemma_view_wf(&self)
        requires
            self.wf(),
        ensures
            self@.wf(),
            forall|i: int|
                0 <= i < self@.nodes.len() ==> link_offset_of::<P, Link>()
                    < #[trigger] self@.nodes[i],
    {
        self.raw.lemma_view_wf();
    }

    /// A queue over `stub`, empty and with no consumer.
    pub fn with_stub(stub: Stub) -> (queue: Self)
        requires
            stub.wf(),
        ensures
            queue.wf(),
            queue@ == QueueView::empty(stub.addr()),
            !queue.consuming(),
    {
        MpscQueue {
            raw: UnsafeMpscQueue::with_stub(stub.addr, stub.link),
            consuming: cell_new(0),
            _p: PhantomData,
        }
    }

    /// Whether the queue holds the link at `link`, or has its stub there.
    pub fn holds(&self, link: usize) -> (held: bool)
        requires
            self.wf(),
        ensures
            held == (link == self@.stub || self@.nodes.contains(link)),
    {
        proof {
            self.raw.lemma_view_wf();
        }
        self.raw.holds(link)
    }

    /// Appends a node that is claimed already.
    pub fn push_acquired(&mut self, node: Acquired<P, Link>)
        requires
            old(self).wf(),
            node.link_addr() <= usize::MAX,
            old(self)@.admits(node.link_addr() as usize),
        ensures
            final(self).wf(),
            final(self)@ == old(self)@.push(node.link_addr() as usize),
            final(self).consuming() == old(self).consuming(),
    {
        let link = node.into_link();
        self.raw.push(link);
        proof {
            let before = old(self)@.nodes;
            assert forall|i: int| 0 <= i < self.raw@.nodes.len() implies link_offset_of::<P, Link>()
                < #[trigger] self.raw@.nodes[i] by {
                if i < before.len() {
                    assert(self.raw@.nodes[i] == before[i]);
                }
            }
        }
    }

    /// Claims the node behind `node` and appends it. A node whose link is in
    /// the queue already is held by it, so its claim is refused without
    /// asking; any other node answers for itself. Where the claim is refused,
    /// the pointer comes back in the error and the queue is as it was.
    pub fn push(&mut self, node: P) -> (res: Result<(), AcquireError<P>>)
        requires
            old(self).wf(),
            link_addr_of::<P, Link>(node.addr()) <= usize::MAX,
            link_addr_of::<P, Link>(node.addr()) != old(self)@.stub,
        ensures
            final(self).wf(),
            final(self).consuming() == old(self).consuming(),
            old(self)@.nodes.contains(link_addr_of::<P, Link>(node.addr()) as usize)
                ==> res is Err,
            match res {
                Ok(_) => final(self)@ == old(self)@.push(
                    link_addr_of::<P, Link>(node.addr()) as usize,
                ),
                Err(error) => error.0 == node && final(self)@ == old(self)@,
            },
    {
        let link = <P::Pointee as Node<Link>>::as_link(node.as_raw());
        if self.holds(link) {
            return Err(AcquireError(node));
        }
        match acquire::<P, Link>(node) {
            Ok(guard) => {
                self.push_acquired(guard);
                Ok(())
            },
            Err(error) => Err(error),
        }
    }

    /// Hands out the right to pop, unless it is out already. The right comes
    /// back only through `Consumer::release`: once a handle is dropped, every
    /// later call gives `None`.
    pub fn consumer(&mut self) -> (handle: Option<Consumer<P>>)
        ensures
            handle is Some <==> !old(self).consuming(),
            handle is Some ==> handle->0.serves(final(self)),
            final(self).consuming(),
            final(self)@ == old(self)@,
            final(self).wf() == old(self).wf(),
    {
        if cell_swap(&mut self.consuming, 1, Ordering::Acquire) != 0 {
            None
        } else {
            Some(Consumer { stub: self.raw.stub, _p: PhantomData })
        }
    }
}

impl<P> Consumer<P> where P: Pointer, P::Pointee: Node<Link> {
    /// The address of the stub of the queue that handed the handle out.
    pub closed spec fn stub(&self) -> usize {
        self.stub
    }

    /// The handle was handed out by `queue`: by the queue over the same stub.
    pub open spec fn serves(&self, queue: &MpscQueue<P>) -> bool {
        self.stub() == queue@.stub
    }

    /// Takes the oldest node that can be reached, and gives up the claim on
    /// it.
    pub fn pop(&mut self, queue: &mut MpscQueue<P>) -> (node: Option<P>)
        requires
            old(queue).wf(),
            old(self).serves(old(queue)),
        ensures
            final(queue).wf(),
            final(self).serves(final(queue)),
            final(queue).consuming() == old(queue).consuming(),
            final(queue)@ == old(queue)@.pop().0,
            match node {
                Some(pointer) => old(queue)@.front_ready() && link_addr_of::<P, Link>(
                    pointer.addr(),
                ) == old(queue)@.nodes[0],
                None => !old(queue)@.front_ready(),
            },
    {
        match self.pop_acquired(queue) {
            Some(guard) => Some(guard.release()),
            None => None,
        }
    }

    /// Takes the oldest node that can be reached, with the claim on it still
    /// held.
    pub fn pop_acquired(&mut self, queue: &mut MpscQueue<P>) -> (node: Option<Acquired<P, Link>>)
        requires
            old(queue).wf(),
            old(self).serves(old(queue)),
        ensures
            final(queue).wf(),
            final(self).serves(final(queue)),
            final(queue).consuming() == old(queue).consuming(),
            final(queue)@ == old(queue)@.pop().0,
            match node {
                Some(guard) => old(queue)@.front_ready() && guard.link_addr() == old(
                    queue,
                )@.nodes[0],
                None => !old(queue)@.front_ready(),
            },
    {
        match queue.raw.pop() {
            Some(link) => {
                proof {
                    assert(link == old(queue)@.nodes[0]);
                    let before = old(queue)@.nodes;
                    assert forall|i: int| 0 <= i < queue.raw@.nodes.len() implies link_offset_of::<
                        P,
                        Link,
                    >() < #[trigger] queue.raw@.nodes[i] by {
                        assert(queue.raw@.nodes[i] == before[i + 1]);
                    }
                }
                Some(Acquired::from_link_unchecked(link))
            },
            None => None,
        }
    }

    /// Gives the right to pop back to `queue`, which can then hand it out
    /// again.
    pub fn release(self, queue: &mut MpscQueue<P>)
        requires
            self.serves(old(queue)),
        ensures
            !final(queue).consuming(),
            final(queue)@ == old(queue)@,
            final(queue).wf() == old(queue).wf(),
    {
        cell_store(&mut queue.consuming, 0, Ordering::Release);
    }
}

} // verus!
