//! What a queue holds as its users see it, the steps that change it, and what
//! holds of every run of such steps.

use vstd::prelude::*;

verus! {

/// What a queue holds, oldest element first, as its users see it.
///
/// `published[i]` tells whether the consumer can reach `nodes[i]` from the
/// element before it: a producer that has exchanged the head but not yet
/// written the predecessor's slot leaves its node unpublished.
pub struct QueueView {
    pub stub: usize,
    pub nodes: Seq<usize>,
    pub published: Seq<bool>,
}

impl QueueView {
    /// The addresses are non-null, distinct and none is the stub's.
    pub open spec fn wf(self) -> bool {
        &&& self.stub != 0
        &&& self.nodes.len() == self.published.len()
        &&& self.nodes.no_duplicates()
        &&& forall|i: int|
            0 <= i < self.nodes.len() ==> #[trigger] self.nodes[i] != 0 && self.nodes[i]
                != self.stub
    }

    /// The queue that holds its stub only.
    pub open spec fn empty(stub: usize) -> QueueView {
        QueueView { stub, nodes: Seq::empty(), published: Seq::empty() }
    }

    /// Every push that began has also finished.
    pub open spec fn settled(self) -> bool {
        forall|i: int| 0 <= i < self.published.len() ==> #[trigger] self.published[i]
    }

    /// `link` may be pushed: it is a non-null address that is neither the
    /// stub's nor already in the queue.
    pub open spec fn admits(self, link: usize) -> bool {
        link != 0 && link != self.stub && !self.nodes.contains(link)
    }

    /// The link whose slot the producer of `nodes[i]` writes to publish it.
    pub open spec fn pred(self, i: int) -> usize {
        if i == 0 {
            self.stub
        } else {
            self.nodes[i - 1]
        }
    }

    /// A push of `link` has exchanged the head for it, got `prev` back, and
    /// has not yet published the link.
    pub open spec fn awaits(self, prev: usize, link: usize) -> bool {
        exists|i: int|
            0 <= i < self.nodes.len() && #[trigger] self.nodes[i] == link && !self.published[i]
                && prev == self.pred(i)
    }

    /// The head exchange of a push: `link` is last, and not yet published.
    pub open spec fn begin_push(self, link: usize) -> QueueView {
        QueueView {
            stub: self.stub,
            nodes: self.nodes.push(link),
            published: self.published.push(false),
        }
    }

    /// The publishing write of a push of `link`.
    pub open spec fn finish_push(self, link: usize) -> QueueView {
        QueueView {
            stub: self.stub,
            nodes: self.nodes,
            published: Seq::new(
                self.published.len(),
                |i: int| self.published[i] || self.nodes[i] == link,
            ),
        }
    }

    /// A whole push of `link`.
    pub open spec fn push(self, link: usize) -> QueueView {
        QueueView {
            stub: self.stub,
            nodes: self.nodes.push(link),
            published: self.published.push(true),
        }
    }

    /// The consumer can take the oldest element: it is published, and it is
    /// either the newest element too or followed by a published one.
    pub open spec fn front_ready(self) -> bool {
        &&& self.nodes.len() > 0
        &&& self.published[0]
        &&& (self.nodes.len() == 1 || self.published[1])
    }

    /// One pop: the queue afterwards, and what the consumer got.
    pub open spec fn pop(self) -> (QueueView, Option<usize>) {
        if self.front_ready() {
            (
                QueueView {
                    stub: self.stub,
                    nodes: self.nodes.skip(1),
                    published: self.published.skip(1),
                },
                Some(self.nodes[0]),
            )
        } else {
            (self, None)
        }
    }

    /// What a consumer collects that pops until a pop gives nothing.
    pub open spec fn drain(self) -> Seq<usize>
        decreases self.nodes.len(),
    {
        if self.front_ready() {
            seq![self.nodes[0]] + self.pop().0.drain()
        } else {
            Seq::empty()
        }
    }

    /// The queue after whole pushes of `links`, in that order.
    pub open spec fn push_all(self, links: Seq<usize>) -> QueueView
        decreases links.len(),
    {
        if links.len() == 0 {
            self
        } else {
            self.push_all(links.drop_last()).push(links.last())
        }
    }
}

impl QueueView {
    /// A pop leaves a well-formed queue well-formed, and one in which every
    /// push has finished stays so.
    pub proof fn lemma_pop_keeps(self)
        requires
            self.wf(),
        ensures
            self.pop().0.wf(),
            self.settled() ==> self.pop().0.settled(),
            self.settled() && self.nodes.len() > 0 ==> self.front_ready(),
    {
        if self.front_ready() {
            let rest = self.pop().0;
            assert forall|i: int| 0 <= i < rest.nodes.len() implies #[trigger] rest.nodes[i] != 0
                && rest.nodes[i] != rest.stub by {
                assert(rest.nodes[i] == self.nodes[i + 1]);
            }
            assert forall|i: int, j: int|
                0 <= i < rest.nodes.len() && 0 <= j < rest.nodes.len() && i != j implies
                rest.nodes[i] != rest.nodes[j] by {
                assert(rest.nodes[i] == self.nodes[i + 1]);
                assert(rest.nodes[j] == self.nodes[j + 1]);
            }
            if self.settled() {
                assert forall|i: int| 0 <= i < rest.published.len() implies
                    #[trigger] rest.published[i] by {
                    assert(rest.published[i] == self.published[i + 1]);
                }
            }
        }
    }

    /// A whole push leaves a well-formed queue well-formed, and one in which
    /// every push has finished stays so.
    pub proof fn lemma_push_keeps(self, link: usize)
        requires
            self.wf(),
            self.admits(link),
        ensures
            self.push(link).wf(),
            self.settled() ==> self.push(link).settled(),
            self.begin_push(link).wf(),
            self.begin_push(link).awaits(self.begin_push(link).pred(self.nodes.len() as int), link),
            self.begin_push(link).finish_push(link) == self.push(link),
    {
        let after = self.push(link);
        assert forall|i: int, j: int|
            0 <= i < after.nodes.len() && 0 <= j < after.nodes.len() && i != j implies
            after.nodes[i] != after.nodes[j] by {
            if i < self.nodes.len() {
                assert(self.nodes.contains(after.nodes[i]));
            }
            if j < self.nodes.len() {
                assert(self.nodes.contains(after.nodes[j]));
            }
        }
        let begun = self.begin_push(link);
        assert(begun.nodes == after.nodes);
        assert(begun.nodes[self.nodes.len() as int] == link);
        assert forall|i: int| 0 <= i < begun.nodes.len() implies
            begun.finish_push(link).published[i] == after.published[i] by {
            if i < self.nodes.len() {
                assert(self.nodes.contains(begun.nodes[i]));
            }
        }
        assert(begun.finish_push(link).published =~= after.published);
    }

    /// When every push has finished, a consumer that pops until a pop gives
    /// nothing collects every element, each once, oldest first.
    pub proof fn lemma_drain_settled(self)
        requires
            self.wf(),
            self.settled(),
        ensures
            self.drain() == self.nodes,
        decreases self.nodes.len(),
    {
        self.lemma_pop_keeps();
        if self.nodes.len() > 0 {
            self.pop().0.lemma_drain_settled();
            assert(seq![self.nodes[0]] + self.nodes.skip(1) =~= self.nodes);
        } else {
            assert(self.nodes =~= Seq::<usize>::empty());
        }
    }

    /// Whole pushes of distinct new links, one after the other, append the
    /// links in that order and leave no push unfinished.
    pub proof fn lemma_push_all(self, links: Seq<usize>)
        requires
            self.wf(),
            links.no_duplicates(),
            forall|i: int| 0 <= i < links.len() ==> self.admits(#[trigger] links[i]),
        ensures
            self.push_all(links).wf(),
            self.push_all(links).stub == self.stub,
            self.push_all(links).nodes == self.nodes + links,
            self.settled() ==> self.push_all(links).settled(),
        decreases links.len(),
    {
        if links.len() == 0 {
            assert(self.nodes + links =~= self.nodes);
        } else {
            let front = links.drop_last();
            let last = links.last();
            assert forall|i: int| 0 <= i < front.len() implies self.admits(#[trigger] front[i]) by {
                assert(front[i] == links[i]);
            }
            self.lemma_push_all(front);
            let mid = self.push_all(front);
            assert(mid.admits(last)) by {
                if mid.nodes.contains(last) {
                    let i = choose|i: int| 0 <= i < mid.nodes.len() && mid.nodes[i] == last;
                    if i < self.nodes.len() {
                        assert(self.nodes[i] == last);
                        assert(self.nodes.contains(last));
                    } else {
                        assert(front[i - self.nodes.len()] == last);
                        assert(links[i - self.nodes.len()] == last);
                    }
                }
            }
            mid.lemma_push_keeps(last);
            assert(mid.push(last).nodes =~= self.nodes + links);
        }
    }

    /// First in, first out: when one producer pushes `first` and then
    /// `second` onto a queue with no push under way, the consumer gets what
    /// was there before, then `first`, then `second`.
    pub proof fn law_fifo(self, first: usize, second: usize)
        requires
            self.wf(),
            self.settled(),
            self.admits(first),
            self.admits(second),
            first != second,
        ensures
            self.push(first).push(second).drain() == self.nodes + seq![first, second],
    {
        self.lemma_push_keeps(first);
        let mid = self.push(first);
        assert(mid.admits(second)) by {
            if mid.nodes.contains(second) {
                let i = choose|i: int| 0 <= i < mid.nodes.len() && mid.nodes[i] == second;
                if i < self.nodes.len() {
                    assert(self.nodes.contains(second));
                }
            }
        }
        mid.lemma_push_keeps(second);
        mid.push(second).lemma_drain_settled();
        assert(mid.push(second).nodes =~= self.nodes + seq![first, second]);
    }

    /// Nothing is lost: after whole pushes of distinct links onto the empty
    /// queue, a consumer that pops until a pop gives nothing has popped
    /// exactly those links, each once.
    pub proof fn law_no_loss(stub: usize, links: Seq<usize>)
        requires
            stub != 0,
            links.no_duplicates(),
            forall|i: int| 0 <= i < links.len() ==> #[trigger] links[i] != 0 && links[i] != stub,
        ensures
            QueueView::empty(stub).push_all(links).drain() == links,
            QueueView::empty(stub).push_all(links).drain().no_duplicates(),
    {
        let empty = QueueView::empty(stub);
        empty.lemma_push_all(links);
        empty.push_all(links).lemma_drain_settled();
        assert(empty.nodes + links =~= links);
    }

    /// A pop of the queue that holds its stub only gives nothing and changes
    /// nothing.
    pub proof fn law_empty_pop(stub: usize)
        ensures
            QueueView::empty(stub).pop() == (QueueView::empty(stub), None::<usize>),
    {
    }

    /// A push caught between its head exchange and its publishing write hides
    /// its link: on a queue that was empty a pop then gives nothing, although
    /// the queue holds the link; after the write the next pop gives that
    /// link.
    pub proof fn law_transient_push(stub: usize, link: usize)
        requires
            stub != 0,
            link != 0,
            link != stub,
        ensures
            ({
                let begun = QueueView::empty(stub).begin_push(link);
                &&& begun.nodes == seq![link]
                &&& begun.awaits(stub, link)
                &&& begun.pop() == (begun, None::<usize>)
                &&& begun.finish_push(link).pop().1 == Some(link)
                &&& begun.finish_push(link).pop().0 == QueueView::empty(stub)
            }),
    {
        let begun = QueueView::empty(stub).begin_push(link);
        assert(begun.nodes =~= seq![link]);
        assert(begun.nodes[0] == link);
        let done = begun.finish_push(link);
        assert(done.published[0]);
        assert(done.pop().0.nodes =~= Seq::<usize>::empty());
        assert(done.pop().0.published =~= Seq::<bool>::empty());
    }

    /// While the push of the element behind the oldest one is unfinished, a
    /// pop gives nothing and changes nothing, although the queue is not
    /// empty.
    pub proof fn law_stalled_pop(self)
        requires
            self.wf(),
            self.nodes.len() >= 2,
            !self.published[1],
        ensures
            self.pop() == (self, None::<usize>),
    {
    }
}

/// One step of a producer or of the consumer. Any interleaving of producers
/// and consumer is a sequence of such steps.
pub enum Step {
    /// The head exchange of a push of the link.
    Begin(usize),
    /// The publishing write of a push of the link.
    Finish(usize),
    /// One pop.
    Pop,
}

impl QueueView {
    /// The step can be taken now: a push begins with a link that the queue
    /// admits, and only a push that has begun can finish.
    pub open spec fn allows(self, step: Step) -> bool {
        match step {
            Step::Begin(link) => self.admits(link),
            Step::Finish(link) => exists|prev: usize| self.awaits(prev, link),
            Step::Pop => true,
        }
    }

    /// The queue after the step.
    pub open spec fn step(self, step: Step) -> QueueView {
        match step {
            Step::Begin(link) => self.begin_push(link),
            Step::Finish(link) => self.finish_push(link),
            Step::Pop => self.pop().0,
        }
    }

    /// What the step hands to the consumer.
    pub open spec fn yields(self, step: Step) -> Seq<usize> {
        match step {
            Step::Pop => match self.pop().1 {
                Some(link) => seq![link],
                None => Seq::empty(),
            },
            _ => Seq::empty(),
        }
    }

    /// What the step brings into the queue.
    pub open spec fn brings(step: Step) -> Seq<usize> {
        match step {
            Step::Begin(link) => seq![link],
            _ => Seq::empty(),
        }
    }

    /// Each of the steps can be taken when its turn comes.
    pub open spec fn runs(self, steps: Seq<Step>) -> bool
        decreases steps.len(),
    {
        steps.len() == 0 || (self.allows(steps[0]) && self.step(steps[0]).runs(steps.skip(1)))
    }

    /// The queue after the steps.
    pub open spec fn after(self, steps: Seq<Step>) -> QueueView
        decreases steps.len(),
    {
        if steps.len() == 0 {
            self
        } else {
            self.step(steps[0]).after(steps.skip(1))
        }
    }

    /// What the consumer has got by the end of the steps, in the order in
    /// which it got it.
    pub open spec fn popped(self, steps: Seq<Step>) -> Seq<usize>
        decreases steps.len(),
    {
        if steps.len() == 0 {
            Seq::empty()
        } else {
            self.yields(steps[0]) + self.step(steps[0]).popped(steps.skip(1))
        }
    }

    /// The links whose pushes begin during the steps, in the order of their
    /// head exchanges.
    pub open spec fn pushed(steps: Seq<Step>) -> Seq<usize>
        decreases steps.len(),
    {
        if steps.len() == 0 {
            Seq::empty()
        } else {
            Self::brings(steps[0]) + Self::pushed(steps.skip(1))
        }
    }

    /// A step that can be taken leaves the queue well-formed, and what it
    /// hands out followed by what stays is what was there followed by what
    /// it brings.
    pub proof fn lemma_step(self, step: Step)
        requires
            self.wf(),
            self.allows(step),
        ensures
            self.step(step).wf(),
            self.step(step).stub == self.stub,
            self.yields(step) + self.step(step).nodes == self.nodes + Self::brings(step),
    {
        match step {
            Step::Begin(link) => {
                self.lemma_push_keeps(link);
                assert(self.yields(step) + self.step(step).nodes =~= self.nodes + Self::brings(
                    step,
                ));
            },
            Step::Finish(link) => {
                assert(self.yields(step) + self.step(step).nodes =~= self.nodes + Self::brings(
                    step,
                ));
            },
            Step::Pop => {
                self.lemma_pop_keeps();
                assert(self.yields(step) + self.step(step).nodes =~= self.nodes + Self::brings(
                    step,
                ));
            },
        }
    }

    /// Nothing is lost, doubled or reordered, however the steps of the
    /// producers and of the consumer interleave: what the consumer has got,
    /// followed by what the queue still holds, is what the queue held at
    /// first followed by the links pushed, in the order of their head
    /// exchanges.
    pub proof fn law_conservation(self, steps: Seq<Step>)
        requires
            self.wf(),
            self.runs(steps),
        ensures
            self.after(steps).wf(),
            self.after(steps).stub == self.stub,
            self.popped(steps) + self.after(steps).nodes == self.nodes + Self::pushed(steps),
        decreases steps.len(),
    {
        if steps.len() == 0 {
            assert(self.popped(steps) + self.after(steps).nodes =~= self.nodes + Self::pushed(
                steps,
            ));
        } else {
            let next = self.step(steps[0]);
            let rest = steps.skip(1);
            self.lemma_step(steps[0]);
            next.law_conservation(rest);
            assert(self.popped(steps) + self.after(steps).nodes =~= self.yields(steps[0]) + (
            next.popped(rest) + next.after(rest).nodes));
            assert(self.yields(steps[0]) + (next.nodes + Self::pushed(rest)) =~= (self.yields(
                steps[0],
            ) + next.nodes) + Self::pushed(rest));
            assert((self.nodes + Self::brings(steps[0])) + Self::pushed(rest) =~= self.nodes
                + Self::pushed(steps));
        }
    }

    /// Once every push that began has finished, a consumer that pops until a
    /// pop gives nothing ends up with every link that was ever in the queue,
    /// each once, in the order of the head exchanges, whatever it had popped
    /// along the way.
    pub proof fn law_drained_run(self, steps: Seq<Step>)
        requires
            self.wf(),
            self.runs(steps),
            self.after(steps).settled(),
        ensures
            self.popped(steps) + self.after(steps).drain() == self.nodes + Self::pushed(steps),
    {
        self.law_conservation(steps);
        self.after(steps).lemma_drain_settled();
    }
}

} // verus!
