use intrusive_mpsc::mpsc_queue::{Link, MpscQueue, Stub};
use intrusive_mpsc::{acquire, settle_claim, AcquireError, Acquired, Node, Pointer, UnsafeRef};
use std::rc::Rc;
use std::sync::atomic::{AtomicBool, Ordering};

const OFFSET: usize = 16;

/// A node that knows its own address and carries one claim flag.
struct Job {
    addr: usize,
    claimed: AtomicBool,
}

impl Job {
    fn at(addr: usize) -> Job {
        Job { addr, claimed: AtomicBool::new(false) }
    }

    fn is_claimed(&self) -> bool {
        self.claimed.load(Ordering::Acquire)
    }
}

impl Node<Link> for Job {
    fn link_offset() -> usize {
        OFFSET
    }

    fn acquire(node: &Self) -> bool {
        !node.claimed.swap(true, Ordering::AcqRel)
    }

    fn release(node: &Self) {
        node.claimed.store(false, Ordering::Release);
    }

    fn as_link(node: usize) -> usize {
        field_of_job(node)
    }

    fn as_node(link: usize) -> usize {
        intrusive_mpsc::container_of(link, OFFSET)
    }
}

fn field_of_job(node: usize) -> usize {
    intrusive_mpsc::field_of(node, OFFSET)
}

/// A unique owner. A job that comes back from an address is one that some
/// structure held, so its claim is set.
struct Owned(Box<Job>);

impl Pointer for Owned {
    type Pointee = Job;

    fn addr(&self) -> usize {
        self.0.addr
    }

    fn pointee(&self) -> &Job {
        &self.0
    }

    fn as_raw(&self) -> usize {
        self.0.addr
    }

    fn into_raw(self) -> usize {
        self.0.addr
    }

    fn from_raw(raw: usize) -> Self {
        Owned(Box::new(Job { addr: raw, claimed: AtomicBool::new(true) }))
    }
}

/// A shared owner.
struct Shared(Rc<Job>);

impl Pointer for Shared {
    type Pointee = Job;

    fn addr(&self) -> usize {
        self.0.addr
    }

    fn pointee(&self) -> &Job {
        &self.0
    }

    fn as_raw(&self) -> usize {
        self.0.addr
    }

    fn into_raw(self) -> usize {
        self.0.addr
    }

    fn from_raw(raw: usize) -> Self {
        Shared(Rc::new(Job { addr: raw, claimed: AtomicBool::new(true) }))
    }
}

const STUB: usize = 0x10;

fn queue() -> MpscQueue<Owned> {
    MpscQueue::with_stub(Stub::new(STUB))
}

/// The link of the node fits the address space and is not the stub's.
fn can_push(node: &Owned) -> bool {
    let addr = node.as_raw();
    addr <= usize::MAX - OFFSET && addr + OFFSET != STUB
}

#[test]
fn acquire_then_release_gives_the_pointer_back() {
    let job = Rc::new(Job::at(0x5000));
    let guard: Acquired<Shared, Link> = match acquire(Shared(job.clone())) {
        Ok(guard) => guard,
        Err(_) => panic!("an unclaimed node refused the claim"),
    };
    assert!(job.is_claimed());
    let back = guard.release();
    assert!(Rc::ptr_eq(&back.0, &job));
    assert_eq!(back.0.addr, 0x5000);
    assert!(!job.is_claimed());
}

#[test]
fn second_claim_fails_and_returns_the_pointer() {
    let job = Rc::new(Job::at(0x5000));
    let first: Result<Acquired<Shared, Link>, AcquireError<Shared>> = acquire(Shared(job.clone()));
    let second: Result<Acquired<Shared, Link>, AcquireError<Shared>> = acquire(Shared(job.clone()));
    let guard = match first {
        Ok(guard) => guard,
        Err(_) => panic!("the first claim failed"),
    };
    match second {
        Ok(_) => panic!("the second claim succeeded"),
        Err(AcquireError(pointer)) => {
            assert!(Rc::ptr_eq(&pointer.0, &job));
            assert_eq!(pointer.pointee().addr, 0x5000);
            assert!(pointer.pointee().is_claimed());
        }
    }
    let back = guard.release();
    assert!(!back.0.is_claimed());
    let third: Result<Acquired<Shared, Link>, AcquireError<Shared>> = acquire(back);
    assert!(third.is_ok());
    third.ok().map(|guard| guard.release());
}

#[test]
fn settle_claim_follows_the_answer() {
    let granted: Result<Acquired<Owned, Link>, AcquireError<Owned>> =
        settle_claim(Owned(Box::new(Job::at(0x700))), true);
    match granted {
        Ok(guard) => assert_eq!(guard.into_link(), 0x700 + OFFSET),
        Err(_) => panic!("a granted claim gave an error"),
    }
    let refused: Result<Acquired<Owned, Link>, AcquireError<Owned>> =
        settle_claim(Owned(Box::new(Job::at(0x700))), false);
    match refused {
        Ok(_) => panic!("a refused claim gave a guard"),
        Err(AcquireError(pointer)) => assert_eq!(pointer.0.addr, 0x700),
    }
}

#[test]
fn guard_turns_into_the_link_address_and_back() {
    let guard: Acquired<Owned, Link> = Acquired::new_unchecked(Owned(Box::new(Job::at(0x9000))));
    let link = guard.into_link();
    assert_eq!(link, 0x9010);
    let again: Acquired<Owned, Link> = Acquired::from_link_unchecked(link);
    let back = again.release();
    assert_eq!(back.0.addr, 0x9000);
    assert!(!back.0.is_claimed());
}

#[test]
fn typed_queue_pops_what_was_pushed() {
    let mut queue = queue();
    let mut consumer = queue.consumer().expect("no consumer was out");
    assert!(consumer.pop(&mut queue).is_none());
    for addr in [0x100usize, 0x200, 0x300] {
        let node = Owned(Box::new(Job::at(addr)));
        assert!(can_push(&node));
        assert!(queue.push(node).is_ok());
    }
    assert!(queue.holds(0x100 + OFFSET));
    for addr in [0x100usize, 0x200, 0x300] {
        let node = consumer.pop(&mut queue).expect("the queue held a node");
        assert_eq!(node.0.addr, addr);
        assert!(!node.0.is_claimed());
    }
    assert!(consumer.pop(&mut queue).is_none());
    consumer.release(&mut queue);
}

#[test]
fn pop_acquired_keeps_the_claim() {
    let mut queue = queue();
    let node = Owned(Box::new(Job::at(0x400)));
    assert!(can_push(&node));
    assert!(queue.push(node).is_ok());
    let mut consumer = queue.consumer().expect("no consumer was out");
    let guard = consumer.pop_acquired(&mut queue).expect("the queue held a node");
    let node = guard.release();
    assert_eq!(node.0.addr, 0x400);
    assert!(!node.0.is_claimed());
    assert!(consumer.pop_acquired(&mut queue).is_none());
}

#[test]
fn push_of_a_claimed_node_returns_it() {
    let mut queue = queue();
    let node = Owned(Box::new(Job::at(0x400)));
    assert!(Job::acquire(node.pointee()));
    assert!(can_push(&node));
    match queue.push(node) {
        Ok(()) => panic!("a claimed node was pushed"),
        Err(AcquireError(node)) => assert_eq!(node.0.addr, 0x400),
    }
    assert!(!queue.holds(0x400 + OFFSET));
    let mut consumer = queue.consumer().expect("no consumer was out");
    assert!(consumer.pop(&mut queue).is_none());
}

#[test]
fn push_acquired_takes_a_guard() {
    let mut queue = queue();
    let guard: Acquired<Owned, Link> = match acquire(Owned(Box::new(Job::at(0x800)))) {
        Ok(guard) => guard,
        Err(_) => panic!("an unclaimed node refused the claim"),
    };
    queue.push_acquired(guard);
    assert!(queue.holds(0x800 + OFFSET));
    let mut consumer = queue.consumer().expect("no consumer was out");
    assert_eq!(consumer.pop(&mut queue).map(|node| node.0.addr), Some(0x800));
}

#[test]
fn only_one_consumer_at_a_time() {
    let mut queue = queue();
    let first = queue.consumer();
    assert!(first.is_some());
    assert!(queue.consumer().is_none());
    assert!(queue.consumer().is_none());
    first.map(|consumer| consumer.release(&mut queue));
    let again = queue.consumer();
    assert!(again.is_some());
    assert!(queue.consumer().is_none());
}

#[test]
fn push_of_a_queued_node_returns_it() {
    let mut queue = queue();
    let first = Owned(Box::new(Job::at(0x600)));
    assert!(can_push(&first));
    assert!(queue.push(first).is_ok());
    // A second pointer to the node at the same address, with no claim set.
    let second = Owned(Box::new(Job::at(0x600)));
    assert!(can_push(&second));
    match queue.push(second) {
        Ok(()) => panic!("a queued node was pushed again"),
        Err(AcquireError(node)) => {
            assert_eq!(node.0.addr, 0x600);
            assert!(!node.0.is_claimed());
        }
    }
    let mut consumer = queue.consumer().expect("no consumer was out");
    assert_eq!(consumer.pop(&mut queue).map(|node| node.0.addr), Some(0x600));
    assert!(consumer.pop(&mut queue).is_none());
}

#[test]
fn popped_node_can_be_pushed_again() {
    let mut queue = queue();
    let node = Owned(Box::new(Job::at(0x600)));
    assert!(queue.push(node).is_ok());
    let mut consumer = queue.consumer().expect("no consumer was out");
    let node = consumer.pop(&mut queue).expect("the queue held a node");
    assert!(!queue.holds(0x600 + OFFSET));
    assert!(can_push(&node));
    assert!(queue.push(node).is_ok());
    assert_eq!(consumer.pop(&mut queue).map(|node| node.0.addr), Some(0x600));
}

#[test]
fn dropped_consumer_keeps_the_right() {
    let mut queue = queue();
    let handle = queue.consumer();
    assert!(handle.is_some());
    drop(handle);
    assert!(queue.consumer().is_none());
}

#[test]
fn unsafe_ref_keeps_its_address() {
    let reference: UnsafeRef<Job> = UnsafeRef::from_raw(0x7700);
    assert_eq!(reference.as_raw(), 0x7700);
}
