use intrusive_mpsc::mpsc_queue::{Link, UnsafeMpscQueue};

const STUB: usize = 0x1000;

fn fresh() -> UnsafeMpscQueue {
    UnsafeMpscQueue::with_stub(STUB, Link::new())
}

#[test]
fn fresh_queue_pops_nothing() {
    let mut queue = fresh();
    assert_eq!(queue.pop(), None);
    assert_eq!(queue.pop(), None);
    assert!(queue.holds(STUB));
}

#[test]
fn one_push_one_pop() {
    let mut queue = fresh();
    queue.push(0x2000);
    assert!(queue.holds(0x2000));
    assert_eq!(queue.pop(), Some(0x2000));
    assert!(!queue.holds(0x2000));
    assert_eq!(queue.pop(), None);
}

#[test]
fn pops_come_in_push_order() {
    let mut queue = fresh();
    queue.push(0x2000);
    queue.push(0x3000);
    assert_eq!(queue.pop(), Some(0x2000));
    assert_eq!(queue.pop(), Some(0x3000));
    assert_eq!(queue.pop(), None);
}

#[test]
fn push_begin_returns_the_previous_head() {
    let mut queue = fresh();
    assert_eq!(queue.push_begin(0x2000), STUB);
    assert_eq!(queue.push_begin(0x3000), 0x2000);
    queue.push_finish(0x2000, 0x3000);
    queue.push_finish(STUB, 0x2000);
    assert_eq!(queue.pop(), Some(0x2000));
    assert_eq!(queue.pop(), Some(0x3000));
    assert_eq!(queue.pop(), None);
}

#[test]
fn unfinished_push_hides_its_link() {
    let mut queue = fresh();
    let prev = queue.push_begin(0x2000);
    assert_eq!(prev, STUB);
    assert!(queue.holds(0x2000));
    assert_eq!(queue.pop(), None);
    assert_eq!(queue.pop(), None);
    queue.push_finish(prev, 0x2000);
    assert_eq!(queue.pop(), Some(0x2000));
    assert_eq!(queue.pop(), None);
}

#[test]
fn unfinished_push_stalls_the_element_before_it() {
    let mut queue = fresh();
    queue.push(0x2000);
    queue.push(0x3000);
    let prev = queue.push_begin(0x4000);
    assert_eq!(prev, 0x3000);
    assert_eq!(queue.pop(), Some(0x2000));
    // 0x3000 is the oldest, but the link behind it is not published yet.
    assert_eq!(queue.pop(), None);
    assert!(queue.holds(0x3000));
    queue.push_finish(prev, 0x4000);
    assert_eq!(queue.pop(), Some(0x3000));
    assert_eq!(queue.pop(), Some(0x4000));
    assert_eq!(queue.pop(), None);
}

#[test]
fn queue_is_usable_after_it_ran_empty() {
    let mut queue = fresh();
    for round in 0..3usize {
        let a = 0x2000 + round * 0x100;
        let b = a + 0x10;
        queue.push(a);
        assert_eq!(queue.pop(), Some(a));
        assert_eq!(queue.pop(), None);
        queue.push(b);
        queue.push(a);
        assert_eq!(queue.pop(), Some(b));
        assert_eq!(queue.pop(), Some(a));
        assert_eq!(queue.pop(), None);
    }
}

#[test]
fn popped_link_can_be_pushed_again() {
    let mut queue = fresh();
    queue.push(0x2000);
    queue.push(0x3000);
    assert_eq!(queue.pop(), Some(0x2000));
    queue.push(0x2000);
    assert_eq!(queue.pop(), Some(0x3000));
    assert_eq!(queue.pop(), Some(0x2000));
    assert_eq!(queue.pop(), None);
}

#[test]
fn many_pushes_lose_nothing() {
    let mut queue = fresh();
    let links: Vec<usize> = (1..=200usize).map(|i| 0x10_000 + i * 8).collect();
    for &link in &links {
        assert!(!queue.holds(link));
        queue.push(link);
    }
    let mut popped = Vec::new();
    loop {
        match queue.pop() {
            Some(link) => popped.push(link),
            None => {
                if queue.pop().is_none() {
                    break;
                }
                unreachable!("a settled queue gave nothing and then something");
            }
        }
    }
    assert_eq!(popped, links);
}

#[test]
fn interleaved_producers_lose_nothing() {
    let mut queue = fresh();
    // Three producers exchange the head in the order a, b, c and publish in
    // the order c, a, b.
    let pa = queue.push_begin(0xa0);
    let pb = queue.push_begin(0xb0);
    let pc = queue.push_begin(0xc0);
    assert_eq!((pa, pb, pc), (STUB, 0xa0, 0xb0));
    assert_eq!(queue.pop(), None);
    queue.push_finish(pc, 0xc0);
    assert_eq!(queue.pop(), None);
    queue.push_finish(pa, 0xa0);
    assert_eq!(queue.pop(), None);
    queue.push_finish(pb, 0xb0);
    assert_eq!(queue.pop(), Some(0xa0));
    assert_eq!(queue.pop(), Some(0xb0));
    assert_eq!(queue.pop(), Some(0xc0));
    assert_eq!(queue.pop(), None);
}
