use std::rc::Rc;
use tiles::queue::Fifo;
use tiles::queue::PriorityCmp;
use tiles::queue::Queue;
use tiles::queue::RcFnComparator;

#[test]
fn fifo_hands_out_the_oldest_first() {
    let mut queue: Fifo<i32> = Fifo::new();
    assert!(queue.is_empty());
    assert_eq!(queue.len(), 0);
    queue.enqueue(Rc::new(3));
    queue.enqueue(Rc::new(1));
    queue.enqueue(Rc::new(2));
    assert!(!queue.is_empty());
    assert_eq!(queue.len(), 3);
    assert_eq!(queue.dequeue(), Some(Rc::new(3)));
    assert_eq!(queue.dequeue(), Some(Rc::new(1)));
    assert_eq!(queue.len(), 1);
    assert_eq!(queue.dequeue(), Some(Rc::new(2)));
    assert_eq!(queue.dequeue(), None);
    assert!(queue.is_empty());
}

#[test]
fn fifo_clear_drops_everything() {
    let mut queue: Fifo<i32> = Fifo::new();
    queue.enqueue(Rc::new(3));
    queue.enqueue(Rc::new(1));
    queue.clear();
    assert!(queue.is_empty());
    assert_eq!(queue.dequeue(), None);
    queue.enqueue(Rc::new(7));
    assert_eq!(queue.dequeue(), Some(Rc::new(7)));
}

#[test]
fn fifo_shares_the_item_it_was_given() {
    let item = Rc::new(5);
    let mut queue: Fifo<i32> = Fifo::new();
    queue.enqueue(Rc::clone(&item));
    let back = queue.dequeue().unwrap();
    assert!(Rc::ptr_eq(&item, &back));
}

#[test]
fn priority_hands_out_the_least_rank_first() {
    let mut queue = PriorityCmp::new(|x: &i32| (*x, 0));
    assert!(queue.is_empty());
    for value in [5, 1, 4, 2, 3] {
        queue.enqueue(Rc::new(value));
    }
    assert_eq!(queue.len(), 5);
    assert!(!queue.is_empty());
    for value in [1, 2, 3, 4, 5] {
        assert_eq!(queue.dequeue(), Some(Rc::new(value)));
    }
    assert_eq!(queue.dequeue(), None);
    assert!(queue.is_empty());
    assert_eq!(queue.len(), 0);
}

#[test]
fn priority_orders_by_the_second_part_within_the_first() {
    let mut queue = PriorityCmp::new(|x: &(i32, i32)| (x.0, x.1));
    for value in [(2, 1), (1, 9), (2, 0), (1, 3), (0, 100)] {
        queue.enqueue(Rc::new(value));
    }
    for value in [(0, 100), (1, 3), (1, 9), (2, 0), (2, 1)] {
        assert_eq!(queue.dequeue(), Some(Rc::new(value)));
    }
}

#[test]
fn priority_hands_out_the_older_of_equal_ranks_first() {
    let mut queue = PriorityCmp::new(|x: &(i32, char)| (x.0, 0));
    for value in [(1, 'a'), (0, 'b'), (1, 'c'), (0, 'd'), (1, 'e'), (0, 'f')] {
        queue.enqueue(Rc::new(value));
    }
    for value in [(0, 'b'), (0, 'd'), (0, 'f'), (1, 'a'), (1, 'c'), (1, 'e')] {
        assert_eq!(queue.dequeue(), Some(Rc::new(value)));
    }
}

#[test]
fn priority_keeps_order_between_enqueues() {
    let mut queue = PriorityCmp::new(|x: &i32| (*x, 0));
    queue.enqueue(Rc::new(5));
    queue.enqueue(Rc::new(3));
    assert_eq!(queue.dequeue(), Some(Rc::new(3)));
    queue.enqueue(Rc::new(1));
    queue.enqueue(Rc::new(9));
    assert_eq!(queue.dequeue(), Some(Rc::new(1)));
    assert_eq!(queue.dequeue(), Some(Rc::new(5)));
    assert_eq!(queue.len(), 1);
    assert_eq!(queue.dequeue(), Some(Rc::new(9)));
    assert_eq!(queue.dequeue(), None);
}

#[test]
fn priority_takes_negative_and_extreme_ranks() {
    let mut queue = PriorityCmp::new(|x: &i32| (*x, -*x.max(&-i32::MAX)));
    for value in [0, i32::MAX, -1, i32::MIN, 1] {
        queue.enqueue(Rc::new(value));
    }
    for value in [i32::MIN, -1, 0, 1, i32::MAX] {
        assert_eq!(queue.dequeue(), Some(Rc::new(value)));
    }
}

#[test]
fn priority_clear_drops_everything() {
    let mut queue = PriorityCmp::new(|x: &i32| (*x, 0));
    queue.enqueue(Rc::new(5));
    queue.enqueue(Rc::new(3));
    queue.clear();
    assert!(queue.is_empty());
    assert_eq!(queue.len(), 0);
    assert_eq!(queue.dequeue(), None);
    queue.enqueue(Rc::new(8));
    queue.enqueue(Rc::new(7));
    assert_eq!(queue.len(), 2);
    assert_eq!(queue.dequeue(), Some(Rc::new(7)));
    assert_eq!(queue.dequeue(), Some(Rc::new(8)));
}

#[test]
fn priority_shares_the_item_it_was_given() {
    let item = Rc::new(5);
    let mut queue = PriorityCmp::new(|x: &i32| (*x, 0));
    queue.enqueue(Rc::clone(&item));
    let back = queue.dequeue().unwrap();
    assert!(Rc::ptr_eq(&item, &back));
}

#[test]
fn ranking_reaches_through_the_shared_item() {
    let ranking = RcFnComparator(|x: &i32| (*x + 1, *x - 1));
    assert_eq!(ranking.rank(&Rc::new(10)), (11, 9));
}
