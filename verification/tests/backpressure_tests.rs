use rust_mqtt::backpressure::{offer, Next, Offered, RingQueue};
use rust_mqtt::client::BackPressurePolicy;

fn take(q: &mut RingQueue<u8>) -> Option<u8> {
    match q.next() {
        Next::Item(v) => Some(v),
        _ => None,
    }
}

#[test]
fn drop_newest_discards_arriving_item_when_full() {
    let mut q = RingQueue::new(2);
    assert!(q.push_drop_newest(1u8));
    assert!(q.push_drop_newest(2));
    assert!(!q.push_drop_newest(3));
    assert_eq!(take(&mut q), Some(1));
    assert_eq!(take(&mut q), Some(2));
}

#[test]
fn drop_oldest_evicts_head_and_keeps_newest() {
    let mut q = RingQueue::new(3);
    for i in 0u8..10 {
        q.push_drop_oldest(i);
    }
    assert_eq!(take(&mut q), Some(7));
    assert_eq!(take(&mut q), Some(8));
    assert_eq!(take(&mut q), Some(9));
}

#[test]
fn drop_oldest_reports_eviction() {
    let mut q = RingQueue::new(2);
    assert!(!q.push_drop_oldest(1u8));
    assert!(!q.push_drop_oldest(2));
    assert!(q.push_drop_oldest(3), "third push must evict item 1");
}

#[test]
fn block_delivers_all_items_in_order() {
    let mut q = RingQueue::new(2);
    let mut pending: Vec<u8> = (0u8..5).collect();
    let mut got = vec![];
    while got.len() < 5 {
        while !pending.is_empty() {
            match q.try_push(pending[0]) {
                Ok(()) => {
                    pending.remove(0);
                }
                Err(back) => {
                    assert_eq!(back, pending[0]);
                    break;
                }
            }
        }
        got.push(take(&mut q).unwrap());
    }
    assert_eq!(got, vec![0, 1, 2, 3, 4]);
}

#[test]
fn close_unblocks_receiver() {
    let mut q: RingQueue<u8> = RingQueue::new(2);
    assert!(matches!(q.next(), Next::Wait));
    q.close();
    assert!(matches!(q.next(), Next::End));
}

#[test]
fn close_still_drains_queued_items() {
    let mut q = RingQueue::new(4);
    q.push_drop_newest(5u8);
    q.close();
    assert!(q.is_closed());
    assert_eq!(take(&mut q), Some(5));
    assert!(matches!(q.next(), Next::End));
}

#[test]
fn zero_capacity_means_one() {
    let mut q = RingQueue::new(0);
    assert_eq!(q.capacity(), 1);
    assert!(q.push_drop_newest(1u8));
    assert!(q.is_full());
    assert_eq!(q.len(), 1);
    assert!(!q.push_drop_newest(2));
    assert_eq!(q.pop(), Some(1));
    assert_eq!(q.pop(), None);
}

#[test]
fn offer_follows_each_policy() {
    let mut q = RingQueue::new(1);
    assert!(matches!(offer(&mut q, BackPressurePolicy::DropNewest, 1u8), Offered::Queued));
    assert!(matches!(offer(&mut q, BackPressurePolicy::DropNewest, 2), Offered::Dropped));
    assert!(matches!(
        offer(&mut q, BackPressurePolicy::DropOldest, 3),
        Offered::QueuedEvicting
    ));
    assert!(matches!(offer(&mut q, BackPressurePolicy::Block, 4), Offered::Full(4)));
    assert_eq!(take(&mut q), Some(3));
    assert!(matches!(offer(&mut q, BackPressurePolicy::Block, 4), Offered::Queued));
    assert_eq!(take(&mut q), Some(4));
}

#[test]
fn block_interleaved_pushes_and_takes_keep_order() {
    let mut q = RingQueue::new(3);
    let mut accepted = vec![];
    let mut taken = vec![];
    for round in 0u8..6 {
        for k in 0u8..2 {
            let item = round * 2 + k;
            if q.try_push(item).is_ok() {
                accepted.push(item);
            }
        }
        if round % 2 == 1 {
            taken.push(q.pop().unwrap());
        }
    }
    while let Some(v) = q.pop() {
        taken.push(v);
    }
    assert_eq!(taken, accepted);
    assert!(q.try_push(200).is_ok());
    assert_eq!(q.len(), 1);
}
