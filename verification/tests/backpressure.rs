//! Buffer behaviour under pressure.

use stream::backpressure::BoundedBuffer;

#[test]
fn evicts_oldest_when_full() {
    let mut b = BoundedBuffer::new(3);
    for i in 0..5 {
        b.push(i);
    }
    // capacity 3 => kept {2,3,4}, dropped [0,1]
    assert_eq!(b.len(), 3);
    assert_eq!(b.pop_oldest(), Some(2));
    assert_eq!(b.pop_oldest(), Some(3));
    assert_eq!(b.pop_oldest(), Some(4));
    assert_eq!(b.pop_oldest(), None);
    assert_eq!(b.dropped(), 2);
}

#[test]
fn keep_keyframe_discards_intermediates() {
    let mut b = BoundedBuffer::new(10);
    // keyframes at 0,4,8
    for i in 0..9 {
        b.push(i);
    }
    let dropped = b.resync_keep_latest_keyframe(|n: &i32| *n % 4 == 0);
    assert_eq!(dropped, 8); // 0..7 discarded
    assert_eq!(b.len(), 1); // only the keyframe 8 remains
    assert_eq!(b.pop_oldest(), Some(8));
    assert_eq!(b.pop_oldest(), None);
}

#[test]
fn front_peeks_oldest_without_removing() {
    let mut b = BoundedBuffer::new(4);
    assert_eq!(b.front(), None);
    b.push(1);
    b.push(2);
    assert_eq!(b.front(), Some(&1));
    assert_eq!(b.len(), 2, "peek must not drain");
}

#[test]
fn record_drop_counts_without_touching_queue() {
    let mut b = BoundedBuffer::new(4);
    b.push(1);
    b.push(2);
    b.record_drop();
    b.record_drop();
    assert_eq!(b.dropped(), 2);
    assert_eq!(b.len(), 2);
    assert_eq!(b.pop_oldest(), Some(1));
}

#[test]
fn restore_front_returns_items_in_order() {
    let mut b = BoundedBuffer::new(8);
    for i in 0..4 {
        b.push(i);
    }
    // Drain, then hand back the unsent tail as a failed send would.
    let drained: Vec<u32> = std::iter::from_fn(|| b.pop_oldest()).collect();
    assert_eq!(drained, vec![0, 1, 2, 3]);
    b.restore_front(vec![1, 2, 3]);
    assert_eq!(b.len(), 3);
    assert_eq!(b.pop_oldest(), Some(1));
    assert_eq!(b.pop_oldest(), Some(2));
    assert_eq!(b.pop_oldest(), Some(3));
    // Restore is not a push: counters stay honest.
    assert_eq!(b.pushed(), 4);
    assert_eq!(b.dropped(), 0);
}

#[test]
fn a_buffer_without_room_holds_one() {
    let mut b = BoundedBuffer::new(0);
    b.push(1);
    assert_eq!((b.len(), b.dropped()), (1, 0));
    b.push(2);
    assert_eq!((b.len(), b.dropped()), (1, 1));
    assert_eq!(b.pop_oldest(), Some(2));
}

#[test]
fn the_freshest_item_can_go_first() {
    let mut b = BoundedBuffer::new(3);
    b.push(1);
    b.push(2);
    assert_eq!(b.pop_freshest(), Some(2));
    assert_eq!(b.pop_freshest(), Some(1));
    assert_eq!(b.pop_freshest(), None);
    assert_eq!(b.dropped(), 0, "taking is not dropping");
}

#[test]
fn every_item_is_accounted_for() {
    let mut b = BoundedBuffer::new(3);
    let mut popped = 0u64;
    let mut credited = 0u64;
    for i in 0..10u64 {
        b.push(i);
        if i % 4 == 0 {
            popped += u64::from(b.pop_oldest().is_some());
        }
        if i % 5 == 0 {
            b.record_drop();
            credited += 1;
        }
    }
    let back = vec![b.pop_freshest().unwrap()];
    popped += 1;
    b.restore_front(back);
    credited += 1;
    b.resync_keep_latest_keyframe(|x: &u64| *x == 8);
    assert_eq!(b.pushed() + credited, b.len() as u64 + popped + b.dropped());
}

#[test]
fn a_buffer_never_holds_more_than_its_capacity() {
    let mut b = BoundedBuffer::new(2);
    for i in 0..20 {
        b.push(i);
        if i % 5 == 0 {
            b.pop_freshest();
        }
        if i % 7 == 0 {
            b.resync_keep_latest_keyframe(|x| x % 3 == 0);
        }
        assert!(b.len() <= 2);
    }
}

#[test]
fn the_drop_ratio_is_a_fraction() {
    let mut b = BoundedBuffer::new(3);
    assert_eq!(f64::from_bits(b.drop_ratio()), 0.0);
    for i in 0..5 {
        b.push(i);
    }
    assert_eq!(f64::from_bits(b.drop_ratio()), 2.0 / 5.0);
}
