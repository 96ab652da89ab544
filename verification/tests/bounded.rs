use passenger::spsc::bounded::wrap_index;
use passenger::spsc::bounded::{
    BoundedSpscQueue, ReceiveError, SendError, TryReceiveError, TrySendError,
};

#[test]
fn smoke() {
    let (mut sender, mut receiver, mut core) = BoundedSpscQueue::new(2);
    sender.send(&mut core, 1).unwrap();
    sender.send(&mut core, 2).unwrap();

    assert_eq!(receiver.recv(&mut core), Ok(1));
    assert_eq!(receiver.recv(&mut core), Ok(2));

    sender.send(&mut core, 3).unwrap();
    assert_eq!(receiver.recv(&mut core), Ok(3));

    sender.send(&mut core, 1).unwrap();
    sender.send(&mut core, 2).unwrap();

    assert_eq!(receiver.recv(&mut core), Ok(1));
    assert_eq!(receiver.recv(&mut core), Ok(2));
}

#[test]
fn try_smoke() {
    let (mut sender, mut receiver, mut core) = BoundedSpscQueue::new(2);
    sender.try_send(&mut core, 1).unwrap();
    sender.try_send(&mut core, 2).unwrap();

    assert_eq!(receiver.try_recv(&mut core), Ok(1));
    assert_eq!(receiver.try_recv(&mut core), Ok(2));

    sender.try_send(&mut core, 3).unwrap();
    assert_eq!(receiver.try_recv(&mut core), Ok(3));

    sender.try_send(&mut core, 1).unwrap();
    sender.try_send(&mut core, 2).unwrap();

    assert_eq!(receiver.try_recv(&mut core), Ok(1));
    assert_eq!(receiver.try_recv(&mut core), Ok(2));
}

/// Fills the queue through `try_send` and returns how many values fit.
fn fill_until_full(bound: usize) -> usize {
    let (mut sender, _receiver, mut core) = BoundedSpscQueue::new(bound);
    let mut count: usize = 0;
    loop {
        match sender.try_send(&mut core, count) {
            Ok(()) => count += 1,
            Err(TrySendError::Full(v)) => {
                assert_eq!(v, count);
                return count;
            }
            Err(TrySendError::Disconnected(_)) => panic!("peer still connected"),
        }
    }
}

#[test]
fn capacity_rounds_to_next_power_of_two() {
    // usable capacity = next_power_of_two(bound + 1) - 1
    assert_eq!(fill_until_full(1), 1);
    assert_eq!(fill_until_full(2), 3);
    assert_eq!(fill_until_full(3), 3);
    assert_eq!(fill_until_full(4), 7);
    assert_eq!(fill_until_full(5), 7);
    assert_eq!(fill_until_full(7), 7);
    assert_eq!(fill_until_full(8), 15);
    assert_eq!(fill_until_full(15), 15);
    assert_eq!(fill_until_full(16), 31);
    // a bound of zero still yields a queue that holds at least one value
    assert_eq!(fill_until_full(0), 1);
}

#[test]
fn fifo_ordering_within_capacity() {
    let (mut sender, mut receiver, mut core) = BoundedSpscQueue::new(4);
    for i in 0..7 {
        sender.send(&mut core, i * 10).unwrap();
    }
    for i in 0..7 {
        assert_eq!(receiver.recv(&mut core), Ok(i * 10));
    }
    assert_eq!(receiver.try_recv(&mut core), Err(TryReceiveError::Empty));
}

#[test]
fn no_loss_under_full_utilization() {
    // usable capacity 3: fill, take one, refill one, drain the rest
    let (mut sender, mut receiver, mut core) = BoundedSpscQueue::new(2);
    sender.send(&mut core, 1).unwrap();
    sender.send(&mut core, 2).unwrap();
    sender.send(&mut core, 3).unwrap();
    assert_eq!(sender.try_send(&mut core, 4), Err(TrySendError::Full(4)));

    assert_eq!(receiver.recv(&mut core), Ok(1));
    sender.send(&mut core, 4).unwrap();

    assert_eq!(receiver.recv(&mut core), Ok(2));
    assert_eq!(receiver.recv(&mut core), Ok(3));
    assert_eq!(receiver.recv(&mut core), Ok(4));
    assert_eq!(receiver.try_recv(&mut core), Err(TryReceiveError::Empty));
}

#[test]
fn concrete_scenario_bound_two() {
    // bound 2 rounds to 4 slots, one reserved: usable capacity 3
    let (mut sender, mut receiver, mut core) = BoundedSpscQueue::new(2);
    sender.send(&mut core, 1).unwrap();
    sender.send(&mut core, 2).unwrap();
    sender.send(&mut core, 3).unwrap();
    assert_eq!(receiver.recv(&mut core), Ok(1));
    assert_eq!(receiver.recv(&mut core), Ok(2));
    assert_eq!(receiver.recv(&mut core), Ok(3));
    sender.send(&mut core, 4).unwrap();
    assert_eq!(receiver.recv(&mut core), Ok(4));
}

#[test]
fn disconnect_still_drains_buffered_data() {
    let (mut sender, mut receiver, mut core) = BoundedSpscQueue::new(4);
    sender.send(&mut core, 10).unwrap();
    sender.send(&mut core, 20).unwrap();
    sender.disconnect(&mut core);

    // data sent before the disconnect is delivered first, in order
    assert_eq!(receiver.recv(&mut core), Ok(10));
    assert_eq!(receiver.recv(&mut core), Ok(20));
    // then a blocking receive reports the disconnect instead of spinning
    assert_eq!(receiver.recv(&mut core), Err(ReceiveError));
    assert_eq!(receiver.try_recv(&mut core), Err(TryReceiveError::Disconnected));
}

#[test]
fn send_fails_once_receiver_is_gone() {
    let (mut sender, receiver, mut core) = BoundedSpscQueue::new(2);
    receiver.disconnect(&mut core);
    assert_eq!(sender.send(&mut core, 5), Err(SendError(5)));
    assert_eq!(sender.try_send(&mut core, 6), Err(TrySendError::Disconnected(6)));
}

#[test]
fn try_send_on_full_queue_changes_nothing() {
    let (mut sender, mut receiver, mut core) = BoundedSpscQueue::new(1);
    sender.try_send(&mut core, 7).unwrap();
    // full: the value comes back and no cursor moves
    assert_eq!(sender.try_send(&mut core, 8), Err(TrySendError::Full(8)));
    assert_eq!(sender.try_send(&mut core, 9), Err(TrySendError::Full(9)));
    assert_eq!(receiver.recv(&mut core), Ok(7));
    assert_eq!(receiver.try_recv(&mut core), Err(TryReceiveError::Empty));
}

#[test]
fn try_recv_on_empty_queue_changes_nothing() {
    let (mut sender, mut receiver, mut core) = BoundedSpscQueue::new(1);
    assert_eq!(receiver.try_recv(&mut core), Err(TryReceiveError::Empty));
    assert_eq!(receiver.try_recv(&mut core), Err(TryReceiveError::Empty));
    // the queue still works exactly as before
    sender.send(&mut core, 42).unwrap();
    assert_eq!(receiver.recv(&mut core), Ok(42));
}

#[test]
fn resources_released_exactly_once() {
    let token = std::rc::Rc::new(());

    // every sent-and-received value is released by the caller
    {
        let (mut sender, mut receiver, mut core) = BoundedSpscQueue::new(2);
        sender.send(&mut core, token.clone()).unwrap();
        sender.send(&mut core, token.clone()).unwrap();
        assert_eq!(std::rc::Rc::strong_count(&token), 3);
        let a = receiver.recv(&mut core).unwrap();
        drop(a);
        assert_eq!(std::rc::Rc::strong_count(&token), 2);
        // one value is still buffered when the whole channel goes away
    }
    assert_eq!(std::rc::Rc::strong_count(&token), 1);
}

#[test]
fn wrap_index_reduces_modulo_the_ring() {
    assert_eq!(wrap_index(0, 4), 0);
    assert_eq!(wrap_index(3, 4), 3);
    assert_eq!(wrap_index(4, 4), 0);
    assert_eq!(wrap_index(5, 4), 1);
    assert_eq!(wrap_index(13, 8), 5);
}
