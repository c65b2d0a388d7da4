use broker_core::broker::Broker;
use broker_core::model::{BrokerError, BrokerState};

fn name(x: &str) -> String {
    x.to_string()
}

fn running(queue_size: usize) -> Broker {
    let mut b = Broker::new(queue_size, 1024);
    assert_eq!(b.start(), Ok(()));
    b
}

#[test]
fn single_group_sees_append_order() {
    let mut b = running(100);
    let t = name("docs");
    let g = name("collab");
    assert_eq!(b.subscribe(&t, &g), Ok(0));
    let payloads: Vec<Vec<u8>> = vec![b"a".to_vec(), b"bb".to_vec(), b"ccc".to_vec()];
    for (i, p) in payloads.iter().enumerate() {
        assert_eq!(b.publish(&t, p.clone()), Ok(i as u64 + 1));
    }
    for (i, p) in payloads.iter().enumerate() {
        assert_eq!(b.next(&t, &g), Ok(Some((i as u64 + 1, p.clone()))));
    }
    assert_eq!(b.next(&t, &g), Ok(None));
}

#[test]
fn two_groups_are_independent() {
    let mut b = running(100);
    let t = name("docs");
    let g1 = name("fast");
    let g2 = name("slow");
    b.subscribe(&t, &g1).unwrap();
    b.subscribe(&t, &g2).unwrap();
    b.publish(&t, vec![1]).unwrap();
    b.publish(&t, vec![2]).unwrap();
    assert_eq!(b.next(&t, &g1), Ok(Some((1, vec![1]))));
    assert_eq!(b.next(&t, &g1), Ok(Some((2, vec![2]))));
    assert_eq!(b.ack(&t, &g1, 2), Ok(2));
    assert_eq!(b.next(&t, &g2), Ok(Some((1, vec![1]))));
    assert_eq!(b.next(&t, &g2), Ok(Some((2, vec![2]))));
    assert_eq!(b.cursor(&t, &g1), Ok(2));
    assert_eq!(b.cursor(&t, &g2), Ok(0));
}

#[test]
fn restart_resumes_after_last_ack() {
    let mut b = running(100);
    let t = name("docs");
    let g = name("collab");
    b.subscribe(&t, &g).unwrap();
    for i in 0..5u8 {
        b.publish(&t, vec![i]).unwrap();
    }
    for _ in 0..3 {
        b.next(&t, &g).unwrap();
    }
    assert_eq!(b.ack(&t, &g, 3), Ok(3));
    // What storage holds after an ungraceful stop: the log and the commit.
    let mut records = Vec::new();
    for o in 1..=5u64 {
        records.push(b.read(&t, o).unwrap());
    }
    let committed = b.cursor(&t, &g).unwrap();
    let mut r = Broker::new(100, 1024);
    assert_eq!(r.restore_topic(&t, records), Ok(()));
    assert_eq!(r.restore_group(&t, &g, committed), Ok(()));
    assert_eq!(r.start(), Ok(()));
    assert_eq!(r.subscribe(&t, &g), Ok(3));
    assert_eq!(r.next(&t, &g), Ok(Some((4, vec![3]))));
    assert_eq!(r.next(&t, &g), Ok(Some((5, vec![4]))));
    assert_eq!(r.next(&t, &g), Ok(None));
}

#[test]
fn backpressure_boundary_of_two() {
    let mut b = running(2);
    let t = name("docs");
    let g = name("collab");
    b.subscribe(&t, &g).unwrap();
    assert_eq!(b.publish(&t, b"A".to_vec()), Ok(1));
    assert_eq!(b.publish(&t, b"B".to_vec()), Ok(2));
    assert_eq!(b.publish(&t, b"C".to_vec()), Err(BrokerError::Backpressure));
    assert_eq!(b.ack(&t, &g, 1), Ok(1));
    assert_eq!(b.publish(&t, b"C".to_vec()), Ok(3));
    assert_eq!(b.publish(&t, b"D".to_vec()), Err(BrokerError::Backpressure));
    assert_eq!(b.max_offset(&t), Ok(3));
}

#[test]
fn slowest_group_sets_backpressure() {
    let mut b = running(1);
    let t = name("docs");
    b.subscribe(&t, &name("a")).unwrap();
    b.subscribe(&t, &name("b")).unwrap();
    assert_eq!(b.publish(&t, vec![0]), Ok(1));
    assert_eq!(b.ack(&t, &name("a"), 1), Ok(1));
    assert_eq!(b.publish(&t, vec![1]), Err(BrokerError::Backpressure));
    assert_eq!(b.ack(&t, &name("b"), 1), Ok(1));
    assert_eq!(b.publish(&t, vec![1]), Ok(2));
}

#[test]
fn topic_without_groups_takes_publishes() {
    let mut b = running(0);
    let t = name("audit");
    for i in 0..10u64 {
        assert_eq!(b.publish(&t, vec![1, 2, 3]), Ok(i + 1));
    }
}

#[test]
fn shutdown_refuses_publish_and_keeps_records() {
    let mut b = running(2);
    let t = name("docs");
    let g = name("collab");
    b.subscribe(&t, &g).unwrap();
    b.publish(&t, b"A".to_vec()).unwrap();
    b.publish(&t, b"B".to_vec()).unwrap();
    assert_eq!(b.publish(&t, b"C".to_vec()), Err(BrokerError::Backpressure));
    b.shutdown();
    assert_eq!(b.state(), BrokerState::Draining);
    assert_eq!(b.publish(&t, b"C".to_vec()), Err(BrokerError::ShuttingDown));
    assert_eq!(b.next(&t, &g), Err(BrokerError::ShuttingDown));
    assert_eq!(b.ack(&t, &g, 1), Ok(1));
    b.stop();
    assert_eq!(b.state(), BrokerState::Stopped);
    assert_eq!(b.ack(&t, &g, 2), Err(BrokerError::ShuttingDown));
    assert_eq!(b.start(), Err(BrokerError::ShuttingDown));
    assert_eq!(b.read(&t, 2), Ok(b"B".to_vec()));
    assert_eq!(b.cursor(&t, &g), Ok(1));
}

#[test]
fn validation_errors() {
    let mut b = Broker::new(10, 4);
    assert_eq!(b.publish(&name("docs"), vec![1]), Err(BrokerError::ShuttingDown));
    b.start().unwrap();
    assert_eq!(b.publish(&name(""), vec![1]), Err(BrokerError::Validation));
    assert_eq!(b.publish(&name("a/b"), vec![1]), Err(BrokerError::Validation));
    assert_eq!(b.publish(&name(&"x".repeat(65)), vec![1]), Err(BrokerError::Validation));
    assert_eq!(b.publish(&name(&"x".repeat(64)), vec![1]), Ok(1));
    assert_eq!(b.publish(&name("docs"), vec![1, 2, 3, 4, 5]), Err(BrokerError::Validation));
    assert_eq!(b.publish(&name("docs"), vec![1, 2, 3, 4]), Ok(1));
    assert_eq!(b.subscribe(&name("docs"), &name("g 1")), Err(BrokerError::Validation));
    assert_eq!(b.ack(&name("docs"), &name("nobody"), 1), Err(BrokerError::UnknownGroup));
    assert_eq!(b.ack(&name("none"), &name("g"), 1), Err(BrokerError::UnknownTopic));
    assert_eq!(b.next(&name("none"), &name("g")), Err(BrokerError::UnknownTopic));
    b.subscribe(&name("docs"), &name("g")).unwrap();
    assert_eq!(b.ack(&name("docs"), &name("g"), 2), Err(BrokerError::Validation));
    assert_eq!(b.read(&name("docs"), 0), Err(BrokerError::Validation));
    assert_eq!(b.cursor(&name("docs"), &name("h")), Err(BrokerError::UnknownGroup));
    assert_eq!(b.max_offset(&name("none")), Err(BrokerError::UnknownTopic));
}

#[test]
fn acks_never_move_back() {
    let mut b = running(10);
    let t = name("docs");
    let g = name("g");
    b.subscribe(&t, &g).unwrap();
    for i in 0..4u8 {
        b.publish(&t, vec![i]).unwrap();
    }
    assert_eq!(b.ack(&t, &g, 3), Ok(3));
    assert_eq!(b.ack(&t, &g, 1), Ok(3));
    assert_eq!(b.next(&t, &g), Ok(Some((4, vec![3]))));
}

#[test]
fn resubscribe_rewinds_to_committed() {
    let mut b = running(10);
    let t = name("docs");
    let g = name("g");
    b.subscribe(&t, &g).unwrap();
    b.publish(&t, vec![7]).unwrap();
    b.publish(&t, vec![8]).unwrap();
    assert_eq!(b.next(&t, &g), Ok(Some((1, vec![7]))));
    assert_eq!(b.next(&t, &g), Ok(Some((2, vec![8]))));
    assert_eq!(b.subscribe(&t, &g), Ok(0));
    assert_eq!(b.next(&t, &g), Ok(Some((1, vec![7]))));
}

#[test]
fn restore_errors() {
    let mut b = Broker::new(10, 10);
    let t = name("docs");
    assert_eq!(b.restore_group(&t, &name("g"), 0), Err(BrokerError::UnknownTopic));
    assert_eq!(b.restore_topic(&t, vec![vec![1]]), Ok(()));
    assert_eq!(b.restore_topic(&t, vec![]), Err(BrokerError::Validation));
    assert_eq!(b.restore_group(&t, &name("g"), 2), Err(BrokerError::CorruptSegment));
    assert_eq!(b.restore_group(&t, &name("g"), 1), Ok(()));
    b.start().unwrap();
    assert_eq!(b.restore_topic(&name("x"), vec![]), Err(BrokerError::ShuttingDown));
    assert_eq!(b.max_offset(&t), Ok(1));
    assert_eq!(b.publish(&t, vec![2]), Ok(2));
}

#[test]
fn repeated_storage_failures_degrade_topic() {
    let mut b = running(10);
    let t = name("docs");
    b.publish(&t, vec![1]).unwrap();
    b.record_io_failure(&t).unwrap();
    b.record_io_failure(&t).unwrap();
    assert_eq!(b.check_publish(&t, &vec![2]), Ok(2));
    b.record_io_success(&t).unwrap();
    b.record_io_failure(&t).unwrap();
    b.record_io_failure(&t).unwrap();
    b.record_io_failure(&t).unwrap();
    assert_eq!(b.check_publish(&t, &vec![2]), Err(BrokerError::IoFailure));
    assert_eq!(b.publish(&t, vec![2]), Err(BrokerError::IoFailure));
    assert_eq!(b.publish(&name("other"), vec![2]), Ok(1));
    b.record_io_success(&t).unwrap();
    assert_eq!(b.publish(&t, vec![2]), Ok(2));
}

#[test]
fn check_publish_does_not_publish() {
    let mut b = running(10);
    let t = name("docs");
    assert_eq!(b.check_publish(&t, &vec![1]), Ok(1));
    assert_eq!(b.max_offset(&t), Err(BrokerError::UnknownTopic));
    b.publish(&t, vec![1]).unwrap();
    assert_eq!(b.check_publish(&t, &vec![1]), Ok(2));
    assert_eq!(b.max_offset(&t), Ok(1));
}

#[test]
fn subscribe_from_now_skips_existing_records() {
    let mut b = running(10);
    let t = name("docs");
    b.publish(&t, vec![1]).unwrap();
    b.publish(&t, vec![2]).unwrap();
    assert_eq!(b.subscribe_from_now(&t, &name("late")), Ok(2));
    assert_eq!(b.next(&t, &name("late")), Ok(None));
    b.publish(&t, vec![3]).unwrap();
    assert_eq!(b.next(&t, &name("late")), Ok(Some((3, vec![3]))));
    assert_eq!(b.subscribe(&t, &name("early")), Ok(0));
    assert_eq!(b.next(&t, &name("early")), Ok(Some((1, vec![1]))));
    // An existing group keeps its committed offset either way.
    assert_eq!(b.subscribe_from_now(&t, &name("early")), Ok(0));
}

#[test]
fn refused_publishes_leave_no_gap() {
    let mut b = Broker::new(10, 3);
    b.start().unwrap();
    let t = name("docs");
    let g = name("g");
    b.subscribe(&t, &g).unwrap();
    assert_eq!(b.publish(&t, vec![1]), Ok(1));
    assert_eq!(b.publish(&t, vec![9, 9, 9, 9]), Err(BrokerError::Validation));
    assert_eq!(b.publish(&t, vec![2]), Ok(2));
    assert_eq!(b.next(&t, &g), Ok(Some((1, vec![1]))));
    assert_eq!(b.next(&t, &g), Ok(Some((2, vec![2]))));
    assert_eq!(b.next(&t, &g), Ok(None));
}

#[test]
fn failures_before_first_append_are_counted() {
    let mut b = running(10);
    let t = name("fresh");
    assert_eq!(b.record_io_failure(&name("bad/name")), Err(BrokerError::Validation));
    assert_eq!(b.record_io_success(&t), Ok(()));
    assert_eq!(b.max_offset(&t), Err(BrokerError::UnknownTopic));
    assert_eq!(b.record_io_failure(&t), Ok(()));
    assert_eq!(b.max_offset(&t), Ok(0));
    assert_eq!(b.check_publish(&t, &vec![1]), Ok(1));
    b.record_io_failure(&t).unwrap();
    b.record_io_failure(&t).unwrap();
    assert_eq!(b.check_publish(&t, &vec![1]), Err(BrokerError::IoFailure));
    b.record_io_success(&t).unwrap();
    assert_eq!(b.publish(&t, vec![1]), Ok(1));
}
