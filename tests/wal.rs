use broker_core::broker::Broker;
use broker_core::flow::{publish_step, recover_segments, should_rotate, PublishStep};
use broker_core::frame::{checksum, encode_frame, scan_log, LogTail};
use broker_core::model::BrokerError;

fn log_of(payloads: &[&[u8]]) -> Vec<u8> {
    let mut out = Vec::new();
    for p in payloads {
        out.extend_from_slice(&encode_frame(p));
    }
    out
}

#[test]
fn checksum_known_values() {
    assert_eq!(checksum(b""), 0x811c9dc5);
    assert_eq!(checksum(b"a"), 0xe40c292c);
    assert_eq!(checksum(b"foobar"), 0xbf9cf968);
}

#[test]
fn frame_layout() {
    let f = encode_frame(b"hi");
    assert_eq!(f.len(), 10);
    assert_eq!(&f[0..4], &[2, 0, 0, 0]);
    assert_eq!(&f[4..8], &checksum(b"hi").to_le_bytes());
    assert_eq!(&f[8..], b"hi");
}

#[test]
fn clean_log_round_trips() {
    let bytes = log_of(&[b"one", b"", b"three"]);
    let s = scan_log(&bytes);
    assert_eq!(s.records, vec![b"one".to_vec(), vec![], b"three".to_vec()]);
    assert_eq!(s.tail, LogTail::Clean);
    assert_eq!(s.valid_len, bytes.len());
}

#[test]
fn truncated_final_frame_is_dropped() {
    let good = log_of(&[b"one", b"two"]);
    let last = encode_frame(b"three");
    for cut in 1..last.len() {
        let mut bytes = good.clone();
        bytes.extend_from_slice(&last[..cut]);
        let s = scan_log(&bytes);
        assert_eq!(s.records, vec![b"one".to_vec(), b"two".to_vec()]);
        assert_eq!(s.tail, LogTail::Torn);
        assert_eq!(s.valid_len, good.len());
    }
}

#[test]
fn recovery_resumes_numbering_after_torn_tail() {
    let mut bytes = log_of(&[b"one", b"two"]);
    bytes.extend_from_slice(&encode_frame(b"three")[..6]);
    let rec = recover_segments(&vec![bytes]).unwrap();
    assert!(rec.torn);
    assert_eq!(rec.last_valid_len, log_of(&[b"one", b"two"]).len());
    let mut b = Broker::new(10, 100);
    let t = "docs".to_string();
    b.restore_topic(&t, rec.records).unwrap();
    b.start().unwrap();
    assert_eq!(b.read(&t, 2), Ok(b"two".to_vec()));
    assert_eq!(b.publish(&t, b"three".to_vec()), Ok(3));
    assert_eq!(b.read(&t, 1), Ok(b"one".to_vec()));
}

#[test]
fn bad_checksum_on_last_frame_is_torn() {
    let mut bytes = log_of(&[b"one", b"two"]);
    let n = bytes.len();
    bytes[n - 1] ^= 0xff;
    let s = scan_log(&bytes);
    assert_eq!(s.records, vec![b"one".to_vec()]);
    assert_eq!(s.tail, LogTail::Torn);
}

#[test]
fn corrupt_interior_frame_is_fatal() {
    let mut bytes = log_of(&[b"one", b"two"]);
    bytes[9] ^= 0xff;
    let s = scan_log(&bytes);
    assert_eq!(s.tail, LogTail::Corrupt);
    assert!(s.records.is_empty());
    assert_eq!(s.valid_len, 0);
    assert!(matches!(recover_segments(&vec![bytes]), Err(BrokerError::CorruptSegment)));
}

#[test]
fn segments_join_in_order() {
    let segs = vec![log_of(&[b"a", b"b"]), log_of(&[b"c"])];
    let rec = recover_segments(&segs).unwrap();
    assert_eq!(rec.records, vec![b"a".to_vec(), b"b".to_vec(), b"c".to_vec()]);
    assert!(!rec.torn);
    assert_eq!(rec.last_valid_len, segs[1].len());
}

#[test]
fn torn_tail_in_older_segment_is_fatal() {
    let mut first = log_of(&[b"a"]);
    first.push(3);
    let segs = vec![first, log_of(&[b"c"])];
    assert!(matches!(recover_segments(&segs), Err(BrokerError::CorruptSegment)));
}

#[test]
fn no_segments_recover_empty() {
    let rec = recover_segments(&vec![]).unwrap();
    assert!(rec.records.is_empty());
    assert_eq!(rec.last_valid_len, 0);
}

#[test]
fn publish_waits_only_on_backpressure() {
    assert!(matches!(publish_step(Err(BrokerError::Backpressure), 10, 100), PublishStep::Wait));
    assert!(matches!(
        publish_step(Err(BrokerError::Backpressure), 100, 100),
        PublishStep::Done(Err(BrokerError::Backpressure))
    ));
    assert!(matches!(
        publish_step(Err(BrokerError::ShuttingDown), 0, 100),
        PublishStep::Done(Err(BrokerError::ShuttingDown))
    ));
    assert!(matches!(publish_step(Ok(4), 0, 100), PublishStep::Done(Ok(4))));
}

#[test]
fn rotation_at_limit() {
    assert!(!should_rotate(99, 100));
    assert!(should_rotate(100, 100));
}
