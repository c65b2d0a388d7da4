//! Decisions that drive the broker from outside: whether a publisher that
//! met backpressure waits again, when the active log segment is rotated, and
//! how the segments of a topic are recovered at startup.
use crate::frame::{frames, payloads, scan, scan_log, LogTail};
use crate::model::BrokerError;
use vstd::prelude::*;

verus! {

/// What a publisher does after an attempt to publish.
#[derive(Clone, Copy, Debug)]
pub enum PublishStep {
    /// Hand this outcome to the caller.
    Done(Result<u64, BrokerError>),
    /// Wait for capacity to free, then try again.
    Wait,
}

/// The step after a publish attempt that returned `outcome`, when the
/// publisher has waited `waited_ms` of its `timeout_ms`: only backpressure
/// within the timeout is waited out; a refusal because the broker is
/// shutting down is returned at once.
pub fn publish_step(outcome: Result<u64, BrokerError>, waited_ms: u64, timeout_ms: u64) -> (r:
    PublishStep)
    ensures
        r == (if outcome == Err::<u64, BrokerError>(BrokerError::Backpressure) && waited_ms
            < timeout_ms {
            PublishStep::Wait
        } else {
            PublishStep::Done(outcome)
        }),
{
    match outcome {
        Err(BrokerError::Backpressure) => {
            if waited_ms < timeout_ms {
                PublishStep::Wait
            } else {
                PublishStep::Done(outcome)
            }
        },
        _ => PublishStep::Done(outcome),
    }
}

/// Whether the next frame goes to a new segment: the active one has
/// reached `limit` bytes.
pub fn should_rotate(active_len: u64, limit: u64) -> (r: bool)
    ensures
        r == (active_len >= limit),
{
    active_len >= limit
}

/// The records of a topic's segments, read in order.
pub open spec fn joined(segs: Seq<Seq<u8>>) -> Seq<Seq<u8>>
    decreases segs.len(),
{
    if segs.len() == 0 {
        Seq::empty()
    } else {
        joined(segs.drop_last()) + scan(segs.last()).0
    }
}

/// Segments that can be recovered: every segment but the last ends
/// cleanly, and the last one at worst has a torn tail.
pub open spec fn recoverable(segs: Seq<Seq<u8>>) -> bool {
    &&& forall|i: int| 0 <= i < segs.len() - 1 ==> (#[trigger] scan(segs[i])).1 == LogTail::Clean
    &&& segs.len() > 0 ==> scan(segs.last()).1 != LogTail::Corrupt
}

/// A topic's state as recovered from its segments.
pub struct Recovery {
    /// Every valid record, in offset order.
    pub records: Vec<Vec<u8>>,
    /// The last segment ended in a partial frame, which was dropped.
    pub torn: bool,
    /// Length of the valid prefix of the last segment.
    pub last_valid_len: usize,
}

/// Recovers a topic from its segments, oldest first. A torn tail of the last
/// segment is dropped and reported; any other damage is fatal.
pub fn recover_segments(segs: &Vec<Vec<u8>>) -> (r: Result<Recovery, BrokerError>)
    ensures
        ({
            let ss = payloads(segs@);
            match r {
                Ok(rec) => recoverable(ss) && payloads(rec.records@) == joined(ss) && rec.torn == (
                ss.len() > 0 && scan(ss.last()).1 == LogTail::Torn) && (ss.len() > 0
                    ==> rec.last_valid_len == frames(scan(ss.last()).0).len()
                    && rec.last_valid_len <= ss.last().len()) && (ss.len() == 0
                    ==> rec.last_valid_len == 0),
                Err(e) => !recoverable(ss) && e == BrokerError::CorruptSegment,
            }
        }),
{
    let ghost ss = payloads(segs@);
    let mut records: Vec<Vec<u8>> = Vec::new();
    let mut torn = false;
    let mut last_valid_len: usize = 0;
    let n = segs.len();
    let mut i: usize = 0;
    assert(payloads(records@) =~= joined(ss.subrange(0, 0)));
    while i < n
        invariant
            n == segs@.len(),
            ss == payloads(segs@),
            i <= n,
            payloads(records@) == joined(ss.subrange(0, i as int)),
            forall|j: int| 0 <= j < i && j < n - 1 ==> (#[trigger] scan(ss[j])).1 == LogTail::Clean,
            i > 0 ==> scan(ss[i - 1]).1 != LogTail::Corrupt,
            torn == (i > 0 && scan(ss[i - 1]).1 == LogTail::Torn),
            i > 0 ==> last_valid_len <= ss[i - 1].len() && last_valid_len == frames(
                scan(ss[i - 1]).0,
            ).len(),
            i == 0 ==> last_valid_len == 0,
        decreases n - i,
    {
        let mut sc = scan_log(segs[i].as_slice());
        assert(segs@[i as int]@ == ss[i as int]);
        if sc.tail == LogTail::Corrupt || (sc.tail == LogTail::Torn && i + 1 < n) {
            return Err(BrokerError::CorruptSegment);
        }
        let ghost before = records@;
        let ghost got = sc.records@;
        records.append(&mut sc.records);
        proof {
            assert(ss.subrange(0, i + 1).drop_last() =~= ss.subrange(0, i as int));
            assert(payloads(records@) =~= payloads(before) + payloads(got));
        }
        torn = sc.tail == LogTail::Torn;
        last_valid_len = sc.valid_len;
        i = i + 1;
    }
    assert(ss.subrange(0, n as int) =~= ss);
    Ok(Recovery { records, torn, last_valid_len })
}

} // verus!
