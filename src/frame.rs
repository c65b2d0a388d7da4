//! On-disk record framing of the write-ahead log.
//!
//! Every record is stored as `[length: u32 LE][checksum: u32 LE][payload]`.
//! The checksum is 32-bit FNV-1a over the payload. A log file is a plain
//! concatenation of frames, so a torn write at the tail is detectable.
use vstd::prelude::*;

verus! {

/// Bytes taken by the length and checksum fields in front of each payload.
pub const HEADER_LEN: usize = 8;

/// Largest payload length that the 32-bit length field can hold.
pub const MAX_FRAME_PAYLOAD: usize = 4294967295;

pub const FNV_OFFSET: u32 = 2166136261;

pub const FNV_PRIME: u64 = 16777619;

/// Little-endian value of the four bytes of `s` starting at `at`.
pub open spec fn le32(s: Seq<u8>, at: int) -> nat {
    (s[at] as nat) + 256 * ((s[at + 1] as nat) + 256 * ((s[at + 2] as nat) + 256 * (s[at
        + 3] as nat)))
}

/// The four little-endian bytes of `x`.
pub open spec fn le32_bytes(x: nat) -> Seq<u8> {
    seq![
        (x % 256) as u8,
        (x / 256 % 256) as u8,
        (x / 256 / 256 % 256) as u8,
        (x / 256 / 256 / 256 % 256) as u8,
    ]
}

/// One round of FNV-1a.
pub open spec fn fnv_step(h: u32, b: u8) -> u32 {
    (((h ^ (b as u32)) as nat) * 16777619 % 4294967296) as u32
}

/// The checksum of a payload: FNV-1a over its bytes.
pub open spec fn checksum_of(p: Seq<u8>) -> u32
    decreases p.len(),
{
    if p.len() == 0 {
        FNV_OFFSET
    } else {
        fnv_step(checksum_of(p.drop_last()), p.last())
    }
}

/// The frame that stores payload `p`.
#[verifier::opaque]
pub open spec fn frame(p: Seq<u8>) -> Seq<u8> {
    le32_bytes(p.len()) + le32_bytes(checksum_of(p) as nat) + p
}

/// The log file that stores the payloads `ps`, in order.
#[verifier::opaque]
pub open spec fn frames(ps: Seq<Seq<u8>>) -> Seq<u8>
    decreases ps.len(),
{
    if ps.len() == 0 {
        Seq::empty()
    } else {
        frame(ps[0]) + frames(ps.drop_first())
    }
}

/// How a scan of a log file ended.
#[derive(Clone, Copy, Debug, PartialEq, Eq, Structural)]
pub enum LogTail {
    /// Every byte belongs to a valid frame.
    Clean,
    /// The last frame is incomplete or fails its checksum: a partial write.
    Torn,
    /// A frame fails its checksum although more bytes follow it.
    Corrupt,
}

/// The payloads of the valid frames at the front of `s`, and how the scan
/// ended.
#[verifier::opaque]
pub open spec fn scan(s: Seq<u8>) -> (Seq<Seq<u8>>, LogTail)
    decreases s.len(),
{
    if s.len() == 0 {
        (Seq::empty(), LogTail::Clean)
    } else if s.len() < 8 {
        (Seq::empty(), LogTail::Torn)
    } else {
        let n = le32(s, 0);
        if s.len() < 8 + n {
            (Seq::empty(), LogTail::Torn)
        } else if checksum_of(s.subrange(8, 8 + n as int)) as nat != le32(s, 4) {
            if s.len() == 8 + n {
                (Seq::empty(), LogTail::Torn)
            } else {
                (Seq::empty(), LogTail::Corrupt)
            }
        } else {
            let rest = scan(s.subrange(8 + n as int, s.len() as int));
            (seq![s.subrange(8, 8 + n as int)] + rest.0, rest.1)
        }
    }
}

/// The payload bytes of a sequence of vectors.
pub open spec fn payloads(v: Seq<Vec<u8>>) -> Seq<Seq<u8>> {
    v.map_values(|x: Vec<u8>| x@)
}

pub proof fn lemma_le32_round_trip(x: nat, rest: Seq<u8>)
    requires
        x < 4294967296,
    ensures
        le32(le32_bytes(x) + rest, 0) == x,
{
    let s = le32_bytes(x) + rest;
    let q1 = x / 256;
    let q2 = q1 / 256;
    let q3 = q2 / 256;
    assert(x == x % 256 + 256 * q1);
    assert(q1 == q1 % 256 + 256 * q2);
    assert(q2 == q2 % 256 + 256 * q3);
    assert(q3 < 256);
    assert(s[0] as nat == x % 256);
    assert(s[1] as nat == q1 % 256);
    assert(s[2] as nat == q2 % 256);
    assert(s[3] as nat == q3 % 256);
}

pub proof fn lemma_frames_push(ps: Seq<Seq<u8>>, p: Seq<u8>)
    ensures
        frames(ps.push(p)) == frames(ps) + frame(p),
    decreases ps.len(),
{
    reveal(frames);
    if ps.len() == 0 {
        assert(ps.push(p).drop_first() =~= Seq::<Seq<u8>>::empty());
        assert(frames(ps.push(p)) =~= frame(p) + frames(Seq::<Seq<u8>>::empty()));
        assert(frames(ps.push(p)) =~= frames(ps) + frame(p));
    } else {
        assert(ps.push(p).drop_first() =~= ps.drop_first().push(p));
        lemma_frames_push(ps.drop_first(), p);
        assert(frames(ps.push(p)) =~= frames(ps) + frame(p));
    }
}

/// Scanning a frame that is followed by more bytes yields its payload, then
/// whatever the rest yields.
pub proof fn lemma_scan_frame(p: Seq<u8>, rest: Seq<u8>)
    requires
        p.len() <= MAX_FRAME_PAYLOAD,
    ensures
        scan(frame(p) + rest) == (seq![p] + scan(rest).0, scan(rest).1),
{
    reveal(scan);
    reveal(frame);
    let s = frame(p) + rest;
    let n = p.len();
    lemma_le32_round_trip(n, le32_bytes(checksum_of(p) as nat) + p + rest);
    assert(s =~= le32_bytes(n) + (le32_bytes(checksum_of(p) as nat) + p + rest));
    assert(le32(s, 0) == n);
    let t = s.subrange(4, s.len() as int);
    assert(t =~= le32_bytes(checksum_of(p) as nat) + (p + rest));
    lemma_le32_round_trip(checksum_of(p) as nat, p + rest);
    assert(le32(s, 4) == le32(t, 0));
    assert(s.subrange(8, 8 + n as int) =~= p);
    assert(s.subrange(8 + n as int, s.len() as int) =~= rest);
}

/// FNV-1a checksum of `p`.
pub fn checksum(p: &[u8]) -> (r: u32)
    ensures
        r == checksum_of(p@),
{
    let mut h: u32 = FNV_OFFSET;
    let mut i: usize = 0;
    while i < p.len()
        invariant
            i <= p@.len(),
            h == checksum_of(p@.subrange(0, i as int)),
        decreases p@.len() - i,
    {
        assert(p@.subrange(0, i + 1).drop_last() =~= p@.subrange(0, i as int));
        let x: u32 = h ^ (p[i] as u32);
        h = ((x as u64) * FNV_PRIME % 4294967296u64) as u32;
        i = i + 1;
    }
    assert(p@.subrange(0, p@.len() as int) =~= p@);
    h
}

/// Appends the four little-endian bytes of `x` to `out`.
pub fn put_u32_le(out: &mut Vec<u8>, x: u32)
    ensures
        final(out)@ == old(out)@ + le32_bytes(x as nat),
{
    out.push((x % 256) as u8);
    out.push((x / 256 % 256) as u8);
    out.push((x / 256 / 256 % 256) as u8);
    out.push((x / 256 / 256 / 256 % 256) as u8);
    assert(final(out)@ =~= old(out)@ + le32_bytes(x as nat));
}

/// Reads the little-endian `u32` at `at`.
pub fn read_u32_le(s: &[u8], at: usize) -> (r: u32)
    requires
        at + 4 <= s@.len(),
    ensures
        r as nat == le32(s@, at as int),
{
    let b0 = s[at] as u32;
    let b1 = s[at + 1] as u32;
    let b2 = s[at + 2] as u32;
    let b3 = s[at + 3] as u32;
    b0 + 256 * (b1 + 256 * (b2 + 256 * b3))
}

/// The frame that stores `payload`.
pub fn encode_frame(payload: &[u8]) -> (r: Vec<u8>)
    requires
        payload@.len() <= MAX_FRAME_PAYLOAD,
    ensures
        r@ == frame(payload@),
{
    let mut out: Vec<u8> = Vec::new();
    put_u32_le(&mut out, payload.len() as u32);
    put_u32_le(&mut out, checksum(payload));
    let mut i: usize = 0;
    while i < payload.len()
        invariant
            i <= payload@.len(),
            out@ == le32_bytes(payload@.len()) + le32_bytes(checksum_of(payload@) as nat)
                + payload@.subrange(0, i as int),
        decreases payload@.len() - i,
    {
        out.push(payload[i]);
        i = i + 1;
        assert(out@ =~= le32_bytes(payload@.len()) + le32_bytes(checksum_of(payload@) as nat)
            + payload@.subrange(0, i as int));
    }
    assert(payload@.subrange(0, payload@.len() as int) =~= payload@);
    reveal(frame);
    out
}

/// Copies `s[from..to]` into a new vector.
pub(crate) fn copy_range(s: &[u8], from: usize, to: usize) -> (r: Vec<u8>)
    requires
        from <= to <= s@.len(),
    ensures
        r@ == s@.subrange(from as int, to as int),
{
    let mut out: Vec<u8> = Vec::new();
    let mut i: usize = from;
    while i < to
        invariant
            from <= i <= to <= s@.len(),
            out@ == s@.subrange(from as int, i as int),
        decreases to - i,
    {
        out.push(s[i]);
        i = i + 1;
        assert(out@ =~= s@.subrange(from as int, i as int));
    }
    out
}

/// What a scan of a log file found.
pub struct LogScan {
    /// The payloads of the valid frames, in order.
    pub records: Vec<Vec<u8>>,
    /// How the scan ended.
    pub tail: LogTail,
    /// Length of the valid prefix: where the next frame is to be written.
    pub valid_len: usize,
}

/// One step of `scan`: what it does with the first frame of `t`.
proof fn lemma_scan_unfold(t: Seq<u8>)
    ensures
        t.len() == 0 ==> scan(t) == (Seq::<Seq<u8>>::empty(), LogTail::Clean),
        0 < t.len() < 8 ==> scan(t) == (Seq::<Seq<u8>>::empty(), LogTail::Torn),
        t.len() >= 8 && t.len() < 8 + le32(t, 0) ==> scan(t) == (
        Seq::<Seq<u8>>::empty(),
        LogTail::Torn,
        ),
        t.len() >= 8 && t.len() >= 8 + le32(t, 0) && checksum_of(
            t.subrange(8, 8 + le32(t, 0) as int),
        ) as nat != le32(t, 4) ==> scan(t) == (
        Seq::<Seq<u8>>::empty(),
        if t.len() == 8 + le32(t, 0) {
            LogTail::Torn
        } else {
            LogTail::Corrupt
        },
        ),
        t.len() >= 8 && t.len() >= 8 + le32(t, 0) && checksum_of(
            t.subrange(8, 8 + le32(t, 0) as int),
        ) as nat == le32(t, 4) ==> scan(t) == (
        seq![t.subrange(8, 8 + le32(t, 0) as int)] + scan(
            t.subrange(8 + le32(t, 0) as int, t.len() as int),
        ).0,
        scan(t.subrange(8 + le32(t, 0) as int, t.len() as int)).1,
        ),
{
    reveal(scan);
}

/// What stands at one position of a log file.
enum FrameAt {
    /// The scan ends here, in the given way.
    End(LogTail),
    /// A valid frame holding this payload.
    Frame(Vec<u8>),
}

/// Reads the frame that starts at `pos`.
fn frame_at(s: &[u8], pos: usize) -> (r: FrameAt)
    requires
        pos <= s@.len(),
    ensures
        ({
            let t = s@.subrange(pos as int, s@.len() as int);
            match r {
                FrameAt::End(tail) => scan(t) == (Seq::<Seq<u8>>::empty(), tail) && (tail
                    == LogTail::Clean ==> pos == s@.len()),
                FrameAt::Frame(p) => {
                    &&& pos + 8 + p@.len() <= s@.len()
                    &&& frame(p@) == s@.subrange(pos as int, pos + 8 + p@.len())
                    &&& scan(t) == (seq![p@] + scan(
                        s@.subrange(pos + 8 + p@.len(), s@.len() as int),
                    ).0, scan(s@.subrange(pos + 8 + p@.len(), s@.len() as int)).1)
                },
            }
        }),
{
    let ghost t = s@.subrange(pos as int, s@.len() as int);
    proof {
        lemma_scan_unfold(t);
    }
    let left = s.len() - pos;
    if left < HEADER_LEN {
        return FrameAt::End(
            if left == 0 {
                LogTail::Clean
            } else {
                LogTail::Torn
            },
        );
    }
    let n = read_u32_le(s, pos) as usize;
    assert(le32(s@, pos as int) == le32(t, 0));
    if left - HEADER_LEN < n {
        return FrameAt::End(LogTail::Torn);
    }
    let stored = read_u32_le(s, pos + 4);
    assert(le32(s@, pos + 4) == le32(t, 4));
    let p = copy_range(s, pos + HEADER_LEN, pos + HEADER_LEN + n);
    assert(p@ =~= t.subrange(8, 8 + n as int));
    let sum = checksum(p.as_slice());
    if sum != stored {
        return FrameAt::End(
            if left - HEADER_LEN == n {
                LogTail::Torn
            } else {
                LogTail::Corrupt
            },
        );
    }
    proof {
        assert(t.subrange(8 + n as int, t.len() as int) =~= s@.subrange(
            pos + 8 + n,
            s@.len() as int,
        ));
        lemma_le32_round_trip(n as nat, s@.subrange(pos + 4, pos + 8));
        lemma_le32_round_trip(sum as nat, Seq::empty());
        let h = s@.subrange(pos as int, pos + 8 + n);
        assert(h.subrange(0, 4) =~= le32_bytes(n as nat)) by {
            let b = s@.subrange(pos as int, pos + 4);
            assert(le32(b, 0) == n);
            lemma_le32_bytes_of(b);
        }
        assert(h.subrange(4, 8) =~= le32_bytes(sum as nat)) by {
            let b = s@.subrange(pos + 4, pos + 8);
            assert(le32(b, 0) == sum);
            lemma_le32_bytes_of(b);
        }
        assert(h =~= h.subrange(0, 4) + h.subrange(4, 8) + p@);
        reveal(frame);
    }
    FrameAt::Frame(p)
}

/// Four bytes are the little-endian bytes of the value they spell.
proof fn lemma_le32_bytes_of(b: Seq<u8>)
    requires
        b.len() == 4,
    ensures
        le32_bytes(le32(b, 0)) =~= b,
{
    let x = le32(b, 0);
    let q1 = (b[1] as nat) + 256 * ((b[2] as nat) + 256 * (b[3] as nat));
    let q2 = (b[2] as nat) + 256 * (b[3] as nat);
    assert(x % 256 == b[0] as nat && x / 256 == q1);
    assert(q1 % 256 == b[1] as nat && q1 / 256 == q2);
    assert(q2 % 256 == b[2] as nat && q2 / 256 == b[3] as nat);
}

/// The scanner's loop invariant survives taking one more valid frame.
proof fn lemma_scan_step(s: Seq<u8>, pos: int, recs: Seq<Seq<u8>>, p: Seq<u8>)
    requires
        0 <= pos,
        pos + 8 + p.len() <= s.len(),
        frame(p) == s.subrange(pos, pos + 8 + p.len()),
        scan(s.subrange(pos, s.len() as int)) == (seq![p] + scan(
            s.subrange(pos + 8 + p.len(), s.len() as int),
        ).0, scan(s.subrange(pos + 8 + p.len(), s.len() as int)).1),
        scan(s).0 == recs + scan(s.subrange(pos, s.len() as int)).0,
        scan(s).1 == scan(s.subrange(pos, s.len() as int)).1,
        s.subrange(0, pos) == frames(recs),
    ensures
        ({
            let next = pos + 8 + p.len();
            &&& scan(s).0 == recs.push(p) + scan(s.subrange(next, s.len() as int)).0
            &&& scan(s).1 == scan(s.subrange(next, s.len() as int)).1
            &&& s.subrange(0, next) == frames(recs.push(p))
        }),
{
    let next = pos + 8 + p.len();
    let rest = scan(s.subrange(next, s.len() as int));
    assert(recs + (seq![p] + rest.0) =~= recs.push(p) + rest.0);
    lemma_frames_push(recs, p);
    assert(s.subrange(0, next) =~= s.subrange(0, pos) + s.subrange(pos, next));
}

proof fn lemma_payloads_push(a: Seq<Vec<u8>>, b: Seq<Vec<u8>>)
    requires
        b.len() == a.len() + 1,
        b.drop_last() == a,
    ensures
        payloads(b) == payloads(a).push(b.last()@),
{
    assert(payloads(b) =~= payloads(a).push(b.last()@));
}

/// Scans a log file from the front, stopping at the first frame that is
/// incomplete or fails its checksum.
pub fn scan_log(s: &[u8]) -> (r: LogScan)
    ensures
        payloads(r.records@) == scan(s@).0,
        r.tail == scan(s@).1,
        r.valid_len as nat == frames(scan(s@).0).len(),
        s@.subrange(0, r.valid_len as int) == frames(scan(s@).0),
        r.valid_len <= s@.len(),
        r.tail == LogTail::Clean ==> r.valid_len == s@.len(),
{
    let mut records: Vec<Vec<u8>> = Vec::new();
    let ghost mut recs: Seq<Seq<u8>> = Seq::empty();
    let mut pos: usize = 0;
    let mut tail = LogTail::Clean;
    proof {
        assert(s@.subrange(0, s@.len() as int) =~= s@);
        assert(payloads(records@) =~= recs);
        reveal(frames);
        assert(s@.subrange(0, 0) =~= frames(recs));
    }
    loop
        invariant
            pos <= s@.len(),
            payloads(records@) == recs,
            scan(s@).0 == recs + scan(s@.subrange(pos as int, s@.len() as int)).0,
            scan(s@).1 == scan(s@.subrange(pos as int, s@.len() as int)).1,
            s@.subrange(0, pos as int) == frames(recs),
        ensures
            pos <= s@.len(),
            payloads(records@) == recs,
            recs == scan(s@).0,
            tail == scan(s@).1,
            s@.subrange(0, pos as int) == frames(recs),
            tail == LogTail::Clean ==> pos == s@.len(),
        decreases s@.len() - pos,
    {
        let at = frame_at(s, pos);
        match at {
            FrameAt::End(t) => {
                assert(recs + Seq::<Seq<u8>>::empty() =~= recs);
                tail = t;
                break;
            },
            FrameAt::Frame(p) => {
                let total = s.len();
                assert(pos + 8 + p@.len() <= total);
                let ghost old_records = records@;
                proof {
                    lemma_scan_step(s@, pos as int, recs, p@);
                }
                pos = pos + HEADER_LEN + p.len();
                let ghost pv = p@;
                records.push(p);
                proof {
                    assert(records@.drop_last() =~= old_records);
                    lemma_payloads_push(old_records, records@);
                    recs = recs.push(pv);
                }
            },
        }
    }
    LogScan { records, tail, valid_len: pos }
}

} // verus!
