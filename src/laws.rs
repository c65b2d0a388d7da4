//! Properties of the broker, proved over the transitions of `model` and the
//! framing of `frame`.
use crate::frame::{
    frame, frames, le32, le32_bytes, lemma_le32_round_trip, lemma_scan_frame, scan, LogTail,
    MAX_FRAME_PAYLOAD,
};
use crate::model::{BrokerError, BrokerModel, BrokerState, GroupModel, TopicModel, MAX_OFFSET};
use crate::names::name_ok;
use vstd::prelude::*;

verus! {

/// The broker after `k` deliveries to `g` on `t`.
pub open spec fn after_nexts(m: BrokerModel, t: Seq<char>, g: Seq<char>, k: nat) -> BrokerModel
    decreases k,
{
    if k == 0 {
        m
    } else {
        after_nexts(m, t, g, (k - 1) as nat).after_next(t, g)
    }
}

/// A successful publish appends its payload at the end of the topic's log,
/// under the next offset; the logs of other topics stay as they are.
pub proof fn lemma_publish_appends(m: BrokerModel, t: Seq<char>, p: Seq<u8>, other: Seq<char>)
    requires
        other != t,
    ensures
        m.publish_result(t, p) is Ok ==> m.publish_result(t, p) == Ok::<nat, BrokerError>(
            m.log(t).len() + 1,
        ) && m.after_publish(t, p).log(t) == m.log(t).push(p),
        m.publish_result(t, p) is Err ==> m.after_publish(t, p) == m,
        m.after_publish(t, p).log(other) == m.log(other),
{
}

/// The broker after publishing `ps` to `t`, one after another.
pub open spec fn after_publishes(m: BrokerModel, t: Seq<char>, ps: Seq<Seq<u8>>) -> BrokerModel
    decreases ps.len(),
{
    if ps.len() == 0 {
        m
    } else {
        after_publishes(m, t, ps.drop_last()).after_publish(t, ps.last())
    }
}

/// The payloads of `ps` whose publish to `t` succeeded, in publish order.
pub open spec fn accepted(m: BrokerModel, t: Seq<char>, ps: Seq<Seq<u8>>) -> Seq<Seq<u8>>
    decreases ps.len(),
{
    if ps.len() == 0 {
        Seq::empty()
    } else {
        let before = after_publishes(m, t, ps.drop_last());
        if before.publish_result(t, ps.last()) is Ok {
            accepted(m, t, ps.drop_last()).push(ps.last())
        } else {
            accepted(m, t, ps.drop_last())
        }
    }
}

/// Order of appends: whatever is published to a topic, its log grows by
/// exactly the accepted payloads, in the order they were published.
pub proof fn lemma_log_is_publish_order(m: BrokerModel, t: Seq<char>, ps: Seq<Seq<u8>>)
    ensures
        after_publishes(m, t, ps).log(t) == m.log(t) + accepted(m, t, ps),
    decreases ps.len(),
{
    if ps.len() == 0 {
        assert(m.log(t) + Seq::<Seq<u8>>::empty() =~= m.log(t));
    } else {
        lemma_log_is_publish_order(m, t, ps.drop_last());
        let before = after_publishes(m, t, ps.drop_last());
        assert(t.push('x').len() != t.len());
        lemma_publish_appends(before, t, ps.last(), t.push('x'));
        assert((m.log(t) + accepted(m, t, ps.drop_last())).push(ps.last()) =~= m.log(t) + accepted(
            m,
            t,
            ps.drop_last(),
        ).push(ps.last()));
    }
}

/// Order: a group is handed the records of a topic one after another, in
/// the order they were appended, starting after its last delivered offset.
pub proof fn lemma_delivery_order(m: BrokerModel, t: Seq<char>, g: Seq<char>, k: nat)
    requires
        m.state == BrokerState::Running,
        m.has_group(t, g),
        m.group(t, g).delivered + k < m.log(t).len(),
    ensures
        after_nexts(m, t, g, k).log(t) == m.log(t),
        after_nexts(m, t, g, k).has_group(t, g),
        after_nexts(m, t, g, k).state == BrokerState::Running,
        after_nexts(m, t, g, k).group(t, g).delivered == m.group(t, g).delivered + k,
        after_nexts(m, t, g, k).next_result(t, g) == Ok::<Option<(nat, Seq<u8>)>, BrokerError>(
            Some(
                (
                    m.group(t, g).delivered + k + 1,
                    m.log(t)[(m.group(t, g).delivered + k) as int],
                ),
            ),
        ),
    decreases k,
{
    if k > 0 {
        lemma_delivery_order(m, t, g, (k - 1) as nat);
    }
}

/// Independence: delivering to or acknowledging for one group leaves every
/// other group's cursor, and what it is handed next, as they were.
pub proof fn lemma_groups_independent(
    m: BrokerModel,
    t: Seq<char>,
    g1: Seq<char>,
    g2: Seq<char>,
    o: nat,
)
    requires
        g1 != g2,
    ensures
        m.after_next(t, g1).group(t, g2) == m.group(t, g2),
        m.after_next(t, g1).log(t) == m.log(t),
        m.after_next(t, g1).next_result(t, g2) == m.next_result(t, g2),
        m.after_ack(t, g1, o).group(t, g2) == m.group(t, g2),
        m.after_ack(t, g1, o).log(t) == m.log(t),
        m.after_ack(t, g1, o).next_result(t, g2) == m.next_result(t, g2),
{
    let a = m.after_next(t, g1);
    if a != m {
        assert(a.topics.contains_key(t));
        assert(a.has_group(t, g2) == m.has_group(t, g2));
    }
    let b = m.after_ack(t, g1, o);
    if b != m {
        assert(b.has_group(t, g2) == m.has_group(t, g2));
    }
}

/// Crash-resume: what survives a stop, graceful or not, is each log and each
/// committed offset; after a restart a group is handed the record right
/// after its committed offset, with nothing skipped.
pub proof fn lemma_crash_resume(m: BrokerModel, t: Seq<char>, g: Seq<char>)
    requires
        m.has_group(t, g),
        m.group(t, g).committed < m.log(t).len(),
    ensures
        m.restarted().log(t) == m.log(t),
        m.restarted().group(t, g).committed == m.group(t, g).committed,
        m.restarted().after_start().next_result(t, g) == Ok::<
            Option<(nat, Seq<u8>)>,
            BrokerError,
        >(Some((m.group(t, g).committed + 1, m.log(t)[m.group(t, g).committed as int]))),
{
    let r = m.restarted();
    assert(r.topics.contains_key(t));
    assert(r.topics[t].groups.contains_key(g));
}

/// The broker `b` after restoring, one after another, the committed offsets
/// that `m` holds for the groups `gs` of topic `t`.
pub open spec fn restore_groups(
    b: BrokerModel,
    m: BrokerModel,
    t: Seq<char>,
    gs: Seq<Seq<char>>,
) -> BrokerModel
    decreases gs.len(),
{
    if gs.len() == 0 {
        b
    } else {
        restore_groups(b, m, t, gs.drop_last()).after_restore_group(
            t,
            gs.last(),
            m.group(t, gs.last()).committed,
        )
    }
}

/// The broker `b` after restoring each topic of `ts` in turn as `m` holds it:
/// its log, then the groups `gs[t]`.
pub open spec fn restore_topics(
    b: BrokerModel,
    m: BrokerModel,
    ts: Seq<Seq<char>>,
    gs: Map<Seq<char>, Seq<Seq<char>>>,
) -> BrokerModel
    decreases ts.len(),
{
    if ts.len() == 0 {
        b
    } else {
        let t = ts.last();
        restore_groups(
            restore_topics(b, m, ts.drop_last(), gs).after_restore_topic(t, m.log(t)),
            m,
            t,
            gs[t],
        )
    }
}

/// Topic `t` of `m` after a restart, holding only the groups of `gs`.
pub open spec fn restarted_topic(m: BrokerModel, t: Seq<char>, gs: Seq<Seq<char>>) -> TopicModel {
    TopicModel {
        log: m.log(t),
        failures: 0,
        groups: Map::new(
            |g: Seq<char>| gs.contains(g),
            |g: Seq<char>|
                GroupModel {
                    committed: m.topics[t].groups[g].committed,
                    delivered: m.topics[t].groups[g].committed,
                },
        ),
    }
}

/// `m` after a restart, holding only the topics of `ts` and, of each topic
/// `t`, the groups of `gs[t]`.
pub open spec fn restarted_part(
    m: BrokerModel,
    ts: Seq<Seq<char>>,
    gs: Map<Seq<char>, Seq<Seq<char>>>,
) -> BrokerModel {
    BrokerModel {
        state: BrokerState::Starting,
        queue_size: m.queue_size,
        max_payload: m.max_payload,
        topics: Map::new(|t: Seq<char>| ts.contains(t), |t: Seq<char>| restarted_topic(m, t, gs[t])),
    }
}

proof fn lemma_restore_groups(b: BrokerModel, m: BrokerModel, t: Seq<char>, gs: Seq<Seq<char>>)
    requires
        b.state == BrokerState::Starting,
        b.topics.contains_key(t),
        b.topics[t] == restarted_topic(m, t, Seq::empty()),
        m.consistent(),
        forall|i: int|
            0 <= i < gs.len() ==> name_ok(#[trigger] gs[i]) && m.has_group(t, gs[i]),
    ensures
        restore_groups(b, m, t, gs) == b.with_topic(t, restarted_topic(m, t, gs)),
    decreases gs.len(),
{
    if gs.len() == 0 {
        assert(gs =~= Seq::<Seq<char>>::empty());
        assert(b.with_topic(t, restarted_topic(m, t, gs)).topics =~= b.topics);
    } else {
        let pre = gs.drop_last();
        let g = gs.last();
        assert(m.has_group(t, g) && name_ok(g));
        lemma_restore_groups(b, m, t, pre);
        let r = restore_groups(b, m, t, pre);
        let c = m.group(t, g).committed;
        assert(m.topics[t].groups[g].committed <= m.topics[t].groups[g].delivered);
        assert(r.log(t) == m.log(t));
        assert(r.restore_group_result(t, g, c) is Ok);
        let got = r.after_restore_group(t, g, c);
        let want = b.with_topic(t, restarted_topic(m, t, gs));
        assert(got.topics[t].groups =~= want.topics[t].groups) by {
            assert forall|x: Seq<char>| gs.contains(x) <==> (pre.contains(x) || x == g) by {
                if gs.contains(x) && x != g {
                    let i = choose|i: int| 0 <= i < gs.len() && gs[i] == x;
                    assert(pre[i] == x);
                }
                if pre.contains(x) {
                    let i = choose|i: int| 0 <= i < pre.len() && pre[i] == x;
                    assert(gs[i] == x);
                }
                if x == g {
                    assert(gs[gs.len() - 1] == x);
                }
            }
        }
        assert(got.topics =~= want.topics);
    }
}

proof fn lemma_restore_topics(
    fresh: BrokerModel,
    m: BrokerModel,
    ts: Seq<Seq<char>>,
    gs: Map<Seq<char>, Seq<Seq<char>>>,
)
    requires
        fresh.state == BrokerState::Starting,
        fresh.topics == Map::<Seq<char>, TopicModel>::empty(),
        fresh.queue_size == m.queue_size,
        fresh.max_payload == m.max_payload,
        m.consistent(),
        ts.no_duplicates(),
        forall|i: int|
            0 <= i < ts.len() ==> name_ok(#[trigger] ts[i]) && m.topics.contains_key(ts[i]),
        forall|t: Seq<char>, i: int|
            ts.contains(t) && 0 <= i < gs[t].len() ==> name_ok(#[trigger] gs[t][i])
                && m.has_group(t, gs[t][i]),
    ensures
        restore_topics(fresh, m, ts, gs) == restarted_part(m, ts, gs),
    decreases ts.len(),
{
    let want = restarted_part(m, ts, gs);
    if ts.len() == 0 {
        assert(want.topics =~= fresh.topics);
    } else {
        let pre = ts.drop_last();
        let t = ts.last();
        assert(ts[ts.len() - 1] == t);
        assert(pre.no_duplicates());
        assert forall|u: Seq<char>, i: int|
            pre.contains(u) && 0 <= i < gs[u].len() implies name_ok(#[trigger] gs[u][i])
            && m.has_group(u, gs[u][i]) by {
            let j = choose|j: int| 0 <= j < pre.len() && pre[j] == u;
            assert(ts[j] == u);
        }
        lemma_restore_topics(fresh, m, pre, gs);
        let r = restore_topics(fresh, m, pre, gs);
        assert(!pre.contains(t)) by {
            if pre.contains(t) {
                let j = choose|j: int| 0 <= j < pre.len() && pre[j] == t;
                assert(ts[j] == ts[ts.len() - 1]);
            }
        }
        assert(name_ok(t) && m.topics.contains_key(t));
        assert(r.restore_topic_result(t) is Ok);
        let r2 = r.after_restore_topic(t, m.log(t));
        assert(r2.topics[t].groups =~= restarted_topic(m, t, Seq::empty()).groups);
        assert forall|i: int| 0 <= i < gs[t].len() implies name_ok(#[trigger] gs[t][i])
            && m.has_group(t, gs[t][i]) by {
            assert(ts.contains(t));
        }
        lemma_restore_groups(r2, m, t, gs[t]);
        assert forall|u: Seq<char>| ts.contains(u) <==> (pre.contains(u) || u == t) by {
            if ts.contains(u) && u != t {
                let i = choose|i: int| 0 <= i < ts.len() && ts[i] == u;
                assert(pre[i] == u);
            }
            if pre.contains(u) {
                let i = choose|i: int| 0 <= i < pre.len() && pre[i] == u;
                assert(ts[i] == u);
            }
        }
        assert(restore_topics(fresh, m, ts, gs).topics =~= want.topics);
    }
}

/// Recovery rebuilds the restarted broker: a fresh broker that is handed,
/// topic by topic in any order, each log and then each group's committed
/// offset, as storage holds them, is exactly the broker that survives a stop.
pub proof fn lemma_restore_is_restart(
    fresh: BrokerModel,
    m: BrokerModel,
    ts: Seq<Seq<char>>,
    gs: Map<Seq<char>, Seq<Seq<char>>>,
)
    requires
        fresh.state == BrokerState::Starting,
        fresh.topics == Map::<Seq<char>, TopicModel>::empty(),
        fresh.queue_size == m.queue_size,
        fresh.max_payload == m.max_payload,
        m.consistent(),
        ts.no_duplicates(),
        ts.to_set() == m.topics.dom(),
        forall|i: int| 0 <= i < ts.len() ==> name_ok(#[trigger] ts[i]),
        forall|t: Seq<char>|
            #[trigger] m.topics.contains_key(t) ==> gs[t].to_set() == m.topics[t].groups.dom(),
        forall|t: Seq<char>, i: int|
            m.topics.contains_key(t) && 0 <= i < gs[t].len() ==> name_ok(#[trigger] gs[t][i]),
    ensures
        restore_topics(fresh, m, ts, gs) == m.restarted(),
{
    assert forall|t: Seq<char>| ts.contains(t) <==> m.topics.contains_key(t) by {
        assert(ts.to_set().contains(t) == ts.contains(t));
    }
    assert forall|i: int| 0 <= i < ts.len() implies name_ok(#[trigger] ts[i])
        && m.topics.contains_key(ts[i]) by {
        assert(ts.contains(ts[i]));
    }
    assert forall|t: Seq<char>, i: int|
        ts.contains(t) && 0 <= i < gs[t].len() implies name_ok(#[trigger] gs[t][i])
        && m.has_group(t, gs[t][i]) by {
        assert(m.topics.contains_key(t));
        assert(gs[t].to_set().contains(gs[t][i]));
    }
    lemma_restore_topics(fresh, m, ts, gs);
    let got = restarted_part(m, ts, gs);
    let want = m.restarted();
    assert forall|t: Seq<char>| #[trigger] got.topics.contains_key(t) implies got.topics[t]
        == want.topics[t] by {
        assert(m.topics.contains_key(t));
        assert forall|g: Seq<char>| gs[t].contains(g) <==> m.topics[t].groups.contains_key(g) by {
            assert(gs[t].to_set().contains(g) == gs[t].contains(g));
        }
        assert(got.topics[t].groups =~= want.topics[t].groups);
    }
    assert(got.topics =~= want.topics);
}

/// Backpressure boundary: with room for two records, healthy storage, and
/// one group that has acknowledged everything, two publishes succeed and the third is refused;
/// one ack lets exactly one more publish through.
pub proof fn lemma_backpressure_boundary(
    m: BrokerModel,
    t: Seq<char>,
    g: Seq<char>,
    a: Seq<u8>,
    b: Seq<u8>,
    c: Seq<u8>,
    d: Seq<u8>,
)
    requires
        m.state == BrokerState::Running,
        m.queue_size == 2,
        name_ok(t),
        m.topics.contains_key(t),
        m.topics[t].groups.dom() == set![g],
        !m.topics[t].degraded(),
        m.group(t, g).committed == m.log(t).len(),
        m.group(t, g).delivered == m.log(t).len(),
        m.log(t).len() + 4 < MAX_OFFSET,
        a.len() <= m.max_payload,
        b.len() <= m.max_payload,
        c.len() <= m.max_payload,
        d.len() <= m.max_payload,
    ensures
        ({
            let n = m.log(t).len();
            let m1 = m.after_publish(t, a);
            let m2 = m1.after_publish(t, b);
            let m3 = m2.after_ack(t, g, n + 1);
            let m4 = m3.after_publish(t, c);
            &&& m.publish_result(t, a) == Ok::<nat, BrokerError>(n + 1)
            &&& m1.publish_result(t, b) == Ok::<nat, BrokerError>(n + 2)
            &&& m2.publish_result(t, c) == Err::<nat, BrokerError>(BrokerError::Backpressure)
            &&& m2.after_publish(t, c) == m2
            &&& m2.ack_result(t, g, n + 1) == Ok::<nat, BrokerError>(n + 1)
            &&& m3.publish_result(t, c) == Ok::<nat, BrokerError>(n + 3)
            &&& m4.publish_result(t, d) == Err::<nat, BrokerError>(BrokerError::Backpressure)
        }),
{
    let n = m.log(t).len();
    assert(m.topics[t].groups.contains_key(g));
    assert(!m.topic(t).at_capacity(2));
    let m1 = m.after_publish(t, a);
    assert(m1.topics[t].groups == m.topics[t].groups);
    assert(!m1.topic(t).at_capacity(2));
    let m2 = m1.after_publish(t, b);
    assert(m2.topics[t].groups == m.topics[t].groups);
    assert(m2.topics[t].groups[g].committed + 2 <= m2.log(t).len());
    assert(m2.topic(t).at_capacity(2));
    let m3 = m2.after_ack(t, g, n + 1);
    assert(m3.topics[t].groups.dom() =~= set![g]);
    assert(m3.group(t, g).committed == n + 1);
    assert(!m3.topic(t).at_capacity(2));
    let m4 = m3.after_publish(t, c);
    assert(m4.topics[t].groups == m3.topics[t].groups);
    assert(m4.topics[t].groups[g].committed + 2 <= m4.log(t).len());
    assert(m4.topic(t).at_capacity(2));
}

/// A publish refused for backpressure goes through, under the next offset,
/// once an acknowledgement leaves the topic below capacity; nothing else
/// about the broker has to change for it.
pub proof fn lemma_room_after_ack(m: BrokerModel, t: Seq<char>, g: Seq<char>, o: nat, p: Seq<u8>)
    requires
        m.publish_result(t, p) == Err::<nat, BrokerError>(BrokerError::Backpressure),
        m.log(t).len() < MAX_OFFSET,
        m.ack_result(t, g, o) is Ok,
        !m.after_ack(t, g, o).topic(t).at_capacity(m.queue_size),
    ensures
        m.after_ack(t, g, o).log(t) == m.log(t),
        m.after_ack(t, g, o).publish_result(t, p) == Ok::<nat, BrokerError>(m.log(t).len() + 1),
{
}

/// A log written as frames reads back as exactly its payloads.
pub proof fn lemma_frames_round_trip(ps: Seq<Seq<u8>>, rest: Seq<u8>)
    requires
        forall|i: int| 0 <= i < ps.len() ==> (#[trigger] ps[i]).len() <= MAX_FRAME_PAYLOAD,
    ensures
        scan(frames(ps) + rest) == (ps + scan(rest).0, scan(rest).1),
    decreases ps.len(),
{
    if ps.len() == 0 {
        reveal(frames);
        assert(frames(ps) + rest =~= rest);
        assert(ps + scan(rest).0 =~= scan(rest).0);
    } else {
        reveal(frames);
        let tail = ps.drop_first();
        lemma_frames_round_trip(tail, rest);
        assert(frames(ps) + rest =~= frame(ps[0]) + (frames(tail) + rest));
        lemma_scan_frame(ps[0], frames(tail) + rest);
        assert(seq![ps[0]] + (tail + scan(rest).0) =~= ps + scan(rest).0);
    }
}

/// A frame cut short anywhere reads as a torn tail.
proof fn lemma_partial_frame(p: Seq<u8>, cut: int)
    requires
        p.len() <= MAX_FRAME_PAYLOAD,
        0 < cut < frame(p).len(),
    ensures
        scan(frame(p).subrange(0, cut)) == (Seq::<Seq<u8>>::empty(), LogTail::Torn),
{
    reveal(scan);
    reveal(frame);
    let s = frame(p).subrange(0, cut);
    if s.len() >= 8 {
        lemma_le32_round_trip(p.len(), frame(p).subrange(4, frame(p).len() as int));
        assert(frame(p) =~= le32_bytes(p.len()) + frame(p).subrange(4, frame(p).len() as int));
        assert(le32(s, 0) == le32(frame(p), 0));
    }
}

/// Corruption tolerance: a log whose last frame was cut short recovers every
/// record before it, and the valid part ends where that frame began.
pub proof fn lemma_torn_tail(ps: Seq<Seq<u8>>, p: Seq<u8>, cut: int)
    requires
        forall|i: int| 0 <= i < ps.len() ==> (#[trigger] ps[i]).len() <= MAX_FRAME_PAYLOAD,
        p.len() <= MAX_FRAME_PAYLOAD,
        0 < cut < frame(p).len(),
    ensures
        scan(frames(ps) + frame(p).subrange(0, cut)) == (ps, LogTail::Torn),
{
    lemma_partial_frame(p, cut);
    lemma_frames_round_trip(ps, frame(p).subrange(0, cut));
    assert(ps + Seq::<Seq<u8>>::empty() =~= ps);
}

/// Appending resumes after recovery: a topic restored from its records
/// gives the next publish the next offset and keeps every earlier record
/// under its offset.
pub proof fn lemma_resume_numbering(m: BrokerModel, t: Seq<char>, ps: Seq<Seq<u8>>, p: Seq<u8>)
    requires
        m.state == BrokerState::Starting,
        name_ok(t),
        !m.topics.contains_key(t),
        ps.len() < MAX_OFFSET,
        p.len() <= m.max_payload,
    ensures
        ({
            let r = m.after_restore_topic(t, ps).after_start();
            &&& r.publish_result(t, p) == Ok::<nat, BrokerError>(ps.len() + 1)
            &&& r.after_publish(t, p).log(t) == ps.push(p)
        }),
{
    let r = m.after_restore_topic(t, ps).after_start();
    assert(r.topics[t].groups =~= Map::<Seq<char>, GroupModel>::empty());
    assert(!r.topic(t).at_capacity(r.queue_size));
}

/// Graceful drain: once shutdown is called every publish is refused as
/// shutting down (never as backpressure, so no publisher keeps waiting), and
/// a restart afterwards finds exactly what a restart before it would have.
pub proof fn lemma_graceful_drain(m: BrokerModel, t: Seq<char>, p: Seq<u8>)
    ensures
        m.after_shutdown().publish_result(t, p) == Err::<nat, BrokerError>(
            BrokerError::ShuttingDown,
        ),
        m.after_shutdown().after_publish(t, p) == m.after_shutdown(),
        m.after_shutdown().restarted() == m.restarted(),
{
    assert(m.after_shutdown().restarted().topics =~= m.restarted().topics);
}

} // verus!
