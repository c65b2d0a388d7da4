//! The broker: topics with their logs, consumer groups with their cursors,
//! and the operations that producers and consumers call.
use crate::frame::{copy_range, payloads, MAX_FRAME_PAYLOAD};
use crate::model::{
    BrokerError, BrokerModel, BrokerState, GroupModel, TopicModel, MAX_IO_FAILURES, MAX_OFFSET,
};
use crate::names::{
    find_name, index_map, lemma_table_get, lemma_table_push, lemma_table_update, table,
    unique, valid_name,
};
use vstd::prelude::*;

verus! {

/// The views of a sequence of names.
pub open spec fn names_of(v: Seq<String>) -> Seq<Seq<char>> {
    v.map_values(|s: String| s@)
}

/// Where one consumer group stands on one topic.
#[derive(Clone, Copy, Debug, PartialEq, Eq, Structural)]
pub struct Cursor {
    pub committed: u64,
    pub delivered: u64,
}

impl View for Cursor {
    type V = GroupModel;

    open spec fn view(&self) -> GroupModel {
        GroupModel { committed: self.committed as nat, delivered: self.delivered as nat }
    }
}

/// The in-memory side of one topic: its records in offset order and the
/// cursors of the groups that read it, `cursors[i]` for `group_names[i]`.
pub struct TopicLog {
    records: Vec<Vec<u8>>,
    group_names: Vec<String>,
    cursors: Vec<Cursor>,
    failures: u64,
}

pub open spec fn cursor_views(v: Seq<Cursor>) -> Seq<GroupModel> {
    v.map_values(|c: Cursor| c@)
}

impl View for TopicLog {
    type V = TopicModel;

    closed spec fn view(&self) -> TopicModel {
        TopicModel {
            log: payloads(self.records@),
            groups: table(names_of(self.group_names@), cursor_views(self.cursors@)),
            failures: self.failures as nat,
        }
    }
}

impl TopicLog {
    pub closed spec fn wf(&self) -> bool {
        &&& self.group_names@.len() == self.cursors@.len()
        &&& unique(names_of(self.group_names@))
        &&& self.records@.len() <= MAX_OFFSET
        &&& self.failures <= MAX_IO_FAILURES
        &&& forall|i: int|
            0 <= i < self.cursors@.len() ==> #[trigger] self.cursors@[i].committed
                <= self.cursors@[i].delivered <= self.records@.len()
    }

    fn new(records: Vec<Vec<u8>>) -> (r: TopicLog)
        requires
            records@.len() <= MAX_OFFSET,
        ensures
            r.wf(),
            r@ == (TopicModel { log: payloads(records@), groups: Map::empty(), failures: 0 }),
    {
        let r = TopicLog { records, group_names: Vec::new(), cursors: Vec::new(), failures: 0 };
        assert(r@.groups =~= Map::empty());
        r
    }

    fn len(&self) -> (r: u64)
        requires
            self.wf(),
        ensures
            r == self@.log.len(),
    {
        self.records.len() as u64
    }

    fn push_record(&mut self, p: Vec<u8>)
        requires
            old(self).wf(),
            old(self)@.log.len() < MAX_OFFSET,
        ensures
            final(self).wf(),
            final(self)@ == (TopicModel { log: old(self)@.log.push(p@), ..old(self)@ }),
    {
        let ghost old_recs = self.records@;
        self.records.push(p);
        assert(payloads(self.records@) =~= payloads(old_recs).push(p@));
        assert forall|i: int| 0 <= i < self.cursors@.len() implies #[trigger] self.cursors@[i].committed
            <= self.cursors@[i].delivered <= self.records@.len() by {}
    }

    fn find_group(&self, g: &String) -> (r: Option<usize>)
        requires
            self.wf(),
        ensures
            match r {
                Some(i) => i < self.cursors@.len() && self@.groups.contains_key(g@)
                    && self@.groups[g@] == self.cursors@[i as int]@ && names_of(
                    self.group_names@,
                )[i as int] == g@,
                None => !self@.groups.contains_key(g@),
            },
    {
        let r = find_name(&self.group_names, g);
        proof {
            if let Some(i) = r {
                crate::names::lemma_index_map(names_of(self.group_names@));
                lemma_table_get(names_of(self.group_names@), cursor_views(self.cursors@), i as int);
                assert(names_of(self.group_names@)[i as int] == g@);
            }
        }
        r
    }

    fn set_cursor(&mut self, i: usize, c: Cursor)
        requires
            old(self).wf(),
            i < old(self).cursors@.len(),
            c.committed <= c.delivered <= old(self)@.log.len(),
        ensures
            final(self).wf(),
            final(self)@ == (TopicModel {
                groups: old(self)@.groups.insert(names_of(old(self).group_names@)[i as int], c@),
                ..old(self)@
            }),
            names_of(final(self).group_names@) == names_of(old(self).group_names@),
    {
        proof {
            lemma_table_update(
                names_of(self.group_names@),
                cursor_views(self.cursors@),
                i as int,
                c@,
            );
            assert(cursor_views(self.cursors@.update(i as int, c)) =~= cursor_views(
                self.cursors@,
            ).update(i as int, c@));
        }
        self.cursors.set(i, c);
    }

    fn add_group(&mut self, g: String, c: Cursor)
        requires
            old(self).wf(),
            !old(self)@.groups.contains_key(g@),
            c.committed <= c.delivered <= old(self)@.log.len(),
        ensures
            final(self).wf(),
            final(self)@ == (TopicModel { groups: old(self)@.groups.insert(g@, c@), ..old(self)@ }),
    {
        proof {
            lemma_table_push(names_of(self.group_names@), cursor_views(self.cursors@), g@, c@);
            assert(names_of(self.group_names@.push(g)) =~= names_of(self.group_names@).push(g@));
            assert(cursor_views(self.cursors@.push(c)) =~= cursor_views(self.cursors@).push(c@));
        }
        self.group_names.push(g);
        self.cursors.push(c);
    }

    fn set_failures(&mut self, n: u64)
        requires
            old(self).wf(),
            n <= MAX_IO_FAILURES,
        ensures
            final(self).wf(),
            final(self)@ == (TopicModel { failures: n as nat, ..old(self)@ }),
    {
        self.failures = n;
    }

    /// Whether some group is `queue_size` or more records behind.
    fn at_capacity(&self, queue_size: usize) -> (r: bool)
        requires
            self.wf(),
        ensures
            r == self@.at_capacity(queue_size as nat),
    {
        let len = self.records.len() as u64;
        let mut i: usize = 0;
        while i < self.cursors.len()
            invariant
                self.wf(),
                len == self.records@.len(),
                i <= self.cursors@.len(),
                forall|j: int|
                    0 <= j < i ==> (#[trigger] self.cursors@[j]).committed + queue_size > len,
            decreases self.cursors@.len() - i,
        {
            let c = self.cursors[i].committed;
            if len - c >= queue_size as u64 {
                proof {
                    let g = names_of(self.group_names@)[i as int];
                    lemma_table_get(names_of(self.group_names@), cursor_views(self.cursors@), i as int);
                    assert(self@.groups.contains_key(g) && self@.groups[g].committed == c);
                }
                return true;
            }
            i = i + 1;
        }
        proof {
            if self@.at_capacity(queue_size as nat) {
                let g = choose|g: Seq<char>|
                    #![trigger self@.groups[g]]
                    self@.groups.contains_key(g) && self@.log.len() >= self@.groups[g].committed
                        + queue_size;
                let ns = names_of(self.group_names@);
                crate::names::lemma_index_map(ns);
                let j = index_map(ns)[g];
                assert(self.cursors@[j].committed + queue_size > len);
            }
        }
        false
    }
}

pub open spec fn topic_views(v: Seq<TopicLog>) -> Seq<TopicModel> {
    v.map_values(|t: TopicLog| t@)
}

/// An offset result with the offset as a mathematical integer.
pub open spec fn offset_result(r: Result<u64, BrokerError>) -> Result<nat, BrokerError> {
    match r {
        Ok(o) => Ok(o as nat),
        Err(e) => Err(e),
    }
}

/// The in-memory state of a bounded publish/subscribe broker: `topics[i]`
/// is the topic named `topic_names[i]`. Durability is the caller's part:
/// each accepted record is written as a frame before it is handed out.
pub struct Broker {
    state: BrokerState,
    queue_size: usize,
    max_payload: usize,
    topic_names: Vec<String>,
    topics: Vec<TopicLog>,
}

impl View for Broker {
    type V = BrokerModel;

    closed spec fn view(&self) -> BrokerModel {
        BrokerModel {
            state: self.state,
            queue_size: self.queue_size as nat,
            max_payload: self.max_payload as nat,
            topics: table(names_of(self.topic_names@), topic_views(self.topics@)),
        }
    }
}

impl Broker {
    pub closed spec fn wf(&self) -> bool {
        &&& self.topic_names@.len() == self.topics@.len()
        &&& unique(names_of(self.topic_names@))
        &&& forall|i: int| 0 <= i < self.topics@.len() ==> (#[trigger] self.topics@[i]).wf()
        &&& self.max_payload <= MAX_FRAME_PAYLOAD
    }

    /// A broker in `Starting` with no topics. `queue_size` is the number of
    /// records a topic's slowest group may lag behind; `max_payload` the
    /// largest payload accepted.
    pub fn new(queue_size: usize, max_payload: usize) -> (r: Broker)
        requires
            max_payload <= MAX_FRAME_PAYLOAD,
        ensures
            r.wf(),
            r@ == (BrokerModel {
                state: BrokerState::Starting,
                queue_size: queue_size as nat,
                max_payload: max_payload as nat,
                topics: Map::empty(),
            }),
    {
        let r = Broker {
            state: BrokerState::Starting,
            queue_size,
            max_payload,
            topic_names: Vec::new(),
            topics: Vec::new(),
        };
        assert(r@.topics =~= Map::empty());
        r
    }

    fn find_topic(&self, t: &String) -> (r: Option<usize>)
        requires
            self.wf(),
        ensures
            match r {
                Some(i) => i < self.topics@.len() && self@.topics.contains_key(t@)
                    && self@.topics[t@] == self.topics@[i as int]@ && names_of(
                    self.topic_names@,
                )[i as int] == t@,
                None => !self@.topics.contains_key(t@),
            },
    {
        let r = find_name(&self.topic_names, t);
        proof {
            if let Some(i) = r {
                crate::names::lemma_index_map(names_of(self.topic_names@));
                lemma_table_get(names_of(self.topic_names@), topic_views(self.topics@), i as int);
            }
        }
        r
    }

    /// Adds a topic that is not there yet.
    fn add_topic(&mut self, t: String, tl: TopicLog)
        requires
            old(self).wf(),
            tl.wf(),
            !old(self)@.topics.contains_key(t@),
        ensures
            final(self).wf(),
            final(self)@ == old(self)@.with_topic(t@, tl@),
            final(self).topics@.len() == old(self).topics@.len() + 1,
            names_of(final(self).topic_names@) == names_of(old(self).topic_names@).push(t@),
    {
        proof {
            lemma_table_push(names_of(self.topic_names@), topic_views(self.topics@), t@, tl@);
            assert(names_of(self.topic_names@.push(t)) =~= names_of(self.topic_names@).push(t@));
            assert(topic_views(self.topics@.push(tl)) =~= topic_views(self.topics@).push(tl@));
        }
        self.topic_names.push(t);
        self.topics.push(tl);
    }

    proof fn lemma_topic_changed(old_b: Broker, new_b: Broker, i: int, t: Seq<char>)
        requires
            old_b.wf(),
            0 <= i < old_b.topics@.len(),
            old_b@.topics.contains_key(t),
            names_of(old_b.topic_names@)[i] == t,
            new_b.topic_names@ == old_b.topic_names@,
            new_b.topics@ == old_b.topics@.update(i, new_b.topics@[i]),
            new_b.topics@[i].wf(),
            new_b.state == old_b.state,
            new_b.queue_size == old_b.queue_size,
            new_b.max_payload == old_b.max_payload,
        ensures
            new_b.wf(),
            new_b@ == old_b@.with_topic(t, new_b.topics@[i]@),
    {
        let ns = names_of(old_b.topic_names@);
        crate::names::lemma_index_map(ns);
        lemma_table_get(ns, topic_views(old_b.topics@), i);
        lemma_table_update(ns, topic_views(old_b.topics@), i, new_b.topics@[i]@);
        assert(topic_views(new_b.topics@) =~= topic_views(old_b.topics@).update(
            i,
            new_b.topics@[i]@,
        ));
        assert(new_b@.topics =~= old_b@.topics.insert(t, new_b.topics@[i]@));
    }

    /// What `publish` would return now, without publishing: the offset the
    /// payload would get, or why it would be refused.
    pub fn check_publish(&self, topic: &String, payload: &Vec<u8>) -> (r: Result<u64, BrokerError>)
        requires
            self.wf(),
        ensures
            offset_result(r) == self@.publish_result(topic@, payload@),
    {
        if self.state != BrokerState::Running {
            return Err(BrokerError::ShuttingDown);
        }
        if !valid_name(topic) || payload.len() > self.max_payload {
            return Err(BrokerError::Validation);
        }
        match self.find_topic(topic) {
            Some(i) => {
                if self.topics[i].failures >= MAX_IO_FAILURES {
                    return Err(BrokerError::IoFailure);
                }
                if self.topics[i].at_capacity(self.queue_size) {
                    return Err(BrokerError::Backpressure);
                }
                let len = self.topics[i].len();
                if len >= MAX_OFFSET {
                    return Err(BrokerError::IoFailure);
                }
                Ok(len + 1)
            },
            None => Ok(1),
        }
    }

    /// Appends `payload` to `topic`, creating the topic on first use, and
    /// returns the new record's offset.
    pub fn publish(&mut self, topic: &String, payload: Vec<u8>) -> (r: Result<u64, BrokerError>)
        requires
            old(self).wf(),
        ensures
            final(self).wf(),
            offset_result(r) == old(self)@.publish_result(topic@, payload@),
            final(self)@ == old(self)@.after_publish(topic@, payload@),
    {
        let offset = match self.check_publish(topic, &payload) {
            Ok(o) => o,
            Err(e) => return Err(e),
        };
        match self.find_topic(topic) {
            Some(i) => {
                let ghost old_b = *self;
                self.topics[i].push_record(payload);
                proof {
                    Broker::lemma_topic_changed(old_b, *self, i as int, topic@);
                }
                Ok(offset)
            },
            None => {
                let mut tl = TopicLog::new(Vec::new());
                assert(payloads(Seq::<Vec<u8>>::empty()) =~= Seq::empty());
                tl.push_record(payload);
                let ghost tv = tl@;
                self.add_topic(topic.clone(), tl);
                assert(tv == (TopicModel {
                    log: old(self)@.log(topic@).push(payload@),
                    ..old(self)@.topic(topic@)
                }));
                Ok(1)
            },
        }
    }

    /// Subscribes `group` to `topic`, creating either when new (a new group
    /// replays from the start), and rewinds delivery to the group's committed
    /// offset, which it returns.
    pub fn subscribe(&mut self, topic: &String, group: &String) -> (r: Result<u64, BrokerError>)
        requires
            old(self).wf(),
        ensures
            final(self).wf(),
            offset_result(r) == old(self)@.subscribe_result(topic@, group@, false),
            final(self)@ == old(self)@.after_subscribe(topic@, group@, false),
    {
        self.subscribe_at(topic, group, false)
    }

    /// As `subscribe`, but a new group starts after the last record already
    /// in the log instead of replaying it.
    pub fn subscribe_from_now(&mut self, topic: &String, group: &String) -> (r: Result<
        u64,
        BrokerError,
    >)
        requires
            old(self).wf(),
        ensures
            final(self).wf(),
            offset_result(r) == old(self)@.subscribe_result(topic@, group@, true),
            final(self)@ == old(self)@.after_subscribe(topic@, group@, true),
    {
        self.subscribe_at(topic, group, true)
    }

    fn subscribe_at(&mut self, topic: &String, group: &String, from_now: bool) -> (r: Result<
        u64,
        BrokerError,
    >)
        requires
            old(self).wf(),
        ensures
            final(self).wf(),
            offset_result(r) == old(self)@.subscribe_result(topic@, group@, from_now),
            final(self)@ == old(self)@.after_subscribe(topic@, group@, from_now),
    {
        if self.state != BrokerState::Running {
            return Err(BrokerError::ShuttingDown);
        }
        if !valid_name(topic) || !valid_name(group) {
            return Err(BrokerError::Validation);
        }
        let i = match self.find_topic(topic) {
            Some(i) => i,
            None => {
                let tl = TopicLog::new(Vec::new());
                assert(payloads(Seq::<Vec<u8>>::empty()) =~= Seq::empty());
                self.add_topic(topic.clone(), tl);
                let i = self.topics.len() - 1;
                proof {
                    crate::names::lemma_index_map(names_of(self.topic_names@));
                    lemma_table_get(names_of(self.topic_names@), topic_views(self.topics@), i as int);
                    assert(names_of(self.topic_names@)[i as int] == topic@);
                }
                i
            },
        };
        let ghost mid = *self;
        match self.topics[i].find_group(group) {
            Some(j) => {
                let c = self.topics[i].cursors[j].committed;
                self.topics[i].set_cursor(j, Cursor { committed: c, delivered: c });
                proof {
                    Broker::lemma_topic_changed(mid, *self, i as int, topic@);
                    assert(self@.topics =~= old(self)@.after_subscribe(topic@, group@, from_now).topics);
                }
                Ok(c)
            },
            None => {
                let c = if from_now {
                    self.topics[i].len()
                } else {
                    0
                };
                self.topics[i].add_group(group.clone(), Cursor { committed: c, delivered: c });
                proof {
                    Broker::lemma_topic_changed(mid, *self, i as int, topic@);
                    assert(self@.topics =~= old(self)@.after_subscribe(topic@, group@, from_now).topics);
                }
                Ok(c)
            },
        }
    }

    /// Hands `group` the record after its last delivered one, if there is one.
    pub fn next(&mut self, topic: &String, group: &String) -> (r: Result<
        Option<(u64, Vec<u8>)>,
        BrokerError,
    >)
        requires
            old(self).wf(),
        ensures
            final(self).wf(),
            final(self)@ == old(self)@.after_next(topic@, group@),
            match (r, old(self)@.next_result(topic@, group@)) {
                (Ok(Some((o, p))), Ok(Some((mo, mp)))) => o as nat == mo && p@ == mp,
                (Ok(None), Ok(None)) => true,
                (Err(e), Err(me)) => e == me,
                _ => false,
            },
    {
        if self.state != BrokerState::Running {
            return Err(BrokerError::ShuttingDown);
        }
        let i = match self.find_topic(topic) {
            Some(i) => i,
            None => return Err(BrokerError::UnknownTopic),
        };
        let j = match self.topics[i].find_group(group) {
            Some(j) => j,
            None => return Err(BrokerError::UnknownGroup),
        };
        let cur = self.topics[i].cursors[j];
        let len = self.topics[i].len();
        if cur.delivered >= len {
            return Ok(None);
        }
        // Calling `len` brings the vector's length within usize into view.
        let _ = self.topics[i].records.len();
        let d = cur.delivered as usize;
        let rec = &self.topics[i].records[d];
        let p = copy_range(rec.as_slice(), 0, rec.len());
        proof {
            assert(rec@.subrange(0, rec@.len() as int) =~= rec@);
            let m = old(self)@;
            assert(m.group(topic@, group@) == cur@);
            assert(m.log(topic@)[d as int] == rec@);
        }
        let ghost mid = *self;
        self.topics[i].set_cursor(j, Cursor { committed: cur.committed, delivered: cur.delivered + 1 });
        proof {
            Broker::lemma_topic_changed(mid, *self, i as int, topic@);
        }
        Ok(Some((cur.delivered + 1, p)))
    }

    /// Acknowledges every offset of `topic` up to `offset` for `group`, and
    /// returns the group's committed offset afterwards.
    pub fn ack(&mut self, topic: &String, group: &String, offset: u64) -> (r: Result<u64, BrokerError>)
        requires
            old(self).wf(),
        ensures
            final(self).wf(),
            offset_result(r) == old(self)@.ack_result(topic@, group@, offset as nat),
            final(self)@ == old(self)@.after_ack(topic@, group@, offset as nat),
    {
        if self.state == BrokerState::Starting || self.state == BrokerState::Stopped {
            return Err(BrokerError::ShuttingDown);
        }
        let i = match self.find_topic(topic) {
            Some(i) => i,
            None => return Err(BrokerError::UnknownTopic),
        };
        let j = match self.topics[i].find_group(group) {
            Some(j) => j,
            None => return Err(BrokerError::UnknownGroup),
        };
        let cur = self.topics[i].cursors[j];
        if offset > self.topics[i].len() {
            return Err(BrokerError::Validation);
        }
        let c = if offset > cur.committed { offset } else { cur.committed };
        let d = if cur.delivered < c { c } else { cur.delivered };
        let ghost mid = *self;
        self.topics[i].set_cursor(j, Cursor { committed: c, delivered: d });
        proof {
            Broker::lemma_topic_changed(mid, *self, i as int, topic@);
        }
        Ok(c)
    }

    /// Records that appending to `topic`'s storage failed; after
    /// `MAX_IO_FAILURES` failures in a row the topic refuses publishes. A
    /// topic whose very first append failed is created to keep the count.
    pub fn record_io_failure(&mut self, topic: &String) -> (r: Result<(), BrokerError>)
        requires
            old(self).wf(),
        ensures
            final(self).wf(),
            r == old(self)@.io_result(topic@),
            final(self)@ == old(self)@.after_io_failure(topic@),
    {
        match self.find_topic(topic) {
            Some(i) => {
                let f = self.topics[i].failures;
                let n = if f < MAX_IO_FAILURES { f + 1 } else { f };
                let ghost old_b = *self;
                self.topics[i].set_failures(n);
                proof {
                    Broker::lemma_topic_changed(old_b, *self, i as int, topic@);
                }
                Ok(())
            },
            None => {
                if !valid_name(topic) {
                    return Err(BrokerError::Validation);
                }
                let mut tl = TopicLog::new(Vec::new());
                assert(payloads(Seq::<Vec<u8>>::empty()) =~= Seq::empty());
                tl.set_failures(1);
                self.add_topic(topic.clone(), tl);
                Ok(())
            },
        }
    }

    /// Records that appending to `topic`'s storage succeeded.
    pub fn record_io_success(&mut self, topic: &String) -> (r: Result<(), BrokerError>)
        requires
            old(self).wf(),
        ensures
            final(self).wf(),
            r == old(self)@.io_result(topic@),
            final(self)@ == old(self)@.after_io_success(topic@),
    {
        match self.find_topic(topic) {
            Some(i) => {
                let ghost old_b = *self;
                self.topics[i].set_failures(0);
                proof {
                    Broker::lemma_topic_changed(old_b, *self, i as int, topic@);
                }
                Ok(())
            },
            None => {
                if valid_name(topic) {
                    Ok(())
                } else {
                    Err(BrokerError::Validation)
                }
            },
        }
    }

    /// Leaves `Starting` once recovery is done.
    pub fn start(&mut self) -> (r: Result<(), BrokerError>)
        requires
            old(self).wf(),
        ensures
            final(self).wf(),
            r == old(self)@.start_result(),
            final(self)@ == old(self)@.after_start(),
    {
        if self.state == BrokerState::Starting || self.state == BrokerState::Running {
            self.state = BrokerState::Running;
            Ok(())
        } else {
            Err(BrokerError::ShuttingDown)
        }
    }

    /// Stops accepting publishes; a broker that is draining or stopped
    /// stays as it is.
    pub fn shutdown(&mut self)
        requires
            old(self).wf(),
        ensures
            final(self).wf(),
            final(self)@ == old(self)@.after_shutdown(),
    {
        if self.state == BrokerState::Starting || self.state == BrokerState::Running {
            self.state = BrokerState::Draining;
        }
    }

    /// Ends draining: every later call is refused.
    pub fn stop(&mut self)
        requires
            old(self).wf(),
        ensures
            final(self).wf(),
            final(self)@ == old(self)@.after_stop(),
    {
        self.state = BrokerState::Stopped;
    }

    /// During startup, installs a topic with the records recovered from its
    /// log.
    pub fn restore_topic(&mut self, topic: &String, records: Vec<Vec<u8>>) -> (r: Result<
        (),
        BrokerError,
    >)
        requires
            old(self).wf(),
            records@.len() <= MAX_OFFSET,
        ensures
            final(self).wf(),
            r == old(self)@.restore_topic_result(topic@),
            final(self)@ == old(self)@.after_restore_topic(topic@, payloads(records@)),
    {
        if self.state != BrokerState::Starting {
            return Err(BrokerError::ShuttingDown);
        }
        if !valid_name(topic) {
            return Err(BrokerError::Validation);
        }
        if self.find_topic(topic).is_some() {
            return Err(BrokerError::Validation);
        }
        let tl = TopicLog::new(records);
        self.add_topic(topic.clone(), tl);
        Ok(())
    }

    /// During startup, installs the committed offset of `group` on `topic`
    /// read from storage; delivery resumes after it.
    pub fn restore_group(&mut self, topic: &String, group: &String, committed: u64) -> (r: Result<
        (),
        BrokerError,
    >)
        requires
            old(self).wf(),
        ensures
            final(self).wf(),
            r == old(self)@.restore_group_result(topic@, group@, committed as nat),
            final(self)@ == old(self)@.after_restore_group(topic@, group@, committed as nat),
    {
        if self.state != BrokerState::Starting {
            return Err(BrokerError::ShuttingDown);
        }
        if !valid_name(group) {
            return Err(BrokerError::Validation);
        }
        let i = match self.find_topic(topic) {
            Some(i) => i,
            None => return Err(BrokerError::UnknownTopic),
        };
        if committed > self.topics[i].len() {
            return Err(BrokerError::CorruptSegment);
        }
        let c = Cursor { committed, delivered: committed };
        let ghost mid = *self;
        match self.topics[i].find_group(group) {
            Some(j) => {
                self.topics[i].set_cursor(j, c);
            },
            None => {
                self.topics[i].add_group(group.clone(), c);
            },
        }
        proof {
            Broker::lemma_topic_changed(mid, *self, i as int, topic@);
            assert(self@.topics =~= old(self)@.after_restore_group(
                topic@,
                group@,
                committed as nat,
            ).topics);
        }
        Ok(())
    }

    /// The lifecycle state.
    pub fn state(&self) -> (r: BrokerState)
        ensures
            r == self@.state,
    {
        self.state
    }

    /// The offset of the last record of `topic` (0: none).
    pub fn max_offset(&self, topic: &String) -> (r: Result<u64, BrokerError>)
        requires
            self.wf(),
        ensures
            offset_result(r) == if self@.topics.contains_key(topic@) {
                Ok::<nat, BrokerError>(self@.log(topic@).len())
            } else {
                Err(BrokerError::UnknownTopic)
            },
    {
        match self.find_topic(topic) {
            Some(i) => Ok(self.topics[i].len()),
            None => Err(BrokerError::UnknownTopic),
        }
    }

    /// The committed offset of `group` on `topic`.
    pub fn cursor(&self, topic: &String, group: &String) -> (r: Result<u64, BrokerError>)
        requires
            self.wf(),
        ensures
            offset_result(r) == if !self@.topics.contains_key(topic@) {
                Err(BrokerError::UnknownTopic)
            } else if !self@.has_group(topic@, group@) {
                Err(BrokerError::UnknownGroup)
            } else {
                Ok::<nat, BrokerError>(self@.group(topic@, group@).committed)
            },
    {
        let i = match self.find_topic(topic) {
            Some(i) => i,
            None => return Err(BrokerError::UnknownTopic),
        };
        match self.topics[i].find_group(group) {
            Some(j) => Ok(self.topics[i].cursors[j].committed),
            None => Err(BrokerError::UnknownGroup),
        }
    }

    /// A copy of the record of `topic` at `offset`.
    pub fn read(&self, topic: &String, offset: u64) -> (r: Result<Vec<u8>, BrokerError>)
        requires
            self.wf(),
        ensures
            match r {
                Ok(p) => self@.topics.contains_key(topic@) && 1 <= offset <= self@.log(topic@).len()
                    && p@ == self@.log(topic@)[offset - 1],
                Err(e) => if !self@.topics.contains_key(topic@) {
                    e == BrokerError::UnknownTopic
                } else {
                    e == BrokerError::Validation && (offset == 0 || offset > self@.log(
                        topic@,
                    ).len())
                },
            },
    {
        let i = match self.find_topic(topic) {
            Some(i) => i,
            None => return Err(BrokerError::UnknownTopic),
        };
        let _ = self.topics[i].records.len();
        if offset == 0 || offset > self.topics[i].len() {
            return Err(BrokerError::Validation);
        }
        let d = (offset - 1) as usize;
        let rec = &self.topics[i].records[d];
        let p = copy_range(rec.as_slice(), 0, rec.len());
        assert(rec@.subrange(0, rec@.len() as int) =~= rec@);
        Ok(p)
    }
}

} // verus!