//! The abstract state of a broker and what each operation does to it.
//!
//! Every executable operation of `Broker` is specified as one of the
//! transitions below, so properties of the broker are properties of these
//! functions.
use crate::names::name_ok;
use vstd::prelude::*;

verus! {

/// Largest offset that a topic may reach.
pub const MAX_OFFSET: u64 = 0xffff_ffff_ffff_fffe;

/// Failed appends in a row after which a topic refuses publishes.
pub const MAX_IO_FAILURES: u64 = 3;

/// Lifecycle of a broker.
#[derive(Clone, Copy, Debug, PartialEq, Eq, Structural)]
pub enum BrokerState {
    /// Recovering topics and offsets from storage.
    Starting,
    /// Accepting publish, subscribe and ack.
    Running,
    /// Refusing publishes; consumers finish what they hold.
    Draining,
    /// Everything refused.
    Stopped,
}

/// Why a broker operation failed.
#[derive(Clone, Copy, Debug, PartialEq, Eq, Structural)]
pub enum BrokerError {
    /// A bad topic or group name, an oversized payload, or an offset beyond the log.
    Validation,
    /// The topic's slowest group is a full queue behind.
    Backpressure,
    /// The log cannot take another record.
    IoFailure,
    /// Persisted state that contradicts itself.
    CorruptSegment,
    /// The topic does not exist.
    UnknownTopic,
    /// The group does not read the topic.
    UnknownGroup,
    /// The broker is not in a state that accepts the call.
    ShuttingDown,
}

/// Cursor of one consumer group on one topic.
pub struct GroupModel {
    /// Highest acknowledged offset (0: none).
    pub committed: nat,
    /// Highest offset handed out since the last subscribe.
    pub delivered: nat,
}

/// One topic: its log and the groups that read it. The record at index `i`
/// of `log` has offset `i + 1`.
pub struct TopicModel {
    pub log: Seq<Seq<u8>>,
    pub groups: Map<Seq<char>, GroupModel>,
    /// Appends to storage that failed in a row, up to `MAX_IO_FAILURES`.
    pub failures: nat,
}

pub struct BrokerModel {
    pub state: BrokerState,
    pub queue_size: nat,
    pub max_payload: nat,
    pub topics: Map<Seq<char>, TopicModel>,
}

impl TopicModel {
    pub open spec fn fresh() -> TopicModel {
        TopicModel { log: Seq::empty(), groups: Map::empty(), failures: 0 }
    }

    /// Storage failed too often in a row: the topic takes no more publishes.
    pub open spec fn degraded(self) -> bool {
        self.failures >= MAX_IO_FAILURES
    }

    /// Some group is `queue_size` or more records behind the log's end.
    pub open spec fn at_capacity(self, queue_size: nat) -> bool {
        exists|g: Seq<char>|
            #![trigger self.groups[g]]
            self.groups.contains_key(g) && self.log.len() >= self.groups[g].committed
                + queue_size
    }
}

impl BrokerModel {
    pub open spec fn topic(self, t: Seq<char>) -> TopicModel {
        if self.topics.contains_key(t) {
            self.topics[t]
        } else {
            TopicModel::fresh()
        }
    }

    pub open spec fn log(self, t: Seq<char>) -> Seq<Seq<u8>> {
        self.topic(t).log
    }

    pub open spec fn has_group(self, t: Seq<char>, g: Seq<char>) -> bool {
        self.topics.contains_key(t) && self.topics[t].groups.contains_key(g)
    }

    pub open spec fn group(self, t: Seq<char>, g: Seq<char>) -> GroupModel {
        if self.has_group(t, g) {
            self.topics[t].groups[g]
        } else {
            GroupModel { committed: 0, delivered: 0 }
        }
    }

    /// Every cursor lies within its log.
    pub open spec fn consistent(self) -> bool {
        forall|t: Seq<char>, g: Seq<char>|
            #![trigger self.topics[t].groups[g]]
            self.has_group(t, g) ==> self.topics[t].groups[g].committed
                <= self.topics[t].groups[g].delivered <= self.topics[t].log.len()
    }

    pub open spec fn with_topic(self, t: Seq<char>, tm: TopicModel) -> BrokerModel {
        BrokerModel { topics: self.topics.insert(t, tm), ..self }
    }

    pub open spec fn with_group(self, t: Seq<char>, g: Seq<char>, gm: GroupModel) -> BrokerModel {
        self.with_topic(
            t,
            TopicModel { groups: self.topic(t).groups.insert(g, gm), ..self.topic(t) },
        )
    }

    // ---- publish ----
    pub open spec fn publish_result(self, t: Seq<char>, p: Seq<u8>) -> Result<nat, BrokerError> {
        if self.state != BrokerState::Running {
            Err(BrokerError::ShuttingDown)
        } else if !name_ok(t) || p.len() > self.max_payload {
            Err(BrokerError::Validation)
        } else if self.topic(t).degraded() {
            Err(BrokerError::IoFailure)
        } else if self.topic(t).at_capacity(self.queue_size) {
            Err(BrokerError::Backpressure)
        } else if self.log(t).len() >= MAX_OFFSET {
            Err(BrokerError::IoFailure)
        } else {
            Ok(self.log(t).len() + 1)
        }
    }

    pub open spec fn after_publish(self, t: Seq<char>, p: Seq<u8>) -> BrokerModel {
        if self.publish_result(t, p) is Ok {
            self.with_topic(
                t,
                TopicModel { log: self.log(t).push(p), ..self.topic(t) },
            )
        } else {
            self
        }
    }

    // ---- storage failures ----
    /// Storage outcomes are recorded for existing topics and for valid names
    /// of topics not created yet (whose first append failed).
    pub open spec fn io_result(self, t: Seq<char>) -> Result<(), BrokerError> {
        if self.topics.contains_key(t) || name_ok(t) {
            Ok(())
        } else {
            Err(BrokerError::Validation)
        }
    }

    /// One more failed append to `t`'s storage, counted up to the limit. A
    /// topic that does not exist yet is created, empty, to hold the count.
    pub open spec fn after_io_failure(self, t: Seq<char>) -> BrokerModel {
        if self.io_result(t) is Ok {
            let tm = self.topic(t);
            self.with_topic(
                t,
                TopicModel {
                    failures: if tm.failures < MAX_IO_FAILURES {
                        tm.failures + 1
                    } else {
                        tm.failures
                    },
                    ..tm
                },
            )
        } else {
            self
        }
    }

    /// A successful append to `t`'s storage clears the count of failures; a
    /// topic that does not exist has none to clear.
    pub open spec fn after_io_success(self, t: Seq<char>) -> BrokerModel {
        if self.topics.contains_key(t) {
            self.with_topic(t, TopicModel { failures: 0, ..self.topics[t] })
        } else {
            self
        }
    }

    // ---- subscribe ----
    /// Where a group starts: its committed offset when it exists; otherwise
    /// the start of the log, or its end when it asked to start from now.
    pub open spec fn start_offset(self, t: Seq<char>, g: Seq<char>, from_now: bool) -> nat {
        if self.has_group(t, g) {
            self.group(t, g).committed
        } else if from_now {
            self.log(t).len()
        } else {
            0
        }
    }

    pub open spec fn subscribe_result(self, t: Seq<char>, g: Seq<char>, from_now: bool) -> Result<
        nat,
        BrokerError,
    > {
        if self.state != BrokerState::Running {
            Err(BrokerError::ShuttingDown)
        } else if !name_ok(t) || !name_ok(g) {
            Err(BrokerError::Validation)
        } else {
            Ok(self.start_offset(t, g, from_now))
        }
    }

    /// A subscription creates the topic and group when they are new, and
    /// rewinds delivery to the group's committed offset.
    pub open spec fn after_subscribe(self, t: Seq<char>, g: Seq<char>, from_now: bool) -> BrokerModel {
        if self.subscribe_result(t, g, from_now) is Ok {
            let c = self.start_offset(t, g, from_now);
            self.with_group(t, g, GroupModel { committed: c, delivered: c })
        } else {
            self
        }
    }

    // ---- next ----
    pub open spec fn next_result(self, t: Seq<char>, g: Seq<char>) -> Result<
        Option<(nat, Seq<u8>)>,
        BrokerError,
    > {
        if self.state != BrokerState::Running {
            Err(BrokerError::ShuttingDown)
        } else if !self.topics.contains_key(t) {
            Err(BrokerError::UnknownTopic)
        } else if !self.has_group(t, g) {
            Err(BrokerError::UnknownGroup)
        } else {
            let d = self.group(t, g).delivered;
            if d < self.log(t).len() {
                Ok(Some((d + 1, self.log(t)[d as int])))
            } else {
                Ok(None)
            }
        }
    }

    pub open spec fn after_next(self, t: Seq<char>, g: Seq<char>) -> BrokerModel {
        if self.next_result(t, g) matches Ok(Some(_)) {
            let gm = self.group(t, g);
            self.with_group(t, g, GroupModel { delivered: gm.delivered + 1, ..gm })
        } else {
            self
        }
    }

    // ---- ack ----
    pub open spec fn ack_result(self, t: Seq<char>, g: Seq<char>, o: nat) -> Result<
        nat,
        BrokerError,
    > {
        if self.state == BrokerState::Starting || self.state == BrokerState::Stopped {
            Err(BrokerError::ShuttingDown)
        } else if !self.topics.contains_key(t) {
            Err(BrokerError::UnknownTopic)
        } else if !self.has_group(t, g) {
            Err(BrokerError::UnknownGroup)
        } else if o > self.log(t).len() {
            Err(BrokerError::Validation)
        } else if o > self.group(t, g).committed {
            Ok(o)
        } else {
            Ok(self.group(t, g).committed)
        }
    }

    /// Acknowledging offset `o` commits everything up to `o`; acks never move
    /// the committed offset back.
    pub open spec fn after_ack(self, t: Seq<char>, g: Seq<char>, o: nat) -> BrokerModel {
        if let Ok(c) = self.ack_result(t, g, o) {
            let gm = self.group(t, g);
            self.with_group(
                t,
                g,
                GroupModel {
                    committed: c,
                    delivered: if gm.delivered < c {
                        c
                    } else {
                        gm.delivered
                    },
                },
            )
        } else {
            self
        }
    }

    // ---- lifecycle ----
    pub open spec fn start_result(self) -> Result<(), BrokerError> {
        if self.state == BrokerState::Starting || self.state == BrokerState::Running {
            Ok(())
        } else {
            Err(BrokerError::ShuttingDown)
        }
    }

    pub open spec fn after_start(self) -> BrokerModel {
        if self.start_result() is Ok {
            BrokerModel { state: BrokerState::Running, ..self }
        } else {
            self
        }
    }

    pub open spec fn after_shutdown(self) -> BrokerModel {
        if self.state == BrokerState::Starting || self.state == BrokerState::Running {
            BrokerModel { state: BrokerState::Draining, ..self }
        } else {
            self
        }
    }

    pub open spec fn after_stop(self) -> BrokerModel {
        BrokerModel { state: BrokerState::Stopped, ..self }
    }

    // ---- recovery ----
    pub open spec fn restore_topic_result(self, t: Seq<char>) -> Result<(), BrokerError> {
        if self.state != BrokerState::Starting {
            Err(BrokerError::ShuttingDown)
        } else if !name_ok(t) || self.topics.contains_key(t) {
            Err(BrokerError::Validation)
        } else {
            Ok(())
        }
    }

    pub open spec fn after_restore_topic(self, t: Seq<char>, log: Seq<Seq<u8>>) -> BrokerModel {
        if self.restore_topic_result(t) is Ok {
            self.with_topic(t, TopicModel { log, groups: Map::empty(), failures: 0 })
        } else {
            self
        }
    }

    pub open spec fn restore_group_result(self, t: Seq<char>, g: Seq<char>, c: nat) -> Result<
        (),
        BrokerError,
    > {
        if self.state != BrokerState::Starting {
            Err(BrokerError::ShuttingDown)
        } else if !name_ok(g) {
            Err(BrokerError::Validation)
        } else if !self.topics.contains_key(t) {
            Err(BrokerError::UnknownTopic)
        } else if c > self.log(t).len() {
            Err(BrokerError::CorruptSegment)
        } else {
            Ok(())
        }
    }

    pub open spec fn after_restore_group(self, t: Seq<char>, g: Seq<char>, c: nat) -> BrokerModel {
        if self.restore_group_result(t, g, c) is Ok {
            self.with_group(t, g, GroupModel { committed: c, delivered: c })
        } else {
            self
        }
    }

    /// What survives a stop of the process, graceful or not: the logs and
    /// the committed offsets. Delivery restarts from each committed offset.
    pub open spec fn restarted(self) -> BrokerModel {
        BrokerModel {
            state: BrokerState::Starting,
            topics: Map::new(
                |t: Seq<char>| self.topics.contains_key(t),
                |t: Seq<char>|
                    TopicModel {
                        log: self.topics[t].log,
                        failures: 0,
                        groups: Map::new(
                            |g: Seq<char>| self.topics[t].groups.contains_key(g),
                            |g: Seq<char>|
                                GroupModel {
                                    committed: self.topics[t].groups[g].committed,
                                    delivered: self.topics[t].groups[g].committed,
                                },
                        ),
                    },
            ),
            ..self
        }
    }
}

} // verus!
