//! The channel bus: named, lazily created publish/subscribe topics with
//! bounded history.
//!
//! Each topic keeps the most recent messages up to a per-topic capacity
//! that is fixed when the topic is created, from the then-current global
//! default; later changes to the default never affect existing topics.
//! A subscriber is positioned at "now" when it subscribes, so it never
//! observes a message published strictly before its subscription. A
//! subscriber that falls more than the capacity behind is told how many
//! messages it lost instead of silently skipping them.

use vstd::prelude::*;

verus! {

/// One named topic. `history` holds the most recent messages; the ghost
/// `log` records every message ever published on the topic, and `published`
/// is its length.
pub struct Topic {
    pub name: String,
    pub capacity: usize,
    pub published: usize,
    pub history: Vec<String>,
    pub log: Ghost<Seq<Seq<char>>>,
}

impl Topic {
    /// The log position of the oldest message still retained.
    pub open spec fn oldest(&self) -> int {
        self.log@.len() - self.history@.len()
    }

    /// Well-formedness: the history is exactly the tail of the log, cut to
    /// the topic's capacity.
    pub open spec fn wf(&self) -> bool {
        &&& self.capacity >= 1
        &&& self.published == self.log@.len()
        &&& self.history@.len() == if self.log@.len() <= self.capacity {
            self.log@.len() as int
        } else {
            self.capacity as int
        }
        &&& forall|i: int|
            0 <= i < self.history@.len() ==> self.history@[i]@ == self.log@[self.oldest() + i]
    }
}

/// What a non-blocking receive observed.
pub enum RecvOutcome {
    /// The next message, in publish order.
    Message(String),
    /// The subscriber fell behind and the given number of messages were
    /// dropped from the topic's bounded history before it could read them.
    /// The subscriber has been moved forward to the oldest retained message.
    Lagged(usize),
    /// No message has been published past this subscriber's position.
    Empty,
}

/// A subscriber's handle on one topic: the topic it was derived from and
/// its position in that topic's log. The ghost `joined` remembers how many
/// messages the topic had when the subscription was made.
pub struct Subscription {
    pub topic: usize,
    pub cursor: usize,
    pub joined: Ghost<int>,
}

/// The bus: the table of topics, created lazily by name, and the global
/// default capacity handed to each newly created topic.
pub struct ChannelBus {
    pub topics: Vec<Topic>,
    pub default_capacity: usize,
}

impl ChannelBus {
    /// Well-formedness: every topic is well-formed and topic names are
    /// unique, so a name denotes at most one topic.
    pub open spec fn wf(&self) -> bool {
        &&& self.default_capacity >= 1
        &&& forall|i: int| 0 <= i < self.topics@.len() ==> (#[trigger] self.topics@[i]).wf()
        &&& forall|i: int, j: int|
            0 <= i < j < self.topics@.len() ==> self.topics@[i].name@ != self.topics@[j].name@
    }

    /// Whether a topic of the given name exists.
    pub open spec fn has_topic(&self, name: Seq<char>) -> bool {
        exists|i: int| 0 <= i < self.topics@.len() && (#[trigger] self.topics@[i]).name@ == name
    }

    /// The index of the topic of the given name.
    pub open spec fn topic_idx(&self, name: Seq<char>) -> int {
        choose|i: int| 0 <= i < self.topics@.len() && (#[trigger] self.topics@[i]).name@ == name
    }

    /// Whether a subscription is a valid handle into this bus.
    pub open spec fn sub_wf(&self, sub: Subscription) -> bool {
        &&& sub.topic < self.topics@.len()
        &&& 0 <= sub.joined@ <= sub.cursor <= self.topics@[sub.topic as int].log@.len()
    }

    /// A fresh bus with no topics and the default history capacity.
    pub fn new() -> (r: ChannelBus)
        ensures
            r.wf(),
            r.topics@.len() == 0,
            r.default_capacity == 32,
    {
        ChannelBus { topics: Vec::new(), default_capacity: 32 }
    }

    /// Changes the history capacity handed to topics created from now on.
    /// Existing topics are untouched: their capacity was fixed at creation.
    pub fn set_capacity(&mut self, capacity: usize)
        requires
            old(self).wf(),
            capacity >= 1,
        ensures
            final(self).wf(),
            final(self).default_capacity == capacity,
            final(self).topics == old(self).topics,
    {
        self.default_capacity = capacity;
    }

    /// Returns the index of the topic of the given name, creating the topic
    /// first if it does not exist yet. All callers asking for one name get
    /// the one canonical topic: on a hit the bus is returned unchanged, and
    /// on a miss exactly one topic is appended, empty, with the current
    /// default capacity.
    pub fn get_or_create(&mut self, name: &String) -> (idx: usize)
        requires
            old(self).wf(),
        ensures
            final(self).wf(),
            final(self).default_capacity == old(self).default_capacity,
            idx < final(self).topics@.len(),
            final(self).topics@[idx as int].name@ == name@,
            final(self).has_topic(name@),
            final(self).topic_idx(name@) == idx,
            old(self).has_topic(name@) ==> *final(self) == *old(self) && idx == old(self).topic_idx(
                name@,
            ),
            !old(self).has_topic(name@) ==> {
                &&& idx == old(self).topics@.len()
                &&& final(self).topics@ == old(self).topics@.push(final(self).topics@[idx as int])
                &&& final(self).topics@[idx as int].capacity == old(self).default_capacity
                &&& final(self).topics@[idx as int].log@.len() == 0
            },
    {
        let n = self.topics.len();
        let mut i: usize = 0;
        while i < n
            invariant
                *self == *old(self),
                self.wf(),
                n == self.topics@.len(),
                i <= n,
                forall|j: int| 0 <= j < i ==> self.topics@[j].name@ != name@,
            decreases n - i,
        {
            if self.topics[i].name == *name {
                return i;
            }
            i = i + 1;
        }
        let topic = Topic {
            name: name.clone(),
            capacity: self.default_capacity,
            published: 0,
            history: Vec::new(),
            log: Ghost(Seq::empty()),
        };
        self.topics.push(topic);
        proof {
            assert(self.topics@[n as int].name@ == name@);
        }
        n
    }

    /// Publishes a message on the topic with the given index. The message
    /// is appended to the topic's log; if the history was already at
    /// capacity, the oldest retained message is dropped to make room.
    pub fn publish(&mut self, topic: usize, message: String)
        requires
            old(self).wf(),
            topic < old(self).topics@.len(),
            old(self).topics@[topic as int].published < usize::MAX,
        ensures
            final(self).wf(),
            final(self).default_capacity == old(self).default_capacity,
            final(self).topics@.len() == old(self).topics@.len(),
            final(self).topics@[topic as int].log@ == old(self).topics@[topic as int].log@.push(
                message@,
            ),
            final(self).topics@[topic as int].name@ == old(self).topics@[topic as int].name@,
            final(self).topics@[topic as int].capacity == old(self).topics@[topic as int].capacity,
            forall|i: int|
                0 <= i < old(self).topics@.len() && i != topic ==> final(self).topics@[i] == old(
                    self,
                ).topics@[i],
    {
        let ghost m = message@;
        let t = &mut self.topics[topic];
        if t.history.len() == t.capacity {
            t.history.remove(0);
        }
        t.history.push(message);
        t.published = t.published + 1;
        t.log = Ghost(t.log@.push(m));
    }

    /// Derives a new receiver on the topic of the given name, creating the
    /// topic first if needed. The receiver is positioned at "now": messages
    /// published before this call are never delivered to it.
    pub fn subscribe(&mut self, name: &String) -> (s: Subscription)
        requires
            old(self).wf(),
        ensures
            final(self).wf(),
            final(self).default_capacity == old(self).default_capacity,
            final(self).sub_wf(s),
            s.topic == final(self).topic_idx(name@),
            final(self).topics@[s.topic as int].name@ == name@,
            s.cursor == final(self).topics@[s.topic as int].log@.len(),
            s.joined@ == s.cursor,
            old(self).has_topic(name@) ==> *final(self) == *old(self),
            !old(self).has_topic(name@) ==> {
                &&& s.topic == old(self).topics@.len()
                &&& final(self).topics@ == old(self).topics@.push(
                    final(self).topics@[s.topic as int],
                )
                &&& final(self).topics@[s.topic as int].capacity == old(self).default_capacity
                &&& final(self).topics@[s.topic as int].log@.len() == 0
            },
    {
        let idx = self.get_or_create(name);
        let position = self.topics[idx].published;
        Subscription { topic: idx, cursor: position, joined: Ghost(position as int) }
    }

    /// A non-blocking receive on a subscription into this bus: returns the
    /// next message past the subscriber's position, or reports how far the
    /// subscriber lagged behind the topic's bounded history, or reports
    /// that nothing has been published past its position. Never blocks and
    /// never moves the subscriber backwards, and never delivers a message
    /// published before the subscription was made.
    pub fn try_recv(&self, sub: &mut Subscription) -> (r: RecvOutcome)
        requires
            self.wf(),
            self.sub_wf(*old(sub)),
        ensures
            self.sub_wf(*final(sub)),
            final(sub).topic == old(sub).topic,
            final(sub).joined == old(sub).joined,
            final(sub).cursor >= old(sub).cursor,
            ({
                let t = self.topics@[old(sub).topic as int];
                let oldest = t.log@.len() - t.history@.len();
                &&& (old(sub).cursor < oldest ==> (r matches RecvOutcome::Lagged(n) && n == oldest
                    - old(sub).cursor) && final(sub).cursor == oldest)
                &&& (old(sub).cursor >= t.log@.len() ==> r is Empty && final(sub).cursor == old(
                    sub,
                ).cursor)
                &&& (oldest <= old(sub).cursor < t.log@.len() ==> (r matches RecvOutcome::Message(m)
                    && m@ == t.log@[old(sub).cursor as int]) && final(sub).cursor == old(sub).cursor
                    + 1)
            }),
            r is Message ==> old(sub).cursor >= old(sub).joined@,
    {
        let t = &self.topics[sub.topic];
        let oldest = t.published - t.history.len();
        if sub.cursor < oldest {
            let missed = oldest - sub.cursor;
            sub.cursor = oldest;
            RecvOutcome::Lagged(missed)
        } else if sub.cursor >= t.published {
            RecvOutcome::Empty
        } else {
            let msg = t.history[sub.cursor - oldest].clone();
            sub.cursor = sub.cursor + 1;
            RecvOutcome::Message(msg)
        }
    }
}

} // verus!
