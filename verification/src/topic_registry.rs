//! The topic registry: the broker's shared naming of topics. Entries are
//! created on first reference — a creation under a name that already exists
//! is a no-op, so the first creation's settings stand for the topic's
//! lifetime — and never removed.

use crate::topic_controller::{
    cv_wf, spec_publish, spec_settings, ControllerView, Message, MessageView, TopicController,
};
use vstd::prelude::*;

verus! {

/// Capacity handed to every topic's live fan-out channel at creation.
pub const TOPIC_BUFFER_SIZE: u32 = 10000;

/// The registry: every topic the broker knows, in creation order.
#[derive(Debug)]
pub struct TopicRegistry {
    pub topics: Vec<TopicController>,
}

impl View for TopicRegistry {
    type V = Seq<ControllerView>;

    open spec fn view(&self) -> Seq<ControllerView> {
        self.topics@.map_values(|c: TopicController| c@)
    }
}

/// The registry's internal invariant: names are unique and every topic
/// satisfies its own invariant.
pub open spec fn rv_wf(s: Seq<ControllerView>) -> bool {
    &&& forall|i: int, j: int| 0 <= i < j < s.len() ==> s[i].name != s[j].name
    &&& forall|i: int| 0 <= i < s.len() ==> cv_wf(#[trigger] s[i])
}

/// The topic registered under `name`, scanning in creation order.
pub open spec fn spec_reg_lookup(s: Seq<ControllerView>, name: Seq<char>) -> Option<ControllerView>
    decreases s.len(),
{
    if s.len() == 0 {
        None
    } else if s[0].name == name {
        Some(s[0])
    } else {
        spec_reg_lookup(s.drop_first(), name)
    }
}

/// A fresh topic as creation registers it.
pub open spec fn spec_fresh_topic(
    name: Seq<char>,
    retention_ttl: u64,
    compaction_window: u64,
) -> ControllerView {
    ControllerView {
        name,
        settings: spec_settings(retention_ttl, compaction_window, TOPIC_BUFFER_SIZE as usize),
        compaction: Seq::empty(),
        retained: Seq::empty(),
        last_instant: 0,
    }
}

/// What a creation does: nothing when the name exists, else append a fresh
/// topic with the given settings.
pub open spec fn spec_create(
    s: Seq<ControllerView>,
    name: Seq<char>,
    retention_ttl: u64,
    compaction_window: u64,
) -> Seq<ControllerView> {
    if spec_reg_lookup(s, name) is Some {
        s
    } else {
        s.push(spec_fresh_topic(name, retention_ttl, compaction_window))
    }
}

/// What a publish into the registry does: the named topic, if any, takes the
/// publish; the second component is what enters that topic's live fan-out.
pub open spec fn spec_reg_publish(
    s: Seq<ControllerView>,
    name: Seq<char>,
    key: Option<Seq<char>>,
    payload: Seq<u8>,
    now: u64,
) -> (Seq<ControllerView>, Option<MessageView>)
    decreases s.len(),
{
    if s.len() == 0 {
        (s, None)
    } else if s[0].name == name {
        let (c2, fwd) = spec_publish(s[0], key, payload, now);
        (seq![c2] + s.drop_first(), fwd)
    } else {
        let (rest, fwd) = spec_reg_publish(s.drop_first(), name, key, payload, now);
        (seq![s[0]] + rest, fwd)
    }
}

/// The newest instant any topic has handled.
pub open spec fn spec_watermark(s: Seq<ControllerView>) -> u64
    decreases s.len(),
{
    if s.len() == 0 {
        0
    } else {
        let rest = spec_watermark(s.drop_first());
        if s[0].last_instant >= rest {
            s[0].last_instant
        } else {
            rest
        }
    }
}

/// No topic is newer than the registry's watermark.
proof fn lemma_watermark_bound(s: Seq<ControllerView>, i: int)
    requires
        0 <= i < s.len(),
    ensures
        s[i].last_instant <= spec_watermark(s),
    decreases s.len(),
{
    if i > 0 {
        lemma_watermark_bound(s.drop_first(), i - 1);
        assert(s.drop_first()[i - 1] == s[i]);
    }
}

/// Scanning past a prefix of other names does not change what a lookup finds.
proof fn lemma_reg_lookup_skip(s: Seq<ControllerView>, name: Seq<char>, i: int)
    requires
        0 <= i <= s.len(),
        forall|j: int| 0 <= j < i ==> (#[trigger] s[j]).name != name,
    ensures
        spec_reg_lookup(s, name) == spec_reg_lookup(s.skip(i), name),
    decreases i,
{
    if i == 0 {
        assert(s.skip(0) =~= s);
    } else {
        assert(s.drop_first().skip(i - 1) =~= s.skip(i));
        lemma_reg_lookup_skip(s.drop_first(), name, i - 1);
    }
}

/// A lookup that scanned every name without a match finds nothing.
proof fn lemma_reg_lookup_absent(s: Seq<ControllerView>, name: Seq<char>)
    requires
        forall|j: int| 0 <= j < s.len() ==> (#[trigger] s[j]).name != name,
    ensures
        spec_reg_lookup(s, name) == None::<ControllerView>,
{
    lemma_reg_lookup_skip(s, name, s.len() as int);
}

/// When `name` first stands at position `i`, the lookup finds that topic.
proof fn lemma_reg_lookup_at(s: Seq<ControllerView>, name: Seq<char>, i: int)
    requires
        0 <= i < s.len(),
        s[i].name == name,
        forall|j: int| 0 <= j < i ==> (#[trigger] s[j]).name != name,
    ensures
        spec_reg_lookup(s, name) == Some(s[i]),
{
    lemma_reg_lookup_skip(s, name, i);
    assert(s.skip(i)[0] == s[i]);
}

/// Looking a name up after an append finds the old entry, or the appended one
/// where the name was new.
proof fn lemma_reg_lookup_push(s: Seq<ControllerView>, c: ControllerView, name: Seq<char>)
    ensures
        spec_reg_lookup(s.push(c), name) == (match spec_reg_lookup(s, name) {
            Some(found) => Some(found),
            None => if c.name == name {
                Some(c)
            } else {
                None::<ControllerView>
            },
        }),
    decreases s.len(),
{
    if s.len() == 0 {
        assert(s.push(c).drop_first() =~= Seq::<ControllerView>::empty());
    } else {
        assert(s.push(c).drop_first() =~= s.drop_first().push(c));
        lemma_reg_lookup_push(s.drop_first(), c, name);
    }
}

/// A creation leaves the name registered: with what already stood there, or
/// with the fresh topic when the name was new.
pub proof fn lemma_create_finds(
    s: Seq<ControllerView>,
    name: Seq<char>,
    retention_ttl: u64,
    compaction_window: u64,
)
    ensures
        spec_reg_lookup(spec_create(s, name, retention_ttl, compaction_window), name) == (
        match spec_reg_lookup(s, name) {
            Some(c) => Some(c),
            None => Some(spec_fresh_topic(name, retention_ttl, compaction_window)),
        }),
{
    match spec_reg_lookup(s, name) {
        Some(_) => {},
        None => {
            lemma_reg_lookup_push(
                s,
                spec_fresh_topic(name, retention_ttl, compaction_window),
                name,
            );
        },
    }
}

/// Appending a topic moves the watermark to the newer of the two.
pub proof fn lemma_watermark_push(s: Seq<ControllerView>, c: ControllerView)
    ensures
        spec_watermark(s.push(c)) == (if spec_watermark(s) >= c.last_instant {
            spec_watermark(s)
        } else {
            c.last_instant
        }),
    decreases s.len(),
{
    if s.len() == 0 {
        assert(s.push(c)[0] == c);
        assert(s.push(c).drop_first() =~= Seq::<ControllerView>::empty());
        assert(spec_watermark(Seq::<ControllerView>::empty()) == 0);
        assert(spec_watermark(s) == 0);
    } else {
        assert(s.push(c).drop_first() =~= s.drop_first().push(c));
        lemma_watermark_push(s.drop_first(), c);
        assert(s.push(c)[0] == s[0]);
        assert(spec_watermark(s.push(c).drop_first()) == spec_watermark(s.drop_first().push(c)));
    }
}

/// When `name` first stands at position `i`, a publish into the registry is a
/// publish into that topic, in place.
proof fn lemma_reg_publish_at(
    s: Seq<ControllerView>,
    name: Seq<char>,
    key: Option<Seq<char>>,
    payload: Seq<u8>,
    now: u64,
    i: int,
)
    requires
        0 <= i < s.len(),
        s[i].name == name,
        forall|j: int| 0 <= j < i ==> (#[trigger] s[j]).name != name,
    ensures
        spec_reg_publish(s, name, key, payload, now) == (
            s.update(i, spec_publish(s[i], key, payload, now).0),
            spec_publish(s[i], key, payload, now).1,
        ),
    decreases i,
{
    if i == 0 {
        assert(seq![spec_publish(s[0], key, payload, now).0] + s.drop_first() =~= s.update(
            0,
            spec_publish(s[0], key, payload, now).0,
        ));
    } else {
        lemma_reg_publish_at(s.drop_first(), name, key, payload, now, i - 1);
        assert(seq![s[0]] + s.drop_first().update(i - 1, spec_publish(s[i], key, payload, now).0)
            =~= s.update(i, spec_publish(s[i], key, payload, now).0));
    }
}

/// A publish under a name the registry does not know changes nothing and
/// forwards nothing.
proof fn lemma_reg_publish_absent(
    s: Seq<ControllerView>,
    name: Seq<char>,
    key: Option<Seq<char>>,
    payload: Seq<u8>,
    now: u64,
)
    requires
        forall|j: int| 0 <= j < s.len() ==> (#[trigger] s[j]).name != name,
    ensures
        spec_reg_publish(s, name, key, payload, now) == (s, None::<MessageView>),
    decreases s.len(),
{
    if s.len() > 0 {
        lemma_reg_publish_absent(s.drop_first(), name, key, payload, now);
        assert(seq![s[0]] + s.drop_first() =~= s);
    }
}

impl TopicRegistry {
    /// The registry's internal invariant; see [`rv_wf`].
    pub open spec fn wf(self) -> bool {
        rv_wf(self@)
    }

    /// An empty registry.
    pub fn new() -> (r: TopicRegistry)
        ensures
            r.wf(),
            r@ == Seq::<ControllerView>::empty(),
    {
        let r = TopicRegistry { topics: Vec::new() };
        proof {
            assert(r@ =~= Seq::<ControllerView>::empty());
        }
        r
    }

    /// The newest instant any topic has handled; publishes must carry a stamp
    /// at least this new.
    pub fn watermark(&self) -> (r: u64)
        ensures
            r == spec_watermark(self@),
    {
        let n = self.topics.len();
        let mut acc: u64 = 0;
        let mut i: usize = 0;
        proof {
            assert(self@.skip(0) =~= self@);
        }
        while i < n
            invariant
                0 <= i <= n,
                n == self.topics.len(),
                spec_watermark(self@) == (if acc >= spec_watermark(self@.skip(i as int)) {
                    acc
                } else {
                    spec_watermark(self@.skip(i as int))
                }),
            decreases n - i,
        {
            proof {
                assert(self@.skip(i as int)[0] == self@[i as int]);
                assert(self@.skip(i as int).drop_first() =~= self@.skip(i as int + 1));
            }
            let t = self.topics[i].last_instant;
            if t > acc {
                acc = t;
            }
            i = i + 1;
        }
        proof {
            assert(self@.skip(n as int) =~= Seq::<ControllerView>::empty());
        }
        acc
    }

    /// Registers a topic under `topic` with the given raw settings (zero
    /// disables a policy). When the name already exists the call is a no-op:
    /// the first creation wins, protecting subscribers from surprise setting
    /// changes.
    pub fn create_topic(&mut self, topic: String, retention_ttl: u64, compaction_window: u64)
        requires
            old(self).wf(),
        ensures
            final(self).wf(),
            final(self)@ == spec_create(old(self)@, topic@, retention_ttl, compaction_window),
    {
        let n = self.topics.len();
        let mut i: usize = 0;
        while i < n
            invariant
                0 <= i <= n,
                n == self.topics.len(),
                self.topics@ == old(self).topics@,
                old(self).wf(),
                forall|j: int| 0 <= j < i ==> (#[trigger] old(self)@[j]).name != topic@,
            decreases n - i,
        {
            if self.topics[i].name == topic {
                proof {
                    lemma_reg_lookup_at(old(self)@, topic@, i as int);
                }
                return ;
            }
            i = i + 1;
        }
        proof {
            lemma_reg_lookup_absent(old(self)@, topic@);
        }
        let fresh = TopicController::new(topic, retention_ttl, compaction_window,
            TOPIC_BUFFER_SIZE);
        proof {
            assert(fresh@ == spec_fresh_topic(topic@, retention_ttl, compaction_window));
        }
        self.topics.push(fresh);
        proof {
            assert(self@ =~= old(self)@.push(spec_fresh_topic(topic@, retention_ttl,
            compaction_window)));
        }
    }

    /// The topic registered under `topic`, if any.
    pub fn get_topic(&self, topic: &String) -> (r: Option<&TopicController>)
        ensures
            match r {
                Some(c) => spec_reg_lookup(self@, topic@) == Some(c@),
                None => spec_reg_lookup(self@, topic@) is None,
            },
    {
        let n = self.topics.len();
        let mut i: usize = 0;
        while i < n
            invariant
                0 <= i <= n,
                n == self.topics.len(),
                forall|j: int| 0 <= j < i ==> (#[trigger] self@[j]).name != topic@,
            decreases n - i,
        {
            if self.topics[i].name == *topic {
                proof {
                    lemma_reg_lookup_at(self@, topic@, i as int);
                }
                return Some(vstd::slice::slice_index_get(self.topics.as_slice(), i));
            }
            i = i + 1;
        }
        proof {
            lemma_reg_lookup_absent(self@, topic@);
        }
        None
    }

    /// Publishes into the topic registered under `topic`: that topic decides
    /// duplicate suppression and retention and the call returns what enters
    /// its live fan-out. Under a name the registry does not know, nothing
    /// changes and nothing is forwarded.
    pub fn publish(
        &mut self,
        topic: &String,
        key: Option<String>,
        payload: Vec<u8>,
        received_at: u64,
    ) -> (forwarded: Option<Message>)
        requires
            old(self).wf(),
            received_at >= spec_watermark(old(self)@),
        ensures
            final(self).wf(),
            final(self)@ == spec_reg_publish(
                old(self)@,
                topic@,
                key.deep_view(),
                payload@,
                received_at,
            ).0,
            match (forwarded, spec_reg_publish(
                old(self)@,
                topic@,
                key.deep_view(),
                payload@,
                received_at,
            ).1) {
                (Some(m), Some(mv)) => m@ == mv,
                (None, None) => true,
                _ => false,
            },
    {
        let n = self.topics.len();
        let mut i: usize = 0;
        while i < n
            invariant
                0 <= i <= n,
                n == self.topics.len(),
                self.topics@ == old(self).topics@,
                old(self).wf(),
                received_at >= spec_watermark(old(self)@),
                forall|j: int| 0 <= j < i ==> (#[trigger] old(self)@[j]).name != topic@,
            decreases n - i,
        {
            if self.topics[i].name == *topic {
                proof {
                    lemma_reg_lookup_at(old(self)@, topic@, i as int);
                    lemma_reg_publish_at(
                        old(self)@,
                        topic@,
                        key.deep_view(),
                        payload@,
                        received_at,
                        i as int,
                    );
                    lemma_watermark_bound(old(self)@, i as int);
                    assert(cv_wf(old(self)@[i as int]));
                }
                let mut ctrl = self.topics.remove(i);
                let forwarded = ctrl.publish(key, payload, received_at);
                self.topics.insert(i, ctrl);
                proof {
                    assert(self@ =~= old(self)@.update(
                        i as int,
                        spec_publish(
                            old(self)@[i as int],
                            key.deep_view(),
                            payload@,
                            received_at,
                        ).0,
                    ));
                    assert forall|a: int, b: int| 0 <= a < b < self@.len() implies self@[a].name
                        != self@[b].name by {
                        assert(old(self)@[a].name == self@[a].name);
                        assert(old(self)@[b].name == self@[b].name);
                    }
                }
                return forwarded;
            }
            i = i + 1;
        }
        proof {
            lemma_reg_publish_absent(old(self)@, topic@, key.deep_view(), payload@, received_at);
        }
        None
    }
}

/// Idempotent creation: a repeated creation under one name is a no-op, so the
/// topic keeps the settings of its first creation; and the first creation
/// under a new name registers it with exactly the settings it asked for.
pub proof fn lemma_idempotent_creation(
    s: Seq<ControllerView>,
    name: Seq<char>,
    ttl1: u64,
    cw1: u64,
    ttl2: u64,
    cw2: u64,
)
    ensures
        ({
            let s1 = spec_create(s, name, ttl1, cw1);
            &&& spec_create(s1, name, ttl2, cw2) == s1
            &&& (spec_reg_lookup(s, name) is None ==> spec_reg_lookup(s1, name) == Some(
                spec_fresh_topic(name, ttl1, cw1),
            ))
        }),
{
    lemma_create_finds(s, name, ttl1, cw1);
}

} // verus!
