//! The per-connection subscription manager: the decision core of the
//! original selection loop. The transport outside runs the loop — it decodes
//! client frames, multiplexes the streams of subscribed topics, writes frames
//! back to the client — and consults these functions for every decision:
//! [`SubscriptionManager::handle_frame`] for each command, with the action
//! the transport must then carry out, and
//! [`SubscriptionManager::handle_topic_message`] for each message a
//! subscribed topic hands over, selected only while the client is ready for
//! one ([`ManagerView::waiting`]); a successful write is reported back
//! through [`SubscriptionManager::mark_delivered`].

use crate::protocol::{FrameView, ZaichikFrame};
use crate::topic_controller::{
    alive_at, cv_wf, msg_views, sorted_by_received, spec_prune_retained, ControllerView, Message,
    MessageView,
};
use crate::topic_registry::{
    lemma_create_finds, lemma_watermark_push, spec_create, spec_reg_lookup, spec_reg_publish,
    spec_watermark, TopicRegistry,
};
use vstd::prelude::*;

verus! {

/// A message already behind its expiry at `now`; such a message is dropped at
/// delivery rather than written.
pub open spec fn out_of_date_at(m: MessageView, now: u64) -> bool {
    match m.expires_at {
        None => false,
        Some(e) => now > e,
    }
}

/// One item for the selection loop: a command frame from the client, stamped
/// on arrival, or a message from a subscribed topic.
#[derive(Clone, Debug, PartialEq, Eq)]
pub enum MessageWrapper {
    Frame { frame: ZaichikFrame, received_at: u64 },
    TopicMessage { topic_name: String, message: Message },
}

/// The mathematical content of a [`MessageWrapper`].
pub enum WrapperView {
    Frame { frame: FrameView, received_at: u64 },
    TopicMessage { topic_name: Seq<char>, message: MessageView },
}

impl View for MessageWrapper {
    type V = WrapperView;

    open spec fn view(&self) -> WrapperView {
        match self {
            MessageWrapper::Frame { frame, received_at } => WrapperView::Frame {
                frame: frame@,
                received_at: *received_at,
            },
            MessageWrapper::TopicMessage { topic_name, message } => WrapperView::TopicMessage {
                topic_name: topic_name@,
                message: message@,
            },
        }
    }
}

impl MessageWrapper {
    /// Wraps a decoded client frame with the broker's stamp of its arrival.
    pub fn from_frame(frame: ZaichikFrame, received_at: u64) -> (w: MessageWrapper)
        ensures
            w@ == (WrapperView::Frame { frame: frame@, received_at }),
    {
        MessageWrapper::Frame { frame, received_at }
    }

    /// Wraps a message arriving from a subscribed topic.
    pub fn from_topic_message(topic_name: String, message: Message) -> (w: MessageWrapper)
        ensures
            w@ == (WrapperView::TopicMessage { topic_name: topic_name@, message: message@ }),
    {
        MessageWrapper::TopicMessage { topic_name, message }
    }
}

/// What the transport must do after a command is handled.
pub enum ManagerAction {
    /// Nothing; the command was absorbed.
    Done,
    /// Feed the subscriber from `replay`, then from a live receiver on the
    /// topic's fan-out channel registered in the same critical section.
    StartSubscription { topic: String, replay: Vec<Message> },
    /// Drop the topic's stream, replay remainder included.
    StopSubscription { topic: String },
    /// Send the message into the topic's live fan-out channel.
    Broadcast { topic: String, message: Message },
    /// Release the connection; the loop is over.
    CloseConnection,
}

/// The mathematical content of a [`ManagerAction`].
pub enum ActionView {
    Done,
    StartSubscription { topic: Seq<char>, replay: Seq<MessageView> },
    StopSubscription { topic: Seq<char> },
    Broadcast { topic: Seq<char>, message: MessageView },
    CloseConnection,
}

impl View for ManagerAction {
    type V = ActionView;

    open spec fn view(&self) -> ActionView {
        match self {
            ManagerAction::Done => ActionView::Done,
            ManagerAction::StartSubscription { topic, replay } => ActionView::StartSubscription {
                topic: topic@,
                replay: msg_views(replay@),
            },
            ManagerAction::StopSubscription { topic } => ActionView::StopSubscription {
                topic: topic@,
            },
            ManagerAction::Broadcast { topic, message } => ActionView::Broadcast {
                topic: topic@,
                message: message@,
            },
            ManagerAction::CloseConnection => ActionView::CloseConnection,
        }
    }
}

/// One connection's flow-control state: which topics it is subscribed to and
/// whether the client is ready for the next delivery.
pub struct SubscriptionManager {
    subscriptions: Vec<String>,
    waiting_for_next_message: bool,
}

/// The mathematical content of a [`SubscriptionManager`].
pub struct ManagerView {
    pub subscriptions: Seq<Seq<char>>,
    pub waiting: bool,
}

impl View for SubscriptionManager {
    type V = ManagerView;

    closed spec fn view(&self) -> ManagerView {
        ManagerView {
            subscriptions: self.subscriptions@.map_values(|s: String| s@),
            waiting: self.waiting_for_next_message,
        }
    }
}

/// The subscription list with the first occurrence of `name` removed.
pub open spec fn spec_remove_name(s: Seq<Seq<char>>, name: Seq<char>) -> Seq<Seq<char>>
    decreases s.len(),
{
    if s.len() == 0 {
        s
    } else if s[0] == name {
        s.drop_first()
    } else {
        seq![s[0]] + spec_remove_name(s.drop_first(), name)
    }
}

/// When `name` first stands at position `i`, removing it removes that entry.
proof fn lemma_remove_name_at(s: Seq<Seq<char>>, name: Seq<char>, i: int)
    requires
        0 <= i < s.len(),
        s[i] == name,
        forall|j: int| 0 <= j < i ==> s[j] != name,
    ensures
        spec_remove_name(s, name) == s.remove(i),
    decreases i,
{
    if i == 0 {
        assert(spec_remove_name(s, name) =~= s.remove(0));
    } else {
        lemma_remove_name_at(s.drop_first(), name, i - 1);
        assert(seq![s[0]] + s.drop_first().remove(i - 1) =~= s.remove(i));
    }
}

/// Removing a name that stands nowhere changes nothing.
proof fn lemma_remove_name_absent(s: Seq<Seq<char>>, name: Seq<char>)
    requires
        forall|j: int| 0 <= j < s.len() ==> s[j] != name,
    ensures
        spec_remove_name(s, name) == s,
    decreases s.len(),
{
    if s.len() > 0 {
        lemma_remove_name_absent(s.drop_first(), name);
        assert(seq![s[0]] + s.drop_first() =~= s);
    }
}

/// What handling one command frame does to the manager's own state: the first
/// subscription makes the client ready; dropping the last one clears the
/// readiness; a commit makes it ready again, idempotently.
pub open spec fn spec_mgr_after_frame(m: ManagerView, f: FrameView) -> ManagerView {
    match f {
        FrameView::Subscribe { topic } => ManagerView {
            subscriptions: if m.subscriptions.contains(topic) {
                m.subscriptions
            } else {
                m.subscriptions.push(topic)
            },
            waiting: if m.subscriptions.len() == 0 {
                true
            } else {
                m.waiting
            },
        },
        FrameView::Unsubscribe { topic } => {
            let subs = spec_remove_name(m.subscriptions, topic);
            ManagerView {
                subscriptions: subs,
                waiting: if subs.len() == 0 {
                    false
                } else {
                    m.waiting
                },
            }
        },
        FrameView::Commit => ManagerView { subscriptions: m.subscriptions, waiting: true },
        _ => m,
    }
}

/// One command frame against the registry and this connection: the registry
/// afterwards, the manager afterwards, and the action the transport must
/// carry out. A publish or a subscription under an unknown name first creates
/// the topic with default (disabled) settings.
pub open spec fn spec_handle_frame(
    reg: Seq<ControllerView>,
    m: ManagerView,
    f: FrameView,
    now: u64,
) -> (Seq<ControllerView>, ManagerView, ActionView) {
    match f {
        FrameView::CreateTopic { topic, retention_ttl, compaction_window } => (
            spec_create(reg, topic, retention_ttl, compaction_window),
            m,
            ActionView::Done,
        ),
        FrameView::Subscribe { topic } => {
            let reg2 = spec_create(reg, topic, 0, 0);
            let replay = match spec_reg_lookup(reg2, topic) {
                Some(c) => c.retained,
                None => Seq::empty(),
            };
            (reg2, spec_mgr_after_frame(m, f), ActionView::StartSubscription { topic, replay })
        },
        FrameView::Unsubscribe { topic } => (
            reg,
            spec_mgr_after_frame(m, f),
            ActionView::StopSubscription { topic },
        ),
        FrameView::Publish { topic, key, payload } => {
            let reg2 = spec_create(reg, topic, 0, 0);
            let outcome = spec_reg_publish(reg2, topic, key, payload, now);
            (
                outcome.0,
                m,
                match outcome.1 {
                    Some(mv) => ActionView::Broadcast { topic, message: mv },
                    None => ActionView::Done,
                },
            )
        },
        FrameView::Commit => (reg, spec_mgr_after_frame(m, f), ActionView::Done),
        FrameView::CloseConnection => (reg, m, ActionView::CloseConnection),
    }
}

/// The frame a deliverable topic message turns into, or nothing for one
/// already behind its expiry.
pub open spec fn spec_deliver_frame(topic: Seq<char>, m: MessageView, now: u64) -> Option<
    FrameView,
> {
    if out_of_date_at(m, now) {
        None
    } else {
        Some(FrameView::Publish { topic, key: m.key, payload: m.payload })
    }
}

impl SubscriptionManager {
    /// No topic is subscribed twice.
    pub open spec fn wf(self) -> bool {
        forall|i: int, j: int|
            0 <= i < j < self@.subscriptions.len() ==> self@.subscriptions[i]
                != self@.subscriptions[j]
    }

    /// A fresh connection: no subscriptions, not ready for a delivery.
    pub fn new() -> (m: SubscriptionManager)
        ensures
            m.wf(),
            m@.subscriptions == Seq::<Seq<char>>::empty(),
            !m@.waiting,
    {
        let m = SubscriptionManager { subscriptions: Vec::new(), waiting_for_next_message: false };
        proof {
            assert(m@.subscriptions =~= Seq::<Seq<char>>::empty());
        }
        m
    }

    /// Whether the client is ready to be written the next delivery.
    pub fn is_waiting_for_next_message(&self) -> (r: bool)
        ensures
            r == self@.waiting,
    {
        self.waiting_for_next_message
    }

    /// How many topics this connection is subscribed to.
    pub fn subscription_count(&self) -> (r: usize)
        ensures
            r == self@.subscriptions.len(),
    {
        self.subscriptions.len()
    }

    /// Whether this connection is subscribed to `topic`.
    pub fn is_subscribed(&self, topic: &String) -> (r: bool)
        ensures
            r == self@.subscriptions.contains(topic@),
    {
        let n = self.subscriptions.len();
        let mut i: usize = 0;
        while i < n
            invariant
                0 <= i <= n,
                n == self.subscriptions.len(),
                forall|j: int| 0 <= j < i ==> self@.subscriptions[j] != topic@,
            decreases n - i,
        {
            if self.subscriptions[i] == *topic {
                proof {
                    assert(self@.subscriptions[i as int] == topic@);
                }
                return true;
            }
            i = i + 1;
        }
        proof {
            assert(!self@.subscriptions.contains(topic@));
        }
        false
    }

    /// A message already behind its expiry at `now` is out of date.
    pub fn message_is_out_of_date(message: &Message, now: u64) -> (r: bool)
        ensures
            r == out_of_date_at(message@, now),
    {
        match message.expires_at {
            None => false,
            Some(expires_at) => now > expires_at,
        }
    }

    /// The transport wrote a delivery to the client: the next topic message
    /// must wait for the client's commit.
    pub fn mark_delivered(&mut self)
        ensures
            final(self)@.subscriptions == old(self)@.subscriptions,
            !final(self)@.waiting,
            old(self).wf() ==> final(self).wf(),
    {
        self.waiting_for_next_message = false;
    }

    /// The delivery decision for one message from a subscribed topic. The
    /// selection loop consults it only while the client is ready
    /// ([`ManagerView::waiting`]): an out-of-date message is dropped silently
    /// and the client stays ready; otherwise the returned frame is written to
    /// the client, and a successful write is reported through
    /// [`SubscriptionManager::mark_delivered`].
    pub fn handle_topic_message(&self, topic_name: String, message: Message, now: u64) -> (frame:
        Option<ZaichikFrame>)
        ensures
            match frame {
                Some(f) => spec_deliver_frame(topic_name@, message@, now) == Some(f@),
                None => spec_deliver_frame(topic_name@, message@, now) is None,
            },
    {
        if !Self::message_is_out_of_date(&message, now) {
            Some(
                ZaichikFrame::Publish {
                    topic: topic_name,
                    key: message.key,
                    payload: message.payload,
                },
            )
        } else {
            None
        }
    }

    /// Adds `topic` to the subscription list unless it is already there.
    fn add_subscription(&mut self, topic: String)
        requires
            old(self).wf(),
        ensures
            final(self).wf(),
            final(self)@.subscriptions == (if old(self)@.subscriptions.contains(topic@) {
                old(self)@.subscriptions
            } else {
                old(self)@.subscriptions.push(topic@)
            }),
            final(self)@.waiting == old(self)@.waiting,
    {
        let n = self.subscriptions.len();
        let mut i: usize = 0;
        while i < n
            invariant
                0 <= i <= n,
                n == self.subscriptions.len(),
                self.subscriptions@ == old(self).subscriptions@,
                self.waiting_for_next_message == old(self).waiting_for_next_message,
                old(self).wf(),
                forall|j: int| 0 <= j < i ==> old(self)@.subscriptions[j] != topic@,
            decreases n - i,
        {
            if self.subscriptions[i] == topic {
                proof {
                    assert(old(self)@.subscriptions[i as int] == topic@);
                    assert(old(self)@.subscriptions.contains(topic@));
                }
                return ;
            }
            i = i + 1;
        }
        proof {
            assert(!old(self)@.subscriptions.contains(topic@));
        }
        self.subscriptions.push(topic);
        proof {
            assert(self@.subscriptions =~= old(self)@.subscriptions.push(topic@));
        }
    }

    /// Removes the subscription under `topic`, if any.
    fn remove_subscription(&mut self, topic: &String)
        requires
            old(self).wf(),
        ensures
            final(self).wf(),
            final(self)@.subscriptions == spec_remove_name(old(self)@.subscriptions, topic@),
            final(self)@.waiting == old(self)@.waiting,
    {
        let n = self.subscriptions.len();
        let mut i: usize = 0;
        while i < n
            invariant
                0 <= i <= n,
                n == self.subscriptions.len(),
                self.subscriptions@ == old(self).subscriptions@,
                self.waiting_for_next_message == old(self).waiting_for_next_message,
                old(self).wf(),
                forall|j: int| 0 <= j < i ==> old(self)@.subscriptions[j] != topic@,
            decreases n - i,
        {
            if self.subscriptions[i] == *topic {
                proof {
                    assert(old(self)@.subscriptions[i as int] == topic@);
                    lemma_remove_name_at(old(self)@.subscriptions, topic@, i as int);
                }
                self.subscriptions.remove(i);
                proof {
                    assert(self@.subscriptions =~= old(self)@.subscriptions.remove(i as int));
                }
                return ;
            }
            i = i + 1;
        }
        proof {
            lemma_remove_name_absent(old(self)@.subscriptions, topic@);
        }
    }

    /// Handles one decoded command frame, stamped `received_at` by the broker
    /// at this moment. The registry and this connection's state move exactly
    /// as [`spec_handle_frame`] says, and the returned action is what the
    /// transport must now carry out, in the same critical section where the
    /// topic state moved.
    pub fn handle_frame(
        &mut self,
        registry: &mut TopicRegistry,
        frame: ZaichikFrame,
        received_at: u64,
    ) -> (action: ManagerAction)
        requires
            old(self).wf(),
            old(registry).wf(),
            received_at >= spec_watermark(old(registry)@),
        ensures
            final(self).wf(),
            final(registry).wf(),
            ({
                let step = spec_handle_frame(old(registry)@, old(self)@, frame@, received_at);
                &&& final(registry)@ == step.0
                &&& final(self)@ == step.1
                &&& action@ == step.2
            }),
    {
        match frame {
            ZaichikFrame::CreateTopic { topic, retention_ttl, compaction_window } => {
                registry.create_topic(topic, retention_ttl, compaction_window);
                ManagerAction::Done
            },
            ZaichikFrame::Subscribe { topic } => {
                // the first subscription makes the client ready
                if self.subscriptions.is_empty() {
                    self.waiting_for_next_message = true;
                }
                registry.create_topic(topic.clone(), 0, 0);
                proof {
                    lemma_create_finds(old(registry)@, topic@, 0, 0);
                }
                let replay = match registry.get_topic(&topic) {
                    Some(ctrl) => ctrl.subscribe(),
                    None => {
                        // the topic was just created, so the lookup finds it
                        proof {
                            assert(false);
                        }
                        Vec::new()
                    },
                };
                self.add_subscription(topic.clone());
                ManagerAction::StartSubscription { topic, replay }
            },
            ZaichikFrame::Unsubscribe { topic } => {
                self.remove_subscription(&topic);
                // dropping the last subscription clears the readiness
                if self.subscriptions.is_empty() {
                    self.waiting_for_next_message = false;
                }
                ManagerAction::StopSubscription { topic }
            },
            ZaichikFrame::Publish { topic, key, payload } => {
                registry.create_topic(topic.clone(), 0, 0);
                proof {
                    if spec_reg_lookup(old(registry)@, topic@) is None {
                        lemma_watermark_push(
                            old(registry)@,
                            crate::topic_registry::spec_fresh_topic(topic@, 0, 0),
                        );
                    }
                }
                let forwarded = registry.publish(&topic, key, payload, received_at);
                match forwarded {
                    Some(message) => ManagerAction::Broadcast { topic, message },
                    None => ManagerAction::Done,
                }
            },
            ZaichikFrame::Commit => {
                // the client handled the previous delivery and is ready again
                self.waiting_for_next_message = true;
                ManagerAction::Done
            },
            ZaichikFrame::CloseConnection => ManagerAction::CloseConnection,
        }
    }
}

/// One event as the selection loop sees it: a command frame from the client,
/// or a message from a subscribed topic at the instant its delivery is
/// decided, together with the write outcome the transport reported.
pub enum EventView {
    Command { frame: FrameView },
    TopicMessage { message: MessageView, now: u64, write_ok: bool },
}

/// Whether the event writes a `Publish` frame to the client: the client is
/// ready, the message is not out of date, and the write succeeded.
pub open spec fn spec_delivers(m: ManagerView, e: EventView) -> bool {
    match e {
        EventView::Command { .. } => false,
        EventView::TopicMessage { message, now, write_ok } => m.waiting && !out_of_date_at(
            message,
            now,
        ) && write_ok,
    }
}

/// The manager's flow-control state after one event. A topic message is
/// selected only while the client is ready; one that is written consumes the
/// readiness, one out of date or failing to write leaves it standing.
pub open spec fn spec_step(m: ManagerView, e: EventView) -> ManagerView {
    match e {
        EventView::Command { frame } => spec_mgr_after_frame(m, frame),
        EventView::TopicMessage { .. } => if spec_delivers(m, e) {
            ManagerView { subscriptions: m.subscriptions, waiting: false }
        } else {
            m
        },
    }
}

/// The manager's state after the first `k` events.
pub open spec fn spec_run(m: ManagerView, events: Seq<EventView>, k: int) -> ManagerView
    decreases k,
{
    if k <= 0 {
        m
    } else {
        spec_step(spec_run(m, events, k - 1), events[k - 1])
    }
}

/// A subscription arriving while no topic is subscribed: it makes the client
/// ready without a commit.
pub open spec fn subscribe_from_empty(m: ManagerView, e: EventView) -> bool {
    e matches EventView::Command { frame: FrameView::Subscribe { .. } } && m.subscriptions.len()
        == 0
}

/// The client's commit.
pub open spec fn is_commit(e: EventView) -> bool {
    e matches EventView::Command { frame: FrameView::Commit }
}

/// While no commit and no first subscription arrives, a client that is not
/// ready stays not ready: no other event sets the flag.
proof fn lemma_stays_unready(m0: ManagerView, events: Seq<EventView>, a: int, b: int)
    requires
        0 <= a <= b <= events.len(),
        !spec_run(m0, events, a).waiting,
        forall|k: int| a <= k < b ==> !is_commit(#[trigger] events[k]),
        forall|k: int|
            a <= k < b ==> !subscribe_from_empty(spec_run(m0, events, k), #[trigger] events[k]),
    ensures
        !spec_run(m0, events, b).waiting,
    decreases b - a,
{
    if b > a {
        lemma_stays_unready(m0, events, a, b - 1);
        let m = spec_run(m0, events, b - 1);
        match events[b - 1] {
            EventView::Command { frame } => {
                match frame {
                    FrameView::Subscribe { .. } => {
                        assert(m.subscriptions.len() != 0);
                    },
                    _ => {},
                }
            },
            EventView::TopicMessage { .. } => {},
        }
    }
}

/// At most one in flight: between any two frames written to one client, a
/// commit must arrive from that client. The one other way to become ready
/// again — emptying the subscription set and subscribing afresh — is ruled
/// out by the premise, and named here because it exists.
pub proof fn lemma_at_most_one_in_flight(m0: ManagerView, events: Seq<EventView>, i: int, j: int)
    requires
        0 <= i < j < events.len(),
        spec_delivers(spec_run(m0, events, i), events[i]),
        spec_delivers(spec_run(m0, events, j), events[j]),
        forall|k: int|
            i < k < j ==> !subscribe_from_empty(spec_run(m0, events, k), #[trigger] events[k]),
    ensures
        exists|k: int| i < k < j && #[trigger] is_commit(events[k]),
{
    if !(exists|k: int| i < k < j && #[trigger] is_commit(events[k])) {
        assert(spec_run(m0, events, i + 1) == spec_step(spec_run(m0, events, i), events[i]));
        assert(!spec_run(m0, events, i + 1).waiting);
        assert forall|k: int| i + 1 <= k < j implies !is_commit(#[trigger] events[k]) by {
            if is_commit(events[k]) {
                assert(i < k < j && is_commit(events[k]));
            }
        }
        lemma_stays_unready(m0, events, i + 1, j);
        assert(!spec_delivers(spec_run(m0, events, j), events[j]));
    }
}

/// The messages of a replay snapshot that delivery at instant `now`
/// lets through, in their stored order.
pub open spec fn spec_delivered(s: Seq<MessageView>, now: u64) -> Seq<MessageView>
    decreases s.len(),
{
    if s.len() == 0 {
        s
    } else {
        let rest = spec_delivered(s.drop_first(), now);
        if !out_of_date_at(s[0], now) {
            seq![s[0]] + rest
        } else {
            rest
        }
    }
}

/// On messages that do not expire exactly at `now`, the delivery check and the
/// retention prune agree.
proof fn lemma_delivered_is_pruned(s: Seq<MessageView>, now: u64)
    requires
        forall|i: int| 0 <= i < s.len() ==> (#[trigger] s[i]).expires_at != Some(now),
    ensures
        spec_delivered(s, now) == spec_prune_retained(s, now),
    decreases s.len(),
{
    if s.len() > 0 {
        assert(forall|i: int|
            0 <= i < s.drop_first().len() ==> (#[trigger] s.drop_first()[i]).expires_at != Some(
                now,
            ));
        lemma_delivered_is_pruned(s.drop_first(), now);
        assert(!out_of_date_at(s[0], now) == alive_at(s[0], now));
    }
}

/// Retention horizon: a subscriber at instant `t` receives, of the retained
/// buffer its snapshot replays, exactly the messages whose expiry lies beyond
/// `t`, in their stored order; its live receiver then follows with the later
/// publishes. A message expiring exactly at `t` is left aside: delivery
/// still writes it, so the premise excludes that boundary.
pub proof fn lemma_retention_horizon(c: ControllerView, t: u64)
    requires
        cv_wf(c),
        forall|i: int|
            0 <= i < c.retained.len() ==> (#[trigger] c.retained[i]).expires_at != Some(t),
    ensures
        spec_delivered(c.retained, t) == spec_prune_retained(c.retained, t),
        sorted_by_received(spec_delivered(c.retained, t)),
        forall|j: int|
            0 <= j < spec_delivered(c.retained, t).len() ==> alive_at(
                #[trigger] spec_delivered(c.retained, t)[j],
                t,
            ),
        forall|i: int|
            0 <= i < c.retained.len() && alive_at(#[trigger] c.retained[i], t) ==> spec_delivered(
                c.retained,
                t,
            ).contains(c.retained[i]),
{
    lemma_delivered_is_pruned(c.retained, t);
    crate::topic_controller::lemma_prune_retained_props(c.retained, t);
}

/// Expiry at delivery: a message whose expiry already lies behind `now` when
/// its delivery event is selected is not written to the client. At the exact
/// expiry instant the message is still written; here `now` lies strictly
/// past the expiry.
pub proof fn lemma_expiry_at_delivery(topic: Seq<char>, m: MessageView, now: u64)
    requires
        m.expires_at matches Some(e) && e < now,
    ensures
        spec_deliver_frame(topic, m, now) is None,
{
}

} // verus!
