//! The seed end-to-end scenarios, driven against the broker's decision core:
//! the tests play the transport — they feed decoded frames in, carry the
//! returned actions out by hand (a broadcast message goes to every
//! subscriber's stream), and write nothing anywhere, so what the manager
//! decides is exactly what a client would see.

use zaichik::protocol::ZaichikFrame;
use zaichik::subscription_manager::{ManagerAction, MessageWrapper, SubscriptionManager};
use zaichik::topic_controller::Message;
use zaichik::topic_registry::TopicRegistry;

fn subscribe(
    mgr: &mut SubscriptionManager,
    reg: &mut TopicRegistry,
    topic: &str,
    now: u64,
) -> Vec<Message> {
    let now = now.max(reg.watermark());
    match mgr.handle_frame(reg, ZaichikFrame::Subscribe { topic: topic.to_string() }, now) {
        ManagerAction::StartSubscription { topic: t, replay } => {
            assert_eq!(t, topic);
            replay
        }
        other => panic!("expected a subscription start, got {:?}", action_name(&other)),
    }
}

fn publish(
    mgr: &mut SubscriptionManager,
    reg: &mut TopicRegistry,
    topic: &str,
    key: Option<&str>,
    payload: &[u8],
    now: u64,
) -> Option<Message> {
    let now = now.max(reg.watermark());
    let frame = ZaichikFrame::Publish {
        topic: topic.to_string(),
        key: key.map(|k| k.to_string()),
        payload: payload.to_vec(),
    };
    match mgr.handle_frame(reg, frame, now) {
        ManagerAction::Broadcast { topic: t, message } => {
            assert_eq!(t, topic);
            Some(message)
        }
        ManagerAction::Done => None,
        other => panic!("expected a broadcast or nothing, got {:?}", action_name(&other)),
    }
}

fn action_name(action: &ManagerAction) -> &'static str {
    match action {
        ManagerAction::Done => "Done",
        ManagerAction::StartSubscription { .. } => "StartSubscription",
        ManagerAction::StopSubscription { .. } => "StopSubscription",
        ManagerAction::Broadcast { .. } => "Broadcast",
        ManagerAction::CloseConnection => "CloseConnection",
    }
}

#[test]
fn basic_echo() {
    let mut reg = TopicRegistry::new();
    let mut a = SubscriptionManager::new();

    let replay = subscribe(&mut a, &mut reg, "hello", 1);
    assert!(replay.is_empty());
    assert!(a.is_waiting_for_next_message());

    let message = publish(&mut a, &mut reg, "hello", None, b"message", 2)
        .expect("a keyless publish is forwarded");

    // the manager's own live receiver hands the broadcast back
    let frame = a
        .handle_topic_message("hello".to_string(), message, 3)
        .expect("an unexpired message is written out");
    assert_eq!(
        frame,
        ZaichikFrame::Publish {
            topic: "hello".to_string(),
            key: None,
            payload: b"message".to_vec(),
        }
    );
    a.mark_delivered();
    assert!(!a.is_waiting_for_next_message());
}

#[test]
fn late_subscriber_without_retention_replays_nothing() {
    let mut reg = TopicRegistry::new();
    let mut a = SubscriptionManager::new();
    let mut b = SubscriptionManager::new();

    // the topic is auto-created with retention disabled; the send has no receiver
    let forwarded = publish(&mut a, &mut reg, "t", None, b"x", 1);
    assert!(forwarded.is_some());

    let replay = subscribe(&mut b, &mut reg, "t", 2);
    assert!(replay.is_empty());
}

#[test]
fn late_subscriber_with_retention_replays_the_message() {
    let mut reg = TopicRegistry::new();
    let mut a = SubscriptionManager::new();
    let mut b = SubscriptionManager::new();

    let act = a.handle_frame(
        &mut reg,
        ZaichikFrame::CreateTopic {
            topic: "t".to_string(),
            retention_ttl: 10_000,
            compaction_window: 0,
        },
        1,
    );
    assert!(matches!(act, ManagerAction::Done));

    publish(&mut a, &mut reg, "t", Some("k1"), b"message", 2).expect("forwarded");

    // within the retention window the snapshot replays the message
    let replay = subscribe(&mut b, &mut reg, "t", 3000);
    assert_eq!(replay.len(), 1);
    let frame = b
        .handle_topic_message("t".to_string(), replay.into_iter().next().unwrap(), 3000)
        .expect("still within its retention");
    assert_eq!(
        frame,
        ZaichikFrame::Publish {
            topic: "t".to_string(),
            key: Some("k1".to_string()),
            payload: b"message".to_vec(),
        }
    );
}

#[test]
fn compaction_suppresses_repeated_keys() {
    let mut reg = TopicRegistry::new();
    let mut a = SubscriptionManager::new();
    let mut b = SubscriptionManager::new();

    a.handle_frame(
        &mut reg,
        ZaichikFrame::CreateTopic {
            topic: "hello".to_string(),
            retention_ttl: 0,
            compaction_window: 10_000,
        },
        0,
    );

    // b's live receiver is registered before the publishes
    let replay = subscribe(&mut b, &mut reg, "hello", 0);
    assert!(replay.is_empty());

    // 100 publishes bearing key1 inside one window: only the first fans out
    let mut live: Vec<Message> = Vec::new();
    for i in 0..100u64 {
        if let Some(m) = publish(&mut a, &mut reg, "hello", Some("key1"), b"message", 1 + i) {
            live.push(m);
        }
    }
    if let Some(m) = publish(&mut a, &mut reg, "hello", Some("key2"), b"message1", 101) {
        live.push(m);
    }
    assert_eq!(live.len(), 2);

    // b reads and commits twice
    let mut live = live.into_iter();
    let first = b
        .handle_topic_message("hello".to_string(), live.next().unwrap(), 102)
        .expect("written out");
    assert_eq!(
        first,
        ZaichikFrame::Publish {
            topic: "hello".to_string(),
            key: Some("key1".to_string()),
            payload: b"message".to_vec(),
        }
    );
    b.mark_delivered();
    b.handle_frame(&mut reg, ZaichikFrame::Commit, 103);

    let second = b
        .handle_topic_message("hello".to_string(), live.next().unwrap(), 104)
        .expect("written out");
    assert_eq!(
        second,
        ZaichikFrame::Publish {
            topic: "hello".to_string(),
            key: Some("key2".to_string()),
            payload: b"message1".to_vec(),
        }
    );
    b.mark_delivered();
}

#[test]
fn flow_control_one_message_per_commit() {
    let mut reg = TopicRegistry::new();
    let mut a = SubscriptionManager::new();
    let mut publisher = SubscriptionManager::new();

    subscribe(&mut a, &mut reg, "t", 0);

    // the publisher sends 100 messages; they queue in a's live stream
    let mut queued: Vec<Message> = Vec::new();
    for i in 0..100u64 {
        let m = publish(&mut publisher, &mut reg, "t", None, &[i as u8], 1 + i)
            .expect("keyless publishes all fan out");
        queued.push(m);
    }
    let mut queued = queued.into_iter().peekable();

    // a reads once without committing; no second message may be polled
    let mut received: Vec<u8> = Vec::new();
    let frame = a
        .handle_topic_message("t".to_string(), queued.next().unwrap(), 200)
        .expect("written out");
    if let ZaichikFrame::Publish { payload, .. } = frame {
        received.push(payload[0]);
    }
    a.mark_delivered();
    assert!(
        !a.is_waiting_for_next_message(),
        "no topic message is selectable until the client commits"
    );

    // read/commit pairs drain the rest, in order
    while queued.peek().is_some() {
        a.handle_frame(&mut reg, ZaichikFrame::Commit, 200);
        assert!(a.is_waiting_for_next_message());
        let frame = a
            .handle_topic_message("t".to_string(), queued.next().unwrap(), 200)
            .expect("written out");
        if let ZaichikFrame::Publish { payload, .. } = frame {
            received.push(payload[0]);
        }
        a.mark_delivered();
    }
    let expected: Vec<u8> = (0..100u8).collect();
    assert_eq!(received, expected);
}

#[test]
fn unsubscribe_clears_readiness() {
    let mut reg = TopicRegistry::new();
    let mut a = SubscriptionManager::new();
    let mut publisher = SubscriptionManager::new();

    subscribe(&mut a, &mut reg, "t", 0);
    a.handle_frame(&mut reg, ZaichikFrame::Commit, 1);
    assert!(a.is_waiting_for_next_message());

    let act = a.handle_frame(&mut reg, ZaichikFrame::Unsubscribe { topic: "t".to_string() }, 2);
    assert!(matches!(act, ManagerAction::StopSubscription { .. }));
    assert_eq!(a.subscription_count(), 0);
    assert!(!a.is_subscribed(&"t".to_string()));

    // a publish arrives; a's stream is gone and a is not flagged ready
    publish(&mut publisher, &mut reg, "t", None, b"x", 3).expect("forwarded");
    assert!(!a.is_waiting_for_next_message());
}

#[test]
fn expired_message_is_dropped_at_delivery() {
    let a = SubscriptionManager::new();
    let expired = Message {
        key: None,
        payload: b"late".to_vec(),
        received_at: 0,
        expires_at: Some(5),
    };
    // strictly past its expiry: dropped silently
    assert!(a.handle_topic_message("t".to_string(), expired.clone(), 6).is_none());
    // at the exact expiry instant the message is still written
    assert!(a.handle_topic_message("t".to_string(), expired.clone(), 5).is_some());
    assert!(a.handle_topic_message("t".to_string(), expired, 4).is_some());
}

#[test]
fn commit_is_idempotent_and_resubscribe_is_one_entry() {
    let mut reg = TopicRegistry::new();
    let mut a = SubscriptionManager::new();

    subscribe(&mut a, &mut reg, "t", 0);
    a.handle_frame(&mut reg, ZaichikFrame::Commit, 1);
    a.handle_frame(&mut reg, ZaichikFrame::Commit, 2);
    assert!(a.is_waiting_for_next_message());

    // a second subscription to the same topic replaces the stream, not the entry
    subscribe(&mut a, &mut reg, "t", 3);
    assert_eq!(a.subscription_count(), 1);
    assert!(a.is_subscribed(&"t".to_string()));
}

#[test]
fn message_wrappers_carry_their_content() {
    let frame = ZaichikFrame::Commit;
    let wrapped = MessageWrapper::from_frame(frame.clone(), 42);
    assert_eq!(wrapped, MessageWrapper::Frame { frame, received_at: 42 });

    let message = Message {
        key: None,
        payload: vec![1],
        received_at: 1,
        expires_at: None,
    };
    let wrapped = MessageWrapper::from_topic_message("t".to_string(), message.clone());
    assert_eq!(
        wrapped,
        MessageWrapper::TopicMessage { topic_name: "t".to_string(), message }
    );
}

#[test]
fn close_connection_ends_the_loop() {
    let mut reg = TopicRegistry::new();
    let mut a = SubscriptionManager::new();
    let act = a.handle_frame(&mut reg, ZaichikFrame::CloseConnection, 1);
    assert!(matches!(act, ManagerAction::CloseConnection));
}
