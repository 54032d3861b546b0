use zaichik::topic_controller::{CompactionMap, Message, TopicController, TopicSettings};

#[test]
fn test_cleaning_compaction_map() {
    let mut topic_controller_with_small_compaction_window =
        TopicController::new("test".to_string(), 0, 1, 0);

    let mut topic_controller_with_large_compaction_window =
        TopicController::new("test1".to_string(), 0, 10_000, 0);

    // the duplicate checks run at instant 5000; the message arrived earlier
    let now = 5000;
    let in_past = now - 5000;

    let message1 = Message {
        key: Some("same".to_string()),
        payload: vec![1, 2, 3, 4],
        received_at: in_past,
        expires_at: None,
    };

    TopicController::check_duplicate_and_update_compaction_map(
        &message1,
        &mut topic_controller_with_small_compaction_window.compaction_map,
        topic_controller_with_small_compaction_window
            .settings
            .compaction_window
            .unwrap(),
        now,
    );

    TopicController::check_duplicate_and_update_compaction_map(
        &message1,
        &mut topic_controller_with_large_compaction_window.compaction_map,
        topic_controller_with_large_compaction_window
            .settings
            .compaction_window
            .unwrap(),
        now,
    );

    // 100 ms pass before the housekeeping runs
    let later = now + 100;

    topic_controller_with_small_compaction_window.clean_outdated_compaction_keys(later);
    topic_controller_with_large_compaction_window.clean_outdated_compaction_keys(later);

    assert!(topic_controller_with_small_compaction_window
        .compaction_map
        .is_empty());

    assert!(!topic_controller_with_large_compaction_window
        .compaction_map
        .is_empty())
}

#[test]
fn test_dedup_works() {
    let mut compaction_map = CompactionMap::new();
    let compaction_window = 5000;

    let now = 5000;
    let in_past = now - 5000;

    let message1 = Message {
        key: Some("same".to_string()),
        payload: vec![1, 2, 3, 4],
        received_at: in_past,
        expires_at: None,
    };
    let message2 = Message {
        key: Some("same".to_string()),
        payload: vec![1, 2, 3, 4],
        received_at: in_past,
        expires_at: None,
    };

    assert!(!TopicController::check_duplicate_and_update_compaction_map(
        &message1,
        &mut compaction_map,
        compaction_window,
        now,
    ));
    // the second message is a duplicate
    assert!(TopicController::check_duplicate_and_update_compaction_map(
        &message2,
        &mut compaction_map,
        compaction_window,
        now,
    ));
}

#[test]
fn test_do_not_dedup_if_too_much_time_passed() {
    let mut compaction_map = CompactionMap::new();
    let compaction_window = 1;

    let now = 5000;
    let in_past = now - 5000;
    let message1 = Message {
        key: Some("same".to_string()),
        payload: vec![1, 2, 3, 4],
        received_at: in_past,
        expires_at: None,
    };
    let message2 = Message {
        key: Some("same".to_string()),
        payload: vec![1, 2, 3, 4],
        received_at: in_past,
        expires_at: None,
    };

    assert!(!TopicController::check_duplicate_and_update_compaction_map(
        &message1,
        &mut compaction_map,
        compaction_window,
        now,
    ));

    // 100 ms pass; the window is over
    assert!(!TopicController::check_duplicate_and_update_compaction_map(
        &message2,
        &mut compaction_map,
        compaction_window,
        now + 100,
    ));
}

#[test]
fn test_dedup_works_with_different_keys() {
    let mut compaction_map = CompactionMap::new();
    let compaction_window = 5000;

    let now = 5000;
    let in_past = now - 5000;
    let message1 = Message {
        key: Some("same".to_string()),
        payload: vec![1, 2, 3, 4],
        received_at: in_past,
        expires_at: None,
    };
    let message2 = Message {
        key: Some("different".to_string()),
        payload: vec![1, 2, 3, 4],
        received_at: in_past,
        expires_at: None,
    };

    assert!(!TopicController::check_duplicate_and_update_compaction_map(
        &message1,
        &mut compaction_map,
        compaction_window,
        now,
    ));
    // the second message passes: it bears another key
    assert!(!TopicController::check_duplicate_and_update_compaction_map(
        &message2,
        &mut compaction_map,
        compaction_window,
        now,
    ));
}

#[test]
fn settings_normalization() {
    let defaults = TopicSettings::new(0, 0, 0);
    assert_eq!(defaults.retention_ttl, None);
    assert_eq!(defaults.compaction_window, None);
    assert_eq!(defaults.buffer_size, 1000);

    let explicit = TopicSettings::new(5, 6, 7);
    assert_eq!(explicit.retention_ttl, Some(5));
    assert_eq!(explicit.compaction_window, Some(6));
    assert_eq!(explicit.buffer_size, 7);
}

#[test]
fn publish_stamps_expiry_from_retention() {
    let mut controller = TopicController::new("t".to_string(), 100, 0, 0);
    let forwarded = controller
        .publish(None, b"a".to_vec(), 7)
        .expect("a keyless publish is never a duplicate");
    assert_eq!(forwarded.received_at, 7);
    assert_eq!(forwarded.expires_at, Some(107));

    // without retention there is no expiry
    let mut plain = TopicController::new("p".to_string(), 0, 0, 0);
    let forwarded = plain.publish(None, b"a".to_vec(), 7).unwrap();
    assert_eq!(forwarded.expires_at, None);
}

#[test]
fn retained_buffer_prunes_expired_messages() {
    let mut controller = TopicController::new("t".to_string(), 100, 0, 0);
    controller.publish(None, b"a".to_vec(), 0);
    controller.publish(None, b"b".to_vec(), 50);
    assert_eq!(controller.subscribe().len(), 2);

    // at 150 the first expires at 100 and the second exactly at 150; both go
    controller.publish(None, b"c".to_vec(), 150);
    let snapshot = controller.subscribe();
    assert_eq!(snapshot.len(), 1);
    assert_eq!(snapshot[0].payload, b"c".to_vec());
}

#[test]
fn subscribe_snapshot_keeps_order() {
    let mut controller = TopicController::new("t".to_string(), 10_000, 0, 0);
    for i in 0..5u8 {
        controller.publish(None, vec![i], i as u64);
    }
    let snapshot = controller.subscribe();
    let payloads: Vec<u8> = snapshot.iter().map(|m| m.payload[0]).collect();
    assert_eq!(payloads, vec![0, 1, 2, 3, 4]);
    // snapshots clone; the buffer is intact
    assert_eq!(controller.subscribe().len(), 5);
}

#[test]
fn duplicate_publish_is_not_forwarded_nor_retained() {
    let mut controller = TopicController::new("t".to_string(), 10_000, 5000, 0);
    assert!(controller.publish(Some("k".to_string()), b"first".to_vec(), 100).is_some());
    // within the window: suppressed
    assert!(controller.publish(Some("k".to_string()), b"second".to_vec(), 4000).is_none());
    assert_eq!(controller.subscribe().len(), 1);
    // a keyless message is never a duplicate
    assert!(controller.publish(None, b"third".to_vec(), 4001).is_some());
    // the window measures from the forwarded publish: at 5100 it is over
    assert!(controller.publish(Some("k".to_string()), b"fourth".to_vec(), 5100).is_some());
    assert_eq!(controller.subscribe().len(), 3);
}
