use zaichik::topic_registry::TopicRegistry;

#[test]
fn create_topic_first_writer_wins() {
    let mut reg = TopicRegistry::new();
    reg.create_topic("t".to_string(), 10_000, 0);
    // a repeated creation is silently ignored
    reg.create_topic("t".to_string(), 1, 5);

    let topic = reg.get_topic(&"t".to_string()).expect("registered");
    assert_eq!(topic.settings.retention_ttl, Some(10_000));
    assert_eq!(topic.settings.compaction_window, None);
}

#[test]
fn get_topic_unknown_name() {
    let reg = TopicRegistry::new();
    assert!(reg.get_topic(&"nowhere".to_string()).is_none());
    assert_eq!(reg.watermark(), 0);
}

#[test]
fn publish_reaches_the_named_topic_only() {
    let mut reg = TopicRegistry::new();
    reg.create_topic("a".to_string(), 10_000, 0);
    reg.create_topic("b".to_string(), 10_000, 0);

    let forwarded = reg.publish(&"a".to_string(), None, vec![1], 5);
    assert!(forwarded.is_some());
    assert_eq!(reg.watermark(), 5);

    assert_eq!(reg.get_topic(&"a".to_string()).unwrap().retained_buffer.len(), 1);
    assert_eq!(reg.get_topic(&"b".to_string()).unwrap().retained_buffer.len(), 0);

    // a publish under an unknown name changes nothing and forwards nothing
    assert!(reg.publish(&"c".to_string(), None, vec![2], 6).is_none());
    assert!(reg.get_topic(&"c".to_string()).is_none());
}
