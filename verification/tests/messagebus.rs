use t51core::identity::{FlagId, TopicId};
use t51core::messagebus::Bus;

fn bus_with_topics(n: usize) -> Bus<String> {
    let mut bus = Bus::new();
    for i in 0..n {
        let topic: TopicId = FlagId::new(i);
        bus.register(&topic);
    }
    bus
}

#[test]
fn publish_then_read() {
    let mut bus = bus_with_topics(2);
    let t0: TopicId = FlagId::new(0);
    let t1: TopicId = FlagId::new(1);
    assert_eq!(bus.topic_count(), 2);
    bus.publish(&t1, "hello".to_string());
    bus.publish(&t1, "world".to_string());
    assert_eq!(bus.read(&t0).len(), 0);
    assert_eq!(bus.read(&t1), &["hello".to_string(), "world".to_string()][..]);
}

#[test]
fn batch_publishes_in_order() {
    let mut bus = bus_with_topics(1);
    let t0: TopicId = FlagId::new(0);
    {
        let mut batcher = bus.batch(&t0);
        batcher.publish("a".to_string());
        batcher.publish("b".to_string());
    }
    assert_eq!(bus.read(&t0), &["a".to_string(), "b".to_string()][..]);
}

#[test]
fn transfer_moves_messages_and_empties_the_source() {
    let mut common = bus_with_topics(2);
    let mut local = bus_with_topics(2);
    let t0: TopicId = FlagId::new(0);
    let t1: TopicId = FlagId::new(1);
    common.publish(&t0, "old".to_string());
    local.publish(&t0, "new".to_string());
    local.publish(&t1, "other".to_string());
    common.transfer(&mut local);
    assert_eq!(common.read(&t0), &["old".to_string(), "new".to_string()][..]);
    assert_eq!(common.read(&t1), &["other".to_string()][..]);
    assert_eq!(local.read(&t0).len(), 0);
    assert_eq!(local.read(&t1).len(), 0);
}

#[test]
fn clear_empties_every_topic() {
    let mut bus = bus_with_topics(3);
    let t2: TopicId = FlagId::new(2);
    bus.publish(&t2, "x".to_string());
    bus.clear();
    assert_eq!(bus.read(&t2).len(), 0);
    assert_eq!(bus.topic_count(), 3);
}
