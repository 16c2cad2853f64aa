use telesteller::pub_sub::{Dispatch, PublisherManager};
use telesteller::request::PUBLISH;
use telesteller::Qos;

fn publish(topic: &str) -> PUBLISH {
    PUBLISH {
        dup: false,
        qos: Qos::FireAndForget,
        retain: false,
        topic: topic.to_string(),
        id: None,
        payload: b"x".to_vec(),
        raw: vec![0x30, 0x04, 0x00, 0x01, b't', b'x'],
    }
}

#[test]
fn dispatch_without_subscriber_goes_nowhere() {
    let registry = PublisherManager::new();
    assert_eq!(registry.dispatch("t", publish("t")), Dispatch::NoChannel);
    assert!(!registry.contains("t"));
}

#[test]
fn each_subscriber_receives_once() {
    let mut registry = PublisherManager::new();
    let mut first = registry.subscribe("t");
    let mut second = registry.subscribe("t");
    let mut other = registry.subscribe("u");
    assert_eq!(registry.dispatch("t", publish("t")), Dispatch::Delivered(2));
    assert_eq!(first.try_recv().unwrap().topic, "t");
    assert!(first.try_recv().is_err());
    assert_eq!(second.try_recv().unwrap().topic, "t");
    assert!(second.try_recv().is_err());
    assert!(other.try_recv().is_err());
}

#[test]
fn dispatch_after_receivers_left() {
    let mut registry = PublisherManager::new();
    let receiver = registry.subscribe("t");
    drop(receiver);
    assert_eq!(registry.dispatch("t", publish("t")), Dispatch::NoLiveReceiver);
}

#[test]
fn remove_closes_the_channel() {
    let mut registry = PublisherManager::new();
    let mut receiver = registry.subscribe("t");
    registry.remove("t");
    assert!(!registry.contains("t"));
    assert!(matches!(receiver.try_recv(), Err(tokio::sync::broadcast::error::TryRecvError::Closed)));
}

#[test]
fn publisher_lookup_by_topic() {
    let mut registry = PublisherManager::new();
    assert!(registry.publisher("t").is_none());
    let _first = registry.subscribe("t");
    let _other = registry.subscribe("u");
    let t = registry.publisher("t").unwrap();
    let u = registry.publisher("u").unwrap();
    assert!(!t.same_channel(u));
    assert_eq!(t.receiver_count(), 1);
}
