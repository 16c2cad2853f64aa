use telesteller::session::{DesignatedSubscription, Session, SessionManager};
use telesteller::Qos;

fn session(topics: &[&str]) -> Session {
    let mut s = Session::new();
    for t in topics {
        s.insert(DesignatedSubscription { topic: t.to_string(), qos: Qos::FireAndForget });
    }
    s
}

#[test]
fn subscription_equality_is_by_topic() {
    let a = DesignatedSubscription { topic: "t".to_string(), qos: Qos::FireAndForget };
    let b = DesignatedSubscription::from(("t".to_string(), Qos::AssuredDelivery));
    assert!(a == b);
    assert!(a != DesignatedSubscription { topic: "u".to_string(), qos: Qos::FireAndForget });
}

#[test]
fn repeated_subscribe_overwrites_level() {
    let mut s = session(&["a", "b"]);
    s.insert(DesignatedSubscription { topic: "a".to_string(), qos: Qos::AssuredDelivery });
    assert_eq!(s.len(), 2);
    assert_eq!(s.qos(0), Qos::AssuredDelivery);
    s.remove(&"a".to_string());
    assert_eq!(s.len(), 1);
    assert_eq!(s.topic(0), "b");
    assert!(!s.contains(&"a".to_string()));
}

#[test]
fn store_evicts_least_recently_used() {
    let mut store = SessionManager::new(2);
    store.put("a", session(&["1"]));
    store.put("b", session(&["2"]));
    store.get_mut("a").unwrap();
    store.put("c", session(&["3"]));
    assert!(store.contains("a"));
    assert!(!store.contains("b"));
    assert!(store.contains("c"));
    assert_eq!(store.get("a").unwrap().topic(0), "1");
}

#[test]
fn store_replaces_and_evicts() {
    let mut store = SessionManager::new(2);
    store.put("a", session(&["1"]));
    store.put("a", session(&["2", "3"]));
    assert_eq!(store.get("a").unwrap().len(), 2);
    store.evict("a");
    assert!(store.get("a").is_none());
    store.evict("a");
    assert!(!store.contains("a"));
}

#[test]
fn store_of_capacity_zero_keeps_nothing() {
    let mut store = SessionManager::new(0);
    store.put("a", session(&["1"]));
    assert!(!store.contains("a"));
    assert_eq!(store.capacity(), 0);
}

#[test]
fn get_mut_changes_in_place() {
    let mut store = SessionManager::new(4);
    store.put("a", session(&["1"]));
    store.get_mut("a").unwrap().insert(DesignatedSubscription { topic: "2".to_string(), qos: Qos::FireAndForget });
    assert_eq!(store.get("a").unwrap().len(), 2);
    assert!(store.get_mut("zz").is_none());
}

#[test]
fn duplicate_copies() {
    let s = session(&["x", "y"]);
    let d = s.duplicate();
    assert_eq!(d.len(), 2);
    assert_eq!(d.topic(1), "y");
    assert_eq!(Session::default().len(), 0);
}

#[test]
fn put_then_get_and_evict_then_get() {
    let mut store = SessionManager::new(1);
    store.put("a", session(&["1"]));
    store.put("a", session(&["2"]));
    assert_eq!(store.get("a").unwrap().topic(0), "2");
    store.put("b", session(&["3"]));
    assert!(store.get("a").is_none());
    store.evict("b");
    assert!(store.get("b").is_none());
}
