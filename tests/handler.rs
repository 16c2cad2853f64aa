use telesteller::handler::{Action, Connection};
use telesteller::request::{Request, Will, CONNECT, DISCONNECT, PINGREQ, PUBLISH, SUBSCRIBE, UNSUBSCRIBE};
use telesteller::response::{CONNACKReturnCode, Response, CONNACK, PINGRESP, SUBACK, UNSUBACK};
use telesteller::session::SessionManager;
use telesteller::Qos;

fn connect(client_id: &str, clean_session: bool) -> CONNECT {
    CONNECT {
        protocol_version: 4,
        clean_session,
        keep_alive: 300,
        client_id: client_id.to_string(),
        will: None,
        username: None,
        password: None,
    }
}

fn subscribe(id: u16, topics: &[&str]) -> Request {
    Request::SUBSCRIBE(SUBSCRIBE {
        id,
        subscriptions: topics.iter().map(|t| (t.to_string(), Qos::AcknowledgedDeliver)).collect(),
    })
}

fn publish(topic: &str) -> PUBLISH {
    PUBLISH {
        dup: false,
        qos: Qos::FireAndForget,
        retain: false,
        topic: topic.to_string(),
        id: None,
        payload: b"x".to_vec(),
        raw: vec![0x30],
    }
}

fn connack(session_present: bool) -> Action {
    Action::Send(Response::CONNACK(CONNACK { session_present, return_code: CONNACKReturnCode::Accepted }))
}

fn is_action(a: &Action, b: &Action) -> bool {
    format!("{:?}", a) == format!("{:?}", b)
}

fn assert_actions(actual: &[Action], expected: &[Action]) {
    assert_eq!(actual.len(), expected.len(), "{:?}", actual);
    for (a, b) in actual.iter().zip(expected) {
        assert!(is_action(a, b), "{:?} != {:?}", a, b);
    }
}

#[test]
fn connect_then_subscribe_and_ping() {
    let mut store = SessionManager::new(8);
    let mut conn = Connection::new();
    let actions = conn.handle(Request::CONNECT(connect("c1", false)), &mut store);
    assert_actions(&actions, &[connack(false), Action::Claim("c1".to_string())]);
    assert!(conn.is_connected());

    let actions = conn.handle(subscribe(7, &["a/b", "c/d"]), &mut store);
    assert_actions(
        &actions,
        &[
            Action::Subscribe("a/b".to_string()),
            Action::Subscribe("c/d".to_string()),
            Action::Send(Response::SUBACK(SUBACK {
                id: 7,
                granted_qos: vec![Some(Qos::FireAndForget), Some(Qos::FireAndForget)],
            })),
        ],
    );

    let actions = conn.handle(Request::PINGREQ(PINGREQ {}), &mut store);
    assert_actions(&actions, &[Action::Send(Response::PINGRESP(PINGRESP {}))]);

    let actions = conn.handle(Request::PUBLISH(publish("a/b")), &mut store);
    assert_actions(&actions, &[Action::Dispatch(publish("a/b"))]);
}

#[test]
fn unsupported_protocol_is_refused() {
    let mut store = SessionManager::new(8);
    let mut conn = Connection::new();
    let mut c = connect("c1", false);
    c.protocol_version = 3;
    let actions = conn.handle(Request::CONNECT(c), &mut store);
    assert_actions(
        &actions,
        &[
            Action::Send(Response::CONNACK(CONNACK {
                session_present: false,
                return_code: CONNACKReturnCode::UnacceptableProtocol,
            })),
            Action::Close,
        ],
    );
    assert!(!conn.is_connected());
}

#[test]
fn session_round_trip() {
    let mut store = SessionManager::new(8);
    let mut conn = Connection::new();
    conn.handle(Request::CONNECT(connect("c1", false)), &mut store);
    conn.handle(subscribe(1, &["t1", "t2"]), &mut store);
    let actions = conn.handle(Request::DISCONNECT(DISCONNECT {}), &mut store);
    assert_actions(&actions, &[Action::Release("c1".to_string()), Action::Close]);
    assert!(store.contains("c1"));

    let mut again = Connection::new();
    let actions = again.handle(Request::CONNECT(connect("c1", false)), &mut store);
    assert_actions(
        &actions,
        &[
            connack(true),
            Action::Subscribe("t1".to_string()),
            Action::Subscribe("t2".to_string()),
            Action::Claim("c1".to_string()),
        ],
    );
}

#[test]
fn clean_session_erases_stored_session() {
    let mut store = SessionManager::new(8);
    let mut conn = Connection::new();
    conn.handle(Request::CONNECT(connect("c1", false)), &mut store);
    conn.handle(subscribe(1, &["t1"]), &mut store);
    conn.handle(Request::DISCONNECT(DISCONNECT {}), &mut store);
    assert!(store.contains("c1"));

    let mut again = Connection::new();
    let actions = again.handle(Request::CONNECT(connect("c1", true)), &mut store);
    assert_actions(&actions, &[connack(false), Action::Claim("c1".to_string())]);
    assert!(!store.contains("c1"));
    again.handle(Request::DISCONNECT(DISCONNECT {}), &mut store);
    assert!(!store.contains("c1"));
}

#[test]
fn wrong_state_closes() {
    let mut store = SessionManager::new(8);
    let mut conn = Connection::new();
    let actions = conn.handle(Request::PINGREQ(PINGREQ {}), &mut store);
    assert_actions(&actions, &[Action::Close]);
    let actions = conn.handle(Request::CONNECT(connect("c1", false)), &mut store);
    assert_actions(&actions, &[Action::Close]);

    let mut conn = Connection::new();
    conn.handle(Request::CONNECT(connect("c2", true)), &mut store);
    conn.handle(Request::DISCONNECT(DISCONNECT {}), &mut store);
    let actions = conn.handle(Request::PINGREQ(PINGREQ {}), &mut store);
    assert_actions(&actions, &[Action::Close]);
}

#[test]
fn second_connect_ends_the_connection() {
    let mut store = SessionManager::new(8);
    let mut conn = Connection::new();
    conn.handle(Request::CONNECT(connect("c1", false)), &mut store);
    let actions = conn.handle(Request::CONNECT(connect("c1", false)), &mut store);
    assert_actions(&actions, &[Action::Release("c1".to_string()), Action::Close]);
    assert!(store.contains("c1"));
    assert!(!conn.is_connected());
}

#[test]
fn unsubscribe_answers_unsuback() {
    let mut store = SessionManager::new(8);
    let mut conn = Connection::new();
    conn.handle(Request::CONNECT(connect("c1", false)), &mut store);
    conn.handle(subscribe(1, &["t1", "t2"]), &mut store);
    let actions = conn.handle(
        Request::UNSUBSCRIBE(UNSUBSCRIBE { id: 9, topics: vec!["t1".to_string()] }),
        &mut store,
    );
    assert_actions(
        &actions,
        &[Action::Unsubscribe("t1".to_string()), Action::Send(Response::UNSUBACK(UNSUBACK { id: 9 }))],
    );
    assert!(!conn.deliver(&publish("t1")));
    assert!(conn.deliver(&publish("t2")));
}

#[test]
fn delivery_is_local_to_topics() {
    let mut store = SessionManager::new(8);
    let mut conn = Connection::new();
    assert!(!conn.deliver(&publish("t")));
    conn.handle(Request::CONNECT(connect("c1", true)), &mut store);
    conn.handle(subscribe(1, &["t"]), &mut store);
    assert!(conn.deliver(&publish("t")));
    assert!(!conn.deliver(&publish("u")));
}

#[test]
fn lost_connection_publishes_will_and_keeps_session() {
    let mut store = SessionManager::new(8);
    let mut conn = Connection::new();
    let mut c = connect("c1", false);
    c.will = Some(Will { qos: Qos::AssuredDelivery, retain: true, topic: "w".to_string(), payload: b"bye".to_vec() });
    conn.handle(Request::CONNECT(c), &mut store);
    conn.handle(subscribe(1, &["t"]), &mut store);
    let actions = conn.lost(&mut store);
    assert_eq!(actions.len(), 3);
    match &actions[0] {
        Action::Dispatch(p) => {
            assert_eq!(p.topic, "w");
            assert_eq!(p.payload, b"bye".to_vec());
            assert!(p.retain);
            assert_eq!(p.raw, vec![0x31, 0x06, 0x00, 0x01, b'w', b'b', b'y', b'e']);
        }
        other => panic!("{:?}", other),
    }
    assert!(is_action(&actions[1], &Action::Release("c1".to_string())));
    assert!(matches!(actions[2], Action::Close));
    assert!(store.contains("c1"));
}

#[test]
fn shutdown_persists_without_will() {
    let mut store = SessionManager::new(8);
    let mut conn = Connection::new();
    let mut c = connect("c1", false);
    c.will = Some(Will { qos: Qos::FireAndForget, retain: false, topic: "w".to_string(), payload: vec![] });
    conn.handle(Request::CONNECT(c), &mut store);
    let actions = conn.shutdown(&mut store);
    assert_actions(&actions, &[Action::Release("c1".to_string()), Action::Close]);
    assert!(store.contains("c1"));
}

#[test]
fn idle_timeout_is_one_and_a_half_keep_alive() {
    let mut store = SessionManager::new(8);
    let mut conn = Connection::new();
    assert_eq!(conn.idle_timeout(), None);
    conn.handle(Request::CONNECT(connect("c1", true)), &mut store);
    assert_eq!(conn.idle_timeout(), Some(450_000));
    let mut c = connect("c2", true);
    c.keep_alive = 0;
    let mut conn = Connection::new();
    conn.handle(Request::CONNECT(c), &mut store);
    assert_eq!(conn.idle_timeout(), None);
}
