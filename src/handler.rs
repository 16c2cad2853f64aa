//! The protocol state machine of one connection. The caller feeds it what
//! happens on the connection and performs the actions it returns: sending
//! responses, (un)subscribing receivers, dispatching messages, closing.
use vstd::prelude::*;
use vstd::utf8::{encode_utf8, encode_utf8_decode_utf8, encode_utf8_valid_utf8};

use crate::qos::Qos;
use crate::request::{
    parse_publish, ConnectView, PublishView, Request, RequestView, SubscribeView, UnsubscribeView,
    Will, WillView, CONNECT, PUBLISH, SUBSCRIBE, UNSUBSCRIBE,
};
use crate::response::{
    CONNACKReturnCode, Response, ResponseView, CONNACK, PINGRESP, SUBACK, UNSUBACK,
};
use crate::session::{
    has_client, has_topic, lemma_evict, lemma_push_client, lemma_put, session_of, spec_evict,
    spec_insert, spec_put, spec_remove, topic_index, topic_set, unique_clients, unique_topics,
    DesignatedSubscription, Session, SessionManager, StoreView, SubscriptionsView,
};
use crate::wire::{
    lemma_frame_layout, put_length, u16_at, u16_bytes, varint_bytes, MAX_REMAINING_LENGTH,
};

verus! {

/// The only protocol level accepted: MQTT 3.1.1.
pub const PROTOCOL_LEVEL: u8 = 4;

/// The header of a PUBLISH at level 0, before its retain bit.
pub const PUBLISH_HEADER: u8 = 0x30;

pub enum State {
    /// The TCP connection is open and no packet has arrived yet.
    Established,
    /// A CONNECT was accepted; its record and the client's session.
    Connected(CONNECT, Session),
    /// The session was persisted as asked and the connection closed.
    Disconnected,
    /// The connection ended ungracefully or broke the protocol.
    Cleaning,
}

pub enum StateView {
    Established,
    Connected { connect: ConnectView, session: SubscriptionsView },
    Disconnected,
    Cleaning,
}

impl View for State {
    type V = StateView;

    open spec fn view(&self) -> StateView {
        match self {
            State::Established => StateView::Established,
            State::Connected(c, s) => StateView::Connected { connect: c@, session: s@ },
            State::Disconnected => StateView::Disconnected,
            State::Cleaning => StateView::Cleaning,
        }
    }
}

/// Something the caller must do on the connection's behalf, in order.
#[derive(Debug)]
pub enum Action {
    /// Write this response.
    Send(Response),
    /// Start receiving what is published to this topic (replacing any receiver
    /// already held for it).
    Subscribe(String),
    /// Stop receiving what is published to this topic.
    Unsubscribe(String),
    /// Hand this message to the registry for its topic.
    Dispatch(PUBLISH),
    /// Take this client identifier for the connection; the connection that
    /// held it is displaced and must end.
    Claim(String),
    /// Give up this client identifier, if the connection still holds it.
    Release(String),
    /// Close the connection.
    Close,
}

pub enum ActionView {
    Send(ResponseView),
    Subscribe(Seq<char>),
    Unsubscribe(Seq<char>),
    Dispatch(PublishView),
    Claim(Seq<char>),
    Release(Seq<char>),
    Close,
}

impl View for Action {
    type V = ActionView;

    open spec fn view(&self) -> ActionView {
        match self {
            Action::Send(r) => ActionView::Send(r@),
            Action::Subscribe(t) => ActionView::Subscribe(t@),
            Action::Unsubscribe(t) => ActionView::Unsubscribe(t@),
            Action::Dispatch(p) => ActionView::Dispatch(p@),
            Action::Claim(id) => ActionView::Claim(id@),
            Action::Release(id) => ActionView::Release(id@),
            Action::Close => ActionView::Close,
        }
    }
}

pub open spec fn actions_view(a: Seq<Action>) -> Seq<ActionView> {
    a.map_values(|x: Action| x@)
}

/// Where one event takes a connection and the session store, and what the
/// caller must do.
pub struct Transition {
    pub state: StateView,
    pub store: StoreView,
    pub actions: Seq<ActionView>,
}

// ---------------------------------------------------------------------------
// The transitions.

/// The session that a connection persists when it ends: stored under its
/// client identifier unless it asked for a clean session.
pub open spec fn persist(store: StoreView, capacity: nat, c: ConnectView, session: SubscriptionsView) -> StoreView {
    if c.clean_session {
        store
    } else {
        spec_put(store, c.client_id, session, capacity)
    }
}

/// The frame of a Will published at level 0, the level every subscription
/// is granted.
pub open spec fn will_frame(w: WillView) -> Seq<u8> {
    let topic = encode_utf8(w.topic);
    let data = u16_bytes(topic.len() as u16) + topic + w.payload;
    seq![PUBLISH_HEADER | (if w.retain { 1u8 } else { 0u8 })] + varint_bytes(data.len()) + data
}

/// Whether a Will fits in one PUBLISH frame.
pub open spec fn will_fits(w: WillView) -> bool {
    encode_utf8(w.topic).len() <= 65535 && 2 + encode_utf8(w.topic).len() + w.payload.len()
        <= MAX_REMAINING_LENGTH
}

pub open spec fn will_publish(w: WillView) -> PublishView {
    PublishView {
        dup: false,
        qos: Qos::FireAndForget,
        retain: w.retain,
        topic: w.topic,
        id: None,
        payload: w.payload,
        raw: will_frame(w),
    }
}

/// Publishing the Will of a connection that ends ungracefully.
pub open spec fn will_actions(c: ConnectView) -> Seq<ActionView> {
    match c.will {
        Some(w) => if will_fits(w) {
            seq![ActionView::Dispatch(will_publish(w))]
        } else {
            seq![]
        },
        None => seq![],
    }
}

pub open spec fn connack(session_present: bool, return_code: CONNACKReturnCode) -> ActionView {
    ActionView::Send(ResponseView::Connack { session_present, return_code })
}

pub open spec fn subscribe_actions(s: SubscriptionsView) -> Seq<ActionView> {
    s.map_values(|e: (Seq<char>, Qos)| ActionView::Subscribe(e.0))
}

pub open spec fn unsubscribe_actions(topics: Seq<Seq<char>>) -> Seq<ActionView> {
    topics.map_values(|t: Seq<char>| ActionView::Unsubscribe(t))
}

pub open spec fn insert_all(s: SubscriptionsView, subs: Seq<(Seq<char>, Qos)>) -> SubscriptionsView
    decreases subs.len(),
{
    if subs.len() == 0 {
        s
    } else {
        insert_all(spec_insert(s, subs[0].0, subs[0].1), subs.drop_first())
    }
}

pub open spec fn remove_all(s: SubscriptionsView, topics: Seq<Seq<char>>) -> SubscriptionsView
    decreases topics.len(),
{
    if topics.len() == 0 {
        s
    } else {
        remove_all(spec_remove(s, topics[0]), topics.drop_first())
    }
}

/// A CONNECT on a fresh connection.
pub open spec fn on_connect(store: StoreView, c: ConnectView) -> Transition {
    if c.protocol_version != PROTOCOL_LEVEL {
        Transition {
            state: StateView::Cleaning,
            store,
            actions: seq![connack(false, CONNACKReturnCode::UnacceptableProtocol), ActionView::Close],
        }
    } else {
        let store1 = if c.clean_session {
            spec_evict(store, c.client_id)
        } else {
            store
        };
        let present = has_client(store1, c.client_id);
        let session = if present {
            session_of(store1, c.client_id)
        } else {
            seq![]
        };
        Transition {
            state: StateView::Connected { connect: c, session },
            store: if present {
                spec_evict(store1, c.client_id).push((c.client_id, session))
            } else {
                store1
            },
            actions: seq![connack(present, CONNACKReturnCode::Accepted)] + subscribe_actions(session)
                + seq![ActionView::Claim(c.client_id)],
        }
    }
}

/// Every requested topic is granted level 0.
pub open spec fn granted(n: nat) -> Seq<Option<Qos>> {
    Seq::new(n, |i: int| Some(Qos::FireAndForget))
}

pub open spec fn on_subscribe(c: ConnectView, session: SubscriptionsView, s: SubscribeView, store: StoreView) -> Transition {
    Transition {
        state: StateView::Connected { connect: c, session: insert_all(session, s.subscriptions) },
        store,
        actions: subscribe_actions(s.subscriptions) + seq![
            ActionView::Send(
                ResponseView::Suback { id: s.id, granted_qos: granted(s.subscriptions.len()) },
            ),
        ],
    }
}

pub open spec fn on_unsubscribe(c: ConnectView, session: SubscriptionsView, u: UnsubscribeView, store: StoreView) -> Transition {
    Transition {
        state: StateView::Connected { connect: c, session: remove_all(session, u.topics) },
        store,
        actions: unsubscribe_actions(u.topics) + seq![
            ActionView::Send(ResponseView::Unsuback { id: u.id }),
        ],
    }
}

/// The connection ends without a DISCONNECT: a connected client's session
/// is persisted as asked and its Will published.
pub open spec fn on_lost(state: StateView, store: StoreView, capacity: nat) -> Transition {
    match state {
        StateView::Established => Transition {
            state: StateView::Cleaning,
            store,
            actions: seq![ActionView::Close],
        },
        StateView::Connected { connect, session } => Transition {
            state: StateView::Cleaning,
            store: persist(store, capacity, connect, session),
            actions: will_actions(connect) + seq![
                ActionView::Release(connect.client_id),
                ActionView::Close,
            ],
        },
        _ => Transition { state, store, actions: seq![ActionView::Close] },
    }
}

/// The connection ends with a DISCONNECT, or as if it had.
pub open spec fn on_disconnect(state: StateView, store: StoreView, capacity: nat) -> Transition {
    match state {
        StateView::Connected { connect, session } => Transition {
            state: StateView::Disconnected,
            store: persist(store, capacity, connect, session),
            actions: seq![ActionView::Release(connect.client_id), ActionView::Close],
        },
        _ => on_lost(state, store, capacity),
    }
}

/// A request arrives.
pub open spec fn on_request(state: StateView, store: StoreView, capacity: nat, r: RequestView) -> Transition {
    match state {
        StateView::Established => match r {
            RequestView::Connect(c) => on_connect(store, c),
            _ => on_lost(state, store, capacity),
        },
        StateView::Connected { connect, session } => match r {
            RequestView::Subscribe(s) => on_subscribe(connect, session, s, store),
            RequestView::Unsubscribe(u) => on_unsubscribe(connect, session, u, store),
            RequestView::Publish(p) => Transition {
                state,
                store,
                actions: seq![ActionView::Dispatch(p)],
            },
            RequestView::PingReq => Transition {
                state,
                store,
                actions: seq![ActionView::Send(ResponseView::Pingresp)],
            },
            RequestView::Disconnect => on_disconnect(state, store, capacity),
            RequestView::Connect(_) => on_lost(state, store, capacity),
        },
        _ => Transition { state, store, actions: seq![ActionView::Close] },
    }
}

/// Whether a message that a topic's receiver yields is written to this
/// connection: only while connected, and only for a topic of its session.
pub open spec fn delivers(state: StateView, m: PublishView) -> bool {
    match state {
        StateView::Connected { session, .. } => has_topic(session, m.topic),
        _ => false,
    }
}

/// How long a connected client may stay silent, in milliseconds: one and a
/// half times its keep-alive; zero keep-alive means no limit.
pub open spec fn idle_limit(state: StateView) -> Option<u64> {
    match state {
        StateView::Connected { connect, .. } => if connect.keep_alive == 0 {
            None
        } else {
            Some((connect.keep_alive as u64 * 1500) as u64)
        },
        _ => None,
    }
}

/// The frame published for a Will reads back as the Will's PUBLISH.
pub proof fn lemma_will_frame_reads_back(w: WillView)
    requires
        will_fits(w),
    ensures
        parse_publish(will_frame(w)) == Ok::<PublishView, crate::request::Error>(will_publish(w)),
{
    let topic = encode_utf8(w.topic);
    let n = topic.len() as u16;
    let data = u16_bytes(n) + topic + w.payload;
    let header: u8 = PUBLISH_HEADER | (if w.retain { 1u8 } else { 0u8 });
    let f = will_frame(w);
    lemma_frame_layout(header, data);
    assert(header >> 1u8 & 3u8 == 0 && (header & 0x08u8 == 0) && ((header & 0x01u8 != 0)
        == w.retain)) by {
        if w.retain {
            assert(0x30u8 | 1u8 == 0x31u8) by (bit_vector);
            assert(0x31u8 >> 1u8 & 3u8 == 0 && 0x31u8 & 0x08u8 == 0 && 0x31u8 & 0x01u8 != 0)
                by (bit_vector);
        } else {
            assert(0x30u8 | 0u8 == 0x30u8) by (bit_vector);
            assert(0x30u8 >> 1u8 & 3u8 == 0 && 0x30u8 & 0x08u8 == 0 && 0x30u8 & 0x01u8 == 0)
                by (bit_vector);
        }
    }
    let s: int = 1 + varint_bytes(data.len()).len() as int;
    assert(f.skip(s) =~= data);
    assert(u16_at(f, s) == u16_at(data, 0));
    assert(u16_at(data, 0) == n);
    assert(f.subrange(s + 2, s + 2 + n) =~= topic);
    assert(f.subrange(s + 2 + n, f.len() as int) =~= w.payload);
    encode_utf8_valid_utf8(w.topic);
    encode_utf8_decode_utf8(w.topic);
}

// ---------------------------------------------------------------------------
// Laws of the state machine.

proof fn lemma_insert_keeps(s: SubscriptionsView, t: Seq<char>, q: Qos, u: Seq<char>)
    ensures
        has_topic(spec_insert(s, t, q), t),
        has_topic(s, u) ==> has_topic(spec_insert(s, t, q), u),
{
    let r = spec_insert(s, t, q);
    if has_topic(s, t) {
        let k = topic_index(s, t);
        assert(r[k].0 == t);
        if has_topic(s, u) {
            let j = choose|j: int| 0 <= j < s.len() && s[j].0 == u;
            if j == k {
                assert(r[k].0 == u);
            } else {
                assert(r[j].0 == u);
            }
        }
    } else {
        assert(r[s.len() as int].0 == t);
        if has_topic(s, u) {
            let j = choose|j: int| 0 <= j < s.len() && s[j].0 == u;
            assert(r[j].0 == u);
        }
    }
}

proof fn lemma_insert_all_has(s: SubscriptionsView, subs: Seq<(Seq<char>, Qos)>, u: Seq<char>)
    ensures
        has_topic(s, u) ==> has_topic(insert_all(s, subs), u),
        (exists|j: int| 0 <= j < subs.len() && subs[j].0 == u) ==> has_topic(insert_all(s, subs), u),
    decreases subs.len(),
{
    if subs.len() > 0 {
        let s1 = spec_insert(s, subs[0].0, subs[0].1);
        lemma_insert_keeps(s, subs[0].0, subs[0].1, u);
        lemma_insert_all_has(s1, subs.drop_first(), u);
        if exists|j: int| 0 <= j < subs.len() && subs[j].0 == u {
            let j = choose|j: int| 0 <= j < subs.len() && subs[j].0 == u;
            if j > 0 {
                assert(subs.drop_first()[j - 1].0 == u);
            }
        }
    }
}

/// A client without a clean session that subscribes, disconnects and
/// connects again under the same identifier is told that its session is
/// present, and receives on each topic it subscribed to with no new SUBSCRIBE:
/// the reconnection answers a CONNACK, then only subscriptions, one of them
/// for each topic of the SUBSCRIBE, and takes the client identifier.
pub proof fn lemma_session_round_trip(
    store: StoreView,
    capacity: nat,
    first: ConnectView,
    s: SubscribeView,
    again: ConnectView,
)
    requires
        unique_clients(store),
        capacity > 0,
        first.protocol_version == PROTOCOL_LEVEL && !first.clean_session,
        again.protocol_version == PROTOCOL_LEVEL && !again.clean_session,
        again.client_id == first.client_id,
    ensures
        ({
            let t1 = on_request(StateView::Established, store, capacity, RequestView::Connect(first));
            let t2 = on_request(t1.state, t1.store, capacity, RequestView::Subscribe(s));
            let t3 = on_request(t2.state, t2.store, capacity, RequestView::Disconnect);
            let t4 = on_request(StateView::Established, t3.store, capacity, RequestView::Connect(again));
            &&& t4.actions[0] == connack(true, CONNACKReturnCode::Accepted)
            &&& forall|i: int| 1 <= i < t4.actions.len() - 1 ==> t4.actions[i] is Subscribe
            &&& t4.actions.last() == ActionView::Claim(first.client_id)
            &&& forall|j: int|
                0 <= j < s.subscriptions.len() ==> exists|i: int|
                    1 <= i < t4.actions.len() - 1 && t4.actions[i] == ActionView::Subscribe(
                        #[trigger] s.subscriptions[j].0,
                    )
        }),
{
    let id = first.client_id;
    let t1 = on_request(StateView::Established, store, capacity, RequestView::Connect(first));
    let present = has_client(store, id);
    let session1 = if present { session_of(store, id) } else { seq![] };
    if present {
        lemma_evict(store, id);
        lemma_push_client(spec_evict(store, id), id, session1);
    }
    assert(unique_clients(t1.store));
    let session2 = insert_all(session1, s.subscriptions);
    let t3_store = spec_put(t1.store, id, session2, capacity);
    lemma_put(t1.store, id, session2, capacity);
    let t4 = on_request(StateView::Established, t3_store, capacity, RequestView::Connect(again));
    assert(t4.actions == seq![connack(true, CONNACKReturnCode::Accepted)] + subscribe_actions(
        session2,
    ) + seq![ActionView::Claim(id)]);
    assert forall|j: int| 0 <= j < s.subscriptions.len() implies exists|i: int|
        1 <= i < t4.actions.len() - 1 && t4.actions[i] == ActionView::Subscribe(
            #[trigger] s.subscriptions[j].0,
        ) by {
        let u = s.subscriptions[j].0;
        lemma_insert_all_has(session1, s.subscriptions, u);
        let k = choose|k: int| 0 <= k < session2.len() && session2[k].0 == u;
        assert(t4.actions[k + 1] == ActionView::Subscribe(u));
    }
}

/// After an accepted CONNECT that asks for a clean session, the store holds
/// no session for its client.
pub proof fn lemma_clean_session_erased(store: StoreView, capacity: nat, c: ConnectView)
    requires
        unique_clients(store),
        c.clean_session,
        c.protocol_version == PROTOCOL_LEVEL,
    ensures
        !has_client(
            on_request(StateView::Established, store, capacity, RequestView::Connect(c)).store,
            c.client_id,
        ),
{
    lemma_evict(store, c.client_id);
}

/// A connection that has not connected yet closes on any packet but CONNECT,
/// and one that has ended closes on every packet.
pub proof fn lemma_wrong_state_closes(store: StoreView, capacity: nat, r: RequestView, state: StateView)
    ensures
        !(r is Connect) ==> on_request(StateView::Established, store, capacity, r).actions == seq![
            ActionView::Close,
        ] && on_request(StateView::Established, store, capacity, r).state == StateView::Cleaning,
        (state is Disconnected || state is Cleaning) ==> on_request(state, store, capacity, r)
            == (Transition { state, store, actions: seq![ActionView::Close] }),
{
}

/// A message is written to a connection only if its topic is one the
/// connection subscribed to: a message for another topic never is.
pub proof fn lemma_fan_out_locality(state: StateView, m: PublishView)
    ensures
        delivers(state, m) ==> state is Connected && topic_set(state->session).contains(m.topic),
{
}

// ---------------------------------------------------------------------------
// Performing the transitions.

/// The PUBLISH that carries a Will at level 0, if it fits in a frame.
fn will_message(w: &Will) -> (r: Option<PUBLISH>)
    ensures
        match r {
            Some(p) => will_fits(w@) && p@ == will_publish(w@),
            None => !will_fits(w@),
        },
{
    let topic = w.topic.as_str().as_bytes();
    if topic.len() > 65535 || w.payload.len() > MAX_REMAINING_LENGTH - 2 - topic.len() {
        return None;
    }
    let n = topic.len() as u16;
    let mut data: Vec<u8> = Vec::new();
    data.push((n / 256) as u8);
    data.push((n % 256) as u8);
    data.extend_from_slice(topic);
    data.extend_from_slice(w.payload.as_slice());
    let mut raw: Vec<u8> = Vec::new();
    raw.push(PUBLISH_HEADER | if w.retain { 1u8 } else { 0u8 });
    put_length(data.len(), &mut raw);
    raw.extend_from_slice(data.as_slice());
    let mut payload: Vec<u8> = Vec::new();
    payload.extend_from_slice(w.payload.as_slice());
    proof {
        assert(data@ =~= u16_bytes(n) + encode_utf8(w.topic@) + w.payload@);
        assert(raw@ =~= will_frame(w@));
        assert(payload@ =~= w.payload@);
    }
    Some(
        PUBLISH {
            dup: false,
            qos: Qos::FireAndForget,
            retain: w.retain,
            topic: w.topic.clone(),
            id: None,
            payload,
            raw,
        },
    )
}

/// One connection's place in the protocol.
pub struct Connection {
    state: State,
}

impl View for Connection {
    type V = StateView;

    closed spec fn view(&self) -> StateView {
        self.state@
    }
}

pub open spec fn state_wf(s: &State) -> bool {
    match s {
        State::Connected(_, session) => session.wf(),
        _ => true,
    }
}

/// A transition as the executable code produced it.
pub open spec fn made(state: &State, store: &SessionManager, actions: Seq<Action>) -> Transition {
    Transition { state: state@, store: store@, actions: actions_view(actions) }
}

fn accept_connect(c: CONNECT, store: &mut SessionManager) -> (r: (State, Vec<Action>))
    requires
        old(store).wf(),
    ensures
        final(store).wf(),
        state_wf(&r.0),
        final(store).spec_capacity() == old(store).spec_capacity(),
        made(&r.0, final(store), r.1@) == on_connect(old(store)@, c@),
{
    if c.protocol_version != PROTOCOL_LEVEL {
        let actions = vec![
            Action::Send(
                Response::CONNACK(
                    CONNACK {
                        session_present: false,
                        return_code: CONNACKReturnCode::UnacceptableProtocol,
                    },
                ),
            ),
            Action::Close,
        ];
        proof {
            assert(actions_view(actions@) =~= on_connect(old(store)@, c@).actions);
        }
        return (State::Cleaning, actions);
    }
    if c.clean_session {
        store.evict(c.client_id.as_str());
    }
    let ghost store1 = store@;
    let (present, session) = match store.get_mut(c.client_id.as_str()) {
        Some(s) => (true, s.duplicate()),
        None => (false, Session::new()),
    };
    let mut actions = vec![
        Action::Send(
            Response::CONNACK(
                CONNACK { session_present: present, return_code: CONNACKReturnCode::Accepted },
            ),
        ),
    ];
    let ghost first = actions_view(actions@);
    assert(first =~= seq![connack(present, CONNACKReturnCode::Accepted)]);
    let mut i: usize = 0;
    while i < session.len()
        invariant
            i <= session@.len(),
            actions_view(actions@) == first + subscribe_actions(session@.take(i as int)),
        decreases session@.len() - i,
    {
        let ghost before = actions_view(actions@);
        actions.push(Action::Subscribe(session.topic(i)));
        proof {
            assert(actions_view(actions@) =~= before.push(ActionView::Subscribe(session@[i as int].0)));
            assert(subscribe_actions(session@.take(i + 1)) =~= subscribe_actions(
                session@.take(i as int),
            ).push(ActionView::Subscribe(session@[i as int].0)));
        }
        i = i + 1;
    }
    let ghost before = actions_view(actions@);
    actions.push(Action::Claim(c.client_id.clone()));
    proof {
        assert(session@.take(i as int) =~= session@);
        assert(present ==> session@ == session_of(store1, c@.client_id));
        if !present {
            assert(session@ =~= seq![]);
        }
        assert(actions_view(actions@) =~= before + seq![ActionView::Claim(c@.client_id)]);
    }
    (State::Connected(c, session), actions)
}

fn subscribe_topics(c: CONNECT, session: Session, s: SUBSCRIBE) -> (r: (State, Vec<Action>))
    requires
        session.wf(),
    ensures
        state_wf(&r.0),
        forall|store: StoreView| #[trigger] on_subscribe(c@, session@, s@, store).state == r.0@
            && on_subscribe(c@, session@, s@, store).actions == actions_view(r.1@),
{
    let mut session = session;
    let ghost start = session@;
    let ghost subs = s@.subscriptions;
    let mut actions: Vec<Action> = Vec::new();
    let mut granted_qos: Vec<Option<Qos>> = Vec::new();
    let mut i: usize = 0;
    assert(subs.skip(0) =~= subs);
    assert(granted_qos@ =~= granted(0));
    while i < s.subscriptions.len()
        invariant
            i <= s.subscriptions@.len(),
            subs == s@.subscriptions,
            subs.len() == s.subscriptions@.len(),
            session.wf(),
            insert_all(session@, subs.skip(i as int)) == insert_all(start, subs),
            actions_view(actions@) == subscribe_actions(subs.take(i as int)),
            granted_qos@ == granted(i as nat),
        decreases s.subscriptions@.len() - i,
    {
        let topic = s.subscriptions[i].0.clone();
        let qos = s.subscriptions[i].1;
        proof {
            assert(subs[i as int] == (topic@, qos));
            assert(subs.skip(i as int)[0] == subs[i as int]);
            assert(subs.skip(i as int).drop_first() =~= subs.skip(i + 1));
        }
        session.insert(DesignatedSubscription { topic: topic.clone(), qos });
        let ghost before = actions_view(actions@);
        actions.push(Action::Subscribe(topic));
        granted_qos.push(Some(Qos::FireAndForget));
        proof {
            assert(actions_view(actions@) =~= before.push(ActionView::Subscribe(subs[i as int].0)));
            assert(subscribe_actions(subs.take(i + 1)) =~= subscribe_actions(
                subs.take(i as int),
            ).push(ActionView::Subscribe(subs[i as int].0)));
            assert(granted_qos@ =~= granted((i + 1) as nat));
        }
        i = i + 1;
    }
    let ghost before = actions_view(actions@);
    actions.push(Action::Send(Response::SUBACK(SUBACK { id: s.id, granted_qos })));
    proof {
        assert(subs.take(i as int) =~= subs);
        assert(subs.skip(i as int) =~= seq![]);
        assert(actions_view(actions@) =~= before + seq![
            ActionView::Send(ResponseView::Suback { id: s.id, granted_qos: granted(subs.len()) }),
        ]);
    }
    (State::Connected(c, session), actions)
}

fn unsubscribe_topics(c: CONNECT, session: Session, u: UNSUBSCRIBE) -> (r: (State, Vec<Action>))
    requires
        session.wf(),
    ensures
        state_wf(&r.0),
        forall|store: StoreView| #[trigger] on_unsubscribe(c@, session@, u@, store).state == r.0@
            && on_unsubscribe(c@, session@, u@, store).actions == actions_view(r.1@),
{
    let mut session = session;
    let ghost start = session@;
    let ghost topics = u@.topics;
    let mut actions: Vec<Action> = Vec::new();
    let mut i: usize = 0;
    assert(topics.skip(0) =~= topics);
    while i < u.topics.len()
        invariant
            i <= u.topics@.len(),
            topics == u@.topics,
            topics.len() == u.topics@.len(),
            session.wf(),
            remove_all(session@, topics.skip(i as int)) == remove_all(start, topics),
            actions_view(actions@) == unsubscribe_actions(topics.take(i as int)),
        decreases u.topics@.len() - i,
    {
        let topic = u.topics[i].clone();
        proof {
            assert(topics[i as int] == topic@);
            assert(topics.skip(i as int)[0] == topics[i as int]);
            assert(topics.skip(i as int).drop_first() =~= topics.skip(i + 1));
        }
        session.remove(&topic);
        let ghost before = actions_view(actions@);
        actions.push(Action::Unsubscribe(topic));
        proof {
            assert(actions_view(actions@) =~= before.push(ActionView::Unsubscribe(topics[i as int])));
            assert(unsubscribe_actions(topics.take(i + 1)) =~= unsubscribe_actions(
                topics.take(i as int),
            ).push(ActionView::Unsubscribe(topics[i as int])));
        }
        i = i + 1;
    }
    let ghost before = actions_view(actions@);
    actions.push(Action::Send(Response::UNSUBACK(UNSUBACK { id: u.id })));
    proof {
        assert(topics.take(i as int) =~= topics);
        assert(topics.skip(i as int) =~= seq![]);
        assert(actions_view(actions@) =~= before + seq![
            ActionView::Send(ResponseView::Unsuback { id: u.id }),
        ]);
    }
    (State::Connected(c, session), actions)
}

fn persist_session(c: &CONNECT, session: Session, store: &mut SessionManager)
    requires
        old(store).wf(),
        session.wf(),
    ensures
        final(store).wf(),
        final(store).spec_capacity() == old(store).spec_capacity(),
        final(store)@ == persist(old(store)@, old(store).spec_capacity(), c@, session@),
{
    if !c.clean_session {
        store.put(c.client_id.as_str(), session);
    }
}

fn end_ungracefully(c: CONNECT, session: Session, store: &mut SessionManager) -> (r: (State, Vec<Action>))
    requires
        old(store).wf(),
        session.wf(),
    ensures
        final(store).wf(),
        state_wf(&r.0),
        final(store).spec_capacity() == old(store).spec_capacity(),
        made(&r.0, final(store), r.1@) == on_lost(
            StateView::Connected { connect: c@, session: session@ },
            old(store)@,
            old(store).spec_capacity(),
        ),
{
    let mut actions: Vec<Action> = Vec::new();
    match &c.will {
        Some(w) => match will_message(w) {
            Some(p) => actions.push(Action::Dispatch(p)),
            None => {},
        },
        None => {},
    }
    let ghost before = actions_view(actions@);
    assert(before =~= will_actions(c@));
    actions.push(Action::Release(c.client_id.clone()));
    actions.push(Action::Close);
    assert(actions_view(actions@) =~= before + seq![
        ActionView::Release(c@.client_id),
        ActionView::Close,
    ]);
    persist_session(&c, session, store);
    (State::Cleaning, actions)
}

impl Connection {
    pub open spec fn wf(&self) -> bool {
        match self@ {
            StateView::Connected { session, .. } => unique_topics(session),
            _ => true,
        }
    }

    /// A connection that has just been accepted.
    pub fn new() -> (r: Connection)
        ensures
            r.wf(),
            r@ == StateView::Established,
    {
        Connection { state: State::Established }
    }

    /// Whether a CONNECT has been accepted and the connection is still live.
    pub fn is_connected(&self) -> (r: bool)
        ensures
            r == (self@ is Connected),
    {
        match self.state {
            State::Connected(..) => true,
            _ => false,
        }
    }

    /// Whether `message`, which a topic's receiver yielded, is to be written
    /// to this connection.
    pub fn deliver(&self, message: &PUBLISH) -> (r: bool)
        requires
            self.wf(),
        ensures
            r == delivers(self@, message@),
    {
        match &self.state {
            State::Connected(_, session) => session.contains(&message.topic),
            _ => false,
        }
    }

    /// How long the client may stay silent before the connection counts as
    /// lost, in milliseconds.
    pub fn idle_timeout(&self) -> (r: Option<u64>)
        ensures
            r == idle_limit(self@),
    {
        match &self.state {
            State::Connected(c, _) => if c.keep_alive == 0 {
                None
            } else {
                Some(c.keep_alive as u64 * 1500)
            },
            _ => None,
        }
    }

    /// Takes one request through the state machine.
    pub fn handle(&mut self, request: Request, store: &mut SessionManager) -> (r: Vec<Action>)
        requires
            old(self).wf(),
            old(store).wf(),
        ensures
            final(self).wf(),
            final(store).wf(),
            final(store).spec_capacity() == old(store).spec_capacity(),
            final(self)@ == on_request(old(self)@, old(store)@, old(store).spec_capacity(), request@).state,
            final(store)@ == on_request(old(self)@, old(store)@, old(store).spec_capacity(), request@).store,
            actions_view(r@) == on_request(old(self)@, old(store)@, old(store).spec_capacity(), request@).actions,
    {
        let mut state = State::Cleaning;
        std::mem::swap(&mut self.state, &mut state);
        let ghost store0 = store@;
        let (next, actions) = match state {
            State::Established => match request {
                Request::CONNECT(c) => accept_connect(c, store),
                _ => {
                    let actions = vec![Action::Close];
                    assert(actions_view(actions@) =~= seq![ActionView::Close]);
                    (State::Cleaning, actions)
                },
            },
            State::Connected(c, session) => match request {
                Request::SUBSCRIBE(s) => subscribe_topics(c, session, s),
                Request::UNSUBSCRIBE(u) => unsubscribe_topics(c, session, u),
                Request::PUBLISH(p) => {
                    let actions = vec![Action::Dispatch(p)];
                    assert(actions_view(actions@) =~= seq![ActionView::Dispatch(p@)]);
                    (State::Connected(c, session), actions)
                },
                Request::PINGREQ(_) => {
                    let actions = vec![Action::Send(Response::PINGRESP(PINGRESP {}))];
                    assert(actions_view(actions@) =~= seq![
                        ActionView::Send(ResponseView::Pingresp),
                    ]);
                    (State::Connected(c, session), actions)
                },
                Request::DISCONNECT(_) => {
                    persist_session(&c, session, store);
                    let actions = vec![Action::Release(c.client_id.clone()), Action::Close];
                    assert(actions_view(actions@) =~= seq![
                        ActionView::Release(c@.client_id),
                        ActionView::Close,
                    ]);
                    (State::Disconnected, actions)
                },
                Request::CONNECT(_) => end_ungracefully(c, session, store),
            },
            other => {
                let actions = vec![Action::Close];
                assert(actions_view(actions@) =~= seq![ActionView::Close]);
                (other, actions)
            },
        };
        self.state = next;
        actions
    }

    /// The connection ended without a DISCONNECT: the peer went away, the
    /// transport failed, a frame could not be read, or the client stayed
    /// silent too long.
    pub fn lost(&mut self, store: &mut SessionManager) -> (r: Vec<Action>)
        requires
            old(self).wf(),
            old(store).wf(),
        ensures
            final(self).wf(),
            final(store).wf(),
            final(store).spec_capacity() == old(store).spec_capacity(),
            final(self)@ == on_lost(old(self)@, old(store)@, old(store).spec_capacity()).state,
            final(store)@ == on_lost(old(self)@, old(store)@, old(store).spec_capacity()).store,
            actions_view(r@) == on_lost(old(self)@, old(store)@, old(store).spec_capacity()).actions,
    {
        let mut state = State::Cleaning;
        std::mem::swap(&mut self.state, &mut state);
        let (next, actions) = match state {
            State::Connected(c, session) => end_ungracefully(c, session, store),
            State::Established => {
                let actions = vec![Action::Close];
                assert(actions_view(actions@) =~= seq![ActionView::Close]);
                (State::Cleaning, actions)
            },
            other => {
                let actions = vec![Action::Close];
                assert(actions_view(actions@) =~= seq![ActionView::Close]);
                (other, actions)
            },
        };
        self.state = next;
        actions
    }

    /// The broker shuts down: a connected client ends as if it had sent a
    /// DISCONNECT.
    pub fn shutdown(&mut self, store: &mut SessionManager) -> (r: Vec<Action>)
        requires
            old(self).wf(),
            old(store).wf(),
        ensures
            final(self).wf(),
            final(store).wf(),
            final(store).spec_capacity() == old(store).spec_capacity(),
            final(self)@ == on_disconnect(old(self)@, old(store)@, old(store).spec_capacity()).state,
            final(store)@ == on_disconnect(old(self)@, old(store)@, old(store).spec_capacity()).store,
            actions_view(r@) == on_disconnect(old(self)@, old(store)@, old(store).spec_capacity()).actions,
    {
        if self.is_connected() {
            self.handle(Request::DISCONNECT(crate::request::DISCONNECT {}), store)
        } else {
            self.lost(store)
        }
    }
}

} // verus!
