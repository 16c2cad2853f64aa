//! Per-client sessions and the bounded store that keeps them across
//! connections.
use vstd::prelude::*;

use crate::qos::Qos;

verus! {

/// A subscription of a session; two are the same subscription when their
/// topics are equal, whatever their levels.
#[derive(Debug)]
pub struct DesignatedSubscription {
    pub topic: String,
    pub qos: Qos,
}

impl PartialEq for DesignatedSubscription {
    fn eq(&self, other: &DesignatedSubscription) -> (r: bool) {
        self.topic == other.topic
    }
}

impl vstd::std_specs::cmp::PartialEqSpecImpl for DesignatedSubscription {
    open spec fn obeys_eq_spec() -> bool {
        true
    }

    open spec fn eq_spec(&self, other: &DesignatedSubscription) -> bool {
        self.topic@ == other.topic@
    }
}

impl From<(String, Qos)> for DesignatedSubscription {
    fn from(subscription: (String, Qos)) -> (r: DesignatedSubscription) {
        DesignatedSubscription { topic: subscription.0, qos: subscription.1 }
    }
}

impl vstd::std_specs::convert::FromSpecImpl<(String, Qos)> for DesignatedSubscription {
    open spec fn obeys_from_spec() -> bool {
        true
    }

    open spec fn from_spec(subscription: (String, Qos)) -> DesignatedSubscription {
        DesignatedSubscription { topic: subscription.0, qos: subscription.1 }
    }
}

/// The subscriptions of a session, as (topic, level) pairs.
pub type SubscriptionsView = Seq<(Seq<char>, Qos)>;

pub open spec fn has_topic(s: SubscriptionsView, t: Seq<char>) -> bool {
    exists|i: int| 0 <= i < s.len() && s[i].0 == t
}

/// Where topic `t` stands in `s`.
pub open spec fn topic_index(s: SubscriptionsView, t: Seq<char>) -> int {
    choose|i: int| 0 <= i < s.len() && s[i].0 == t
}

pub open spec fn unique_topics(s: SubscriptionsView) -> bool {
    forall|i: int, j: int| 0 <= i < j < s.len() ==> s[i].0 != s[j].0
}

/// The topics of a set of subscriptions.
pub open spec fn topic_set(s: SubscriptionsView) -> Set<Seq<char>> {
    Set::new(|t: Seq<char>| has_topic(s, t))
}

/// Subscribing to `t` at `q`: a topic already there keeps its place and takes
/// the new level; a new one goes last.
pub open spec fn spec_insert(s: SubscriptionsView, t: Seq<char>, q: Qos) -> SubscriptionsView {
    if has_topic(s, t) {
        s.update(topic_index(s, t), (t, q))
    } else {
        s.push((t, q))
    }
}

pub open spec fn spec_remove(s: SubscriptionsView, t: Seq<char>) -> SubscriptionsView {
    if has_topic(s, t) {
        s.remove(topic_index(s, t))
    } else {
        s
    }
}

proof fn lemma_index_unique(s: SubscriptionsView, t: Seq<char>, i: int)
    requires
        unique_topics(s),
        0 <= i < s.len(),
        s[i].0 == t,
    ensures
        has_topic(s, t),
        topic_index(s, t) == i,
{
    assert(has_topic(s, t));
}

/// The subscriptions that a client has made, one per topic.
#[derive(Debug)]
pub struct Session {
    subscriptions: Vec<DesignatedSubscription>,
}

impl View for Session {
    type V = SubscriptionsView;

    closed spec fn view(&self) -> SubscriptionsView {
        self.subscriptions@.map_values(|d: DesignatedSubscription| (d.topic@, d.qos))
    }
}

impl Session {
    pub open spec fn wf(&self) -> bool {
        unique_topics(self@)
    }

    pub fn new() -> (r: Session)
        ensures
            r@ == Seq::<(Seq<char>, Qos)>::empty(),
            r.wf(),
    {
        let r = Session { subscriptions: Vec::new() };
        assert(r@ =~= Seq::<(Seq<char>, Qos)>::empty());
        r
    }

    pub fn len(&self) -> (r: usize)
        ensures
            r == self@.len(),
    {
        self.subscriptions.len()
    }

    /// Where `topic` stands, if it is subscribed.
    fn find(&self, topic: &String) -> (r: Option<usize>)
        requires
            self.wf(),
        ensures
            match r {
                Some(i) => has_topic(self@, topic@) && i == topic_index(self@, topic@) && i
                    < self@.len(),
                None => !has_topic(self@, topic@),
            },
    {
        let mut i: usize = 0;
        while i < self.subscriptions.len()
            invariant
                i <= self@.len(),
                self.wf(),
                self@.len() == self.subscriptions@.len(),
                forall|j: int| 0 <= j < i ==> self@[j].0 != topic@,
            decreases self@.len() - i,
        {
            if self.subscriptions[i].topic == *topic {
                proof {
                    lemma_index_unique(self@, topic@, i as int);
                }
                return Some(i);
            }
            i = i + 1;
        }
        None
    }

    /// Records a subscription; a topic already there takes the new level.
    pub fn insert(&mut self, subscription: DesignatedSubscription)
        requires
            old(self).wf(),
        ensures
            final(self).wf(),
            final(self)@ == spec_insert(old(self)@, subscription.topic@, subscription.qos),
    {
        let ghost entry = (subscription.topic@, subscription.qos);
        match self.find(&subscription.topic) {
            Some(i) => {
                self.subscriptions.set(i, subscription);
                proof {
                    assert(self@ =~= old(self)@.update(i as int, entry));
                }
            },
            None => {
                self.subscriptions.push(subscription);
                proof {
                    assert(self@ =~= old(self)@.push(entry));
                }
            },
        }
    }

    /// Drops the subscription to `topic`, if there is one.
    pub fn remove(&mut self, topic: &String)
        requires
            old(self).wf(),
        ensures
            final(self).wf(),
            final(self)@ == spec_remove(old(self)@, topic@),
    {
        match self.find(topic) {
            Some(i) => {
                self.subscriptions.remove(i);
                proof {
                    assert(self@ =~= old(self)@.remove(i as int));
                }
            },
            None => {},
        }
    }

    /// Whether `topic` is subscribed.
    pub fn contains(&self, topic: &String) -> (r: bool)
        requires
            self.wf(),
        ensures
            r == has_topic(self@, topic@),
    {
        self.find(topic).is_some()
    }

    /// The topic of the subscription at `i`.
    pub fn topic(&self, i: usize) -> (r: String)
        requires
            i < self@.len(),
        ensures
            r@ == self@[i as int].0,
    {
        self.subscriptions[i].topic.clone()
    }

    /// The level of the subscription at `i`.
    pub fn qos(&self, i: usize) -> (r: Qos)
        requires
            i < self@.len(),
        ensures
            r == self@[i as int].1,
    {
        self.subscriptions[i].qos
    }

    /// A copy of this session.
    pub fn duplicate(&self) -> (r: Session)
        ensures
            r@ == self@,
    {
        let mut subscriptions: Vec<DesignatedSubscription> = Vec::new();
        let mut i: usize = 0;
        while i < self.subscriptions.len()
            invariant
                i <= self.subscriptions@.len(),
                subscriptions@.map_values(|d: DesignatedSubscription| (d.topic@, d.qos))
                    =~= self@.take(i as int),
            decreases self.subscriptions@.len() - i,
        {
            let d = &self.subscriptions[i];
            let ghost before = subscriptions@.map_values(
                |d: DesignatedSubscription| (d.topic@, d.qos),
            );
            subscriptions.push(DesignatedSubscription { topic: d.topic.clone(), qos: d.qos });
            proof {
                assert(subscriptions@.map_values(|d: DesignatedSubscription| (d.topic@, d.qos))
                    =~= before.push(self@[i as int]));
                assert(self@.take(i + 1) =~= self@.take(i as int).push(self@[i as int]));
            }
            i = i + 1;
        }
        let r = Session { subscriptions };
        assert(self@.take(i as int) =~= self@);
        r
    }
}

impl Default for Session {
    fn default() -> (r: Session)
        ensures
            r@ == Seq::<(Seq<char>, Qos)>::empty(),
    {
        Session::new()
    }
}

/// The stored sessions by client identifier, least recently used first.
pub type StoreView = Seq<(Seq<char>, SubscriptionsView)>;

pub open spec fn has_client(v: StoreView, id: Seq<char>) -> bool {
    exists|i: int| 0 <= i < v.len() && v[i].0 == id
}

pub open spec fn client_index(v: StoreView, id: Seq<char>) -> int {
    choose|i: int| 0 <= i < v.len() && v[i].0 == id
}

pub open spec fn session_of(v: StoreView, id: Seq<char>) -> SubscriptionsView {
    v[client_index(v, id)].1
}

pub open spec fn unique_clients(v: StoreView) -> bool {
    forall|i: int, j: int| 0 <= i < j < v.len() ==> v[i].0 != v[j].0
}

/// Removes the session of `id`, if there is one.
pub open spec fn spec_evict(v: StoreView, id: Seq<char>) -> StoreView {
    if has_client(v, id) {
        v.remove(client_index(v, id))
    } else {
        v
    }
}

/// Stores `s` as the most recently used session of `id`, replacing an older
/// one; where the store is full and `id` is new, the least recently used
/// session leaves. A store of capacity zero keeps nothing.
pub open spec fn spec_put(v: StoreView, id: Seq<char>, s: SubscriptionsView, capacity: nat) -> StoreView {
    if capacity == 0 {
        v
    } else if has_client(v, id) {
        spec_evict(v, id).push((id, s))
    } else if v.len() >= capacity {
        v.drop_first().push((id, s))
    } else {
        v.push((id, s))
    }
}

proof fn lemma_client_unique(v: StoreView, id: Seq<char>, i: int)
    requires
        unique_clients(v),
        0 <= i < v.len(),
        v[i].0 == id,
    ensures
        has_client(v, id),
        client_index(v, id) == i,
{
    assert(has_client(v, id));
}

/// A well-formed store: one session per client, no more than `capacity`,
/// and one subscription per topic in each.
pub open spec fn store_wf(v: StoreView, capacity: nat) -> bool {
    &&& unique_clients(v)
    &&& v.len() <= capacity
    &&& forall|i: int| 0 <= i < v.len() ==> unique_topics(#[trigger] v[i].1)
}

spec fn entries_wf(entries: Seq<(String, Session)>, capacity: nat) -> bool {
    store_wf(entries.map_values(|e: (String, Session)| (e.0@, e.1@)), capacity)
}

proof fn lemma_remove_client(v: StoreView, k: int)
    requires
        unique_clients(v),
        0 <= k < v.len(),
    ensures
        unique_clients(v.remove(k)),
        !has_client(v.remove(k), v[k].0),
        forall|u: Seq<char>| #![trigger has_client(v.remove(k), u)] u != v[k].0 ==> has_client(v.remove(k), u) == has_client(v, u)
            && (has_client(v, u) ==> session_of(v.remove(k), u) == session_of(v, u)),
{
    let w = v.remove(k);
    assert forall|a: int, b: int| 0 <= a < b < w.len() implies w[a].0 != w[b].0 by {
        let a2 = if a < k { a } else { a + 1 };
        let b2 = if b < k { b } else { b + 1 };
        assert(v[a2].0 != v[b2].0);
    }
    if has_client(w, v[k].0) {
        let j = choose|j: int| 0 <= j < w.len() && w[j].0 == v[k].0;
        let j2 = if j < k { j } else { j + 1 };
        assert(v[j2].0 == v[k].0);
    }
    assert forall|u: Seq<char>| u != v[k].0 implies has_client(w, u) == has_client(v, u) && (
    has_client(v, u) ==> session_of(w, u) == session_of(v, u)) by {
        if has_client(v, u) {
            let j = choose|j: int| 0 <= j < v.len() && v[j].0 == u;
            lemma_client_unique(v, u, j);
            let j2 = if j < k { j } else { j - 1 };
            assert(w[j2] == v[j]);
            lemma_client_unique(w, u, j2);
        }
        if has_client(w, u) {
            let j = choose|j: int| 0 <= j < w.len() && w[j].0 == u;
            let j2 = if j < k { j } else { j + 1 };
            assert(v[j2].0 == u);
        }
    }
}

/// Adding a client that the store does not hold makes it hold exactly that
/// session for it, and changes nothing for the others.
pub proof fn lemma_push_client(v: StoreView, id: Seq<char>, s: SubscriptionsView)
    requires
        unique_clients(v),
        !has_client(v, id),
    ensures
        unique_clients(v.push((id, s))),
        has_client(v.push((id, s)), id),
        session_of(v.push((id, s)), id) == s,
        forall|u: Seq<char>| #![trigger has_client(v.push((id, s)), u)] u != id ==> has_client(v.push((id, s)), u) == has_client(v, u)
            && (has_client(v, u) ==> session_of(v.push((id, s)), u) == session_of(v, u)),
{
    let w = v.push((id, s));
    assert forall|a: int, b: int| 0 <= a < b < w.len() implies w[a].0 != w[b].0 by {
        if b == v.len() {
            assert(w[a] == v[a]);
        }
    }
    lemma_client_unique(w, id, v.len() as int);
    assert forall|u: Seq<char>| u != id implies has_client(w, u) == has_client(v, u) && (
    has_client(v, u) ==> session_of(w, u) == session_of(v, u)) by {
        if has_client(v, u) {
            let j = choose|j: int| 0 <= j < v.len() && v[j].0 == u;
            lemma_client_unique(v, u, j);
            assert(w[j] == v[j]);
            lemma_client_unique(w, u, j);
        }
        if has_client(w, u) {
            let j = choose|j: int| 0 <= j < w.len() && w[j].0 == u;
            assert(j < v.len());
            assert(v[j].0 == u);
        }
    }
}

/// After evicting a client, the store holds no session for it, and every
/// other client keeps the session it had.
pub proof fn lemma_evict(v: StoreView, id: Seq<char>)
    requires
        unique_clients(v),
    ensures
        unique_clients(spec_evict(v, id)),
        !has_client(spec_evict(v, id), id),
        forall|u: Seq<char>| #![trigger has_client(spec_evict(v, id), u)] u != id ==> has_client(spec_evict(v, id), u) == has_client(v, u)
            && (has_client(v, u) ==> session_of(spec_evict(v, id), u) == session_of(v, u)),
{
    if has_client(v, id) {
        let k = client_index(v, id);
        lemma_remove_client(v, k);
    }
}

/// After a put into a store of positive capacity, the client's session is the
/// one put. Every other client keeps its session, except that a full store
/// that did not hold the client drops its least recently used one.
pub proof fn lemma_put(v: StoreView, id: Seq<char>, s: SubscriptionsView, capacity: nat)
    requires
        unique_clients(v),
        capacity > 0,
    ensures
        unique_clients(spec_put(v, id, s, capacity)),
        has_client(spec_put(v, id, s, capacity), id),
        session_of(spec_put(v, id, s, capacity), id) == s,
        forall|u: Seq<char>| #![trigger has_client(spec_put(v, id, s, capacity), u)]
            u != id ==> (has_client(spec_put(v, id, s, capacity), u) ==> has_client(v, u)
                && session_of(spec_put(v, id, s, capacity), u) == session_of(v, u)),
        forall|u: Seq<char>| #![trigger has_client(spec_put(v, id, s, capacity), u)]
            u != id && has_client(v, u) && !(!has_client(v, id) && v.len() >= capacity && u
                == v[0].0) ==> has_client(spec_put(v, id, s, capacity), u),
{
    if has_client(v, id) {
        lemma_evict(v, id);
        lemma_push_client(spec_evict(v, id), id, s);
    } else if v.len() >= capacity {
        lemma_remove_client(v, 0);
        assert(v.drop_first() =~= v.remove(0));
        lemma_push_client(v.remove(0), id, s);
    } else {
        lemma_push_client(v, id, s);
    }
}

/// The session store: a bounded map from client identifier to session that
/// drops its least recently used entry when full.
pub struct SessionManager {
    sessions: Vec<(String, Session)>,
    capacity: usize,
}

impl View for SessionManager {
    type V = StoreView;

    closed spec fn view(&self) -> StoreView {
        self.sessions@.map_values(|e: (String, Session)| (e.0@, e.1@))
    }
}

impl SessionManager {
    pub closed spec fn spec_capacity(&self) -> nat {
        self.capacity as nat
    }

    pub open spec fn wf(&self) -> bool {
        store_wf(self@, self.spec_capacity())
    }

    /// An empty store that holds at most `size` sessions.
    pub fn new(size: usize) -> (r: SessionManager)
        ensures
            r.wf(),
            r@ == StoreView::empty(),
            r.spec_capacity() == size,
    {
        let r = SessionManager { sessions: Vec::new(), capacity: size };
        assert(r@ =~= StoreView::empty());
        r
    }

    pub fn capacity(&self) -> (r: usize)
        ensures
            r == self.spec_capacity(),
    {
        self.capacity
    }

    fn find(&self, client_id: &String) -> (r: Option<usize>)
        requires
            self.wf(),
        ensures
            match r {
                Some(i) => has_client(self@, client_id@) && i == client_index(self@, client_id@)
                    && i < self@.len(),
                None => !has_client(self@, client_id@),
            },
    {
        let mut i: usize = 0;
        while i < self.sessions.len()
            invariant
                i <= self@.len(),
                self.wf(),
                self@.len() == self.sessions@.len(),
                forall|j: int| 0 <= j < i ==> self@[j].0 != client_id@,
            decreases self@.len() - i,
        {
            if self.sessions[i].0 == *client_id {
                proof {
                    lemma_client_unique(self@, client_id@, i as int);
                }
                return Some(i);
            }
            i = i + 1;
        }
        None
    }

    /// The stored session of `client_id`.
    pub fn get(&self, client_id: &str) -> (r: Option<&Session>)
        requires
            self.wf(),
        ensures
            match r {
                Some(s) => has_client(self@, client_id@) && s@ == session_of(self@, client_id@)
                    && s.wf(),
                None => !has_client(self@, client_id@),
            },
    {
        let key = client_id.to_owned();
        match self.find(&key) {
            Some(i) => {
                assert(self@[i as int].1 == self.sessions@[i as int].1@);
                Some(&self.sessions[i].1)
            },
            None => None,
        }
    }

    /// The stored session of `client_id`, to change in place; it becomes the
    /// most recently used one.
    pub fn get_mut(&mut self, client_id: &str) -> (r: Option<&mut Session>)
        requires
            old(self).wf(),
        ensures
            r is Some == has_client(old(self)@, client_id@),
            r matches Some(s) ==> s@ == session_of(old(self)@, client_id@) && s.wf(),
            r matches Some(s) ==> final(self)@ == spec_evict(old(self)@, client_id@).push(
                (client_id@, final(s)@),
            ),
            r matches Some(s) ==> (final(s).wf() ==> final(self).wf()),
            r is None ==> *final(self) == *old(self),
            final(self).spec_capacity() == old(self).spec_capacity(),
    {
        let key = client_id.to_owned();
        match self.find(&key) {
            Some(i) => {
                assert(old(self)@[i as int].1 == self.sessions@[i as int].1@);
                let entry = self.sessions.remove(i);
                assert(entry.1@ == session_of(old(self)@, client_id@));
                let ghost mid = self.sessions@;
                let ghost id = entry.0;
                proof {
                    assert(mid.map_values(|e: (String, Session)| (e.0@, e.1@)) =~= spec_evict(
                        old(self)@,
                        client_id@,
                    ));
                    assert forall|x: Session|
                        (#[trigger] mid.push((id, x))).map_values(|e: (String, Session)| (e.0@, e.1@))
                            == spec_evict(old(self)@, client_id@).push((client_id@, x@)) by {
                        assert(mid.push((id, x)).map_values(|e: (String, Session)| (e.0@, e.1@))
                            =~= spec_evict(old(self)@, client_id@).push((client_id@, x@)));
                    }
                    assert forall|x: Session| x.wf() implies entries_wf(
                        #[trigger] mid.push((id, x)),
                        self.capacity as nat,
                    ) by {
                        let v = mid.push((id, x)).map_values(|e: (String, Session)| (e.0@, e.1@));
                        assert(v =~= spec_evict(old(self)@, client_id@).push((client_id@, x@)));
                        assert forall|a: int, b: int| 0 <= a < b < v.len() implies v[a].0
                            != v[b].0 by {
                            if b == v.len() - 1 {
                                if a < i {
                                    assert(old(self)@[a].0 != old(self)@[i as int].0);
                                } else {
                                    assert(old(self)@[a + 1].0 != old(self)@[i as int].0);
                                }
                            } else {
                                let a2 = if a < i { a } else { a + 1 };
                                let b2 = if b < i { b } else { b + 1 };
                                assert(old(self)@[a2].0 != old(self)@[b2].0);
                            }
                        }
                        assert forall|k: int| 0 <= k < v.len() implies unique_topics(
                            #[trigger] v[k].1,
                        ) by {
                            if k < v.len() - 1 {
                                let k2 = if k < i { k } else { k + 1 };
                                assert(v[k] == old(self)@[k2]);
                            }
                        }
                    }
                }
                self.sessions.push(entry);
                let last = self.sessions.len() - 1;
                proof {
                    let cur = self.sessions@;
                    assert forall|x: Session| #[trigger] cur.update(last as int, (cur[last as int].0, x))
                        == mid.push((id, x)) by {
                        assert(cur.update(last as int, (cur[last as int].0, x)) =~= mid.push((id, x)));
                    }
                }
                Some(&mut self.sessions[last].1)
            },
            None => None,
        }
    }

    /// Whether a session of `client_id` is stored.
    pub fn contains(&self, client_id: &str) -> (r: bool)
        requires
            self.wf(),
        ensures
            r == has_client(self@, client_id@),
    {
        let key = client_id.to_owned();
        self.find(&key).is_some()
    }

    /// Stores `session` for `client_id` as the most recently used one.
    pub fn put(&mut self, client_id: &str, session: Session)
        requires
            old(self).wf(),
            session.wf(),
        ensures
            final(self).wf(),
            final(self)@ == spec_put(old(self)@, client_id@, session@, old(self).spec_capacity()),
            final(self).spec_capacity() == old(self).spec_capacity(),
            old(self).spec_capacity() > 0 ==> has_client(final(self)@, client_id@) && session_of(
                final(self)@,
                client_id@,
            ) == session@,
    {
        proof {
            if self.capacity > 0 {
                lemma_put(self@, client_id@, session@, self.capacity as nat);
            }
        }
        if self.capacity == 0 {
            return;
        }
        let key = client_id.to_owned();
        let ghost entry = (client_id@, session@);
        match self.find(&key) {
            Some(i) => {
                self.sessions.remove(i);
                proof {
                    assert(self@ =~= old(self)@.remove(i as int));
                }
            },
            None => {
                if self.sessions.len() >= self.capacity {
                    self.sessions.remove(0);
                    proof {
                        assert(self@ =~= old(self)@.drop_first());
                    }
                }
            },
        }
        let ghost mid = self@;
        self.sessions.push((key, session));
        proof {
            assert(self@ =~= mid.push(entry));
            assert forall|i: int, j: int| 0 <= i < j < self@.len() implies self@[i].0
                != self@[j].0 by {
                if j == self@.len() - 1 && self@[i].0 == self@[j].0 {
                    assert(has_client(old(self)@, client_id@)) by {
                        let k = if has_client(old(self)@, client_id@) {
                            0int
                        } else if old(self)@.len() >= self.capacity {
                            i + 1
                        } else {
                            i
                        };
                        assert(old(self)@[k].0 == client_id@);
                    }
                }
            }
        }
    }

    /// Removes the session of `client_id`, if one is stored.
    pub fn evict(&mut self, client_id: &str)
        requires
            old(self).wf(),
        ensures
            final(self).wf(),
            final(self)@ == spec_evict(old(self)@, client_id@),
            final(self).spec_capacity() == old(self).spec_capacity(),
            !has_client(final(self)@, client_id@),
    {
        proof {
            lemma_evict(self@, client_id@);
        }
        let key = client_id.to_owned();
        match self.find(&key) {
            Some(i) => {
                self.sessions.remove(i);
                proof {
                    assert(self@ =~= old(self)@.remove(i as int));
                }
            },
            None => {},
        }
    }
}

} // verus!
