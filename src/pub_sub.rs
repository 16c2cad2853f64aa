//! The publisher registry: one bounded broadcast channel per topic, created
//! when the topic gets its first subscriber.
use std::sync::Arc;

use tokio::sync::broadcast;
use vstd::prelude::*;

use crate::request::PUBLISH;

verus! {

#[verifier::external_type_specification]
#[verifier::external_body]
#[verifier::reject_recursive_types(T)]
pub struct ExSender<T>(broadcast::Sender<T>);

#[verifier::external_type_specification]
#[verifier::external_body]
#[verifier::reject_recursive_types(T)]
pub struct ExReceiver<T>(broadcast::Receiver<T>);

/// The sending half of a topic's channel.
pub type Publisher = broadcast::Sender<Arc<PUBLISH>>;

/// A subscriber's own read cursor on a topic's channel.
pub type Subscriber = broadcast::Receiver<Arc<PUBLISH>>;

/// How many messages a topic's channel holds before slow receivers lag.
pub const CHANNEL_CAPACITY: usize = 1024;

/// Relies on `tokio::sync::broadcast::channel`, which panics on a capacity of
/// zero or above `usize::MAX / 2`.
#[verifier::external_body]
fn open_channel(capacity: usize) -> (Publisher, Subscriber)
    requires
        0 < capacity <= usize::MAX / 2,
{
    broadcast::channel(capacity)
}

/// Relies on `broadcast::Sender::subscribe`: a new receiver that sees what is
/// sent from now on. It panics only when the channel already has
/// `usize::MAX >> 2` receivers, a count that this library does not track.
#[verifier::external_body]
fn new_receiver(publisher: &Publisher) -> Subscriber {
    publisher.subscribe()
}

/// Relies on `broadcast::Sender::send`: it fails when no receiver is left,
/// and otherwise returns how many receivers there are, at least one.
#[verifier::external_body]
fn send_message(publisher: &Publisher, message: Arc<PUBLISH>) -> (r: Option<usize>)
    ensures
        r matches Some(n) ==> n >= 1,
{
    publisher.send(message).ok()
}

/// What became of a dispatched message.
#[derive(Debug, Clone, Copy, PartialEq, Eq, Structural)]
pub enum Dispatch {
    /// The topic has no channel: nobody ever subscribed to it.
    NoChannel,
    /// The message went into the channel, which had this many receivers.
    Delivered(usize),
    /// The channel's receivers have all gone; the message is dropped.
    NoLiveReceiver,
}

impl Dispatch {
    /// What a send into an existing channel came to: the number of receivers
    /// it reached, or `None` when none was left.
    pub fn from_send(sent: Option<usize>) -> (r: Dispatch)
        ensures
            r == match sent {
                Some(n) => Dispatch::Delivered(n),
                None => Dispatch::NoLiveReceiver,
            },
    {
        match sent {
            Some(n) => Dispatch::Delivered(n),
            None => Dispatch::NoLiveReceiver,
        }
    }
}

/// The registered topics, each with its channel.
pub type RegistryView = Seq<(Seq<char>, Publisher)>;

pub open spec fn has_channel(v: RegistryView, t: Seq<char>) -> bool {
    exists|i: int| 0 <= i < v.len() && v[i].0 == t
}

pub open spec fn unique_channels(v: RegistryView) -> bool {
    forall|i: int, j: int| 0 <= i < j < v.len() ==> v[i].0 != v[j].0
}

pub open spec fn channel_index(v: RegistryView, t: Seq<char>) -> int {
    choose|i: int| 0 <= i < v.len() && v[i].0 == t
}

pub struct PublisherManager {
    publishers: Vec<(String, Publisher)>,
}

impl View for PublisherManager {
    type V = RegistryView;

    closed spec fn view(&self) -> RegistryView {
        self.publishers@.map_values(|e: (String, Publisher)| (e.0@, e.1))
    }
}

impl PublisherManager {
    pub open spec fn wf(&self) -> bool {
        unique_channels(self@)
    }

    pub fn new() -> (r: PublisherManager)
        ensures
            r.wf(),
            r@ == RegistryView::empty(),
    {
        let r = PublisherManager { publishers: Vec::new() };
        assert(r@ =~= RegistryView::empty());
        r
    }

    fn find(&self, topic: &String) -> (r: Option<usize>)
        requires
            self.wf(),
        ensures
            match r {
                Some(i) => has_channel(self@, topic@) && i == channel_index(self@, topic@) && i
                    < self@.len(),
                None => !has_channel(self@, topic@),
            },
    {
        let mut i: usize = 0;
        while i < self.publishers.len()
            invariant
                i <= self@.len(),
                self.wf(),
                self@.len() == self.publishers@.len(),
                forall|j: int| 0 <= j < i ==> self@[j].0 != topic@,
            decreases self@.len() - i,
        {
            if self.publishers[i].0 == *topic {
                proof {
                    assert(self@[i as int].0 == topic@);
                    assert(has_channel(self@, topic@));
                }
                return Some(i);
            }
            i = i + 1;
        }
        None
    }

    /// The sending half of the channel of `topic`, if it has one.
    pub fn publisher(&self, topic: &str) -> (r: Option<&Publisher>)
        requires
            self.wf(),
        ensures
            r is None == !has_channel(self@, topic@),
            r matches Some(p) ==> *p == self@[channel_index(self@, topic@)].1,
    {
        let key = topic.to_owned();
        match self.find(&key) {
            Some(i) => {
                assert(self@[i as int].1 == self.publishers@[i as int].1);
                Some(&self.publishers[i].1)
            },
            None => None,
        }
    }

    /// Whether `topic` has a channel.
    pub fn contains(&self, topic: &str) -> (r: bool)
        requires
            self.wf(),
        ensures
            r == has_channel(self@, topic@),
    {
        let key = topic.to_owned();
        self.find(&key).is_some()
    }

    /// Hands `message` to the channel of `topic`, and only to it; a topic
    /// without a channel has no subscriber, so the message goes nowhere.
    pub fn dispatch(&self, topic: &str, message: PUBLISH) -> (r: Dispatch)
        requires
            self.wf(),
        ensures
            (r == Dispatch::NoChannel) == !has_channel(self@, topic@),
            r matches Dispatch::Delivered(n) ==> n >= 1,
    {
        match self.publisher(topic) {
            Some(publisher) => Dispatch::from_send(send_message(publisher, Arc::new(message))),
            None => Dispatch::NoChannel,
        }
    }

    /// A receiver on the channel of `topic`; the channel is created on the
    /// first subscription, and an existing one is kept.
    pub fn subscribe(&mut self, topic: &str) -> (r: Subscriber)
        requires
            old(self).wf(),
        ensures
            final(self).wf(),
            has_channel(final(self)@, topic@),
            has_channel(old(self)@, topic@) ==> final(self)@ == old(self)@,
            !has_channel(old(self)@, topic@) ==> final(self)@.len() == old(self)@.len() + 1
                && final(self)@.take(old(self)@.len() as int) == old(self)@ && final(self)@.last().0
                == topic@,
    {
        if let Some(publisher) = self.publisher(topic) {
            return new_receiver(publisher);
        }
        let (publisher, subscriber) = open_channel(CHANNEL_CAPACITY);
        self.publishers.push((topic.to_owned(), publisher));
        proof {
            assert(self@ =~= old(self)@.push((topic@, publisher)));
            assert(self@.take(old(self)@.len() as int) =~= old(self)@);
            assert(self@[old(self)@.len() as int].0 == topic@);
            assert forall|a: int, b: int| 0 <= a < b < self@.len() implies self@[a].0 != self@[b].0 by {
                if b == old(self)@.len() {
                    assert(old(self)@[a].0 != topic@);
                }
            }
        }
        subscriber
    }

    /// Drops the channel of `topic`; its receivers then see it close.
    pub fn remove(&mut self, topic: &str)
        requires
            old(self).wf(),
        ensures
            final(self).wf(),
            !has_channel(old(self)@, topic@) ==> final(self)@ == old(self)@,
            has_channel(old(self)@, topic@) ==> final(self)@ == old(self)@.remove(
                channel_index(old(self)@, topic@),
            ),
            !has_channel(final(self)@, topic@),
    {
        let key = topic.to_owned();
        match self.find(&key) {
            Some(i) => {
                self.publishers.remove(i);
                proof {
                    assert(self@ =~= old(self)@.remove(i as int));
                    if has_channel(self@, topic@) {
                        let k = choose|k: int| 0 <= k < self@.len() && self@[k].0 == topic@;
                        if k < i {
                            assert(old(self)@[k].0 == topic@);
                        } else {
                            assert(old(self)@[k + 1].0 == topic@);
                        }
                    }
                }
            },
            None => {},
        }
    }
}

} // verus!
