//! Control packets that clients send, and how each is read from its frame.
use vstd::prelude::*;
use vstd::utf8::{decode_utf8, valid_utf8};

use crate::qos::{qos_of, Qos};
use crate::wire::{
    field_at, length_field, read_field, read_length_field, read_u16, u16_at, LengthField,
};

verus! {

/// The text field in which invalid UTF-8 was found.
#[derive(Debug, Clone, Copy, PartialEq, Eq, Structural)]
pub enum TextType {
    ClientId,
    WillTopic,
    Username,
    Topic,
}

/// Why a frame could not be read.
#[derive(Debug, Clone, Copy, PartialEq, Eq, Structural)]
pub enum Error {
    /// The bytes break the MQTT 3.1.1 wire format.
    MalformedRequest,
    /// A text field is not valid UTF-8.
    NonUTF8Text(TextType),
    /// The Remaining Length field would reach 128^4.
    FrameTooLarge,
}

pub const USERNAME_FLAG: u8 = 0x80;
pub const PASSWORD_FLAG: u8 = 0x40;
pub const WILL_RETAIN_FLAG: u8 = 0x20;
pub const WILL_FLAG: u8 = 0x04;
pub const CLEAN_SESSION_FLAG: u8 = 0x02;

/// A message that the broker publishes for a client that goes away ungracefully.
#[derive(Debug, PartialEq)]
pub struct Will {
    pub qos: Qos,
    pub retain: bool,
    pub topic: String,
    pub payload: Vec<u8>,
}

#[derive(Debug, PartialEq)]
pub struct CONNECT {
    pub protocol_version: u8,
    pub clean_session: bool,
    pub keep_alive: u16,
    pub client_id: String,
    pub will: Option<Will>,
    pub username: Option<String>,
    pub password: Option<Vec<u8>>,
}

#[derive(Debug, PartialEq)]
pub struct SUBSCRIBE {
    pub id: u16,
    pub subscriptions: Vec<(String, Qos)>,
}

#[derive(Debug, PartialEq)]
pub struct UNSUBSCRIBE {
    pub id: u16,
    pub topics: Vec<String>,
}

#[derive(Debug, PartialEq)]
pub struct PUBLISH {
    pub dup: bool,
    pub qos: Qos,
    pub retain: bool,
    pub topic: String,
    pub id: Option<u16>,
    pub payload: Vec<u8>,
    /// The whole frame as it arrived, so that it can be forwarded as it is.
    pub raw: Vec<u8>,
}

#[derive(Debug, PartialEq)]
pub struct PINGREQ {}

#[derive(Debug, PartialEq)]
pub struct DISCONNECT {}

#[derive(Debug, PartialEq)]
pub enum Request {
    CONNECT(CONNECT),
    SUBSCRIBE(SUBSCRIBE),
    UNSUBSCRIBE(UNSUBSCRIBE),
    PUBLISH(PUBLISH),
    PINGREQ(PINGREQ),
    DISCONNECT(DISCONNECT),
}

pub struct WillView {
    pub qos: Qos,
    pub retain: bool,
    pub topic: Seq<char>,
    pub payload: Seq<u8>,
}

pub struct ConnectView {
    pub protocol_version: u8,
    pub clean_session: bool,
    pub keep_alive: u16,
    pub client_id: Seq<char>,
    pub will: Option<WillView>,
    pub username: Option<Seq<char>>,
    pub password: Option<Seq<u8>>,
}

pub struct SubscribeView {
    pub id: u16,
    pub subscriptions: Seq<(Seq<char>, Qos)>,
}

pub struct UnsubscribeView {
    pub id: u16,
    pub topics: Seq<Seq<char>>,
}

pub struct PublishView {
    pub dup: bool,
    pub qos: Qos,
    pub retain: bool,
    pub topic: Seq<char>,
    pub id: Option<u16>,
    pub payload: Seq<u8>,
    pub raw: Seq<u8>,
}

pub enum RequestView {
    Connect(ConnectView),
    Subscribe(SubscribeView),
    Unsubscribe(UnsubscribeView),
    Publish(PublishView),
    PingReq,
    Disconnect,
}

impl View for Will {
    type V = WillView;

    open spec fn view(&self) -> WillView {
        WillView { qos: self.qos, retain: self.retain, topic: self.topic@, payload: self.payload@ }
    }
}

pub open spec fn opt_text_view(o: Option<String>) -> Option<Seq<char>> {
    match o {
        Some(s) => Some(s@),
        None => None,
    }
}

pub open spec fn opt_bytes_view(o: Option<Vec<u8>>) -> Option<Seq<u8>> {
    match o {
        Some(b) => Some(b@),
        None => None,
    }
}

impl View for CONNECT {
    type V = ConnectView;

    open spec fn view(&self) -> ConnectView {
        ConnectView {
            protocol_version: self.protocol_version,
            clean_session: self.clean_session,
            keep_alive: self.keep_alive,
            client_id: self.client_id@,
            will: match self.will {
                Some(w) => Some(w@),
                None => None,
            },
            username: opt_text_view(self.username),
            password: opt_bytes_view(self.password),
        }
    }
}

pub open spec fn subscriptions_view(v: Seq<(String, Qos)>) -> Seq<(Seq<char>, Qos)> {
    v.map_values(|p: (String, Qos)| (p.0@, p.1))
}

pub open spec fn topics_view(v: Seq<String>) -> Seq<Seq<char>> {
    v.map_values(|s: String| s@)
}

impl View for SUBSCRIBE {
    type V = SubscribeView;

    open spec fn view(&self) -> SubscribeView {
        SubscribeView { id: self.id, subscriptions: subscriptions_view(self.subscriptions@) }
    }
}

impl View for UNSUBSCRIBE {
    type V = UnsubscribeView;

    open spec fn view(&self) -> UnsubscribeView {
        UnsubscribeView { id: self.id, topics: topics_view(self.topics@) }
    }
}

impl View for PUBLISH {
    type V = PublishView;

    open spec fn view(&self) -> PublishView {
        PublishView {
            dup: self.dup,
            qos: self.qos,
            retain: self.retain,
            topic: self.topic@,
            id: self.id,
            payload: self.payload@,
            raw: self.raw@,
        }
    }
}

impl View for Request {
    type V = RequestView;

    open spec fn view(&self) -> RequestView {
        match self {
            Request::CONNECT(c) => RequestView::Connect(c@),
            Request::SUBSCRIBE(s) => RequestView::Subscribe(s@),
            Request::UNSUBSCRIBE(u) => RequestView::Unsubscribe(u@),
            Request::PUBLISH(p) => RequestView::Publish(p@),
            Request::PINGREQ(_) => RequestView::PingReq,
            Request::DISCONNECT(_) => RequestView::Disconnect,
        }
    }
}

// ---------------------------------------------------------------------------
// What each frame reads as.

/// Where the variable header starts: after the fixed header byte and the
/// Remaining Length field.
pub open spec fn body_start(f: Seq<u8>) -> Option<int> {
    match length_field(f) {
        LengthField::Complete { size, .. } => Some(1 + size as int),
        _ => None,
    }
}

/// A length-prefixed UTF-8 text field at `pos`, and the position after it.
pub open spec fn text_at(f: Seq<u8>, pos: int, tag: TextType) -> Result<(Seq<char>, int), Error> {
    match field_at(f, pos) {
        None => Err(Error::MalformedRequest),
        Some((raw, end)) => if valid_utf8(raw) {
            Ok((decode_utf8(raw), end))
        } else {
            Err(Error::NonUTF8Text(tag))
        },
    }
}

/// The protocol name block `00 04 "MQTT"`.
pub open spec fn protocol_name() -> Seq<u8> {
    seq![0u8, 4u8, 77u8, 81u8, 84u8, 84u8]
}

/// The Will part of a CONNECT at `pos`, as its connect flags announce it.
pub open spec fn will_at(f: Seq<u8>, pos: int, flags: u8) -> Result<(Option<WillView>, int), Error> {
    if flags & WILL_FLAG == 0 {
        Ok((None, pos))
    } else {
        match qos_of(((flags >> 3u8) & 3u8) as int) {
            None => Err(Error::MalformedRequest),
            Some(qos) => match text_at(f, pos, TextType::WillTopic) {
                Err(e) => Err(e),
                Ok((topic, p)) => match field_at(f, p) {
                    None => Err(Error::MalformedRequest),
                    Some((payload, end)) => Ok(
                        (
                            Some(
                                WillView {
                                    qos,
                                    retain: flags & WILL_RETAIN_FLAG != 0,
                                    topic,
                                    payload,
                                },
                            ),
                            end,
                        ),
                    ),
                },
            },
        }
    }
}

/// The username of a CONNECT at `pos`, where the flags announce one.
pub open spec fn username_at(f: Seq<u8>, pos: int, flags: u8) -> Result<(Option<Seq<char>>, int), Error> {
    if flags & USERNAME_FLAG == 0 {
        Ok((None, pos))
    } else {
        match text_at(f, pos, TextType::Username) {
            Err(e) => Err(e),
            Ok((name, end)) => Ok((Some(name), end)),
        }
    }
}

/// The password of a CONNECT at `pos`, where the flags announce one.
pub open spec fn password_at(f: Seq<u8>, pos: int, flags: u8) -> Result<Option<Seq<u8>>, Error> {
    if flags & PASSWORD_FLAG == 0 {
        Ok(None)
    } else {
        match field_at(f, pos) {
            None => Err(Error::MalformedRequest),
            Some((password, _)) => Ok(Some(password)),
        }
    }
}

pub open spec fn parse_connect(f: Seq<u8>) -> Result<ConnectView, Error> {
    if f.len() == 0 || f[0] & 0x0fu8 != 0 {
        Err(Error::MalformedRequest)
    } else {
        match body_start(f) {
            None => Err(Error::MalformedRequest),
            Some(s) => if f.len() < s + 10 || f.subrange(s, s + 6) != protocol_name() {
                Err(Error::MalformedRequest)
            } else {
                let flags = f[s + 7];
                match text_at(f, s + 10, TextType::ClientId) {
                    Err(e) => Err(e),
                    Ok((client_id, p1)) => match will_at(f, p1, flags) {
                        Err(e) => Err(e),
                        Ok((will, p2)) => match username_at(f, p2, flags) {
                            Err(e) => Err(e),
                            Ok((username, p3)) => match password_at(f, p3, flags) {
                                Err(e) => Err(e),
                                Ok(password) => Ok(
                                    ConnectView {
                                        protocol_version: f[s + 6],
                                        clean_session: flags & CLEAN_SESSION_FLAG != 0,
                                        keep_alive: u16_at(f, s + 8),
                                        client_id,
                                        will,
                                        username,
                                        password,
                                    },
                                ),
                            },
                        },
                    },
                }
            },
        }
    }
}

/// The topic filters and requested levels of a SUBSCRIBE from `pos` to its end.
pub open spec fn subscriptions_from(f: Seq<u8>, pos: int) -> Result<Seq<(Seq<char>, Qos)>, Error>
    decreases f.len() - pos,
{
    if pos < 0 || pos >= f.len() {
        Ok(seq![])
    } else {
        match text_at(f, pos, TextType::Topic) {
            Err(e) => Err(e),
            Ok((topic, p)) => if p >= f.len() {
                Err(Error::MalformedRequest)
            } else {
                match qos_of(f[p] as int) {
                    None => Err(Error::MalformedRequest),
                    Some(qos) => match subscriptions_from(f, p + 1) {
                        Err(e) => Err(e),
                        Ok(rest) => Ok(seq![(topic, qos)] + rest),
                    },
                }
            },
        }
    }
}

/// The topic filters of an UNSUBSCRIBE from `pos` to its end.
pub open spec fn topics_from(f: Seq<u8>, pos: int) -> Result<Seq<Seq<char>>, Error>
    decreases f.len() - pos,
{
    if pos < 0 || pos >= f.len() {
        Ok(seq![])
    } else {
        match text_at(f, pos, TextType::Topic) {
            Err(e) => Err(e),
            Ok((topic, p)) => match topics_from(f, p) {
                Err(e) => Err(e),
                Ok(rest) => Ok(seq![topic] + rest),
            },
        }
    }
}

pub open spec fn parse_subscribe(f: Seq<u8>) -> Result<SubscribeView, Error> {
    if f.len() == 0 || f[0] & 0x0fu8 != 2 {
        Err(Error::MalformedRequest)
    } else {
        match body_start(f) {
            None => Err(Error::MalformedRequest),
            Some(s) => if f.len() < s + 2 {
                Err(Error::MalformedRequest)
            } else {
                match subscriptions_from(f, s + 2) {
                    Err(e) => Err(e),
                    Ok(subscriptions) => if subscriptions.len() == 0 {
                        Err(Error::MalformedRequest)
                    } else {
                        Ok(SubscribeView { id: u16_at(f, s), subscriptions })
                    },
                }
            },
        }
    }
}

pub open spec fn parse_unsubscribe(f: Seq<u8>) -> Result<UnsubscribeView, Error> {
    if f.len() == 0 || f[0] & 0x0fu8 != 2 {
        Err(Error::MalformedRequest)
    } else {
        match body_start(f) {
            None => Err(Error::MalformedRequest),
            Some(s) => if f.len() < s + 2 {
                Err(Error::MalformedRequest)
            } else {
                match topics_from(f, s + 2) {
                    Err(e) => Err(e),
                    Ok(topics) => if topics.len() == 0 {
                        Err(Error::MalformedRequest)
                    } else {
                        Ok(UnsubscribeView { id: u16_at(f, s), topics })
                    },
                }
            },
        }
    }
}

pub open spec fn parse_publish(f: Seq<u8>) -> Result<PublishView, Error> {
    if f.len() == 0 {
        Err(Error::MalformedRequest)
    } else {
        match qos_of(((f[0] >> 1u8) & 3u8) as int) {
            None => Err(Error::MalformedRequest),
            Some(qos) => match body_start(f) {
                None => Err(Error::MalformedRequest),
                Some(s) => match text_at(f, s, TextType::Topic) {
                    Err(e) => Err(e),
                    Ok((topic, p)) => if qos != Qos::FireAndForget && p + 2 > f.len() {
                        Err(Error::MalformedRequest)
                    } else {
                        let id = if qos == Qos::FireAndForget {
                            None
                        } else {
                            Some(u16_at(f, p))
                        };
                        let start = if qos == Qos::FireAndForget {
                            p
                        } else {
                            p + 2
                        };
                        Ok(
                            PublishView {
                                dup: f[0] & 0x08u8 != 0,
                                qos,
                                retain: f[0] & 0x01u8 != 0,
                                topic,
                                id,
                                payload: f.subrange(start, f.len() as int),
                                raw: f,
                            },
                        )
                    },
                },
            },
        }
    }
}

/// A packet without a variable header: its Remaining Length is zero and
/// nothing follows.
pub open spec fn is_bare_packet(f: Seq<u8>) -> bool {
    length_field(f) == (LengthField::Complete { value: 0, size: 1 }) && f.len() == 2
}

#[verifier::opaque]
pub open spec fn parse_request(f: Seq<u8>) -> Result<RequestView, Error> {
    if f.len() == 0 {
        Err(Error::MalformedRequest)
    } else {
        let kind = f[0] >> 4u8;
        if kind == 1 {
            match parse_connect(f) {
                Ok(c) => Ok(RequestView::Connect(c)),
                Err(e) => Err(e),
            }
        } else if kind == 3 {
            match parse_publish(f) {
                Ok(p) => Ok(RequestView::Publish(p)),
                Err(e) => Err(e),
            }
        } else if kind == 8 {
            match parse_subscribe(f) {
                Ok(s) => Ok(RequestView::Subscribe(s)),
                Err(e) => Err(e),
            }
        } else if kind == 10 {
            match parse_unsubscribe(f) {
                Ok(u) => Ok(RequestView::Unsubscribe(u)),
                Err(e) => Err(e),
            }
        } else if kind == 12 {
            if is_bare_packet(f) {
                Ok(RequestView::PingReq)
            } else {
                Err(Error::MalformedRequest)
            }
        } else if kind == 14 {
            if is_bare_packet(f) {
                Ok(RequestView::Disconnect)
            } else {
                Err(Error::MalformedRequest)
            }
        } else {
            Err(Error::MalformedRequest)
        }
    }
}

/// A CONNECT whose client identifier is not valid UTF-8 is refused with
/// `NonUTF8Text(ClientId)`.
pub proof fn lemma_non_utf8_client_id(f: Seq<u8>, raw: Seq<u8>, end: int)
    requires
        f.len() > 0 && f[0] >> 4u8 == 1 && f[0] & 0x0fu8 == 0,
        body_start(f) is Some,
        f.len() >= body_start(f)->0 + 10,
        f.subrange(body_start(f)->0, body_start(f)->0 + 6) == protocol_name(),
        field_at(f, body_start(f)->0 + 10) == Some((raw, end)),
        !valid_utf8(raw),
    ensures
        parse_request(f) == Err::<RequestView, Error>(Error::NonUTF8Text(TextType::ClientId)),
{
    reveal(parse_request);
}

/// A PUBLISH whose topic is not valid UTF-8 is refused with
/// `NonUTF8Text(Topic)`.
pub proof fn lemma_non_utf8_topic(f: Seq<u8>, raw: Seq<u8>, end: int)
    requires
        f.len() > 0 && f[0] >> 4u8 == 3,
        qos_of(((f[0] >> 1u8) & 3u8) as int) is Some,
        body_start(f) is Some,
        field_at(f, body_start(f)->0) == Some((raw, end)),
        !valid_utf8(raw),
    ensures
        parse_request(f) == Err::<RequestView, Error>(Error::NonUTF8Text(TextType::Topic)),
{
    reveal(parse_request);
}

// ---------------------------------------------------------------------------
// Reading frames.

/// Relies on `String::from_utf8`: it succeeds exactly on valid UTF-8, and the
/// string then holds the characters that the bytes encode.
#[verifier::external_body]
fn utf8_text(bytes: Vec<u8>) -> (r: Option<String>)
    ensures
        match r {
            Some(s) => valid_utf8(bytes@) && s@ == decode_utf8(bytes@),
            None => !valid_utf8(bytes@),
        },
{
    String::from_utf8(bytes).ok()
}

fn read_text(f: &[u8], pos: usize, tag: TextType) -> (r: Result<(String, usize), Error>)
    ensures
        match text_at(f@, pos as int, tag) {
            Ok((t, end)) => r matches Ok((s, e)) && s@ == t && e == end,
            Err(e) => r == Err::<(String, usize), Error>(e),
        },
{
    match read_field(f, pos) {
        None => Err(Error::MalformedRequest),
        Some((raw, end)) => match utf8_text(vstd::slice::slice_to_vec(raw)) {
            Some(text) => Ok((text, end)),
            None => Err(Error::NonUTF8Text(tag)),
        },
    }
}

fn read_body_start(f: &[u8]) -> (r: Option<usize>)
    ensures
        match body_start(f@) {
            Some(s) => r == Some(s as usize) && s <= 5,
            None => r is None,
        },
{
    match read_length_field(f) {
        Ok((_, size)) => Some(1 + size),
        Err(_) => None,
    }
}

fn read_will(f: &[u8], pos: usize, flags: u8) -> (r: Result<(Option<Will>, usize), Error>)
    ensures
        match will_at(f@, pos as int, flags) {
            Ok((w, end)) => r matches Ok((v, e)) && e == end && match v {
                Some(x) => w == Some(x@),
                None => w is None,
            },
            Err(e) => r matches Err(x) && x == e,
        },
{
    if flags & WILL_FLAG == 0 {
        return Ok((None, pos));
    }
    let qos = match Qos::from_byte(&((flags >> 3u8) & 3u8)) {
        Ok(q) => q,
        Err(e) => return Err(e),
    };
    let (topic, p) = match read_text(f, pos, TextType::WillTopic) {
        Ok(v) => v,
        Err(e) => return Err(e),
    };
    match read_field(f, p) {
        None => Err(Error::MalformedRequest),
        Some((payload, end)) => Ok(
            (
                Some(
                    Will {
                        qos,
                        retain: flags & WILL_RETAIN_FLAG != 0,
                        topic,
                        payload: vstd::slice::slice_to_vec(payload),
                    },
                ),
                end,
            ),
        ),
    }
}

impl Qos {
    /// Reads a level from its high bit `b1` and low bit `b2`; both set is malformed.
    pub fn from_bits(b1: bool, b2: bool) -> (r: Result<Qos, Error>)
        ensures
            match qos_of((if b1 { 2int } else { 0 }) + (if b2 { 1int } else { 0 })) {
                Some(q) => r == Ok::<Qos, Error>(q),
                None => r == Err::<Qos, Error>(Error::MalformedRequest),
            },
    {
        match (b1, b2) {
            (false, false) => Ok(Qos::FireAndForget),
            (false, true) => Ok(Qos::AcknowledgedDeliver),
            (true, false) => Ok(Qos::AssuredDelivery),
            _ => Err(Error::MalformedRequest),
        }
    }

    /// Reads a level from a whole byte, as a Requested QoS byte carries it.
    pub fn from_byte(b: &u8) -> (r: Result<Qos, Error>)
        ensures
            match qos_of(*b as int) {
                Some(q) => r == Ok::<Qos, Error>(q),
                None => r == Err::<Qos, Error>(Error::MalformedRequest),
            },
    {
        match *b {
            0 => Ok(Qos::FireAndForget),
            1 => Ok(Qos::AcknowledgedDeliver),
            2 => Ok(Qos::AssuredDelivery),
            _ => Err(Error::MalformedRequest),
        }
    }
}

/// A packet that clients send, read from its whole frame.
pub trait RequestFrame: Sized {
    /// Whether `r` is what reading `bytes` gives.
    spec fn reads_as(bytes: Seq<u8>, r: Result<Self, Error>) -> bool;

    fn from_bytes(bytes: &[u8]) -> (r: Result<Self, Error>)
        ensures
            Self::reads_as(bytes@, r),
    ;
}

impl RequestFrame for CONNECT {
    open spec fn reads_as(bytes: Seq<u8>, r: Result<CONNECT, Error>) -> bool {
        match parse_connect(bytes) {
            Ok(v) => r matches Ok(x) && x@ == v,
            Err(e) => r matches Err(x) && x == e,
        }
    }

    /// Reads a CONNECT from its whole frame.
    fn from_bytes(bytes: &[u8]) -> (r: Result<CONNECT, Error>)
    {
        if bytes.len() == 0 || bytes[0] & 0x0f != 0 {
            return Err(Error::MalformedRequest);
        }
        let s = match read_body_start(bytes) {
            Some(s) => s,
            None => return Err(Error::MalformedRequest),
        };
        if bytes.len() < s + 10 {
            return Err(Error::MalformedRequest);
        }
        let name: [u8; 6] = [0, 4, 77, 81, 84, 84];
        let mut i: usize = 0;
        while i < 6
            invariant
                i <= 6,
                s <= 5,
                s + 10 <= bytes@.len(),
                body_start(bytes@) == Some(s as int),
                bytes@.len() > 0 && bytes@[0] & 0x0fu8 == 0,
                name@ == protocol_name(),
                forall|j: int| 0 <= j < i ==> bytes@[s + j] == protocol_name()[j],
            decreases 6 - i,
        {
            if bytes[s + i] != name[i] {
                proof {
                    assert(bytes@.subrange(s as int, s + 6)[i as int] != protocol_name()[i as int]);
                }
                return Err(Error::MalformedRequest);
            }
            i = i + 1;
        }
        assert(bytes@.subrange(s as int, s + 6) =~= protocol_name());
        let flags = bytes[s + 7];
        let (client_id, p) = match read_text(bytes, s + 10, TextType::ClientId) {
            Ok(v) => v,
            Err(e) => return Err(e),
        };
        let (will, p) = match read_will(bytes, p, flags) {
            Ok(v) => v,
            Err(e) => return Err(e),
        };
        let (username, p) = if flags & USERNAME_FLAG != 0 {
            match read_text(bytes, p, TextType::Username) {
                Ok((name, end)) => (Some(name), end),
                Err(e) => return Err(e),
            }
        } else {
            (None, p)
        };
        let password = if flags & PASSWORD_FLAG != 0 {
            match read_field(bytes, p) {
                Some((password, _)) => Some(vstd::slice::slice_to_vec(password)),
                None => return Err(Error::MalformedRequest),
            }
        } else {
            None
        };
        Ok(
            CONNECT {
                protocol_version: bytes[s + 6],
                clean_session: flags & CLEAN_SESSION_FLAG != 0,
                keep_alive: read_u16(bytes, s + 8),
                client_id,
                will,
                username,
                password,
            },
        )
    }
}

impl RequestFrame for SUBSCRIBE {
    open spec fn reads_as(bytes: Seq<u8>, r: Result<SUBSCRIBE, Error>) -> bool {
        match parse_subscribe(bytes) {
            Ok(v) => r matches Ok(x) && x@ == v,
            Err(e) => r matches Err(x) && x == e,
        }
    }

    /// Reads a SUBSCRIBE from its whole frame.
    fn from_bytes(bytes: &[u8]) -> (r: Result<SUBSCRIBE, Error>)
    {
        if bytes.len() == 0 || bytes[0] & 0x0f != 2 {
            return Err(Error::MalformedRequest);
        }
        let s = match read_body_start(bytes) {
            Some(s) => s,
            None => return Err(Error::MalformedRequest),
        };
        if bytes.len() < s + 2 {
            return Err(Error::MalformedRequest);
        }
        let mut subscriptions: Vec<(String, Qos)> = Vec::new();
        let mut cursor = s + 2;
        while cursor < bytes.len()
            invariant
                s + 2 <= cursor <= bytes@.len(),
                s <= 5,
                bytes@.len() > 0 && bytes@[0] & 0x0fu8 == 2,
                body_start(bytes@) == Some(s as int),
                subscriptions_from(bytes@, s + 2) == match subscriptions_from(bytes@, cursor as int) {
                    Ok(rest) => Ok(subscriptions_view(subscriptions@) + rest),
                    Err(e) => Err(e),
                },
            decreases bytes@.len() - cursor,
        {
            let (topic, p) = match read_text(bytes, cursor, TextType::Topic) {
                Ok(v) => v,
                Err(e) => return Err(e),
            };
            if p >= bytes.len() {
                return Err(Error::MalformedRequest);
            }
            let qos = match Qos::from_byte(&bytes[p]) {
                Ok(q) => q,
                Err(e) => return Err(e),
            };
            let ghost before = subscriptions_view(subscriptions@);
            let ghost entry = (topic@, qos);
            subscriptions.push((topic, qos));
            proof {
                assert(subscriptions_view(subscriptions@) =~= before.push(entry));
                if let Ok(rest) = subscriptions_from(bytes@, p + 1) {
                    assert(before + (seq![entry] + rest) =~= before.push(entry) + rest);
                }
            }
            cursor = p + 1;
        }
        assert(subscriptions_view(subscriptions@) + seq![] =~= subscriptions_view(subscriptions@));
        if subscriptions.len() == 0 {
            return Err(Error::MalformedRequest);
        }
        Ok(SUBSCRIBE { id: read_u16(bytes, s), subscriptions })
    }
}

impl RequestFrame for UNSUBSCRIBE {
    open spec fn reads_as(bytes: Seq<u8>, r: Result<UNSUBSCRIBE, Error>) -> bool {
        match parse_unsubscribe(bytes) {
            Ok(v) => r matches Ok(x) && x@ == v,
            Err(e) => r matches Err(x) && x == e,
        }
    }

    /// Reads an UNSUBSCRIBE from its whole frame.
    fn from_bytes(bytes: &[u8]) -> (r: Result<UNSUBSCRIBE, Error>)
    {
        if bytes.len() == 0 || bytes[0] & 0x0f != 2 {
            return Err(Error::MalformedRequest);
        }
        let s = match read_body_start(bytes) {
            Some(s) => s,
            None => return Err(Error::MalformedRequest),
        };
        if bytes.len() < s + 2 {
            return Err(Error::MalformedRequest);
        }
        let mut topics: Vec<String> = Vec::new();
        let mut cursor = s + 2;
        while cursor < bytes.len()
            invariant
                s + 2 <= cursor <= bytes@.len(),
                s <= 5,
                bytes@.len() > 0 && bytes@[0] & 0x0fu8 == 2,
                body_start(bytes@) == Some(s as int),
                topics_from(bytes@, s + 2) == match topics_from(bytes@, cursor as int) {
                    Ok(rest) => Ok(topics_view(topics@) + rest),
                    Err(e) => Err(e),
                },
            decreases bytes@.len() - cursor,
        {
            let (topic, p) = match read_text(bytes, cursor, TextType::Topic) {
                Ok(v) => v,
                Err(e) => return Err(e),
            };
            let ghost before = topics_view(topics@);
            let ghost entry = topic@;
            topics.push(topic);
            proof {
                assert(topics_view(topics@) =~= before.push(entry));
                if let Ok(rest) = topics_from(bytes@, p as int) {
                    assert(before + (seq![entry] + rest) =~= before.push(entry) + rest);
                }
            }
            cursor = p;
        }
        assert(topics_view(topics@) + seq![] =~= topics_view(topics@));
        if topics.len() == 0 {
            return Err(Error::MalformedRequest);
        }
        Ok(UNSUBSCRIBE { id: read_u16(bytes, s), topics })
    }
}

impl RequestFrame for PUBLISH {
    open spec fn reads_as(bytes: Seq<u8>, r: Result<PUBLISH, Error>) -> bool {
        match parse_publish(bytes) {
            Ok(v) => r matches Ok(x) && x@ == v,
            Err(e) => r matches Err(x) && x == e,
        }
    }

    /// Reads a PUBLISH from its whole frame, keeping the frame as `raw`.
    fn from_bytes(bytes: &[u8]) -> (r: Result<PUBLISH, Error>)
    {
        if bytes.len() == 0 {
            return Err(Error::MalformedRequest);
        }
        let flags = bytes[0];
        let qos = match Qos::from_byte(&((flags >> 1u8) & 3u8)) {
            Ok(q) => q,
            Err(e) => return Err(e),
        };
        let s = match read_body_start(bytes) {
            Some(s) => s,
            None => return Err(Error::MalformedRequest),
        };
        let (topic, p) = match read_text(bytes, s, TextType::Topic) {
            Ok(v) => v,
            Err(e) => return Err(e),
        };
        let (id, start) = match qos {
            Qos::FireAndForget => (None, p),
            _ => {
                if bytes.len() < 2 || p > bytes.len() - 2 {
                    return Err(Error::MalformedRequest);
                }
                (Some(read_u16(bytes, p)), p + 2)
            },
        };
        Ok(
            PUBLISH {
                dup: flags & 0x08 != 0,
                qos,
                retain: flags & 0x01 != 0,
                topic,
                id,
                payload: vstd::slice::slice_to_vec(
                    vstd::slice::slice_subrange(bytes, start, bytes.len()),
                ),
                raw: vstd::slice::slice_to_vec(bytes),
            },
        )
    }
}

fn is_bare(bytes: &[u8]) -> (r: bool)
    ensures
        r == is_bare_packet(bytes@),
{
    match read_length_field(bytes) {
        Ok((value, size)) => value == 0 && size == 1 && bytes.len() == 2,
        Err(_) => false,
    }
}

impl RequestFrame for PINGREQ {
    open spec fn reads_as(bytes: Seq<u8>, r: Result<PINGREQ, Error>) -> bool {
        if is_bare_packet(bytes) {
            r is Ok
        } else {
            r matches Err(x) && x == Error::MalformedRequest
        }
    }

    /// Reads a PINGREQ from its whole frame.
    fn from_bytes(bytes: &[u8]) -> (r: Result<PINGREQ, Error>)
    {
        if is_bare(bytes) {
            Ok(PINGREQ {})
        } else {
            Err(Error::MalformedRequest)
        }
    }
}

impl RequestFrame for DISCONNECT {
    open spec fn reads_as(bytes: Seq<u8>, r: Result<DISCONNECT, Error>) -> bool {
        if is_bare_packet(bytes) {
            r is Ok
        } else {
            r matches Err(x) && x == Error::MalformedRequest
        }
    }

    /// Reads a DISCONNECT from its whole frame.
    fn from_bytes(bytes: &[u8]) -> (r: Result<DISCONNECT, Error>)
    {
        if is_bare(bytes) {
            Ok(DISCONNECT {})
        } else {
            Err(Error::MalformedRequest)
        }
    }
}

impl RequestFrame for Request {
    open spec fn reads_as(bytes: Seq<u8>, r: Result<Request, Error>) -> bool {
        match parse_request(bytes) {
            Ok(v) => r matches Ok(x) && x@ == v,
            Err(e) => r matches Err(x) && x == e,
        }
    }

    /// Reads one whole frame, choosing the packet by the high nibble of its
    /// first byte.
    fn from_bytes(bytes: &[u8]) -> (r: Result<Request, Error>)
    {
        reveal(parse_request);
        if bytes.len() == 0 {
            return Err(Error::MalformedRequest);
        }
        let kind = bytes[0] >> 4u8;
        if kind == 1 {
            match CONNECT::from_bytes(bytes) {
                Ok(c) => Ok(Request::CONNECT(c)),
                Err(e) => Err(e),
            }
        } else if kind == 3 {
            match PUBLISH::from_bytes(bytes) {
                Ok(p) => Ok(Request::PUBLISH(p)),
                Err(e) => Err(e),
            }
        } else if kind == 8 {
            match SUBSCRIBE::from_bytes(bytes) {
                Ok(s) => Ok(Request::SUBSCRIBE(s)),
                Err(e) => Err(e),
            }
        } else if kind == 10 {
            match UNSUBSCRIBE::from_bytes(bytes) {
                Ok(u) => Ok(Request::UNSUBSCRIBE(u)),
                Err(e) => Err(e),
            }
        } else if kind == 12 {
            match PINGREQ::from_bytes(bytes) {
                Ok(p) => Ok(Request::PINGREQ(p)),
                Err(e) => Err(e),
            }
        } else if kind == 14 {
            match DISCONNECT::from_bytes(bytes) {
                Ok(d) => Ok(Request::DISCONNECT(d)),
                Err(e) => Err(e),
            }
        } else {
            Err(Error::MalformedRequest)
        }
    }
}

} // verus!
