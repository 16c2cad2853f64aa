//! Control packets that the broker sends, and how each is written.
use vstd::prelude::*;

use crate::qos::{qos_of, Qos};
use crate::wire::{
    lemma_frame_layout, length_field, put_length, u16_at, u16_bytes, varint_bytes, LengthField,
    MAX_REMAINING_LENGTH,
};

verus! {

#[derive(Debug, Clone, Copy, PartialEq, Eq, Structural)]
pub enum CONNACKReturnCode {
    Accepted,
    UnacceptableProtocol,
    IdentifierRejected,
    ServerUnavailable,
    BadUsernameOrPassword,
    NotAuthorized,
}

impl CONNACKReturnCode {
    pub open spec fn spec_value(self) -> u8 {
        match self {
            CONNACKReturnCode::Accepted => 0,
            CONNACKReturnCode::UnacceptableProtocol => 1,
            CONNACKReturnCode::IdentifierRejected => 2,
            CONNACKReturnCode::ServerUnavailable => 3,
            CONNACKReturnCode::BadUsernameOrPassword => 4,
            CONNACKReturnCode::NotAuthorized => 5,
        }
    }

    /// The return code byte of a CONNACK.
    pub fn value(&self) -> (r: u8)
        ensures
            r == self.spec_value(),
    {
        match self {
            CONNACKReturnCode::Accepted => 0,
            CONNACKReturnCode::UnacceptableProtocol => 1,
            CONNACKReturnCode::IdentifierRejected => 2,
            CONNACKReturnCode::ServerUnavailable => 3,
            CONNACKReturnCode::BadUsernameOrPassword => 4,
            CONNACKReturnCode::NotAuthorized => 5,
        }
    }
}

/// The return code that a byte stands for, if any.
pub open spec fn return_code_of(b: u8) -> Option<CONNACKReturnCode> {
    if b == 0 {
        Some(CONNACKReturnCode::Accepted)
    } else if b == 1 {
        Some(CONNACKReturnCode::UnacceptableProtocol)
    } else if b == 2 {
        Some(CONNACKReturnCode::IdentifierRejected)
    } else if b == 3 {
        Some(CONNACKReturnCode::ServerUnavailable)
    } else if b == 4 {
        Some(CONNACKReturnCode::BadUsernameOrPassword)
    } else if b == 5 {
        Some(CONNACKReturnCode::NotAuthorized)
    } else {
        None
    }
}

#[derive(Debug, PartialEq)]
pub struct CONNACK {
    pub session_present: bool,
    pub return_code: CONNACKReturnCode,
}

#[derive(Debug, PartialEq)]
pub struct SUBACK {
    pub id: u16,
    /// One entry per requested topic: the level granted, or `None` for failure.
    pub granted_qos: Vec<Option<Qos>>,
}

#[derive(Debug, PartialEq)]
pub struct UNSUBACK {
    pub id: u16,
}

#[derive(Debug, PartialEq)]
pub struct PINGRESP {}

#[derive(Debug, PartialEq)]
pub enum Response {
    CONNACK(CONNACK),
    SUBACK(SUBACK),
    UNSUBACK(UNSUBACK),
    PINGRESP(PINGRESP),
}

pub enum ResponseView {
    Connack { session_present: bool, return_code: CONNACKReturnCode },
    Suback { id: u16, granted_qos: Seq<Option<Qos>> },
    Unsuback { id: u16 },
    Pingresp,
}

pub const CONNACK_HEADER: u8 = 0x20;
pub const SUBACK_HEADER: u8 = 0x90;
pub const UNSUBACK_HEADER: u8 = 0xB0;
pub const PINGRESP_HEADER: u8 = 0xD0;
/// The SUBACK entry for a refused subscription.
pub const SUBACK_FAILURE: u8 = 0x80;

/// A whole frame: header byte, Remaining Length, then `data`.
pub open spec fn frame_bytes(header: u8, data: Seq<u8>) -> Seq<u8> {
    seq![header] + varint_bytes(data.len()) + data
}

pub open spec fn granted_byte(g: Option<Qos>) -> u8 {
    match g {
        Some(q) => q.spec_value(),
        None => SUBACK_FAILURE,
    }
}

pub open spec fn granted_bytes(gs: Seq<Option<Qos>>) -> Seq<u8> {
    gs.map_values(|g: Option<Qos>| granted_byte(g))
}

/// What a SUBACK entry byte stands for, if anything.
pub open spec fn granted_of(b: u8) -> Option<Option<Qos>> {
    if b == SUBACK_FAILURE {
        Some(None)
    } else {
        match qos_of(b as int) {
            Some(q) => Some(Some(q)),
            None => None,
        }
    }
}

/// The bytes that encode a response packet.
pub open spec fn response_bytes(r: ResponseView) -> Seq<u8> {
    match r {
        ResponseView::Connack { session_present, return_code } => frame_bytes(
            CONNACK_HEADER,
            seq![if session_present { 1u8 } else { 0u8 }, return_code.spec_value()],
        ),
        ResponseView::Suback { id, granted_qos } => frame_bytes(
            SUBACK_HEADER,
            u16_bytes(id) + granted_bytes(granted_qos),
        ),
        ResponseView::Unsuback { id } => frame_bytes(UNSUBACK_HEADER, u16_bytes(id)),
        ResponseView::Pingresp => frame_bytes(PINGRESP_HEADER, seq![]),
    }
}

/// Whether a response fits in one frame.
pub open spec fn encodable(r: ResponseView) -> bool {
    match r {
        ResponseView::Suback { granted_qos, .. } => granted_qos.len() + 2 <= MAX_REMAINING_LENGTH,
        _ => true,
    }
}

/// How a response frame reads, if it is one.
pub open spec fn parse_response(b: Seq<u8>) -> Option<ResponseView> {
    match length_field(b) {
        LengthField::Complete { value, size } => if b.len() != 1 + size + value {
            None
        } else {
            let body = b.skip(1 + size as int);
            if b[0] == CONNACK_HEADER && body.len() == 2 && body[0] <= 1 && return_code_of(
                body[1],
            ) is Some {
                Some(
                    ResponseView::Connack {
                        session_present: body[0] == 1,
                        return_code: return_code_of(body[1])->0,
                    },
                )
            } else if b[0] == SUBACK_HEADER && body.len() >= 2 && forall|i: int|
                2 <= i < body.len() ==> #[trigger] granted_of(body[i]) is Some {
                Some(
                    ResponseView::Suback {
                        id: u16_at(body, 0),
                        granted_qos: body.skip(2).map_values(|g: u8| granted_of(g)->0),
                    },
                )
            } else if b[0] == UNSUBACK_HEADER && body.len() == 2 {
                Some(ResponseView::Unsuback { id: u16_at(body, 0) })
            } else if b[0] == PINGRESP_HEADER && body.len() == 0 {
                Some(ResponseView::Pingresp)
            } else {
                None
            }
        },
        _ => None,
    }
}

impl View for CONNACK {
    type V = ResponseView;

    open spec fn view(&self) -> ResponseView {
        ResponseView::Connack { session_present: self.session_present, return_code: self.return_code }
    }
}

impl View for SUBACK {
    type V = ResponseView;

    open spec fn view(&self) -> ResponseView {
        ResponseView::Suback { id: self.id, granted_qos: self.granted_qos@ }
    }
}

impl View for UNSUBACK {
    type V = ResponseView;

    open spec fn view(&self) -> ResponseView {
        ResponseView::Unsuback { id: self.id }
    }
}

impl View for PINGRESP {
    type V = ResponseView;

    open spec fn view(&self) -> ResponseView {
        ResponseView::Pingresp
    }
}

impl View for Response {
    type V = ResponseView;

    open spec fn view(&self) -> ResponseView {
        match self {
            Response::CONNACK(c) => c@,
            Response::SUBACK(s) => s@,
            Response::UNSUBACK(u) => u@,
            Response::PINGRESP(p) => p@,
        }
    }
}

/// A packet that the broker writes onto a connection.
pub trait ResponseFrame {
    spec fn spec_response(&self) -> ResponseView;

    /// Appends the packet's frame to `dst`.
    fn to_bytes(&self, dst: &mut Vec<u8>)
        requires
            encodable(self.spec_response()),
        ensures
            final(dst)@ == old(dst)@ + response_bytes(self.spec_response()),
    ;
}

fn write_frame(header: u8, data: &[u8], dst: &mut Vec<u8>)
    requires
        data@.len() <= MAX_REMAINING_LENGTH,
    ensures
        final(dst)@ == old(dst)@ + frame_bytes(header, data@),
{
    dst.push(header);
    put_length(data.len(), dst);
    dst.extend_from_slice(data);
    proof {
        assert(final(dst)@ =~= old(dst)@ + frame_bytes(header, data@));
    }
}

fn u16_be(x: u16) -> (r: [u8; 2])
    ensures
        r@ == u16_bytes(x),
{
    let r: [u8; 2] = [(x / 256) as u8, (x % 256) as u8];
    assert(r@ =~= u16_bytes(x));
    r
}

impl ResponseFrame for CONNACK {
    open spec fn spec_response(&self) -> ResponseView {
        self@
    }

    fn to_bytes(&self, dst: &mut Vec<u8>) {
        let data: [u8; 2] = [if self.session_present { 1 } else { 0 }, self.return_code.value()];
        assert(data@ =~= seq![if self.session_present { 1u8 } else { 0u8 }, self.return_code.spec_value()]);
        write_frame(CONNACK_HEADER, &data, dst);
    }
}

impl ResponseFrame for SUBACK {
    open spec fn spec_response(&self) -> ResponseView {
        self@
    }

    fn to_bytes(&self, dst: &mut Vec<u8>) {
        let id = u16_be(self.id);
        let mut payload: Vec<u8> = Vec::new();
        payload.push(id[0]);
        payload.push(id[1]);
        let mut i: usize = 0;
        while i < self.granted_qos.len()
            invariant
                i <= self.granted_qos@.len(),
                payload@ == u16_bytes(self.id) + granted_bytes(self.granted_qos@.take(i as int)),
            decreases self.granted_qos@.len() - i,
        {
            let byte = match self.granted_qos[i] {
                Some(q) => q.value(),
                None => SUBACK_FAILURE,
            };
            payload.push(byte);
            proof {
                assert(self.granted_qos@.take(i + 1) =~= self.granted_qos@.take(i as int).push(
                    self.granted_qos@[i as int],
                ));
                assert(granted_bytes(self.granted_qos@.take(i + 1)) =~= granted_bytes(
                    self.granted_qos@.take(i as int),
                ).push(byte));
            }
            i = i + 1;
        }
        assert(self.granted_qos@.take(i as int) =~= self.granted_qos@);
        write_frame(SUBACK_HEADER, payload.as_slice(), dst);
    }
}

impl ResponseFrame for UNSUBACK {
    open spec fn spec_response(&self) -> ResponseView {
        self@
    }

    fn to_bytes(&self, dst: &mut Vec<u8>) {
        let id = u16_be(self.id);
        write_frame(UNSUBACK_HEADER, &id, dst);
    }
}

impl ResponseFrame for PINGRESP {
    open spec fn spec_response(&self) -> ResponseView {
        self@
    }

    fn to_bytes(&self, dst: &mut Vec<u8>) {
        let data: [u8; 0] = [];
        assert(data@ =~= Seq::<u8>::empty());
        write_frame(PINGRESP_HEADER, &data, dst);
    }
}

impl ResponseFrame for Response {
    open spec fn spec_response(&self) -> ResponseView {
        self@
    }

    fn to_bytes(&self, dst: &mut Vec<u8>) {
        match self {
            Response::CONNACK(c) => c.to_bytes(dst),
            Response::SUBACK(s) => s.to_bytes(dst),
            Response::UNSUBACK(u) => u.to_bytes(dst),
            Response::PINGRESP(p) => p.to_bytes(dst),
        }
    }
}

proof fn lemma_u16_round_trip(x: u16)
    ensures
        u16_at(u16_bytes(x), 0) == x,
{
}

/// Every response packet reads back from its encoding as itself, so encoding
/// what was read from an encoding gives the same bytes again.
pub proof fn lemma_response_round_trip(r: ResponseView)
    requires
        encodable(r),
    ensures
        parse_response(response_bytes(r)) == Some(r),
        response_bytes(parse_response(response_bytes(r))->0) == response_bytes(r),
{
    match r {
        ResponseView::Connack { session_present, return_code } => {
            let data = seq![if session_present { 1u8 } else { 0u8 }, return_code.spec_value()];
            lemma_frame_layout(CONNACK_HEADER, data);
        },
        ResponseView::Suback { id, granted_qos } => {
            let data = u16_bytes(id) + granted_bytes(granted_qos);
            lemma_frame_layout(SUBACK_HEADER, data);
            lemma_u16_round_trip(id);
            assert(u16_at(data, 0) == u16_at(u16_bytes(id), 0));
            assert forall|i: int| 2 <= i < data.len() implies #[trigger] granted_of(data[i]) is Some by {
                assert(data[i] == granted_byte(granted_qos[i - 2]));
            }
            assert(data.skip(2).map_values(|g: u8| granted_of(g)->0) =~= granted_qos) by {
                assert forall|i: int| 0 <= i < granted_qos.len() implies granted_of(data.skip(2)[i])->0
                    == granted_qos[i] by {
                    assert(data.skip(2)[i] == granted_byte(granted_qos[i]));
                }
            }
        },
        ResponseView::Unsuback { id } => {
            lemma_frame_layout(UNSUBACK_HEADER, u16_bytes(id));
            lemma_u16_round_trip(id);
        },
        ResponseView::Pingresp => {
            lemma_frame_layout(PINGRESP_HEADER, seq![]);
        },
    }
}

} // verus!
