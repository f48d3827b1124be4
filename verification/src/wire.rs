//! DNS messages on the wire: what the library reads out of a message, and the
//! replies it has built, with the wire format left to `hickory_proto`.

use hickory_proto::op::{Message, MessageType, Metadata, OpCode};
use hickory_proto::rr::rdata::{A, SOA};
use hickory_proto::rr::{Name, RData, Record};
use vstd::prelude::*;

use crate::addr::Ipv4Addr;

verus! {

/// The number of the record type of an IPv4 address.
pub const TYPE_A: u16 = 1;

/// The number of the record type of an IPv6 address.
pub const TYPE_AAAA: u16 = 28;

/// The number of the record type of a service binding.
pub const TYPE_SVCB: u16 = 64;

/// The number of the record type of an HTTPS service binding.
pub const TYPE_HTTPS: u16 = 65;

/// The number of the operation of a standard query.
pub const OP_QUERY: u8 = 0;

/// The response code of a reply without an error.
pub const NO_ERROR: u16 = 0;

/// The response code of a name that does not exist.
pub const NX_DOMAIN: u16 = 3;

/// The response code of an operation that is not implemented.
pub const NOT_IMP: u16 = 4;

/// The response code of a refusal.
pub const REFUSED: u16 = 5;

/// One question of a message.
#[derive(Debug, PartialEq, Eq)]
pub struct Question {
    /// The name asked for, in lower case and with the root dot.
    pub name: String,
    /// The number of the record type asked for.
    pub record_type: u16,
}

/// What the library reads out of a message.
#[derive(Debug, PartialEq, Eq)]
pub struct DnsMessage {
    pub id: u16,
    /// Whether the message is a query; if not, it is a response.
    pub is_query: bool,
    pub op_code: u8,
    pub recursion_desired: bool,
    pub checking_disabled: bool,
    pub questions: Vec<Question>,
    /// The answer section: the address of each A record, and `None` for a
    /// record of another type.
    pub answers: Vec<Option<Ipv4Addr>>,
}

/// One question, mathematically.
#[verifier::ext_equal]
pub struct QuestionView {
    pub name: Seq<char>,
    pub record_type: u16,
}

/// What the library reads out of a message, mathematically.
#[verifier::ext_equal]
pub struct MessageView {
    pub id: u16,
    pub is_query: bool,
    pub op_code: u8,
    pub recursion_desired: bool,
    pub checking_disabled: bool,
    pub questions: Seq<QuestionView>,
    pub answers: Seq<Option<Ipv4Addr>>,
}

impl View for Question {
    type V = QuestionView;

    open spec fn view(&self) -> QuestionView {
        QuestionView { name: self.name@, record_type: self.record_type }
    }
}

impl View for DnsMessage {
    type V = MessageView;

    open spec fn view(&self) -> MessageView {
        MessageView {
            id: self.id,
            is_query: self.is_query,
            op_code: self.op_code,
            recursion_desired: self.recursion_desired,
            checking_disabled: self.checking_disabled,
            questions: Seq::new(self.questions@.len(), |i: int| self.questions@[i]@),
            answers: self.answers@,
        }
    }
}

/// An A record of a reply.
#[derive(Clone, Copy, Debug, PartialEq, Eq, Structural)]
pub struct AddressRecord {
    pub address: Ipv4Addr,
    pub ttl: u32,
}

/// A reply to a message, but for its authority section. It names the message's
/// questions by their place, so that each is echoed as it was asked.
#[derive(Clone, Copy, Debug, PartialEq, Eq, Structural)]
pub struct Reply {
    pub id: u16,
    pub op_code: u8,
    pub recursion_desired: bool,
    pub checking_disabled: bool,
    pub authoritative: bool,
    pub response_code: u16,
    /// How many of the message's questions are echoed, from the first on; all of
    /// them where there are fewer.
    pub echoed: usize,
    /// The one record of the answer section. It is owned by the name of the first
    /// echoed question; where none is echoed, the answer section is empty.
    pub answer: Option<AddressRecord>,
}

/// A zone's start of authority, with its names as text.
#[derive(Debug, PartialEq, Eq)]
pub struct Soa {
    pub owner: String,
    pub ttl: u32,
    pub mname: String,
    pub rname: String,
    pub serial: u32,
    pub refresh: i32,
    pub retry: i32,
    pub expire: i32,
    pub minimum: u32,
}

/// A zone's start of authority, mathematically.
#[verifier::ext_equal]
pub struct SoaView {
    pub owner: Seq<char>,
    pub ttl: u32,
    pub mname: Seq<char>,
    pub rname: Seq<char>,
    pub serial: u32,
    pub refresh: i32,
    pub retry: i32,
    pub expire: i32,
    pub minimum: u32,
}

impl View for Soa {
    type V = SoaView;

    open spec fn view(&self) -> SoaView {
        SoaView {
            owner: self.owner@,
            ttl: self.ttl,
            mname: self.mname@,
            rname: self.rname@,
            serial: self.serial,
            refresh: self.refresh,
            retry: self.retry,
            expire: self.expire,
            minimum: self.minimum,
        }
    }
}

/// What `hickory_proto::op::Message::from_vec` reads from a datagram, or `None`
/// where it reports an error.
pub uninterp spec fn decoded_message(datagram: Seq<u8>) -> Option<MessageView>;

/// The bytes that `hickory_proto::op::Message::to_vec` gives for a reply to a
/// datagram, or `None` where it reports an error.
pub uninterp spec fn encoded_reply(request: Seq<u8>, reply: Reply) -> Option<Seq<u8>>;

/// The bytes of a message after `hickory_proto::op::Message::add_authority` has
/// added a start of authority to it, or `None` where an error is reported.
pub uninterp spec fn with_authority(message: Seq<u8>, soa: SoaView) -> Option<Seq<u8>>;

/// A `Vec` that is there or not, mathematically.
pub open spec fn bytes_in(bytes: Option<Vec<u8>>) -> Option<Seq<u8>> {
    match bytes {
        Some(v) => Some(v@),
        None => None,
    }
}

/// A message that is there or not, mathematically.
pub open spec fn message_in(message: Option<DnsMessage>) -> Option<MessageView> {
    match message {
        Some(m) => Some(m@),
        None => None,
    }
}

/// Reads a datagram by `hickory_proto::op::Message::from_vec`. The result is
/// taken to be a function of the datagram's bytes; nothing more is claimed of
/// what it is. A question's name is the decoded name in lower case, as
/// `Name::to_lowercase` and its `Display` give it.
#[verifier::external_body]
pub(crate) fn decode_message(datagram: &[u8]) -> (r: Option<DnsMessage>)
    ensures
        message_in(r) == decoded_message(datagram@),
{
    let message = Message::from_vec(datagram).ok()?;
    let Metadata { id, message_type, op_code, recursion_desired, checking_disabled, .. } = message.metadata;
    let questions = message.queries.iter().map(|q| Question {
        name: q.name().to_lowercase().to_string(),
        record_type: q.query_type().into(),
    }).collect();
    let answers = message.answers.iter().map(|record| match &record.data {
        RData::A(a) => Some(Ipv4Addr { bits: a.0.into() }),
        _ => None,
    }).collect();
    let is_query = message_type == MessageType::Query;
    Some(DnsMessage { id, is_query, op_code: op_code.into(), recursion_desired, checking_disabled, questions, answers })
}

/// Builds a reply by `hickory_proto::op::Message::response` and encodes it by
/// `Message::to_vec`. The echoed questions are those that `Message::from_vec`
/// reads from `request`. The result is taken to be a function of the request's
/// bytes and of the reply; nothing more is claimed of what it is.
#[verifier::external_body]
pub(crate) fn encode_reply(request: &[u8], reply: &Reply) -> (r: Option<Vec<u8>>)
    ensures
        bytes_in(r) == encoded_reply(request@, *reply),
{
    let mut message = Message::response(reply.id, OpCode::from_u8(reply.op_code));
    message.metadata.recursion_desired = reply.recursion_desired;
    message.metadata.checking_disabled = reply.checking_disabled;
    message.metadata.authoritative = reply.authoritative;
    message.metadata.response_code = reply.response_code.into();
    message.queries = Message::from_vec(request).ok()?.queries.into_iter().take(reply.echoed).collect();
    for (q, a) in message.queries.iter().zip(&reply.answer) {
        message.answers.push(Record::from_rdata(q.name().clone(), a.ttl, RData::A(A(a.address.bits.into()))));
    }
    message.to_vec().ok()
}

/// Adds a start of authority to an encoded message by
/// `hickory_proto::op::Message::add_authority`. The result is taken to be a
/// function of the message's bytes and of the record; nothing more is claimed
/// of what it is.
#[verifier::external_body]
pub(crate) fn add_authority(message: &[u8], soa: &Soa) -> (r: Option<Vec<u8>>)
    ensures
        bytes_in(r) == with_authority(message@, soa@),
{
    let mut message = Message::from_vec(message).ok()?;
    let owner = Name::from_utf8(&soa.owner).ok()?;
    let mname = Name::from_utf8(&soa.mname).ok()?;
    let rname = Name::from_utf8(&soa.rname).ok()?;
    let rdata = SOA::new(mname, rname, soa.serial, soa.refresh, soa.retry, soa.expire, soa.minimum);
    message.add_authority(Record::from_rdata(owner, soa.ttl, RData::SOA(rdata)));
    message.to_vec().ok()
}

/// A reply to a message: what it is made of, and the start of authority that
/// goes with it.
#[derive(Debug, PartialEq, Eq)]
pub struct Response {
    pub reply: Reply,
    pub authority: Option<Soa>,
}

/// A response, mathematically.
#[verifier::ext_equal]
pub struct ResponseView {
    pub reply: Reply,
    pub authority: Option<SoaView>,
}

impl View for Response {
    type V = ResponseView;

    open spec fn view(&self) -> ResponseView {
        ResponseView {
            reply: self.reply,
            authority: match self.authority {
                Some(soa) => Some(soa@),
                None => None,
            },
        }
    }
}

/// The bytes of a response to a datagram.
pub open spec fn rendered(request: Seq<u8>, response: ResponseView) -> Option<Seq<u8>> {
    match encoded_reply(request, response.reply) {
        None => None,
        Some(bytes) => match response.authority {
            Some(soa) => with_authority(bytes, soa),
            None => Some(bytes),
        },
    }
}

/// The bytes of a response to a datagram.
pub(crate) fn render(request: &[u8], response: &Response) -> (r: Option<Vec<u8>>)
    ensures
        bytes_in(r) == rendered(request@, response@),
{
    let bytes: Vec<u8> = match encode_reply(request, &response.reply) {
        Some(bytes) => bytes,
        None => {
            return None;
        },
    };
    match &response.authority {
        Some(soa) => add_authority(bytes.as_slice(), soa),
        None => Some(bytes),
    }
}

/// The reply to a message that carries `response_code` over its id, its
/// operation, and what it asked of recursion and checking, with its first
/// question echoed.
pub open spec fn echo(message: MessageView, response_code: u16) -> Reply {
    Reply {
        id: message.id,
        op_code: message.op_code,
        recursion_desired: message.recursion_desired,
        checking_disabled: message.checking_disabled,
        authoritative: false,
        response_code,
        echoed: 1,
        answer: None,
    }
}

/// The reply that echoes a message's first question.
pub fn echo_reply(message: &DnsMessage, response_code: u16) -> (r: Reply)
    ensures
        r == echo(message@, response_code),
{
    Reply {
        id: message.id,
        op_code: message.op_code,
        recursion_desired: message.recursion_desired,
        checking_disabled: message.checking_disabled,
        authoritative: false,
        response_code,
        echoed: 1,
        answer: None,
    }
}

// ---------------------------------------------------------------------------
// Laws
// ---------------------------------------------------------------------------

/// A reply that echoes a message answers nothing and claims nothing: it carries
/// the message's own id, operation and flags, its first question, and the code.
pub proof fn law_echo_carries_what_was_asked(message: MessageView, code: u16, other: u16)
    ensures
        echo(message, code).id == message.id,
        echo(message, code).op_code == message.op_code,
        echo(message, code).recursion_desired == message.recursion_desired,
        echo(message, code).checking_disabled == message.checking_disabled,
        echo(message, code).response_code == code,
        echo(message, code).echoed == 1,
        echo(message, code).answer is None,
        !echo(message, code).authoritative,
        echo(message, code) == echo(message, other) ==> code == other,
{
}

/// The authority is added to the reply's own bytes, and a reply without one is
/// those bytes; what cannot be encoded is not sent.
pub proof fn law_authority_is_added_to_the_reply(request: Seq<u8>, reply: Reply, soa: SoaView)
    ensures
        encoded_reply(request, reply) is None ==> rendered(
            request,
            ResponseView { reply, authority: Some(soa) },
        ) is None,
        rendered(request, ResponseView { reply, authority: None }) == encoded_reply(request, reply),
        rendered(request, ResponseView { reply, authority: None }) matches Some(bytes) ==> rendered(
            request,
            ResponseView { reply, authority: Some(soa) },
        ) == with_authority(bytes, soa),
{
}

} // verus!
