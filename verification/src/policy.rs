//! Static ingress through the switch's forwarder API, the control exchange
//! that drives it, the in-guest box zone, rate-limited warnings, and the
//! tables of what boxes are admitted to reach.

use std::collections::{BTreeMap, BTreeSet};
use vstd::prelude::*;
use vstd::slice::slice_subrange;

use crate::addr::{Endpoint, IpAddr, Ipv4Addr, LOCALHOST_BITS};
use crate::dns::HOSTNAME_SUFFIX;
use crate::session::{DropRule, EgressRules, IngressPolicy, IpProto, PortMapping, Verdict};
use crate::subnet::SwitchSubnet;
use crate::table::{Key, Table};
use crate::text;

verus! {

// ---------------------------------------------------------------------------
// Forwarder requests
// ---------------------------------------------------------------------------

/// What the forwarder is asked to expose: a host-side listen address, the
/// box-side address it forwards to, and the transport.
#[derive(Debug, PartialEq, Eq)]
pub struct ExposeRequest {
    pub local: String,
    pub remote: String,
    pub protocol: String,
}

/// What the forwarder is asked to drop: the listen address and the transport
/// of a forward.
#[derive(Debug, PartialEq, Eq)]
pub struct UnexposeRequest {
    pub local: String,
    pub protocol: String,
}

/// How the switch's control socket is reached.
#[derive(Debug, PartialEq, Eq)]
#[non_exhaustive]
pub enum ControlChannel {
    /// A local unix socket.
    Unix(String),
    /// The host's switch over vsock.
    Vsock { cid: u32, port: u32 },
}

/// A forward that is exposed on the switch, kept so that it can be torn down.
#[derive(Debug, PartialEq, Eq)]
pub struct ExposedMapping {
    pub local: String,
    pub protocol: String,
}

/// The forwarder's spelling of a transport. It forwards TCP and UDP alone, and
/// takes TCP for anything else.
pub open spec fn protocol_name(proto: IpProto) -> Seq<char> {
    match proto {
        IpProto::Udp => "udp"@,
        _ => "tcp"@,
    }
}

/// The host-side listen address of a mapping: loopback, at the external port.
pub open spec fn local_of(mapping: PortMapping) -> Seq<char> {
    (Endpoint {
        ip: Ipv4Addr { bits: LOCALHOST_BITS },
        port: mapping.external_port,
    }).shown()
}

/// Whether `request` forwards `mapping` to the box at `ip`.
pub open spec fn forwards(request: ExposeRequest, mapping: PortMapping, ip: Ipv4Addr) -> bool {
    &&& request.local@ == local_of(mapping)
    &&& request.remote@ == (Endpoint { ip, port: mapping.internal_port }).shown()
    &&& request.protocol@ == protocol_name(mapping.proto)
}

/// The forwarder's spelling of a transport.
pub fn protocol_str(proto: IpProto) -> (r: &'static str)
    ensures
        r@ == protocol_name(proto),
{
    match proto {
        IpProto::Tcp => "tcp",
        IpProto::Udp => "udp",
        IpProto::Icmp => "tcp",
    }
}

/// The request that forwards a mapping's external port on host loopback to its
/// internal port at the box's address.
pub fn expose_request(mapping: &PortMapping, ptask_ip: Ipv4Addr) -> (r: ExposeRequest)
    ensures
        forwards(r, *mapping, ptask_ip),
{
    ExposeRequest {
        local: Endpoint::new(Ipv4Addr::localhost(), mapping.external_port).to_text(),
        remote: Endpoint::new(ptask_ip, mapping.internal_port).to_text(),
        protocol: protocol_str(mapping.proto).to_owned(),
    }
}

/// The course of applying an ingress declaration: one mapping after the other
/// is exposed, and on the first failure everything exposed before it is taken
/// back.
pub struct IngressCourse<'a> {
    ip: Ipv4Addr,
    mappings: &'a Vec<PortMapping>,
    exposed: Vec<ExposedMapping>,
}

/// Whether `exposed` names the forwards of `mappings`, in order.
pub open spec fn names_forwards(exposed: Seq<ExposedMapping>, mappings: Seq<PortMapping>) -> bool {
    &&& exposed.len() == mappings.len()
    &&& forall|i: int|
        0 <= i < exposed.len() ==> (#[trigger] exposed[i]).local@ == local_of(mappings[i])
            && exposed[i].protocol@ == protocol_name(mappings[i].proto)
}

impl<'a> IngressCourse<'a> {
    /// The mappings to expose.
    pub closed spec fn plan(&self) -> Seq<PortMapping> {
        self.mappings@
    }

    /// The box's address.
    pub closed spec fn box_ip(&self) -> Ipv4Addr {
        self.ip
    }

    /// How many mappings have been exposed.
    pub closed spec fn reached(&self) -> int {
        self.exposed@.len() as int
    }

    /// The forwards recorded are those of the first mappings.
    pub closed spec fn wf(&self) -> bool {
        &&& self.exposed@.len() <= self.mappings@.len()
        &&& names_forwards(self.exposed@, self.mappings@.take(self.exposed@.len() as int))
    }

    /// A course with nothing exposed.
    pub fn new(ptask_ip: Ipv4Addr, ingress: &'a IngressPolicy) -> (r: Self)
        ensures
            r.wf(),
            r.plan() == ingress.port_mappings@,
            r.box_ip() == ptask_ip,
            r.reached() == 0,
    {
        IngressCourse { ip: ptask_ip, mappings: &ingress.port_mappings, exposed: Vec::new() }
    }

    /// The request to post next, or `None` when every mapping is exposed.
    pub fn next(&self) -> (r: Option<ExposeRequest>)
        requires
            self.wf(),
        ensures
            match r {
                Some(request) => self.reached() < self.plan().len() && forwards(
                    request,
                    self.plan()[self.reached()],
                    self.box_ip(),
                ),
                None => self.reached() == self.plan().len(),
            },
    {
        if self.exposed.len() < self.mappings.len() {
            Some(expose_request(&self.mappings[self.exposed.len()], self.ip))
        } else {
            None
        }
    }

    /// Records that the last request was granted.
    pub fn granted(&mut self)
        requires
            old(self).wf(),
            old(self).reached() < old(self).plan().len(),
        ensures
            final(self).wf(),
            final(self).plan() == old(self).plan(),
            final(self).box_ip() == old(self).box_ip(),
            final(self).reached() == old(self).reached() + 1,
    {
        let n: usize = self.exposed.len();
        let request: ExposeRequest = expose_request(&self.mappings[n], self.ip);
        self.exposed.push(ExposedMapping { local: request.local, protocol: request.protocol });
        assert(self.mappings@.take(n + 1)[n as int] == self.mappings@[n as int]);
        assert forall|i: int| 0 <= i < n implies self.mappings@.take(n + 1)[i] == self.mappings@.take(
            n as int,
        )[i] by {}
    }

    /// Ends the course after a refused request: what to take back, which is
    /// every forward exposed so far.
    pub fn refused(self) -> (r: Vec<UnexposeRequest>)
        requires
            self.wf(),
        ensures
            r@.len() == self.reached(),
            forall|i: int|
                0 <= i < r@.len() ==> (#[trigger] r@[i]).local@ == local_of(self.plan()[i])
                    && r@[i].protocol@ == protocol_name(self.plan()[i].proto),
    {
        let ghost plan = self.mappings@;
        let r = unexpose_requests(&self.exposed);
        assert forall|i: int| 0 <= i < r@.len() implies (#[trigger] r@[i]).local@ == local_of(plan[i])
            && r@[i].protocol@ == protocol_name(plan[i].proto) by {
            assert(self.exposed@[i].local@ == local_of(plan.take(self.exposed@.len() as int)[i]));
        }
        r
    }

    /// Ends the course: the forwards exposed, for their teardown.
    pub fn finished(self) -> (r: Vec<ExposedMapping>)
        requires
            self.wf(),
        ensures
            names_forwards(r@, self.plan().take(self.reached())),
    {
        self.exposed
    }
}

/// The requests that take forwards back, in order.
pub fn unexpose_requests(exposed: &[ExposedMapping]) -> (r: Vec<UnexposeRequest>)
    ensures
        r@.len() == exposed@.len(),
        forall|i: int|
            0 <= i < r@.len() ==> (#[trigger] r@[i]).local@ == exposed@[i].local@ && r@[i].protocol@
                == exposed@[i].protocol@,
{
    let mut out: Vec<UnexposeRequest> = Vec::new();
    let mut i: usize = 0;
    while i < exposed.len()
        invariant
            i <= exposed.len(),
            out@.len() == i,
            forall|j: int|
                0 <= j < i ==> (#[trigger] out@[j]).local@ == exposed@[j].local@ && out@[j].protocol@
                    == exposed@[j].protocol@,
        decreases exposed.len() - i,
    {
        out.push(
            UnexposeRequest {
                local: exposed[i].local.clone(),
                protocol: exposed[i].protocol.clone(),
            },
        );
        i = i + 1;
    }
    out
}

// ---------------------------------------------------------------------------
// The control exchange
// ---------------------------------------------------------------------------

/// The most bytes that are buffered of one control response.
pub const MAX_CONTROL_RESPONSE: usize = 65536;

/// The bytes of a control request: a keep-alive `POST` of a JSON body.
pub open spec fn control_request_bytes(path: Seq<char>, body: Seq<u8>) -> Seq<u8> {
    vstd::utf8::encode_utf8(
        "POST "@ + path
            + " HTTP/1.1\r\nHost: localhost\r\nContent-Type: application/json\r\nContent-Length: "@
            + text::decimal(body.len()) + "\r\n\r\n"@,
    ) + body
}

/// The bytes of a control request that posts `body` to `path`.
pub fn control_request(path: &str, body: &[u8]) -> (r: Vec<u8>)
    ensures
        r@ == control_request_bytes(path@, body@),
{
    let mut head: String = String::new();
    head.append("POST ");
    head.append(path);
    head.append(
        " HTTP/1.1\r\nHost: localhost\r\nContent-Type: application/json\r\nContent-Length: ",
    );
    text::push_decimal(&mut head, body.len() as u64);
    head.append("\r\n\r\n");
    assert(head@ =~= "POST "@ + path@
        + " HTTP/1.1\r\nHost: localhost\r\nContent-Type: application/json\r\nContent-Length: "@
        + text::decimal(body@.len()) + "\r\n\r\n"@);
    let mut out: Vec<u8> = text::bytes_of(head.as_str().as_bytes());
    text::push_bytes(&mut out, body);
    out
}

/// Where the headers of a response end, once they are all there.
pub open spec fn header_end(response: Seq<u8>) -> Option<int> {
    match text::find(response, text::ascii("\r\n\r\n"@)) {
        Some(at) => Some(at + 4),
        None => None,
    }
}

/// The length that a header line declares for the body.
pub open spec fn length_value(line: Seq<char>) -> Option<int> {
    let colon = text::scan(line, ':');
    if colon < line.len() && text::lower(text::trim_white(line.take(colon)))
        == "content-length"@ {
        text::numeral(text::trim_white(line.skip(colon + 1)), 10, usize::MAX as int)
    } else {
        None
    }
}

/// The first length that lines declare for the body.
pub open spec fn first_length(lines: Seq<Seq<char>>) -> Option<int>
    decreases lines.len(),
{
    if lines.len() == 0 {
        None
    } else {
        match length_value(lines[0]) {
            Some(n) => Some(n),
            None => first_length(lines.drop_first()),
        }
    }
}

/// The length that a header block declares for the body.
pub open spec fn declared_length(headers: Seq<u8>) -> Option<int> {
    if vstd::utf8::valid_utf8(headers) {
        first_length(text::text_lines(vstd::utf8::decode_utf8(headers)))
    } else {
        None
    }
}

/// The index just past the end of the headers, or `None` while they are not
/// all there.
pub fn find_header_end(response: &[u8]) -> (r: Option<usize>)
    ensures
        match r {
            Some(i) => header_end(response@) == Some(i as int) && i <= response@.len(),
            None => header_end(response@) is None,
        },
{
    let marker: Vec<u8> = text::ascii_bytes("\r\n\r\n");
    let total: usize = response.len();
    proof {
        reveal_strlit("\r\n\r\n");
        assert(marker@.len() == 4);
    }
    match text::find_bytes(response, &marker) {
        Some(at) => Some(at + 4),
        None => None,
    }
}

/// The length that one header line declares for the body.
fn line_length(line: &[char]) -> (r: Option<usize>)
    ensures
        match r {
            Some(n) => length_value(line@) == Some(n as int),
            None => length_value(line@) is None,
        },
{
    assert(line@.skip(0) =~= line@);
    let colon: usize = text::scan_chars(line, ':', 0);
    if colon == line.len() {
        return None;
    }
    let name: Vec<char> = text::chars_in(line, 0, colon);
    assert(name@ =~= line@.take(colon as int));
    let (a, b): (usize, usize) = text::trim_white_bounds(&name);
    let trimmed: String = text::string_of(&text::chars_in(&name, a, b));
    if !text::same(text::to_lower(trimmed.as_str()).as_str(), "content-length") {
        return None;
    }
    let value: Vec<char> = text::chars_in(line, colon + 1, line.len());
    assert(value@ =~= line@.skip(colon + 1));
    let (x, y): (usize, usize) = text::trim_white_bounds(&value);
    match text::parse_numeral(&text::chars_in(&value, x, y), 10, usize::MAX as u64) {
        Some(n) => Some(n as usize),
        None => None,
    }
}

/// The length that a header block declares for the body, or `None` where it
/// declares none that can be read.
pub fn content_length(headers: &[u8]) -> (r: Option<usize>)
    ensures
        match r {
            Some(n) => declared_length(headers@) == Some(n as int),
            None => declared_length(headers@) is None,
        },
{
    let chars: Vec<char> = match text::decode(headers) {
        Some(t) => text::chars_of(t),
        None => {
            return None;
        },
    };
    let lines: Vec<Vec<char>> = text::split_lines(&chars);
    let ghost all = text::text_lines(chars@);
    let mut i: usize = 0;
    assert(all.skip(0) =~= all);
    while i < lines.len()
        invariant
            i <= lines.len(),
            lines@.len() == all.len(),
            forall|j: int| 0 <= j < lines@.len() ==> (#[trigger] lines@[j])@ == all[j],
            declared_length(headers@) == first_length(all),
            first_length(all) == first_length(all.skip(i as int)),
        decreases lines.len() - i,
    {
        assert(all.skip(i as int)[0] == lines@[i as int]@);
        assert(all.skip(i as int).drop_first() =~= all.skip(i + 1));
        match line_length(&lines[i]) {
            Some(n) => {
                return Some(n);
            },
            None => {},
        }
        i = i + 1;
    }
    None
}

/// What to do next with a control response.
#[derive(Clone, Copy, Debug, PartialEq, Eq, Structural)]
pub enum ExchangeStep {
    /// Read on.
    Read,
    /// The response is in hand; the stream need not be closed first.
    Done,
    /// The headers did not end within the size cap.
    Fail,
}

/// What to do next with a control response of which `response` has been
/// buffered. `eof` says that the stream has ended.
pub open spec fn exchange_next(response: Seq<u8>, eof: bool) -> ExchangeStep {
    match header_end(response) {
        None => if response.len() >= MAX_CONTROL_RESPONSE {
            ExchangeStep::Fail
        } else if eof {
            ExchangeStep::Done
        } else {
            ExchangeStep::Read
        },
        Some(end) => {
            let want = match declared_length(response.take(end)) {
                Some(n) => n,
                None => 0,
            };
            if response.len() - end >= want || response.len() >= MAX_CONTROL_RESPONSE || eof {
                ExchangeStep::Done
            } else {
                ExchangeStep::Read
            }
        },
    }
}

/// What to do next with a control response. A response is framed by its
/// declared length, never by the close of the stream.
pub fn exchange(response: &[u8], eof: bool) -> (r: ExchangeStep)
    ensures
        r == exchange_next(response@, eof),
{
    match find_header_end(response) {
        None => if response.len() >= MAX_CONTROL_RESPONSE {
            ExchangeStep::Fail
        } else if eof {
            ExchangeStep::Done
        } else {
            ExchangeStep::Read
        },
        Some(end) => {
            let headers: &[u8] = slice_subrange(response, 0, end);
            assert(headers@ =~= response@.take(end as int));
            let want: usize = match content_length(headers) {
                Some(n) => n,
                None => 0,
            };
            if response.len() - end >= want || response.len() >= MAX_CONTROL_RESPONSE || eof {
                ExchangeStep::Done
            } else {
                ExchangeStep::Read
            }
        },
    }
}

/// Why a status line cannot be read.
#[derive(Debug, PartialEq, Eq)]
pub enum StatusError {
    /// It is not UTF-8.
    NotUtf8,
    /// It carries no status code; the line.
    Malformed(String),
}

/// How many bytes of a response come before its first line break.
pub open spec fn status_line_length(response: Seq<u8>) -> int {
    text::leading(response, |b: u8| b != 13 && b != 10)
}

/// The status code of a status line: its second word.
pub open spec fn status_of(line: Seq<char>) -> Option<int> {
    if text::words(line).len() >= 2 {
        text::numeral(text::words(line)[1], 10, 65535)
    } else {
        None
    }
}

/// The status code of an HTTP response.
pub fn parse_status_code(response: &[u8]) -> (r: Result<u16, StatusError>)
    ensures
        ({
            let line = response@.take(status_line_length(response@));
            let words = vstd::utf8::decode_utf8(line);
            match r {
                Ok(code) => vstd::utf8::valid_utf8(line) && status_of(words) == Some(code as int),
                Err(StatusError::NotUtf8) => !vstd::utf8::valid_utf8(line),
                Err(StatusError::Malformed(shown)) => vstd::utf8::valid_utf8(line) && status_of(
                    words,
                ) is None && shown@ == words,
            }
        }),
{
    let ghost p = |b: u8| b != 13 && b != 10;
    let mut end: usize = 0;
    while end < response.len() && response[end] != 13 && response[end] != 10
        invariant
            end <= response.len(),
            p == (|b: u8| b != 13 && b != 10),
            forall|j: int| 0 <= j < end ==> p(#[trigger] response@[j]),
        decreases response.len() - end,
    {
        end = end + 1;
    }
    proof {
        text::lemma_leading_is(response@, p, end as int);
    }
    let line: &[u8] = slice_subrange(response, 0, end);
    assert(line@ =~= response@.take(status_line_length(response@)));
    let decoded: &str = match text::decode(line) {
        Some(t) => t,
        None => {
            return Err(StatusError::NotUtf8);
        },
    };
    let words: Vec<Vec<char>> = text::split_words(&text::chars_of(decoded));
    if words.len() >= 2 {
        match text::parse_numeral(&words[1], 10, 65535) {
            Some(code) => {
                return Ok(code as u16);
            },
            None => {},
        }
    }
    Err(StatusError::Malformed(decoded.to_owned()))
}

/// The body bytes of a response, or all of it where the headers do not end.
pub fn body_after_headers<'a>(response: &'a [u8]) -> (r: &'a [u8])
    ensures
        r@ == (match header_end(response@) {
            Some(end) => response@.skip(end),
            None => response@,
        }),
{
    match find_header_end(response) {
        Some(end) => {
            assert(response@.subrange(end as int, response@.len() as int) =~= response@.skip(
                end as int,
            ));
            slice_subrange(response, end, response.len())
        },
        None => response,
    }
}

/// What became of a control request.
#[derive(Debug, PartialEq, Eq)]
pub enum ControlReply<'a> {
    /// It was granted.
    Granted,
    /// It was refused, with a status and a body.
    Refused { status: u16, body: &'a [u8] },
    /// The reply cannot be read.
    Unreadable(StatusError),
}

/// Reads what became of a control request: it is granted when its status is
/// between 200 and 299.
pub fn control_reply<'a>(response: &'a [u8]) -> (r: ControlReply<'a>)
    ensures
        ({
            let line = response@.take(status_line_length(response@));
            let status = if vstd::utf8::valid_utf8(line) {
                status_of(vstd::utf8::decode_utf8(line))
            } else {
                None
            };
            match r {
                ControlReply::Granted => status is Some && 200 <= status->0 < 300,
                ControlReply::Refused { status: code, body } => {
                    &&& status == Some(code as int)
                    &&& !(200 <= code < 300)
                    &&& body@ == (match header_end(response@) {
                        Some(end) => response@.skip(end),
                        None => response@,
                    })
                },
                ControlReply::Unreadable(StatusError::NotUtf8) => !vstd::utf8::valid_utf8(line),
                ControlReply::Unreadable(StatusError::Malformed(shown)) => vstd::utf8::valid_utf8(
                    line,
                ) && status is None && shown@ == vstd::utf8::decode_utf8(line),
            }
        }),
{
    match parse_status_code(response) {
        Ok(code) => if 200 <= code && code < 300 {
            ControlReply::Granted
        } else {
            ControlReply::Refused { status: code, body: body_after_headers(response) }
        },
        Err(e) => ControlReply::Unreadable(e),
    }
}

/// A response whose headers have ended and whose declared body has arrived is
/// done with, whether or not the stream has ended; until then, and below the
/// size cap, more is read.
pub proof fn law_response_is_framed_by_its_declared_length(response: Seq<u8>, end: int, want: int)
    requires
        header_end(response) == Some(end),
        declared_length(response.take(end)) == Some(want),
    ensures
        response.len() >= end + want ==> exchange_next(response, false) == ExchangeStep::Done,
        response.len() < end + want && response.len() < MAX_CONTROL_RESPONSE ==> exchange_next(
            response,
            false,
        ) == ExchangeStep::Read,
{
}

// ---------------------------------------------------------------------------
// Zone records
// ---------------------------------------------------------------------------

/// A zone to add to the switch's resolver.
#[derive(Debug, PartialEq, Eq)]
pub struct DnsZone {
    pub name: String,
    pub records: Vec<DnsRecord>,
}

/// One answer within a zone.
#[derive(Debug, PartialEq, Eq)]
pub struct DnsRecord {
    pub name: String,
    pub ip: String,
}

/// Whether `zone` adds one record, `label` at `ip`, to the box zone.
pub open spec fn adds_record(zone: DnsZone, label: Seq<char>, ip: Ipv4Addr) -> bool {
    &&& zone.name@ == HOSTNAME_SUFFIX@ + seq!['.']
    &&& zone.records@.len() == 1
    &&& zone.records@[0].name@ == label
    &&& zone.records@[0].ip@ == ip.dotted()
}

/// The zone that adds one record, `label` at `ip`, to the box zone.
fn zone_body(label: String, ip: Ipv4Addr) -> (r: DnsZone)
    ensures
        adds_record(r, label@, ip),
{
    let mut name: String = HOSTNAME_SUFFIX.to_owned();
    name.push('.');
    let mut records: Vec<DnsRecord> = Vec::new();
    records.push(DnsRecord { name: label, ip: ip.to_text() });
    assert(name@ =~= HOSTNAME_SUFFIX@ + seq!['.']);
    DnsZone { name, records }
}

/// The zone that adds a session's name at its lease. The switch's resolver
/// matches labels by case, so the label is in lower case.
pub fn dns_add_body(session_name: &str, lease_ip: Ipv4Addr) -> (r: DnsZone)
    ensures
        adds_record(r, text::lower(session_name@), lease_ip),
{
    zone_body(text::to_lower(session_name), lease_ip)
}

/// The label of the host's name in the box zone.
pub const HOST_LABEL: &'static str = "host";

/// The name a box resolves to reach the host its node runs on.
pub const HOST_HOSTNAME: &'static str = "host.min.internal";

/// Where a box stands relative to the host.
#[derive(Clone, Copy, Debug, PartialEq, Eq, Structural)]
pub enum HostReach {
    /// The box shares the host's network namespace.
    SharedNamespace,
    /// The box reaches the host across the switch.
    Switch,
}

/// The address that the host's name answers a box with this reach.
pub open spec fn host_address(reach: HostReach, subnet: SwitchSubnet) -> Ipv4Addr {
    match reach {
        HostReach::SharedNamespace => Ipv4Addr { bits: LOCALHOST_BITS },
        HostReach::Switch => Ipv4Addr { bits: (subnet.broadcast_bits() - 1) as u32 },
    }
}

/// The address that the host's name answers: `127.0.0.1` where the box shares
/// the host's namespace, the switch's host alias where it stands on the
/// switch.
pub fn host_reach_address(reach: HostReach, subnet: SwitchSubnet) -> (r: Ipv4Addr)
    ensures
        r == host_address(reach, subnet),
{
    match reach {
        HostReach::SharedNamespace => Ipv4Addr::localhost(),
        HostReach::Switch => subnet.host_alias(),
    }
}

/// The zone that adds the host's name.
pub fn host_dns_body(subnet: SwitchSubnet) -> (r: DnsZone)
    ensures
        adds_record(r, HOST_LABEL@, host_address(HostReach::Switch, subnet)),
{
    zone_body(HOST_LABEL.to_owned(), host_reach_address(HostReach::Switch, subnet))
}

// ---------------------------------------------------------------------------
// The in-guest box zone
// ---------------------------------------------------------------------------

/// One box's place in the box zone: its session name in lower case, its lease,
/// and the ports its ingress declares.
#[derive(Debug, PartialEq, Eq)]
pub struct BoxZoneEntry {
    pub session: String,
    pub lease: Ipv4Addr,
    pub tcp_ports: BTreeSet<u16>,
    pub udp_ports: BTreeSet<u16>,
}

/// One box's place in the box zone, mathematically.
#[verifier::ext_equal]
pub struct BoxZoneEntryView {
    pub session: Seq<char>,
    pub lease: Ipv4Addr,
    pub tcp_ports: Set<u16>,
    pub udp_ports: Set<u16>,
}

impl View for BoxZoneEntry {
    type V = BoxZoneEntryView;

    open spec fn view(&self) -> BoxZoneEntryView {
        BoxZoneEntryView {
            session: self.session@,
            lease: self.lease,
            tcp_ports: self.tcp_ports@,
            udp_ports: self.udp_ports@,
        }
    }
}

impl BoxZoneEntryView {
    /// Whether the box declares `port` for `proto`.
    pub open spec fn declares(self, proto: IpProto, port: u16) -> bool {
        match proto {
            IpProto::Tcp => self.tcp_ports.contains(port),
            IpProto::Udp => self.udp_ports.contains(port),
            IpProto::Icmp => false,
        }
    }
}

impl BoxZoneEntry {
    /// The box's two-label name.
    pub fn name(&self) -> (r: String)
        ensures
            r@ == self@.session + seq!['.'] + HOSTNAME_SUFFIX@,
    {
        let mut out: String = self.session.clone();
        out.push('.');
        out.append(HOSTNAME_SUFFIX);
        assert(out@ =~= self@.session + seq!['.'] + HOSTNAME_SUFFIX@);
        out
    }

    /// Whether the box declares `port` for `proto`. A transport that no
    /// mapping can name declares nothing.
    pub fn declares(&self, proto: IpProto, port: u16) -> (r: bool)
        ensures
            r == self@.declares(proto, port),
    {
        proof {
            crate::ordered::lemma_integers();
        }
        match proto {
            IpProto::Tcp => self.tcp_ports.contains(&port),
            IpProto::Udp => self.udp_ports.contains(&port),
            IpProto::Icmp => false,
        }
    }
}

/// What a box's own ingress says of a port.
#[derive(Clone, Copy, Debug, PartialEq, Eq, Structural)]
pub enum IngressVerdict {
    Declared,
    Undeclared,
}

impl IngressVerdict {
    /// The verdict's name.
    pub fn as_str(self) -> (r: &'static str)
        ensures
            r@ == (match self {
                IngressVerdict::Declared => "declared"@,
                IngressVerdict::Undeclared => "undeclared"@,
            }),
    {
        match self {
            IngressVerdict::Declared => "declared",
            IngressVerdict::Undeclared => "undeclared",
        }
    }
}

/// The target of a connection between boxes, and what its ingress says of the
/// port.
#[derive(Debug, PartialEq, Eq)]
pub struct BoxZoneTarget {
    pub session: String,
    pub ingress: IngressVerdict,
}

/// The label of a name in the box zone: what stands before the zone's suffix,
/// trailing dots and case aside.
pub open spec fn zone_label(name: Seq<char>) -> Option<Seq<char>> {
    let bare = name.take(name.len() - text::trailing(name, text::is_char('.')));
    let low = text::lower(bare);
    if text::ends_with(low, HOSTNAME_SUFFIX@) {
        let rest = low.take(low.len() - HOSTNAME_SUFFIX@.len());
        if rest.len() > 0 && rest.last() == '.' {
            Some(rest.drop_last())
        } else {
            None
        }
    } else {
        None
    }
}

/// The label of a name in the box zone.
fn label_in_zone(name: &str) -> (r: Option<String>)
    ensures
        match r {
            Some(label) => zone_label(name@) == Some(label@),
            None => zone_label(name@) is None,
        },
{
    let chars: Vec<char> = text::chars_of(name);
    let mut end: usize = chars.len();
    while end > 0 && chars[end - 1] == '.'
        invariant
            end <= chars.len(),
            forall|j: int| end <= j < chars@.len() ==> text::is_char('.')(#[trigger] chars@[j]),
        decreases end,
    {
        end = end - 1;
    }
    proof {
        text::lemma_trailing_is(chars@, text::is_char('.'), chars@.len() - end);
    }
    let bare: String = text::string_of(&text::chars_in(&chars, 0, end));
    assert(bare@ =~= name@.take(end as int));
    let low: Vec<char> = text::chars_of(text::to_lower(bare.as_str()).as_str());
    let suffix: Vec<char> = text::chars_of(HOSTNAME_SUFFIX);
    if low.len() < suffix.len() {
        return None;
    }
    let cut: usize = low.len() - suffix.len();
    assert(low@.skip(cut as int).take(suffix@.len() as int) =~= low@.skip(cut as int));
    if !text::chars_match_at(&low, cut, &suffix) {
        return None;
    }
    if cut == 0 || low[cut - 1] != '.' {
        return None;
    }
    let label: Vec<char> = text::chars_in(&low, 0, cut - 1);
    assert(label@ =~= low@.take(cut as int).drop_last());
    Some(text::string_of(&label))
}

/// The session names of entries.
pub open spec fn entry_names(entries: Seq<&BoxZoneEntry>) -> Seq<Seq<char>> {
    Seq::new(entries.len(), |i: int| entries[i].session@)
}

/// The in-guest box zone: one entry per live box with an address of its own.
pub struct BoxZone {
    entries: Table<String, BoxZoneEntry>,
}

impl View for BoxZone {
    type V = Map<Seq<char>, BoxZoneEntryView>;

    closed spec fn view(&self) -> Map<Seq<char>, BoxZoneEntryView> {
        Map::new(
            |k: Seq<char>| self.entries@.contains_key(k),
            |k: Seq<char>| self.entries@[k]@,
        )
    }
}

/// What is registered for a session.
pub open spec fn zone_entry_of(
    session: Seq<char>,
    lease: Ipv4Addr,
    ingress: Option<&IngressPolicy>,
) -> BoxZoneEntryView {
    BoxZoneEntryView {
        session: text::lower(session),
        lease,
        tcp_ports: crate::session::declared_ports(ingress, IpProto::Tcp, true),
        udp_ports: crate::session::declared_ports(ingress, IpProto::Udp, true),
    }
}

impl BoxZone {
    /// Each entry stands under its session's name.
    pub closed spec fn wf(&self) -> bool {
        &&& self.entries.wf()
        &&& forall|k: Seq<char>| #[trigger]
            self.entries@.contains_key(k) ==> self.entries@[k].session@ == k
    }

    /// An empty zone.
    pub fn new() -> (r: Self)
        ensures
            r.wf(),
            r@ == Map::<Seq<char>, BoxZoneEntryView>::empty(),
    {
        let r = BoxZone { entries: Table::new() };
        assert(r@ =~= Map::<Seq<char>, BoxZoneEntryView>::empty());
        r
    }

    /// Records a session's lease and the ports its ingress declares, in place
    /// of what was recorded for it before.
    pub fn register(&mut self, session: &str, lease: Ipv4Addr, ingress: Option<&IngressPolicy>)
        requires
            old(self).wf(),
        ensures
            final(self).wf(),
            final(self)@ == old(self)@.insert(
                text::lower(session@),
                zone_entry_of(session@, lease, ingress),
            ),
    {
        let name: String = text::to_lower(session);
        let entry = BoxZoneEntry {
            session: name.clone(),
            lease,
            tcp_ports: crate::session::ports_of(ingress, IpProto::Tcp, true),
            udp_ports: crate::session::ports_of(ingress, IpProto::Udp, true),
        };
        self.entries.insert(name, entry);
        assert(self@ =~= old(self)@.insert(
            text::lower(session@),
            zone_entry_of(session@, lease, ingress),
        ));
    }

    /// Withdraws a session's entry.
    pub fn withdraw(&mut self, session: &str)
        requires
            old(self).wf(),
        ensures
            final(self).wf(),
            final(self)@ == old(self)@.remove(text::lower(session@)),
    {
        self.entries.remove(&text::to_lower(session));
        assert(self@ =~= old(self)@.remove(text::lower(session@)));
    }

    /// The lease that `name` resolves to inside boxes, or `None` for a name
    /// outside the zone or one that no live box holds. No allow list is read.
    pub fn resolve(&self, name: &str) -> (r: Option<Ipv4Addr>)
        requires
            self.wf(),
        ensures
            r == (match zone_label(name@) {
                Some(label) => if self@.contains_key(label) {
                    Some(self@[label].lease)
                } else {
                    None
                },
                None => None,
            }),
    {
        match label_in_zone(name) {
            Some(label) => match self.entries.get(&label) {
                Some(entry) => Some(entry.lease),
                None => None,
            },
            None => None,
        }
    }

    /// The box that holds `address`, the first in name order, and what its
    /// ingress says of the port; `None` when no live box holds it.
    pub fn target_at(&self, address: Ipv4Addr, proto: IpProto, port: u16) -> (r: Option<
        BoxZoneTarget,
    >)
        requires
            self.wf(),
        ensures
            match r {
                Some(target) => {
                    let entry = self@[target.session@];
                    &&& self@.contains_key(target.session@)
                    &&& entry.lease == address
                    &&& forall|other: Seq<char>| #[trigger]
                        self@.contains_key(other) && self@[other].lease == address && other
                            != target.session@ ==> crate::table::text_before(target.session@, other)
                    &&& target.ingress == (if entry.declares(proto, port) {
                        IngressVerdict::Declared
                    } else {
                        IngressVerdict::Undeclared
                    })
                },
                None => forall|k: Seq<char>| #[trigger]
                    self@.contains_key(k) ==> self@[k].lease != address,
            },
    {
        let mut i: usize = 0;
        while i < self.entries.len()
            invariant
                self.wf(),
                i <= self.entries.keys().len(),
                forall|j: int|
                    0 <= j < i ==> self@[#[trigger] self.entries.keys()[j]].lease != address,
            decreases self.entries.keys().len() - i,
        {
            proof {
                self.entries.lemma_keys();
            }
            let entry: &BoxZoneEntry = self.entries.value_at(i);
            let ghost name = self.entries.keys()[i as int];
            assert(self.entries@.contains_key(name));
            assert(self@[name] == entry@);
            if entry.lease == address {
                let ingress: IngressVerdict = if entry.declares(proto, port) {
                    IngressVerdict::Declared
                } else {
                    IngressVerdict::Undeclared
                };
                proof {
                    assert forall|other: Seq<char>| #[trigger]
                        self@.contains_key(other) && self@[other].lease == address && other
                            != name implies crate::table::text_before(name, other) by {
                        assert(self.entries@.contains_key(other));
                        let j = self.entries.keys().index_of(other);
                        assert(self.entries.keys()[j] == other);
                        assert(<String as Key>::before(name, other));
                    }
                }
                return Some(BoxZoneTarget { session: entry.session.clone(), ingress });
            }
            i = i + 1;
        }
        proof {
            self.entries.lemma_keys();
            assert forall|k: Seq<char>| #[trigger] self@.contains_key(k) implies self@[k].lease
                != address by {
                assert(self.entries@.contains_key(k));
                let j = self.entries.keys().index_of(k);
                assert(self.entries.keys()[j] == k);
            }
        }
        None
    }

    /// Every live entry, in session-name order.
    pub fn entries(&self) -> (r: Vec<&BoxZoneEntry>)
        requires
            self.wf(),
        ensures
            crate::table::lists(entry_names(r@), self@.dom()),
            forall|i: int| 0 <= i < r@.len() ==> (#[trigger] r@[i])@ == self@[r@[i].session@],
    {
        let mut out: Vec<&BoxZoneEntry> = Vec::new();
        let mut i: usize = 0;
        while i < self.entries.len()
            invariant
                self.wf(),
                i <= self.entries.keys().len(),
                entry_names(out@) == self.entries.keys().take(i as int),
                forall|j: int|
                    0 <= j < out@.len() ==> (#[trigger] out@[j])@ == self@[out@[j].session@],
            decreases self.entries.keys().len() - i,
        {
            proof {
                self.entries.lemma_keys();
            }
            let ghost before = out@;
            assert(self.entries@.contains_key(self.entries.keys()[i as int]));
            out.push(self.entries.value_at(i));
            i = i + 1;
            assert(entry_names(out@) =~= entry_names(before).push(self.entries.keys()[i - 1]));
            assert(entry_names(out@) =~= self.entries.keys().take(i as int));
        }
        proof {
            self.entries.lemma_keys();
            assert(self.entries.keys().take(i as int) =~= self.entries.keys());
            assert forall|name: Seq<char>| #[trigger]
                self@.dom().contains(name) implies entry_names(out@).contains(name) by {
                assert(self.entries@.contains_key(name));
            }
            assert forall|j: int| 0 <= j < out@.len() implies self@.dom().contains(
                #[trigger] entry_names(out@)[j],
            ) by {
                assert(self.entries@.contains_key(self.entries.keys()[j]));
            }
        }
        out
    }
}

// ---------------------------------------------------------------------------
// Rate-limited warnings
// ---------------------------------------------------------------------------

/// The least gap between two warnings of one kind, in milliseconds.
pub const WARN_MIN_INTERVAL_MS: u64 = 60_000;

/// The direction of the traffic that a policy refused.
#[derive(Clone, Copy, Debug, PartialEq, Eq, Structural)]
pub enum Direction {
    /// Outbound from the box.
    Egress,
    /// Inbound to the box.
    Ingress,
}

impl Direction {
    /// The direction's name.
    pub fn as_str(self) -> (r: &'static str)
        ensures
            r@ == (match self {
                Direction::Egress => "egress"@,
                Direction::Ingress => "ingress"@,
            }),
    {
        match self {
            Direction::Egress => "egress",
            Direction::Ingress => "ingress",
        }
    }
}

/// Whether a warning may be emitted at `now`, when the last one was emitted at
/// `last`. Times are in milliseconds.
pub open spec fn warning_due(last: Option<u64>, now: u64) -> bool {
    match last {
        Some(prev) => now - prev >= WARN_MIN_INTERVAL_MS,
        None => true,
    }
}

/// Whether a warning may be emitted.
fn is_due(last: Option<u64>, now: u64) -> (r: bool)
    ensures
        r == warning_due(last, now),
{
    match last {
        Some(prev) => now >= prev && now - prev >= WARN_MIN_INTERVAL_MS,
        None => true,
    }
}

/// Keeps warnings apart.
#[derive(Debug)]
pub struct PolicyWarnLimiter {
    last: Option<u64>,
}

impl PolicyWarnLimiter {
    /// When the last warning was emitted.
    pub closed spec fn last_warned(&self) -> Option<u64> {
        self.last
    }

    /// A limiter that has emitted nothing.
    pub fn new() -> (r: Self)
        ensures
            r.last_warned() is None,
    {
        PolicyWarnLimiter { last: None }
    }

    /// Whether enough time has passed to warn at `now`; if so, `now` is
    /// recorded as the last emission.
    pub fn should_warn_at(&mut self, now: u64) -> (r: bool)
        ensures
            r == warning_due(old(self).last_warned(), now),
            final(self).last_warned() == (if r {
                Some(now)
            } else {
                old(self).last_warned()
            }),
    {
        if is_due(self.last, now) {
            self.last = Some(now);
            true
        } else {
            false
        }
    }
}

/// Keeps warnings of one key apart, each key on its own.
pub struct KeyedWarnLimiter<K: Key> {
    last: Table<K, u64>,
}

impl<K: Key> View for KeyedWarnLimiter<K> {
    type V = Map<K::Model, u64>;

    closed spec fn view(&self) -> Map<K::Model, u64> {
        self.last@
    }
}

impl<K: Key> KeyedWarnLimiter<K> {
    /// The table of emissions is in order.
    pub closed spec fn wf(&self) -> bool {
        self.last.wf()
    }

    /// When the last warning of a key was emitted.
    pub open spec fn last_warned(&self, key: K::Model) -> Option<u64> {
        if self@.contains_key(key) {
            Some(self@[key])
        } else {
            None
        }
    }

    /// A limiter that has emitted nothing for any key.
    pub fn new() -> (r: Self)
        ensures
            r.wf(),
            r@ == Map::<K::Model, u64>::empty(),
    {
        KeyedWarnLimiter { last: Table::new() }
    }

    /// Whether enough time has passed to warn of `key` at `now`; if so, `now`
    /// is recorded as that key's last emission. Other keys are not touched.
    pub fn should_warn_at(&mut self, key: K, now: u64) -> (r: bool)
        requires
            old(self).wf(),
        ensures
            final(self).wf(),
            r == warning_due(old(self).last_warned(key.model()), now),
            final(self)@ == (if r {
                old(self)@.insert(key.model(), now)
            } else {
                old(self)@
            }),
    {
        let last: Option<u64> = match self.last.get(&key) {
            Some(prev) => Some(*prev),
            None => None,
        };
        if is_due(last, now) {
            self.last.insert(key, now);
            true
        } else {
            false
        }
    }
}

/// Two warnings of one kind are at least a minute apart.
pub proof fn law_warnings_are_a_minute_apart(first: u64, second: u64)
    requires
        warning_due(Some(first), second),
    ensures
        second - first >= 60_000,
{
}

// ---------------------------------------------------------------------------
// Admission windows
// ---------------------------------------------------------------------------

/// The shortest admission window, in milliseconds.
pub const ADMISSION_WINDOW_MIN_MS: u64 = 30_000;

/// The longest admission window, in milliseconds.
pub const ADMISSION_WINDOW_MAX_MS: u64 = 300_000;

/// How long an answer's addresses are admitted, in milliseconds: its time to
/// live, held between the bounds.
pub open spec fn window_of(ttl_secs: u32) -> int {
    if ttl_secs * 1000 < ADMISSION_WINDOW_MIN_MS {
        ADMISSION_WINDOW_MIN_MS as int
    } else if ttl_secs * 1000 > ADMISSION_WINDOW_MAX_MS {
        ADMISSION_WINDOW_MAX_MS as int
    } else {
        ttl_secs * 1000
    }
}

/// How long an answer's addresses are admitted, in milliseconds.
pub fn admission_window(ttl_secs: u32) -> (r: u64)
    ensures
        r == window_of(ttl_secs),
{
    let ttl: u64 = (ttl_secs as u64) * 1000;
    if ttl < ADMISSION_WINDOW_MIN_MS {
        ADMISSION_WINDOW_MIN_MS
    } else if ttl > ADMISSION_WINDOW_MAX_MS {
        ADMISSION_WINDOW_MAX_MS
    } else {
        ttl
    }
}

/// One admitted address: the name it was answered for, every address of that
/// answer, and when its window ends.
#[derive(Debug, PartialEq, Eq)]
pub struct PinnedAddress {
    pub address: Ipv4Addr,
    pub name: String,
    pub answer: Vec<Ipv4Addr>,
    pub expires: u64,
}

/// One admitted address, mathematically.
#[verifier::ext_equal]
pub struct PinView {
    pub address: Ipv4Addr,
    pub name: Seq<char>,
    pub answer: Seq<Ipv4Addr>,
    pub expires: u64,
}

impl View for PinnedAddress {
    type V = PinView;

    open spec fn view(&self) -> PinView {
        PinView {
            address: self.address,
            name: self.name@,
            answer: self.answer@,
            expires: self.expires,
        }
    }
}

/// A copy of a list of addresses.
pub fn copy_addresses(v: &[Ipv4Addr]) -> (r: Vec<Ipv4Addr>)
    ensures
        r@ == v@,
{
    let mut out: Vec<Ipv4Addr> = Vec::new();
    let mut i: usize = 0;
    while i < v.len()
        invariant
            i <= v.len(),
            out@ == v@.take(i as int),
        decreases v.len() - i,
    {
        out.push(v[i]);
        i = i + 1;
        assert(v@.take(i as int) =~= v@.take(i - 1).push(v@[i - 1]));
    }
    assert(v@.take(v@.len() as int) =~= v@);
    out
}

/// The addresses that a box's allowed names resolved to, each for its window.
pub struct PinTable {
    entries: BTreeMap<u32, PinnedAddress>,
}

impl View for PinTable {
    type V = Map<u32, PinView>;

    closed spec fn view(&self) -> Map<u32, PinView> {
        Map::new(|k: u32| self.entries@.contains_key(k), |k: u32| self.entries@[k]@)
    }
}

/// The live part of a table: what has not expired at `now`.
pub open spec fn unexpired(pins: Map<u32, PinView>, now: u64) -> Map<u32, PinView> {
    Map::new(|k: u32| pins.contains_key(k) && pins[k].expires > now, |k: u32| pins[k])
}

/// A table after `addresses` are put in it, in order.
pub open spec fn pinned(
    pins: Map<u32, PinView>,
    addresses: Seq<Ipv4Addr>,
    name: Seq<char>,
    answer: Seq<Ipv4Addr>,
    expires: u64,
) -> Map<u32, PinView>
    decreases addresses.len(),
{
    if addresses.len() == 0 {
        pins
    } else {
        pinned(pins, addresses.drop_last(), name, answer, expires).insert(
            addresses.last().bits,
            PinView { address: addresses.last(), name, answer, expires },
        )
    }
}

impl PinTable {
    /// Each entry stands under its own address.
    pub closed spec fn wf(&self) -> bool {
        forall|k: u32| #[trigger]
            self.entries@.contains_key(k) ==> self.entries@[k].address.bits == k
    }

    /// An empty table.
    pub fn new() -> (r: Self)
        ensures
            r.wf(),
            r@ == Map::<u32, PinView>::empty(),
    {
        let r = PinTable { entries: BTreeMap::new() };
        assert(r@ =~= Map::<u32, PinView>::empty());
        r
    }

    /// Drops what has expired at `now`.
    fn sweep(&mut self, now: u64)
        requires
            old(self).wf(),
        ensures
            final(self).wf(),
            final(self)@ == unexpired(old(self)@, now),
    {
        proof {
            crate::ordered::lemma_integers();
        }
        let lasts = |_bits: &u32, pin: &PinnedAddress| -> (r: bool)
            ensures
                r == (pin.expires > now),
            { pin.expires > now };
        crate::ordered::retain(&mut self.entries, lasts);
        assert(self@ =~= unexpired(old(self)@, now));
    }

    /// Admits `addresses` for `name` until `window` milliseconds after `now`,
    /// with `answer` as their source. A later answer for an address replaces
    /// the earlier one; what has expired is dropped.
    pub fn admit_answer(
        &mut self,
        name: &str,
        addresses: &[Ipv4Addr],
        answer: &[Ipv4Addr],
        window: u64,
        now: u64,
    )
        requires
            old(self).wf(),
            now + window <= u64::MAX,
        ensures
            final(self).wf(),
            final(self)@ == pinned(
                unexpired(old(self)@, now),
                addresses@,
                name@,
                answer@,
                (now + window) as u64,
            ),
    {
        self.sweep(now);
        let ghost live = self@;
        let expires: u64 = now + window;
        proof {
            crate::ordered::lemma_integers();
        }
        let mut i: usize = 0;
        assert(addresses@.take(0) =~= Seq::empty());
        while i < addresses.len()
            invariant
                self.wf(),
                crate::ordered::sortable::<u32>(),
                i <= addresses.len(),
                live == unexpired(old(self)@, now),
                self@ == pinned(live, addresses@.take(i as int), name@, answer@, expires),
            decreases addresses.len() - i,
        {
            let ghost here = self@;
            let address: Ipv4Addr = addresses[i];
            let pin = PinnedAddress {
                address,
                name: name.to_owned(),
                answer: copy_addresses(answer),
                expires,
            };
            let ghost shown = pin@;
            self.entries.insert(address.bits, pin);
            assert(self@ =~= here.insert(address.bits, shown));
            i = i + 1;
            assert(addresses@.take(i as int).drop_last() =~= addresses@.take(i - 1));
        }
        assert(addresses@.take(addresses@.len() as int) =~= addresses@);
    }

    /// Whether `address` is admitted at `now`.
    pub fn admits(&self, address: Ipv4Addr, now: u64) -> (r: bool)
        requires
            self.wf(),
        ensures
            r == (self@.contains_key(address.bits) && self@[address.bits].expires > now),
    {
        proof {
            crate::ordered::lemma_integers();
        }
        match self.entries.get(&address.bits) {
            Some(pin) => pin.expires > now,
            None => false,
        }
    }

    /// The live entries at `now`, in address order.
    pub fn live(&self, now: u64) -> (r: Vec<&PinnedAddress>)
        requires
            self.wf(),
        ensures
            forall|i: int, j: int|
                0 <= i < j < r@.len() ==> (#[trigger] r@[i]).address.bits < (
                #[trigger] r@[j]).address.bits,
            forall|i: int|
                0 <= i < r@.len() ==> self@.contains_key((#[trigger] r@[i]).address.bits)
                    && self@[r@[i].address.bits] == r@[i]@ && r@[i].expires > now,
            forall|k: u32| #[trigger]
                self@.contains_key(k) && self@[k].expires > now ==> exists|i: int|
                    0 <= i < r@.len() && (#[trigger] r@[i]).address.bits == k,
    {
        proof {
            crate::ordered::lemma_integers();
        }
        let keys: Vec<u32> = crate::ordered::keys_in(&self.entries);
        let mut out: Vec<&PinnedAddress> = Vec::new();
        let mut i: usize = 0;
        while i < keys.len()
            invariant
                self.wf(),
                crate::ordered::sortable::<u32>(),
                forall|a: u32, b: u32| #[trigger] crate::ordered::precedes(a, b) <==> a < b,
                i <= keys@.len(),
                crate::ordered::in_order(keys@),
                forall|k: u32| #[trigger] keys@.contains(k) <==> self.entries@.contains_key(k),
                forall|a: int, b: int|
                    0 <= a < b < out@.len() ==> (#[trigger] out@[a]).address.bits < (
                    #[trigger] out@[b]).address.bits,
                forall|a: int|
                    0 <= a < out@.len() ==> self@.contains_key((#[trigger] out@[a]).address.bits)
                        && self@[out@[a].address.bits] == out@[a]@ && out@[a].expires > now,
                forall|a: int|
                    0 <= a < out@.len() && i < keys@.len() ==> (#[trigger] out@[a]).address.bits
                        < keys@[i as int],
                forall|j: int|
                    0 <= j < i && self@[#[trigger] keys@[j]].expires > now ==> exists|a: int|
                        0 <= a < out@.len() && (#[trigger] out@[a]).address.bits == keys@[j],
            decreases keys@.len() - i,
        {
            let key: u32 = keys[i];
            let ghost kept = out@;
            assert(keys@.contains(key));
            if i + 1 < keys.len() {
                assert(crate::ordered::precedes(keys@[i as int], keys@[i + 1]));
            }
            if let Some(pin) = self.entries.get(&key) {
                assert(pin.address.bits == key);
                if pin.expires > now {
                    out.push(pin);
                    assert(out@[kept.len() as int].address.bits == key);
                }
            }
            i = i + 1;
            proof {
                assert forall|j: int|
                    0 <= j < i && self@[#[trigger] keys@[j]].expires > now implies exists|a: int|
                    0 <= a < out@.len() && (#[trigger] out@[a]).address.bits == keys@[j] by {
                    if j < i - 1 {
                        let a = choose|a: int|
                            0 <= a < kept.len() && (#[trigger] kept[a]).address.bits == keys@[j];
                        assert(out@[a] == kept[a]);
                    }
                }
            }
        }
        proof {
            assert forall|k: u32| #[trigger]
                self@.contains_key(k) && self@[k].expires > now implies exists|a: int|
                0 <= a < out@.len() && (#[trigger] out@[a]).address.bits == k by {
                assert(keys@.contains(k));
                let j = choose|j: int| 0 <= j < keys@.len() && keys@[j] == k;
                assert(self@[keys@[j]].expires > now);
            }
        }
        out
    }
}

/// What an answer pins stays admitted until its window ends and no longer, and
/// a later answer for the address sets the window anew.
pub proof fn law_pin_lasts_for_the_newest_window(
    pins: Map<u32, PinView>,
    addresses: Seq<Ipv4Addr>,
    name: Seq<char>,
    answer: Seq<Ipv4Addr>,
    expires: u64,
    address: Ipv4Addr,
)
    ensures
        ({
            let after = pinned(pins, addresses, name, answer, expires);
            if addresses.contains(address) {
                after.contains_key(address.bits) && after[address.bits] == (PinView {
                    address,
                    name,
                    answer,
                    expires,
                })
            } else {
                after.contains_key(address.bits) == pins.contains_key(address.bits)
                    && after[address.bits] == pins[address.bits]
            }
        }),
    decreases addresses.len(),
{
    if addresses.len() > 0 {
        let rest = addresses.drop_last();
        law_pin_lasts_for_the_newest_window(pins, rest, name, answer, expires, address);
        if addresses.contains(address) {
            if addresses.last() != address {
                let i = addresses.index_of(address);
                assert(addresses[i] == address);
                assert(rest[i] == address);
            }
        } else {
            assert(!rest.contains(address)) by {
                if rest.contains(address) {
                    let i = rest.index_of(address);
                    assert(addresses[i] == address);
                }
            }
            assert(addresses.last() != address) by {
                assert(addresses[addresses.len() - 1] == addresses.last());
            }
        }
    }
}

// ---------------------------------------------------------------------------
// Declarations
// ---------------------------------------------------------------------------

/// The ports a request to a box may name; `None` where nothing is gated.
#[derive(Debug, PartialEq, Eq)]
pub struct IngressRules {
    pub ports: Option<BTreeSet<u16>>,
}

impl IngressRules {
    /// Whether the rules let a request name `port`.
    pub open spec fn admits_port(self, port: u16) -> bool {
        match self.ports {
            Some(set) => set@.contains(port),
            None => true,
        }
    }

    /// The rules of a box with an address of its own: the external ports of
    /// its TCP mappings.
    pub fn for_own_address(ingress: Option<&IngressPolicy>) -> (r: Self)
        ensures
            r.ports matches Some(set) && set@ == crate::session::declared_ports(
                ingress,
                IpProto::Tcp,
                false,
            ),
    {
        IngressRules { ports: Some(crate::session::ports_of(ingress, IpProto::Tcp, false)) }
    }

    /// The rules of a box that carries the host's address: none.
    pub fn for_host_address() -> (r: Self)
        ensures
            r.ports is None,
    {
        IngressRules { ports: None }
    }

    /// Whether the rules let a request name `port`.
    pub fn admits(&self, port: u16) -> (r: bool)
        ensures
            r == self.admits_port(port),
    {
        proof {
            crate::ordered::lemma_integers();
        }
        match &self.ports {
            Some(set) => set.contains(&port),
            None => true,
        }
    }
}

/// What one live box declared.
#[derive(Debug)]
pub struct BoxDeclaration {
    /// What a direct connection to the box would dial.
    pub address: Ipv4Addr,
    /// The box's egress, where its address is the box's alone.
    pub egress: Option<EgressRules>,
    /// The ports the box declared inbound.
    pub ingress: IngressRules,
}

impl BoxDeclaration {
    /// The declaration of a box with an address of its own.
    pub fn for_own_address(
        lease: Ipv4Addr,
        egress: EgressRules,
        ingress: Option<&IngressPolicy>,
    ) -> (r: Self)
        ensures
            r.address == lease,
            r.egress == Some(egress),
            r.ingress.ports matches Some(set) && set@ == crate::session::declared_ports(
                ingress,
                IpProto::Tcp,
                false,
            ),
    {
        BoxDeclaration {
            address: lease,
            egress: Some(egress),
            ingress: IngressRules::for_own_address(ingress),
        }
    }

    /// The declaration of a box that carries the host's address: the address a
    /// box on the switch dials to reach the host, and no rules of its own.
    pub fn for_host_address(subnet: SwitchSubnet) -> (r: Self)
        ensures
            r.address == host_address(HostReach::Switch, subnet),
            r.egress is None,
            r.ingress.ports is None,
    {
        BoxDeclaration {
            address: subnet.host_alias(),
            egress: None,
            ingress: IngressRules::for_host_address(),
        }
    }
}

/// Every live box's declaration, by session name.
pub struct BoxAdmissions {
    boxes: Table<String, BoxDeclaration>,
}

impl View for BoxAdmissions {
    type V = Map<Seq<char>, BoxDeclaration>;

    closed spec fn view(&self) -> Map<Seq<char>, BoxDeclaration> {
        self.boxes@
    }
}

/// Whether a box holds an address, and no box before it in name order does.
pub open spec fn first_at(
    boxes: Map<Seq<char>, BoxDeclaration>,
    address: Ipv4Addr,
    name: Seq<char>,
) -> bool {
    &&& boxes.contains_key(name)
    &&& boxes[name].address == address
    &&& forall|other: Seq<char>| #[trigger]
        boxes.contains_key(other) && boxes[other].address == address && other != name
            ==> crate::table::text_before(name, other)
}

/// The egress of the box at an address, the first in name order, if its address
/// is the box's alone.
pub open spec fn rules_at(boxes: Map<Seq<char>, BoxDeclaration>, address: Ipv4Addr) -> Option<
    EgressRules,
> {
    if exists|name: Seq<char>| first_at(boxes, address, name) {
        boxes[choose|name: Seq<char>| first_at(boxes, address, name)].egress
    } else {
        None
    }
}

impl BoxAdmissions {
    /// The table is in order.
    pub closed spec fn wf(&self) -> bool {
        self.boxes.wf()
    }

    /// An empty table: nothing is admitted.
    pub fn new() -> (r: Self)
        ensures
            r.wf(),
            r@ == Map::<Seq<char>, BoxDeclaration>::empty(),
    {
        BoxAdmissions { boxes: Table::new() }
    }

    /// Records what a box declared, in place of what it declared before.
    pub fn declare(&mut self, session: &str, declaration: BoxDeclaration)
        requires
            old(self).wf(),
        ensures
            final(self).wf(),
            final(self)@ == old(self)@.insert(session@, declaration),
    {
        self.boxes.insert(session.to_owned(), declaration);
    }

    /// Drops a box's declaration.
    pub fn withdraw(&mut self, session: &str)
        requires
            old(self).wf(),
        ensures
            final(self).wf(),
            final(self)@ == old(self)@.remove(session@),
    {
        self.boxes.remove(&session.to_owned());
    }

    /// The egress of the box that holds `caller`, or `None` when the address
    /// is not one box's.
    pub fn caller(&self, caller: IpAddr) -> (r: Option<&EgressRules>)
        requires
            self.wf(),
        ensures
            match r {
                Some(rules) => caller matches IpAddr::V4(ip) && rules_at(self@, ip) == Some(*rules),
                None => caller matches IpAddr::V4(ip) ==> rules_at(self@, ip) is None,
            },
    {
        let address: Ipv4Addr = match caller {
            IpAddr::V4(ip) => ip,
            IpAddr::V6(_) => {
                return None;
            },
        };
        let mut i: usize = 0;
        while i < self.boxes.len()
            invariant
                self.wf(),
                i <= self.boxes.keys().len(),
                caller == IpAddr::V4(address),
                forall|j: int|
                    0 <= j < i ==> self@[#[trigger] self.boxes.keys()[j]].address != address,
            decreases self.boxes.keys().len() - i,
        {
            proof {
                self.boxes.lemma_keys();
            }
            let declaration: &BoxDeclaration = self.boxes.value_at(i);
            if declaration.address == address {
                proof {
                    let name = self.boxes.keys()[i as int];
                    assert forall|other: Seq<char>| #[trigger]
                        self@.contains_key(other) && self@[other].address == address && other
                            != name implies crate::table::text_before(name, other) by {
                        let j = self.boxes.keys().index_of(other);
                        assert(self.boxes.keys()[j] == other);
                        assert(<String as Key>::before(name, other));
                    }
                    assert(first_at(self@, address, name));
                    let found = choose|name: Seq<char>| first_at(self@, address, name);
                    crate::table::lemma_text_total(name, found, name);
                }
                return match &declaration.egress {
                    Some(rules) => Some(rules),
                    None => None,
                };
            }
            i = i + 1;
        }
        proof {
            self.boxes.lemma_keys();
            assert forall|name: Seq<char>| !first_at(self@, address, name) by {
                if self@.contains_key(name) {
                    let j = self.boxes.keys().index_of(name);
                    assert(self.boxes.keys()[j] == name);
                }
            }
        }
        None
    }

    /// The verdict on a request from `caller` to the box named `session` on
    /// `port`, as of the direct connection it stands for: the caller's own
    /// egress, as `judge` decides it against the target's address and the
    /// port, then the target's declared ports. A box that declared nothing is
    /// not reached.
    pub fn verdict<F: Fn(&EgressRules, Ipv4Addr, u16) -> Verdict>(
        &self,
        caller: IpAddr,
        session: &str,
        port: u16,
        judge: F,
    ) -> (r: Verdict)
        requires
            self.wf(),
            forall|rules: EgressRules, target: Ipv4Addr| #[trigger]
                call_requires(judge, (&rules, target, port)),
        ensures
            !self@.contains_key(session@) ==> r == Verdict::Drop(DropRule::UndeclaredPort),
            self@.contains_key(session@) ==> {
                let target = self@[session@];
                let gate = if target.ingress.admits_port(port) {
                    Verdict::Admit
                } else {
                    Verdict::Drop(DropRule::UndeclaredPort)
                };
                match caller {
                    IpAddr::V4(ip) => match rules_at(self@, ip) {
                        Some(rules) => exists|v: Verdict| #[trigger]
                            call_ensures(judge, (&rules, target.address, port), v) && r == (
                            match v {
                                Verdict::Admit => gate,
                                Verdict::Drop(_) => v,
                            }),
                        None => r == gate,
                    },
                    IpAddr::V6(_) => r == gate,
                }
            },
    {
        let target: &BoxDeclaration = match self.boxes.get(&session.to_owned()) {
            Some(declaration) => declaration,
            None => {
                return Verdict::Drop(DropRule::UndeclaredPort);
            },
        };
        if let Some(rules) = self.caller(caller) {
            let v: Verdict = judge(rules, target.address, port);
            assert(call_ensures(judge, (rules, target.address, port), v));
            match v {
                Verdict::Admit => {},
                Verdict::Drop(_) => {
                    return v;
                },
            }
        }
        if target.ingress.admits(port) {
            Verdict::Admit
        } else {
            Verdict::Drop(DropRule::UndeclaredPort)
        }
    }
}

// ---------------------------------------------------------------------------
// Laws of the control channel
// ---------------------------------------------------------------------------

/// A mapping is forwarded from loopback at the port that callers name to the box
/// at its own port, over UDP where it is a UDP mapping.
pub proof fn law_mapping_is_forwarded_port_for_port(mapping: PortMapping, ip: Ipv4Addr, request: ExposeRequest)
    requires
        forwards(request, mapping, ip),
    ensures
        request.local@ == local_of(mapping),
        local_of(mapping) == (Ipv4Addr { bits: 0x7f00_0001 }).dotted() + seq![':'] + text::decimal(
            mapping.external_port as nat,
        ),
        request.remote@ == ip.dotted() + seq![':'] + text::decimal(mapping.internal_port as nat),
        mapping.proto == IpProto::Udp ==> request.protocol@ == "udp"@,
        mapping.proto != IpProto::Udp ==> request.protocol@ == "tcp"@,
{
}

/// The headers of a response end behind the first empty line, and nowhere before
/// there is one.
pub proof fn law_headers_end_at_the_first_empty_line(response: Seq<u8>, at: int)
    ensures
        0 <= at && at + 4 <= response.len() && response[at] == 13 && response[at + 1] == 10
            && response[at + 2] == 13 && response[at + 3] == 10 ==> (header_end(
            response,
        ) matches Some(end) && 4 <= end <= at + 4),
        header_end(response) matches Some(end) ==> {
            &&& 4 <= end <= response.len()
            &&& response[end - 4] == 13 && response[end - 3] == 10 && response[end - 2] == 13
                && response[end - 1] == 10
        },
{
    reveal_strlit("\r\n\r\n");
    let marker = text::ascii("\r\n\r\n"@);
    assert(marker =~= seq![13u8, 10u8, 13u8, 10u8]);
    text::lemma_found(response, marker, 0);
    if 0 <= at && at + 4 <= response.len() && response[at] == 13 && response[at + 1] == 10
        && response[at + 2] == 13 && response[at + 3] == 10 {
        assert(response.subrange(at, at + 4) =~= marker);
        text::lemma_found_by(response, marker, 0, at);
    }
    if header_end(response) is Some {
        let i = header_end(response)->0 - 4;
        let found = response.subrange(i, i + 4);
        assert(found[0] == response[i] && found[1] == response[i + 1] && found[2] == response[i + 2]
            && found[3] == response[i + 3]);
    }
}

/// `content-length`, letter by letter.
pub open spec fn length_name() -> Seq<char> {
    seq!['c', 'o', 'n', 't', 'e', 'n', 't', '-', 'l', 'e', 'n', 'g', 't', 'h']
}

/// A line declares the number behind its colon as the body's length exactly if it
/// is named `Content-Length`, in any case; white space around the name and around
/// the number does not matter.
pub proof fn law_length_line_is_read(
    before: Seq<char>,
    name: Seq<char>,
    after: Seq<char>,
    lead: Seq<char>,
    value: Seq<char>,
    trail: Seq<char>,
)
    requires
        !name.contains(':'),
        name.len() > 0 ==> !text::white_space(name[0]) && !text::white_space(name.last()),
        forall|i: int| 0 <= i < before.len() ==> text::white_space(#[trigger] before[i]),
        forall|i: int| 0 <= i < after.len() ==> text::white_space(#[trigger] after[i]),
        forall|i: int| 0 <= i < lead.len() ==> text::white_space(#[trigger] lead[i]),
        forall|i: int| 0 <= i < trail.len() ==> text::white_space(#[trigger] trail[i]),
        value.len() > 0 ==> !text::white_space(value[0]) && !text::white_space(value.last()),
    ensures
        length_value(before + name + after + seq![':'] + (lead + value + trail)) == (
        if text::reads_as(name, length_name()) {
            text::numeral(value, 10, usize::MAX as int)
        } else {
            None
        }),
{
    reveal_strlit("content-length");
    assert("content-length"@ =~= length_name());
    let front = before + name + after;
    let behind = lead + value + trail;
    let line = front + seq![':'] + behind;
    text::law_lower_is_blind_to_case(name, length_name());
    assert forall|i: int| 0 <= i < front.len() implies line[i] != ':' by {
        if i < before.len() {
            assert(front[i] == before[i]);
            assert(text::white_space(before[i]));
        } else if i < before.len() + name.len() {
            assert(front[i] == name[i - before.len()]);
            assert(name.contains(name[i - before.len()]));
        } else {
            let k = i - before.len() - name.len();
            assert(front[i] == after[k]);
            assert(text::white_space(after[k]));
        }
    }
    assert(line[front.len() as int] == ':');
    text::lemma_scan_is(line, ':', front.len() as int);
    assert(line.take(front.len() as int) =~= front);
    assert(line.skip(front.len() as int + 1) =~= behind);
    let p = |c: char| text::white_space(c);
    text::law_trim_takes_the_ends_off(before, name, after, p);
    text::law_trim_takes_the_ends_off(lead, value, trail, p);
}

/// The first line that declares a length gives it, wherever it stands among the
/// lines of the headers; a line without a colon declares none.
pub proof fn law_length_is_found_wherever_it_stands(headers: Seq<u8>, lines: Seq<Seq<char>>, k: int)
    requires
        vstd::utf8::valid_utf8(headers),
        lines == text::text_lines(vstd::utf8::decode_utf8(headers)),
        0 <= k <= lines.len(),
        forall|j: int| 0 <= j < k ==> length_value(#[trigger] lines[j]) is None,
    ensures
        k < lines.len() && length_value(lines[k]) is Some ==> declared_length(headers)
            == length_value(lines[k]),
        k == lines.len() ==> declared_length(headers) is None,
        forall|line: Seq<char>| !line.contains(':') ==> (#[trigger] length_value(line)) is None,
{
    lemma_first_length(lines, k);
    assert forall|line: Seq<char>| !line.contains(':') implies (#[trigger] length_value(line)) is None by {
        text::lemma_scan(line, ':');
        if text::scan(line, ':') < line.len() {
            assert(line.contains(line[text::scan(line, ':')]));
        }
    }
}

proof fn lemma_first_length(lines: Seq<Seq<char>>, k: int)
    requires
        0 <= k <= lines.len(),
        forall|j: int| 0 <= j < k ==> length_value(#[trigger] lines[j]) is None,
    ensures
        k < lines.len() && length_value(lines[k]) is Some ==> first_length(lines) == length_value(
            lines[k],
        ),
        k == lines.len() ==> first_length(lines) is None,
    decreases k,
{
    if k > 0 {
        assert(length_value(lines[0]) is None);
        let rest = lines.drop_first();
        assert forall|j: int| 0 <= j < k - 1 implies length_value(#[trigger] rest[j]) is None by {
            assert(length_value(lines[j + 1]) is None);
        }
        lemma_first_length(rest, k - 1);
        if k < lines.len() {
            assert(rest[k - 1] == lines[k]);
        }
    }
}

/// When a response is done with: once the body it declares, or none, has arrived
/// behind its headers, or the stream has ended, or 65536 bytes are there; headers
/// that have not ended by then are a failure.
pub proof fn law_exchange_ends_when_the_response_is_there(response: Seq<u8>, end: int)
    ensures
        header_end(response) is None ==> {
            &&& response.len() >= 65536 ==> exchange_next(response, true) == ExchangeStep::Fail
                && exchange_next(response, false) == ExchangeStep::Fail
            &&& response.len() < 65536 ==> exchange_next(response, true) == ExchangeStep::Done
                && exchange_next(response, false) == ExchangeStep::Read
        },
        header_end(response) == Some(end) ==> {
            &&& exchange_next(response, true) == ExchangeStep::Done
            &&& response.len() >= 65536 ==> exchange_next(response, false) == ExchangeStep::Done
            &&& declared_length(response.take(end)) is None && response.len() >= end
                ==> exchange_next(response, false) == ExchangeStep::Done
            &&& exchange_next(response, false) == ExchangeStep::Read ==> (declared_length(
                response.take(end),
            ) matches Some(want) && response.len() < end + want && response.len() < 65536)
        },
{
    law_headers_end_at_the_first_empty_line(response, 0);
}

/// The status of a response is the second word of its first line, where that is a
/// number; what the words before and behind it are, and how many, does not
/// matter.
pub proof fn law_status_is_the_second_word(gaps: Seq<Seq<char>>, fields: Seq<Seq<char>>)
    requires
        text::spaces(gaps, fields),
    ensures
        status_of(text::spaced(gaps, fields)) == (if fields.len() >= 2 {
            text::numeral(fields[1], 10, 65535)
        } else {
            None
        }),
{
    text::law_words_read_back(gaps, fields);
}

/// The first line of a response ends before its first carriage return or line
/// feed, or with it.
pub proof fn law_status_line_ends_at_the_first_break(line: Seq<u8>, rest: Seq<u8>)
    requires
        !line.contains(13u8),
        !line.contains(10u8),
        rest.len() > 0 ==> rest[0] == 13 || rest[0] == 10,
    ensures
        status_line_length(line + rest) == line.len(),
{
    let s = line + rest;
    let p = |b: u8| b != 13 && b != 10;
    assert forall|i: int| 0 <= i < line.len() implies p(#[trigger] s[i]) by {
        assert(s[i] == line[i]);
        assert(line.contains(line[i]));
    }
    if rest.len() > 0 {
        assert(s[line.len() as int] == rest[0]);
    }
    text::lemma_leading_is(s, p, line.len() as int);
}

/// The host is reached at `127.0.0.1` where its namespace is shared, and at the
/// last address but one of the switch's subnet from a box on the switch.
pub proof fn law_host_is_reached_by_where_the_box_stands(subnet: SwitchSubnet)
    ensures
        host_address(HostReach::SharedNamespace, subnet).bits == 0x7f00_0001,
        host_address(HostReach::Switch, subnet) == (Ipv4Addr {
            bits: (subnet.broadcast_bits() - 1) as u32,
        }),
{
}

/// A name in the box zone is a label, a dot and the zone's name in any case, with
/// any number of dots behind it; the label is taken in lower case. Nothing else
/// is one.
pub proof fn law_label_is_before_the_zones_name(label: Seq<char>, zone: Seq<char>, dots: Seq<char>, name: Seq<char>)
    ensures
        text::reads_as(
            zone,
            seq!['m', 'i', 'n', '.', 'i', 'n', 't', 'e', 'r', 'n', 'a', 'l'],
        ) && (forall|i: int| 0 <= i < dots.len() ==> #[trigger] dots[i] == '.') ==> zone_label(
            label + seq!['.'] + zone + dots,
        ) == Some(text::lower(label)),
        zone_label(name) matches Some(inside) ==> exists|n: int|
            0 <= n <= name.len() && (forall|i: int| n <= i < name.len() ==> name[i] == '.')
                && text::lower(#[trigger] name.take(n)) == inside + seq!['.'] + HOSTNAME_SUFFIX@,
{
    reveal_strlit("min.internal");
    let word = seq!['m', 'i', 'n', '.', 'i', 'n', 't', 'e', 'r', 'n', 'a', 'l'];
    assert("min.internal"@ =~= word);
    if text::reads_as(zone, word) && (forall|i: int| 0 <= i < dots.len() ==> #[trigger] dots[i]
        == '.') {
        let bare = label + seq!['.'] + zone;
        let full = bare + dots;
        text::law_lower_is_blind_to_case(zone, word);
        let p = text::is_char('.');
        assert forall|i: int| full.len() - dots.len() <= i < full.len() implies p(#[trigger] full[i]) by {
            assert(full[i] == dots[i - bare.len()]);
        }
        assert(zone[11] == word[11] || 97 <= word[11] as int <= 122 && zone[11] as int + 32
            == word[11] as int);
        assert(full[bare.len() - 1] == zone[11]);
        text::lemma_trailing_is(full, p, dots.len() as int);
        assert(full.take(bare.len() as int) =~= bare);
        let low = text::lower(bare);
        assert(low =~= text::lower(label) + seq!['.'] + text::lower(zone));
        assert(low.skip(low.len() - 12) =~= word);
        let rest = low.take(low.len() - 12);
        assert(rest =~= text::lower(label) + seq!['.']);
        assert(rest.drop_last() =~= text::lower(label));
    }
    if zone_label(name) is Some {
        let inside = zone_label(name)->0;
        let p = text::is_char('.');
        text::lemma_trailing(name, p);
        let n = name.len() - text::trailing(name, p);
        let low = text::lower(name.take(n));
        assert forall|i: int| n <= i < name.len() implies name[i] == '.' by {
            assert(p(name[i]));
        }
        let rest = low.take(low.len() - 12);
        assert(low.skip(low.len() - 12) == word);
        assert(low =~= rest + word);
        assert(rest =~= inside + seq!['.']);
        assert(low =~= inside + seq!['.'] + HOSTNAME_SUFFIX@);
    }
}

/// What the zone records of a box: its name in lower case, its lease, and of each
/// transport the ports that the mappings of that transport name on the box's
/// side. Only TCP and UDP declare anything.
pub proof fn law_zone_entry_declares_what_is_mapped(
    session: Seq<char>,
    lease: Ipv4Addr,
    ingress: IngressPolicy,
    port: u16,
)
    ensures
        ({
            let entry = zone_entry_of(session, lease, Some(&ingress));
            &&& entry.session == text::lower(session)
            &&& entry.lease == lease
            &&& entry.declares(IpProto::Tcp, port) <==> exists|i: int|
                0 <= i < ingress.port_mappings@.len() && (#[trigger] ingress.port_mappings@[i]).proto
                    == IpProto::Tcp && ingress.port_mappings@[i].internal_port == port
        }),
        zone_entry_of(session, lease, Some(&ingress)).declares(IpProto::Udp, port) <==> (exists|i: int|
            0 <= i < ingress.port_mappings@.len() && (#[trigger] ingress.port_mappings@[i]).proto
                == IpProto::Udp && ingress.port_mappings@[i].internal_port == port),
        !zone_entry_of(session, lease, Some(&ingress)).declares(IpProto::Icmp, port),
        !zone_entry_of(session, lease, None).declares(IpProto::Tcp, port),
        !zone_entry_of(session, lease, None).declares(IpProto::Udp, port),
{
}

/// A warning is due at once where none was given, and again once a minute has
/// passed since the last, not before.
pub proof fn law_warning_is_due_after_a_minute(last: u64, now: u64)
    ensures
        warning_due(None, now),
        warning_due(Some(last), now) <==> now >= last + 60_000,
{
}

/// An admission lasts for the answer's time to live, but half a minute at least
/// and five minutes at most; a longer time to live never gives a shorter one.
pub proof fn law_window_is_the_time_to_live_within_bounds(ttl: u32, longer: u32)
    ensures
        30_000 <= window_of(ttl) <= 300_000,
        30 <= ttl <= 300 ==> window_of(ttl) == ttl * 1000,
        ttl < 30 ==> window_of(ttl) == 30_000,
        ttl > 300 ==> window_of(ttl) == 300_000,
        ttl <= longer ==> window_of(ttl) <= window_of(longer),
{
}

/// What is dropped of a table of pins is what has expired and nothing else.
pub proof fn law_expired_pins_alone_are_dropped(pins: Map<u32, PinView>, now: u64, k: u32)
    ensures
        unexpired(pins, now).contains_key(k) <==> pins.contains_key(k) && now < pins[k].expires,
        unexpired(pins, now).contains_key(k) ==> unexpired(pins, now)[k] == pins[k],
{
}

/// A box that is alone at its address is judged by its own egress; an address that
/// is no box's is judged by none.
pub proof fn law_box_is_judged_by_its_own_egress(
    boxes: Map<Seq<char>, BoxDeclaration>,
    name: Seq<char>,
    address: Ipv4Addr,
)
    ensures
        boxes.contains_key(name) && boxes[name].address == address && (forall|other: Seq<char>|
            #[trigger] boxes.contains_key(other) && boxes[other].address == address ==> other
                == name) ==> rules_at(boxes, address) == boxes[name].egress,
        (forall|other: Seq<char>| #[trigger]
            boxes.contains_key(other) ==> boxes[other].address != address) ==> rules_at(
            boxes,
            address,
        ) is None,
{
    if boxes.contains_key(name) && boxes[name].address == address && (forall|other: Seq<char>|
        #[trigger] boxes.contains_key(other) && boxes[other].address == address ==> other == name) {
        assert(first_at(boxes, address, name));
        let found = choose|n: Seq<char>| first_at(boxes, address, n);
        assert(first_at(boxes, address, found));
        assert(found == name);
    }
}

/// The forwarder is asked for UDP where a mapping is one of UDP, and for TCP in
/// every other case; what is exposed is named by loopback at the port that
/// callers name.
pub proof fn law_forwards_are_named_by_their_port(
    exposed: Seq<ExposedMapping>,
    mappings: Seq<PortMapping>,
    i: int,
)
    requires
        names_forwards(exposed, mappings),
        0 <= i < mappings.len(),
    ensures
        exposed.len() == mappings.len(),
        exposed[i].local@ == (Ipv4Addr { bits: 0x7f00_0001 }).dotted() + seq![':'] + text::decimal(
            mappings[i].external_port as nat,
        ),
        mappings[i].proto == IpProto::Udp ==> exposed[i].protocol@ == "udp"@,
        mappings[i].proto != IpProto::Udp ==> exposed[i].protocol@ == "tcp"@,
{
}

/// A control request ends in its body as it is; what comes before depends on the
/// path and on how long the body is, and not on what it holds.
pub proof fn law_control_request_ends_in_its_body(path: Seq<char>, body: Seq<u8>, other: Seq<u8>)
    requires
        body.len() == other.len(),
    ensures
        control_request_bytes(path, body).len() >= body.len(),
        control_request_bytes(path, body).skip(
            control_request_bytes(path, body).len() - body.len(),
        ) == body,
        control_request_bytes(path, body).take(
            control_request_bytes(path, body).len() - body.len(),
        ) == control_request_bytes(path, other).take(
            control_request_bytes(path, other).len() - other.len(),
        ),
{
    let head = vstd::utf8::encode_utf8(
        "POST "@ + path
            + " HTTP/1.1\r\nHost: localhost\r\nContent-Type: application/json\r\nContent-Length: "@
            + text::decimal(body.len()) + "\r\n\r\n"@,
    );
    let n = head.len() as int;
    assert((head + body).skip(n) =~= body);
    assert((head + body).take(n) =~= head);
    assert((head + other).take(n) =~= head);
}

/// Of the boxes at one address, the first in name order is the one whose egress
/// counts.
pub proof fn law_first_box_at_an_address_counts(
    boxes: Map<Seq<char>, BoxDeclaration>,
    name: Seq<char>,
    address: Ipv4Addr,
)
    requires
        boxes.contains_key(name),
        boxes[name].address == address,
        forall|other: Seq<char>| #[trigger]
            boxes.contains_key(other) && boxes[other].address == address && other != name
                ==> crate::table::text_before(name, other),
    ensures
        rules_at(boxes, address) == boxes[name].egress,
{
    assert(first_at(boxes, address, name));
    let found = choose|found: Seq<char>| first_at(boxes, address, found);
    crate::table::lemma_text_total(name, found, name);
}

/// A box with declared ports is reached on those alone; one without a list is
/// reached on any.
pub proof fn law_declared_ports_alone_are_reached(rules: IngressRules, port: u16)
    ensures
        rules.ports is None ==> rules.admits_port(port),
        rules.ports matches Some(set) ==> (rules.admits_port(port) <==> set@.contains(port)),
{
}

/// A box's name is added to the switch as one record of the box zone.
pub proof fn law_name_is_one_record_of_the_zone(zone: DnsZone, label: Seq<char>, ip: Ipv4Addr)
    requires
        adds_record(zone, label, ip),
    ensures
        zone.name@ == "min.internal."@,
        zone.records@.len() == 1,
        zone.records@[0].name@ == label,
        zone.records@[0].ip@ == ip.dotted(),
{
    reveal_strlit("min.internal");
    reveal_strlit("min.internal.");
    assert(HOSTNAME_SUFFIX@ + seq!['.'] =~= "min.internal."@);
}

} // verus!
