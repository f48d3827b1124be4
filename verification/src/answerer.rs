//! The box-zone answerer: what a DNS datagram from the host's resolver is
//! answered with.

use vstd::prelude::*;

use crate::addr::{IpAddr, Ipv4Addr, SocketAddr};
use crate::dns::{HostnameRegistry, ZoneEntry, ZoneEntryView, ANSWER_TTL_SECS, HOSTNAME_SUFFIX};
use crate::proxy::{BindFailure, ErrorKind};
use crate::subnet::SwitchSubnet;
use crate::text;
use crate::wire::{
    decode_message, echo_reply, render, AddressRecord, DnsMessage, MessageView, Reply, Response,
    ResponseView, Soa, SoaView, NOT_IMP, NO_ERROR, NX_DOMAIN, OP_QUERY, REFUSED, TYPE_A,
};

verus! {

/// The port that the answerer listens on.
pub const ANSWERER_PORT: u16 = 7656;

/// The largest datagram that the answerer reads.
pub const MAX_DATAGRAM: usize = 4096;

/// The lookup that the answerer makes for each name in the zone.
pub trait Zone {
    /// Whether the table can be consulted.
    spec fn consultable(&self) -> bool;

    /// What the zone holds for a full name.
    spec fn held(&self, host: Seq<char>, node: Seq<Ipv4Addr>) -> ZoneEntryView;

    /// What the zone holds for a full name.
    fn zone_entry(&self, host: &str, node: &[Ipv4Addr]) -> (r: ZoneEntry)
        requires
            self.consultable(),
        ensures
            r@ == self.held(host@, node@),
    ;
}

impl Zone for HostnameRegistry {
    open spec fn consultable(&self) -> bool {
        self.wf()
    }

    open spec fn held(&self, host: Seq<char>, node: Seq<Ipv4Addr>) -> ZoneEntryView {
        self@.zone(host, node)
    }

    fn zone_entry(&self, host: &str, node: &[Ipv4Addr]) -> (r: ZoneEntry) {
        HostnameRegistry::zone_entry(self, host, node)
    }
}

/// Which sources the answerer serves.
#[derive(Clone, Copy, Debug)]
pub enum AnswerScope {
    /// On a native host: loopback alone.
    Native,
    /// Inside of a microVM: loopback, and the switch's own subnet.
    Microvm { subnet: SwitchSubnet },
}

impl AnswerScope {
    /// Whether a datagram from `peer` originated on this machine.
    pub open spec fn serves(self, peer: IpAddr) -> bool {
        peer.loopback() || match (self, peer) {
            (AnswerScope::Microvm { subnet }, IpAddr::V4(ip)) => subnet.holds(ip),
            _ => false,
        }
    }

    /// Whether a datagram from `peer` originated on this machine.
    pub fn allows(&self, peer: SocketAddr) -> (r: bool)
        ensures
            r == self.serves(peer.ip),
    {
        if peer.ip.is_loopback() {
            return true;
        }
        match peer.ip {
            IpAddr::V4(ip) => match self {
                AnswerScope::Native => false,
                AnswerScope::Microvm { subnet } => subnet.network().bits <= ip.bits && ip.bits
                    <= subnet.broadcast().bits,
            },
            IpAddr::V6(_) => false,
        }
    }
}

/// A name without its root dot, where it is the apex of the box zone or a name
/// below it.
pub open spec fn zone_name(name: Seq<char>) -> Option<Seq<char>> {
    if name.len() > 0 && name.last() == '.' && (name.drop_last() == HOSTNAME_SUFFIX@
        || text::ends_with(name.drop_last(), seq!['.'] + HOSTNAME_SUFFIX@)) {
        Some(name.drop_last())
    } else {
        None
    }
}

/// The name in the zone that a query asks for, without its root dot: the apex,
/// or a name below it. `None` for a name outside of the zone.
pub fn in_zone(name: &str) -> (r: Option<String>)
    ensures
        match r {
            Some(inside) => zone_name(name@) == Some(inside@),
            None => zone_name(name@) is None,
        },
{
    let chars: Vec<char> = text::chars_of(name);
    let n: usize = chars.len();
    if n == 0 || chars[n - 1] != '.' {
        return None;
    }
    let inside: Vec<char> = text::chars_in(chars.as_slice(), 0, n - 1);
    assert(inside@ =~= name@.drop_last());
    let suffix: Vec<char> = text::chars_of(HOSTNAME_SUFFIX);
    if text::same_chars(inside.as_slice(), suffix.as_slice()) {
        return Some(text::string_of(inside.as_slice()));
    }
    let dotted: Vec<char> = {
        let mut dotted: String = String::new();
        dotted.push('.');
        dotted.append(HOSTNAME_SUFFIX);
        text::chars_of(dotted.as_str())
    };
    assert(dotted@ =~= seq!['.'] + HOSTNAME_SUFFIX@);
    if text::chars_end_with(inside.as_slice(), dotted.as_slice()) {
        Some(text::string_of(inside.as_slice()))
    } else {
        None
    }
}

/// The zone's start of authority. The zone has no secondaries, so that every
/// number but the last is inert; all of them keep to the zone's ceiling.
pub open spec fn soa_view() -> SoaView {
    SoaView {
        owner: HOSTNAME_SUFFIX@ + "."@,
        ttl: ANSWER_TTL_SECS,
        mname: "ns."@ + HOSTNAME_SUFFIX@ + "."@,
        rname: "hostmaster."@ + HOSTNAME_SUFFIX@ + "."@,
        serial: 1,
        refresh: 15,
        retry: 15,
        expire: 15,
        minimum: ANSWER_TTL_SECS,
    }
}

/// The apex of the zone, below a prefix, with the root dot.
fn below_apex(prefix: &str) -> (r: String)
    ensures
        r@ == prefix@ + HOSTNAME_SUFFIX@ + "."@,
{
    let mut out: String = prefix.to_owned();
    out.append(HOSTNAME_SUFFIX);
    out.append(".");
    out
}

/// The zone's start of authority.
pub fn zone_soa() -> (r: Soa)
    ensures
        r@ == soa_view(),
{
    proof {
        reveal_strlit("");
    }
    let owner: String = below_apex("");
    assert(owner@ =~= HOSTNAME_SUFFIX@ + "."@);
    Soa {
        owner,
        ttl: ANSWER_TTL_SECS,
        mname: below_apex("ns."),
        rname: below_apex("hostmaster."),
        serial: 1,
        refresh: ANSWER_TTL_SECS as i32,
        retry: ANSWER_TTL_SECS as i32,
        expire: ANSWER_TTL_SECS as i32,
        minimum: ANSWER_TTL_SECS,
    }
}

/// What the zone is taken to hold for a name in it. The apex is held by the
/// answerer itself, without an address.
pub open spec fn entry_of<T: Zone>(zone: T, name: Seq<char>) -> ZoneEntryView {
    if name == HOSTNAME_SUFFIX@ {
        ZoneEntryView::Held { owner: HOSTNAME_SUFFIX@, address: None }
    } else {
        zone.held(name, Seq::empty())
    }
}

/// The response to an operation that is not a standard query: its id and its
/// code alone.
pub open spec fn not_implemented(message: MessageView) -> ResponseView {
    ResponseView {
        reply: Reply {
            id: message.id,
            op_code: message.op_code,
            recursion_desired: false,
            checking_disabled: false,
            authoritative: false,
            response_code: NOT_IMP,
            echoed: 0,
            answer: None,
        },
        authority: None,
    }
}

/// The response to a question for a name in the zone, by what the zone holds
/// for the name.
pub open spec fn zone_response(message: MessageView, record_type: u16, entry: ZoneEntryView) -> ResponseView {
    let code = if entry is Absent {
        NX_DOMAIN
    } else {
        NO_ERROR
    };
    let answer = match entry {
        ZoneEntryView::Held { address: Some(address), .. } => if record_type == TYPE_A {
            Some(AddressRecord { address, ttl: ANSWER_TTL_SECS })
        } else {
            None
        },
        _ => None,
    };
    ResponseView {
        reply: Reply { authoritative: true, answer, ..crate::wire::echo(message, code) },
        authority: if answer is None {
            Some(soa_view())
        } else {
            None
        },
    }
}

/// What a message from `peer` is answered with; nothing, where it did not
/// originate on this machine or is not a query with a question.
pub open spec fn answer<T: Zone>(
    scope: AnswerScope,
    zone: T,
    peer: IpAddr,
    message: MessageView,
) -> Option<ResponseView> {
    if !message.is_query || message.questions.len() == 0 || !scope.serves(peer) {
        None
    } else if message.op_code != OP_QUERY {
        Some(not_implemented(message))
    } else {
        match zone_name(message.questions[0].name) {
            None => Some(
                ResponseView { reply: crate::wire::echo(message, REFUSED), authority: None },
            ),
            Some(name) => Some(
                zone_response(message, message.questions[0].record_type, entry_of(zone, name)),
            ),
        }
    }
}

/// A name without its root dot.
pub open spec fn without_root(name: Seq<char>) -> Seq<char> {
    if name.len() > 0 && name.last() == '.' {
        name.drop_last()
    } else {
        name
    }
}

/// The lookup that a message from `peer` makes in vain, because it did not
/// originate on this machine: the name asked for and its record type.
pub open spec fn off_host(scope: AnswerScope, peer: IpAddr, message: MessageView) -> Option<
    (Seq<char>, u16),
> {
    if message.is_query && message.questions.len() > 0 && !scope.serves(peer) {
        Some((without_root(message.questions[0].name), message.questions[0].record_type))
    } else {
        None
    }
}

/// The answerer: a zone table, and the sources that are served.
pub struct ZoneAnswerer<'a, T: Zone> {
    zone: &'a T,
    scope: AnswerScope,
    soa: Soa,
}

impl<'a, T: Zone> ZoneAnswerer<'a, T> {
    /// The table that is consulted.
    pub closed spec fn table(&self) -> T {
        *self.zone
    }

    /// The sources that are served.
    pub closed spec fn served(&self) -> AnswerScope {
        self.scope
    }

    /// The table can be consulted, and the start of authority is the zone's.
    pub closed spec fn wf(&self) -> bool {
        self.zone.consultable() && self.soa@ == soa_view()
    }

    /// An answerer over `zone` that serves the sources that `scope` allows.
    pub fn new(zone: &'a T, scope: AnswerScope) -> (r: Self)
        requires
            zone.consultable(),
        ensures
            r.wf(),
            r.table() == *zone,
            r.served() == scope,
    {
        ZoneAnswerer { zone, scope, soa: zone_soa() }
    }

    /// What the zone is taken to hold for a name in it.
    fn entry(&self, name: &str) -> (r: ZoneEntry)
        requires
            self.wf(),
        ensures
            r@ == entry_of(self.table(), name@),
    {
        if text::same(name, HOSTNAME_SUFFIX) {
            ZoneEntry::Held { owner: HOSTNAME_SUFFIX.to_owned(), address: None }
        } else {
            let node: Vec<Ipv4Addr> = Vec::new();
            assert(node@ =~= Seq::<Ipv4Addr>::empty());
            self.zone.zone_entry(name, node.as_slice())
        }
    }

    /// A copy of the zone's start of authority.
    fn soa_copy(&self) -> (r: Soa)
        ensures
            r@ == self.soa@,
    {
        Soa {
            owner: self.soa.owner.clone(),
            ttl: self.soa.ttl,
            mname: self.soa.mname.clone(),
            rname: self.soa.rname.clone(),
            serial: self.soa.serial,
            refresh: self.soa.refresh,
            retry: self.soa.retry,
            expire: self.soa.expire,
            minimum: self.soa.minimum,
        }
    }

    /// What a decoded message from `peer` is answered with, or `None` to send
    /// nothing.
    pub fn answer(&self, peer: SocketAddr, message: &DnsMessage) -> (r: Option<Response>)
        requires
            self.wf(),
        ensures
            match r {
                Some(response) => answer(self.served(), self.table(), peer.ip, message@) == Some(
                    response@,
                ),
                None => answer(self.served(), self.table(), peer.ip, message@) is None,
            },
    {
        if !message.is_query || message.questions.len() == 0 {
            return None;
        }
        if !self.scope.allows(peer) {
            return None;
        }
        if message.op_code != OP_QUERY {
            let reply: Reply = Reply {
                id: message.id,
                op_code: message.op_code,
                recursion_desired: false,
                checking_disabled: false,
                authoritative: false,
                response_code: NOT_IMP,
                echoed: 0,
                answer: None,
            };
            return Some(Response { reply, authority: None });
        }
        let question = &message.questions[0];
        assert(message@.questions[0] == question@);
        let name: String = match in_zone(question.name.as_str()) {
            Some(name) => name,
            None => {
                let reply: Reply = echo_reply(message, REFUSED);
                return Some(Response { reply, authority: None });
            },
        };
        let (code, answer): (u16, Option<AddressRecord>) = match self.entry(name.as_str()) {
            ZoneEntry::Absent => (NX_DOMAIN, None),
            ZoneEntry::Held { address: Some(address), .. } => {
                if question.record_type == TYPE_A {
                    (NO_ERROR, Some(AddressRecord { address, ttl: ANSWER_TTL_SECS }))
                } else {
                    (NO_ERROR, None)
                }
            },
            ZoneEntry::Held { address: None, .. } => (NO_ERROR, None),
        };
        let mut reply: Reply = echo_reply(message, code);
        reply.authoritative = true;
        reply.answer = answer;
        let authority: Option<Soa> = match answer {
            Some(_) => None,
            None => Some(self.soa_copy()),
        };
        Some(Response { reply, authority })
    }

    /// The lookup that a decoded message from `peer` makes in vain, because it
    /// did not originate on this machine: what the refusal is logged with.
    pub fn off_host_question(&self, peer: SocketAddr, message: &DnsMessage) -> (r: Option<
        (String, u16),
    >)
        ensures
            match r {
                Some((name, record_type)) => off_host(self.served(), peer.ip, message@) == Some(
                    (name@, record_type),
                ),
                None => off_host(self.served(), peer.ip, message@) is None,
            },
    {
        if !message.is_query || message.questions.len() == 0 || self.scope.allows(peer) {
            return None;
        }
        let question = &message.questions[0];
        assert(message@.questions[0] == question@);
        let chars: Vec<char> = text::chars_of(question.name.as_str());
        let n: usize = chars.len();
        let name: String = if n > 0 && chars[n - 1] == '.' {
            let inside: Vec<char> = text::chars_in(chars.as_slice(), 0, n - 1);
            assert(inside@ =~= question.name@.drop_last());
            text::string_of(inside.as_slice())
        } else {
            question.name.clone()
        };
        Some((name, question.record_type))
    }

    /// The lookup that a datagram from `peer` makes in vain, because it did not
    /// originate on this machine.
    pub fn off_host_lookup(&self, peer: SocketAddr, datagram: &[u8]) -> (r: Option<(String, u16)>)
        ensures
            ({
                let lookup = match crate::wire::decoded_message(datagram@) {
                    Some(message) => off_host(self.served(), peer.ip, message),
                    None => None,
                };
                match r {
                    Some((name, record_type)) => lookup == Some((name@, record_type)),
                    None => lookup is None,
                }
            }),
    {
        match decode_message(datagram) {
            Some(message) => self.off_host_question(peer, &message),
            None => None,
        }
    }

    /// The reply to one datagram, or `None` to send nothing: where the datagram
    /// is no message, where it calls for no answer, or where the reply cannot be
    /// encoded.
    pub fn respond(&self, peer: SocketAddr, datagram: &[u8]) -> (r: Option<Vec<u8>>)
        requires
            self.wf(),
        ensures
            crate::wire::bytes_in(r) == match crate::wire::decoded_message(datagram@) {
                None => None,
                Some(message) => match answer(self.served(), self.table(), peer.ip, message) {
                    None => None,
                    Some(response) => crate::wire::rendered(datagram@, response),
                },
            },
    {
        let message: DnsMessage = match decode_message(datagram) {
            Some(message) => message,
            None => {
                return None;
            },
        };
        match self.answer(peer, &message) {
            Some(response) => render(datagram, &response),
            None => None,
        }
    }
}

impl BindFailure {
    /// The failure to bind the answerer's `addr`, a socket address as text, of
    /// which `port` is the port, with the system's `error`.
    pub fn for_answerer(addr: &str, port: u16, error: &str, kind: ErrorKind) -> (r: Self)
        ensures
            r.reason@ == "the daemon could not bind "@ + addr@ + ": "@ + error@,
            r.remedy@ == "free the listen address; `lsof -nP -iUDP:"@ + text::decimal(port as nat)
                + "` names the holder"@,
            r.kind == kind,
    {
        let mut remedy: String = String::new();
        remedy.append("free the listen address; `lsof -nP -iUDP:");
        text::push_decimal(&mut remedy, port as u64);
        remedy.append("` names the holder");
        assert(remedy@ =~= "free the listen address; `lsof -nP -iUDP:"@ + text::decimal(
            port as nat,
        ) + "` names the holder"@);
        let BindFailure { reason, kind, .. } = BindFailure::for_listener(addr, port, error, kind);
        BindFailure { reason, remedy, kind }
    }
}

// ---------------------------------------------------------------------------
// Laws
// ---------------------------------------------------------------------------

/// A source that is not on this machine gets nothing at all.
pub proof fn law_zone_is_not_served_off_host<T: Zone>(
    scope: AnswerScope,
    zone: T,
    peer: IpAddr,
    message: MessageView,
)
    requires
        !scope.serves(peer),
    ensures
        answer(scope, zone, peer, message) is None,
{
}

/// A reply carries the id and the operation of the message it answers.
pub proof fn law_reply_matches_its_query<T: Zone>(
    scope: AnswerScope,
    zone: T,
    peer: IpAddr,
    message: MessageView,
)
    ensures
        answer(scope, zone, peer, message) matches Some(response) ==> response.reply.id
            == message.id && response.reply.op_code == message.op_code,
{
}

/// No record that the answerer emits lives longer than the zone's ceiling: not
/// an answer, and not the start of authority, by its own time to live and by the
/// one it sets for negatives.
pub proof fn law_records_keep_to_the_ceiling<T: Zone>(
    scope: AnswerScope,
    zone: T,
    peer: IpAddr,
    message: MessageView,
)
    ensures
        answer(scope, zone, peer, message) matches Some(response) ==> {
            &&& response.reply.answer matches Some(record) ==> record.ttl <= ANSWER_TTL_SECS
            &&& response.authority matches Some(soa) ==> soa.ttl <= ANSWER_TTL_SECS && soa.minimum
                <= ANSWER_TTL_SECS && soa.refresh <= 15 && soa.retry <= 15 && soa.expire <= 15
        },
{
}

/// Every negative for a name in the zone carries the zone's start of authority,
/// and nothing else does: not an answer, and not a refusal of a name that is
/// somebody else's.
pub proof fn law_negatives_carry_the_authority<T: Zone>(
    scope: AnswerScope,
    zone: T,
    peer: IpAddr,
    message: MessageView,
)
    requires
        answer(scope, zone, peer, message) is Some,
    ensures
        ({
            let response = answer(scope, zone, peer, message)->0;
            let inside = message.op_code == OP_QUERY && zone_name(message.questions[0].name) is Some;
            &&& response.authority is Some <==> inside && response.reply.answer is None
            &&& response.authority is Some ==> response.authority == Some(soa_view())
            &&& response.reply.authoritative <==> inside
        }),
{
}

/// An address that a lookup is answered with is one that the host can reach: a
/// loopback address, or one of the reserved range. A switch lease never leaves
/// the machine as an answer.
pub proof fn law_answers_are_host_answerable(
    scope: AnswerScope,
    registry: HostnameRegistry,
    peer: IpAddr,
    message: MessageView,
)
    ensures
        answer(scope, registry, peer, message) matches Some(response)
            ==> (response.reply.answer matches Some(record) ==> crate::dns::host_answerable(
            record.address,
            Seq::empty(),
        )),
{
}

/// Who is served: the machine's own loopback, all of `127.0.0.0/8` and `::1`, in
/// either scope; inside of a microVM every address of the switch's subnet as
/// well, from the first to the last. Nobody else is.
pub proof fn law_machine_and_its_switch_are_served(subnet: SwitchSubnet, ip: Ipv4Addr, v6: u128)
    ensures
        AnswerScope::Native.serves(IpAddr::V4(ip)) <==> 127 * 16777216 <= ip.bits < 128 * 16777216,
        AnswerScope::Native.serves(IpAddr::V6(v6)) <==> v6 == 1,
        (AnswerScope::Microvm { subnet }).serves(IpAddr::V4(ip)) <==> (127 * 16777216 <= ip.bits
            < 128 * 16777216 || subnet.network_bits() <= ip.bits <= subnet.broadcast_bits()),
        (AnswerScope::Microvm { subnet }).serves(IpAddr::V6(v6)) <==> v6 == 1,
{
    let n = ip.bits as int / 0x100_0000;
    assert(0 <= n < 256);
    assert(crate::addr::octets_of(ip.bits)[0] == n);
}

/// A name is in the zone exactly if it is the apex or ends in a dot and the apex,
/// with the root dot behind it; it is taken without that dot.
pub proof fn law_zone_is_the_apex_and_all_below(stem: Seq<char>, name: Seq<char>)
    ensures
        ({
            let apex = seq!['m', 'i', 'n', '.', 'i', 'n', 't', 'e', 'r', 'n', 'a', 'l'];
            &&& zone_name(apex + seq!['.']) == Some(apex)
            &&& zone_name(stem + seq!['.'] + apex + seq!['.']) == Some(stem + seq!['.'] + apex)
            &&& zone_name(name) matches Some(inside) ==> name == inside + seq!['.'] && (inside
                == apex || inside.len() > 12 && inside == inside.take(inside.len() - 13) + seq!['.']
                + apex)
        }),
{
    reveal_strlit("min.internal");
    let apex = seq!['m', 'i', 'n', '.', 'i', 'n', 't', 'e', 'r', 'n', 'a', 'l'];
    assert("min.internal"@ =~= apex);
    let top = apex + seq!['.'];
    assert(top.drop_last() =~= apex);
    let inside = stem + seq!['.'] + apex;
    let full = inside + seq!['.'];
    assert(full =~= stem + seq!['.'] + apex + seq!['.']);
    assert(full.drop_last() =~= inside);
    let dotted = seq!['.'] + apex;
    assert(inside.skip(inside.len() - 13) =~= dotted);
    if zone_name(name) is Some {
        let got = zone_name(name)->0;
        assert(name =~= got + seq!['.']);
        if got != apex {
            assert(got.skip(got.len() - 13) == dotted);
            assert(got =~= got.take(got.len() - 13) + got.skip(got.len() - 13));
            assert(got =~= got.take(got.len() - 13) + seq!['.'] + apex);
        }
    }
}

/// What a question about a name in the zone is answered: the address of the box
/// that holds it, where an IPv4 address is asked for and there is one; else that
/// there is no such record, where the name is held; else that there is no such
/// name. The reply has the query's id, its flags and its first question, and says
/// that it is authoritative.
pub proof fn law_name_in_the_zone_is_answered_by_what_holds_it<T: Zone>(
    scope: AnswerScope,
    zone: T,
    peer: IpAddr,
    message: MessageView,
    inside: Seq<char>,
)
    requires
        scope.serves(peer),
        message.is_query,
        message.op_code == 0,
        message.questions.len() > 0,
        zone_name(message.questions[0].name) == Some(inside),
        inside != HOSTNAME_SUFFIX@,
    ensures
        answer(scope, zone, peer, message) matches Some(response) && {
            let reply = response.reply;
            &&& reply.id == message.id
            &&& reply.op_code == 0
            &&& reply.recursion_desired == message.recursion_desired
            &&& reply.checking_disabled == message.checking_disabled
            &&& reply.authoritative
            &&& reply.echoed == 1
            &&& match zone.held(inside, Seq::empty()) {
                ZoneEntryView::Absent => reply.response_code == 3 && reply.answer is None,
                ZoneEntryView::Held { address: Some(address), .. } => {
                    &&& reply.response_code == 0
                    &&& message.questions[0].record_type == 1 ==> reply.answer == Some(
                        AddressRecord { address, ttl: 15 },
                    ) && response.authority is None
                    &&& message.questions[0].record_type != 1 ==> reply.answer is None
                },
                ZoneEntryView::Held { address: None, .. } => reply.response_code == 0
                    && reply.answer is None,
            }
            &&& reply.answer is None ==> response.authority == Some(soa_view())
        },
{
}

/// What else is answered: the apex holds no record; a name outside of the zone is
/// refused, with its question; an operation that is no query is not implemented,
/// and is told so by its id and its code alone. A response is not answered, nor is
/// a message without a question.
pub proof fn law_other_messages_are_answered_in_kind<T: Zone>(
    scope: AnswerScope,
    zone: T,
    peer: IpAddr,
    message: MessageView,
)
    requires
        scope.serves(peer),
    ensures
        !message.is_query || message.questions.len() == 0 ==> answer(scope, zone, peer, message) is None,
        message.is_query && message.questions.len() > 0 && message.op_code != 0 ==> (answer(
            scope,
            zone,
            peer,
            message,
        ) matches Some(response) && response.reply.response_code == 4 && response.reply.echoed == 0
            && response.reply.answer is None && response.authority is None
            && !response.reply.recursion_desired && !response.reply.checking_disabled
            && response.reply.id == message.id && response.reply.op_code == message.op_code),
        message.is_query && message.questions.len() > 0 && message.op_code == 0 && zone_name(
            message.questions[0].name,
        ) is None ==> (answer(scope, zone, peer, message) matches Some(response)
            && response.reply.response_code == 5 && response.reply.echoed == 1
            && response.reply.answer is None && response.authority is None
            && !response.reply.authoritative && response.reply.id == message.id
            && response.reply.recursion_desired == message.recursion_desired
            && response.reply.checking_disabled == message.checking_disabled),
        message.is_query && message.questions.len() > 0 && message.op_code == 0 && zone_name(
            message.questions[0].name,
        ) == Some(HOSTNAME_SUFFIX@) ==> (answer(scope, zone, peer, message) matches Some(response)
            && response.reply.response_code == 0 && response.reply.answer is None
            && response.authority == Some(soa_view())),
{
}

/// A live box's name, asked for in any case and by an IPv4 lookup on the host, is
/// answered with the address that the box is routed at, where the host may be
/// told of it.
pub proof fn law_live_box_is_answered_at_its_address(
    scope: AnswerScope,
    registry: HostnameRegistry,
    peer: IpAddr,
    message: MessageView,
    inside: Seq<char>,
)
    requires
        scope.serves(peer),
        message.is_query,
        message.op_code == 0,
        message.questions.len() > 0,
        message.questions[0].record_type == 1,
        zone_name(message.questions[0].name) == Some(inside),
        inside != HOSTNAME_SUFFIX@,
        registry@.by_host.contains_key(text::lower(inside)),
        crate::dns::host_answerable(registry@.by_host[text::lower(inside)].address(), Seq::empty()),
    ensures
        answer(scope, registry, peer, message) matches Some(response) && response.reply.answer == Some(
            AddressRecord {
                address: registry@.by_host[text::lower(inside)].address(),
                ttl: 15,
            },
        ) && response.reply.response_code == 0,
{
    law_name_in_the_zone_is_answered_by_what_holds_it(scope, registry, peer, message, inside);
    crate::dns::law_zone_tells_of_what_the_host_may_know(
        registry@,
        inside,
        text::lower(inside),
        Seq::empty(),
    );
}

/// The zone's start of authority is of the zone itself, and none of its times is
/// above fifteen seconds.
pub proof fn law_authority_is_the_zones_own()
    ensures
        soa_view().owner == "min.internal"@ + "."@,
        soa_view().mname == "ns."@ + "min.internal"@ + "."@,
        soa_view().rname == "hostmaster."@ + "min.internal"@ + "."@,
        soa_view().ttl == 15,
        soa_view().minimum == 15,
        soa_view().refresh == 15,
        soa_view().retry == 15,
        soa_view().expire == 15,
        soa_view().serial == 1,
{
}

/// A lookup in vain is told of exactly where a query with a question comes from
/// elsewhere, by the name it asks for, without the root dot, and the record type.
pub proof fn law_lookup_from_elsewhere_is_told_of(
    scope: AnswerScope,
    peer: IpAddr,
    message: MessageView,
    stem: Seq<char>,
)
    ensures
        off_host(scope, peer, message) is Some <==> message.is_query && message.questions.len() > 0
            && !scope.serves(peer),
        off_host(scope, peer, message) matches Some((name, record_type)) ==> {
            &&& record_type == message.questions[0].record_type
            &&& message.questions[0].name == stem + seq!['.'] ==> name == stem
            &&& message.questions[0].name.len() > 0 && message.questions[0].name.last() != '.'
                ==> name == message.questions[0].name
        },
{
    assert((stem + seq!['.']).drop_last() =~= stem);
}

} // verus!
