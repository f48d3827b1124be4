//! Bridging a box's tap device onto the switch: the frames that pass, what
//! decides them, and the commands that set the tap up.

use std::collections::{BTreeMap, BTreeSet};
use vstd::prelude::*;

use crate::addr::{Endpoint, Ipv4Addr};
use crate::dns::Route;
use crate::policy::{Direction, KeyedWarnLimiter};
use crate::session::{EgressPolicy, EgressRules, IngressPolicy, IpProto, SessionPolicy};
use crate::subnet::{PtaskLease, SwitchSubnet, DEFAULT_MTU};
use crate::text;

verus! {

// ---------------------------------------------------------------------------
// Frames
// ---------------------------------------------------------------------------

/// The length of an Ethernet II header.
pub const ETH_HDR: usize = 14;

/// The EtherType of IPv4.
pub const ETHERTYPE_IPV4: u16 = 0x0800;

/// The IPv4 protocol number of TCP.
pub const IPPROTO_TCP: u8 = 6;

/// The IPv4 protocol number of UDP.
pub const IPPROTO_UDP: u8 = 17;

/// The IPv4 protocol number of ICMP.
pub const IPPROTO_ICMP: u8 = 1;

/// The largest frame that is relayed: the MTU, an Ethernet header and a VLAN
/// tag.
pub fn max_frame() -> (r: usize)
    ensures
        r == DEFAULT_MTU + 14 + 4,
{
    DEFAULT_MTU as usize + 14 + 4
}

/// The number that two bytes write, the first the more significant.
pub open spec fn be16(s: Seq<u8>, i: int) -> int {
    s[i] * 256 + s[i + 1]
}

/// The IPv4 address that stands at `i`.
pub open spec fn address_at(s: Seq<u8>, i: int) -> Ipv4Addr {
    Ipv4Addr { bits: crate::addr::bits_of(s.subrange(i, i + 4)) as u32 }
}

/// The addressing of a TCP or UDP packet over IPv4. The flags are those of TCP,
/// and zero for UDP.
#[derive(Clone, Copy, Debug, PartialEq, Eq, Structural)]
pub struct L4Packet {
    pub src: Endpoint,
    pub dst: Endpoint,
    pub proto: u8,
    pub tcp_flags: u8,
}

/// How many bytes the IPv4 header of a frame spans.
pub open spec fn ip_header_length(frame: Seq<u8>) -> int {
    (frame[14] as int % 16) * 4
}

/// The TCP or UDP packet over IPv4 that a frame carries. There is none in a
/// frame of another EtherType or protocol, in a later fragment, and in a frame
/// that is cut short.
pub open spec fn packet_of(frame: Seq<u8>) -> Option<L4Packet> {
    let proto = frame[23];
    let l4 = 14 + ip_header_length(frame);
    let need: int = if proto == IPPROTO_TCP {
        14
    } else {
        8
    };
    if frame.len() < 34 || be16(frame, 12) != ETHERTYPE_IPV4 {
        None
    } else if ip_header_length(frame) < 20 || frame.len() < l4 {
        None
    } else if proto != IPPROTO_TCP && proto != IPPROTO_UDP {
        None
    } else if be16(frame, 20) % 0x2000 != 0 {
        None
    } else if frame.len() < l4 + need {
        None
    } else {
        Some(
            L4Packet {
                src: Endpoint { ip: address_at(frame, 26), port: be16(frame, l4) as u16 },
                dst: Endpoint { ip: address_at(frame, 30), port: be16(frame, l4 + 2) as u16 },
                proto,
                tcp_flags: if proto == IPPROTO_TCP {
                    frame[l4 + 13]
                } else {
                    0
                },
            },
        )
    }
}

/// The number that two bytes write.
fn read_be16(frame: &[u8], i: usize) -> (r: u16)
    requires
        i + 1 < frame@.len(),
    ensures
        r == be16(frame@, i as int),
{
    (frame[i] as u16) * 256 + (frame[i + 1] as u16)
}

/// The IPv4 address that stands at `i`.
fn read_address(frame: &[u8], i: usize) -> (r: Ipv4Addr)
    requires
        i + 3 < frame@.len(),
    ensures
        r == address_at(frame@, i as int),
{
    assert(frame@.subrange(i as int, i + 4) =~= seq![
        frame@[i as int],
        frame@[i + 1],
        frame@[i + 2],
        frame@[i + 3],
    ]);
    Ipv4Addr::new(frame[i], frame[i + 1], frame[i + 2], frame[i + 3])
}

/// The TCP or UDP packet over IPv4 that a frame carries, or `None` where there
/// is none to read.
pub fn parse_ipv4_l4(frame: &[u8]) -> (r: Option<L4Packet>)
    ensures
        r == packet_of(frame@),
{
    if frame.len() < ETH_HDR + 20 {
        return None;
    }
    if read_be16(frame, 12) != ETHERTYPE_IPV4 {
        return None;
    }
    let first: u8 = frame[14];
    let ihl: usize = ((first % 16) as usize) * 4;
    if ihl < 20 || frame.len() - ETH_HDR < ihl {
        return None;
    }
    let proto: u8 = frame[23];
    if proto != IPPROTO_TCP && proto != IPPROTO_UDP {
        return None;
    }
    if read_be16(frame, 20) % 0x2000 != 0 {
        return None;
    }
    let l4: usize = ETH_HDR + ihl;
    let need: usize = if proto == IPPROTO_TCP {
        14
    } else {
        8
    };
    if frame.len() - l4 < need {
        return None;
    }
    Some(
        L4Packet {
            src: Endpoint::new(read_address(frame, 26), read_be16(frame, l4)),
            dst: Endpoint::new(read_address(frame, 30), read_be16(frame, l4 + 2)),
            proto,
            tcp_flags: if proto == IPPROTO_TCP {
                frame[l4 + 13]
            } else {
                0
            },
        },
    )
}

/// Whether a frame is an IPv4 packet to `alias`.
pub open spec fn addressed_to(frame: Seq<u8>, alias: Ipv4Addr) -> bool {
    frame.len() >= 34 && be16(frame, 12) == ETHERTYPE_IPV4 && address_at(frame, 30) == alias
}

/// Whether a frame is an IPv4 packet, over any transport, to the deprecated
/// literal address of the host.
pub fn is_legacy_host_literal(frame: &[u8], alias: Ipv4Addr) -> (r: bool)
    ensures
        r == addressed_to(frame@, alias),
{
    frame.len() >= ETH_HDR + 20 && read_be16(frame, 12) == ETHERTYPE_IPV4 && read_address(frame, 30)
        == alias
}

// ---------------------------------------------------------------------------
// The inbound gate
// ---------------------------------------------------------------------------

/// Whether a packet is a bare SYN: the SYN flag is set, the ACK flag is not.
pub open spec fn bare_syn(packet: L4Packet) -> bool {
    packet.proto == IPPROTO_TCP && packet.tcp_flags as int / 2 % 2 == 1 && packet.tcp_flags as int
        / 16 % 2 == 0
}

/// The new connection that a frame opens to a port outside `allowed`.
pub open spec fn syn_blocked(frame: Seq<u8>, allowed: Set<u16>) -> Option<(u16, Endpoint)> {
    match packet_of(frame) {
        Some(p) => if bare_syn(p) && !allowed.contains(p.dst.port) {
            Some((p.dst.port, p.src))
        } else {
            None
        },
        None => None,
    }
}

/// The new connection that a frame opens to a port outside `allowed`: its
/// destination port and its source. Any other frame passes.
pub fn blocked_syn(frame: &[u8], allowed: &BTreeSet<u16>) -> (r: Option<(u16, Endpoint)>)
    ensures
        r == syn_blocked(frame@, allowed@),
{
    proof {
        crate::ordered::lemma_integers();
    }
    let packet: L4Packet = match parse_ipv4_l4(frame) {
        Some(p) => p,
        None => {
            return None;
        },
    };
    if packet.proto != IPPROTO_TCP {
        return None;
    }
    let syn: bool = packet.tcp_flags / 2 % 2 == 1;
    let ack: bool = packet.tcp_flags / 16 % 2 == 1;
    if !syn || ack || allowed.contains(&packet.dst.port) {
        return None;
    }
    Some((packet.dst.port, packet.src))
}

/// How long an outbound datagram lets its reply in, in milliseconds.
pub const UDP_FLOW_TTL_MS: u64 = 120_000;

/// Expired flows are swept once the table holds more than this many.
pub const UDP_FLOW_SWEEP_AT: usize = 4096;

/// The number under which a flow is recorded: the remote end, then the local
/// port.
pub open spec fn flow_key(remote: Endpoint, local_port: u16) -> int {
    remote.ip.bits * 0x1_0000_0000 + remote.port * 0x1_0000 + local_port
}

/// A flow is determined by its number.
pub proof fn lemma_flow_key(a: Endpoint, p: u16, b: Endpoint, q: u16)
    ensures
        0 <= flow_key(a, p) <= 0xffff_ffff_ffff_ffff,
        flow_key(a, p) == flow_key(b, q) ==> a == b && p == q,
{
}

/// Whether a flow seen at `seen` is live at `now`.
pub open spec fn flow_live(seen: u64, now: u64) -> bool {
    now - seen < UDP_FLOW_TTL_MS
}

/// The outbound UDP flows of one box, each under its number, with the time its
/// last datagram was seen.
pub struct UdpConntrack {
    flows: BTreeMap<u64, u64>,
}

impl View for UdpConntrack {
    type V = Map<u64, u64>;

    closed spec fn view(&self) -> Map<u64, u64> {
        self.flows@
    }
}

/// The flows after an outbound datagram under the number `key` at `now`: it is
/// recorded, and where there are too many, what has expired goes.
pub open spec fn flows_after(flows: Map<u64, u64>, key: u64, now: u64) -> Map<u64, u64> {
    let recorded = flows.insert(key, now);
    if recorded.dom().len() > UDP_FLOW_SWEEP_AT {
        live_flows(recorded, now)
    } else {
        recorded
    }
}

/// The flows that are live at `now`.
pub open spec fn live_flows(flows: Map<u64, u64>, now: u64) -> Map<u64, u64> {
    Map::new(|k: u64| flows.contains_key(k) && flow_live(flows[k], now), |k: u64| flows[k])
}

/// Whether a datagram from `remote` to `local_port` is a reply at `now`.
pub open spec fn solicited(flows: Map<u64, u64>, remote: Endpoint, local_port: u16, now: u64) -> bool {
    let key = flow_key(remote, local_port) as u64;
    flows.contains_key(key) && flow_live(flows[key], now)
}

impl UdpConntrack {
    /// A tracker that has seen nothing.
    pub fn new() -> (r: Self)
        ensures
            r@ == Map::<u64, u64>::empty(),
    {
        UdpConntrack { flows: BTreeMap::new() }
    }

    /// The number under which a flow is recorded.
    fn key_of(remote: Endpoint, local_port: u16) -> (r: u64)
        ensures
            r == flow_key(remote, local_port),
    {
        (remote.ip.bits as u64) * 0x1_0000_0000 + (remote.port as u64) * 0x1_0000 + (
        local_port as u64)
    }

    /// Records an outbound datagram at `now`, so that its reply may return.
    pub fn record_egress(&mut self, packet: &L4Packet, now: u64)
        ensures
            final(self)@ == flows_after(
                old(self)@,
                flow_key(packet.dst, packet.src.port) as u64,
                now,
            ),
    {
        proof {
            crate::ordered::lemma_integers();
        }
        let key: u64 = Self::key_of(packet.dst, packet.src.port);
        self.flows.insert(key, now);
        if self.flows.len() > UDP_FLOW_SWEEP_AT {
            self.sweep(now);
        }
    }

    /// Drops the flows that are not live at `now`.
    fn sweep(&mut self, now: u64)
        ensures
            final(self)@ == live_flows(old(self)@, now),
    {
        proof {
            crate::ordered::lemma_integers();
        }
        let live = |_key: &u64, seen: &u64| -> (r: bool)
            ensures
                r == flow_live(*seen, now),
            { now < *seen || now - *seen < UDP_FLOW_TTL_MS };
        crate::ordered::retain(&mut self.flows, live);
        assert(self@ =~= live_flows(old(self)@, now));
    }

    /// Whether an inbound datagram is the reply to a live outbound flow.
    pub fn allows_ingress(&self, packet: &L4Packet, now: u64) -> (r: bool)
        ensures
            r == solicited(self@, packet.src, packet.dst.port, now),
    {
        proof {
            crate::ordered::lemma_integers();
        }
        let key: u64 = Self::key_of(packet.src, packet.dst.port);
        match self.flows.get(&key) {
            Some(seen) => now < *seen || now - *seen < UDP_FLOW_TTL_MS,
            None => false,
        }
    }
}

/// The unsolicited datagram that a frame carries to a port outside `allowed`.
pub open spec fn udp_blocked(
    frame: Seq<u8>,
    allowed: Set<u16>,
    flows: Map<u64, u64>,
    now: u64,
) -> Option<(u16, Endpoint)> {
    match packet_of(frame) {
        Some(p) => if p.proto == IPPROTO_UDP && !allowed.contains(p.dst.port) && !solicited(
            flows,
            p.src,
            p.dst.port,
            now,
        ) {
            Some((p.dst.port, p.src))
        } else {
            None
        },
        None => None,
    }
}

/// The unsolicited datagram that a frame carries to a port outside
/// `udp_allowed`: its destination port and its source. Any other frame passes.
pub fn blocked_udp(
    frame: &[u8],
    udp_allowed: &BTreeSet<u16>,
    conntrack: &UdpConntrack,
    now: u64,
) -> (r: Option<(u16, Endpoint)>)
    ensures
        r == udp_blocked(frame@, udp_allowed@, conntrack@, now),
{
    proof {
        crate::ordered::lemma_integers();
    }
    let packet: L4Packet = match parse_ipv4_l4(frame) {
        Some(p) => p,
        None => {
            return None;
        },
    };
    if packet.proto != IPPROTO_UDP {
        return None;
    }
    if udp_allowed.contains(&packet.dst.port) || conntrack.allows_ingress(&packet, now) {
        return None;
    }
    Some((packet.dst.port, packet.src))
}

/// The reply to a datagram that was recorded passes until the flow's time is
/// up: it comes from where the datagram went, to the port it came from.
pub proof fn law_reply_is_solicited(flows: Map<u64, u64>, out: L4Packet, sent: u64, now: u64)
    requires
        now - sent < UDP_FLOW_TTL_MS,
    ensures
        solicited(
            flows_after(flows, flow_key(out.dst, out.src.port) as u64, sent),
            out.dst,
            out.src.port,
            now,
        ),
{
    lemma_flow_key(out.dst, out.src.port, out.dst, out.src.port);
}

/// A recorded datagram lets in no other: a datagram from another source, or to
/// another local port, is solicited only if it was before.
pub proof fn law_only_the_reply_is_solicited(
    flows: Map<u64, u64>,
    out: L4Packet,
    sent: u64,
    remote: Endpoint,
    local_port: u16,
    now: u64,
)
    requires
        remote != out.dst || local_port != out.src.port,
        solicited(
            flows_after(flows, flow_key(out.dst, out.src.port) as u64, sent),
            remote,
            local_port,
            now,
        ),
    ensures
        solicited(flows, remote, local_port, now),
{
    lemma_flow_key(out.dst, out.src.port, remote, local_port);
}

// ---------------------------------------------------------------------------
// The session gate
// ---------------------------------------------------------------------------

/// The transport of refused traffic, as warnings name it.
#[derive(Clone, Copy, Debug, PartialEq, Eq, Structural)]
pub enum Proto {
    /// The traffic was IPv6.
    Ipv6,
    /// There was no transport to name.
    Unnamed,
    /// An IPv4 protocol, by number.
    Ipv4(u8),
}

impl Proto {
    /// The transport's name: `tcp`, `udp` and `icmp` by name, any other IPv4
    /// protocol by number.
    pub open spec fn name(self) -> Seq<char> {
        match self {
            Proto::Ipv6 => "ipv6"@,
            Proto::Unnamed => "none"@,
            Proto::Ipv4(n) => if n == IPPROTO_TCP {
                "tcp"@
            } else if n == IPPROTO_UDP {
                "udp"@
            } else if n == IPPROTO_ICMP {
                "icmp"@
            } else {
                text::decimal(n as nat)
            },
        }
    }

    /// The transport's name.
    pub fn to_text(self) -> (r: String)
        ensures
            r@ == self.name(),
    {
        match self {
            Proto::Ipv6 => "ipv6".to_owned(),
            Proto::Unnamed => "none".to_owned(),
            Proto::Ipv4(n) => if n == IPPROTO_TCP {
                "tcp".to_owned()
            } else if n == IPPROTO_UDP {
                "udp".to_owned()
            } else if n == IPPROTO_ICMP {
                "icmp".to_owned()
            } else {
                text::decimal_string(n as u64)
            },
        }
    }
}

/// Why an outbound frame is dropped.
#[derive(Clone, Copy, Debug, PartialEq, Eq, Structural)]
pub enum DropReason {
    /// It is IPv6.
    Ipv6,
    /// It is of another family than those declared.
    UndeclaredFamily(u16),
    /// It is cut short.
    Truncated,
    /// Its protocol is not declared.
    UndeclaredProtocol { proto: u8 },
    /// Its destination is denied.
    DeniedSubnet { proto: u8 },
    /// Its destination is not declared.
    UndeclaredSubnet { proto: u8 },
}

/// The verdict on an outbound frame. A dropped frame comes with the name of
/// the rule that dropped it and the destination that it named, if it named
/// one.
#[derive(Debug)]
pub enum FrameVerdict {
    Forward,
    Drop { reason: DropReason, rule: String, remote: Option<Endpoint> },
}

/// The transport of a dropped frame.
pub open spec fn transport_of(reason: DropReason) -> Proto {
    match reason {
        DropReason::Ipv6 => Proto::Ipv6,
        DropReason::UndeclaredFamily(_) => Proto::Unnamed,
        DropReason::Truncated => Proto::Unnamed,
        DropReason::UndeclaredProtocol { proto } => Proto::Ipv4(proto),
        DropReason::DeniedSubnet { proto } => Proto::Ipv4(proto),
        DropReason::UndeclaredSubnet { proto } => Proto::Ipv4(proto),
    }
}

/// The transport of a dropped frame, from why it was dropped.
pub fn drop_transport(reason: &DropReason) -> (r: Proto)
    ensures
        r == transport_of(*reason),
{
    match reason {
        DropReason::Ipv6 => Proto::Ipv6,
        DropReason::UndeclaredFamily(_) => Proto::Unnamed,
        DropReason::Truncated => Proto::Unnamed,
        DropReason::UndeclaredProtocol { proto } => Proto::Ipv4(*proto),
        DropReason::DeniedSubnet { proto } => Proto::Ipv4(*proto),
        DropReason::UndeclaredSubnet { proto } => Proto::Ipv4(*proto),
    }
}

/// A warning that traffic was refused: who it belongs to, its direction, the
/// remote end if it is known, its transport, and the rule that refused it.
#[derive(Debug)]
pub struct Warning {
    pub session_id: String,
    pub direction: Direction,
    pub remote: Option<Endpoint>,
    pub proto: Proto,
    pub rule: String,
}

/// A warning, mathematically.
#[verifier::ext_equal]
pub struct WarningView {
    pub session_id: Seq<char>,
    pub direction: Direction,
    pub remote: Option<Endpoint>,
    pub proto: Proto,
    pub rule: Seq<char>,
}

impl View for Warning {
    type V = WarningView;

    open spec fn view(&self) -> WarningView {
        WarningView {
            session_id: self.session_id@,
            direction: self.direction,
            remote: self.remote,
            proto: self.proto,
            rule: self.rule@,
        }
    }
}

/// The name a box should use in place of the host's literal address.
pub const HOST_MIN_INTERNAL: &'static str = "host.min.internal";

/// The rule under which the deprecation notice is rate-limited.
pub const LEGACY_HOST_RULE: &'static str = "legacy-host-literal";

/// A box's network policy, as it is applied to the frames of its relay.
pub struct SessionGate {
    allowed: BTreeSet<u16>,
    udp_allowed: BTreeSet<u16>,
    conntrack: UdpConntrack,
    label: String,
    limiter: KeyedWarnLimiter<String>,
    egress: EgressRules,
    alias: Ipv4Addr,
}

/// A session gate, mathematically.
#[verifier::ext_equal]
pub struct GateView {
    /// The TCP ports that take new connections.
    pub allowed: Set<u16>,
    /// The UDP ports that take unsolicited datagrams.
    pub udp_allowed: Set<u16>,
    /// The outbound UDP flows.
    pub flows: Map<u64, u64>,
    /// The box, as warnings name it.
    pub label: Seq<char>,
    /// When each rule was last warned of.
    pub warned: Map<Seq<char>, u64>,
    /// The host's literal address on the switch.
    pub alias: Ipv4Addr,
}

impl GateView {
    /// Whether a warning under `rule` is due at `now`.
    pub open spec fn due(self, rule: Seq<char>, now: u64) -> bool {
        crate::policy::warning_due(
            if self.warned.contains_key(rule) {
                Some(self.warned[rule])
            } else {
                None
            },
            now,
        )
    }

    /// A session gate after a warning under `rule` was asked for at `now`.
    pub open spec fn after_warning(self, rule: Seq<char>, now: u64) -> GateView {
        GateView {
            warned: if self.due(rule, now) {
                self.warned.insert(rule, now)
            } else {
                self.warned
            },
            ..self
        }
    }

    /// The inbound frame that is dropped: its transport, its destination port
    /// and its source.
    pub open spec fn dropped_inbound(self, frame: Seq<u8>, now: u64) -> Option<
        (IpProto, u16, Endpoint),
    > {
        match syn_blocked(frame, self.allowed) {
            Some((port, src)) => Some((IpProto::Tcp, port, src)),
            None => match udp_blocked(frame, self.udp_allowed, self.flows, now) {
                Some((port, src)) => Some((IpProto::Udp, port, src)),
                None => None,
            },
        }
    }

    /// A session gate after a frame was let out at `now`: an outbound datagram opens
    /// a window for its reply, and a frame to the host's literal address may
    /// be noticed.
    pub open spec fn after_forward(self, frame: Seq<u8>, now: u64) -> GateView {
        let recorded = GateView {
            flows: match packet_of(frame) {
                Some(p) => if p.proto == IPPROTO_UDP {
                    flows_after(self.flows, flow_key(p.dst, p.src.port) as u64, now)
                } else {
                    self.flows
                },
                None => self.flows,
            },
            ..self
        };
        if addressed_to(frame, self.alias) {
            recorded.after_warning(LEGACY_HOST_RULE@, now)
        } else {
            recorded
        }
    }
}

impl View for SessionGate {
    type V = GateView;

    closed spec fn view(&self) -> GateView {
        GateView {
            allowed: self.allowed@,
            udp_allowed: self.udp_allowed@,
            flows: self.conntrack@,
            label: self.label@,
            warned: self.limiter@,
            alias: self.alias,
        }
    }
}

/// A frame with its length before it, in two bytes, the first the less
/// significant.
pub open spec fn framed(frame: Seq<u8>) -> Seq<u8> {
    seq![(frame.len() % 256) as u8, (frame.len() / 256) as u8] + frame
}

/// A frame with its length before it.
pub fn frame_with_length(frame: &[u8]) -> (r: Vec<u8>)
    requires
        frame@.len() <= 0xffff,
    ensures
        r@ == framed(frame@),
{
    let n: usize = frame.len();
    let mut out: Vec<u8> = Vec::new();
    out.push((n % 256) as u8);
    out.push((n / 256) as u8);
    text::push_bytes(&mut out, frame);
    assert(out@ =~= framed(frame@));
    out
}

/// What becomes of a read from the tap.
#[derive(Debug)]
pub enum TapStep {
    /// The tap is gone: the relay ends.
    End,
    /// The frame filled the buffer, so that it may have been cut short: it is
    /// dropped.
    Truncated,
    /// The frame is dropped, without an answer; a warning may be due.
    Dropped(Option<Warning>),
    /// The frame goes to the switch, with its length before it; `notice` says
    /// that the box is told of the name to use for the host.
    Forward { framed: Vec<u8>, notice: bool },
}

/// What becomes of an inbound frame.
#[derive(Debug)]
pub enum InboundStep {
    /// It is written to the tap.
    Deliver,
    /// It is dropped; a warning may be due.
    Dropped(Option<Warning>),
}

/// What becomes of a read of `n` bytes from the tap of a relay without a gate,
/// into a buffer one byte larger than the largest frame.
pub fn relay_ungated(buf: &[u8], n: usize) -> (r: TapStep)
    requires
        n <= buf@.len() <= 0xffff,
    ensures
        match r {
            TapStep::End => n == 0,
            TapStep::Truncated => n != 0 && n == buf@.len(),
            TapStep::Dropped(_) => false,
            TapStep::Forward { framed: out, notice } => 0 < n < buf@.len() && out@ == framed(
                buf@.take(n as int),
            ) && !notice,
        },
{
    if n == 0 {
        return TapStep::End;
    }
    if n == buf.len() {
        return TapStep::Truncated;
    }
    let frame: &[u8] = vstd::slice::slice_subrange(buf, 0, n);
    assert(frame@ =~= buf@.take(n as int));
    TapStep::Forward { framed: frame_with_length(frame), notice: false }
}

/// The rule of a refused inbound packet.
pub open spec fn inbound_rule(proto: IpProto, port: u16) -> Seq<char> {
    "no ingress mapping for "@ + proto.name() + " dst port "@ + text::decimal(port as nat)
}

/// The rule of a refused inbound packet.
fn inbound_rule_text(proto: IpProto, port: u16) -> (r: String)
    ensures
        r@ == inbound_rule(proto, port),
{
    let mut out: String = String::new();
    out.append("no ingress mapping for ");
    out.append(proto.as_str());
    out.append(" dst port ");
    text::push_decimal(&mut out, port as u64);
    assert(out@ =~= inbound_rule(proto, port));
    out
}

impl SessionGate {
    /// The tables are in order.
    pub closed spec fn wf(&self) -> bool {
        self.limiter.wf()
    }

    /// The rules that outbound frames are decided by.
    pub closed spec fn rules(&self) -> EgressRules {
        self.egress
    }

    /// A session's gate: the internal ports that its ingress declares for
    /// each transport, the rules of its egress beside the resolver of the
    /// switch, and the host's literal address on the switch. Without an
    /// ingress declaration every new inbound connection is refused.
    pub fn for_session(label: String, policy: &SessionPolicy, subnet: SwitchSubnet) -> (r: Self)
        ensures
            r.wf(),
            r@ == (GateView {
                allowed: crate::session::policy_ports(*policy, IpProto::Tcp, true),
                udp_allowed: crate::session::policy_ports(*policy, IpProto::Udp, true),
                flows: Map::empty(),
                label: label@,
                warned: Map::empty(),
                alias: Ipv4Addr { bits: (subnet.broadcast_bits() - 1) as u32 },
            }),
            r.rules()@ == (crate::session::EgressRulesView {
                policy: match policy.egress {
                    Some(p) => Some(p@),
                    None => None,
                },
                resolver: Ipv4Addr { bits: (subnet.network_bits() + 1) as u32 },
            }),
    {
        let ingress: Option<&IngressPolicy> = policy.ingress.as_ref();
        let egress: Option<&EgressPolicy> = policy.egress.as_ref();
        SessionGate {
            allowed: crate::session::ports_of(ingress, IpProto::Tcp, true),
            udp_allowed: crate::session::ports_of(ingress, IpProto::Udp, true),
            conntrack: UdpConntrack::new(),
            label,
            limiter: KeyedWarnLimiter::new(),
            egress: EgressRules::from_policy(egress, subnet.dns_server()),
            alias: subnet.host_alias(),
        }
    }

    /// The session's limiter of warnings, which what else warns of the session
    /// shares.
    pub fn limiter(&mut self) -> (r: &mut KeyedWarnLimiter<String>)
        requires
            old(self).wf(),
        ensures
            r.wf(),
            r@ == old(self)@.warned,
            final(self)@ == (GateView { warned: final(r)@, ..old(self)@ }),
            final(self).rules() == old(self).rules(),
            final(r).wf() ==> final(self).wf(),
    {
        &mut self.limiter
    }

    /// Whether a direct TCP connection to `port` of the box is let in.
    pub fn admits_direct_tcp(&self, port: u16) -> (r: bool)
        ensures
            r == self@.allowed.contains(port),
    {
        proof {
            crate::ordered::lemma_integers();
        }
        self.allowed.contains(&port)
    }

    /// Whether an unsolicited datagram to `port` of the box is let in.
    pub fn admits_direct_udp(&self, port: u16) -> (r: bool)
        ensures
            r == self@.udp_allowed.contains(port),
    {
        proof {
            crate::ordered::lemma_integers();
        }
        self.udp_allowed.contains(&port)
    }

    /// The inbound frame that is dropped: a new TCP connection, or an
    /// unsolicited datagram, to a port that the box did not declare.
    pub fn inbound_drop(&self, frame: &[u8], now: u64) -> (r: Option<(IpProto, u16, Endpoint)>)
        requires
            self.wf(),
        ensures
            r == self@.dropped_inbound(frame@, now),
    {
        if let Some((port, src)) = blocked_syn(frame, &self.allowed) {
            return Some((IpProto::Tcp, port, src));
        }
        if let Some((port, src)) = blocked_udp(frame, &self.udp_allowed, &self.conntrack, now) {
            return Some((IpProto::Udp, port, src));
        }
        None
    }

    /// Asks for a warning under `rule` at `now`.
    fn warn(
        &mut self,
        direction: Direction,
        remote: Option<Endpoint>,
        proto: Proto,
        rule: String,
        now: u64,
    ) -> (r: Option<Warning>)
        requires
            old(self).wf(),
        ensures
            final(self).wf(),
            final(self)@ == old(self)@.after_warning(rule@, now),
            final(self).rules() == old(self).rules(),
            match r {
                Some(w) => old(self)@.due(rule@, now) && w@ == (WarningView {
                    session_id: old(self)@.label,
                    direction,
                    remote,
                    proto,
                    rule: rule@,
                }),
                None => !old(self)@.due(rule@, now),
            },
    {
        if self.limiter.should_warn_at(rule.clone(), now) {
            Some(Warning { session_id: self.label.clone(), direction, remote, proto, rule })
        } else {
            None
        }
    }

    /// Asks for the deprecation notice at `now`; whether it is due.
    pub fn notice(&mut self, now: u64) -> (r: bool)
        requires
            old(self).wf(),
        ensures
            final(self).wf(),
            r == old(self)@.due(LEGACY_HOST_RULE@, now),
            final(self)@ == old(self)@.after_warning(LEGACY_HOST_RULE@, now),
            final(self).rules() == old(self).rules(),
    {
        self.limiter.should_warn_at(LEGACY_HOST_RULE.to_owned(), now)
    }

    /// What becomes of a read of `n` bytes from the tap, into a buffer one
    /// byte larger than the largest frame. Every frame is put to `judge` with
    /// the box's egress rules before it reaches the switch; what is dropped is
    /// not answered, and opens no window for a reply.
    pub fn relay_tap_to_switch<F: Fn(&[u8], &EgressRules) -> FrameVerdict>(
        &mut self,
        buf: &[u8],
        n: usize,
        judge: F,
        now: u64,
    ) -> (r: TapStep)
        requires
            old(self).wf(),
            n <= buf@.len() <= 0xffff,
            forall|frame: &[u8], rules: &EgressRules| #[trigger]
                call_requires(judge, (frame, rules)),
        ensures
            final(self).wf(),
            final(self).rules() == old(self).rules(),
            match r {
                TapStep::End => n == 0 && final(self)@ == old(self)@,
                TapStep::Truncated => n != 0 && n == buf@.len() && final(self)@ == old(self)@,
                TapStep::Dropped(w) => 0 < n < buf@.len() && exists|
                    frame: &[u8],
                    v: FrameVerdict,
                |
                    {
                        &&& frame@ == buf@.take(n as int)
                        &&& #[trigger] call_ensures(judge, (frame, &old(self).rules()), v)
                        &&& v matches FrameVerdict::Drop { reason, rule, remote }
                        &&& final(self)@ == old(self)@.after_warning(rule@, now)
                        &&& match w {
                            Some(warning) => old(self)@.due(rule@, now) && warning@ == (
                            WarningView {
                                session_id: old(self)@.label,
                                direction: Direction::Egress,
                                remote,
                                proto: transport_of(reason),
                                rule: rule@,
                            }),
                            None => !old(self)@.due(rule@, now),
                        }
                    },
                TapStep::Forward { framed: out, notice } => 0 < n < buf@.len() && exists|
                    frame: &[u8],
                    v: FrameVerdict,
                |
                    {
                        &&& frame@ == buf@.take(n as int)
                        &&& #[trigger] call_ensures(judge, (frame, &old(self).rules()), v)
                        &&& v is Forward
                        &&& out@ == framed(frame@)
                        &&& final(self)@ == old(self)@.after_forward(frame@, now)
                        &&& notice == (addressed_to(frame@, old(self)@.alias) && old(self)@.due(
                            LEGACY_HOST_RULE@,
                            now,
                        ))
                    },
            },
    {
        if n == 0 {
            return TapStep::End;
        }
        if n == buf.len() {
            return TapStep::Truncated;
        }
        let frame: &[u8] = vstd::slice::slice_subrange(buf, 0, n);
        assert(frame@ =~= buf@.take(n as int));
        let verdict: FrameVerdict = judge(frame, &self.egress);
        assert(call_ensures(judge, (frame, &old(self).rules()), verdict));
        match verdict {
            FrameVerdict::Drop { reason, rule, remote } => {
                let proto: Proto = drop_transport(&reason);
                let warning: Option<Warning> = self.warn(
                    Direction::Egress,
                    remote,
                    proto,
                    rule,
                    now,
                );
                TapStep::Dropped(warning)
            },
            FrameVerdict::Forward => {
                if let Some(packet) = parse_ipv4_l4(frame) {
                    if packet.proto == IPPROTO_UDP {
                        self.conntrack.record_egress(&packet, now);
                    }
                }
                let notice: bool = if is_legacy_host_literal(frame, self.alias) {
                    self.notice(now)
                } else {
                    false
                };
                assert(self@ =~= old(self)@.after_forward(frame@, now));
                TapStep::Forward { framed: frame_with_length(frame), notice }
            },
        }
    }

    /// What becomes of an inbound frame.
    pub fn relay_switch_to_tap(&mut self, frame: &[u8], now: u64) -> (r: InboundStep)
        requires
            old(self).wf(),
        ensures
            final(self).wf(),
            final(self).rules() == old(self).rules(),
            match r {
                InboundStep::Deliver => old(self)@.dropped_inbound(frame@, now) is None && final(self)@ == old(self)@,
                InboundStep::Dropped(w) => match old(self)@.dropped_inbound(frame@, now) {
                    Some((proto, port, src)) => {
                        let rule = inbound_rule(proto, port);
                        &&& final(self)@ == old(self)@.after_warning(rule, now)
                        &&& match w {
                            Some(warning) => old(self)@.due(rule, now) && warning@ == (
                            WarningView {
                                session_id: old(self)@.label,
                                direction: Direction::Ingress,
                                remote: Some(src),
                                proto: ipproto_number(proto),
                                rule,
                            }),
                            None => !old(self)@.due(rule, now),
                        }
                    },
                    None => false,
                },
            },
    {
        match self.inbound_drop(frame, now) {
            None => InboundStep::Deliver,
            Some((proto, port, src)) => {
                let named: Proto = match proto {
                    IpProto::Tcp => Proto::Ipv4(IPPROTO_TCP),
                    IpProto::Udp => Proto::Ipv4(IPPROTO_UDP),
                    IpProto::Icmp => Proto::Ipv4(IPPROTO_ICMP),
                };
                InboundStep::Dropped(
                    self.warn(
                        Direction::Ingress,
                        Some(src),
                        named,
                        inbound_rule_text(proto, port),
                        now,
                    ),
                )
            },
        }
    }
}

/// A declared transport, by its IPv4 number.
pub open spec fn ipproto_number(proto: IpProto) -> Proto {
    match proto {
        IpProto::Tcp => Proto::Ipv4(IPPROTO_TCP),
        IpProto::Udp => Proto::Ipv4(IPPROTO_UDP),
        IpProto::Icmp => Proto::Ipv4(IPPROTO_ICMP),
    }
}

/// What a length that the switch announces asks for.
#[derive(Clone, Copy, Debug, PartialEq, Eq, Structural)]
pub enum LengthStep {
    /// An empty frame is announced: it is passed over.
    Skip,
    /// The frame is larger than any that is relayed: the relay fails.
    TooLong(usize),
    /// That many bytes of frame follow.
    Read(usize),
}

/// What a length that the switch announces asks for.
pub fn announced_length(header: [u8; 2]) -> (r: LengthStep)
    ensures
        ({
            let n = header@[0] + header@[1] * 256;
            r == (if n == 0 {
                LengthStep::Skip
            } else if n > DEFAULT_MTU + 18 {
                LengthStep::TooLong(n as usize)
            } else {
                LengthStep::Read(n as usize)
            })
        }),
        r == length_step(header@[0] + header@[1] * 256),
{
    let n: usize = (header[0] as usize) + (header[1] as usize) * 256;
    if n == 0 {
        LengthStep::Skip
    } else if n > max_frame() {
        LengthStep::TooLong(n)
    } else {
        LengthStep::Read(n)
    }
}

/// The length that is sent before a frame is the one that is read back.
pub proof fn law_announced_length_is_the_frames(frame: Seq<u8>)
    requires
        frame.len() <= 0xffff,
    ensures
        framed(frame)[0] + framed(frame)[1] * 256 == frame.len(),
        framed(frame).skip(2) == frame,
{
    assert(framed(frame).skip(2) =~= frame);
}

// ---------------------------------------------------------------------------
// Requests that a proxy carries
// ---------------------------------------------------------------------------

/// The rule of a request to a port that the target did not declare.
pub const NO_INGRESS_MAPPING_RULE: &'static str = "no-ingress-mapping";

/// Why a request is refused: the rule, whose policy it is, and the other end.
#[derive(Debug, PartialEq, Eq)]
pub struct Refusal {
    pub rule: String,
    pub direction: Direction,
    pub other: Option<Endpoint>,
}

/// The verdict on a request that a proxy is asked to carry.
#[derive(Debug, PartialEq, Eq)]
pub enum ProxiedRequest {
    Forward(Endpoint),
    Refused(Refusal),
}

/// The verdict on a request for `port` along `route`, as of the direct
/// connection it stands for. `caller` is the lease of the box it comes from,
/// if it comes from one, with the rule by which that box's own egress drops a
/// packet to the route's address and the port, if it does.
pub fn proxied_request_verdict(
    caller: Option<(Ipv4Addr, Option<String>)>,
    route: &Route,
    port: u16,
) -> (r: ProxiedRequest)
    ensures
        match caller {
            Some((lease, Some(rule))) => r matches ProxiedRequest::Refused(refusal) && refusal.rule@
                == rule@ && refusal.direction == Direction::Egress && refusal.other == Some(
                Endpoint { ip: route@.address(), port },
            ),
            _ => match route@.upstream(port) {
                Some(upstream) => r == ProxiedRequest::Forward(upstream),
                None => r matches ProxiedRequest::Refused(refusal) && refusal.rule@
                    == NO_INGRESS_MAPPING_RULE@ && refusal.direction == Direction::Ingress
                    && refusal.other == (match caller {
                    Some((lease, _)) => Some(Endpoint { ip: lease, port }),
                    None => None,
                }),
            },
        },
{
    let lease: Option<Ipv4Addr> = match caller {
        Some((lease, Some(rule))) => {
            return ProxiedRequest::Refused(
                Refusal {
                    rule,
                    direction: Direction::Egress,
                    other: Some(Endpoint::new(route.address(), port)),
                },
            );
        },
        Some((lease, None)) => Some(lease),
        None => None,
    };
    match route.upstream(port) {
        Some(upstream) => ProxiedRequest::Forward(upstream),
        None => ProxiedRequest::Refused(
            Refusal {
                rule: NO_INGRESS_MAPPING_RULE.to_owned(),
                direction: Direction::Ingress,
                other: match lease {
                    Some(ip) => Some(Endpoint::new(ip, port)),
                    None => None,
                },
            },
        ),
    }
}

/// The ports that a request to a session's box may name: the external ports of
/// its TCP mappings.
pub fn declared_request_ports(policy: Option<&SessionPolicy>) -> (r: BTreeSet<u16>)
    ensures
        r@ == (match policy {
            Some(p) => crate::session::policy_ports(*p, IpProto::Tcp, false),
            None => Set::empty(),
        }),
{
    match policy {
        Some(p) => crate::session::ports_of(p.ingress.as_ref(), IpProto::Tcp, false),
        None => BTreeSet::new(),
    }
}

/// The rules that a session's outbound frames are decided by on a switch.
pub fn compiled_egress(policy: Option<&SessionPolicy>, subnet: SwitchSubnet) -> (r: EgressRules)
    ensures
        r@ == (crate::session::EgressRulesView {
            policy: match policy {
                Some(p) => match p.egress {
                    Some(e) => Some(e@),
                    None => None,
                },
                None => None,
            },
            resolver: Ipv4Addr { bits: (subnet.network_bits() + 1) as u32 },
        }),
{
    let egress: Option<&EgressPolicy> = match policy {
        Some(p) => p.egress.as_ref(),
        None => None,
    };
    EgressRules::from_policy(egress, subnet.dns_server())
}

// ---------------------------------------------------------------------------
// Setting up a tap
// ---------------------------------------------------------------------------

/// The kernel's limit on the length of an interface name, its end included.
pub const IFNAMSIZ: usize = 16;

/// The name of a tap as the kernel takes it: its bytes, padded with zeros.
/// `None` for a name that is too long.
pub fn tap_request_name(name: &str) -> (r: Option<[u8; 16]>)
    ensures
        ({
            let bytes = vstd::utf8::encode_utf8(name@);
            match r {
                Some(field) => bytes.len() < IFNAMSIZ && forall|i: int|
                    0 <= i < 16 ==> #[trigger] field@[i] == (if i < bytes.len() {
                        bytes[i]
                    } else {
                        0u8
                    }),
                None => bytes.len() >= IFNAMSIZ,
            }
        }),
{
    let bytes: &[u8] = name.as_bytes();
    if bytes.len() >= IFNAMSIZ {
        return None;
    }
    let mut field: [u8; 16] = [0; 16];
    let mut i: usize = 0;
    while i < bytes.len()
        invariant
            i <= bytes.len() < IFNAMSIZ,
            bytes@ == vstd::utf8::encode_utf8(name@),
            forall|j: int| 0 <= j < 16 ==> #[trigger] field@[j] == (if j < i {
                bytes@[j]
            } else {
                0u8
            }),
        decreases bytes.len() - i,
    {
        field[i] = bytes[i];
        i = i + 1;
    }
    Some(field)
}

/// A command line, mathematically.
pub open spec fn argv(v: Seq<String>) -> Seq<Seq<char>> {
    Seq::new(v.len(), |i: int| v[i]@)
}

/// A command run inside the network namespace of a process.
pub open spec fn in_netns(pid: Seq<char>, args: Seq<Seq<char>>) -> Seq<Seq<char>> {
    seq!["nsenter"@, "-t"@, pid, "-n"@] + args
}

/// The command lines that move a tap into the network namespace of a process
/// and set it up there.
pub open spec fn netns_commands(
    tap: Seq<char>,
    netns_pid: u32,
    lease: PtaskLease,
    subnet: SwitchSubnet,
) -> Seq<Seq<Seq<char>>> {
    let pid = text::decimal(netns_pid as nat);
    let cidr = lease.ip.dotted() + seq!['/'] + text::decimal(subnet.prefix_len() as nat);
    let gateway = Ipv4Addr { bits: (subnet.network_bits() + 1) as u32 };
    seq![
        seq!["ip"@, "link"@, "set"@, tap, "netns"@, pid],
        in_netns(
            pid,
            seq![
                "ip"@,
                "link"@,
                "set"@,
                tap,
                "address"@,
                crate::subnet::mac_text(lease.mac.0@),
            ],
        ),
        in_netns(pid, seq!["ip"@, "addr"@, "add"@, cidr, "dev"@, tap]),
        in_netns(pid, seq!["ip"@, "link"@, "set"@, tap, "up"@]),
        in_netns(pid, seq!["ip"@, "link"@, "set"@, "lo"@, "up"@]),
        in_netns(pid, seq!["ip"@, "route"@, "add"@, "default"@, "via"@, gateway.dotted()]),
    ]
}

/// The words of a command line, as owned strings.
fn words_of(words: &[&str]) -> (r: Vec<String>)
    ensures
        argv(r@) == Seq::new(words@.len(), |i: int| words@[i]@),
{
    let mut out: Vec<String> = Vec::new();
    let mut i: usize = 0;
    while i < words.len()
        invariant
            i <= words.len(),
            out@.len() == i,
            forall|j: int| 0 <= j < i ==> (#[trigger] out@[j])@ == words@[j]@,
        decreases words.len() - i,
    {
        out.push(words[i].to_owned());
        i = i + 1;
    }
    assert(argv(out@) =~= Seq::new(words@.len(), |i: int| words@[i]@));
    out
}

/// The command lines that move an opened tap into the network namespace of
/// `netns_pid`, in the host's namespace, and then, inside it, set the lease's
/// Ethernet address, assign its address, bring the tap and loopback up, and
/// route by way of the switch's gateway.
pub fn tap_netns_commands(
    tap: &str,
    netns_pid: u32,
    lease: PtaskLease,
    subnet: SwitchSubnet,
) -> (r: Vec<Vec<String>>)
    ensures
        r@.len() == 6,
        forall|i: int|
            0 <= i < 6 ==> argv((#[trigger] r@[i])@) == netns_commands(
                tap@,
                netns_pid,
                lease,
                subnet,
            )[i],
{
    let pid_text: String = text::decimal_string(netns_pid as u64);
    let pid: &str = pid_text.as_str();
    let mac_string: String = lease.mac.to_text();
    let mac: &str = mac_string.as_str();
    let mut cidr_string: String = lease.ip.to_text();
    cidr_string.push('/');
    text::push_decimal(&mut cidr_string, subnet.prefix() as u64);
    let cidr: &str = cidr_string.as_str();
    let gateway_string: String = subnet.gateway().to_text();
    let gateway: &str = gateway_string.as_str();
    let ghost all = netns_commands(tap@, netns_pid, lease, subnet);
    assert(cidr@ =~= lease.ip.dotted() + seq!['/'] + text::decimal(subnet.prefix_len() as nat));
    let mut out: Vec<Vec<String>> = Vec::new();
    let move_in: Vec<String> = words_of(&["ip", "link", "set", tap, "netns", pid]);
    assert(argv(move_in@) =~= all[0]);
    let address: Vec<String> = words_of(
        &["nsenter", "-t", pid, "-n", "ip", "link", "set", tap, "address", mac],
    );
    assert(argv(address@) =~= all[1]);
    let assign: Vec<String> = words_of(
        &["nsenter", "-t", pid, "-n", "ip", "addr", "add", cidr, "dev", tap],
    );
    assert(argv(assign@) =~= all[2]);
    let up: Vec<String> = words_of(&["nsenter", "-t", pid, "-n", "ip", "link", "set", tap, "up"]);
    assert(argv(up@) =~= all[3]);
    let loopback: Vec<String> = words_of(
        &["nsenter", "-t", pid, "-n", "ip", "link", "set", "lo", "up"],
    );
    assert(argv(loopback@) =~= all[4]);
    let via: Vec<String> = words_of(
        &["nsenter", "-t", pid, "-n", "ip", "route", "add", "default", "via", gateway],
    );
    assert(argv(via@) =~= all[5]);
    out.push(move_in);
    out.push(address);
    out.push(assign);
    out.push(up);
    out.push(loopback);
    out.push(via);
    out
}

/// What the failure of one of those commands is called, by its place.
pub fn netns_phase(index: usize) -> (r: &'static str)
    ensures
        r@ == (if index == 0 {
            "moving PTask tap into its namespace"@
        } else {
            "configuring PTask tap"@
        }),
{
    if index == 0 {
        "moving PTask tap into its namespace"
    } else {
        "configuring PTask tap"
    }
}

// ---------------------------------------------------------------------------
// The programs that configure a tap
// ---------------------------------------------------------------------------

/// The directories that privileged programs are looked for in, in order.
pub open spec fn trusted_paths(program: Seq<char>) -> Seq<Seq<char>> {
    seq![
        crate::path::joined("/usr/sbin"@, program),
        crate::path::joined("/sbin"@, program),
        crate::path::joined("/usr/bin"@, program),
        crate::path::joined("/bin"@, program),
    ]
}

/// Where a privileged program may be, in the order it is looked for.
pub fn trusted_candidates(program: &str) -> (r: Vec<String>)
    ensures
        crate::dns::texts(r@) == trusted_paths(program@),
{
    let mut out: Vec<String> = Vec::new();
    out.push(crate::path::join("/usr/sbin", program));
    out.push(crate::path::join("/sbin", program));
    out.push(crate::path::join("/usr/bin", program));
    out.push(crate::path::join("/bin", program));
    assert(crate::dns::texts(out@) =~= trusted_paths(program@));
    out
}

/// Whether what is told of a path is that it is there or not.
pub open spec fn told<E: Fn(&str) -> bool>(exists_at: E, path: Seq<char>, there: bool) -> bool {
    exists|p: &str| p@ == path && #[trigger] call_ensures(exists_at, (p,), there)
}

/// The first trusted place that a program is at, or its bare name where it is at
/// none.
pub fn trusted_program<E: Fn(&str) -> bool>(program: &str, exists_at: E) -> (r: String)
    requires
        forall|p: &str| #[trigger] call_requires(exists_at, (p,)),
    ensures
        ({
            let paths = trusted_paths(program@);
            ||| exists|k: int|
                0 <= k < paths.len() && r@ == #[trigger] paths[k] && told(exists_at, paths[k], true)
                    && forall|j: int| 0 <= j < k ==> told(exists_at, #[trigger] paths[j], false)
            ||| r@ == program@ && forall|j: int|
                0 <= j < paths.len() ==> told(exists_at, #[trigger] paths[j], false)
        }),
{
    let candidates: Vec<String> = trusted_candidates(program);
    let ghost paths = trusted_paths(program@);
    let mut i: usize = 0;
    while i < candidates.len()
        invariant
            i <= candidates.len(),
            paths == trusted_paths(program@),
            paths == crate::dns::texts(candidates@),
            forall|p: &str| #[trigger] call_requires(exists_at, (p,)),
            forall|j: int| 0 <= j < i ==> told(exists_at, #[trigger] paths[j], false),
        decreases candidates.len() - i,
    {
        let candidate: &str = candidates[i].as_str();
        let there: bool = exists_at(candidate);
        assert(call_ensures(exists_at, (candidate,), there));
        assert(paths[i as int] == candidate@);
        assert(told(exists_at, paths[i as int], there));
        if there {
            return candidate.to_owned();
        }
        i = i + 1;
    }
    program.to_owned()
}

// ---------------------------------------------------------------------------
// Laws of frames
// ---------------------------------------------------------------------------

/// Whether a frame is an IPv4 packet of a protocol, not a later fragment, whose
/// header is `words` words of four bytes long, with `need` bytes behind it.
pub open spec fn carries(frame: Seq<u8>, proto: u8, words: int, need: int) -> bool {
    &&& frame.len() >= 14 + 4 * words + need
    &&& frame[12] == 0x08 && frame[13] == 0x00
    &&& frame[14] % 16 == words && words >= 5
    &&& frame[20] % 32 == 0 && frame[21] == 0
    &&& frame[23] == proto
}

/// A complete TCP packet over IPv4 is read, with its addresses, its ports and its
/// flags, however long its IPv4 header is and whatever the bits are that allow
/// or announce fragments; the same goes for a UDP packet, which has no flags.
/// Nothing else is read.
pub proof fn law_packet_is_read_by_its_headers(frame: Seq<u8>, words: int)
    ensures
        carries(frame, 6, words, 14) ==> packet_of(frame) == Some(
            L4Packet {
                src: Endpoint {
                    ip: Ipv4Addr {
                        bits: (frame[26] * 16777216 + frame[27] * 65536 + frame[28] * 256
                            + frame[29]) as u32,
                    },
                    port: (frame[14 + 4 * words] * 256 + frame[15 + 4 * words]) as u16,
                },
                dst: Endpoint {
                    ip: Ipv4Addr {
                        bits: (frame[30] * 16777216 + frame[31] * 65536 + frame[32] * 256
                            + frame[33]) as u32,
                    },
                    port: (frame[16 + 4 * words] * 256 + frame[17 + 4 * words]) as u16,
                },
                proto: 6,
                tcp_flags: frame[27 + 4 * words],
            },
        ),
        carries(frame, 17, words, 8) ==> packet_of(frame) == Some(
            L4Packet {
                src: Endpoint {
                    ip: Ipv4Addr {
                        bits: (frame[26] * 16777216 + frame[27] * 65536 + frame[28] * 256
                            + frame[29]) as u32,
                    },
                    port: (frame[14 + 4 * words] * 256 + frame[15 + 4 * words]) as u16,
                },
                dst: Endpoint {
                    ip: Ipv4Addr {
                        bits: (frame[30] * 16777216 + frame[31] * 65536 + frame[32] * 256
                            + frame[33]) as u32,
                    },
                    port: (frame[16 + 4 * words] * 256 + frame[17 + 4 * words]) as u16,
                },
                proto: 17,
                tcp_flags: 0,
            },
        ),
        packet_of(frame) is Some ==> carries(frame, 6, frame[14] as int % 16, 14) || carries(
            frame,
            17,
            frame[14] as int % 16,
            8,
        ),
{
    let hi = frame[20];
    let lo = frame[21];
    assert(be16(frame, 20) % 0x2000 == 0 <==> hi % 32 == 0 && lo == 0);
    assert(frame.subrange(26, 30)[0] == frame[26] || frame.len() < 30);
    if frame.len() >= 34 {
        let s = frame.subrange(26, 30);
        let d = frame.subrange(30, 34);
        assert(s[0] == frame[26] && s[1] == frame[27] && s[2] == frame[28] && s[3] == frame[29]);
        assert(d[0] == frame[30] && d[1] == frame[31] && d[2] == frame[32] && d[3] == frame[33]);
    }
}

/// A TCP packet that opens a connection, its SYN flag set and its ACK flag not,
/// is stopped exactly if its port is not allowed, whatever else its flags say and
/// whatever its IPv4 header looks like. Nothing else is stopped so.
pub proof fn law_new_connection_is_stopped_unless_allowed(
    frame: Seq<u8>,
    words: int,
    allowed: Set<u16>,
)
    ensures
        carries(frame, 6, words, 14) ==> {
            let flags = frame[27 + 4 * words];
            let port = (frame[16 + 4 * words] * 256 + frame[17 + 4 * words]) as u16;
            if flags % 4 >= 2 && flags % 32 < 16 && !allowed.contains(port) {
                syn_blocked(frame, allowed) == Some(
                    (
                        port,
                        Endpoint {
                            ip: Ipv4Addr {
                                bits: (frame[26] * 16777216 + frame[27] * 65536 + frame[28] * 256
                                    + frame[29]) as u32,
                            },
                            port: (frame[14 + 4 * words] * 256 + frame[15 + 4 * words]) as u16,
                        },
                    ),
                )
            } else {
                syn_blocked(frame, allowed) is None
            }
        },
        !carries(frame, 6, frame[14] as int % 16, 14) ==> syn_blocked(frame, allowed) is None,
{
    law_packet_is_read_by_its_headers(frame, words);
    law_packet_is_read_by_its_headers(frame, frame[14] as int % 16);
    if carries(frame, 6, words, 14) {
        let flags = frame[27 + 4 * words];
        assert(flags as int / 2 % 2 == 1 <==> flags % 4 >= 2);
        assert(flags as int / 16 % 2 == 0 <==> flags % 32 < 16);
    }
}

/// A UDP packet is stopped exactly if its port is not allowed and no datagram
/// went out to its source from that port within two minutes. Nothing else is
/// stopped so.
pub proof fn law_datagram_is_stopped_unless_allowed_or_a_reply(
    frame: Seq<u8>,
    words: int,
    allowed: Set<u16>,
    flows: Map<u64, u64>,
    now: u64,
)
    ensures
        carries(frame, 17, words, 8) ==> {
            let port = (frame[16 + 4 * words] * 256 + frame[17 + 4 * words]) as u16;
            let src = Endpoint {
                ip: Ipv4Addr {
                    bits: (frame[26] * 16777216 + frame[27] * 65536 + frame[28] * 256
                        + frame[29]) as u32,
                },
                port: (frame[14 + 4 * words] * 256 + frame[15 + 4 * words]) as u16,
            };
            if allowed.contains(port) || solicited(flows, src, port, now) {
                udp_blocked(frame, allowed, flows, now) is None
            } else {
                udp_blocked(frame, allowed, flows, now) == Some((port, src))
            }
        },
        !carries(frame, 17, frame[14] as int % 16, 8) ==> udp_blocked(frame, allowed, flows, now) is None,
{
    law_packet_is_read_by_its_headers(frame, words);
    law_packet_is_read_by_its_headers(frame, frame[14] as int % 16);
}

/// What a datagram changes about replies: its own reply passes for two minutes
/// from then on, and every other packet is a reply exactly if it was before,
/// however many flows there are.
pub proof fn law_flows_keep_every_other_window(
    flows: Map<u64, u64>,
    out: L4Packet,
    sent: u64,
    remote: Endpoint,
    local_port: u16,
    now: u64,
)
    requires
        sent <= now,
    ensures
        solicited(
            flows_after(flows, flow_key(out.dst, out.src.port) as u64, sent),
            remote,
            local_port,
            now,
        ) <==> (if remote == out.dst && local_port == out.src.port {
            now - sent < 120_000
        } else {
            solicited(flows, remote, local_port, now)
        }),
        !solicited(Map::empty(), remote, local_port, now),
{
    lemma_flow_key(out.dst, out.src.port, remote, local_port);
}

/// The answer to a datagram that a box was let send comes through for two
/// minutes, at any port: it comes from where the datagram went, to where it came
/// from.
pub proof fn law_answer_to_a_datagram_comes_through(
    gate: GateView,
    out: Seq<u8>,
    back: Seq<u8>,
    w: int,
    v: int,
    sent: u64,
    now: u64,
)
    requires
        carries(out, 17, w, 8),
        carries(back, 17, v, 8),
        back[26] == out[30] && back[27] == out[31] && back[28] == out[32] && back[29] == out[33],
        back[14 + 4 * v] == out[16 + 4 * w] && back[15 + 4 * v] == out[17 + 4 * w],
        back[16 + 4 * v] == out[14 + 4 * w] && back[17 + 4 * v] == out[15 + 4 * w],
        sent <= now,
        now - sent < 120_000,
    ensures
        gate.after_forward(out, sent).dropped_inbound(back, now) is None,
{
    law_packet_is_read_by_its_headers(out, w);
    law_packet_is_read_by_its_headers(back, v);
    let p = packet_of(out)->0;
    law_flows_keep_every_other_window(gate.flows, p, sent, p.dst, p.src.port, now);
    law_datagram_is_stopped_unless_allowed_or_a_reply(
        back,
        v,
        gate.udp_allowed,
        gate.after_forward(out, sent).flows,
        now,
    );
    law_new_connection_is_stopped_unless_allowed(back, v, gate.allowed);
}

/// An inbound frame is dropped exactly as a new connection or as a datagram that
/// nobody asked for, by the ports of its own transport; a frame that goes out
/// opens a window only if it is a datagram, and changes nothing else but what is
/// told of the host's literal address.
pub proof fn law_inbound_frame_is_dropped_by_its_transport(gate: GateView, frame: Seq<u8>, now: u64)
    ensures
        frame[23] == 6 ==> gate.dropped_inbound(frame, now) == (match syn_blocked(
            frame,
            gate.allowed,
        ) {
            Some(found) => Some((IpProto::Tcp, found.0, found.1)),
            None => None,
        }),
        frame[23] == 17 ==> gate.dropped_inbound(frame, now) == (match udp_blocked(
            frame,
            gate.udp_allowed,
            gate.flows,
            now,
        ) {
            Some(found) => Some((IpProto::Udp, found.0, found.1)),
            None => None,
        }),
        frame[23] != 6 && frame[23] != 17 ==> gate.dropped_inbound(frame, now) is None,
        gate.after_forward(frame, now).allowed == gate.allowed,
        gate.after_forward(frame, now).udp_allowed == gate.udp_allowed,
        gate.after_forward(frame, now).label == gate.label,
        gate.after_forward(frame, now).alias == gate.alias,
        !carries(frame, 17, frame[14] as int % 16, 8) ==> gate.after_forward(frame, now).flows
            == gate.flows,
{
    law_packet_is_read_by_its_headers(frame, frame[14] as int % 16);
}

/// A frame goes to the host's literal address exactly if it is IPv4 and its
/// destination is that address, over any transport.
pub proof fn law_literal_address_is_seen_over_any_transport(frame: Seq<u8>, alias: Ipv4Addr)
    ensures
        addressed_to(frame, alias) <==> {
            &&& frame.len() >= 34
            &&& frame[12] == 0x08
            &&& frame[13] == 0x00
            &&& frame[30] * 16777216 + frame[31] * 65536 + frame[32] * 256 + frame[33] == alias.bits
        },
{
    if frame.len() >= 34 {
        let d = frame.subrange(30, 34);
        assert(d[0] == frame[30] && d[1] == frame[31] && d[2] == frame[32] && d[3] == frame[33]);
    }
}

/// A warning is given for each rule by itself: asking for one never keeps another
/// rule's back, and a rule that was never warned of is due.
pub proof fn law_each_rule_is_warned_of_by_itself(
    gate: GateView,
    rule: Seq<char>,
    other: Seq<char>,
    at: u64,
    now: u64,
)
    ensures
        other != rule ==> gate.after_warning(rule, at).due(other, now) == gate.due(other, now),
        !gate.warned.contains_key(rule) ==> gate.due(rule, now),
        gate.due(rule, at) && at <= now ==> (gate.after_warning(rule, at).due(rule, now) <==> now
            - at >= 60_000),
        !gate.due(rule, at) ==> gate.after_warning(rule, at).due(rule, now) == gate.due(rule, now),
        gate.after_warning(rule, at).flows == gate.flows,
        gate.after_warning(rule, at).allowed == gate.allowed,
        gate.after_warning(rule, at).udp_allowed == gate.udp_allowed,
{
}

/// A dropped frame is told of by the protocol it was dropped over: by its number,
/// or as IPv6; where there was none to read, none is named.
pub proof fn law_drop_names_its_protocol(n: u8)
    ensures
        transport_of(DropReason::UndeclaredProtocol { proto: n }) == Proto::Ipv4(n),
        transport_of(DropReason::DeniedSubnet { proto: n }) == Proto::Ipv4(n),
        transport_of(DropReason::UndeclaredSubnet { proto: n }) == Proto::Ipv4(n),
        transport_of(DropReason::Ipv6) == Proto::Ipv6,
        transport_of(DropReason::Truncated) == Proto::Unnamed,
        forall|f: u16| #[trigger] transport_of(DropReason::UndeclaredFamily(f)) == Proto::Unnamed,
        Proto::Ipv4(6).name() == "tcp"@,
        Proto::Ipv4(17).name() == "udp"@,
        Proto::Ipv4(1).name() == "icmp"@,
        ipproto_number(IpProto::Tcp) == Proto::Ipv4(6),
        ipproto_number(IpProto::Udp) == Proto::Ipv4(17),
        ipproto_number(IpProto::Icmp) == Proto::Ipv4(1),
{
}

/// A protocol without a name of its own is told of by its number.
pub proof fn law_unnamed_protocol_is_told_by_number(n: u8)
    requires
        n != 1,
        n != 6,
        n != 17,
    ensures
        Proto::Ipv4(n).name() == text::decimal(n as nat),
{
}

/// The commands that set a tap up: it is moved into the namespace of the box's
/// process first, and everything else is done in that namespace. The tap gets the
/// lease's own Ethernet address, the lease's address with the subnet's prefix
/// length, and the subnet's gateway as its default route.
pub proof fn law_tap_is_set_up_by_its_lease(
    tap: Seq<char>,
    pid: u32,
    lease: PtaskLease,
    subnet: SwitchSubnet,
    i: int,
)
    requires
        1 <= i < 6,
    ensures
        ({
            let commands = netns_commands(tap, pid, lease, subnet);
            &&& commands.len() == 6
            &&& commands[0] == seq!["ip"@, "link"@, "set"@, tap, "netns"@, text::decimal(pid as nat)]
            &&& commands[i].len() > 4
            &&& commands[i].take(4) == seq!["nsenter"@, "-t"@, text::decimal(pid as nat), "-n"@]
            &&& commands[1].last() == crate::subnet::mac_text(lease.mac.0@)
            &&& commands[1].contains(tap)
            &&& commands[2].contains(
                lease.ip.dotted() + seq!['/'] + text::decimal(subnet.prefix_len() as nat),
            )
            &&& commands[2].last() == tap
            &&& commands[3].contains(tap) && commands[3].last() == "up"@
            &&& commands[4].contains("lo"@) && commands[4].last() == "up"@
            &&& commands[5].last() == (Ipv4Addr { bits: (subnet.network_bits() + 1) as u32 }).dotted()
        }),
{
    let commands = netns_commands(tap, pid, lease, subnet);
    let front = seq!["nsenter"@, "-t"@, text::decimal(pid as nat), "-n"@];
    assert(commands[1].take(4) =~= front);
    assert(commands[2].take(4) =~= front);
    assert(commands[3].take(4) =~= front);
    assert(commands[4].take(4) =~= front);
    assert(commands[5].take(4) =~= front);
    assert(i == 1 || i == 2 || i == 3 || i == 4 || i == 5);
    assert(commands[1][7] == tap);
    assert(commands[2][7] == lease.ip.dotted() + seq!['/'] + text::decimal(subnet.prefix_len() as nat));
    assert(commands[3][7] == tap);
    assert(commands[4][7] == "lo"@);
}

/// Privileged programs are looked for in the system's own directories, whatever
/// they are called.
pub proof fn law_programs_are_looked_for_in_system_directories(program: Seq<char>)
    ensures
        trusted_paths(program).len() == 4,
        program.len() > 0 && program[0] != '/' ==> trusted_paths(program) == seq![
            "/usr/sbin/"@ + program,
            "/sbin/"@ + program,
            "/usr/bin/"@ + program,
            "/bin/"@ + program,
        ],
{
    reveal_strlit("/usr/sbin");
    reveal_strlit("/usr/sbin/");
    reveal_strlit("/sbin");
    reveal_strlit("/sbin/");
    reveal_strlit("/usr/bin");
    reveal_strlit("/usr/bin/");
    reveal_strlit("/bin");
    reveal_strlit("/bin/");
    reveal_strlit("/");
    if program.len() > 0 && program[0] != '/' {
        assert(trusted_paths(program)[0] =~= "/usr/sbin/"@ + program);
        assert(trusted_paths(program)[1] =~= "/sbin/"@ + program);
        assert(trusted_paths(program)[2] =~= "/usr/bin/"@ + program);
        assert(trusted_paths(program)[3] =~= "/bin/"@ + program);
    }
}

/// What a frame that goes out leaves behind: a datagram the window of its reply,
/// under its remote end and its local port, and a frame to the host's literal
/// address the warning of it, once a minute.
pub proof fn law_outbound_frame_leaves_its_window(gate: GateView, frame: Seq<u8>, words: int, now: u64)
    ensures
        carries(frame, 17, words, 8) ==> gate.after_forward(frame, now).flows == flows_after(
            gate.flows,
            flow_key(
                Endpoint {
                    ip: Ipv4Addr {
                        bits: (frame[30] * 16777216 + frame[31] * 65536 + frame[32] * 256
                            + frame[33]) as u32,
                    },
                    port: (frame[16 + 4 * words] * 256 + frame[17 + 4 * words]) as u16,
                },
                (frame[14 + 4 * words] * 256 + frame[15 + 4 * words]) as u16,
            ) as u64,
            now,
        ),
        !addressed_to(frame, gate.alias) ==> gate.after_forward(frame, now).warned == gate.warned,
        addressed_to(frame, gate.alias) ==> gate.after_forward(frame, now).warned
            == gate.after_warning(LEGACY_HOST_RULE@, now).warned,
{
    law_packet_is_read_by_its_headers(frame, words);
}

/// A refused packet is told of by its transport and its port, and what is no
/// IPv4 is told of as what it is.
pub proof fn law_refused_packet_is_told_of_by_its_port(proto: IpProto, port: u16)
    ensures
        inbound_rule(proto, port) == "no ingress mapping for "@ + proto.name() + " dst port "@
            + text::decimal(port as nat),
        Proto::Ipv6.name() == "ipv6"@,
        Proto::Unnamed.name() == "none"@,
{
}

/// What a length that the switch announces asks for.
pub open spec fn length_step(n: int) -> LengthStep {
    if n == 0 {
        LengthStep::Skip
    } else if n > DEFAULT_MTU + 18 {
        LengthStep::TooLong(n as usize)
    } else {
        LengthStep::Read(n as usize)
    }
}

/// A frame that is sent is read back whole, up to 1518 bytes of it; an empty one
/// is passed over, and a longer one is refused by its length.
pub proof fn law_frame_is_read_back_up_to_the_largest(frame: Seq<u8>)
    requires
        frame.len() <= 0xffff,
    ensures
        ({
            let header = framed(frame).take(2);
            let step = length_step(header[0] + header[1] * 256);
            &&& frame.len() == 0 ==> step == LengthStep::Skip
            &&& 0 < frame.len() <= 1518 ==> step == LengthStep::Read(frame.len() as usize)
            &&& frame.len() > 1518 ==> step == LengthStep::TooLong(frame.len() as usize)
        }),
{
    law_announced_length_is_the_frames(frame);
}

} // verus!
