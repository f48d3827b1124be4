//! Frames, the session gate, and the commands that set a tap up.

use std::collections::BTreeSet;

use minimald_net::addr::{Endpoint, Ipv4Addr};
use minimald_net::dns::Route;
use minimald_net::policy::{Direction, WARN_MIN_INTERVAL_MS};
use minimald_net::session::{
    EgressPolicy, EgressRules, IngressPolicy, IpProto, PortMapping, SessionPolicy,
};
use minimald_net::subnet::{MacAddr, PtaskLease, SwitchSubnet};
use minimald_net::switch::{
    announced_length, blocked_syn, blocked_udp, compiled_egress, declared_request_ports,
    drop_transport, frame_with_length, is_legacy_host_literal, max_frame, netns_phase,
    parse_ipv4_l4, proxied_request_verdict, relay_ungated, tap_netns_commands, tap_request_name,
    trusted_candidates, trusted_program, DropReason, FrameVerdict, InboundStep, LengthStep, Proto,
    ProxiedRequest, Refusal, SessionGate, TapStep, UdpConntrack, ETHERTYPE_IPV4, IPPROTO_TCP,
    IPPROTO_UDP, NO_INGRESS_MAPPING_RULE, UDP_FLOW_SWEEP_AT, UDP_FLOW_TTL_MS,
};

const SYN: u8 = 0x02;
const ACK: u8 = 0x10;

fn src() -> Ipv4Addr {
    Ipv4Addr::new(100, 64, 0, 5)
}

fn lease() -> Ipv4Addr {
    Ipv4Addr::new(100, 64, 0, 9)
}

fn peer() -> Ipv4Addr {
    Ipv4Addr::new(100, 64, 0, 5)
}

fn ip_header(ethertype: u16, proto: u8, from: Ipv4Addr, to: Ipv4Addr, total: u16) -> Vec<u8> {
    let mut f = Vec::new();
    f.extend_from_slice(&[0x52, 0x54, 0x00, 0x00, 0x00, 0x01]);
    f.extend_from_slice(&[0x52, 0x54, 0x00, 0x00, 0x00, 0x02]);
    f.extend_from_slice(&ethertype.to_be_bytes());
    f.push(0x45);
    f.push(0x00);
    f.extend_from_slice(&total.to_be_bytes());
    f.extend_from_slice(&0u16.to_be_bytes());
    f.extend_from_slice(&0u16.to_be_bytes());
    f.push(64);
    f.push(proto);
    f.extend_from_slice(&0u16.to_be_bytes());
    f.extend_from_slice(&from.octets());
    f.extend_from_slice(&to.octets());
    f
}

fn tcp_to(
    ethertype: u16,
    proto: u8,
    flags: u8,
    from: Ipv4Addr,
    to: Ipv4Addr,
    dst_port: u16,
) -> Vec<u8> {
    let mut f = ip_header(ethertype, proto, from, to, 40);
    f.extend_from_slice(&40000u16.to_be_bytes());
    f.extend_from_slice(&dst_port.to_be_bytes());
    f.extend_from_slice(&0u32.to_be_bytes());
    f.extend_from_slice(&0u32.to_be_bytes());
    f.push(0x50);
    f.push(flags);
    f.extend_from_slice(&0u16.to_be_bytes());
    f.extend_from_slice(&0u16.to_be_bytes());
    f.extend_from_slice(&0u16.to_be_bytes());
    f
}

fn tcp_frame(ethertype: u16, proto: u8, flags: u8, from: Ipv4Addr, dst_port: u16) -> Vec<u8> {
    tcp_to(ethertype, proto, flags, from, lease(), dst_port)
}

fn egress_tcp_frame(from: Ipv4Addr, to: Ipv4Addr, dst_port: u16) -> Vec<u8> {
    tcp_to(ETHERTYPE_IPV4, IPPROTO_TCP, SYN, from, to, dst_port)
}

fn udp_frame(src_ip: Ipv4Addr, src_port: u16, dst_ip: Ipv4Addr, dst_port: u16) -> Vec<u8> {
    let mut f = ip_header(ETHERTYPE_IPV4, IPPROTO_UDP, src_ip, dst_ip, 28);
    f.extend_from_slice(&src_port.to_be_bytes());
    f.extend_from_slice(&dst_port.to_be_bytes());
    f.extend_from_slice(&8u16.to_be_bytes());
    f.extend_from_slice(&0u16.to_be_bytes());
    f
}

fn arp_frame() -> Vec<u8> {
    let mut f = Vec::new();
    f.extend_from_slice(&[0xff; 6]);
    f.extend_from_slice(&[0x52, 0x54, 0x00, 0x00, 0x00, 0x02]);
    f.extend_from_slice(&0x0806u16.to_be_bytes());
    f.extend_from_slice(&[0u8; 28]);
    f
}

fn ipv6_frame() -> Vec<u8> {
    let mut f = Vec::new();
    f.extend_from_slice(&[0x33, 0x33, 0x00, 0x00, 0x00, 0x01]);
    f.extend_from_slice(&[0x52, 0x54, 0x00, 0x00, 0x00, 0x02]);
    f.extend_from_slice(&0x86DDu16.to_be_bytes());
    f.extend_from_slice(&[0u8; 40]);
    f
}

fn no_policy() -> SessionPolicy {
    SessionPolicy {
        egress: None,
        ingress: None,
        dynamic_ingress: None,
    }
}

fn with_mappings(port_mappings: Vec<PortMapping>) -> SessionPolicy {
    SessionPolicy {
        ingress: Some(IngressPolicy {
            port_mappings,
            dynamic_allowed_range: None,
        }),
        ..no_policy()
    }
}

fn mapping(external_port: u16, internal_port: u16, proto: IpProto) -> PortMapping {
    PortMapping {
        external_port,
        internal_port,
        proto,
    }
}

/// Lets everything out but IPv6, and IPv4 to 203.0.113.7.
fn judge(frame: &[u8], _rules: &EgressRules) -> FrameVerdict {
    if frame[12..14] == [0x86, 0xdd] {
        return FrameVerdict::Drop {
            reason: DropReason::Ipv6,
            rule: "egress-ipv6".to_string(),
            remote: None,
        };
    }
    match parse_ipv4_l4(frame) {
        Some(p) if p.dst.ip == Ipv4Addr::new(203, 0, 113, 7) => FrameVerdict::Drop {
            reason: DropReason::UndeclaredSubnet { proto: p.proto },
            rule: "egress-undeclared-subnet".to_string(),
            remote: Some(p.dst),
        },
        _ => FrameVerdict::Forward,
    }
}

/// A frame in the buffer that a tap is read into.
fn read_of(frame: &[u8]) -> (Vec<u8>, usize) {
    let mut buf = vec![0u8; max_frame() + 1];
    buf[..frame.len()].copy_from_slice(frame);
    (buf, frame.len())
}

#[test]
fn gate_drops_syn_to_undeclared_port() {
    let allowed = BTreeSet::from([80]);
    let frame = tcp_frame(ETHERTYPE_IPV4, IPPROTO_TCP, SYN, src(), 9999);
    let hit = blocked_syn(&frame, &allowed).expect("a SYN to :9999 must be blocked");
    assert_eq!(hit.0, 9999);
    assert_eq!(hit.1.ip, src());
    assert_eq!(hit.1.port, 40000);
}

#[test]
fn gate_passes_syn_to_declared_port() {
    let allowed = BTreeSet::from([80]);
    let frame = tcp_frame(ETHERTYPE_IPV4, IPPROTO_TCP, SYN, src(), 80);
    assert!(blocked_syn(&frame, &allowed).is_none());
}

#[test]
fn gate_passes_established_and_return_traffic() {
    let allowed = BTreeSet::new();
    for flags in [SYN | ACK, ACK] {
        let frame = tcp_frame(ETHERTYPE_IPV4, IPPROTO_TCP, flags, src(), 9999);
        assert!(
            blocked_syn(&frame, &allowed).is_none(),
            "flags {flags:#x} must pass"
        );
    }
}

#[test]
fn gate_passes_non_tcp_and_non_ipv4() {
    let allowed = BTreeSet::new();
    for et in [0x0806u16, 0x86DD] {
        assert!(blocked_syn(&tcp_frame(et, IPPROTO_TCP, SYN, src(), 9999), &allowed).is_none());
    }
    for proto in [17u8, 1] {
        assert!(
            blocked_syn(&tcp_frame(ETHERTYPE_IPV4, proto, SYN, src(), 9999), &allowed).is_none()
        );
    }
}

#[test]
fn gate_passes_truncated_frames() {
    let allowed = BTreeSet::new();
    let full = tcp_frame(ETHERTYPE_IPV4, IPPROTO_TCP, SYN, src(), 9999);
    for cut in [0, 14, 20, 33, 40, 47] {
        assert!(blocked_syn(&full[..cut], &allowed).is_none(), "len {cut}");
    }
    assert!(blocked_syn(&full[..full.len() - 1], &allowed).is_some());
}

#[test]
fn for_session_collects_tcp_internal_ports_only() {
    let policy = with_mappings(vec![
        mapping(18080, 80, IpProto::Tcp),
        mapping(19999, 53, IpProto::Udp),
    ]);
    let gate = SessionGate::for_session(
        "100.64.0.9".to_string(),
        &policy,
        SwitchSubnet::default(),
    );
    assert!(gate.admits_direct_tcp(80));
    assert!(!gate.admits_direct_tcp(53));
    assert!(!gate.admits_direct_tcp(18080));
    assert!(gate.admits_direct_udp(53));
    assert!(!gate.admits_direct_udp(80));
    let empty = SessionGate::for_session("x".to_string(), &no_policy(), SwitchSubnet::default());
    for port in 0..=u16::MAX {
        assert!(!empty.admits_direct_tcp(port) && !empty.admits_direct_udp(port));
    }
}

#[test]
fn gate_drops_unsolicited_udp_to_undeclared_port() {
    let ct = UdpConntrack::new();
    let frame = udp_frame(peer(), 33333, lease(), 9999);
    let hit = blocked_udp(&frame, &BTreeSet::new(), &ct, 0).expect("unsolicited UDP must drop");
    assert_eq!(hit.0, 9999);
    assert_eq!(hit.1.ip, peer());
}

#[test]
fn gate_passes_udp_to_declared_port() {
    let ct = UdpConntrack::new();
    let frame = udp_frame(peer(), 33333, lease(), 53);
    assert!(blocked_udp(&frame, &BTreeSet::from([53]), &ct, 0).is_none());
}

#[test]
fn conntrack_allows_only_the_matching_reply() {
    let mut ct = UdpConntrack::new();
    let one = Ipv4Addr::new(1, 1, 1, 1);
    let egress = parse_ipv4_l4(&udp_frame(lease(), 40000, one, 53)).unwrap();
    ct.record_egress(&egress, 0);
    let reply = udp_frame(one, 53, lease(), 40000);
    assert!(blocked_udp(&reply, &BTreeSet::new(), &ct, 0).is_none());
    let other = udp_frame(one, 53, lease(), 40001);
    assert!(blocked_udp(&other, &BTreeSet::new(), &ct, 0).is_some());
    let spoof = udp_frame(peer(), 53, lease(), 40000);
    assert!(blocked_udp(&spoof, &BTreeSet::new(), &ct, 0).is_some());
}

#[test]
fn inbound_drop_tags_the_transport() {
    let policy = with_mappings(vec![mapping(18080, 80, IpProto::Tcp)]);
    let gate = SessionGate::for_session(lease().to_text(), &policy, SwitchSubnet::default());
    let tcp = tcp_frame(ETHERTYPE_IPV4, IPPROTO_TCP, SYN, peer(), 9999);
    assert_eq!(
        gate.inbound_drop(&tcp, 0).map(|d| d.0),
        Some(IpProto::Tcp)
    );
    let udp = udp_frame(peer(), 33333, lease(), 9999);
    assert_eq!(
        gate.inbound_drop(&udp, 0).map(|d| d.0),
        Some(IpProto::Udp)
    );
    let ok = tcp_frame(ETHERTYPE_IPV4, IPPROTO_TCP, SYN, peer(), 80);
    assert!(gate.inbound_drop(&ok, 0).is_none());
}

#[test]
fn frame_header_is_little_endian_length() {
    assert_eq!(frame_with_length(&[7])[..2], [0x01, 0x00]);
    assert_eq!(frame_with_length(&[0; 1514])[..2], [0xea, 0x05]);
    assert_eq!(announced_length([0xea, 0x05]), LengthStep::Read(1514));
}

#[test]
fn max_frame_covers_mtu_header_and_vlan_tag() {
    assert_eq!(max_frame(), 1500 + 14 + 4);
}

#[test]
fn open_tap_rejects_an_overlong_name() {
    assert!(tap_request_name("this-name-is-way-too-long").is_none());
}

#[test]
fn tap_netns_commands_move_then_configure_by_pid() {
    let lease = PtaskLease {
        ip: Ipv4Addr::new(100, 64, 0, 2),
        mac: MacAddr::for_switch_ip(Ipv4Addr::new(100, 64, 0, 2)),
    };
    let cmds = tap_netns_commands("mtap0_2", 4321, lease, SwitchSubnet::default());

    assert_eq!(cmds[0], ["ip", "link", "set", "mtap0_2", "netns", "4321"]);
    assert!(cmds[1..]
        .iter()
        .all(|c| c[..4] == ["nsenter", "-t", "4321", "-n"]));

    let joined: Vec<String> = cmds.iter().map(|c| c.join(" ")).collect();
    assert!(joined
        .iter()
        .any(|c| c.ends_with("ip addr add 100.64.0.2/16 dev mtap0_2")));
    assert!(joined
        .iter()
        .any(|c| c.ends_with("ip route add default via 100.64.0.1")));
    assert!(joined
        .iter()
        .any(|c| c.contains(&format!("address {}", lease.mac.to_text()))));
}

#[test]
fn legacy_host_literal_routes_with_deprecation() {
    let alias = SwitchSubnet::default().host_alias();
    assert_eq!(alias, Ipv4Addr::new(100, 64, 255, 254));

    let mut gate = SessionGate::for_session(
        "100.64.0.9".to_string(),
        &no_policy(),
        SwitchSubnet::default(),
    );
    let custom = SwitchSubnet::new(Ipv4Addr::new(10, 0, 0, 0), 24).unwrap();
    let mut custom_gate =
        SessionGate::for_session("10.0.0.9".to_string(), &no_policy(), custom);
    assert_ne!(custom.host_alias(), alias);
    assert!(is_legacy_host_literal(
        &udp_frame(src(), 40000, custom.host_alias(), 53),
        custom.host_alias()
    ));
    assert!(!is_legacy_host_literal(
        &udp_frame(src(), 40000, alias, 53),
        custom.host_alias()
    ));

    assert!(is_legacy_host_literal(
        &udp_frame(src(), 40000, alias, 53),
        alias
    ));
    assert!(!is_legacy_host_literal(
        &udp_frame(src(), 40000, Ipv4Addr::new(100, 64, 0, 1), 53),
        alias
    ));
    assert!(!is_legacy_host_literal(
        &udp_frame(src(), 40000, alias, 53)[..14],
        alias
    ));
    assert!(!is_legacy_host_literal(
        &tcp_frame(0x0806, IPPROTO_TCP, SYN, src(), 53),
        alias
    ));

    // The notice watches the alias of the switch that a box is attached to.
    let noticed = |gate: &mut SessionGate, to: Ipv4Addr| {
        let (buf, n) = read_of(&udp_frame(src(), 40000, to, 53));
        match gate.relay_tap_to_switch(&buf, n, judge, 0) {
            TapStep::Forward { notice, .. } => notice,
            other => panic!("the frame is let out, got {other:?}"),
        }
    };
    assert!(!noticed(&mut custom_gate, alias));
    assert!(noticed(&mut custom_gate, custom.host_alias()));

    assert!(
        gate.notice(0),
        "the first frames to the literal emit a notice"
    );
    assert!(
        !gate.notice(1),
        "the notice is rate-limited within the interval"
    );

    let mut gate = SessionGate::for_session(
        "100.64.0.10".to_string(),
        &no_policy(),
        SwitchSubnet::default(),
    );
    let (buf, n) = read_of(&egress_tcp_frame(lease(), Ipv4Addr::new(203, 0, 113, 7), 443));
    assert!(matches!(
        gate.relay_tap_to_switch(&buf, n, judge, 0),
        TapStep::Dropped(Some(_))
    ));
    assert!(
        gate.notice(0),
        "a policy warning must not suppress the deprecation notice"
    );
}

#[test]
fn undeclared_frames_are_dropped_and_the_rest_goes_on_verbatim() {
    let mut gate =
        SessionGate::for_session(lease().to_text(), &no_policy(), SwitchSubnet::default());
    let denied = egress_tcp_frame(lease(), Ipv4Addr::new(203, 0, 113, 7), 443);
    let (buf, n) = read_of(&denied);
    assert!(matches!(
        gate.relay_tap_to_switch(&buf, n, judge, 0),
        TapStep::Dropped(Some(_))
    ));
    let sentinel = arp_frame();
    let (buf, n) = read_of(&sentinel);
    match gate.relay_tap_to_switch(&buf, n, judge, 0) {
        TapStep::Forward { framed, notice } => {
            assert_eq!(framed, frame_with_length(&sentinel));
            assert_eq!(&framed[2..], &sentinel[..]);
            assert!(!notice);
        }
        other => panic!("address resolution is let out, got {other:?}"),
    }
}

#[test]
fn drops_are_warned_of_once_a_minute_for_each_rule() {
    let mut gate =
        SessionGate::for_session(lease().to_text(), &no_policy(), SwitchSubnet::default());
    let denied = egress_tcp_frame(lease(), Ipv4Addr::new(203, 0, 113, 7), 443);
    let mut warnings = Vec::new();
    for now in 0..3 {
        let (buf, n) = read_of(&denied);
        if let TapStep::Dropped(Some(w)) = gate.relay_tap_to_switch(&buf, n, judge, now) {
            warnings.push(w);
        }
    }
    assert_eq!(warnings.len(), 1, "three identical drops say one line");
    let w = &warnings[0];
    assert_eq!(w.session_id, "100.64.0.9");
    assert_eq!(w.direction.as_str(), "egress");
    assert_eq!(w.remote.map(|e| e.to_text()), Some("203.0.113.7:443".to_string()));
    assert_eq!(w.proto.to_text(), "tcp");
    assert_eq!(w.rule, "egress-undeclared-subnet");

    let (buf, n) = read_of(&ipv6_frame());
    match gate.relay_tap_to_switch(&buf, n, judge, 3) {
        TapStep::Dropped(Some(w)) => {
            assert_eq!(w.rule, "egress-ipv6");
            assert_eq!(w.remote, None);
            assert_eq!(w.proto.to_text(), "ipv6");
        }
        other => panic!("a second rule is heard, got {other:?}"),
    }
    let (buf, n) = read_of(&denied);
    assert!(matches!(
        gate.relay_tap_to_switch(&buf, n, judge, WARN_MIN_INTERVAL_MS),
        TapStep::Dropped(Some(_))
    ));
}

#[test]
fn a_dropped_datagram_opens_no_window_for_a_reply() {
    let far = Ipv4Addr::new(203, 0, 113, 7);
    let near = Ipv4Addr::new(10, 1, 2, 3);
    let mut gate =
        SessionGate::for_session(lease().to_text(), &no_policy(), SwitchSubnet::default());
    let (buf, n) = read_of(&udp_frame(lease(), 40000, far, 53));
    assert!(matches!(
        gate.relay_tap_to_switch(&buf, n, judge, 0),
        TapStep::Dropped(_)
    ));
    match gate.relay_switch_to_tap(&udp_frame(far, 53, lease(), 40000), 0) {
        InboundStep::Dropped(Some(w)) => {
            assert_eq!(w.direction, Direction::Ingress);
            assert_eq!(w.rule, "no ingress mapping for udp dst port 40000");
            assert_eq!(w.remote, Some(Endpoint::new(far, 53)));
        }
        other => panic!("the reply is not let in, got {other:?}"),
    }
    let (buf, n) = read_of(&udp_frame(lease(), 40000, near, 53));
    assert!(matches!(
        gate.relay_tap_to_switch(&buf, n, judge, 0),
        TapStep::Forward { .. }
    ));
    assert!(matches!(
        gate.relay_switch_to_tap(&udp_frame(near, 53, lease(), 40000), UDP_FLOW_TTL_MS - 1),
        InboundStep::Deliver
    ));
    assert!(matches!(
        gate.relay_switch_to_tap(&udp_frame(near, 53, lease(), 40000), UDP_FLOW_TTL_MS),
        InboundStep::Dropped(_)
    ));
}

#[test]
fn a_read_that_fills_the_buffer_is_dropped_and_an_empty_one_ends() {
    let buf = vec![0u8; max_frame() + 1];
    let mut gate =
        SessionGate::for_session(lease().to_text(), &no_policy(), SwitchSubnet::default());
    assert!(matches!(
        gate.relay_tap_to_switch(&buf, 0, judge, 0),
        TapStep::End
    ));
    assert!(matches!(
        gate.relay_tap_to_switch(&buf, buf.len(), judge, 0),
        TapStep::Truncated
    ));
    assert!(matches!(relay_ungated(&buf, 0), TapStep::End));
    assert!(matches!(relay_ungated(&buf, buf.len()), TapStep::Truncated));
    let (buf, n) = read_of(&ipv6_frame());
    match relay_ungated(&buf, n) {
        TapStep::Forward { framed, notice } => {
            assert_eq!(framed, frame_with_length(&ipv6_frame()));
            assert!(!notice);
        }
        other => panic!("nothing is dropped without a gate, got {other:?}"),
    }
}

#[test]
fn announced_lengths_are_bounded() {
    assert_eq!(announced_length([0, 0]), LengthStep::Skip);
    assert_eq!(announced_length([0xee, 0x05]), LengthStep::Read(1518));
    assert_eq!(announced_length([0xef, 0x05]), LengthStep::TooLong(1519));
    assert_eq!(announced_length([0xff, 0xff]), LengthStep::TooLong(65535));
}

#[test]
fn later_fragments_and_options_are_read_as_such() {
    let mut fragment = udp_frame(peer(), 1, lease(), 2);
    fragment[21] = 1;
    assert!(parse_ipv4_l4(&fragment).is_none());
    let mut options = udp_frame(peer(), 1, lease(), 2);
    options[14] = 0x46;
    assert!(parse_ipv4_l4(&options).is_none(), "four bytes are missing");
    options.splice(34..34, [0u8; 4]);
    let packet = parse_ipv4_l4(&options).expect("a header with options");
    assert_eq!(packet.src, Endpoint::new(peer(), 1));
    assert_eq!(packet.dst, Endpoint::new(lease(), 2));
    assert_eq!((packet.proto, packet.tcp_flags), (IPPROTO_UDP, 0));
}

#[test]
fn ended_flows_are_swept_when_there_are_many() {
    let mut ct = UdpConntrack::new();
    let far = Ipv4Addr::new(1, 1, 1, 1);
    let first = parse_ipv4_l4(&udp_frame(lease(), 1, far, 53)).unwrap();
    ct.record_egress(&first, 0);
    for i in 0..=UDP_FLOW_SWEEP_AT {
        let frame = udp_frame(lease(), (2 + i) as u16, far, 53);
        ct.record_egress(&parse_ipv4_l4(&frame).unwrap(), UDP_FLOW_TTL_MS);
    }
    let reply = parse_ipv4_l4(&udp_frame(far, 53, lease(), 1)).unwrap();
    assert!(!ct.allows_ingress(&reply, UDP_FLOW_TTL_MS));
    let live = parse_ipv4_l4(&udp_frame(far, 53, lease(), 2)).unwrap();
    assert!(ct.allows_ingress(&live, UDP_FLOW_TTL_MS));
}

#[test]
fn a_proxied_request_is_refused_as_the_direct_connection_is() {
    let route = Route::loopback("web", Some(BTreeSet::from([18080])));
    let upstream = Endpoint::new(Ipv4Addr::localhost(), 18080);
    assert_eq!(
        proxied_request_verdict(None, &route, 18080),
        ProxiedRequest::Forward(upstream)
    );
    assert_eq!(
        proxied_request_verdict(Some((lease(), None)), &route, 9999),
        ProxiedRequest::Refused(Refusal {
            rule: NO_INGRESS_MAPPING_RULE.to_string(),
            direction: Direction::Ingress,
            other: Some(Endpoint::new(lease(), 9999)),
        })
    );
    assert_eq!(
        proxied_request_verdict(None, &route, 9999),
        ProxiedRequest::Refused(Refusal {
            rule: NO_INGRESS_MAPPING_RULE.to_string(),
            direction: Direction::Ingress,
            other: None,
        })
    );
    let drop = Some("egress-denied-subnet".to_string());
    assert_eq!(
        proxied_request_verdict(Some((lease(), drop)), &route, 18080),
        ProxiedRequest::Refused(Refusal {
            rule: "egress-denied-subnet".to_string(),
            direction: Direction::Egress,
            other: Some(upstream),
        })
    );
}

#[test]
fn declared_ports_and_compiled_rules_come_from_the_policy() {
    let policy = with_mappings(vec![
        mapping(18080, 80, IpProto::Tcp),
        mapping(5353, 53, IpProto::Udp),
    ]);
    assert_eq!(declared_request_ports(Some(&policy)), BTreeSet::from([18080]));
    assert!(declared_request_ports(None).is_empty());
    assert!(declared_request_ports(Some(&no_policy())).is_empty());

    let egress = EgressPolicy {
        allow_subnets: Some(vec!["10.0.0.0/8".to_string()]),
        allow_dns_hosts: None,
        allow_protocols: Some(vec![IpProto::Tcp]),
        deny_subnets: None,
    };
    let declared = SessionPolicy {
        egress: Some(egress.clone()),
        ..no_policy()
    };
    let rules = compiled_egress(Some(&declared), SwitchSubnet::default());
    assert_eq!(rules.resolver, Ipv4Addr::new(100, 64, 0, 1));
    assert_eq!(rules.policy, Some(egress));
    assert_eq!(compiled_egress(None, SwitchSubnet::default()).policy, None);
}

#[test]
fn transports_are_named() {
    assert_eq!(Proto::Ipv4(1).to_text(), "icmp");
    assert_eq!(Proto::Ipv4(17).to_text(), "udp");
    assert_eq!(Proto::Ipv4(132).to_text(), "132");
    assert_eq!(Proto::Unnamed.to_text(), "none");
    assert_eq!(drop_transport(&DropReason::Truncated), Proto::Unnamed);
    assert_eq!(drop_transport(&DropReason::Ipv6), Proto::Ipv6);
    assert_eq!(
        drop_transport(&DropReason::UndeclaredProtocol { proto: 47 }),
        Proto::Ipv4(47)
    );
    assert_eq!(
        drop_transport(&DropReason::UndeclaredFamily(0x88cc)),
        Proto::Unnamed
    );
    assert_eq!(
        drop_transport(&DropReason::DeniedSubnet { proto: 6 }),
        Proto::Ipv4(6)
    );
}

#[test]
fn tap_names_are_padded_with_zeros() {
    let field = tap_request_name("mtap0_2").unwrap();
    assert_eq!(&field[..7], b"mtap0_2");
    assert_eq!(&field[7..], &[0u8; 9]);
    assert!(tap_request_name("fifteen-letters").is_some());
    assert!(tap_request_name("sixteen-letters!").is_none());
}

#[test]
fn programs_are_taken_from_trusted_directories_only() {
    let candidates = trusted_candidates("ip");
    assert!(candidates.iter().all(|c| c.starts_with('/') && c.ends_with("/ip")));
    let last = candidates.last().unwrap().clone();
    assert_eq!(trusted_program("ip", |path: &str| path == last.as_str()), last);
    assert_eq!(trusted_program("ip", |_path: &str| true), "/usr/sbin/ip");
    assert_eq!(trusted_program("ip", |_path: &str| false), "ip");
}

#[test]
fn each_tap_command_belongs_to_a_phase() {
    assert_eq!(netns_phase(0), "moving PTask tap into its namespace");
    assert_eq!(netns_phase(1), "configuring PTask tap");
    assert_eq!(netns_phase(5), "configuring PTask tap");
}

#[test]
fn what_else_warns_of_a_session_shares_its_limiter() {
    let mut gate =
        SessionGate::for_session(lease().to_text(), &no_policy(), SwitchSubnet::default());
    assert!(gate.limiter().should_warn_at("rule".to_string(), 10));
    assert!(!gate.limiter().should_warn_at("rule".to_string(), 11));
    assert!(gate.limiter().should_warn_at("other".to_string(), 11));
}
