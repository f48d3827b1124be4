//! Control requests, zone records, limiters, pins and admissions.

use minimald_net::addr::{IpAddr, Ipv4Addr};
use minimald_net::policy::{
    admission_window, body_after_headers, content_length, control_reply, control_request,
    dns_add_body, exchange, expose_request, find_header_end, host_dns_body, host_reach_address,
    parse_status_code, protocol_str, unexpose_requests, BoxAdmissions, BoxDeclaration, BoxZone,
    BoxZoneEntry, ControlReply, Direction, DnsRecord, ExchangeStep, HostReach, IngressCourse,
    IngressRules, IngressVerdict, KeyedWarnLimiter, PinTable, PolicyWarnLimiter, StatusError,
    ADMISSION_WINDOW_MAX_MS, ADMISSION_WINDOW_MIN_MS, HOST_HOSTNAME, MAX_CONTROL_RESPONSE,
    WARN_MIN_INTERVAL_MS,
};
use minimald_net::provider::{host_reach, SwitchTransport};
use minimald_net::session::{
    DropRule, EgressPolicy, EgressRules, IngressPolicy, IpProto, NetworkMode, PortMapping, Verdict,
};
use minimald_net::subnet::SwitchSubnet;

fn resolver() -> Ipv4Addr {
    Ipv4Addr::new(100, 64, 0, 1)
}

fn tcp(external_port: u16, internal_port: u16) -> PortMapping {
    PortMapping {
        external_port,
        internal_port,
        proto: IpProto::Tcp,
    }
}

fn udp(external_port: u16, internal_port: u16) -> PortMapping {
    PortMapping {
        external_port,
        internal_port,
        proto: IpProto::Udp,
    }
}

fn ingress(port_mappings: Vec<PortMapping>) -> IngressPolicy {
    IngressPolicy {
        port_mappings,
        dynamic_allowed_range: None,
    }
}

/// A box that declares subnets reaches none of the targets here.
fn judge(rules: &EgressRules, _target: Ipv4Addr, _port: u16) -> Verdict {
    match &rules.policy {
        Some(policy) if policy.allow_subnets.is_some() => Verdict::Drop(DropRule::Undeclared),
        _ => Verdict::Admit,
    }
}

#[test]
fn admissions_attribute_a_caller_by_its_lease_until_it_is_withdrawn() {
    let caller = Ipv4Addr::new(100, 64, 0, 5);
    let target = Ipv4Addr::new(100, 64, 0, 6);
    let mut table = BoxAdmissions::new();
    let policy = EgressPolicy {
        allow_subnets: Some(vec!["127.0.0.0/8".to_string()]),
        allow_dns_hosts: None,
        allow_protocols: None,
        deny_subnets: None,
    };
    table.declare(
        "caller",
        BoxDeclaration::for_own_address(
            caller,
            EgressRules::from_policy(Some(&policy), resolver()),
            None,
        ),
    );
    table.declare(
        "web",
        BoxDeclaration::for_own_address(
            target,
            EgressRules::from_policy(None, resolver()),
            Some(&ingress(vec![tcp(18080, 8080)])),
        ),
    );

    assert_eq!(
        table.verdict(IpAddr::V4(caller), "web", 18080, judge),
        Verdict::Drop(DropRule::Undeclared)
    );
    let host = IpAddr::V4(Ipv4Addr::localhost());
    assert_eq!(table.verdict(host, "web", 18080, judge), Verdict::Admit);
    assert_eq!(
        table.verdict(host, "web", 9999, judge),
        Verdict::Drop(DropRule::UndeclaredPort)
    );
    table.withdraw("web");
    assert_eq!(
        table.verdict(host, "web", 18080, judge),
        Verdict::Drop(DropRule::UndeclaredPort)
    );
    table.withdraw("caller");
    table.declare(
        "web",
        BoxDeclaration::for_host_address(SwitchSubnet::default()),
    );
    assert_eq!(
        table.verdict(IpAddr::V4(caller), "web", 18080, judge),
        Verdict::Admit
    );
}

#[test]
fn admission_window_is_the_ttl_held_between_the_bounds() {
    assert_eq!(admission_window(0), ADMISSION_WINDOW_MIN_MS);
    assert_eq!(admission_window(60), 60_000);
    assert_eq!(admission_window(86400), ADMISSION_WINDOW_MAX_MS);
}

#[test]
fn pin_table_admits_for_the_window_and_the_newest_answer_wins() {
    let a = Ipv4Addr::new(140, 82, 112, 3);
    let b = Ipv4Addr::new(140, 82, 112, 4);
    let t0 = 1_000_000;
    let mut table = PinTable::new();
    table.admit_answer("github.com", &[a], &[a, b], 60_000, t0);
    assert!(table.admits(a, t0));
    assert!(!table.admits(b, t0));
    assert!(table.admits(a, t0 + 59_000));
    assert!(!table.admits(a, t0 + 60_000));

    table.admit_answer("github.com", &[a], &[a], 60_000, t0 + 50_000);
    assert!(table.admits(a, t0 + 100_000));
    let live = table.live(t0 + 100_000);
    assert_eq!(live.len(), 1);
    assert_eq!(live[0].name, "github.com");
    assert_eq!(live[0].answer, vec![a]);
    assert!(table.live(t0 + 110_000).is_empty());
}

#[test]
fn keyed_limiter_windows_each_key_on_its_own() {
    let mut limiter = KeyedWarnLimiter::new();
    let t0 = 1_000_000;
    assert!(limiter.should_warn_at("allow_subnets", t0));
    assert!(!limiter.should_warn_at("allow_subnets", t0 + 1_000));
    assert!(limiter.should_warn_at("source-not-lease", t0 + 1_000));
    assert!(limiter.should_warn_at("allow_subnets", t0 + WARN_MIN_INTERVAL_MS));
}

#[test]
fn dns_add_body_matches_gvproxy_zone_shape() {
    let body = dns_add_body("Web", Ipv4Addr::new(100, 64, 0, 5));
    assert_eq!(body.name, "min.internal.");
    assert_eq!(
        body.records,
        vec![DnsRecord {
            name: "web".to_string(),
            ip: "100.64.0.5".to_string()
        }]
    );
}

#[test]
fn box_zone_holds_each_live_box_s_lease_and_declared_ports() {
    let api = Ipv4Addr::new(100, 64, 0, 5);
    let mut zone = BoxZone::new();
    zone.register(
        "API",
        api,
        Some(&ingress(vec![tcp(18080, 8080), udp(19999, 9999)])),
    );
    zone.register("web", Ipv4Addr::new(100, 64, 0, 9), None);

    assert_eq!(zone.resolve("Api.min.internal."), Some(api));
    assert_eq!(zone.resolve("api.min.internal"), Some(api));
    assert_eq!(zone.resolve("api.example.com"), None);
    assert_eq!(zone.resolve("min.internal"), None);
    assert_eq!(zone.resolve("gone.min.internal"), None);

    let declared = |proto, port| {
        zone.target_at(api, proto, port)
            .expect("the sibling holds the address")
            .ingress
    };
    assert_eq!(declared(IpProto::Tcp, 8080), IngressVerdict::Declared);
    assert_eq!(declared(IpProto::Tcp, 9999), IngressVerdict::Undeclared);
    assert_eq!(declared(IpProto::Udp, 9999), IngressVerdict::Declared);
    assert_eq!(declared(IpProto::Icmp, 8080), IngressVerdict::Undeclared);
    assert_eq!(
        zone.target_at(Ipv4Addr::new(100, 64, 0, 9), IpProto::Tcp, 8080)
            .map(|t| t.ingress),
        Some(IngressVerdict::Undeclared)
    );
    assert_eq!(
        zone.target_at(Ipv4Addr::new(93, 184, 216, 34), IpProto::Tcp, 443),
        None
    );

    let entries: Vec<&BoxZoneEntry> = zone.entries();
    assert_eq!(
        entries.iter().map(|e| e.name()).collect::<Vec<_>>(),
        vec!["api.min.internal", "web.min.internal"]
    );

    zone.withdraw("Api");
    assert_eq!(zone.resolve("api.min.internal"), None);
    assert_eq!(zone.target_at(api, IpProto::Tcp, 8080), None);
    assert_eq!(zone.entries().len(), 1);
}

#[test]
fn policy_host_min_internal_resolves_to_host_reach_address_per_mode() {
    let subnet = SwitchSubnet::default();
    let native = SwitchTransport::LocalSpawn;
    let vm_backed = SwitchTransport::HostShuttle { cid: 2, port: 1024 };
    let answer = |mode, transport| {
        host_reach(mode, transport).map(|reach| host_reach_address(reach, subnet))
    };

    assert_eq!(
        answer(NetworkMode::HostNet, native),
        Some(Ipv4Addr::localhost())
    );
    assert_eq!(
        answer(NetworkMode::HostNet, vm_backed),
        Some(subnet.host_alias())
    );
    assert_eq!(
        answer(NetworkMode::OwnIp, native),
        Some(subnet.host_alias())
    );
    assert_eq!(
        answer(NetworkMode::OwnIp, vm_backed),
        Some(subnet.host_alias())
    );
    assert_eq!(answer(NetworkMode::NoNet, native), None);

    assert_eq!(HOST_HOSTNAME, "host.min.internal");
    let body = host_dns_body(subnet);
    assert_eq!(body.name, "min.internal.");
    assert_eq!(
        body.records,
        vec![DnsRecord {
            name: "host".to_string(),
            ip: "100.64.255.254".to_string()
        }]
    );
    assert_eq!(
        host_reach_address(HostReach::SharedNamespace, subnet),
        Ipv4Addr::localhost()
    );
}

#[test]
fn expose_request_maps_host_port_to_ptask_ip() {
    let req = expose_request(&tcp(18080, 80), Ipv4Addr::new(100, 64, 0, 2));
    assert_eq!(req.local, "127.0.0.1:18080");
    assert_eq!(req.remote, "100.64.0.2:80");
    assert_eq!(req.protocol, "tcp");
}

#[test]
fn expose_request_serializes_to_gvproxy_fields() {
    let req = expose_request(&udp(5353, 53), Ipv4Addr::new(100, 64, 0, 7));
    assert_eq!(req.local, "127.0.0.1:5353");
    assert_eq!(req.remote, "100.64.0.7:53");
    assert_eq!(req.protocol, "udp");
}

#[test]
fn parse_status_code_reads_the_code() {
    assert_eq!(parse_status_code(b"HTTP/1.1 200 OK\r\n\r\n").unwrap(), 200);
    assert_eq!(
        parse_status_code(b"HTTP/1.0 500 Internal Server Error\r\n").unwrap(),
        500
    );
}

#[test]
fn parse_status_code_rejects_a_malformed_line() {
    assert!(parse_status_code(b"not http\r\n").is_err());
}

#[test]
fn warn_limiter_suppresses_within_the_interval() {
    let mut limiter = PolicyWarnLimiter::new();
    let t0 = 1_000_000;
    assert!(limiter.should_warn_at(t0));
    assert!(!limiter.should_warn_at(t0 + 10));
    assert!(limiter.should_warn_at(t0 + WARN_MIN_INTERVAL_MS));
}

#[test]
fn direction_renders_the_r2_7_field_values() {
    assert_eq!(Direction::Egress.as_str(), "egress");
    assert_eq!(Direction::Ingress.as_str(), "ingress");
}

#[test]
fn content_length_parses_case_insensitively_or_absent() {
    assert_eq!(
        content_length(b"HTTP/1.1 200 OK\r\nContent-Length: 6\r\n\r\n"),
        Some(6)
    );
    assert_eq!(
        content_length(b"HTTP/1.1 200 OK\r\ncontent-length:  0\r\n\r\n"),
        Some(0)
    );
    assert_eq!(content_length(b"HTTP/1.1 200 OK\r\n\r\n"), None);
}

#[test]
fn a_response_is_framed_by_its_content_length_without_a_close() {
    let whole = b"HTTP/1.1 200 OK\r\nContent-Length: 6\r\n\r\nWEB_OK";
    for n in 0..whole.len() {
        assert_eq!(exchange(&whole[..n], false), ExchangeStep::Read);
    }
    assert_eq!(exchange(whole, false), ExchangeStep::Done);
    assert_eq!(parse_status_code(whole), Ok(200));
    assert_eq!(body_after_headers(whole), b"WEB_OK");
    assert_eq!(find_header_end(whole), Some(38));
    assert_eq!(control_reply(whole), ControlReply::Granted);
}

#[test]
fn a_response_that_ends_early_or_grows_too_large() {
    assert_eq!(exchange(b"HTTP/1.1 204 None\r\n\r\n", false), ExchangeStep::Done);
    let cut = b"HTTP/1.1 200 OK\r\nContent-Length: 9\r\n\r\nrest";
    assert_eq!(exchange(cut, false), ExchangeStep::Read);
    assert_eq!(exchange(cut, true), ExchangeStep::Done);
    assert_eq!(exchange(b"HTTP/1.1 200", true), ExchangeStep::Done);
    let flood = vec![b'x'; MAX_CONTROL_RESPONSE];
    assert_eq!(exchange(&flood, false), ExchangeStep::Fail);
}

#[test]
fn a_control_reply_is_read_by_its_status() {
    assert_eq!(
        control_reply(b"HTTP/1.1 500 Error\r\n\r\nno room"),
        ControlReply::Refused {
            status: 500,
            body: b"no room"
        }
    );
    assert_eq!(
        control_reply(b"HTTP/1.1 199 Early\r\n\r\n"),
        ControlReply::Refused {
            status: 199,
            body: b""
        }
    );
    assert_eq!(control_reply(b"HTTP/1.1 299 Odd\r\n\r\n"), ControlReply::Granted);
    assert_eq!(
        control_reply(b"nonsense\r\n"),
        ControlReply::Unreadable(StatusError::Malformed("nonsense".to_string()))
    );
    assert_eq!(
        control_reply(b"\xff\xfe 200\r\n"),
        ControlReply::Unreadable(StatusError::NotUtf8)
    );
}

#[test]
fn a_control_request_is_a_framed_post() {
    let request = control_request("/services/forwarder/expose", b"{}");
    assert!(request.starts_with(b"POST /services/forwarder/expose HTTP/1.1\r\n"));
    assert!(request.ends_with(b"\r\n\r\n{}"));
    assert_eq!(content_length(&request), Some(2));
}

#[test]
fn an_ingress_course_takes_back_what_it_exposed() {
    let declared = ingress(vec![tcp(1, 10), udp(2, 20), tcp(3, 30)]);
    let ip = Ipv4Addr::new(100, 64, 0, 2);
    let mut course = IngressCourse::new(ip, &declared);
    assert_eq!(course.next().map(|r| r.local), Some("127.0.0.1:1".to_string()));
    course.granted();
    assert_eq!(course.next().map(|r| r.remote), Some("100.64.0.2:20".to_string()));
    course.granted();
    let back = course.refused();
    assert_eq!(back.len(), 2);
    assert_eq!((back[0].local.as_str(), back[0].protocol.as_str()), ("127.0.0.1:1", "tcp"));
    assert_eq!((back[1].local.as_str(), back[1].protocol.as_str()), ("127.0.0.1:2", "udp"));

    let mut whole = IngressCourse::new(ip, &declared);
    while whole.next().is_some() {
        whole.granted();
    }
    let exposed = whole.finished();
    assert_eq!(exposed.len(), 3);
    let unexpose = unexpose_requests(&exposed);
    assert_eq!(unexpose[2].local, "127.0.0.1:3");
    assert_eq!(protocol_str(IpProto::Udp), "udp");
}

#[test]
fn ingress_rules_are_the_external_tcp_ports() {
    let own = IngressRules::for_own_address(Some(&ingress(vec![tcp(18080, 8080), udp(53, 53)])));
    assert!(own.admits(18080));
    assert!(!own.admits(8080));
    assert!(!own.admits(53));
    assert!(!IngressRules::for_own_address(None).admits(1));
    assert!(IngressRules::for_host_address().admits(1));
}

#[test]
fn two_warnings_of_a_key_are_a_minute_apart() {
    let mut limiter = KeyedWarnLimiter::new();
    let mut warned: Vec<u64> = Vec::new();
    for now in (0..300_000).step_by(7_000) {
        if limiter.should_warn_at("rule".to_string(), now) {
            warned.push(now);
        }
    }
    assert_eq!(warned, vec![0, 63_000, 126_000, 189_000, 252_000]);
}

#[test]
fn ingress_verdicts_have_names() {
    assert_eq!(IngressVerdict::Declared.as_str(), "declared");
    assert_eq!(IngressVerdict::Undeclared.as_str(), "undeclared");
}
