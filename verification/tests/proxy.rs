//! Request heads, routing, and what becomes of a proxied request.

use std::collections::BTreeMap;

use minimald_net::addr::{Endpoint, IpAddr, Ipv4Addr};
use minimald_net::dns::{HostnameRegistry, DEFAULT_HOST_ID};
use minimald_net::policy::Direction;
use minimald_net::proxy::{
    is_h2_prior_knowledge_preface, on_connected, on_head, parse_request, read_chunk, settle,
    split_authority, status_response, strip_h2c_upgrade, BindFailure, ErrorKind, HeadProgress,
    HeadStep, Reason, RequestKind, Router, Settled, Status, MAX_HEAD,
};
use minimald_net::session::{
    EgressRules, IngressPolicy, IpProto, PortMapping, SessionId, SessionPolicy,
};
use minimald_net::subnet::SwitchSubnet;
use minimald_net::switch::{SessionGate, NO_INGRESS_MAPPING_RULE};

fn loopback(port: u16) -> Endpoint {
    Endpoint::new(Ipv4Addr::localhost(), port)
}

fn caller_lease() -> Ipv4Addr {
    Ipv4Addr::new(127, 0, 0, 2)
}

fn reason_of(step: HeadStep<'_>) -> Option<Reason> {
    match step {
        HeadStep::Refuse { reason, .. } => Some(reason),
        _ => None,
    }
}

#[test]
fn legacy_local_zone_routes_with_deprecation() {
    let mut reg = HostnameRegistry::new(DEFAULT_HOST_ID, false);
    reg.register_host_net(SessionId::nil(), "web");
    let router = Router::new(&reg);

    assert_eq!(
        router.route("web.local.min.internal:8080"),
        Some(loopback(8080))
    );
    assert_eq!(router.route("web.min.internal:8080"), Some(loopback(8080)));
    assert_eq!(
        reg.deprecated("web.local.min.internal:8080"),
        Some("web.min.internal".to_string()),
        "the deprecation notice names the two-label form"
    );
    assert_eq!(
        reg.deprecated("web.min.internal"),
        None,
        "the notice is for the legacy request only"
    );
}

#[test]
fn busy_port_predicate_matches_the_error_kind_not_the_text() {
    for text in ["Address already in use", "Address in use"] {
        let failure = BindFailure {
            reason: format!("the daemon could not bind 127.0.0.1:7654: {text}"),
            remedy: "free the listen address".to_owned(),
            kind: ErrorKind::AddrInUse,
        };
        assert!(
            failure.is_addr_in_use(),
            "an EADDRINUSE is busy whatever its libc renders, got: {text}"
        );
    }

    let not_busy = BindFailure {
        reason: "the daemon could not bind 192.0.2.1:7654: Cannot assign requested \
             address — not Address already in use"
            .to_owned(),
        remedy: "free the listen address".to_owned(),
        kind: ErrorKind::AddrNotAvailable,
    };
    assert!(
        !not_busy.is_addr_in_use(),
        "a non-busy bind failure must not read as busy, whatever its text"
    );
}

#[test]
fn parse_request_reads_connect_and_host_authorities() {
    let connect = parse_request(b"CONNECT web.min.internal:443 HTTP/1.1\r\n\r\n").unwrap();
    assert!(matches!(connect.kind, RequestKind::Connect));
    assert_eq!(connect.authority, "web.min.internal:443");

    let forward = parse_request(b"GET / HTTP/1.1\r\nHost: web.min.internal:8080\r\n\r\n").unwrap();
    assert!(matches!(forward.kind, RequestKind::Forward));
    assert_eq!(forward.authority, "web.min.internal:8080");
}

#[test]
fn authorities_are_read_back_whatever_stands_round_them() {
    for authority in ["a:0", "web.min.internal:65535", "x-1.y:80"] {
        let head = format!("CONNECT {authority} HTTP/1.1\r\n\r\n");
        let connect = parse_request(head.as_bytes()).unwrap();
        assert_eq!(connect.kind, RequestKind::Connect);
        assert_eq!(connect.authority, authority);
        for method in ["GET", "POST", "PUT", "DELETE", "HEAD", "OPTIONS", "PATCH"] {
            for name in ["Host", "host", "HOST", "hOsT"] {
                for pad in ["", " ", "  ", "\t"] {
                    let head =
                        format!("{method} /p:!~ HTTP/1.1\r\n{name}:{pad}{authority}{pad}\r\n\r\n");
                    let forward = parse_request(head.as_bytes()).unwrap();
                    assert_eq!(forward.kind, RequestKind::Forward);
                    assert_eq!(forward.authority, authority);
                }
            }
        }
    }
}

#[test]
fn heads_without_an_authority_do_not_parse() {
    assert!(parse_request(b"this is not http\r\n\r\n").is_none());
    assert!(parse_request(b"CONNECT\r\n\r\n").is_none());
    assert!(parse_request(b"GET / HTTP/1.1\r\nHost: \xff\r\n\r\n").is_none());
    assert_eq!(
        parse_request(b"connect a:1 HTTP/1.1\r\n\r\n").map(|r| r.authority),
        Some("a:1")
    );
}

#[test]
fn an_own_address_box_is_routed_through_its_port_map() {
    let mut reg = HostnameRegistry::new(DEFAULT_HOST_ID, true);
    reg.report_own_address(
        SessionId::nil(),
        "web",
        Ipv4Addr::localhost(),
        BTreeMap::from([(18080, 8080)]),
    );
    reg.register_host_net(SessionId::nil(), "static");
    let router = Router::new(&reg);
    assert_eq!(router.route("web.min.internal:18080"), Some(loopback(8080)));
    assert_eq!(
        router.route("static.min.internal:18080"),
        Some(loopback(18080))
    );
    assert_eq!(router.route("static.min.internal"), Some(loopback(80)));
    assert_eq!(router.route("web.min.internal:8080"), None);
    assert_eq!(router.route("web.min.internal:9000"), None);
    assert_eq!(router.route("ghost.min.internal:9000"), None);
}

#[test]
fn heads_are_refused_with_their_reason_and_status() {
    let mut reg = HostnameRegistry::new(DEFAULT_HOST_ID, false);
    reg.register_host_net(SessionId::nil(), "web");
    let router = Router::new(&reg);

    let ghost = on_head(&router, b"GET / HTTP/1.1\r\nHost: ghost.min.internal\r\n\r\n", None);
    match ghost {
        HeadStep::Refuse { reason, host } => {
            assert_eq!(host, Some("ghost.min.internal"));
            assert_eq!(reason.as_str(), "no live box owns this hostname");
            assert_eq!(reason.status().as_str(), "502 Bad Gateway");
        }
        _ => panic!("nothing owns the name"),
    }

    let bad = reason_of(on_head(&router, b"this is not http\r\n\r\n", None)).unwrap();
    assert_eq!(bad.as_str(), "unparseable request head");
    assert_eq!(bad.status().as_str(), "400 Bad Request");

    assert_eq!(
        Reason::UpstreamRefused.as_str(),
        "the upstream box refused the connection"
    );
    assert_eq!(Reason::UpstreamRefused.status().as_str(), "502 Bad Gateway");

    match on_head(&router, b"PRI * HTTP/2.0\r\n\r\nSM\r\n\r\n", None) {
        HeadStep::Close => {}
        _ => panic!("an HTTP/2 preface is closed"),
    }
    assert!(is_h2_prior_knowledge_preface(b"PRI * HTTP/2.0\r\n\r\n"));
    assert!(!is_h2_prior_knowledge_preface(b"GET / HTTP/1.1\r\n\r\n"));
}

#[test]
fn an_undeclared_port_is_refused_like_a_direct_connection() {
    let policy = SessionPolicy {
        egress: None,
        ingress: Some(IngressPolicy {
            port_mappings: vec![PortMapping {
                external_port: 18080,
                internal_port: 8080,
                proto: IpProto::Tcp,
            }],
            dynamic_allowed_range: None,
        }),
        dynamic_ingress: None,
    };
    let mut reg = HostnameRegistry::new(DEFAULT_HOST_ID, true);
    reg.report_own_address(
        SessionId::nil(),
        "web",
        Ipv4Addr::localhost(),
        BTreeMap::from([(18080, 8080)]),
    );
    let router = Router::new(&reg);
    let gate = SessionGate::for_session("web".to_string(), &policy, SwitchSubnet::default());

    let head = b"GET / HTTP/1.1\r\nHost: web.min.internal:18080\r\n\r\n";
    let HeadStep::Judge(routed) = on_head(&router, head, None) else {
        panic!("the name has a route")
    };
    match settle(&routed, None) {
        Settled::Dial(upstream) => {
            assert_eq!(upstream, loopback(8080));
            assert!(gate.admits_direct_tcp(upstream.port));
        }
        other => panic!("a declared port is dialled, got {other:?}"),
    }

    let head = b"GET / HTTP/1.1\r\nHost: web.min.internal:9000\r\n\r\n";
    let HeadStep::Judge(routed) = on_head(&router, head, None) else {
        panic!("the name has a route")
    };
    assert!(!gate.admits_direct_tcp(9000));
    match settle(&routed, None) {
        Settled::Refuse { reason, refusal } => {
            assert_eq!(reason.as_str(), "the box has not published this port");
            assert_eq!(reason.status().as_str(), "403 Forbidden");
            assert_eq!(refusal.rule, NO_INGRESS_MAPPING_RULE);
            assert_eq!(refusal.direction, Direction::Ingress);
            assert_eq!(refusal.other, None);
        }
        other => panic!("an undeclared port is refused, got {other:?}"),
    }
}

#[test]
fn a_caller_s_own_egress_refuses_before_anything_is_dialled() {
    let mut reg = HostnameRegistry::new(DEFAULT_HOST_ID, true);
    reg.report_own_address(
        SessionId { id: 1 },
        "web",
        Ipv4Addr::localhost(),
        BTreeMap::from([(18080, 8080)]),
    );
    reg.register_caller(
        SessionId { id: 2 },
        "client",
        EgressRules::from_policy(None, Ipv4Addr::new(100, 64, 0, 1)),
    );
    reg.report_own_address(SessionId { id: 2 }, "client", caller_lease(), BTreeMap::new());
    let router = Router::new(&reg);
    let head = b"GET / HTTP/1.1\r\nHost: web.min.internal:18080\r\n\r\n";

    let HeadStep::Judge(routed) = on_head(&router, head, Some(IpAddr::V4(caller_lease()))) else {
        panic!("the name has a route")
    };
    assert_eq!(routed.caller.as_ref().map(|c| c.name()), Some("client"));
    match settle(&routed, Some("egress-denied-subnet".to_string())) {
        Settled::Refuse { reason, refusal } => {
            assert_eq!(
                reason.as_str(),
                "the caller's egress policy denies this target"
            );
            assert_eq!(reason.status().as_str(), "403 Forbidden");
            assert_eq!(refusal.rule, "egress-denied-subnet");
            assert_eq!(refusal.direction, Direction::Egress);
            assert_eq!(refusal.other, Some(loopback(18080)));
        }
        other => panic!("the denied caller is refused, got {other:?}"),
    }
    assert!(matches!(settle(&routed, None), Settled::Dial(_)));

    let HeadStep::Judge(stranger) =
        on_head(&router, head, Some(IpAddr::V4(Ipv4Addr::new(127, 0, 0, 9))))
    else {
        panic!("the name has a route")
    };
    assert!(stranger.caller.is_none());
    assert!(matches!(
        settle(&stranger, Some("ignored".to_string())),
        Settled::Dial(_)
    ));
}

#[test]
fn an_h2c_offer_is_stripped_from_the_head() {
    let head = b"GET / HTTP/1.1\r\nHost: web.min.internal:1\r\nConnection: Upgrade, HTTP2-Settings\r\n\
        Upgrade: h2c\r\nHTTP2-Settings: AAMAAABkAARAAAAAAAIAAAAAA\r\nX-Carried: along\r\n\r\n";
    let opening = on_connected(RequestKind::Forward, head);
    assert!(opening.to_client.is_empty());
    let sent = String::from_utf8(opening.to_upstream).unwrap();
    assert_eq!(
        sent,
        "GET / HTTP/1.1\r\nHost: web.min.internal:1\r\nX-Carried: along\r\n\r\n"
    );

    let websocket = b"GET /chat HTTP/1.1\r\nHost: web.min.internal:1\r\nUpgrade: websocket\r\n\
        Connection: Upgrade\r\nSec-WebSocket-Key: dGhlIHNhbXBsZSBub25jZQ==\r\n\r\n";
    assert_eq!(strip_h2c_upgrade(websocket), websocket.to_vec());

    let mixed = strip_h2c_upgrade(
        b"GET / HTTP/1.1\r\nConnection: Upgrade, keep-alive\r\nUpgrade: websocket, h2c\r\n\r\n",
    );
    let mixed = String::from_utf8_lossy(&mixed);
    assert!(mixed.contains("Upgrade: websocket\r\n"));
    assert!(mixed.contains("Connection: Upgrade, keep-alive\r\n"));
    assert!(!mixed.to_ascii_lowercase().contains("h2c"));

    let plain = b"GET / HTTP/1.1\r\nHost: web\r\n\r\nextra";
    assert_eq!(strip_h2c_upgrade(plain).as_slice(), plain.as_slice());
}

#[test]
fn a_head_is_replayed_with_its_absolute_target_and_what_followed_it() {
    let head = b"GET http://web.min.internal:1/path HTTP/1.1\r\nHost: web.min.internal:1\r\n\r\nbody";
    let opening = on_connected(RequestKind::Forward, head);
    assert_eq!(opening.to_upstream, head.to_vec());
    let tunnel = on_connected(RequestKind::Connect, b"CONNECT a:1 HTTP/1.1\r\n\r\n");
    assert_eq!(
        tunnel.to_client,
        b"HTTP/1.1 200 Connection Established\r\n\r\n".to_vec()
    );
    assert!(tunnel.to_upstream.is_empty());
}

#[test]
fn authorities_split_into_host_and_port() {
    assert_eq!(split_authority("web:8080"), ("web", Some(8080)));
    assert_eq!(split_authority("web"), ("web", None));
    assert_eq!(split_authority("[::1]:443"), ("[::1]", Some(443)));
    assert_eq!(split_authority("web:70000"), ("web", None));
    assert_eq!(split_authority("web:"), ("web", None));
}

#[test]
fn heads_are_read_until_they_end_or_grow_too_large() {
    let mut buf = Vec::new();
    assert_eq!(read_chunk(&mut buf, b"GET / HTTP/1.1\r\n"), HeadProgress::More);
    assert_eq!(read_chunk(&mut buf, b"\r\nrest"), HeadProgress::Complete);
    assert_eq!(buf, b"GET / HTTP/1.1\r\n\r\nrest".to_vec());
    let mut flood = Vec::new();
    let chunk = vec![b'x'; MAX_HEAD + 1];
    assert_eq!(read_chunk(&mut flood, &chunk), HeadProgress::TooLarge);
    let mut ended = Vec::new();
    assert_eq!(read_chunk(&mut ended, b""), HeadProgress::Ended);
}

#[test]
fn statuses_are_sent_without_a_body() {
    assert_eq!(
        status_response(Status::Forbidden),
        b"HTTP/1.1 403 Forbidden\r\nContent-Length: 0\r\nConnection: close\r\n\r\n".to_vec()
    );
}

#[test]
fn a_bind_failure_says_what_to_do() {
    let failure = BindFailure::for_listener(
        "127.0.0.1:7654",
        7654,
        "Address already in use",
        ErrorKind::AddrInUse,
    );
    assert_eq!(
        failure.reason,
        "the daemon could not bind 127.0.0.1:7654: Address already in use"
    );
    assert!(failure.reported().contains("could not bind"));
    assert!(failure.reported().contains(&failure.remedy));
    let v6 = BindFailure::for_listener("[::1]:80", 80, "denied", ErrorKind::PermissionDenied);
    assert_eq!(v6.reason, "the daemon could not bind [::1]:80: denied");
    assert_eq!(
        v6.remedy,
        "free the listen address; `lsof -nP -iTCP:80 -sTCP:LISTEN` names the holder"
    );
}

#[test]
fn stripping_a_stripped_head_changes_nothing() {
    for (head, once) in [
        (
            "GET / HTTP/1.1\r\nUpgrade: h2c\r\nConnection: Upgrade, HTTP2-Settings\r\n\r\nbody",
            "GET / HTTP/1.1\r\n\r\nbody",
        ),
        (
            "GET / HTTP/1.1\r\nupgrade:h2c ,websocket\r\nConnection: Upgrade\r\n\r\n\
             Upgrade: h2c\r\n\r\n",
            "GET / HTTP/1.1\r\nupgrade: websocket\r\nConnection: Upgrade\r\n\r\n\
             Upgrade: h2c\r\n\r\n",
        ),
        ("GET / HTTP/1.1\r\nHost: web\r\n\r\n", "GET / HTTP/1.1\r\nHost: web\r\n\r\n"),
    ] {
        let stripped = strip_h2c_upgrade(head.as_bytes());
        assert_eq!(stripped, once.as_bytes());
        assert_eq!(strip_h2c_upgrade(&stripped), stripped);
    }
}
