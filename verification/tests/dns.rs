//! The registry of box names.

use std::collections::{BTreeMap, BTreeSet};

use minimald_net::addr::{Endpoint, Ipv4Addr};
use minimald_net::dns::{
    host_component, host_ids_for, is_host_answerable, Hostname, HostnameRegistry, Route, ZoneEntry,
};
use minimald_net::session::{EgressRules, SessionId};

fn leased_ports() -> BTreeMap<u16, u16> {
    BTreeMap::from([(18080, 8080)])
}

fn declared_ports() -> BTreeSet<u16> {
    BTreeSet::from([18080])
}

fn loopback(port: u16) -> Endpoint {
    Endpoint::new(Ipv4Addr::localhost(), port)
}

#[test]
fn host_net_registration_routes_by_host_header_then_withdraws() {
    let mut reg = HostnameRegistry::new("dev", false);

    let hostname = reg.register_host_net(SessionId::nil(), "myservice");
    assert_eq!(hostname.as_str(), "myservice.min.internal");

    assert_eq!(
        reg.resolve("myservice.min.internal")
            .map(|r| r.upstream(8080)),
        Some(Some(loopback(8080)))
    );
    assert_eq!(
        reg.resolve("myservice.min.internal:8080")
            .map(|r| r.upstream(8080)),
        Some(Some(loopback(8080)))
    );
    assert_eq!(
        reg.resolve("myservice.min.internal")
            .map(|r| r.session().to_string()),
        Some("myservice".to_string())
    );

    let removed = reg
        .deregister("myservice")
        .expect("hostname was registered");
    assert_eq!(removed.as_str(), "myservice.min.internal");
    assert_eq!(reg.resolve("myservice.min.internal"), None);
}

#[test]
fn own_ip_name_registers_once_the_lease_is_reported() {
    let mut reg = HostnameRegistry::new("dev", false);

    assert!(reg
        .register_own_ip(SessionId::nil(), "web", declared_ports())
        .is_none());
    assert_eq!(reg.resolve("web.min.internal"), None);

    let hostname = reg.report_own_address(
        SessionId::nil(),
        "web",
        Ipv4Addr::localhost(),
        leased_ports(),
    );
    assert_eq!(hostname.as_str(), "web.min.internal");

    let route = reg
        .resolve("web.min.internal")
        .expect("routes after the report");
    assert_eq!(route.upstream(18080), Some(loopback(18080)));
    assert_eq!(route.session(), "web");

    reg.deregister("web");
    assert!(reg
        .register_own_ip(SessionId::nil(), "web", declared_ports())
        .is_some());
    let route = reg
        .resolve("web.min.internal")
        .expect("routes after the re-registration");
    assert_eq!(
        route.upstream(18080),
        Some(loopback(18080)),
        "the re-registration carries the same declared ports"
    );
    assert_eq!(
        route.upstream(9000),
        None,
        "a port outside the declaration still routes nowhere"
    );

    reg.forget_own_address(SessionId::nil());
    assert_eq!(
        reg.deregister("web").map(|h| h.as_str().to_string()),
        Some("web.min.internal".to_string())
    );
    assert!(reg
        .register_own_ip(SessionId::nil(), "web", declared_ports())
        .is_none());
    assert_eq!(reg.resolve("web.min.internal"), None);
}

#[test]
fn own_ip_on_a_vm_host_routes_to_the_lease_through_the_ingress_map() {
    let mut reg = HostnameRegistry::new("dev", true);
    let lease = Ipv4Addr::new(100, 64, 0, 7);
    reg.report_own_address(SessionId::nil(), "web", lease, leased_ports());

    let route = reg.resolve("web.min.internal:18080").expect("routes");
    assert_eq!(route.upstream(18080), Some(Endpoint::new(lease, 8080)));
    assert_eq!(route.session(), "web");

    assert_eq!(route.upstream(9000), None, "unrelated port is unpublished");
    assert_eq!(
        route.upstream(8080),
        None,
        "the internal port behind the map is not itself addressable"
    );
}

#[test]
fn legacy_three_label_resolves_to_the_same_entry() {
    let mut reg = HostnameRegistry::new("local", false);
    reg.register_host_net(SessionId::nil(), "web");

    let legacy = reg
        .resolve("web.local.min.internal")
        .expect("legacy form routes");
    assert_eq!(legacy.session(), "web");
    assert_eq!(
        reg.resolve("web.min.internal"),
        Some(legacy),
        "both forms resolve to the same entry"
    );

    assert!(reg.resolve("web.local.min.internal:8080").is_some());
    assert_eq!(reg.resolve("ghost.local.min.internal"), None);
    assert_eq!(reg.resolve("local.min.internal"), None);
}

#[test]
fn host_component_strips_port_including_bracketed_ipv6() {
    assert_eq!(host_component("svc.min.internal"), "svc.min.internal");
    assert_eq!(host_component("svc.min.internal:8080"), "svc.min.internal");
    assert_eq!(host_component("[::1]:8080"), "[::1]");
    assert_eq!(host_component("[::1]"), "[::1]");
}

#[test]
fn deregister_unknown_session_is_a_noop() {
    let mut reg = HostnameRegistry::new("dev", false);
    assert_eq!(reg.deregister("ghost"), None);
}

#[test]
fn a_name_that_no_longer_routes_is_given_back() {
    let mut reg = HostnameRegistry::new("dev", false);
    reg.register_host_net(SessionId::nil(), "Web");
    reg.register_host_net(SessionId::nil(), "web");
    assert_eq!(
        reg.deregister("Web").map(|h| h.as_str().to_string()),
        Some("web.min.internal".to_string())
    );
    assert_eq!(reg.resolve("web.min.internal"), None);
    assert_eq!(
        reg.deregister("web").map(|h| h.as_str().to_string()),
        Some("web.min.internal".to_string())
    );
    assert_eq!(reg.deregister("web"), None);
}

#[test]
fn host_component_keeps_an_unclosed_bracket() {
    assert_eq!(host_component("[::1"), "[::1");
    assert_eq!(host_component(""), "");
    assert_eq!(host_component(":80"), "");
}

#[test]
fn hostnames_put_the_session_before_the_zone() {
    assert_eq!(Hostname::for_ptask("web").as_str(), "web.min.internal");
    assert_eq!(host_ids_for("dev"), vec!["dev".to_string(), "local".to_string()]);
    assert_eq!(host_ids_for("local"), vec!["local".to_string()]);
}

#[test]
fn a_dotted_session_name_is_found_by_its_deprecated_name() {
    let mut reg = HostnameRegistry::new("dev", false);
    reg.register_host_net(SessionId { id: 1 }, "a.b");
    let route = reg.resolve("a.b.dev.min.internal").expect("routes");
    assert_eq!(route.session(), "a.b");
    assert_eq!(
        reg.resolve("a.b.local.min.internal").map(|r| r.session()),
        Some("a.b")
    );
    assert_eq!(reg.resolve("a.b.other.min.internal"), None);
}

#[test]
fn a_lease_names_the_session_that_reported_it_last() {
    let mut reg = HostnameRegistry::new("dev", true);
    let first = SessionId { id: 1 };
    let second = SessionId { id: 2 };
    let lease = Ipv4Addr::new(100, 64, 0, 7);
    let resolver = Ipv4Addr::new(100, 64, 0, 1);
    reg.register_caller(first, "one", EgressRules::from_policy(None, resolver));
    reg.register_caller(second, "two", EgressRules::from_policy(None, resolver));
    assert!(reg.caller_at(lease).is_none());

    reg.report_own_address(first, "one", lease, leased_ports());
    let caller = reg.caller_at(lease).expect("a reported lease is a caller");
    assert_eq!((caller.name(), caller.lease()), ("one", lease));
    assert_eq!(caller.egress().resolver, resolver);
    reg.report_own_address(second, "two", lease, leased_ports());
    assert_eq!(reg.caller_at(lease).map(|c| c.name().to_string()), Some("two".to_string()));

    let moved = Ipv4Addr::new(100, 64, 0, 9);
    reg.report_own_address(second, "two", moved, leased_ports());
    assert!(reg.caller_at(lease).is_none(), "the older lease names nobody");
    assert_eq!(reg.caller_at(moved).map(|c| c.name().to_string()), Some("two".to_string()));

    reg.forget_own_address(second);
    assert!(reg.caller_at(moved).is_none());
}

#[test]
fn zone_rows_and_entries_follow_the_registry() {
    let mut reg = HostnameRegistry::new("dev", true);
    reg.register_host_net(SessionId { id: 1 }, "web");
    let lease = Ipv4Addr::new(100, 64, 0, 7);
    reg.report_own_address(SessionId { id: 2 }, "api", lease, leased_ports());

    assert_eq!(
        reg.zone_entry("web.min.internal", &[]),
        ZoneEntry::Held {
            owner: "web".to_string(),
            address: Some(Ipv4Addr::localhost())
        }
    );
    assert_eq!(
        reg.zone_entry("api.min.internal", &[]),
        ZoneEntry::Held {
            owner: "api".to_string(),
            address: None
        }
    );
    assert_eq!(
        reg.zone_entry("api.min.internal", &[lease]),
        ZoneEntry::Held {
            owner: "api".to_string(),
            address: Some(lease)
        }
    );
    assert_eq!(reg.zone_entry("ghost.min.internal", &[]), ZoneEntry::Absent);

    let names: Vec<String> = reg.zone_table(&[]).into_iter().map(|row| row.name).collect();
    assert_eq!(names, vec!["api.min.internal", "web.min.internal"]);
}

#[test]
fn a_route_knows_its_ports_and_its_address() {
    let open = Route::loopback("web", None);
    assert!(open.declared_ports().is_none());
    assert_eq!(open.upstream(1), Some(loopback(1)));
    assert_eq!(open.address(), Ipv4Addr::localhost());
    assert_eq!(open.zone_address(&[]), Some(Ipv4Addr::localhost()));

    let lease = Ipv4Addr::new(100, 64, 0, 7);
    let boxed = Route::lease("web", lease, leased_ports());
    assert_eq!(boxed.declared_ports(), Some(&declared_ports()));
    assert_eq!(boxed.address(), lease);
    assert_eq!(boxed.zone_address(&[]), None);
    assert_eq!(boxed.zone_address(&[lease]), Some(lease));
}

#[test]
fn the_reserved_range_ends_with_its_last_address() {
    assert!(is_host_answerable(Ipv4Addr::new(127, 64, 0, 0), &[]));
    assert!(is_host_answerable(Ipv4Addr::new(127, 64, 0, 255), &[]));
    assert!(!is_host_answerable(Ipv4Addr::new(127, 63, 255, 255), &[]));
    assert!(!is_host_answerable(Ipv4Addr::new(127, 0, 0, 2), &[]));
}
