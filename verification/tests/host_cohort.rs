//! The cgroup tree, its rules, and the verdicts they give.

use minimald_net::addr::{Endpoint, Ipv4Addr};
use minimald_net::answerer::ANSWERER_PORT;
use minimald_net::enforcement::{
    decide_session_start, install_command, HostProbe, InstallState, ENFORCEMENT_ENV,
};
use minimald_net::host_cohort::{
    answerer, cgroup_of, has_rules, is_deny_all, leaf_id, record_node_plane_fetch, Action,
    Classified, Filter, Layout, SourceIdentity, REFUSAL,
};
use minimald_net::session::{DropRule, EgressPolicy, Verdict};
use minimald_net::switch::{IPPROTO_ICMP, IPPROTO_TCP, IPPROTO_UDP};

const NATIVE_ROOT: &str = "user.slice/user-1000.slice/user@1000.service/minimald.slice";

fn undeclared() -> EgressPolicy {
    EgressPolicy {
        allow_subnets: None,
        allow_dns_hosts: None,
        allow_protocols: None,
        deny_subnets: None,
    }
}

fn policy(allow: &[&str], deny: &[&str]) -> EgressPolicy {
    EgressPolicy {
        allow_subnets: Some(allow.iter().map(|s| s.to_string()).collect()),
        deny_subnets: Some(deny.iter().map(|s| s.to_string()).collect()),
        ..undeclared()
    }
}

fn deny_all() -> EgressPolicy {
    policy(&[], &[])
}

fn ep(ip: [u8; 4], port: u16) -> Endpoint {
    Endpoint::new(Ipv4Addr::new(ip[0], ip[1], ip[2], ip[3]), port)
}

fn native() -> Layout {
    Layout::new(NATIVE_ROOT)
}

fn capable_host() -> HostProbe {
    HostProbe {
        install: InstallState::Current,
        install_command: install_command("/state/net/host-classifier"),
        delegated_root: Some(native()),
        nsdelegate: Some(true),
        daemon_in_leaf: true,
        ruleset_loaded: true,
    }
}

fn a_box(id: &str, deny_all: bool) -> Option<Classified> {
    Some(Classified::Box {
        id: id.to_string(),
        deny_all,
    })
}

#[test]
fn node_plane_and_cohort_distinct_sources() {
    let layout = native();
    assert_eq!(layout.level(), 4);
    assert_eq!(layout.uid(), Some(1000));
    assert_eq!(layout.chain(), "host_cohort_1000");
    assert_eq!(
        layout.classify(&layout.daemon_leaf()),
        Some(Classified::NodePlane)
    );
    assert_eq!(
        layout.classify(&layout.box_leaf("b1", true)),
        a_box("b1", true)
    );
    assert_eq!(
        layout.classify(&layout.box_leaf("b2", false)),
        a_box("b2", false)
    );
    assert_eq!(layout.classify(&layout.cohort()), Some(Classified::Cohort));
    assert_eq!(
        layout.classify(&layout.class_dir(true)),
        Some(Classified::Cohort)
    );
    assert_eq!(
        layout.classify(&format!("{}/helper", layout.daemon_leaf())),
        Some(Classified::NodePlane)
    );
    assert_eq!(layout.classify("user.slice/user-1000.slice"), None);
    assert_eq!(
        layout.classify(&format!("{NATIVE_ROOT}-other/daemon")),
        None
    );
    assert_ne!(
        Classified::NodePlane.source(),
        a_box("b1", true).unwrap().source()
    );
    assert_eq!(Classified::Cohort.source(), SourceIdentity::Cohort);

    assert_eq!(Layout::guest().root(), "minimald.slice");
    assert_eq!(Layout::guest().level(), 1);
    assert_eq!(Layout::guest().chain(), "host_cohort");
    let found = Layout::native(
        "0::/user.slice/user-1000.slice/user@1000.service/app.slice/minimald.service\n",
    )
    .expect("a delegated subtree");
    assert_eq!(found.root(), NATIVE_ROOT);
    assert_eq!(Layout::native("0::/system.slice/some.service\n"), None);
    assert_eq!(
        Layout::native("0::/user.slice/user-1000.slice/session-4.scope\n"),
        None,
        "a session scope is outside the delegation"
    );

    let rules = layout.ruleset(answerer());
    let at = |s: &str| {
        rules
            .find(s)
            .unwrap_or_else(|| panic!("missing {s:?} in:\n{rules}"))
    };
    let deny = at(&format!(
        "socket cgroupv2 level 6 \"{}\"",
        layout.class_dir(true)
    ));
    let cohort = at(&format!(
        "socket cgroupv2 level 5 \"{}\" counter accept comment \"host-address-cohort\"",
        layout.cohort()
    ));
    let daemon = at(&format!(
        "socket cgroupv2 level 5 \"{}\" counter accept comment \"node-plane\"",
        layout.daemon_leaf()
    ));
    assert!(deny < cohort && cohort < daemon, "order in:\n{rules}");
    assert!(rules.contains("add table inet minimal\n"));
    assert!(rules.contains("flush chain inet minimal host_cohort_1000\n"));
    assert!(!rules.contains("\"open"), "the open class needs no rule");

    assert_eq!(layout.rules(answerer()).len(), 4);
    assert_eq!(rules.matches("add rule ").count(), 4);
}

#[test]
fn host_ip_deny_all_no_outbound() {
    let layout = native();
    let leaf = layout.box_leaf("locked", true);
    let attempts = [
        (ep([93, 184, 216, 34], 443), IPPROTO_TCP),
        (ep([1, 1, 1, 1], 53), IPPROTO_UDP),
        (ep([10, 0, 0, 5], 22), IPPROTO_TCP),
        (ep([127, 0, 0, 1], 8080), IPPROTO_TCP),
        (ep([127, 0, 0, 53], 53), IPPROTO_UDP),
        (ep([127, 0, 0, 53], 53), IPPROTO_TCP),
        (ep([8, 8, 8, 8], 0), IPPROTO_ICMP),
    ];
    for (dst, proto) in attempts {
        let d = layout
            .verdict(&leaf, dst, proto, answerer())
            .expect("in the tree");
        assert_eq!(d.source, SourceIdentity::Cohort);
        assert_eq!(d.box_id.as_deref(), Some("locked"));
        assert!(
            matches!(d.verdict, Verdict::Drop(DropRule::Undeclared)),
            "{dst:?}/{proto} must be refused, got {:?}",
            d.verdict
        );
    }
    let child = format!("{leaf}/child");
    let d = layout
        .verdict(&child, ep([93, 184, 216, 34], 443), IPPROTO_TCP, answerer())
        .unwrap();
    assert!(matches!(d.verdict, Verdict::Drop(_)));

    let rules = layout.ruleset(answerer());
    let deny_rules: Vec<&str> = rules
        .lines()
        .filter(|l| l.contains(&format!("\"{}\"", layout.class_dir(true))))
        .collect();
    assert_eq!(deny_rules.len(), 2, "{rules}");
    assert!(deny_rules[0].contains("resolver") && deny_rules[0].contains("accept"));
    assert!(deny_rules[1].ends_with(&format!("counter {REFUSAL} comment \"deny-all refuse\"")));

    let start = decide_session_start("locked", Some(&deny_all()), &capable_host());
    let placement = start.placement.expect("an enforcing host places");
    assert!(placement.deny_all);
    assert_eq!(placement.leaf(), leaf);
    assert_eq!(
        start.env,
        vec![(ENFORCEMENT_ENV.to_string(), "per-box".to_string())]
    );
    let open = decide_session_start("open", None, &capable_host());
    assert!(!open.placement.unwrap().deny_all);
    assert_eq!(
        open.env,
        vec![(ENFORCEMENT_ENV.to_string(), "per-box".to_string())]
    );
    assert_eq!(
        layout
            .verdict(
                &layout.box_leaf("open", false),
                ep([1, 1, 1, 1], 443),
                IPPROTO_TCP,
                answerer()
            )
            .unwrap()
            .verdict,
        Verdict::Admit
    );
}

#[test]
fn daemon_fetch_survives_cohort_deny() {
    let layout = native();
    let upstream = ep([151, 101, 1, 91], 443);
    let fetch = layout
        .verdict(&layout.daemon_leaf(), upstream, IPPROTO_TCP, answerer())
        .expect("the daemon's leaf is in the tree");
    assert_eq!(fetch.verdict, Verdict::Admit);
    assert_eq!(fetch.source, SourceIdentity::NodePlane);
    assert_eq!(fetch.box_id, None);
    assert_eq!(
        record_node_plane_fetch("package fetch"),
        SourceIdentity::NodePlane
    );

    let from_box = layout
        .verdict(
            &layout.box_leaf("locked", true),
            upstream,
            IPPROTO_TCP,
            answerer(),
        )
        .unwrap();
    assert!(matches!(from_box.verdict, Verdict::Drop(_)));
    assert_eq!(from_box.source, SourceIdentity::Cohort);
    assert_eq!(from_box.box_id.as_deref(), Some("locked"));
    let helper = layout
        .verdict(
            &format!("{}/gvproxy", layout.daemon_leaf()),
            upstream,
            IPPROTO_TCP,
            answerer(),
        )
        .unwrap();
    assert_eq!(helper.verdict, Verdict::Admit);
}

#[test]
fn host_ip_deny_all_reaches_only_the_answerer() {
    let layout = native();
    let leaf = layout.box_leaf("locked", true);
    let resolver = answerer();
    let verdict = |dst, proto| {
        layout
            .verdict(&leaf, dst, proto, answerer())
            .unwrap()
            .verdict
    };

    assert_eq!(
        resolver,
        Endpoint::new(Ipv4Addr::localhost(), ANSWERER_PORT),
        "the carve-out is where the answerer listens"
    );
    assert!(resolver.ip.is_loopback());
    assert_eq!(verdict(resolver, IPPROTO_UDP), Verdict::Admit);
    assert_eq!(verdict(resolver, IPPROTO_TCP), Verdict::Admit);
    assert!(matches!(
        verdict(ep(resolver.ip.octets(), 80), IPPROTO_TCP),
        Verdict::Drop(_)
    ));
    assert!(matches!(
        verdict(ep(resolver.ip.octets(), 53), IPPROTO_UDP),
        Verdict::Drop(_)
    ));
    assert!(matches!(
        verdict(ep([127, 0, 0, 53], resolver.port), IPPROTO_UDP),
        Verdict::Drop(_)
    ));
    assert!(matches!(
        verdict(ep([127, 0, 0, 53], 53), IPPROTO_UDP),
        Verdict::Drop(_)
    ));
    assert!(matches!(verdict(resolver, IPPROTO_ICMP), Verdict::Drop(_)));

    let rules = layout.ruleset(answerer());
    assert!(rules.contains(&format!(
        "ip daddr {} meta l4proto {{ tcp, udp }} th dport {} counter accept",
        resolver.ip.to_text(),
        resolver.port
    )));
    let guest = Layout::guest();
    assert_eq!(
        guest
            .verdict(
                &guest.box_leaf("locked", true),
                resolver,
                IPPROTO_UDP,
                resolver
            )
            .unwrap()
            .verdict,
        Verdict::Admit
    );
    assert!(guest
        .ruleset(resolver)
        .contains("level 3 \"minimald.slice/boxes/deny\""));
}

#[test]
fn deny_all_is_an_empty_allow_list_and_no_names() {
    assert!(is_deny_all(Some(&deny_all())));
    assert!(!is_deny_all(None));
    assert!(!is_deny_all(Some(&undeclared())));
    assert!(!is_deny_all(Some(&policy(&["10.0.0.0/8"], &[]))));
    let mut named = deny_all();
    named.allow_dns_hosts = Some(vec!["example.com".to_string()]);
    assert!(!is_deny_all(Some(&named)));
    assert!(has_rules(Some(&named)));
    let mut empty_names = deny_all();
    empty_names.allow_dns_hosts = Some(vec![]);
    assert!(is_deny_all(Some(&empty_names)));
    assert!(!has_rules(None));
    assert!(!has_rules(Some(&undeclared())));
    assert!(has_rules(Some(&policy(&["10.0.0.0/8"], &[]))));
}

#[test]
fn rules_are_a_table_of_four() {
    let rules = native().rules(answerer());
    let actions: Vec<Action> = rules.iter().map(|r| r.action).collect();
    assert_eq!(
        actions,
        vec![Action::Accept, Action::Reject, Action::Accept, Action::Accept]
    );
    assert_eq!(rules[0].filter, Filter::Resolver(answerer()));
    assert_eq!(rules[1].filter, Filter::Any);
    assert_eq!(rules[1].level, 6);
    assert_eq!(rules[3].level, 5);
    assert_eq!(rules[3].cgroup, native().daemon_leaf());
}

#[test]
fn every_session_has_a_leaf_name_of_its_own_class() {
    let layout = native();
    for session in ["", "web", ".hidden", "a b/c", "ünïcode"] {
        for deny in [true, false] {
            let leaf = layout.box_leaf(&leaf_id(session), deny);
            assert_eq!(layout.classify(&leaf), a_box(&leaf_id(session), deny));
        }
    }
}

#[test]
fn cgroup_files_are_read_by_their_unified_line() {
    assert_eq!(cgroup_of("0::/a/b\n"), Some("a/b".to_string()));
    assert_eq!(
        cgroup_of("4:memory:/x\n0::/y\n"),
        Some("y".to_string())
    );
    assert_eq!(cgroup_of("4:memory:/x\n"), None);
    assert_eq!(cgroup_of(""), None);
}

#[test]
fn outside_of_the_tree_there_is_no_verdict() {
    let layout = native();
    assert!(layout
        .verdict("system.slice", ep([1, 1, 1, 1], 1), IPPROTO_TCP, answerer())
        .is_none());
    assert_eq!(SourceIdentity::NodePlane.as_str(), "node-plane");
    assert_eq!(SourceIdentity::Cohort.as_str(), "host-address-cohort");
}

#[test]
fn any_path_below_a_leaf_is_its_boxes_own() {
    let layout = native();
    let far = ep([1, 1, 1, 1], 443);
    for rest in ["", "/", "/a", "/a/", "//a//", "/a ", "/ ", "/a /", "/ / "] {
        let denied = format!("{}{rest}", layout.box_leaf("web", true));
        assert_eq!(layout.classify(&denied), a_box("web", true));
        let decision = layout
            .verdict(&denied, far, IPPROTO_TCP, answerer())
            .expect("in the tree");
        assert_eq!(decision.verdict, Verdict::Drop(DropRule::Undeclared));
        assert_eq!(decision.box_id.as_deref(), Some("web"));
        let decision = layout
            .verdict(&denied, answerer(), IPPROTO_UDP, answerer())
            .expect("in the tree");
        assert_eq!(decision.verdict, Verdict::Admit);

        let open = format!("{}{rest}", layout.box_leaf("web", false));
        assert_eq!(layout.classify(&open), a_box("web", false));
        let decision = layout
            .verdict(&open, far, IPPROTO_ICMP, answerer())
            .expect("in the tree");
        assert_eq!(decision.verdict, Verdict::Admit);

        let daemon = format!("{}{rest}", layout.daemon_leaf());
        assert_eq!(layout.classify(&daemon), Some(Classified::NodePlane));
    }
}
