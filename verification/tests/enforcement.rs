//! Whether a host decides per box, and where its boxes are placed.

use minimald_net::enforcement::{
    after_removal, awaits_load, decide_session_start, install_command, installed_ruleset,
    loaded_stamp, parse_pids, Cause, HostProbe, HostReads, InstallState, NativeHost,
    PerBoxEnforcement, Placement, Removal, Sweep, ADVISORY_ENV, ENFORCEMENT_ENV,
};
use minimald_net::host_cohort::{
    answerer, cgroup2_nsdelegate, cgroup_of, leaf_id, Classified, Layout,
};
use minimald_net::session::EgressPolicy;

const NATIVE_ROOT: &str = "user.slice/user-1000.slice/user@1000.service/minimald.slice";

fn policy(allow: &[&str], deny: &[&str]) -> EgressPolicy {
    EgressPolicy {
        allow_subnets: Some(allow.iter().map(|s| s.to_string()).collect()),
        allow_dns_hosts: None,
        allow_protocols: None,
        deny_subnets: Some(deny.iter().map(|s| s.to_string()).collect()),
    }
}

fn deny_all() -> EgressPolicy {
    policy(&[], &[])
}

fn native() -> Layout {
    Layout::new(NATIVE_ROOT)
}

fn capable_host() -> HostProbe {
    HostProbe {
        install: InstallState::Current,
        install_command: install_command("/state/net/host-classifier"),
        delegated_root: Some(native()),
        nsdelegate: Some(true),
        daemon_in_leaf: true,
        ruleset_loaded: true,
    }
}

#[test]
fn host_ip_box_cannot_leave_its_cgroup() {
    let capable = capable_host();
    assert_eq!(
        PerBoxEnforcement::decide(&capable),
        PerBoxEnforcement::Enforced(native())
    );

    let without = |f: fn(&mut HostProbe)| {
        let mut p = capable_host();
        f(&mut p);
        match PerBoxEnforcement::decide(&p) {
            PerBoxEnforcement::Unenforced { causes, .. } => causes,
            _ => panic!("must not enforce"),
        }
    };
    assert_eq!(
        without(|p| p.nsdelegate = Some(false)),
        vec![Cause::CgroupNotDelegated]
    );
    assert_eq!(
        without(|p| p.nsdelegate = None),
        vec![Cause::CgroupNotDelegated]
    );
    assert_eq!(
        without(|p| p.daemon_in_leaf = false),
        vec![Cause::DaemonNotInItsLeaf]
    );
    assert_eq!(
        without(|p| p.delegated_root = None),
        vec![Cause::NoDelegatedSubtree]
    );
    assert_eq!(
        without(|p| p.ruleset_loaded = false),
        vec![Cause::RulesetNotLoaded]
    );
    assert_eq!(
        without(|p| p.install = InstallState::Stale),
        vec![Cause::InstallStepStale]
    );
    assert_eq!(
        without(|p| {
            p.install = InstallState::Missing;
            p.ruleset_loaded = false;
        }),
        vec![Cause::InstallStepMissing]
    );
    let mut unenforcing = capable_host();
    unenforcing.nsdelegate = Some(false);
    assert_eq!(
        decide_session_start("s", Some(&deny_all()), &unenforcing).placement,
        None
    );

    let with = "36 25 0:31 / /sys/fs/cgroup rw,nosuid,nodev,noexec,relatime shared:9 - cgroup2 cgroup2 rw,nsdelegate,memory_recursiveprot\n";
    let without_opt = "36 25 0:31 / /sys/fs/cgroup rw,nosuid,nodev,noexec,relatime shared:9 - cgroup2 cgroup2 rw,memory_recursiveprot\n";
    let none = "25 1 0:22 / /proc rw,relatime shared:5 - proc proc rw\n";
    assert_eq!(cgroup2_nsdelegate(with), Some(true));
    assert_eq!(cgroup2_nsdelegate(without_opt), Some(false));
    assert_eq!(cgroup2_nsdelegate(none), None);
    assert_eq!(
        cgroup_of("0::/user.slice/user-1000.slice/user@1000.service/minimald.slice/daemon\n"),
        Some(native().daemon_leaf())
    );

    let layout = native();
    let leaf = layout.box_leaf("b1", true);
    assert_eq!(
        layout.classify(&format!("{leaf}/child/grandchild")),
        Some(Classified::Box {
            id: "b1".to_string(),
            deny_all: true
        })
    );
    assert_eq!(
        layout.sysfs(&leaf),
        format!("/sys/fs/cgroup/{NATIVE_ROOT}/boxes/deny/b1")
    );
    assert_eq!(leaf_id("my-box.2"), "my-box.2");
    assert_eq!(leaf_id("a b/c"), "a_b_c");
    assert_eq!(leaf_id(".hidden"), "s_.hidden");
}

#[test]
fn native_host_advises_classifier_install_without_prompt() {
    let mut probe = capable_host();
    probe.install = InstallState::Missing;
    probe.ruleset_loaded = false;
    let e = PerBoxEnforcement::decide(&probe);
    assert!(!e.per_box());
    let advisory = e.advisory().expect("an unenforcing host says so");
    assert!(advisory.contains(Cause::InstallStepMissing.describe()));
    assert!(advisory.contains(&probe.install_command), "{advisory}");
    assert!(advisory.contains("sudo bash /state/net/host-classifier/install-host-classifier.sh"));
    assert!(!advisory.contains('?'), "{advisory}");
    assert!(!advisory.to_lowercase().contains("[y/n]"), "{advisory}");
    assert!(!advisory.to_lowercase().contains("continue"), "{advisory}");
    assert_eq!(e.record(), "none");

    let start = decide_session_start("s", Some(&deny_all()), &probe);
    assert!(start.placement.is_none());
    assert!(start
        .env
        .contains(&(ENFORCEMENT_ENV.to_string(), "none".to_string())));
    assert!(start
        .env
        .iter()
        .any(|(k, v)| k == ADVISORY_ENV && v == &advisory));

    let mut stale = capable_host();
    stale.install = InstallState::Stale;
    let advisory = PerBoxEnforcement::decide(&stale).advisory().unwrap();
    assert!(advisory.contains(Cause::InstallStepStale.describe()));
    assert!(advisory.contains("install-host-classifier.sh"));

    let mut confinement_only = capable_host();
    confinement_only.nsdelegate = Some(false);
    let advisory = PerBoxEnforcement::decide(&confinement_only)
        .advisory()
        .unwrap();
    assert!(advisory.contains(Cause::CgroupNotDelegated.describe()));
    assert!(
        !advisory.contains("install-host-classifier.sh"),
        "{advisory}"
    );
    assert!(!advisory.contains("sudo"), "{advisory}");

    let mut both = confinement_only;
    both.install = InstallState::Missing;
    let advisory = PerBoxEnforcement::decide(&both).advisory().unwrap();
    assert!(advisory.contains(Cause::InstallStepMissing.describe()));
    assert!(advisory.contains(Cause::CgroupNotDelegated.describe()));
    assert_eq!(advisory.matches("install-host-classifier.sh").count(), 1);

    let capable = PerBoxEnforcement::decide(&capable_host());
    assert_eq!(capable.advisory(), None);
    assert_eq!(capable.record(), "per-box");
    assert_eq!(
        decide_session_start("s", None, &capable_host()).env,
        vec![(ENFORCEMENT_ENV.to_string(), "per-box".to_string())]
    );
    let listed = decide_session_start(
        "listed",
        Some(&policy(&["10.0.0.0/8"], &[])),
        &capable_host(),
    );
    assert!(!listed.placement.unwrap().deny_all);
    assert!(listed
        .env
        .contains(&(ENFORCEMENT_ENV.to_string(), "none".to_string())));
    let advisory = listed
        .env
        .iter()
        .find(|(k, _)| k == ADVISORY_ENV)
        .map(|(_, v)| v.clone())
        .unwrap();
    assert!(advisory.contains("not enforced here"), "{advisory}");
    assert!(!advisory.contains("sudo"));
}

#[test]
fn a_load_is_awaited_only_where_it_alone_is_missing() {
    let mut probe = capable_host();
    assert!(!awaits_load(&probe, 0, 10));
    probe.ruleset_loaded = false;
    assert!(awaits_load(&probe, 9, 10));
    assert!(!awaits_load(&probe, 10, 10));
    probe.daemon_in_leaf = false;
    assert!(!awaits_load(&probe, 0, 10));
}

#[test]
fn a_native_host_is_probed_by_what_is_read_of_it() {
    let host = NativeHost::start(
        "0::/user.slice/user-1000.slice/user@1000.service/app.slice/minimald.service\n",
        "/state",
    );
    assert_eq!(host.dir(), "/state/net/host-classifier");
    assert_eq!(host.layout().map(|l| l.root()), Some(NATIVE_ROOT));
    let rules = host.ruleset().expect("a tree has rules");
    assert_eq!(rules, native().ruleset(answerer()));
    assert!(host.tree_dirs().contains(&native().sysfs(&native().daemon_leaf())));

    let mut reads = HostReads {
        installed: Some(rules.clone()),
        loaded: Some(rules.clone()),
        loaded_at: Some(5),
        asked_at: Some(5),
        self_cgroup: format!("0::/{}\n", native().daemon_leaf()),
        mountinfo: "1 2 0:3 / /sys/fs/cgroup rw - cgroup2 cgroup2 rw,nsdelegate\n".to_string(),
    };
    let probe = host.probe(&reads);
    assert_eq!(probe, capable_host());
    assert!(PerBoxEnforcement::decide(&probe).per_box());

    reads.installed = Some("other".to_string());
    assert_eq!(host.probe(&reads).install, InstallState::Stale);
    reads.installed = None;
    assert_eq!(host.probe(&reads).install, InstallState::Missing);
    reads.loaded_at = Some(4);
    assert!(!host.probe(&reads).ruleset_loaded, "the load is older than the request");
    reads.self_cgroup = "0::/elsewhere\n".to_string();
    assert!(!host.probe(&reads).daemon_in_leaf);

    let bare = NativeHost::start("0::/system.slice/some.service\n", "/state");
    assert!(bare.layout().is_none());
    assert!(bare.ruleset().is_none());
    assert!(bare.tree_dirs().is_empty());
    assert_eq!(bare.probe(&reads).delegated_root, None);
    assert_eq!(NativeHost::request(7, 99), "7 99\n");
    assert_eq!(installed_ruleset(1000), "/etc/minimal/host-classifier/1000.nft");
    assert_eq!(loaded_stamp(1000), "/run/minimal/host-classifier/1000.loaded");
}

#[test]
fn a_box_is_placed_in_the_first_leaf_that_is_free() {
    let placement = Placement {
        layout: native(),
        id: "web".to_string(),
        deny_all: true,
    };
    assert_eq!(placement.leaf(), native().box_leaf("web", true));
    let first = placement.candidate(1).unwrap();
    assert_eq!(first.kernel_path(), placement.leaf());
    assert_eq!(first.sysfs(), native().sysfs(&placement.leaf()));
    assert_eq!(first.procs_file(), format!("{}/cgroup.procs", first.sysfs()));
    let second = placement.candidate(2).unwrap();
    assert_eq!(second.kernel_path(), native().box_leaf("web-2", true));
    assert!(placement.candidate(99).is_some());
    assert!(placement.candidate(100).is_none());

    let there = format!("0::/{}\n", first.kernel_path());
    assert_eq!(first.check_placed(7, Some(&there)), Ok(()));
    let report = first.check_placed(7, Some("0::/elsewhere\n")).unwrap_err();
    assert!(report.starts_with("box process 7 is in elsewhere after placement, not "));
    assert!(first.check_placed(7, None).is_err());
}

#[test]
fn a_sweep_moves_each_process_once() {
    let mut sweep = Sweep::new(1);
    let mut moved = Vec::new();
    let tree = |pid: u32| match pid {
        1 => vec![2, 3],
        2 => vec![4, 3],
        _ => Vec::new(),
    };
    let mut asked = 0;
    while let Some(parent) = sweep.next_parent() {
        moved.extend(sweep.found(&tree(parent)));
        asked += 1;
        assert!(asked < 100);
    }
    assert_eq!(moved, vec![2, 3, 4]);
}

#[test]
fn pid_listings_are_read_line_by_line() {
    assert_eq!(parse_pids("1\n22\n333\n"), vec![1, 22, 333]);
    assert_eq!(parse_pids("1\nx\n3"), vec![1, 3]);
    assert!(parse_pids("").is_empty());
}

#[test]
fn a_leaf_is_tried_ten_times() {
    assert_eq!(after_removal(0, true), Removal::Done);
    assert_eq!(after_removal(0, false), Removal::Again);
    assert_eq!(after_removal(8, false), Removal::Again);
    assert_eq!(after_removal(9, false), Removal::Left);
    assert_eq!(after_removal(9, true), Removal::Done);
    assert_eq!(after_removal(u32::MAX, false), Removal::Left);
}
