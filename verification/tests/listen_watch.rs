//! Publishing the ports that a box listens on.

use minimald_net::listen_watch::{
    listening_sockets, socket_inode, watched_rules, ListenPublication, ListenRules, ListenWatch,
    Listener, PidWalk, ProcListeners, SocketOwners, PID_WALK_LIMIT,
};
use minimald_net::session::{IngressPolicy, IpProto, NetworkMode, PortMapping};

fn ingress(range: Option<(u16, u16)>, declared: &[u16]) -> IngressPolicy {
    IngressPolicy {
        port_mappings: declared
            .iter()
            .map(|&port| PortMapping {
                external_port: port,
                internal_port: port,
                proto: IpProto::Tcp,
            })
            .collect(),
        dynamic_allowed_range: range,
    }
}

fn watch(ingress: &IngressPolicy) -> ListenWatch {
    ListenWatch::new(ListenRules::for_box_listeners(Some(ingress)))
}

fn publish(_port: u16, _pid: u32) -> bool {
    true
}

fn at(port: u16, pid: u32) -> Listener {
    Listener { port, pid }
}

fn published(watch: &ListenWatch) -> Vec<(u16, u32)> {
    (0..=u16::MAX)
        .filter_map(|port| watch.published_for(port).map(|pid| (port, pid)))
        .collect()
}

#[test]
fn listen_publishes_permitted_port() {
    let ingress = ingress(Some((9000, 9100)), &[8080]);
    let mut watch = watch(&ingress);

    watch.reconcile(&[at(9090, 4321), at(8080, 4322)], publish);
    assert_eq!(
        published(&watch),
        vec![(9090, 4321)],
        "the declared port keeps its own publication"
    );

    let again = watch.reconcile(&[at(9090, 4321)], publish);
    assert!(again.noticed.is_empty() && again.withdrawn.is_empty());
    assert_eq!(published(&watch), vec![(9090, 4321)]);
}

#[test]
fn listen_on_undeclared_port_not_published() {
    for (range, unpermitted) in [
        (Some((9000, 9100)), vec![0, 1, 8999, 9101, 22, 65_535, 3000]),
        (None, vec![0, 22, 3000, 9090, 65_535]),
    ] {
        let ingress = ingress(range, &[8080]);
        let mut watch = watch(&ingress);

        let seen: Vec<Listener> = unpermitted.iter().map(|&port| at(port, 77)).collect();
        watch.reconcile(&seen, |port: u16, _pid: u32| -> bool {
            panic!("{port} must not be published (range {range:?})")
        });
        assert!(published(&watch).is_empty());
    }
}

#[test]
fn listener_close_withdraws_publication() {
    let ingress = ingress(Some((9000, 9100)), &[8080]);
    let mut watch = watch(&ingress);

    watch.reconcile(&[at(9090, 4321), at(9091, 4321)], publish);
    assert_eq!(published(&watch), vec![(9090, 4321), (9091, 4321)]);

    let closed = watch.reconcile(&[at(9091, 4321)], publish);
    assert_eq!(closed.withdrawn, vec![9090]);
    assert_eq!(published(&watch), vec![(9091, 4321)]);

    let ended = watch.reconcile(&[], publish);
    assert_eq!(ended.withdrawn, vec![9091]);
    assert!(published(&watch).is_empty());

    watch.reconcile(&[at(9090, 9999)], publish);
    assert_eq!(watch.published_for(9090), Some(9999));
}

#[test]
fn only_a_box_that_could_publish_is_watched() {
    let ranged = ingress(Some((9000, 9100)), &[8080]);
    let declared_only = ingress(None, &[8080]);

    assert_eq!(
        watched_rules(NetworkMode::OwnIp, Some(&ranged)),
        Some(ListenRules::for_box_listeners(Some(&ranged)))
    );
    assert_eq!(
        watched_rules(NetworkMode::OwnIp, Some(&declared_only)),
        None
    );
    assert_eq!(watched_rules(NetworkMode::OwnIp, None), None);
    assert_eq!(watched_rules(NetworkMode::NoNet, None), None);
    assert_eq!(watched_rules(NetworkMode::HostNet, None), None);
    assert_eq!(
        watched_rules(NetworkMode::HostNet, Some(&ranged)),
        None,
        "a host-address box is never watched, whatever it is handed: its \
         socket table is the node's"
    );
}

#[test]
fn proc_table_lists_listening_sockets_only() {
    let table = "\
  sl  local_address rem_address   st tx_queue rx_queue tr tm->when retrnsmt   uid  timeout inode
   0: 0100007F:1F90 00000000:0000 0A 00000000:00000000 00:00000000  00000000  1000        0 41001 1 0000 100
   1: 0100007F:238C 0100007F:C9B2 01 00000000:00000000 00:00000000  00000000  1000        0 41002 1 0000 100
   2: 00000000:2382 00000000:0000 0A 00000000:00000000 00:00000000  00000000  1000        0 41003 1 0000 100
";
    assert_eq!(
        listening_sockets(table),
        vec![(8080, 41_001), (9090, 41_003)]
    );
    assert!(listening_sockets("").is_empty());
    assert_eq!(socket_inode("socket:[41001]"), Some(41_001));
    assert_eq!(socket_inode("/dev/null"), None);
}

#[test]
fn proc_listeners_name_the_pid_holding_each_listener() {
    let source = ProcListeners::rooted_at("/tmp/proc", 100);
    assert_eq!(source.table_path("tcp"), "/tmp/proc/100/net/tcp");
    assert_eq!(source.children_path(100), "/tmp/proc/100/task/100/children");
    assert_eq!(source.fd_dir(101), "/tmp/proc/101/fd");
    let table = "\
  sl  local_address rem_address   st tx_queue rx_queue tr tm->when retrnsmt   uid  timeout inode
   0: 0100007F:1F90 00000000:0000 0A 00000000:00000000 00:00000000  00000000  1000        0 41001 1 0000 100
   1: 0100007F:238C 00000000:0000 0A 00000000:00000000 00:00000000  00000000  1000        0 41002 1 0000 100
";
    let sockets = listening_sockets(table);
    let mut walk = PidWalk::new(source.container_pid());
    while let Some(pid) = walk.next_parent() {
        if pid == 100 {
            walk.found(&[101]);
        } else {
            walk.found(&[]);
        }
    }
    assert_eq!(walk.pids(), [100, 101]);
    let mut owners = SocketOwners::new();
    for pid in walk.pids() {
        if *pid == 101 {
            owners.claim(*pid, "socket:[41001]");
        }
    }
    let mut seen = owners.listeners(&sockets, source.container_pid());
    seen.sort_by_key(|l| l.port);
    assert_eq!(seen, vec![at(8080, 101), at(9100, 100)]);
}

#[test]
fn a_port_that_cannot_be_published_is_noticed_and_tried_again() {
    let ingress = ingress(Some((9000, 9100)), &[]);
    let mut watch = watch(&ingress);
    let refuse = |_port: u16, _pid: u32| false;
    let first = watch.reconcile(&[at(9000, 1)], refuse);
    assert!(published(&watch).is_empty());
    assert!(first.withdrawn.is_empty());
    watch.reconcile(&[at(9000, 1)], publish);
    assert_eq!(watch.published_for(9000), Some(1));
}

#[test]
fn rules_tell_declared_permitted_and_other_ports_apart() {
    let rules = ListenRules::for_box_listeners(Some(&ingress(Some((9000, 9100)), &[8080, 9050])));
    assert_eq!(rules.publication(8080), ListenPublication::Declared);
    assert_eq!(rules.publication(9050), ListenPublication::Declared);
    assert_eq!(rules.publication(9000), ListenPublication::Publish);
    assert_eq!(rules.publication(9100), ListenPublication::Publish);
    assert_eq!(rules.publication(9101), ListenPublication::Unpermitted);
    let none = ListenRules::for_box_listeners(None);
    assert_eq!(none.publication(9000), ListenPublication::Unpermitted);
}

#[test]
fn the_first_process_to_hold_a_socket_names_it() {
    let mut owners = SocketOwners::new();
    owners.claim(7, "socket:[1]");
    owners.claim(8, "socket:[1]");
    owners.claim(9, "pipe:[2]");
    assert_eq!(
        owners.listeners(&[(80, 1), (81, 2)], 5),
        vec![at(80, 7), at(81, 5)]
    );
}

#[test]
fn a_walk_is_bounded() {
    let mut walk = PidWalk::new(1);
    let mut next = 2;
    while let Some(_pid) = walk.next_parent() {
        walk.found(&[next, next + 1]);
        next += 2;
    }
    assert!(walk.pids().len() <= PID_WALK_LIMIT + 1);
    assert_eq!(ProcListeners::new(7).table_path("tcp6"), "/proc/7/net/tcp6");
}

#[test]
fn a_second_pass_over_the_same_listeners_changes_nothing() {
    let ingress = ingress(Some((9000, 9100)), &[8080]);
    let mut watch = watch(&ingress);
    let seen = [at(9090, 1), at(22, 2), at(8080, 3), at(9091, 4), at(9090, 5)];
    let first = watch.reconcile(&seen, publish);
    assert_eq!(first.noticed, vec![at(22, 2)]);
    assert!(first.withdrawn.is_empty());
    assert_eq!(published(&watch), vec![(9090, 1), (9091, 4)]);
    let second = watch.reconcile(&seen, |port: u16, _pid: u32| -> bool {
        panic!("{port} is published or refused already")
    });
    assert!(second.noticed.is_empty() && second.withdrawn.is_empty());
    assert_eq!(published(&watch), vec![(9090, 1), (9091, 4)]);
}
