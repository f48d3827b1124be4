//! The supervisor of the switch's process, step by step.

use minimald_net::addr::Ipv4Addr;
use minimald_net::gvproxy::{Ending, Event, Fault, GvproxySwitch, Stage, SOCKET_READY_TIMEOUT_MS};
use minimald_net::subnet::{NetError, PtaskLease, SwitchSubnet};

fn switch() -> GvproxySwitch {
    GvproxySwitch::new("/usr/bin/gvproxy", "/run/minimal/gvproxy")
}

fn run(switch: GvproxySwitch, events: Vec<Event>) -> GvproxySwitch {
    events
        .into_iter()
        .fold(switch, |switch, event| switch.advance(event, 0))
}

fn attached_lease(switch: GvproxySwitch) -> (GvproxySwitch, PtaskLease) {
    match switch.finish() {
        (switch, Some(Ending::Attached { lease })) => (switch, lease),
        (_, other) => panic!("a box is attached, got {other:?}"),
    }
}

fn first_attach() -> (GvproxySwitch, PtaskLease) {
    let mut switch = switch();
    switch.attach();
    attached_lease(run(
        switch,
        vec![
            Event::ConfigWritten,
            Event::Unlinked,
            Event::Spawned,
            Event::Connected,
        ],
    ))
}

#[test]
fn the_first_attach_starts_the_switch_and_the_second_finds_it() {
    let (mut switch, lease) = first_attach();
    assert_eq!(lease.ip, Ipv4Addr::new(100, 64, 0, 2));
    assert_eq!(switch.attached(), 1);
    switch.attach();
    assert!(matches!(switch.stage(), Stage::WriteConfig { .. }));
    assert!(switch.config().contains("100.64.0.3"));
    let (switch, second) =
        attached_lease(run(switch, vec![Event::ConfigWritten, Event::ChildRunning]));
    assert_eq!(second.ip, Ipv4Addr::new(100, 64, 0, 3));
    assert_eq!(switch.attached(), 2);
}

#[test]
fn the_last_detach_stops_the_switch() {
    let (mut switch, _lease) = first_attach();
    switch.attach();
    let (mut switch, _lease) =
        attached_lease(run(switch, vec![Event::ConfigWritten, Event::ChildRunning]));
    switch.detach();
    let (mut switch, ending) = switch.finish();
    assert_eq!(ending, Some(Ending::Settled));
    assert_eq!(switch.attached(), 1);
    switch.detach();
    assert!(matches!(switch.stage(), Stage::Terminate { .. }));
    let switch = run(
        switch,
        vec![Event::GraceOver, Event::Killed, Event::SocketRemoved],
    );
    let (switch, ending) = switch.finish();
    assert_eq!(ending, Some(Ending::Settled));
    assert_eq!(switch.attached(), 0);
}

#[test]
fn a_switch_that_died_is_started_again_after_its_boxes_are_told() {
    let (mut switch, _lease) = first_attach();
    switch.attach();
    let switch = run(switch, vec![Event::ConfigWritten, Event::ChildExited(Some(1))]);
    assert!(matches!(switch.stage(), Stage::Signal { .. }));
    let (switch, _lease) = attached_lease(run(
        switch,
        vec![
            Event::Signalled,
            Event::Unlinked,
            Event::Spawned,
            Event::NotReady,
            Event::ChildRunning,
            Event::Paused,
            Event::Connected,
        ],
    ));
    assert_eq!(switch.attached(), 2);
}

#[test]
fn a_socket_that_does_not_come_up_fails_the_attach() {
    let mut switch = switch();
    switch.attach();
    let switch = run(
        switch,
        vec![
            Event::ConfigWritten,
            Event::Unlinked,
            Event::Spawned,
            Event::NotReady,
        ],
    );
    let switch = switch.advance(Event::ChildRunning, SOCKET_READY_TIMEOUT_MS);
    assert!(matches!(switch.stage(), Stage::Terminate { .. }));
    let switch = run(switch, vec![Event::Terminated, Event::SocketRemoved]);
    let (switch, ending) = switch.finish();
    assert_eq!(
        ending,
        Some(Ending::Failed {
            fault: Fault::SocketTimeout
        })
    );
    assert_eq!(switch.attached(), 0);
    assert!(matches!(
        switch.error(Fault::SocketTimeout),
        NetError::SocketTimeout(_, _)
    ));
}

#[test]
fn each_failure_ends_the_attach_with_its_fault() {
    let words = || "broken".to_string();
    let cases = vec![
        (vec![Event::ConfigDirFailed(words())], Fault::ConfigDir(words())),
        (vec![Event::ConfigFailed(words())], Fault::Config(words())),
        (
            vec![Event::ConfigWritten, Event::UnlinkFailed(words())],
            Fault::Io(words()),
        ),
        (
            vec![
                Event::ConfigWritten,
                Event::Unlinked,
                Event::SpawnFailed(words()),
            ],
            Fault::Spawn(words()),
        ),
        (
            vec![
                Event::ConfigWritten,
                Event::Unlinked,
                Event::Spawned,
                Event::NotReady,
                Event::ChildExited(Some(2)),
            ],
            Fault::UnexpectedExit(Some(2)),
        ),
    ];
    for (events, fault) in cases {
        let mut switch = switch();
        switch.attach();
        let (switch, ending) = run(switch, events).finish();
        assert_eq!(ending, Some(Ending::Failed { fault }));
        assert_eq!(switch.attached(), 0);
    }
}

#[test]
fn a_full_subnet_fails_the_attach() {
    let subnet = SwitchSubnet::new(Ipv4Addr::new(10, 0, 0, 0), 29).unwrap();
    let mut switch = GvproxySwitch::with_subnet("/usr/bin/gvproxy", "/run/s", subnet);
    for _ in 0..4 {
        switch.attach();
        switch = run(switch, vec![Event::ConfigFailed("full disk".to_string())]);
        switch = switch.finish().0;
    }
    switch.attach();
    let (switch, ending) = switch.finish();
    assert_eq!(
        ending,
        Some(Ending::Failed {
            fault: Fault::Exhausted
        })
    );
    assert!(matches!(
        switch.error(Fault::Exhausted),
        NetError::SubnetExhausted(_)
    ));
}

#[test]
fn files_and_arguments_stand_in_the_state_directory() {
    let switch = switch();
    assert_eq!(switch.binary(), "/usr/bin/gvproxy");
    assert_eq!(switch.state_dir(), "/run/minimal/gvproxy");
    assert_eq!(switch.config_path(), "/run/minimal/gvproxy/gvproxy.yaml");
    assert_eq!(switch.pid_path(), "/run/minimal/gvproxy/gvproxy.pid");
    assert_eq!(
        switch.control_socket(),
        "/run/minimal/gvproxy/gvproxy-api.sock"
    );
    assert_eq!(
        switch.spawn_args(),
        vec![
            "-config",
            "/run/minimal/gvproxy/gvproxy.yaml",
            "-listen",
            "unix:///run/minimal/gvproxy/gvproxy-api.sock",
            "-pid-file",
            "/run/minimal/gvproxy/gvproxy.pid",
            "-ssh-port",
            "-1",
        ]
    );
    assert_eq!(switch.subnet(), SwitchSubnet::default());
}

#[test]
fn an_event_that_is_no_outcome_changes_nothing() {
    let mut switch = switch();
    switch.attach();
    let before = format!("{:?}", switch.stage());
    let switch = switch.advance(Event::Killed, 0);
    assert_eq!(format!("{:?}", switch.stage()), before);
}

#[test]
fn stopping_an_idle_switch_settles_at_once() {
    let mut switch = switch();
    switch.stop();
    let (_switch, ending) = switch.finish();
    assert_eq!(ending, Some(Ending::Settled));
}
