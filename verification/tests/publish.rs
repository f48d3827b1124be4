//! The table of published boxes.

use minimald_net::addr::{IpAddr, Ipv4Addr};
use minimald_net::publish::{
    sorted_ports, AddressKind, Lookup, LoopbackAllocator, PortCollision, PublishTable,
    RangeExhausted, Zone, LOOPBACK_COUNT,
};
use minimald_net::session::{NetworkMode, SessionId};

fn v4(a: u8, b: u8, c: u8, d: u8) -> IpAddr {
    IpAddr::V4(Ipv4Addr::new(a, b, c, d))
}

#[test]
fn each_box_gets_own_loopback_address() {
    let mut table = PublishTable::default();
    let web = table
        .publish(SessionId::nil(), "web", NetworkMode::OwnIp, &[3000])
        .unwrap();
    let api = table
        .publish(
            SessionId::nil(),
            "api",
            NetworkMode::OwnIp,
            &[3000, 3000, 80],
        )
        .unwrap();
    let quiet = table
        .publish(SessionId::nil(), "quiet", NetworkMode::NoNet, &[])
        .unwrap();

    for published in [&web, &api, &quiet] {
        assert_eq!(published.kind, AddressKind::Own);
        assert!(LoopbackAllocator::in_range(published.address));
        assert!(published.collisions.is_empty(), "{published:?}");
    }
    assert_ne!(web.address, api.address);
    assert_ne!(api.address, quiet.address);
    assert_ne!(web.address, quiet.address);
    assert_eq!(web.ports, vec![3000]);
    assert_eq!(api.ports, vec![80, 3000], "own port numbers, deduplicated");

    assert_eq!(
        table.lookup("web.min.internal"),
        Lookup::Address(IpAddr::V4(web.address))
    );
    assert_eq!(
        table.lookup("api.min.internal"),
        Lookup::Address(IpAddr::V4(api.address))
    );
    assert!(table.set_running("web", true));
    assert!(table.set_running("web", false));
    assert_eq!(
        table.lookup("web.min.internal"),
        Lookup::Address(IpAddr::V4(web.address))
    );

    assert_eq!(table.withdraw("web"), Some(web.address));
    assert_eq!(table.lookup("web.min.internal"), Lookup::Unknown);
    let again = table
        .publish(SessionId::nil(), "again", NetworkMode::OwnIp, &[])
        .unwrap();
    assert_eq!(again.address, web.address);
    assert_ne!(again.address, api.address);
}

#[test]
fn host_ip_box_answers_node_loopback_address() {
    for node in [Ipv4Addr::localhost(), Ipv4Addr::new(127, 0, 64, 9)] {
        let mut table = PublishTable::new(node);
        let shared = table
            .publish(SessionId::nil(), "shared", NetworkMode::HostNet, &[8080])
            .unwrap();
        assert_eq!(shared.kind, AddressKind::Shared);
        assert_eq!(shared.address, node);
        assert_eq!(shared.ports, vec![8080]);
        assert!(table.set_running("shared", true));
        assert_eq!(
            table.lookup("shared.min.internal"),
            Lookup::Address(IpAddr::V4(node))
        );
        assert_eq!(table.withdraw("shared"), Some(node));
        let own = table
            .publish(SessionId::nil(), "own", NetworkMode::OwnIp, &[])
            .unwrap();
        assert_eq!(own.address, Ipv4Addr::new(127, 0, 64, 1));
    }
}

#[test]
fn stopped_shared_address_box_is_nodata() {
    let mut table = PublishTable::default();
    table
        .publish(SessionId::nil(), "shared", NetworkMode::HostNet, &[])
        .unwrap();
    assert_eq!(table.lookup("shared.min.internal"), Lookup::Held);
    assert!(table.set_running("shared", true));
    assert_eq!(
        table.lookup("shared.min.internal"),
        Lookup::Address(v4(127, 0, 0, 1))
    );
    assert!(table.set_running("shared", false));
    assert_eq!(table.lookup("shared.min.internal"), Lookup::Held);
    assert!(!table.set_running("ghost", true), "nothing published");
    assert_eq!(table.lookup("ghost.min.internal"), Lookup::Unknown);
}

#[test]
fn shared_address_port_collision_reported_not_translated() {
    let mut table = PublishTable::default();
    let first = table
        .publish(
            SessionId::nil(),
            "first",
            NetworkMode::HostNet,
            &[3000, 9229],
        )
        .unwrap();
    assert!(first.collisions.is_empty(), "nothing to collide with yet");
    let own = table
        .publish(SessionId::nil(), "own", NetworkMode::OwnIp, &[3000])
        .unwrap();
    assert!(own.collisions.is_empty(), "its own address: no collision");
    let second = table
        .publish(
            SessionId::nil(),
            "second",
            NetworkMode::HostNet,
            &[3000, 4000],
        )
        .unwrap();

    assert_eq!(
        second.collisions,
        vec![PortCollision {
            port: 3000,
            with: "first.min.internal".to_string()
        }]
    );
    assert_eq!(first.address, second.address);
    assert_eq!(first.ports, vec![3000, 9229]);
    assert_eq!(second.ports, vec![3000, 4000]);

    let entries = table.entries();
    let by_name = |name: &str| {
        entries
            .iter()
            .find(|e| e.hostname == format!("{name}.min.internal"))
            .unwrap()
    };
    assert_eq!(
        by_name("first").collisions,
        vec![PortCollision {
            port: 3000,
            with: "second.min.internal".to_string()
        }]
    );
    assert_eq!(by_name("second").collisions.len(), 1);
    assert!(by_name("own").collisions.is_empty());

    table.withdraw("first");
    assert!(table.entries().iter().all(|e| e.collisions.is_empty()));
}

#[test]
fn addresses_run_out_and_come_back() {
    let mut table = PublishTable::default();
    for i in 0..LOOPBACK_COUNT {
        let name = format!("box{i}");
        table
            .publish(SessionId::nil(), &name, NetworkMode::OwnIp, &[])
            .unwrap();
    }
    assert_eq!(
        table.publish(SessionId::nil(), "late", NetworkMode::OwnIp, &[]),
        Err(RangeExhausted)
    );
    assert_eq!(table.lookup("late.min.internal"), Lookup::Unknown);
    let freed = table.withdraw("box100").unwrap();
    let late = table
        .publish(SessionId::nil(), "late", NetworkMode::OwnIp, &[])
        .unwrap();
    assert_eq!(late.address, freed);
    assert_eq!(freed, Ipv4Addr::new(127, 0, 64, 101));
}

#[test]
fn publishing_again_takes_the_name_s_place() {
    let mut table = PublishTable::default();
    let first = table
        .publish(SessionId::nil(), "web", NetworkMode::OwnIp, &[80])
        .unwrap();
    let second = table
        .publish(SessionId { id: 7 }, "web", NetworkMode::HostNet, &[81])
        .unwrap();
    assert_eq!(second.kind, AddressKind::Shared);
    let entries = table.entries();
    assert_eq!(entries.len(), 1);
    assert_eq!(entries[0].session_id, SessionId { id: 7 });
    assert_eq!(entries[0].ports, vec![81]);
    let other = table
        .publish(SessionId::nil(), "other", NetworkMode::OwnIp, &[])
        .unwrap();
    assert_eq!(other.address, first.address, "the first lease was released");
}

#[test]
fn changes_are_told_once() {
    let mut table = PublishTable::default();
    assert!(!table.take_changed());
    table
        .publish(SessionId::nil(), "web", NetworkMode::HostNet, &[])
        .unwrap();
    assert!(table.take_changed());
    assert!(!table.take_changed());
    table.set_running("web", true);
    assert!(table.take_changed());
    assert_eq!(table.withdraw("ghost"), None);
    assert!(!table.take_changed());
    table.withdraw("web");
    assert!(table.take_changed());
    assert_eq!(table.node_address(), Ipv4Addr::localhost());
}

#[test]
fn ports_are_sorted_once_each() {
    assert_eq!(sorted_ports(&[3000, 80, 3000, 1]), vec![1, 80, 3000]);
    assert!(sorted_ports(&[]).is_empty());
}

#[test]
fn the_lowest_free_address_is_leased() {
    let mut allocator = LoopbackAllocator::new();
    let one = allocator.allocate().unwrap();
    let two = allocator.allocate().unwrap();
    assert_eq!(one, Ipv4Addr::new(127, 0, 64, 1));
    assert_eq!(two, Ipv4Addr::new(127, 0, 64, 2));
    allocator.release(one);
    assert_eq!(allocator.allocate(), Ok(one));
    allocator.release(Ipv4Addr::new(10, 0, 0, 1));
    assert_eq!(allocator.allocate(), Ok(Ipv4Addr::new(127, 0, 64, 3)));
}
