//! What each network mode plans, and the life of a reservation.

use minimald_net::addr::Ipv4Addr;
use minimald_net::gvproxy::{Ending, GvproxySwitch, Stage};
use minimald_net::policy::ControlChannel;
use minimald_net::provider::{
    control_channel, host_ip_plan, netns_gone, netns_path, network_for, no_net_plan, no_tap,
    own_ip_plan, tap_mechanism, tap_name, NetworkKind, OwnIpNetwork, Resolver, SwitchTransport,
    TapMechanism,
};
use minimald_net::session::NetworkMode;
use minimald_net::subnet::{IpAllocator, SwitchSubnet, DEFAULT_MTU};
use minimald_net::switch::HOST_MIN_INTERNAL;

fn vm_backed() -> SwitchTransport {
    SwitchTransport::HostShuttle { cid: 2, port: 1024 }
}

#[test]
fn every_mode_gets_its_provider() {
    let subnet = SwitchSubnet::default();
    assert_eq!(network_for(NetworkMode::HostNet), NetworkKind::HostAddress);
    let host = host_ip_plan(vm_backed(), subnet);
    assert!(!host.isolated);
    assert_eq!(
        host.resolver,
        Resolver::Nameservers(vec![subnet.dns_server()])
    );

    assert_eq!(network_for(NetworkMode::NoNet), NetworkKind::Empty);
    let no_net = no_net_plan();
    assert!(no_net.isolated && no_net.tap.is_none());
    assert_eq!(no_net.resolver, Resolver::Nowhere);

    assert_eq!(network_for(NetworkMode::OwnIp), NetworkKind::OwnAddress);
    let mut allocator = IpAllocator::new(subnet);
    let mut own_ip = OwnIpNetwork::new("s", None);
    let lease = allocator.allocate().unwrap();
    assert!(
        own_ip
            .plan(lease, subnet, vm_backed(), "/run/gvproxy.sock")
            .isolated
    );
    assert!(own_ip.reserved().is_ok(), "own-IP takes a lease");
    assert!(own_ip.abandon());
    assert!(own_ip.reserved().is_err());
}

#[test]
fn the_control_channel_decides_the_tap_mechanism() {
    assert_eq!(
        tap_mechanism(&ControlChannel::Vsock { cid: 2, port: 1024 }),
        TapMechanism::Privileged
    );
    assert_eq!(
        tap_mechanism(&ControlChannel::Unix("/run/gvproxy.sock".to_string())),
        TapMechanism::InNamespace
    );
}

#[test]
fn the_plan_asks_for_a_tap_only_where_the_sandbox_builds_one() {
    let subnet = SwitchSubnet::default();
    let ip = Ipv4Addr::new(100, 64, 0, 9);

    let rootless = own_ip_plan(subnet, ip, TapMechanism::InNamespace);
    let privileged = own_ip_plan(subnet, ip, TapMechanism::Privileged);
    assert!(rootless.tap.is_some());
    assert!(
        privileged.tap.is_none(),
        "the daemon builds this one itself"
    );
    assert!(privileged.isolated && rootless.isolated);
    assert_eq!(privileged.resolver, rootless.resolver);
}

#[test]
fn own_ip_resolver_points_at_the_switch() {
    let subnet = SwitchSubnet::default();
    let lease = Ipv4Addr::new(100, 64, 0, 7);
    let plan = own_ip_plan(subnet, lease, TapMechanism::InNamespace);

    assert_eq!(
        plan.resolver,
        Resolver::Nameservers(vec![subnet.dns_server()])
    );
    assert_eq!(subnet.dns_server(), subnet.gateway());

    assert!(plan.isolated);
    let tap = plan.tap.expect("own-IP gets a tap");
    assert_eq!(tap.address, lease);
    assert_eq!(tap.netmask, subnet.netmask());
    assert_eq!(tap.gateway, subnet.gateway());
    assert_eq!(tap.mtu, DEFAULT_MTU);
}

#[test]
fn failed_attach_releases_the_switch_once() {
    let subnet = SwitchSubnet::default();
    let lease = IpAllocator::new(subnet).allocate().unwrap();
    let mut net = OwnIpNetwork::new("s", None);
    net.plan(lease, subnet, vm_backed(), "/run/gvproxy.sock");
    assert_eq!(net.reserved().map(|r| r.lease), Ok(lease));
    assert!(net.abandon(), "a failed attach must give the lease back");
    assert!(
        !net.abandon(),
        "an abandon with nothing reserved is a no-op"
    );

    net.plan(lease, subnet, vm_backed(), "/run/gvproxy.sock");
    net.commit();
    assert!(!net.abandon(), "the guard releases what was attached");
    assert_eq!(
        net.reserved().unwrap_err(),
        "own-IP attach without a plan: nothing was leased"
    );
}

#[test]
fn concurrent_launches_hold_leases_of_their_own() {
    let subnet = SwitchSubnet::default();
    let mut allocator = IpAllocator::new(subnet);
    let mut launches: Vec<OwnIpNetwork> = (0..4)
        .map(|i| OwnIpNetwork::new(&format!("p{i}"), None))
        .collect();
    for net in &mut launches {
        let lease = allocator.allocate().unwrap();
        net.plan(lease, subnet, SwitchTransport::LocalSpawn, "/run/gvproxy.sock");
    }
    let held: Vec<Ipv4Addr> = launches
        .iter()
        .map(|net| net.reserved().unwrap().lease.ip)
        .collect();
    assert!(held.windows(2).all(|w| w[0] < w[1]));
    assert_eq!(launches[3].identity(), "p3");
    assert_eq!(
        launches[3].reserved().unwrap().mechanism,
        TapMechanism::InNamespace
    );
}

#[test]
fn host_ip_box_resolves_through_node_dns_layer() {
    let subnet = SwitchSubnet::default();
    let plan = host_ip_plan(vm_backed(), subnet);

    assert_eq!(
        plan.resolver,
        Resolver::Nameservers(vec![subnet.dns_server()]),
        "the resolver is the node's DNS layer, the switch gateway"
    );
    assert!(
        plan.hosts.is_empty(),
        "no /etc/hosts entry may shadow the node's answer"
    );

    let own = own_ip_plan(
        subnet,
        Ipv4Addr::new(100, 64, 0, 9),
        TapMechanism::InNamespace,
    );
    assert_eq!(plan.resolver, own.resolver);
}

#[test]
fn provider_host_min_internal_resolves_to_host_reach_address_per_mode() {
    let subnet = SwitchSubnet::default();

    let plan = host_ip_plan(SwitchTransport::LocalSpawn, subnet);
    assert_eq!(plan.resolver, Resolver::Host);
    assert_eq!(plan.hosts.len(), 1, "one static entry for the host");
    let entry = &plan.hosts[0];
    assert_eq!(entry.name, HOST_MIN_INTERNAL);
    assert_eq!(
        entry.address,
        Ipv4Addr::localhost(),
        "the name answers at the host's loopback"
    );

    let plan = host_ip_plan(vm_backed(), subnet);
    assert_eq!(
        plan.resolver,
        Resolver::Nameservers(vec![subnet.gateway()])
    );

    let own = own_ip_plan(
        subnet,
        Ipv4Addr::new(100, 64, 0, 9),
        TapMechanism::InNamespace,
    );
    assert_eq!(own.resolver, Resolver::Nameservers(vec![subnet.gateway()]));
    assert!(
        own.hosts.is_empty(),
        "own-address boxes resolve the host through the zone, not /etc/hosts"
    );
}

#[test]
fn paths_names_and_reports_of_an_attach() {
    assert_eq!(netns_path(4321), "/proc/4321/ns/net");
    assert!(netns_gone(4321).contains("(/proc/4321/ns/net does not exist)"));
    assert_eq!(tap_name(Ipv4Addr::new(100, 64, 0, 2)), "mtap64_0_2");
    assert_eq!(
        no_tap(true, "unlimited"),
        "own-IP sandbox produced no in-namespace tap fd (/dev/net/tun present: true; user \
         namespaces: unlimited)"
    );
    assert_eq!(
        control_channel(SwitchTransport::LocalSpawn, "/run/s"),
        ControlChannel::Unix("/run/s".to_string())
    );
    assert_eq!(
        control_channel(vm_backed(), "/run/s"),
        ControlChannel::Vsock { cid: 2, port: 1024 }
    );
}

#[test]
fn a_switch_starts_idle() {
    let switch = GvproxySwitch::new("/usr/bin/gvproxy", "/run/minimal/gvproxy");
    assert_eq!(switch.attached(), 0);
    assert_eq!(switch.stage(), &Stage::Idle);
    let (_switch, ending): (GvproxySwitch, Option<Ending>) = switch.finish();
    assert_eq!(ending, None);
}
