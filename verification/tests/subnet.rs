//! The switch's subnet, its leases and its configuration.

use minimald_net::addr::Ipv4Addr;
use minimald_net::subnet::{
    render_gvproxy_config, IpAllocator, MacAddr, NetError, PtaskLease, SwitchSubnet,
};

#[test]
fn default_subnet_is_rfc6598_slash16() {
    let s = SwitchSubnet::default();
    assert_eq!(s.to_text(), "100.64.0.0/16");
    assert_eq!(s.gateway(), Ipv4Addr::new(100, 64, 0, 1));
    assert_eq!(s.broadcast(), Ipv4Addr::new(100, 64, 255, 255));
    assert_eq!(s.host_alias(), Ipv4Addr::new(100, 64, 255, 254));
}

#[test]
fn allocate_yields_unique_sequential_addresses() {
    let mut a = IpAllocator::new(SwitchSubnet::default());
    let first = a.allocate().unwrap();
    let second = a.allocate().unwrap();
    assert_eq!(first.ip, Ipv4Addr::new(100, 64, 0, 2));
    assert_eq!(second.ip, Ipv4Addr::new(100, 64, 0, 3));
    assert_ne!(first.ip, second.ip);
    assert_eq!(a.leases().len(), 2);
}

#[test]
fn allocate_never_reuses_after_logical_release() {
    let mut a = IpAllocator::new(SwitchSubnet::default());
    let one = a.allocate().unwrap().ip;
    let two = a.allocate().unwrap().ip;
    let three = a.allocate().unwrap().ip;
    assert!(one < two && two < three);
}

#[test]
fn mac_is_derived_deterministically_from_ip() {
    let ip = Ipv4Addr::new(100, 64, 0, 2);
    assert_eq!(MacAddr::for_switch_ip(ip).to_text(), "52:54:00:40:00:02");
    assert_eq!(MacAddr::for_switch_ip(ip), MacAddr::for_switch_ip(ip));
}

#[test]
fn allocator_exhausts_a_tiny_subnet() {
    let subnet = SwitchSubnet::new(Ipv4Addr::new(10, 0, 0, 0), 29).unwrap();
    let mut a = IpAllocator::new(subnet);
    let got: Vec<_> = std::iter::from_fn(|| a.allocate().ok())
        .map(|l| l.ip)
        .collect();
    assert_eq!(
        got,
        vec![
            Ipv4Addr::new(10, 0, 0, 2),
            Ipv4Addr::new(10, 0, 0, 3),
            Ipv4Addr::new(10, 0, 0, 4),
            Ipv4Addr::new(10, 0, 0, 5),
        ]
    );
    assert!(matches!(a.allocate(), Err(NetError::SubnetExhausted(_))));
}

#[test]
fn subnet_rejects_overly_narrow_prefix() {
    assert!(matches!(
        SwitchSubnet::new(Ipv4Addr::new(10, 0, 0, 0), 30),
        Err(NetError::InvalidPrefix(30))
    ));
}

#[test]
fn subnet_rejects_overly_wide_prefix() {
    assert!(matches!(
        SwitchSubnet::new(Ipv4Addr::new(10, 0, 0, 0), 7),
        Err(NetError::InvalidPrefix(7))
    ));
}

#[test]
fn config_contains_subnet_gateway_and_leases() {
    let mut a = IpAllocator::new(SwitchSubnet::default());
    let lease = a.allocate().unwrap();
    let cfg = render_gvproxy_config(a.subnet(), a.leases());
    assert!(cfg.contains("subnet: \"100.64.0.0/16\""));
    assert!(cfg.contains("gatewayIP: \"100.64.0.1\""));
    assert!(cfg.contains(&format!(
        "\"{}\": \"{}\"",
        lease.ip.to_text(),
        lease.mac.to_text()
    )));
    assert!(cfg.contains("\"100.64.255.254\": \"127.0.0.1\""));
}

#[test]
fn empty_config_still_emits_a_lease_map() {
    let cfg = render_gvproxy_config(SwitchSubnet::default(), &[]);
    assert!(cfg.contains("dhcpStaticLeases:"));
    assert!(cfg.contains("{}"));
}

#[test]
fn the_whole_configuration() {
    let lease = PtaskLease {
        ip: Ipv4Addr::new(100, 64, 0, 2),
        mac: MacAddr::for_switch_ip(Ipv4Addr::new(100, 64, 0, 2)),
    };
    let cfg = render_gvproxy_config(SwitchSubnet::default(), &[lease]);
    assert_eq!(
        cfg,
        "stack:\n  mtu: 1500\n  subnet: \"100.64.0.0/16\"\n  gatewayIP: \"100.64.0.1\"\n  \
         gatewayMacAddress: \"5a:94:ef:e4:0c:dd\"\n  nat:\n    \"100.64.255.254\": \
         \"127.0.0.1\"\n  gatewayVirtualIPs:\n    - \"100.64.255.254\"\n  dhcpStaticLeases:\n    \
         \"100.64.0.2\": \"52:54:00:40:00:02\"\n"
    );
}

#[test]
fn a_subnet_is_masked_and_bounded() {
    let subnet = SwitchSubnet::new(Ipv4Addr::new(10, 1, 2, 3), 24).unwrap();
    assert_eq!(subnet.network(), Ipv4Addr::new(10, 1, 2, 0));
    assert_eq!(subnet.broadcast(), Ipv4Addr::new(10, 1, 2, 255));
    assert_eq!(subnet.netmask(), Ipv4Addr::new(255, 255, 255, 0));
    assert_eq!(subnet.dns_server(), Ipv4Addr::new(10, 1, 2, 1));
    assert_eq!(subnet.prefix(), 24);
    assert!(SwitchSubnet::new(Ipv4Addr::new(10, 0, 0, 0), 8).is_ok());
}

#[test]
fn leases_ascend_and_their_hardware_addresses_differ() {
    let mut a = IpAllocator::new(SwitchSubnet::default());
    for _ in 0..300 {
        a.allocate().unwrap();
    }
    let leases = a.leases();
    assert!(leases.windows(2).all(|w| w[0].ip < w[1].ip));
    assert!(leases.windows(2).all(|w| w[0].mac != w[1].mac));
    assert_eq!(leases[299].ip, Ipv4Addr::new(100, 64, 1, 45));
}
