//! Probing the reserved loopback range.

use minimald_net::addr::Ipv4Addr;
use minimald_net::loopback::{probe_over, range_hosts, RangeProbe};
use minimald_net::proxy::ErrorKind;

fn absent(_: Ipv4Addr) -> Result<(), ErrorKind> {
    Err(ErrorKind::AddrNotAvailable)
}

fn present(_: Ipv4Addr) -> Result<(), ErrorKind> {
    Ok(())
}

#[test]
fn a_whole_range_of_refusals_reads_absent_and_interim() {
    let probe = probe_over(&range_hosts(), absent);
    assert_eq!(probe.probed, 254, "the probe covers every usable host");
    assert_eq!(probe.bound, 0);
    assert!(!probe.present());
    assert!(probe.interim(), "an absent range reads as the interim");
    assert_eq!(probe.surface(), "127.0.0.1-interim");
    assert_eq!(
        probe.first_failure,
        Some((Ipv4Addr::new(127, 64, 0, 1), ErrorKind::AddrNotAvailable)),
        "the first missing alias is the one the summary names"
    );
    assert!(
        probe.summary().contains("first refusal 127.64.0.1"),
        "{}",
        probe.summary()
    );
}

#[test]
fn a_whole_range_of_binds_reads_present() {
    let probe = probe_over(&range_hosts(), present);
    assert!(probe.present());
    assert!(!probe.interim());
    assert_eq!(probe.surface(), "reserved-range");
    assert_eq!(probe.first_failure, None);
}

#[test]
fn a_partial_alias_set_reads_absent() {
    let probe = probe_over(&range_hosts(), |addr: Ipv4Addr| {
        if addr.octets()[3] == 100 {
            absent(addr)
        } else {
            Ok(())
        }
    });
    assert_eq!(probe.probed, 254);
    assert_eq!(probe.bound, 253);
    assert!(
        !probe.present(),
        "the one missing alias fails the whole range"
    );
    assert!(probe.interim());
    assert_eq!(
        probe.first_failure.map(|(a, _)| a),
        Some(Ipv4Addr::new(127, 64, 0, 100))
    );
}

#[test]
fn a_probe_that_never_ran_reads_absent() {
    let probe = RangeProbe::failed_to_run();
    assert!(!probe.present());
    assert!(probe.interim());
}

#[test]
fn the_first_refusal_is_the_one_that_is_kept() {
    let probe = probe_over(&range_hosts(), |addr: Ipv4Addr| match addr.octets()[3] {
        7 => Err(ErrorKind::PermissionDenied),
        9 => Err(ErrorKind::AddrInUse),
        _ => Ok(()),
    });
    assert_eq!(probe.bound, 252);
    assert_eq!(
        probe.first_failure,
        Some((Ipv4Addr::new(127, 64, 0, 7), ErrorKind::PermissionDenied))
    );
    assert!(probe.summary().contains("PermissionDenied"), "{}", probe.summary());
}
