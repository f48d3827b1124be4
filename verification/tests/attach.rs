//! The last steps of an attach, and a teardown.

use std::collections::BTreeMap;

use minimald_net::addr::Ipv4Addr;
use minimald_net::attach::{
    advance, first_stage, reported_ports, teardown_steps, Event, Stage, TeardownStep,
};
use minimald_net::dns::HostnameRegistry;
use minimald_net::policy::ExposedMapping;
use minimald_net::session::{IngressPolicy, IpProto, PortMapping, SessionId, SessionPolicy};
use minimald_net::subnet::SwitchSubnet;
use minimald_net::switch::{declared_request_ports, SessionGate};

fn ingress(pairs: &[(u16, u16)]) -> IngressPolicy {
    IngressPolicy {
        port_mappings: pairs
            .iter()
            .map(|&(external_port, internal_port)| PortMapping {
                external_port,
                internal_port,
                proto: IpProto::Tcp,
            })
            .collect(),
        dynamic_allowed_range: None,
    }
}

fn forward() -> ExposedMapping {
    ExposedMapping {
        local: "127.0.0.1:1".to_string(),
        protocol: "tcp".to_string(),
    }
}

#[test]
fn declared_ports_are_exposed_before_the_name_is_registered() {
    let declared = ingress(&[(1, 10)]);
    let stage = first_stage(Some(&declared));
    assert_eq!(stage, Stage::ApplyIngress);
    let stage = advance(stage, Event::Exposed(vec![forward()]), true);
    assert!(matches!(stage, Stage::RegisterName { .. }));
    let stage = advance(stage, Event::NameSettled, true);
    assert!(matches!(stage, Stage::Report { .. }));
    let stage = advance(stage, Event::Reported, true);
    assert_eq!(
        stage,
        Stage::Attached {
            exposed: vec![forward()]
        }
    );
}

#[test]
fn without_mappings_the_name_comes_first() {
    assert_eq!(
        first_stage(None),
        Stage::RegisterName {
            exposed: Vec::new()
        }
    );
    let empty = ingress(&[]);
    let stage = first_stage(Some(&empty));
    assert_eq!(
        advance(stage, Event::NameSettled, false),
        Stage::Attached {
            exposed: Vec::new()
        }
    );
}

#[test]
fn a_refused_forward_drops_the_relay_and_fails() {
    let stage = advance(
        Stage::ApplyIngress,
        Event::NotExposed("busy".to_string()),
        true,
    );
    assert_eq!(
        stage,
        Stage::DropRelay {
            error: "busy".to_string()
        }
    );
    let stage = advance(stage, Event::RelayDropped, true);
    assert_eq!(
        stage,
        Stage::Failed {
            error: "busy".to_string()
        }
    );
    assert_eq!(
        advance(stage, Event::Reported, true),
        Stage::Failed {
            error: "busy".to_string()
        }
    );
}

#[test]
fn forwards_are_removed_before_the_detach() {
    assert_eq!(
        teardown_steps(&[forward()]),
        vec![TeardownStep::RemoveIngress, TeardownStep::Detach]
    );
    assert_eq!(teardown_steps(&[]), vec![TeardownStep::Detach]);
}

#[test]
fn the_last_mapping_of_a_port_is_reported() {
    let declared = ingress(&[(1, 10), (2, 20), (1, 11)]);
    assert_eq!(
        reported_ports(Some(&declared)),
        BTreeMap::from([(1, 11), (2, 20)])
    );
    assert!(reported_ports(None).is_empty());
}

#[test]
fn a_carried_request_ends_on_a_port_that_the_declaration_lets_in() {
    let pairs = [(1024, 8000), (1025, 8001), (1027, 8003)];
    let policy = SessionPolicy {
        egress: None,
        ingress: Some(ingress(&pairs)),
        dynamic_ingress: None,
    };
    let gate = SessionGate::for_session("web".to_string(), &policy, SwitchSubnet::default());
    for on_switch in [true, false] {
        let mut reg = HostnameRegistry::new("local", on_switch);
        let id = SessionId { id: 1 };
        reg.report_own_address(
            id,
            "web",
            Ipv4Addr::localhost(),
            reported_ports(policy.ingress.as_ref()),
        );
        reg.register_own_ip(id, "web", declared_request_ports(Some(&policy)));
        let route = reg.resolve("web.min.internal").expect("the name resolves");
        for port in [1024u16, 1025, 1026, 1027, 8000, 8001, 8002, 8003, 9000] {
            let declared = pairs.iter().find(|(external, _)| *external == port);
            match (route.upstream(port), declared) {
                (Some(upstream), Some((external, internal))) => {
                    assert_eq!(upstream.port, if on_switch { *internal } else { *external });
                    assert!(gate.admits_direct_tcp(*internal));
                }
                (None, None) => {}
                other => panic!("port {port}: {other:?}"),
            }
        }
    }
}
