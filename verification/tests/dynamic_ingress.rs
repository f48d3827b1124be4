//! Publishing a port of a running box on request.

use minimald_net::addr::Ipv4Addr;
use minimald_net::dynamic_ingress::{
    evaluate, setting_str, with_mapping, DecidedBy, Decision, Event, ExposeCourse, ExposeRefusal,
    ExposeResponse, Outcome, Reason, Record, Stage,
};
use minimald_net::publish::AddressKind;
use minimald_net::session::{
    DynamicIngress, IngressPolicy, IpProto, NetworkMode, PortMapping, SessionId, SessionPolicy,
};

fn record(setting: Option<DynamicIngress>) -> Record {
    Record {
        id: SessionId::nil(),
        network: NetworkMode::OwnIp,
        policy: SessionPolicy {
            egress: None,
            ingress: Some(IngressPolicy {
                port_mappings: vec![],
                dynamic_allowed_range: Some((3000, 4000)),
            }),
            dynamic_ingress: setting,
        },
    }
}

fn address() -> Ipv4Addr {
    Ipv4Addr::new(127, 0, 64, 1)
}

fn begin(setting: DynamicIngress, asker: bool) -> ExposeCourse {
    ExposeCourse::start(&record(Some(setting)), "web", 3000, IpProto::Tcp, asker)
}

fn run(course: ExposeCourse, events: Vec<Event>) -> ExposeCourse {
    events
        .into_iter()
        .fold(course, |course, event| course.advance(event))
}

fn refusal(course: ExposeCourse) -> ExposeRefusal {
    match course.response() {
        Some(Ok(ExposeResponse::Refused { reason })) => reason,
        other => panic!("the request is refused, got {other:?}"),
    }
}

#[test]
fn evaluate_orders_the_refusals() {
    let mut record = record(Some(DynamicIngress::Allow));
    assert_eq!(evaluate(&record, 3000, IpProto::Tcp), Ok(Decision::Allow));
    assert_eq!(evaluate(&record, 4000, IpProto::Udp), Ok(Decision::Allow));
    assert_eq!(
        evaluate(&record, 4001, IpProto::Tcp),
        Err(ExposeRefusal::OutOfRange {
            port: 4001,
            lo: 3000,
            hi: 4000
        })
    );
    assert_eq!(
        evaluate(&record, 443, IpProto::Tcp),
        Err(ExposeRefusal::PrivilegedPort { port: 443 })
    );
    assert_eq!(
        evaluate(&record, 3000, IpProto::Icmp),
        Err(ExposeRefusal::UnsupportedProtocol {
            proto: IpProto::Icmp
        })
    );

    record.policy.dynamic_ingress = Some(DynamicIngress::Ask);
    assert_eq!(evaluate(&record, 3000, IpProto::Tcp), Ok(Decision::Ask));
    assert_eq!(
        evaluate(&record, 9000, IpProto::Tcp),
        Err(ExposeRefusal::OutOfRange {
            port: 9000,
            lo: 3000,
            hi: 4000
        }),
        "the range is checked before the setting"
    );

    record.policy.dynamic_ingress = None;
    record.policy.ingress = None;
    assert_eq!(
        evaluate(&record, 3000, IpProto::Tcp),
        Err(ExposeRefusal::Unset)
    );
    record.policy.dynamic_ingress = Some(DynamicIngress::Allow);
    assert_eq!(
        evaluate(&record, 65535, IpProto::Tcp),
        Ok(Decision::Allow),
        "no range leaves every unprivileged port to the setting"
    );

    record.network = NetworkMode::NoNet;
    assert_eq!(
        evaluate(&record, 3000, IpProto::Tcp),
        Err(ExposeRefusal::NoOwnAddress {
            mode: NetworkMode::NoNet
        })
    );
}

#[test]
fn an_allowed_port_is_bound_listed_and_written() {
    let course = begin(DynamicIngress::Allow, false);
    assert_eq!(course.stage(), &Stage::Locate);
    let course = run(
        course,
        vec![
            Event::Located(Some((address(), AddressKind::Own))),
            Event::Bound,
            Event::Live(false),
            Event::Listed(true),
            Event::Written,
        ],
    );
    let entry = course.audit().expect("the request is settled");
    assert_eq!(entry.outcome, Outcome::Published);
    assert_eq!(entry.decided_by.as_str(), "policy");
    assert_eq!(entry.setting, "allow");
    assert_eq!((entry.box_name, entry.port), ("web", 3000));
    assert!(entry.reason.is_none());
    match course.response() {
        Some(Ok(ExposeResponse::Published {
            hostname,
            address: at,
            mapping,
        })) => {
            assert_eq!(hostname, "web.min.internal");
            assert_eq!(at, address());
            assert_eq!(
                mapping,
                PortMapping {
                    external_port: 3000,
                    internal_port: 3000,
                    proto: IpProto::Tcp
                }
            );
        }
        other => panic!("the port is published, got {other:?}"),
    }
}

#[test]
fn a_running_box_is_forwarded_to_before_the_port_is_listed() {
    let course = run(
        begin(DynamicIngress::Allow, false),
        vec![
            Event::Located(Some((address(), AddressKind::Own))),
            Event::Bound,
            Event::Live(true),
        ],
    );
    assert_eq!(
        course.stage(),
        &Stage::Forward {
            address: address()
        }
    );
    let course = course.advance(Event::Forwarded);
    assert!(matches!(course.stage(), Stage::List { live: true, .. }));
}

#[test]
fn what_the_switch_does_not_forward_is_unbound_again() {
    let course = run(
        begin(DynamicIngress::Allow, false),
        vec![
            Event::Located(Some((address(), AddressKind::Own))),
            Event::Bound,
            Event::Live(true),
            Event::NotForwarded {
                error: "no switch".to_string(),
            },
        ],
    );
    assert!(matches!(course.stage(), Stage::Unbind { .. }));
    let course = course.advance(Event::Unbound);
    assert_eq!(
        refusal(course),
        ExposeRefusal::NotForwarded {
            port: 3000,
            error: "no switch".to_string()
        }
    );
}

#[test]
fn a_record_that_takes_no_mapping_takes_everything_back() {
    let course = run(
        begin(DynamicIngress::Allow, false),
        vec![
            Event::Located(Some((address(), AddressKind::Own))),
            Event::Bound,
            Event::Live(true),
            Event::Forwarded,
            Event::Listed(true),
            Event::NotWritten {
                error: "disk full".to_string(),
            },
        ],
    );
    assert!(matches!(course.stage(), Stage::Delist { live: true, .. }));
    let course = course.advance(Event::Delisted);
    assert!(matches!(course.stage(), Stage::Retract { .. }));
    let course = course.advance(Event::Retracted);
    let entry = course.audit().expect("the request is settled");
    assert_eq!(entry.outcome.as_str(), "failed");
    assert_eq!(entry.reason, Some(Reason::Error("disk full")));
    assert_eq!(course.response(), Some(Err("disk full".to_string())));
}

#[test]
fn a_port_that_is_held_or_a_box_that_is_gone_is_refused() {
    let held = run(
        begin(DynamicIngress::Allow, false),
        vec![
            Event::Located(Some((address(), AddressKind::Own))),
            Event::Held {
                address: address(),
                error: "in use".to_string(),
            },
        ],
    );
    assert_eq!(
        refusal(held),
        ExposeRefusal::PortHeld {
            port: 3000,
            address: address(),
            error: "in use".to_string()
        }
    );
    let gone = run(begin(DynamicIngress::Allow, false), vec![Event::Located(None)]);
    assert_eq!(refusal(gone), ExposeRefusal::NotPublished);
}

#[test]
fn the_attached_human_decides_what_is_asked() {
    let course = begin(DynamicIngress::Ask, true);
    assert_eq!(course.stage(), &Stage::Ask);
    assert_eq!(
        course.question(),
        "min net expose asks to publish port 3000/tcp of box `web` — allow it?"
    );
    let yes = course.advance(Event::Answered(true));
    assert_eq!(yes.stage(), &Stage::Locate);
    assert_eq!(yes.decided_by(), DecidedBy::AttachedHuman);

    let no = begin(DynamicIngress::Ask, true).advance(Event::Answered(false));
    assert_eq!(no.decided_by().as_str(), "attached-human");
    assert_eq!(refusal(no), ExposeRefusal::AskDeclined);

    let silent = begin(DynamicIngress::Ask, true).advance(Event::Unanswered);
    assert_eq!(silent.decided_by(), DecidedBy::Unanswered);
    assert_eq!(refusal(silent), ExposeRefusal::AskUnanswered);

    let left = begin(DynamicIngress::Ask, true).advance(Event::NobodyAttached);
    assert_eq!(left.decided_by().as_str(), "no-one-attached");
    assert_eq!(refusal(left), ExposeRefusal::NobodyToAsk);

    let nobody = begin(DynamicIngress::Ask, false);
    assert_eq!(nobody.decided_by(), DecidedBy::NoOneAttached);
    assert_eq!(refusal(nobody), ExposeRefusal::NobodyToAsk);
}

#[test]
fn a_denied_port_is_refused_at_once() {
    let denied = begin(DynamicIngress::Deny, true);
    let entry = denied.audit().expect("the request is settled");
    assert_eq!(entry.outcome.as_str(), "refused");
    assert_eq!(
        entry.reason,
        Some(Reason::Refusal(&ExposeRefusal::Denied))
    );
    assert_eq!(refusal(denied), ExposeRefusal::Denied);
}

#[test]
fn a_published_port_is_not_published_again() {
    let mut record = record(Some(DynamicIngress::Allow));
    let course = ExposeCourse::start(&record, "web", 3000, IpProto::Udp, false);
    record.policy = with_mapping(record.policy, course.mapping());
    assert_eq!(
        evaluate(&record, 3000, IpProto::Udp),
        Err(ExposeRefusal::AlreadyPublished { port: 3000 })
    );
    let ingress = record.policy.ingress.expect("the mapping is declared");
    assert_eq!(ingress.port_mappings.len(), 1);
    assert_eq!(ingress.dynamic_allowed_range, Some((3000, 4000)));
}

#[test]
fn settings_are_spelled_for_the_audit_log() {
    assert_eq!(setting_str(Some(DynamicIngress::Allow)), "allow");
    assert_eq!(setting_str(Some(DynamicIngress::Ask)), "ask");
    assert_eq!(setting_str(Some(DynamicIngress::Deny)), "deny");
    assert_eq!(setting_str(None), "unset");
}

#[test]
fn what_is_bound_follows_from_where_the_box_is_published() {
    for kind in [AddressKind::Own, AddressKind::Shared] {
        for start in [
            begin(DynamicIngress::Allow, false),
            run(begin(DynamicIngress::Ask, true), vec![Event::Answered(true)]),
        ] {
            let course = run(start, vec![Event::Located(Some((address(), kind)))]);
            assert_eq!(
                course.stage(),
                &Stage::Bind {
                    address: address(),
                    kind,
                    admitted_by: DynamicIngress::Allow,
                }
            );
        }
    }
}
