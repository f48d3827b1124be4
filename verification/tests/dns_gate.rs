//! What names let a box reach, through real messages.

use hickory_proto::op::{Message, MessageType, OpCode, Query, ResponseCode};
use hickory_proto::rr::rdata::A;
use hickory_proto::rr::{Name, RData, Record, RecordType};

use minimald_net::addr::{Endpoint, Ipv4Addr};
use minimald_net::dns_gate::{
    normalized, DnsGate, RebindingRefusal, RefusedAnswer, Split, ADMISSION_SWEEP_AT,
    ADMISSION_WINDOW_MS, MAX_DATAGRAM,
};
use minimald_net::policy::KeyedWarnLimiter;
use minimald_net::session::{EgressPolicy, EgressRules, IpProto};
use minimald_net::wire::{DnsMessage, Question, TYPE_A, TYPE_AAAA};

fn resolver() -> Ipv4Addr {
    Ipv4Addr::new(100, 64, 0, 1)
}

fn policy_of(names: Option<Vec<String>>) -> EgressPolicy {
    EgressPolicy {
        allow_protocols: Some(vec![IpProto::Tcp]),
        allow_subnets: Some(Vec::new()),
        allow_dns_hosts: names,
        deny_subnets: None,
    }
}

fn gate_of(names: Option<Vec<String>>) -> DnsGate {
    let policy = policy_of(names);
    DnsGate::new(
        Some(&policy),
        EgressRules::from_policy(Some(&policy), resolver()),
    )
}

fn test_gate() -> DnsGate {
    gate_of(Some(vec!["github.com".to_string()]))
}

fn dns_query(name: &str, rtype: RecordType) -> Vec<u8> {
    let qname = Name::from_utf8(name).expect("query name parses");
    let mut msg = Message::query();
    msg.add_query(Query::query(qname, rtype));
    msg.to_vec().expect("query encodes")
}

fn dns_response(name: &str, answers: &[Ipv4Addr]) -> Vec<u8> {
    let qname = Name::from_utf8(name).expect("the query name parses");
    let mut response = Message::response(0x522a, OpCode::Query);
    response.metadata.message_type = MessageType::Response;
    response.add_query(Query::query(qname.clone(), RecordType::A));
    for address in answers {
        response.add_answer(Record::from_rdata(
            qname.clone(),
            60,
            RData::A(A(address.bits.into())),
        ));
    }
    response.to_vec().expect("the reply encodes")
}

fn admit_all(answers: &[Ipv4Addr], _rules: &EgressRules) -> Split {
    Split {
        admitted: answers.to_vec(),
        refused: Vec::new(),
    }
}

/// Refuses 10.9.9.9 as a denied subnet and 169.254.169.254 as infrastructure.
fn part_denied(answers: &[Ipv4Addr], _rules: &EgressRules) -> Split {
    let mut split = Split {
        admitted: Vec::new(),
        refused: Vec::new(),
    };
    for answer in answers {
        let refusal = if *answer == Ipv4Addr::new(10, 9, 9, 9) {
            Some(RebindingRefusal::DeniedSubnet)
        } else if *answer == Ipv4Addr::new(169, 254, 169, 254) {
            Some(RebindingRefusal::Infrastructure)
        } else {
            None
        };
        match refusal {
            Some(refusal) => split.refused.push(RefusedAnswer {
                address: *answer,
                refusal,
            }),
            None => split.admitted.push(*answer),
        }
    }
    split
}

#[test]
fn nodata_reply_keeps_the_id_and_leaves_the_rest_alone() {
    let gate = test_gate();

    let query = dns_query("github.com.", RecordType::HTTPS);
    let id = Message::from_vec(&query).unwrap().metadata.id;
    let reply = gate
        .intercept_query(&Endpoint::new(resolver(), 53), &query)
        .expect("an HTTPS query to the resolver is intercepted");
    let message = Message::from_vec(&reply).expect("the synthesized reply parses");
    assert_eq!(message.metadata.id, id, "the reply echoes the query's id");
    assert!(message.answers.is_empty());
    assert_eq!(
        message.queries.first().unwrap().query_type(),
        RecordType::HTTPS
    );

    assert!(
        gate.intercept_query(&Endpoint::new(Ipv4Addr::new(8, 8, 8, 8), 53), &query)
            .is_none(),
        "a query to another resolver is forwarded"
    );
    assert!(
        gate.intercept_query(&Endpoint::new(resolver(), 5353), &query)
            .is_none(),
        "a query to another port is forwarded"
    );
    assert!(
        gate.intercept_query(
            &Endpoint::new(resolver(), 53),
            &dns_query("github.com.", RecordType::A)
        )
        .is_none(),
        "an A query is forwarded"
    );
    assert!(
        gate.intercept_query(
            &Endpoint::new(resolver(), 53),
            &dns_response("github.com.", &[Ipv4Addr::new(140, 82, 121, 3)])
        )
        .is_none(),
        "a response is never intercepted as a query"
    );
}

#[test]
fn only_the_resolver_and_only_named_replies_pin() {
    let mut gate = test_gate();
    let mut limiter = KeyedWarnLimiter::new();
    let now = 1_000;

    let response = dns_response("github.com.", &[Ipv4Addr::new(198, 51, 100, 9)]);
    let seen = gate.observe_response(
        &Endpoint::new(Ipv4Addr::new(8, 8, 8, 8), 53),
        &response,
        now,
        admit_all,
        &mut limiter,
    );
    assert!(seen.is_none());
    assert!(
        !gate.admits_destination(Ipv4Addr::new(198, 51, 100, 9), now),
        "a reply from a foreign source pins nothing"
    );

    let mut questionless = Message::response(0x522b, OpCode::Query);
    questionless.metadata.message_type = MessageType::Response;
    questionless.add_answer(Record::from_rdata(
        Name::from_utf8("github.com.").unwrap(),
        60,
        RData::A(A(Ipv4Addr::new(198, 51, 100, 9).bits.into())),
    ));
    let bytes = questionless.to_vec().expect("the reply encodes");
    gate.observe_response(
        &Endpoint::new(resolver(), 53),
        &bytes,
        now,
        admit_all,
        &mut limiter,
    );
    assert!(
        !gate.admits_destination(Ipv4Addr::new(198, 51, 100, 9), now),
        "a reply with no question to match pins nothing"
    );
}

#[test]
fn a_resolution_is_let_through_for_the_window_and_nothing_else_is() {
    let mut gate = test_gate();
    let mut limiter = KeyedWarnLimiter::new();
    let t0 = 10_000;
    let first = Ipv4Addr::new(140, 82, 121, 3);
    let second = Ipv4Addr::new(140, 82, 121, 4);
    let observed = gate
        .observe_response(
            &Endpoint::new(resolver(), 53),
            &dns_response("GitHub.com.", &[first, second]),
            t0,
            admit_all,
            &mut limiter,
        )
        .expect("the resolver's reply is observed");
    assert_eq!(observed.name, "github.com");
    assert!(observed.refused.is_empty());
    for pinned in [first, second] {
        assert!(gate.admits_destination(pinned, t0));
        assert!(gate.admits_destination(pinned, t0 + ADMISSION_WINDOW_MS - 1));
        assert!(!gate.admits_destination(pinned, t0 + ADMISSION_WINDOW_MS));
    }
    assert!(!gate.admits_destination(Ipv4Addr::new(198, 51, 100, 7), t0));
}

#[test]
fn refused_answers_are_not_let_through_and_are_warned_of_once_a_minute() {
    let mut gate = gate_of(Some(vec!["example.com".to_string()]));
    let mut limiter = KeyedWarnLimiter::new();
    let clean = Ipv4Addr::new(140, 82, 121, 3);
    let denied = Ipv4Addr::new(10, 9, 9, 9);
    let metadata = Ipv4Addr::new(169, 254, 169, 254);
    let response = dns_response("example.com.", &[clean, denied, metadata]);
    let from = Endpoint::new(resolver(), 53);
    let observed = gate
        .observe_response(&from, &response, 5, part_denied, &mut limiter)
        .expect("the resolver's reply is observed");
    let rules: Vec<&str> = observed.refused.iter().map(|r| r.refusal.rule()).collect();
    assert_eq!(
        rules,
        vec!["dns-rebinding-denied-subnet", "dns-rebinding-infrastructure"]
    );
    assert_eq!(observed.refused[0].address, denied);
    assert!(gate.admits_destination(clean, 6));
    assert!(!gate.admits_destination(denied, 6));
    assert!(!gate.admits_destination(metadata, 6));

    let again = gate
        .observe_response(&from, &response, 6, part_denied, &mut limiter)
        .expect("the second reply is observed too");
    assert!(again.refused.is_empty(), "within the minute nothing is warned of");
}

#[test]
fn empty_record_types_are_answered_without_records() {
    let gate = test_gate();
    for rtype in [RecordType::AAAA, RecordType::HTTPS, RecordType::SVCB] {
        let query = dns_query("github.com.", rtype);
        let reply = gate
            .intercept_query(&Endpoint::new(resolver(), 53), &query)
            .expect("the lookup is answered here");
        let reply = Message::from_vec(&reply).expect("the reply is a DNS message");
        assert_eq!(reply.metadata.message_type, MessageType::Response);
        assert_eq!(reply.metadata.response_code, ResponseCode::NoError);
        assert!(reply.answers.is_empty());
        assert!(reply.authorities.is_empty());
        assert_eq!(
            reply
                .queries
                .first()
                .map(|q| (q.name().to_string(), q.query_type())),
            Some(("github.com.".to_string(), rtype))
        );
    }
}

#[test]
fn names_that_were_not_declared_let_nothing_through() {
    let mut limiter = KeyedWarnLimiter::new();
    let address = Ipv4Addr::new(203, 0, 113, 20);
    let response = dns_response("anything.example.", &[address]);
    let from = Endpoint::new(resolver(), 53);

    let mut nameless = gate_of(None);
    assert!(nameless
        .observe_response(&from, &response, 1, admit_all, &mut limiter)
        .is_none());
    assert!(!nameless.admits_destination(address, 1));
    assert!(!nameless.allows_name("anything.example"));

    let mut named = test_gate();
    assert!(named
        .observe_response(&from, &response, 1, admit_all, &mut limiter)
        .is_none());
    assert!(!named.admits_destination(address, 1));

    let mut undeclared = DnsGate::new(None, EgressRules::from_policy(None, resolver()));
    assert!(undeclared
        .observe_response(&from, &response, 1, admit_all, &mut limiter)
        .is_none());
}

#[test]
fn what_is_no_message_is_forwarded_and_pins_nothing() {
    let mut gate = test_gate();
    let mut limiter = KeyedWarnLimiter::new();
    let at = Endpoint::new(resolver(), 53);
    assert!(gate.intercept_query(&at, &[1, 2, 3]).is_none());
    assert!(gate
        .observe_response(&at, &[1, 2, 3], 1, admit_all, &mut limiter)
        .is_none());
    let long = vec![0u8; MAX_DATAGRAM + 1];
    assert!(gate.intercept_query(&at, &long).is_none());
}

#[test]
fn a_message_of_another_operation_is_forwarded() {
    let gate = test_gate();
    let at = Endpoint::new(resolver(), 53);
    let qname = Name::from_utf8("github.com.").expect("query name parses");
    for rtype in [RecordType::AAAA, RecordType::HTTPS, RecordType::SVCB] {
        let mut message = Message::query();
        message.add_query(Query::query(qname.clone(), rtype));
        for (op_code, answered) in [
            (OpCode::Query, true),
            (OpCode::Status, false),
            (OpCode::Notify, false),
            (OpCode::Update, false),
        ] {
            message.metadata.op_code = op_code;
            let datagram = message.to_vec().expect("query encodes");
            assert_eq!(gate.intercept_query(&at, &datagram).is_some(), answered);
        }
    }
}

#[test]
fn decoded_messages_are_decided_by_what_they_hold() {
    let gate = test_gate();
    let at = Endpoint::new(resolver(), 53);
    let mut message = DnsMessage {
        id: 7,
        is_query: true,
        op_code: 0,
        recursion_desired: true,
        checking_disabled: false,
        questions: vec![Question {
            name: "github.com.".to_string(),
            record_type: TYPE_AAAA,
        }],
        answers: Vec::new(),
    };
    let reply = gate.intercept(at, &message).expect("answered here");
    assert_eq!((reply.id, reply.response_code, reply.echoed), (7, 0, 1));
    assert!(reply.recursion_desired && reply.answer.is_none());
    message.op_code = 4;
    assert!(
        gate.intercept(at, &message).is_none(),
        "only a standard query is answered here"
    );
    message.op_code = 0;
    message.questions[0].record_type = TYPE_A;
    assert!(gate.intercept(at, &message).is_none());

    message.is_query = false;
    message.answers = vec![Some(Ipv4Addr::new(1, 2, 3, 4)), None];
    assert_eq!(
        gate.resolution(at, &message),
        Some(("github.com".to_string(), vec![Ipv4Addr::new(1, 2, 3, 4)]))
    );
    message.questions.clear();
    assert!(gate.resolution(at, &message).is_none());
}

#[test]
fn ended_admissions_are_swept_when_there_are_many() {
    let mut gate = test_gate();
    let old = Ipv4Addr::new(9, 9, 9, 9);
    gate.admit_addresses(&[old], 0);
    let later = ADMISSION_WINDOW_MS;
    let many: Vec<Ipv4Addr> = (0..ADMISSION_SWEEP_AT as u32)
        .map(|i| Ipv4Addr { bits: 0x0b00_0000 + i })
        .collect();
    gate.admit_addresses(&many, later);
    assert!(!gate.admits_destination(old, later));
    assert!(gate.admits_destination(many[0], later));
    assert!(gate.admits_destination(many[ADMISSION_SWEEP_AT - 1], later));
}

#[test]
fn names_are_matched_in_lower_case_without_the_root_dot() {
    assert_eq!(normalized("GitHub.COM."), "github.com");
    assert_eq!(normalized("github.com"), "github.com");
    assert_eq!(normalized("."), "");
    assert_eq!(normalized(""), "");
}

#[test]
fn an_admission_lasts_at_the_end_of_the_clock() {
    let mut gate = test_gate();
    let at = Ipv4Addr::new(9, 9, 9, 9);
    gate.admit_addresses(&[at], u64::MAX);
    assert!(gate.admits_destination(at, u64::MAX));
    gate.admit_addresses(&[at], 5);
    assert!(gate.admits_destination(at, 4 + ADMISSION_WINDOW_MS));
    assert!(!gate.admits_destination(at, 5 + ADMISSION_WINDOW_MS));
}
