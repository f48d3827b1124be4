//! The box-zone answerer, through real messages.

use std::collections::BTreeMap;

use hickory_proto::op::{Message, MessageType, OpCode, Query, ResponseCode};
use hickory_proto::rr::rdata::A;
use hickory_proto::rr::{Name, RData, RecordType};

use minimald_net::addr::{IpAddr, Ipv4Addr, SocketAddr};
use minimald_net::answerer::{in_zone, zone_soa, AnswerScope, Zone, ZoneAnswerer, ANSWERER_PORT};
use minimald_net::dns::{
    is_host_answerable, HostnameRegistry, ZoneRow, ANSWER_TTL_SECS, DEFAULT_HOST_ID,
};
use minimald_net::proxy::{BindFailure, ErrorKind};
use minimald_net::session::SessionId;
use minimald_net::subnet::SwitchSubnet;
use minimald_net::wire::{AddressRecord, DnsMessage, Question, NOT_IMP, NX_DOMAIN, REFUSED, TYPE_A};

fn encode_query(name: &str, rtype: RecordType) -> Vec<u8> {
    let qname = Name::from_utf8(name).expect("query name parses");
    let mut msg = Message::query();
    msg.add_query(Query::query(qname, rtype));
    msg.to_vec().expect("query encodes")
}

/// A box `web` on the host's network and a box `api` attached at a switch lease.
fn registry(on_switch: bool) -> HostnameRegistry {
    let mut reg = HostnameRegistry::new(DEFAULT_HOST_ID, on_switch);
    reg.register_host_net(SessionId::nil(), "web");
    reg.report_own_address(
        SessionId::nil(),
        "api",
        Ipv4Addr::new(100, 64, 0, 7),
        BTreeMap::new(),
    );
    reg
}

fn microvm() -> AnswerScope {
    AnswerScope::Microvm {
        subnet: SwitchSubnet::default(),
    }
}

fn source(a: u8, b: u8, c: u8, d: u8) -> SocketAddr {
    SocketAddr {
        ip: IpAddr::V4(Ipv4Addr::new(a, b, c, d)),
        port: 5353,
    }
}

fn on_host() -> SocketAddr {
    source(127, 0, 0, 1)
}

fn off_host() -> SocketAddr {
    source(203, 0, 113, 7)
}

fn on_fabric() -> SocketAddr {
    source(100, 64, 0, 7)
}

fn exchange<T: Zone>(
    answ: &ZoneAnswerer<'_, T>,
    peer: SocketAddr,
    datagram: &[u8],
) -> Option<Message> {
    let reply = answ.respond(peer, datagram)?;
    Some(Message::from_vec(&reply).expect("the answerer's reply decodes"))
}

#[test]
fn min_internal_zone_not_served_off_host() {
    let reg = registry(false);
    let native = ZoneAnswerer::new(&reg, AnswerScope::Native);
    let lookup = encode_query("web.min.internal.", RecordType::A);

    let reply = exchange(&native, on_host(), &lookup).expect("an on-host lookup is answered");
    assert_eq!(reply.metadata.response_code, ResponseCode::NoError);
    assert!(
        !reply.answers.is_empty(),
        "the held name answers its address"
    );
    assert!(
        exchange(&native, off_host(), &lookup).is_none(),
        "an off-host lookup must get no reply at all"
    );
    assert!(!AnswerScope::Native.allows(off_host()));
    assert_eq!(
        native.off_host_lookup(off_host(), &lookup),
        Some(("web.min.internal".to_string(), TYPE_A)),
        "the refusal must name the lookup"
    );
    assert_eq!(native.off_host_lookup(on_host(), &lookup), None);
    assert_eq!(native.off_host_lookup(off_host(), &[1, 2, 3]), None);

    let switch_reg = registry(true);
    let vm = ZoneAnswerer::new(&switch_reg, microvm());
    assert!(
        exchange(&vm, on_fabric(), &lookup).is_some(),
        "a fabric peer is on this machine"
    );
    assert!(
        exchange(&vm, off_host(), &lookup).is_none(),
        "a source off the fabric is off-host"
    );
}

#[test]
fn min_internal_absent_from_certs_and_audit() {
    let reg = registry(false);
    let answ = ZoneAnswerer::new(&reg, AnswerScope::Native);
    for rtype in [
        RecordType::AAAA,
        RecordType::CERT,
        RecordType::TLSA,
        RecordType::HTTPS,
        RecordType::SVCB,
        RecordType::TXT,
        RecordType::NULL,
        RecordType::ANY,
    ] {
        let reply = exchange(&answ, on_host(), &encode_query("web.min.internal.", rtype))
            .expect("a held name answers every type");
        assert_eq!(
            reply.metadata.response_code,
            ResponseCode::NoError,
            "a held name is NODATA for {rtype:?}, never NXDOMAIN"
        );
        assert!(
            reply.answers.is_empty(),
            "NODATA carries no {rtype:?} record"
        );
        for record in reply.answers.iter().chain(&reply.authorities) {
            assert!(
                matches!(&record.data, RData::SOA(_)),
                "only the zone's own SOA appears, got {:?} for {rtype:?}",
                record.record_type()
            );
        }
    }

    let mut rows = registry(false).zone_table(&[]);
    let row = rows.pop().expect("the registered box has a row");
    let ZoneRow {
        name,
        address,
        owner,
    } = row;
    assert_eq!(name, "web.min.internal");
    assert_eq!(
        address.map(|a| a.to_text()),
        Some("127.0.0.1".to_string()),
        "a row carries only the name, its address, and its owner"
    );
    assert_eq!(owner, "web");
}

#[test]
fn non_a_in_zone_query_is_nodata() {
    let reg = registry(false);
    let native = ZoneAnswerer::new(&reg, AnswerScope::Native);
    for rtype in [
        RecordType::AAAA,
        RecordType::HTTPS,
        RecordType::SVCB,
        RecordType::TXT,
    ] {
        let reply = exchange(
            &native,
            on_host(),
            &encode_query("web.min.internal.", rtype),
        )
        .expect("a held name answers every type");
        assert_eq!(
            reply.metadata.response_code,
            ResponseCode::NoError,
            "NODATA for {rtype:?}"
        );
        assert!(
            reply.metadata.authoritative,
            "the answerer is authoritative for the zone"
        );
        assert!(reply.answers.is_empty(), "NODATA carries no records");
        assert_eq!(
            reply.authorities.len(),
            1,
            "a negative carries the zone's SOA"
        );
    }

    let switch_reg = registry(true);
    let vm = ZoneAnswerer::new(&switch_reg, microvm());
    let reply = exchange(
        &vm,
        on_host(),
        &encode_query("api.min.internal.", RecordType::A),
    )
    .expect("a held name is answered");
    assert_eq!(
        reply.metadata.response_code,
        ResponseCode::NoError,
        "held-without-A is NODATA, never NXDOMAIN"
    );
    assert!(reply.answers.is_empty());

    let reply = exchange(
        &native,
        on_host(),
        &encode_query("min.internal.", RecordType::A),
    )
    .expect("the apex is answered");
    assert_eq!(reply.metadata.response_code, ResponseCode::NoError);
    assert!(reply.answers.is_empty());
}

#[test]
fn negative_answers_carry_zone_authority() {
    let reg = registry(false);
    let native = ZoneAnswerer::new(&reg, AnswerScope::Native);
    let negatives = [
        ("web.min.internal.", RecordType::AAAA),
        ("min.internal.", RecordType::A),
        ("ghost.min.internal.", RecordType::A),
    ];
    for (name, rtype) in negatives {
        let reply = exchange(&native, on_host(), &encode_query(name, rtype))
            .expect("an in-zone lookup is answered");
        let [soa] = &reply.authorities[..] else {
            panic!("the negative for {name} must carry exactly the zone's SOA")
        };
        assert_eq!(soa.record_type(), RecordType::SOA, "for {name}");
        assert_eq!(
            soa.name,
            Name::from_utf8("min.internal.").unwrap(),
            "the SOA's owner is the zone apex"
        );
        let RData::SOA(soa) = &soa.data else {
            panic!("the authority record is the SOA")
        };
        assert_eq!(
            soa.minimum, ANSWER_TTL_SECS,
            "the negative TTL must be cacheable: {name}"
        );
    }

    let switch_reg = registry(true);
    let vm = ZoneAnswerer::new(&switch_reg, microvm());
    let reply = exchange(
        &vm,
        on_host(),
        &encode_query("api.min.internal.", RecordType::A),
    )
    .expect("a held name is answered");
    assert_eq!(reply.authorities.len(), 1, "NODATA carries the zone's SOA");
}

#[test]
fn unknown_in_zone_name_is_nxdomain() {
    let reg = registry(false);
    let native = ZoneAnswerer::new(&reg, AnswerScope::Native);

    let reply = exchange(
        &native,
        on_host(),
        &encode_query("ghost.min.internal.", RecordType::A),
    )
    .expect("an in-zone name is answered");
    assert_eq!(reply.metadata.response_code, ResponseCode::NXDomain);
    assert!(
        reply.metadata.authoritative,
        "in-zone answers are authoritative"
    );
    assert!(reply.answers.is_empty(), "NXDOMAIN carries no answers");
    assert_eq!(
        reply.authorities.len(),
        1,
        "NXDOMAIN carries the zone's SOA"
    );

    let reply = exchange(
        &native,
        on_host(),
        &encode_query("ghost.local.min.internal.", RecordType::A),
    )
    .expect("the legacy form is answered");
    assert_eq!(reply.metadata.response_code, ResponseCode::NXDomain);

    let mut shared = registry(false);
    shared.deregister("web");
    let answ = ZoneAnswerer::new(&shared, AnswerScope::Native);
    let reply = exchange(
        &answ,
        on_host(),
        &encode_query("web.min.internal.", RecordType::A),
    )
    .expect("the zone still answers");
    assert_eq!(
        reply.metadata.response_code,
        ResponseCode::NXDomain,
        "a withdrawn name is held by nothing"
    );

    let reply = exchange(
        &native,
        on_host(),
        &encode_query("example.com.", RecordType::A),
    )
    .expect("the answerer refuses rather than ignoring");
    assert_eq!(reply.metadata.response_code, ResponseCode::Refused);
    assert!(!reply.metadata.authoritative, "not our zone");
    assert!(
        reply.authorities.is_empty(),
        "the zone's SOA certifies our negatives only"
    );
}

#[test]
fn zone_answers_carry_short_ttl() {
    let reg = registry(false);
    let native = ZoneAnswerer::new(&reg, AnswerScope::Native);
    for (name, rtype) in [
        ("web.min.internal.", RecordType::A),
        ("web.min.internal.", RecordType::HTTPS),
        ("ghost.min.internal.", RecordType::A),
    ] {
        let reply = exchange(&native, on_host(), &encode_query(name, rtype))
            .expect("an in-zone lookup is answered");
        for record in reply.answers.iter().chain(&reply.authorities) {
            assert!(
                record.ttl <= ANSWER_TTL_SECS,
                "{} in the reply for {name} {rtype:?} carries a {}s TTL",
                record.name,
                record.ttl
            );
        }
    }

    let reply = exchange(
        &native,
        on_host(),
        &encode_query("web.min.internal.", RecordType::A),
    )
    .expect("the held name answers");
    assert_eq!(reply.answers[0].ttl, ANSWER_TTL_SECS);
}

#[test]
fn host_zone_a_answers_confined_to_local_addresses() {
    let node = [Ipv4Addr::new(192, 168, 1, 20)];
    assert!(
        is_host_answerable(Ipv4Addr::localhost(), &node),
        "127.0.0.1 answers"
    );
    assert!(
        is_host_answerable(Ipv4Addr::new(127, 64, 0, 1), &node),
        "the reserved local range answers"
    );
    assert!(
        !is_host_answerable(Ipv4Addr::new(127, 64, 1, 0), &node),
        "the reserved range is a /24; past it, nothing answers"
    );
    assert!(
        is_host_answerable(node[0], &node),
        "one of the node's own addresses answers"
    );
    assert!(
        !is_host_answerable(Ipv4Addr::new(100, 64, 0, 7), &[]),
        "a box's switch lease does not answer the host"
    );
    assert!(
        !is_host_answerable(Ipv4Addr::new(10, 9, 9, 9), &[]),
        "an address another host holds does not answer"
    );

    let reg = registry(false);
    let native = ZoneAnswerer::new(&reg, AnswerScope::Native);
    let reply = exchange(
        &native,
        on_host(),
        &encode_query("web.min.internal.", RecordType::A),
    )
    .expect("the held name answers");
    let [answer] = &reply.answers[..] else {
        panic!("an A lookup on a held-with-A name answers once")
    };
    assert_eq!(answer.record_type(), RecordType::A);
    let RData::A(A(addr)) = &answer.data else {
        panic!("the answer is an A record")
    };
    assert_eq!(addr.octets(), [127, 0, 0, 1]);

    let reply = exchange(
        &native,
        on_host(),
        &encode_query("api.min.internal.", RecordType::A),
    )
    .expect("the published-loopback name answers");
    let RData::A(A(addr)) = &reply.answers[0].data else {
        panic!("the answer is an A record")
    };
    assert_eq!(addr.octets(), [127, 0, 0, 1]);

    let switch_reg = registry(true);
    let vm = ZoneAnswerer::new(&switch_reg, microvm());
    let reply = exchange(
        &vm,
        on_host(),
        &encode_query("api.min.internal.", RecordType::A),
    )
    .expect("the held name is answered");
    assert_eq!(reply.metadata.response_code, ResponseCode::NoError);
    assert!(
        reply.answers.is_empty(),
        "a box's switch lease must not leak to the host"
    );
    let api = switch_reg
        .zone_table(&[])
        .into_iter()
        .find(|row| row.name == "api.min.internal")
        .expect("a held name has a zone-table row");
    assert_eq!(api.address, None, "held-without-A, not absent");
    assert_eq!(api.owner, "api");
}

#[test]
fn reply_keeps_the_query_s_id_and_flags_and_echoes_its_question() {
    let reg = registry(false);
    let native = ZoneAnswerer::new(&reg, AnswerScope::Native);
    let mut query = Message::query();
    query.metadata.id = 0x4d2;
    query.metadata.recursion_desired = true;
    query.metadata.checking_disabled = true;
    query.add_query(Query::query(
        Name::from_utf8("WeB.min.internal.").unwrap(),
        RecordType::A,
    ));
    let bytes = query.to_vec().unwrap();
    let reply = exchange(&native, on_host(), &bytes).expect("a held name answers");
    assert_eq!(reply.metadata.id, 0x4d2);
    assert_eq!(reply.metadata.message_type, MessageType::Response);
    assert!(reply.metadata.recursion_desired);
    assert!(reply.metadata.checking_disabled);
    assert_eq!(reply.queries, query.queries, "the question is echoed as asked");
    assert_eq!(
        reply.answers.len(),
        1,
        "the name is matched whatever its case"
    );
    assert_eq!(reply.answers[0].name, query.queries[0].name().clone());
}

#[test]
fn operations_other_than_a_query_are_not_implemented() {
    let reg = registry(false);
    let native = ZoneAnswerer::new(&reg, AnswerScope::Native);
    let mut update = Message::new(7, MessageType::Query, OpCode::Update);
    update.add_query(Query::query(
        Name::from_utf8("web.min.internal.").unwrap(),
        RecordType::SOA,
    ));
    let bytes = update.to_vec().unwrap();
    let reply = exchange(&native, on_host(), &bytes).expect("an operation is answered");
    assert_eq!(reply.metadata.id, 7);
    assert_eq!(reply.metadata.response_code, ResponseCode::NotImp);
    assert!(reply.queries.is_empty());
    assert!(reply.answers.is_empty());
    assert!(reply.authorities.is_empty());
}

#[test]
fn what_is_no_query_gets_nothing() {
    let reg = registry(false);
    let native = ZoneAnswerer::new(&reg, AnswerScope::Native);
    assert!(native.respond(on_host(), &[1, 2, 3]).is_none());

    let mut response = Message::response(3, OpCode::Query);
    response.add_query(Query::query(
        Name::from_utf8("web.min.internal.").unwrap(),
        RecordType::A,
    ));
    let bytes = response.to_vec().unwrap();
    assert!(native.respond(on_host(), &bytes).is_none());

    let empty = Message::query().to_vec().unwrap();
    assert!(native.respond(on_host(), &empty).is_none());
}

#[test]
fn answers_are_decided_on_what_a_message_holds() {
    let reg = registry(false);
    let native = ZoneAnswerer::new(&reg, AnswerScope::Native);
    let mut message = DnsMessage {
        id: 9,
        is_query: true,
        op_code: 0,
        recursion_desired: true,
        checking_disabled: false,
        questions: vec![Question {
            name: "web.min.internal.".to_string(),
            record_type: TYPE_A,
        }],
        answers: Vec::new(),
    };
    let response = native.answer(on_host(), &message).unwrap();
    assert_eq!(
        response.reply.answer,
        Some(AddressRecord {
            address: Ipv4Addr::localhost(),
            ttl: 15
        })
    );
    assert!(response.authority.is_none());
    assert!(response.reply.authoritative);
    assert_eq!((response.reply.id, response.reply.echoed), (9, 1));
    assert!(native.answer(off_host(), &message).is_none());

    message.questions[0].name = "ghost.min.internal.".to_string();
    let response = native.answer(on_host(), &message).unwrap();
    assert_eq!(response.reply.response_code, NX_DOMAIN);
    assert_eq!(response.authority, Some(zone_soa()));

    message.questions[0].name = "example.com.".to_string();
    let response = native.answer(on_host(), &message).unwrap();
    assert_eq!(response.reply.response_code, REFUSED);
    assert!(!response.reply.authoritative);

    message.op_code = 5;
    let response = native.answer(on_host(), &message).unwrap();
    assert_eq!(response.reply.response_code, NOT_IMP);
    assert_eq!(response.reply.echoed, 0);

    assert_eq!(
        native.off_host_question(off_host(), &message),
        Some(("example.com".to_string(), TYPE_A))
    );
    message.questions[0].name = "rootless".to_string();
    assert_eq!(
        native.off_host_question(off_host(), &message),
        Some(("rootless".to_string(), TYPE_A))
    );
    message.is_query = false;
    assert!(native.answer(on_host(), &message).is_none());
    assert_eq!(native.off_host_question(off_host(), &message), None);
}

#[test]
fn zone_holds_the_apex_and_what_is_below_it() {
    assert_eq!(in_zone("min.internal."), Some("min.internal".to_string()));
    assert_eq!(
        in_zone("web.min.internal."),
        Some("web.min.internal".to_string())
    );
    assert_eq!(in_zone("web.min.internal"), None);
    assert_eq!(in_zone("admin.internal."), None);
    assert_eq!(in_zone("example.com."), None);
    assert_eq!(in_zone(""), None);
    let soa = zone_soa();
    assert_eq!(soa.owner, "min.internal.");
    assert_eq!(soa.mname, "ns.min.internal.");
    assert_eq!(soa.rname, "hostmaster.min.internal.");
    assert_eq!((soa.serial, soa.ttl, soa.minimum), (1, 15, 15));
    assert_eq!((soa.refresh, soa.retry, soa.expire), (15, 15, 15));
}

#[test]
fn a_busy_answerer_port_names_its_holder() {
    let failure = BindFailure::for_answerer(
        "127.0.0.1:7656",
        ANSWERER_PORT,
        "Address already in use",
        ErrorKind::AddrInUse,
    );
    assert_eq!(
        failure.reason,
        "the daemon could not bind 127.0.0.1:7656: Address already in use"
    );
    assert_eq!(
        failure.remedy,
        "free the listen address; `lsof -nP -iUDP:7656` names the holder"
    );
}
