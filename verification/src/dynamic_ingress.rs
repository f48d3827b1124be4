//! Publishing a port of a box while the box exists: the decision against the
//! box's setting, and the course from the decision to the published port, each
//! step undone when a later one fails.

use vstd::prelude::*;

use crate::addr::Ipv4Addr;
use crate::dns::Hostname;
use crate::publish::AddressKind;
use crate::session::{
    DynamicIngress, IngressPolicy, IpProto, NetworkMode, PortMapping, SessionId, SessionPolicy,
};
use crate::text;

verus! {

// ---------------------------------------------------------------------------
// The decision
// ---------------------------------------------------------------------------

/// What the record of a box says that a request is decided against.
#[derive(Debug, PartialEq, Eq)]
pub struct Record {
    pub id: SessionId,
    pub network: NetworkMode,
    pub policy: SessionPolicy,
}

/// What a request is decided, short of a refusal.
#[derive(Clone, Copy, Debug, PartialEq, Eq, Structural)]
pub enum Decision {
    /// Publish the port.
    Allow,
    /// The attached human decides.
    Ask,
}

/// Why a request is refused.
#[derive(Debug, PartialEq, Eq)]
pub enum ExposeRefusal {
    /// The box has no address of its own to publish a port at.
    NoOwnAddress { mode: NetworkMode },
    /// The forwarder carries no such transport.
    UnsupportedProtocol { proto: IpProto },
    /// Privileged ports are never published.
    PrivilegedPort { port: u16 },
    /// The policy maps the port already.
    AlreadyPublished { port: u16 },
    /// The port is outside of the box's range.
    OutOfRange { port: u16, lo: u16, hi: u16 },
    /// The box's setting denies every request.
    Denied,
    /// The box declares no setting.
    Unset,
    /// The setting asks, and nobody is attached to be asked.
    NobodyToAsk,
    /// The attached human declined.
    AskDeclined,
    /// The attached human gave no answer.
    AskUnanswered,
    /// The box is published nowhere.
    NotPublished,
    /// The port is taken at the box's address.
    PortHeld { port: u16, address: Ipv4Addr, error: String },
    /// The switch did not take the forward to the running box.
    NotForwarded { port: u16, error: String },
}

/// The lowest port that is not privileged.
pub const FIRST_UNPRIVILEGED_PORT: u16 = 1024;

/// Whether a policy maps a port, on either side of a mapping.
pub open spec fn maps(policy: SessionPolicy, port: u16) -> bool {
    policy.ingress matches Some(ingress) && exists|i: int|
        0 <= i < ingress.port_mappings@.len() && ((#[trigger] ingress.port_mappings@[i]).internal_port
            == port || ingress.port_mappings@[i].external_port == port)
}

/// The range that a policy keeps dynamic ports within, if it declares one.
pub open spec fn allowed_range(policy: SessionPolicy) -> Option<(u16, u16)> {
    match policy.ingress {
        Some(ingress) => ingress.dynamic_allowed_range,
        None => None,
    }
}

/// What a request to publish a port is decided: first what the box can publish
/// at all, next its range, and its setting last.
pub open spec fn ruling(
    network: NetworkMode,
    policy: SessionPolicy,
    port: u16,
    proto: IpProto,
) -> Result<Decision, ExposeRefusal> {
    if network != NetworkMode::OwnIp {
        Err(ExposeRefusal::NoOwnAddress { mode: network })
    } else if proto != IpProto::Tcp && proto != IpProto::Udp {
        Err(ExposeRefusal::UnsupportedProtocol { proto })
    } else if port < FIRST_UNPRIVILEGED_PORT {
        Err(ExposeRefusal::PrivilegedPort { port })
    } else if maps(policy, port) {
        Err(ExposeRefusal::AlreadyPublished { port })
    } else if allowed_range(policy) matches Some((lo, hi)) && !(lo <= port <= hi) {
        let (lo, hi) = allowed_range(policy)->0;
        Err(ExposeRefusal::OutOfRange { port, lo, hi })
    } else {
        match policy.dynamic_ingress {
            Some(DynamicIngress::Allow) => Ok(Decision::Allow),
            Some(DynamicIngress::Ask) => Ok(Decision::Ask),
            Some(DynamicIngress::Deny) => Err(ExposeRefusal::Denied),
            None => Err(ExposeRefusal::Unset),
        }
    }
}

/// Whether an ingress declaration maps a port, on either side of a mapping.
fn maps_port(ingress: &IngressPolicy, port: u16) -> (r: bool)
    ensures
        r == (exists|i: int|
            0 <= i < ingress.port_mappings@.len() && ((
            #[trigger] ingress.port_mappings@[i]).internal_port == port
                || ingress.port_mappings@[i].external_port == port)),
{
    let mappings: &Vec<PortMapping> = &ingress.port_mappings;
    let mut i: usize = 0;
    while i < mappings.len()
        invariant
            i <= mappings.len(),
            mappings@ == ingress.port_mappings@,
            forall|j: int|
                0 <= j < i ==> (#[trigger] mappings@[j]).internal_port != port
                    && mappings@[j].external_port != port,
        decreases mappings.len() - i,
    {
        if mappings[i].internal_port == port || mappings[i].external_port == port {
            assert(ingress.port_mappings@[i as int].internal_port == port
                || ingress.port_mappings@[i as int].external_port == port);
            return true;
        }
        i = i + 1;
    }
    false
}

/// Decides a request to publish `port` of the box that `record` describes.
pub fn evaluate(record: &Record, port: u16, proto: IpProto) -> (r: Result<Decision, ExposeRefusal>)
    ensures
        r == ruling(record.network, record.policy, port, proto),
{
    match record.network {
        NetworkMode::OwnIp => {},
        mode => {
            return Err(ExposeRefusal::NoOwnAddress { mode });
        },
    }
    match proto {
        IpProto::Tcp | IpProto::Udp => {},
        proto => {
            return Err(ExposeRefusal::UnsupportedProtocol { proto });
        },
    }
    if port < FIRST_UNPRIVILEGED_PORT {
        return Err(ExposeRefusal::PrivilegedPort { port });
    }
    if let Some(ingress) = &record.policy.ingress {
        if maps_port(ingress, port) {
            return Err(ExposeRefusal::AlreadyPublished { port });
        }
        if let Some((lo, hi)) = ingress.dynamic_allowed_range {
            if port < lo || hi < port {
                return Err(ExposeRefusal::OutOfRange { port, lo, hi });
            }
        }
    }
    match record.policy.dynamic_ingress {
        Some(DynamicIngress::Allow) => Ok(Decision::Allow),
        Some(DynamicIngress::Ask) => Ok(Decision::Ask),
        Some(DynamicIngress::Deny) => Err(ExposeRefusal::Denied),
        None => Err(ExposeRefusal::Unset),
    }
}

/// The mapping that a request publishes: the port, untranslated.
pub open spec fn mapping_of(port: u16, proto: IpProto) -> PortMapping {
    PortMapping { external_port: port, internal_port: port, proto }
}

/// The mappings that a policy declares.
pub open spec fn mappings_of(policy: SessionPolicy) -> Seq<PortMapping> {
    match policy.ingress {
        Some(ingress) => ingress.port_mappings@,
        None => Seq::empty(),
    }
}

/// The policy with one more mapping, behind those it has.
pub fn with_mapping(policy: SessionPolicy, mapping: PortMapping) -> (r: SessionPolicy)
    ensures
        r.egress == policy.egress,
        r.dynamic_ingress == policy.dynamic_ingress,
        r.ingress is Some,
        mappings_of(r) == mappings_of(policy).push(mapping),
        allowed_range(r) == allowed_range(policy),
{
    let SessionPolicy { egress, ingress, dynamic_ingress } = policy;
    let ingress: IngressPolicy = match ingress {
        Some(declared) => {
            let IngressPolicy { mut port_mappings, dynamic_allowed_range } = declared;
            port_mappings.push(mapping);
            IngressPolicy { port_mappings, dynamic_allowed_range }
        },
        None => {
            let mut port_mappings: Vec<PortMapping> = Vec::new();
            port_mappings.push(mapping);
            IngressPolicy { port_mappings, dynamic_allowed_range: None }
        },
    };
    SessionPolicy { egress, ingress: Some(ingress), dynamic_ingress }
}

/// Whatever a box's setting says, only an unprivileged port within its range,
/// over a transport the forwarder carries, of a box with an address of its own,
/// is published or asked about.
pub proof fn law_setting_decides_only_publishable_ports(
    network: NetworkMode,
    policy: SessionPolicy,
    port: u16,
    proto: IpProto,
)
    requires
        ruling(network, policy, port, proto) is Ok,
    ensures
        network == NetworkMode::OwnIp,
        proto == IpProto::Tcp || proto == IpProto::Udp,
        port >= FIRST_UNPRIVILEGED_PORT,
        !maps(policy, port),
        allowed_range(policy) matches Some((lo, hi)) ==> lo <= port <= hi,
        policy.dynamic_ingress is Some,
        policy.dynamic_ingress != Some(DynamicIngress::Deny),
{
}

/// A request is decided by the box's setting alone wherever the port can be
/// published: the box has an address of its own, the transport is TCP or UDP, the
/// port is 1024 or higher, no mapping has it on either side, and it lies within
/// the range, or there is none. Other mappings do not matter.
pub proof fn law_publishable_port_is_ruled_by_the_setting(
    network: NetworkMode,
    policy: SessionPolicy,
    port: u16,
    proto: IpProto,
)
    requires
        network == NetworkMode::OwnIp,
        proto == IpProto::Tcp || proto == IpProto::Udp,
        port >= 1024,
        policy.ingress matches Some(ingress) ==> {
            &&& forall|i: int|
                0 <= i < ingress.port_mappings@.len() ==> {
                    let m = #[trigger] ingress.port_mappings@[i];
                    m.internal_port != port && m.external_port != port
                }
            &&& ingress.dynamic_allowed_range matches Some((lo, hi)) ==> lo <= port && port <= hi
        },
    ensures
        policy.dynamic_ingress == Some(DynamicIngress::Allow) ==> ruling(
            network,
            policy,
            port,
            proto,
        ) == Ok::<Decision, ExposeRefusal>(Decision::Allow),
        policy.dynamic_ingress == Some(DynamicIngress::Ask) ==> ruling(
            network,
            policy,
            port,
            proto,
        ) == Ok::<Decision, ExposeRefusal>(Decision::Ask),
        policy.dynamic_ingress == Some(DynamicIngress::Deny) ==> ruling(
            network,
            policy,
            port,
            proto,
        ) == Err::<Decision, ExposeRefusal>(ExposeRefusal::Denied),
        policy.dynamic_ingress is None ==> ruling(network, policy, port, proto) == Err::<
            Decision,
            ExposeRefusal,
        >(ExposeRefusal::Unset),
{
}

/// A refusal names what is wrong, and what it names is so. Where several things
/// are wrong, the first of these is named: the box's network, the transport, the
/// port's privilege, the mapping that has the port, the range, the setting.
pub proof fn law_refusal_names_what_is_wrong(
    network: NetworkMode,
    policy: SessionPolicy,
    port: u16,
    proto: IpProto,
)
    ensures
        network != NetworkMode::OwnIp <==> ruling(network, policy, port, proto) == Err::<
            Decision,
            ExposeRefusal,
        >(ExposeRefusal::NoOwnAddress { mode: network }),
        ruling(network, policy, port, proto) == Err::<Decision, ExposeRefusal>(
            ExposeRefusal::UnsupportedProtocol { proto },
        ) <==> network == NetworkMode::OwnIp && proto == IpProto::Icmp,
        ruling(network, policy, port, proto) == Err::<Decision, ExposeRefusal>(
            ExposeRefusal::PrivilegedPort { port },
        ) <==> network == NetworkMode::OwnIp && proto != IpProto::Icmp && port < 1024,
        ruling(network, policy, port, proto) == Err::<Decision, ExposeRefusal>(
            ExposeRefusal::AlreadyPublished { port },
        ) <==> network == NetworkMode::OwnIp && proto != IpProto::Icmp && port >= 1024
            && policy.ingress is Some && exists|i: int|
            0 <= i < (policy.ingress->0).port_mappings@.len() && {
                let m = #[trigger] (policy.ingress->0).port_mappings@[i];
                m.internal_port == port || m.external_port == port
            },
        ruling(network, policy, port, proto) matches Err(ExposeRefusal::OutOfRange {
            port: named,
            lo,
            hi,
        }) ==> {
            &&& named == port
            &&& policy.ingress is Some
            &&& (policy.ingress->0).dynamic_allowed_range == Some((lo, hi))
            &&& (port < lo || hi < port)
        },
        ruling(network, policy, port, proto) == Err::<Decision, ExposeRefusal>(
            ExposeRefusal::Denied,
        ) ==> policy.dynamic_ingress == Some(DynamicIngress::Deny),
        ruling(network, policy, port, proto) == Err::<Decision, ExposeRefusal>(ExposeRefusal::Unset)
            ==> policy.dynamic_ingress is None,
        ruling(network, policy, port, proto) matches Ok(decision) ==> decision == (
        if policy.dynamic_ingress == Some(DynamicIngress::Allow) {
            Decision::Allow
        } else {
            Decision::Ask
        }),
{
    if let Some(ingress) = policy.ingress {
        if maps(policy, port) {
            let i = choose|i: int|
                0 <= i < ingress.port_mappings@.len() && ((#[trigger] ingress.port_mappings@[i]).internal_port
                    == port || ingress.port_mappings@[i].external_port == port);
            assert(ingress.port_mappings@[i].internal_port == port
                || ingress.port_mappings@[i].external_port == port);
        }
        if exists|i: int|
            0 <= i < ingress.port_mappings@.len() && {
                let m = #[trigger] ingress.port_mappings@[i];
                m.internal_port == port || m.external_port == port
            } {
            assert(maps(policy, port));
        }
    }
}

/// A port is not mapped twice: once a policy has taken the mapping of a request,
/// the same request is refused as published already.
pub proof fn law_published_port_is_not_published_again(
    network: NetworkMode,
    before: SessionPolicy,
    after: SessionPolicy,
    port: u16,
    proto: IpProto,
)
    requires
        ruling(network, before, port, proto) is Ok,
        after.ingress is Some,
        mappings_of(after) == mappings_of(before).push(mapping_of(port, proto)),
    ensures
        ruling(network, after, port, proto) == Err::<Decision, ExposeRefusal>(
            ExposeRefusal::AlreadyPublished { port },
        ),
{
    let n = mappings_of(before).len() as int;
    assert(after.ingress->0.port_mappings@[n] == mapping_of(port, proto));
}

// ---------------------------------------------------------------------------
// The course of a request
// ---------------------------------------------------------------------------

/// Who settled a request.
#[derive(Clone, Copy, Debug, PartialEq, Eq, Structural)]
pub enum DecidedBy {
    /// The box's own policy.
    Policy,
    /// The human attached to the box.
    AttachedHuman,
    /// Nobody was attached to be asked.
    NoOneAttached,
    /// The human was asked and gave no answer.
    Unanswered,
}

impl DecidedBy {
    /// The spelling in the audit log.
    pub open spec fn name(self) -> Seq<char> {
        match self {
            DecidedBy::Policy => "policy"@,
            DecidedBy::AttachedHuman => "attached-human"@,
            DecidedBy::NoOneAttached => "no-one-attached"@,
            DecidedBy::Unanswered => "unanswered"@,
        }
    }

    /// The spelling in the audit log.
    pub fn as_str(self) -> (r: &'static str)
        ensures
            r@ == self.name(),
    {
        match self {
            DecidedBy::Policy => "policy",
            DecidedBy::AttachedHuman => "attached-human",
            DecidedBy::NoOneAttached => "no-one-attached",
            DecidedBy::Unanswered => "unanswered",
        }
    }
}

/// What became of a request.
#[derive(Debug, PartialEq, Eq)]
pub enum Ending {
    /// The port answers at the box's address.
    Published { address: Ipv4Addr },
    /// The request was refused.
    Refused { reason: ExposeRefusal },
    /// The request was permitted, and the record did not take the mapping.
    Failed { error: String },
}

/// Where a request stands: what is to be done next.
#[derive(Debug, PartialEq, Eq)]
pub enum Stage {
    /// Put the question to the attached human.
    Ask,
    /// Find the address that the box is published at.
    Locate,
    /// Bind the port at the box's address. The kind of the address decides how
    /// the port is answered. The forwarder is marked as admitted by an allowance,
    /// a human's as well as the policy's.
    Bind { address: Ipv4Addr, kind: AddressKind, admitted_by: DynamicIngress },
    /// Find out whether the box is running on the switch.
    FindLive { address: Ipv4Addr },
    /// Forward the port on the switch and let it in at the running box.
    Forward { address: Ipv4Addr },
    /// List the bound port in the box's publication.
    List { address: Ipv4Addr, live: bool },
    /// Write the mapping into the box's policy.
    Write { address: Ipv4Addr, live: bool },
    /// Unbind the port.
    Unbind { ending: Ending },
    /// Take the port out of the box's publication, which unbinds it.
    Delist { ending: Ending, live: bool },
    /// Take the forward and the running box's ingress back.
    Retract { ending: Ending },
    /// Nothing is left to do.
    Done { ending: Ending },
}

/// What came of the last step.
#[derive(Debug, PartialEq, Eq)]
pub enum Event {
    /// The human answered yes or no.
    Answered(bool),
    /// Nobody is attached to answer.
    NobodyAttached,
    /// The question stayed unanswered.
    Unanswered,
    /// The box is published at this address of this kind, or nowhere.
    Located(Option<(Ipv4Addr, AddressKind)>),
    /// The port is bound.
    Bound,
    /// The port could not be bound at the address.
    Held { address: Ipv4Addr, error: String },
    /// Whether the box is running on the switch.
    Live(bool),
    /// The running box takes connections on the port.
    Forwarded,
    /// The switch refused the forward, or could not be reached.
    NotForwarded { error: String },
    /// Whether the publication took the port. One that was withdrawn meanwhile
    /// does not, and the port is unbound again.
    Listed(bool),
    /// The policy took the mapping.
    Written,
    /// The policy did not take the mapping.
    NotWritten { error: String },
    /// The port is unbound.
    Unbound,
    /// The port is out of the publication and unbound.
    Delisted,
    /// The running box and the switch let the port go.
    Retracted,
}

/// What a request holds of a port.
#[derive(Clone, Copy, Debug, PartialEq, Eq, Structural)]
pub struct Holding {
    /// The port is bound at the box's address.
    pub bound: bool,
    /// The switch forwards the port and the running box lets it in.
    pub forwarded: bool,
    /// The port is listed in the box's publication.
    pub listed: bool,
    /// The policy maps the port.
    pub written: bool,
}

/// Nothing of the port.
pub open spec fn nothing() -> Holding {
    Holding { bound: false, forwarded: false, listed: false, written: false }
}

/// What a request holds of its port at a stage.
pub open spec fn held_at(stage: Stage) -> Holding {
    match stage {
        Stage::Ask | Stage::Locate | Stage::Bind { .. } => nothing(),
        Stage::FindLive { .. } | Stage::Forward { .. } | Stage::Unbind { .. } => Holding {
            bound: true,
            ..nothing()
        },
        Stage::List { live, .. } => Holding { bound: true, forwarded: live, ..nothing() },
        Stage::Write { live, .. } => Holding {
            bound: true,
            forwarded: live,
            listed: true,
            written: false,
        },
        Stage::Delist { live, .. } => Holding {
            bound: true,
            forwarded: live,
            listed: true,
            written: false,
        },
        Stage::Retract { .. } => Holding { forwarded: true, ..nothing() },
        Stage::Done { .. } => nothing(),
    }
}

/// What an event leaves of the port, given what was held before it.
pub open spec fn held_after(before: Holding, event: Event) -> Holding {
    match event {
        Event::Bound => Holding { bound: true, ..before },
        Event::Forwarded => Holding { forwarded: true, ..before },
        Event::Listed(true) => Holding { listed: true, ..before },
        Event::Listed(false) => Holding { bound: false, ..before },
        Event::Written => Holding { written: true, ..before },
        Event::Unbound => Holding { bound: false, ..before },
        Event::Delisted => Holding { bound: false, listed: false, ..before },
        Event::Retracted => Holding { forwarded: false, ..before },
        _ => before,
    }
}

/// Whether an event is an outcome of the step that a stage asks for.
pub open spec fn fits(stage: Stage, event: Event) -> bool {
    match stage {
        Stage::Ask => event is Answered || event is NobodyAttached || event is Unanswered,
        Stage::Locate => event is Located,
        Stage::Bind { .. } => event is Bound || event is Held,
        Stage::FindLive { .. } => event is Live,
        Stage::Forward { .. } => event is Forwarded || event is NotForwarded,
        Stage::List { .. } => event is Listed,
        Stage::Write { .. } => event is Written || event is NotWritten,
        Stage::Unbind { .. } => event is Unbound,
        Stage::Delist { .. } => event is Delisted,
        Stage::Retract { .. } => event is Retracted,
        Stage::Done { .. } => false,
    }
}

/// The end of a request that is refused with nothing to undo.
pub open spec fn refused(reason: ExposeRefusal) -> Stage {
    Stage::Done { ending: Ending::Refused { reason } }
}

/// The end, once a running box has let the port go.
pub open spec fn ended(ending: Ending, live: bool) -> Stage {
    if live {
        Stage::Retract { ending }
    } else {
        Stage::Done { ending }
    }
}

/// Where a request goes from a stage. An event that is no outcome of the step
/// leaves the request where it is.
pub open spec fn after(stage: Stage, event: Event, port: u16) -> Stage {
    match (stage, event) {
        (Stage::Ask, Event::Answered(true)) => Stage::Locate,
        (Stage::Ask, Event::Answered(false)) => refused(ExposeRefusal::AskDeclined),
        (Stage::Ask, Event::NobodyAttached) => refused(ExposeRefusal::NobodyToAsk),
        (Stage::Ask, Event::Unanswered) => refused(ExposeRefusal::AskUnanswered),
        (Stage::Locate, Event::Located(Some((address, kind)))) => Stage::Bind {
            address,
            kind,
            admitted_by: DynamicIngress::Allow,
        },
        (Stage::Locate, Event::Located(None)) => refused(ExposeRefusal::NotPublished),
        (Stage::Bind { address, .. }, Event::Bound) => Stage::FindLive { address },
        (Stage::Bind { .. }, Event::Held { address, error }) => refused(
            ExposeRefusal::PortHeld { port, address, error },
        ),
        (Stage::FindLive { address }, Event::Live(true)) => Stage::Forward { address },
        (Stage::FindLive { address }, Event::Live(false)) => Stage::List { address, live: false },
        (Stage::Forward { address }, Event::Forwarded) => Stage::List { address, live: true },
        (Stage::Forward { .. }, Event::NotForwarded { error }) => Stage::Unbind {
            ending: Ending::Refused { reason: ExposeRefusal::NotForwarded { port, error } },
        },
        (Stage::List { address, live }, Event::Listed(true)) => Stage::Write { address, live },
        (Stage::List { live, .. }, Event::Listed(false)) => ended(
            Ending::Refused { reason: ExposeRefusal::NotPublished },
            live,
        ),
        (Stage::Write { address, .. }, Event::Written) => Stage::Done {
            ending: Ending::Published { address },
        },
        (Stage::Write { live, .. }, Event::NotWritten { error }) => Stage::Delist {
            ending: Ending::Failed { error },
            live,
        },
        (Stage::Unbind { ending }, Event::Unbound) => Stage::Done { ending },
        (Stage::Delist { ending, live }, Event::Delisted) => ended(ending, live),
        (Stage::Retract { ending }, Event::Retracted) => Stage::Done { ending },
        _ => stage,
    }
}

/// Who settled a request, once an event has come at a stage.
pub open spec fn settled_by(by: DecidedBy, stage: Stage, event: Event) -> DecidedBy {
    match (stage, event) {
        (Stage::Ask, Event::Answered(_)) => DecidedBy::AttachedHuman,
        (Stage::Ask, Event::NobodyAttached) => DecidedBy::NoOneAttached,
        (Stage::Ask, Event::Unanswered) => DecidedBy::Unanswered,
        _ => by,
    }
}

/// Where a request begins, by what it was decided and whether there is anybody
/// to ask.
pub open spec fn first_stage(ruling: Result<Decision, ExposeRefusal>, asker: bool) -> Stage {
    match ruling {
        Ok(Decision::Allow) => Stage::Locate,
        Ok(Decision::Ask) => if asker {
            Stage::Ask
        } else {
            refused(ExposeRefusal::NobodyToAsk)
        },
        Err(reason) => refused(reason),
    }
}

/// One request to publish a port, from its decision to its end.
pub struct ExposeCourse {
    port: u16,
    proto: IpProto,
    session_id: SessionId,
    session_name: String,
    setting: Option<DynamicIngress>,
    decided_by: DecidedBy,
    stage: Stage,
}

/// A request in course, mathematically.
#[verifier::ext_equal]
pub struct CourseView {
    pub port: u16,
    pub proto: IpProto,
    pub session_id: SessionId,
    pub session_name: Seq<char>,
    pub setting: Option<DynamicIngress>,
    pub decided_by: DecidedBy,
    pub stage: Stage,
}

impl View for ExposeCourse {
    type V = CourseView;

    closed spec fn view(&self) -> CourseView {
        CourseView {
            port: self.port,
            proto: self.proto,
            session_id: self.session_id,
            session_name: self.session_name@,
            setting: self.setting,
            decided_by: self.decided_by,
            stage: self.stage,
        }
    }
}

/// What the attached human is asked.
pub open spec fn question_text(port: u16, proto: IpProto, session_name: Seq<char>) -> Seq<char> {
    "min net expose asks to publish port "@ + text::decimal(port as nat) + "/"@ + proto.name()
        + " of box `"@ + session_name + "` — allow it?"@
}

/// A setting as the audit log spells it.
pub open spec fn setting_name(setting: Option<DynamicIngress>) -> Seq<char> {
    match setting {
        Some(s) => s.name(),
        None => "unset"@,
    }
}

/// A setting as the audit log spells it.
pub fn setting_str(setting: Option<DynamicIngress>) -> (r: &'static str)
    ensures
        r@ == setting_name(setting),
{
    match setting {
        Some(s) => s.as_str(),
        None => "unset",
    }
}

/// The class of an ending, in the audit log.
#[derive(Clone, Copy, Debug, PartialEq, Eq, Structural)]
pub enum Outcome {
    Published,
    Refused,
    Failed,
}

impl Outcome {
    /// The spelling in the audit log.
    pub open spec fn name(self) -> Seq<char> {
        match self {
            Outcome::Published => "published"@,
            Outcome::Refused => "refused"@,
            Outcome::Failed => "failed"@,
        }
    }

    /// The spelling in the audit log.
    pub fn as_str(self) -> (r: &'static str)
        ensures
            r@ == self.name(),
    {
        match self {
            Outcome::Published => "published",
            Outcome::Refused => "refused",
            Outcome::Failed => "failed",
        }
    }
}

/// Why a request published nothing.
#[derive(Debug, PartialEq, Eq)]
pub enum Reason<'a> {
    Refusal(&'a ExposeRefusal),
    Error(&'a str),
}

/// One decision, as the audit log keeps it.
#[derive(Debug, PartialEq, Eq)]
pub struct IngressDecision<'a> {
    pub session_id: SessionId,
    pub box_name: &'a str,
    pub port: u16,
    pub proto: IpProto,
    pub setting: &'static str,
    pub outcome: Outcome,
    pub decided_by: DecidedBy,
    pub reason: Option<Reason<'a>>,
}

/// What a request is answered with.
#[derive(Debug, PartialEq, Eq)]
pub enum ExposeResponse {
    Published { hostname: String, address: Ipv4Addr, mapping: PortMapping },
    Refused { reason: ExposeRefusal },
}

impl ExposeCourse {
    /// Decides a request for the box that `record` describes, named
    /// `session_name`; `asker` says whether the box has a terminal to ask at.
    pub fn start(record: &Record, session_name: &str, port: u16, proto: IpProto, asker: bool) -> (r: Self)
        ensures
            r@ == (CourseView {
                port,
                proto,
                session_id: record.id,
                session_name: session_name@,
                setting: record.policy.dynamic_ingress,
                decided_by: if ruling(record.network, record.policy, port, proto) == Ok::<
                    Decision,
                    ExposeRefusal,
                >(Decision::Ask) && !asker {
                    DecidedBy::NoOneAttached
                } else {
                    DecidedBy::Policy
                },
                stage: first_stage(ruling(record.network, record.policy, port, proto), asker),
            }),
    {
        let mut decided_by: DecidedBy = DecidedBy::Policy;
        let stage: Stage = match evaluate(record, port, proto) {
            Ok(Decision::Allow) => Stage::Locate,
            Ok(Decision::Ask) => {
                if asker {
                    Stage::Ask
                } else {
                    decided_by = DecidedBy::NoOneAttached;
                    Stage::Done { ending: Ending::Refused { reason: ExposeRefusal::NobodyToAsk } }
                }
            },
            Err(reason) => Stage::Done { ending: Ending::Refused { reason } },
        };
        ExposeCourse {
            port,
            proto,
            session_id: record.id,
            session_name: session_name.to_owned(),
            setting: record.policy.dynamic_ingress,
            decided_by,
            stage,
        }
    }

    /// What is to be done next.
    pub fn stage(&self) -> (r: &Stage)
        ensures
            *r == self@.stage,
    {
        &self.stage
    }

    /// Who settled the request, as far as it is settled.
    pub fn decided_by(&self) -> (r: DecidedBy)
        ensures
            r == self@.decided_by,
    {
        self.decided_by
    }

    /// The question for the attached human.
    pub fn question(&self) -> (r: String)
        ensures
            r@ == question_text(self@.port, self@.proto, self@.session_name),
    {
        let mut out: String = "min net expose asks to publish port ".to_owned();
        text::push_decimal(&mut out, self.port as u64);
        out.append("/");
        out.append(self.proto.as_str());
        out.append(" of box `");
        out.append(self.session_name.as_str());
        out.append("` — allow it?");
        assert(out@ =~= question_text(self@.port, self@.proto, self@.session_name));
        out
    }

    /// The mapping that the request publishes.
    pub fn mapping(&self) -> (r: PortMapping)
        ensures
            r == mapping_of(self@.port, self@.proto),
    {
        PortMapping { external_port: self.port, internal_port: self.port, proto: self.proto }
    }

    /// Takes the outcome of the last step.
    pub fn advance(self, event: Event) -> (r: Self)
        ensures
            r@ == (CourseView {
                stage: after(self@.stage, event, self@.port),
                decided_by: settled_by(self@.decided_by, self@.stage, event),
                ..self@
            }),
    {
        let ExposeCourse { port, proto, session_id, session_name, setting, decided_by, stage } = self;
        let mut by: DecidedBy = decided_by;
        let stage: Stage = match (stage, event) {
            (Stage::Ask, Event::Answered(yes)) => {
                by = DecidedBy::AttachedHuman;
                if yes {
                    Stage::Locate
                } else {
                    Stage::Done { ending: Ending::Refused { reason: ExposeRefusal::AskDeclined } }
                }
            },
            (Stage::Ask, Event::NobodyAttached) => {
                by = DecidedBy::NoOneAttached;
                Stage::Done { ending: Ending::Refused { reason: ExposeRefusal::NobodyToAsk } }
            },
            (Stage::Ask, Event::Unanswered) => {
                by = DecidedBy::Unanswered;
                Stage::Done { ending: Ending::Refused { reason: ExposeRefusal::AskUnanswered } }
            },
            (Stage::Locate, Event::Located(Some((address, kind)))) => Stage::Bind {
                address,
                kind,
                admitted_by: DynamicIngress::Allow,
            },
            (Stage::Locate, Event::Located(None)) => Stage::Done {
                ending: Ending::Refused { reason: ExposeRefusal::NotPublished },
            },
            (Stage::Bind { address, .. }, Event::Bound) => Stage::FindLive { address },
            (Stage::Bind { .. }, Event::Held { address, error }) => Stage::Done {
                ending: Ending::Refused { reason: ExposeRefusal::PortHeld { port, address, error } },
            },
            (Stage::FindLive { address }, Event::Live(live)) => {
                if live {
                    Stage::Forward { address }
                } else {
                    Stage::List { address, live: false }
                }
            },
            (Stage::Forward { address }, Event::Forwarded) => Stage::List { address, live: true },
            (Stage::Forward { .. }, Event::NotForwarded { error }) => Stage::Unbind {
                ending: Ending::Refused { reason: ExposeRefusal::NotForwarded { port, error } },
            },
            (Stage::List { address, live }, Event::Listed(listed)) => {
                let ending: Ending = Ending::Refused { reason: ExposeRefusal::NotPublished };
                if listed {
                    Stage::Write { address, live }
                } else if live {
                    Stage::Retract { ending }
                } else {
                    Stage::Done { ending }
                }
            },
            (Stage::Write { address, .. }, Event::Written) => Stage::Done {
                ending: Ending::Published { address },
            },
            (Stage::Write { live, .. }, Event::NotWritten { error }) => Stage::Delist {
                ending: Ending::Failed { error },
                live,
            },
            (Stage::Unbind { ending }, Event::Unbound) => Stage::Done { ending },
            (Stage::Delist { ending, live }, Event::Delisted) => {
                if live {
                    Stage::Retract { ending }
                } else {
                    Stage::Done { ending }
                }
            },
            (Stage::Retract { ending }, Event::Retracted) => Stage::Done { ending },
            (stage, _) => stage,
        };
        ExposeCourse { port, proto, session_id, session_name, setting, decided_by: by, stage }
    }

    /// The entry of the request in the audit log, once it has ended.
    pub fn audit(&self) -> (r: Option<IngressDecision<'_>>)
        ensures
            r is Some == (self@.stage is Done),
            r matches Some(entry) ==> {
                &&& entry.session_id == self@.session_id
                &&& entry.box_name@ == self@.session_name
                &&& entry.port == self@.port
                &&& entry.proto == self@.proto
                &&& entry.setting@ == setting_name(self@.setting)
                &&& entry.decided_by == self@.decided_by
                &&& match self@.stage->Done_ending {
                    Ending::Published { .. } => entry.outcome == Outcome::Published
                        && entry.reason is None,
                    Ending::Refused { reason } => entry.outcome == Outcome::Refused && entry.reason
                        == Some(Reason::Refusal(&reason)),
                    Ending::Failed { error } => entry.outcome == Outcome::Failed && (entry.reason matches Some(
                        Reason::Error(told),
                    ) && told@ == error@),
                }
            },
    {
        let (outcome, reason): (Outcome, Option<Reason<'_>>) = match &self.stage {
            Stage::Done { ending } => match ending {
                Ending::Published { .. } => (Outcome::Published, None),
                Ending::Refused { reason } => (Outcome::Refused, Some(Reason::Refusal(reason))),
                Ending::Failed { error } => (Outcome::Failed, Some(Reason::Error(error.as_str()))),
            },
            _ => {
                return None;
            },
        };
        Some(
            IngressDecision {
                session_id: self.session_id,
                box_name: self.session_name.as_str(),
                port: self.port,
                proto: self.proto,
                setting: setting_str(self.setting),
                outcome,
                decided_by: self.decided_by,
                reason,
            },
        )
    }

    /// The answer to the request: the publication, the refusal, or the error of
    /// the record that did not take the mapping. `None` while the request is in
    /// course.
    pub fn response(self) -> (r: Option<Result<ExposeResponse, String>>)
        ensures
            match self@.stage {
                Stage::Done { ending: Ending::Published { address } } => {
                    &&& r matches Some(Ok(ExposeResponse::Published { hostname, address: at, mapping }))
                    &&& hostname@ == crate::dns::hostname_of(self@.session_name)
                    &&& at == address
                    &&& mapping == mapping_of(self@.port, self@.proto)
                },
                Stage::Done { ending: Ending::Refused { reason } } => r == Some(
                    Ok::<ExposeResponse, String>(ExposeResponse::Refused { reason }),
                ),
                Stage::Done { ending: Ending::Failed { error } } => r == Some(
                    Err::<ExposeResponse, String>(error),
                ),
                _ => r is None,
            },
    {
        let mapping: PortMapping = self.mapping();
        match self.stage {
            Stage::Done { ending } => match ending {
                Ending::Published { address } => {
                    let Hostname(hostname) = Hostname::for_ptask(self.session_name.as_str());
                    Some(Ok(ExposeResponse::Published { hostname, address, mapping }))
                },
                Ending::Refused { reason } => Some(Ok(ExposeResponse::Refused { reason })),
                Ending::Failed { error } => Some(Err(error)),
            },
            _ => None,
        }
    }
}

// ---------------------------------------------------------------------------
// Laws of the course
// ---------------------------------------------------------------------------

/// The stages of a request after each of a run of events, from the first on.
pub open spec fn run(stage: Stage, events: Seq<Event>, port: u16) -> Stage
    decreases events.len(),
{
    if events.len() == 0 {
        stage
    } else {
        after(run(stage, events.drop_last(), port), events.last(), port)
    }
}

/// Whether each event of a run is an outcome of the step before it.
pub open spec fn runs(stage: Stage, events: Seq<Event>, port: u16) -> bool
    decreases events.len(),
{
    events.len() == 0 || (runs(stage, events.drop_last(), port) && fits(
        run(stage, events.drop_last(), port),
        events.last(),
    ))
}

/// What a run of events leaves of the port.
pub open spec fn held_by_run(events: Seq<Event>) -> Holding
    decreases events.len(),
{
    if events.len() == 0 {
        nothing()
    } else {
        held_after(held_by_run(events.drop_last()), events.last())
    }
}

/// Whether a stage ends, or will end once everything is undone, with the port
/// not published.
pub open spec fn unpublished(ending: Ending) -> bool {
    !(ending is Published)
}

/// No stage undoes towards a published port.
pub open spec fn consistent(stage: Stage) -> bool {
    match stage {
        Stage::Unbind { ending } | Stage::Delist { ending, .. } | Stage::Retract { ending } => {
            unpublished(ending)
        },
        _ => true,
    }
}

proof fn lemma_run(ruling: Result<Decision, ExposeRefusal>, asker: bool, events: Seq<Event>, port: u16)
    requires
        runs(first_stage(ruling, asker), events, port),
    ensures
        consistent(run(first_stage(ruling, asker), events, port)),
        match run(first_stage(ruling, asker), events, port) {
            Stage::Done { ending: Ending::Published { .. } } => {
                let held = held_by_run(events);
                &&& held.bound && held.listed && held.written
                &&& held.forwarded == events.contains(Event::Live(true))
            },
            stage => held_by_run(events) == held_at(stage),
        },
        match run(first_stage(ruling, asker), events, port) {
            Stage::Ask | Stage::Locate | Stage::Bind { .. } | Stage::FindLive { .. } => {
                !events.contains(Event::Live(true))
            },
            Stage::Forward { .. } => events.contains(Event::Live(true)),
            Stage::List { live, .. } | Stage::Write { live, .. } => {
                live == events.contains(Event::Live(true))
            },
            _ => true,
        },
    decreases events.len(),
{
    if events.len() > 0 {
        let before = events.drop_last();
        lemma_run(ruling, asker, before, port);
        let live = Event::Live(true);
        assert(events.contains(live) == (before.contains(live) || events.last() == live)) by {
            if before.contains(live) {
                let i = choose|i: int| 0 <= i < before.len() && before[i] == live;
                assert(events[i] == live);
            }
            if events.last() == live {
                assert(events[events.len() - 1] == live);
            }
            if events.contains(live) {
                let i = choose|i: int| 0 <= i < events.len() && events[i] == live;
                if i < before.len() {
                    assert(before[i] == live);
                }
            }
        }
    }
}

/// A request that is refused or fails leaves nothing of the port: not bound, not
/// forwarded, not listed and not written, whatever happened on its way.
pub proof fn law_no_partial_mapping(
    ruling: Result<Decision, ExposeRefusal>,
    asker: bool,
    events: Seq<Event>,
    port: u16,
)
    requires
        runs(first_stage(ruling, asker), events, port),
        run(first_stage(ruling, asker), events, port) matches Stage::Done { ending }
            && !(ending is Published),
    ensures
        held_by_run(events) == nothing(),
{
    lemma_run(ruling, asker, events, port);
}

/// A request that ends published has bound the port, listed it and written it
/// into the policy, and where the box was running, it was forwarded as well.
pub proof fn law_published_port_is_held(
    ruling: Result<Decision, ExposeRefusal>,
    asker: bool,
    events: Seq<Event>,
    port: u16,
)
    requires
        runs(first_stage(ruling, asker), events, port),
        run(first_stage(ruling, asker), events, port) matches Stage::Done { ending }
            && ending is Published,
    ensures
        held_by_run(events).bound,
        held_by_run(events).listed,
        held_by_run(events).written,
        held_by_run(events).forwarded == events.contains(Event::Live(true)),
        ruling is Ok,
{
    lemma_run(ruling, asker, events, port);
    lemma_refused_stays(ruling, asker, events, port);
}

/// A request that was refused at once stays refused.
proof fn lemma_refused_stays(
    ruling: Result<Decision, ExposeRefusal>,
    asker: bool,
    events: Seq<Event>,
    port: u16,
)
    requires
        runs(first_stage(ruling, asker), events, port),
    ensures
        first_stage(ruling, asker) is Done ==> events.len() == 0,
    decreases events.len(),
{
    if events.len() > 0 {
        lemma_refused_stays(ruling, asker, events.drop_last(), port);
        if events.drop_last().len() == 0 {
            assert(run(first_stage(ruling, asker), events.drop_last(), port) == first_stage(
                ruling,
                asker,
            ));
        }
    }
}

/// A box whose setting asks publishes a port only after a human has said yes: a
/// question that nobody saw or answered is never an allowance.
pub proof fn law_ask_publishes_only_on_yes(asker: bool, events: Seq<Event>, port: u16)
    requires
        runs(first_stage(Ok(Decision::Ask), asker), events, port),
        run(first_stage(Ok(Decision::Ask), asker), events, port) matches Stage::Done { ending }
            && ending is Published,
    ensures
        asker,
        events.len() > 0,
        events[0] == Event::Answered(true),
    decreases events.len(),
{
    lemma_refused_stays(Ok(Decision::Ask), asker, events, port);
    lemma_first_answer(events, port);
}

/// A question that was not answered with yes ends the request.
proof fn lemma_first_answer(events: Seq<Event>, port: u16)
    requires
        runs(Stage::Ask, events, port),
        events.len() > 0,
    ensures
        events[0] != Event::Answered(true) ==> events.len() == 1 && (run(Stage::Ask, events, port)
            matches Stage::Done { ending } && !(ending is Published)),
    decreases events.len(),
{
    let before = events.drop_last();
    if before.len() > 0 {
        lemma_first_answer(before, port);
        assert(events[0] == before[0]);
    } else {
        assert(run(Stage::Ask, before, port) == Stage::Ask);
        assert(events.last() == events[0]);
    }
}

/// A port that could be published but for the range is refused by the range,
/// whatever the setting says.
pub proof fn law_range_is_named_before_the_setting(
    policy: SessionPolicy,
    ingress: IngressPolicy,
    port: u16,
    proto: IpProto,
    lo: u16,
    hi: u16,
)
    requires
        proto == IpProto::Tcp || proto == IpProto::Udp,
        port >= 1024,
        policy.ingress == Some(ingress),
        ingress.dynamic_allowed_range == Some((lo, hi)),
        port < lo || hi < port,
        forall|i: int|
            0 <= i < ingress.port_mappings@.len() ==> {
                let m = #[trigger] ingress.port_mappings@[i];
                m.internal_port != port && m.external_port != port
            },
    ensures
        ruling(NetworkMode::OwnIp, policy, port, proto) == Err::<Decision, ExposeRefusal>(
            ExposeRefusal::OutOfRange { port, lo, hi },
        ),
{
}

/// A request that is permitted and meets no obstacle is located, bound, forwarded
/// where the box is running, listed and written, in this order, and ends
/// published at the address that was found.
pub proof fn law_permitted_request_is_carried_out(
    address: Ipv4Addr,
    kind: AddressKind,
    live: bool,
    port: u16,
)
    ensures
        ({
            let located = after(
                first_stage(Ok(Decision::Allow), false),
                Event::Located(Some((address, kind))),
                port,
            );
            let found = after(after(located, Event::Bound, port), Event::Live(live), port);
            let ready = if live {
                after(found, Event::Forwarded, port)
            } else {
                found
            };
            let listed = after(ready, Event::Listed(true), port);
            &&& located == (Stage::Bind { address, kind, admitted_by: DynamicIngress::Allow })
            &&& live ==> found == (Stage::Forward { address })
            &&& ready == (Stage::List { address, live })
            &&& listed == (Stage::Write { address, live })
            &&& after(listed, Event::Written, port) == (Stage::Done {
                ending: Ending::Published { address },
            })
        }),
        after(Stage::Ask, Event::Answered(true), port) == first_stage(Ok(Decision::Allow), true),
        first_stage(Ok(Decision::Ask), true) == Stage::Ask,
{
}

/// An obstacle ends a request with its own reason, once everything that was done
/// before it is undone: the binding, the listing, and what the running box let in.
pub proof fn law_obstacle_is_told_and_all_is_undone(
    address: Ipv4Addr,
    other: Ipv4Addr,
    kind: AddressKind,
    admitted_by: DynamicIngress,
    live: bool,
    error: String,
    port: u16,
)
    ensures
        after(Stage::Locate, Event::Located(None), port) == (Stage::Done {
            ending: Ending::Refused { reason: ExposeRefusal::NotPublished },
        }),
        after(
            Stage::Bind { address, kind, admitted_by },
            Event::Held { address: other, error },
            port,
        ) == (Stage::Done {
            ending: Ending::Refused {
                reason: ExposeRefusal::PortHeld { port, address: other, error },
            },
        }),
        after(
            after(Stage::Forward { address }, Event::NotForwarded { error }, port),
            Event::Unbound,
            port,
        ) == (Stage::Done {
            ending: Ending::Refused { reason: ExposeRefusal::NotForwarded { port, error } },
        }),
        after(Stage::Forward { address }, Event::NotForwarded { error }, port) is Unbind,
        ({
            let dropped = after(Stage::List { address, live }, Event::Listed(false), port);
            let done = Stage::Done {
                ending: Ending::Refused { reason: ExposeRefusal::NotPublished },
            };
            &&& live ==> dropped is Retract && after(dropped, Event::Retracted, port) == done
            &&& !live ==> dropped == done
        }),
        ({
            let unwritten = after(Stage::Write { address, live }, Event::NotWritten { error }, port);
            let delisted = after(unwritten, Event::Delisted, port);
            let done = Stage::Done { ending: Ending::Failed { error } };
            &&& unwritten is Delist
            &&& live ==> delisted is Retract && after(delisted, Event::Retracted, port) == done
            &&& !live ==> delisted == done
        }),
{
}

/// A question is settled by whoever answered it, or by there being nobody; every
/// answer but a yes refuses, each in its own words. Nothing later changes who
/// settled it.
pub proof fn law_question_is_settled_once(by: DecidedBy, yes: bool, stage: Stage, event: Event, port: u16)
    ensures
        settled_by(by, Stage::Ask, Event::Answered(yes)) == DecidedBy::AttachedHuman,
        settled_by(by, Stage::Ask, Event::NobodyAttached) == DecidedBy::NoOneAttached,
        settled_by(by, Stage::Ask, Event::Unanswered) == DecidedBy::Unanswered,
        stage != Stage::Ask ==> settled_by(by, stage, event) == by,
        after(Stage::Ask, Event::Answered(false), port) == (Stage::Done {
            ending: Ending::Refused { reason: ExposeRefusal::AskDeclined },
        }),
        after(Stage::Ask, Event::NobodyAttached, port) == (Stage::Done {
            ending: Ending::Refused { reason: ExposeRefusal::NobodyToAsk },
        }),
        after(Stage::Ask, Event::Unanswered, port) == (Stage::Done {
            ending: Ending::Refused { reason: ExposeRefusal::AskUnanswered },
        }),
        first_stage(Ok(Decision::Ask), false) == (Stage::Done {
            ending: Ending::Refused { reason: ExposeRefusal::NobodyToAsk },
        }),
        stage is Done ==> after(stage, event, port) == stage,
{
}

/// The question names the port, its transport and the box, and the audit log
/// tells a box without a setting from one with any.
pub proof fn law_question_names_the_port_and_the_box(
    port: u16,
    proto: IpProto,
    name: Seq<char>,
    setting: Option<DynamicIngress>,
)
    ensures
        exists|front: Seq<char>, back: Seq<char>|
            #![trigger front + text::decimal(port as nat) + back]
            question_text(port, proto, name) == front + text::decimal(port as nat) + back,
        setting is None ==> setting_name(setting) == "unset"@,
        setting matches Some(s) ==> setting_name(setting) == s.name(),
{
    let front = "min net expose asks to publish port "@;
    let back = "/"@ + proto.name() + " of box `"@ + name + "` — allow it?"@;
    assert(question_text(port, proto, name) =~= front + text::decimal(port as nat) + back);
}

/// A request publishes its port untranslated, over its own transport; what a
/// policy maps otherwise stays mapped.
pub proof fn law_port_is_published_untranslated(policy: SessionPolicy, port: u16, proto: IpProto, other: u16)
    ensures
        mapping_of(port, proto).external_port == port,
        mapping_of(port, proto).internal_port == port,
        mapping_of(port, proto).proto == proto,
        policy.ingress is None ==> mappings_of(policy).len() == 0,
        policy.ingress matches Some(ingress) ==> mappings_of(policy) == ingress.port_mappings@,
        maps(policy, other) <==> exists|i: int|
            0 <= i < mappings_of(policy).len() && ((#[trigger] mappings_of(policy)[i]).internal_port
                == other || mappings_of(policy)[i].external_port == other),
{
    if policy.ingress is Some {
        let ingress = policy.ingress->0;
        assert forall|i: int| 0 <= i < ingress.port_mappings@.len() implies mappings_of(policy)[i]
            == #[trigger] ingress.port_mappings@[i] by {
        }
        if maps(policy, other) {
            let i = choose|i: int|
                0 <= i < ingress.port_mappings@.len() && ((
                #[trigger] ingress.port_mappings@[i]).internal_port == other
                    || ingress.port_mappings@[i].external_port == other);
            assert(mappings_of(policy)[i].internal_port == other
                || mappings_of(policy)[i].external_port == other);
        }
    }
}

} // verus!
