//! The last steps of attaching a box to the switch, once its frames are
//! relayed, and the steps of its teardown.

use std::collections::BTreeMap;
use vstd::prelude::*;

use crate::addr::Ipv4Addr;
use crate::dns::{OwnView, RegistryView};
use crate::policy::ExposedMapping;
use crate::session::{IngressPolicy, IpProto, PortMapping, SessionPolicy};

verus! {

/// Where an attach stands: what is to be done next.
#[derive(Debug, PartialEq, Eq)]
pub enum Stage {
    /// Expose the declared ports.
    ApplyIngress,
    /// Drop the relay, which closes the connection to the switch.
    DropRelay { error: String },
    /// Register the box's name at the switch.
    RegisterName { exposed: Vec<ExposedMapping> },
    /// Report the box's lease to the routing table.
    Report { exposed: Vec<ExposedMapping> },
    /// The box is attached; these forwards are to be removed with it.
    Attached { exposed: Vec<ExposedMapping> },
    /// The attach failed. The lease is for the launch to release.
    Failed { error: String },
}

/// What came of the last step.
#[derive(Debug, PartialEq, Eq)]
pub enum Event {
    Exposed(Vec<ExposedMapping>),
    NotExposed(String),
    RelayDropped,
    /// The name was registered, or it could not be: a box works without.
    NameSettled,
    Reported,
}

/// Whether a declaration holds mappings to expose.
pub open spec fn exposes(ingress: Option<&IngressPolicy>) -> bool {
    ingress matches Some(policy) && policy.port_mappings@.len() > 0
}

/// Where an attach goes from a stage. An event that is no outcome of the step
/// leaves it where it is.
pub open spec fn after(stage: Stage, event: Event, reporter: bool) -> Stage {
    match (stage, event) {
        (Stage::ApplyIngress, Event::Exposed(exposed)) => Stage::RegisterName { exposed },
        (Stage::ApplyIngress, Event::NotExposed(error)) => Stage::DropRelay { error },
        (Stage::DropRelay { error }, Event::RelayDropped) => Stage::Failed { error },
        (Stage::RegisterName { exposed }, Event::NameSettled) => if reporter {
            Stage::Report { exposed }
        } else {
            Stage::Attached { exposed }
        },
        (Stage::Report { exposed }, Event::Reported) => Stage::Attached { exposed },
        _ => stage,
    }
}

/// Where an attach begins: with its ingress, where there is any.
pub fn first_stage(ingress: Option<&IngressPolicy>) -> (r: Stage)
    ensures
        if exposes(ingress) {
            r is ApplyIngress
        } else {
            r matches Stage::RegisterName { exposed } && exposed@.len() == 0
        },
{
    if let Some(policy) = ingress {
        if policy.port_mappings.len() > 0 {
            return Stage::ApplyIngress;
        }
    }
    Stage::RegisterName { exposed: Vec::new() }
}

/// Takes the outcome of the last step; `reporter` says whether there is a
/// routing table to report the lease to.
pub fn advance(stage: Stage, event: Event, reporter: bool) -> (r: Stage)
    ensures
        r == after(stage, event, reporter),
{
    match (stage, event) {
        (Stage::ApplyIngress, Event::Exposed(exposed)) => Stage::RegisterName { exposed },
        (Stage::ApplyIngress, Event::NotExposed(error)) => Stage::DropRelay { error },
        (Stage::DropRelay { error }, Event::RelayDropped) => Stage::Failed { error },
        (Stage::RegisterName { exposed }, Event::NameSettled) => {
            if reporter {
                Stage::Report { exposed }
            } else {
                Stage::Attached { exposed }
            }
        },
        (Stage::Report { exposed }, Event::Reported) => Stage::Attached { exposed },
        (stage, _) => stage,
    }
}

/// The box's port behind each port that callers name; the last mapping of a port
/// counts.
pub open spec fn port_map(mappings: Seq<PortMapping>) -> Map<u16, u16>
    decreases mappings.len(),
{
    if mappings.len() == 0 {
        Map::empty()
    } else {
        port_map(mappings.drop_last()).insert(
            mappings.last().external_port,
            mappings.last().internal_port,
        )
    }
}

/// What is reported with a box's lease: the box's port behind each port that
/// callers name.
pub fn reported_ports(ingress: Option<&IngressPolicy>) -> (r: BTreeMap<u16, u16>)
    ensures
        r@ == (match ingress {
            Some(policy) => port_map(policy.port_mappings@),
            None => Map::empty(),
        }),
{
    let mut out: BTreeMap<u16, u16> = BTreeMap::new();
    if let Some(policy) = ingress {
        let mappings: &Vec<PortMapping> = &policy.port_mappings;
        let mut i: usize = 0;
        assert(mappings@.take(0) =~= Seq::<PortMapping>::empty());
        while i < mappings.len()
            invariant
                i <= mappings.len(),
                out@ == port_map(mappings@.take(i as int)),
            decreases mappings.len() - i,
        {
            proof {
                crate::ordered::lemma_integers();
            }
            assert(mappings@.take(i + 1).drop_last() =~= mappings@.take(i as int));
            out.insert(mappings[i].external_port, mappings[i].internal_port);
            i = i + 1;
        }
        assert(mappings@.take(mappings@.len() as int) =~= mappings@);
    }
    out
}

/// One step of a teardown.
#[derive(Clone, Copy, Debug, PartialEq, Eq, Structural)]
pub enum TeardownStep {
    /// Remove the box's forwards from the switch.
    RemoveIngress,
    /// Detach the box, which may stop the switch.
    Detach,
}

/// The steps of a teardown, in order. The forwards go first: the detach may stop
/// the switch that holds them.
pub fn teardown_steps(exposed: &[ExposedMapping]) -> (r: Vec<TeardownStep>)
    ensures
        r@ == (if exposed@.len() > 0 {
            seq![TeardownStep::RemoveIngress, TeardownStep::Detach]
        } else {
            seq![TeardownStep::Detach]
        }),
{
    let mut out: Vec<TeardownStep> = Vec::new();
    if exposed.len() > 0 {
        out.push(TeardownStep::RemoveIngress);
        out.push(TeardownStep::Detach);
        assert(out@ =~= seq![TeardownStep::RemoveIngress, TeardownStep::Detach]);
    } else {
        out.push(TeardownStep::Detach);
        assert(out@ =~= seq![TeardownStep::Detach]);
    }
    out
}

/// Whether a stage comes behind a box's name: the box is reachable from here on.
pub open spec fn named(stage: Stage) -> bool {
    stage is Report || stage is Attached
}

/// A box is reported or attached only from its name's registration, so that its
/// declared ports are exposed before its name is and its route follows both; and
/// an attach that failed stays so.
pub proof fn law_names_follow_forwards(stage: Stage, event: Event, reporter: bool)
    ensures
        named(after(stage, event, reporter)) ==> named(stage) || stage is RegisterName,
        after(stage, event, reporter) is RegisterName ==> stage is ApplyIngress
            || stage is RegisterName,
        stage is Failed || stage is Attached ==> after(stage, event, reporter) == stage,
        stage is DropRelay ==> after(stage, event, reporter) is DropRelay
            || after(stage, event, reporter) is Failed,
{
}

/// The box's port behind a port that callers name is that of one of the
/// mappings.
proof fn lemma_port_map(mappings: Seq<PortMapping>, port: u16)
    requires
        port_map(mappings).contains_key(port),
    ensures
        exists|i: int|
            0 <= i < mappings.len() && (#[trigger] mappings[i]).external_port == port
                && mappings[i].internal_port == port_map(mappings)[port],
    decreases mappings.len(),
{
    let last = mappings.len() - 1;
    if mappings[last].external_port != port {
        lemma_port_map(mappings.drop_last(), port);
        let i = choose|i: int|
            0 <= i < mappings.drop_last().len() && (#[trigger] mappings.drop_last()[i]).external_port
                == port && mappings.drop_last()[i].internal_port == port_map(
                mappings.drop_last(),
            )[port];
        assert(mappings[i] == mappings.drop_last()[i]);
    } else {
        assert(port_map(mappings)[port] == mappings[last].internal_port);
    }
}

/// A request that is carried to a box's name reaches no port that a direct
/// connection could not: the connection ends on a port of the box that its own
/// declaration lets in. Where the daemon sits on the switch that port is
/// dialled; elsewhere the port that callers name is, and its mapping forwards
/// it. The declaration has TCP mappings alone.
pub proof fn law_carried_request_reaches_a_declared_port(
    table: RegistryView,
    policy: SessionPolicy,
    session_name: Seq<char>,
    lease: Ipv4Addr,
    port: u16,
)
    requires
        forall|i: int|
            0 <= i < crate::dynamic_ingress::mappings_of(policy).len() ==> (#[trigger] crate::dynamic_ingress::mappings_of(policy)[i]).proto
                == IpProto::Tcp,
    ensures
        ({
            let mappings = crate::dynamic_ingress::mappings_of(policy);
            let route = table.own_route(
                session_name,
                OwnView { lease, ports: port_map(mappings) },
                crate::session::policy_ports(policy, IpProto::Tcp, false),
            );
            match route.upstream(port) {
                Some(upstream) => exists|i: int|
                    {
                        &&& 0 <= i < mappings.len()
                        &&& (#[trigger] mappings[i]).external_port == port
                        &&& crate::session::policy_ports(policy, IpProto::Tcp, true).contains(
                            mappings[i].internal_port,
                        )
                        &&& upstream.port == (if table.on_switch {
                            mappings[i].internal_port
                        } else {
                            mappings[i].external_port
                        })
                    },
                None => forall|i: int|
                    0 <= i < mappings.len() ==> (#[trigger] mappings[i]).external_port != port,
            }
        }),
{
    let mappings = crate::dynamic_ingress::mappings_of(policy);
    let named = crate::session::policy_ports(policy, IpProto::Tcp, false);
    let lets_in = crate::session::policy_ports(policy, IpProto::Tcp, true);
    assert forall|i: int| 0 <= i < mappings.len() implies named.contains(
        (#[trigger] mappings[i]).external_port,
    ) && lets_in.contains(mappings[i].internal_port) && port_map(mappings).contains_key(
        mappings[i].external_port,
    ) by {
        lemma_port_mapped(mappings, i);
    }
    if port_map(mappings).contains_key(port) {
        lemma_port_map(mappings, port);
    }
    if named.contains(port) {
        let i = choose|i: int|
            0 <= i < mappings.len() && (#[trigger] mappings[i]).proto == IpProto::Tcp && port
                == mappings[i].external_port;
        assert(mappings[i].external_port == port);
    }
}

/// Each mapping's port is one that callers may name.
proof fn lemma_port_mapped(mappings: Seq<PortMapping>, i: int)
    requires
        0 <= i < mappings.len(),
    ensures
        port_map(mappings).contains_key(mappings[i].external_port),
    decreases mappings.len(),
{
    if i < mappings.len() - 1 {
        lemma_port_mapped(mappings.drop_last(), i);
        assert(mappings.drop_last()[i] == mappings[i]);
    }
}

/// An attach whose ports were exposed ends attached with just those forwards,
/// reported on the way where there is a routing table; one whose ports were not
/// drops its relay and fails with what was said.
pub proof fn law_attach_ends_as_its_ingress_did(
    exposed: Vec<ExposedMapping>,
    error: String,
    reporter: bool,
)
    ensures
        ({
            let begun = after(Stage::ApplyIngress, Event::Exposed(exposed), reporter);
            let settled = after(begun, Event::NameSettled, reporter);
            let refused = after(Stage::ApplyIngress, Event::NotExposed(error), reporter);
            &&& begun == (Stage::RegisterName { exposed })
            &&& reporter ==> settled == (Stage::Report { exposed }) && after(
                settled,
                Event::Reported,
                reporter,
            ) == (Stage::Attached { exposed })
            &&& !reporter ==> settled == (Stage::Attached { exposed })
            &&& refused == (Stage::DropRelay { error })
            &&& after(refused, Event::RelayDropped, reporter) == (Stage::Failed { error })
        }),
{
}

/// The box's port behind a port that callers name is that of the last mapping of
/// it, whatever its protocol and however many come before; a port that no mapping
/// names leads nowhere.
pub proof fn law_last_mapping_of_a_port_counts(mappings: Seq<PortMapping>, at: int, port: u16)
    ensures
        0 <= at < mappings.len() && (forall|j: int|
            at < j < mappings.len() ==> (#[trigger] mappings[j]).external_port
                != mappings[at].external_port) ==> port_map(mappings).contains_key(
            mappings[at].external_port,
        ) && port_map(mappings)[mappings[at].external_port] == mappings[at].internal_port,
        (forall|j: int|
            0 <= j < mappings.len() ==> (#[trigger] mappings[j]).external_port != port)
            ==> !port_map(mappings).contains_key(port),
    decreases mappings.len(),
{
    if mappings.len() > 0 {
        let before = mappings.drop_last();
        law_last_mapping_of_a_port_counts(before, at, port);
        let last = mappings.len() - 1;
        assert(mappings[last] == mappings.last());
        if 0 <= at < last && (forall|j: int|
            at < j < mappings.len() ==> (#[trigger] mappings[j]).external_port
                != mappings[at].external_port) {
            assert forall|j: int| at < j < before.len() implies (#[trigger] before[j]).external_port
                != before[at].external_port by {
                assert(mappings[j].external_port != mappings[at].external_port);
            }
            assert(mappings[last].external_port != mappings[at].external_port);
        }
        if forall|j: int|
            0 <= j < mappings.len() ==> (#[trigger] mappings[j]).external_port != port {
            assert forall|j: int| 0 <= j < before.len() implies (#[trigger] before[j]).external_port
                != port by {
                assert(mappings[j].external_port != port);
            }
            assert(mappings[last].external_port != port);
        }
    }
}

} // verus!
