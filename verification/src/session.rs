//! What a session declares about its network, as plain values.

use std::collections::BTreeSet;
use vstd::prelude::*;

use crate::addr::Ipv4Addr;

verus! {

/// The stable, unique identifier of a session.
#[derive(Clone, Copy, Debug, PartialEq, Eq, Hash, Structural)]
pub struct SessionId {
    pub id: u128,
}

impl SessionId {
    /// The identifier that is all zeros.
    pub fn nil() -> (r: Self)
        ensures
            r.id == 0,
    {
        SessionId { id: 0 }
    }
}

/// A transport a session's policy speaks of.
#[derive(Clone, Copy, Debug, PartialEq, Eq, Hash, Structural)]
pub enum IpProto {
    Tcp,
    Udp,
    Icmp,
}

impl IpProto {
    /// The transport's name.
    pub open spec fn name(self) -> Seq<char> {
        match self {
            IpProto::Tcp => "tcp"@,
            IpProto::Udp => "udp"@,
            IpProto::Icmp => "icmp"@,
        }
    }

    /// The transport's name.
    pub fn as_str(self) -> (r: &'static str)
        ensures
            r@ == self.name(),
    {
        match self {
            IpProto::Tcp => "tcp",
            IpProto::Udp => "udp",
            IpProto::Icmp => "icmp",
        }
    }
}

/// One published port: what a caller names, and what the box listens on.
#[derive(Clone, Copy, Debug, PartialEq, Eq, Structural)]
pub struct PortMapping {
    pub external_port: u16,
    pub internal_port: u16,
    pub proto: IpProto,
}

/// A session's ingress declaration.
#[derive(Clone, Debug, PartialEq, Eq)]
pub struct IngressPolicy {
    pub port_mappings: Vec<PortMapping>,
    /// The ports that may be published while the box runs, both ends included.
    pub dynamic_allowed_range: Option<(u16, u16)>,
}

/// A session's egress declaration; an absent list leaves its dimension open.
#[derive(Clone, Debug, PartialEq, Eq)]
pub struct EgressPolicy {
    pub allow_subnets: Option<Vec<String>>,
    pub allow_dns_hosts: Option<Vec<String>>,
    pub allow_protocols: Option<Vec<IpProto>>,
    pub deny_subnets: Option<Vec<String>>,
}

/// What becomes of a request to publish a port of a running box.
#[derive(Clone, Copy, Debug, PartialEq, Eq, Structural)]
pub enum DynamicIngress {
    Allow,
    Ask,
    Deny,
}

impl DynamicIngress {
    /// The setting as policies and audit records spell it.
    pub open spec fn name(self) -> Seq<char> {
        match self {
            DynamicIngress::Allow => "allow"@,
            DynamicIngress::Ask => "ask"@,
            DynamicIngress::Deny => "deny"@,
        }
    }

    /// The setting as policies and audit records spell it.
    pub fn as_str(self) -> (r: &'static str)
        ensures
            r@ == self.name(),
    {
        match self {
            DynamicIngress::Allow => "allow",
            DynamicIngress::Ask => "ask",
            DynamicIngress::Deny => "deny",
        }
    }
}

/// A session's whole network policy.
#[derive(Clone, Debug, PartialEq, Eq)]
pub struct SessionPolicy {
    pub egress: Option<EgressPolicy>,
    pub ingress: Option<IngressPolicy>,
    pub dynamic_ingress: Option<DynamicIngress>,
}

impl Default for SessionPolicy {
    /// A policy that declares nothing.
    fn default() -> (r: Self)
        ensures
            r.egress is None,
            r.ingress is None,
            r.dynamic_ingress is None,
    {
        SessionPolicy { egress: None, ingress: None, dynamic_ingress: None }
    }
}

impl Default for EgressPolicy {
    /// An egress section that restricts nothing.
    fn default() -> (r: Self)
        ensures
            r.allow_subnets is None,
            r.allow_dns_hosts is None,
            r.allow_protocols is None,
            r.deny_subnets is None,
    {
        EgressPolicy {
            allow_subnets: None,
            allow_dns_hosts: None,
            allow_protocols: None,
            deny_subnets: None,
        }
    }
}

/// How a box is put on the network.
#[derive(Clone, Copy, Debug, PartialEq, Eq, Hash, Structural)]
pub enum NetworkMode {
    /// The box shares the host's address.
    HostNet,
    /// The box has an address of its own on the switch.
    OwnIp,
    /// The box has no network.
    NoNet,
}

/// A box's egress declaration beside the resolver it is always let reach: what
/// its outbound frames are decided by.
#[derive(Debug)]
pub struct EgressRules {
    pub policy: Option<EgressPolicy>,
    pub resolver: Ipv4Addr,
}

/// Why a connection is dropped.
#[derive(Clone, Copy, Debug, PartialEq, Eq, Structural)]
pub enum DropRule {
    /// The source declared no such destination.
    Undeclared,
    /// The source's declaration names the destination as denied.
    Denied,
    /// The target declared no such port.
    UndeclaredPort,
}

/// Whether a connection is let through.
#[derive(Clone, Copy, Debug, PartialEq, Eq, Structural)]
pub enum Verdict {
    Admit,
    Drop(DropRule),
}

/// The ports that mappings of one transport name: the box's own
/// (`internal`), or those a caller names.
pub open spec fn mapped_ports(mappings: Seq<PortMapping>, proto: IpProto, internal: bool) -> Set<u16> {
    Set::new(
        |p: u16|
            exists|i: int|
                0 <= i < mappings.len() && (#[trigger] mappings[i]).proto == proto && p == (
                if internal {
                    mappings[i].internal_port
                } else {
                    mappings[i].external_port
                }),
    )
}

/// The ports that an ingress declaration names for one transport; none where
/// there is no declaration.
pub open spec fn declared_ports(
    ingress: Option<&IngressPolicy>,
    proto: IpProto,
    internal: bool,
) -> Set<u16> {
    match ingress {
        Some(policy) => mapped_ports(policy.port_mappings@, proto, internal),
        None => Set::empty(),
    }
}

/// The ports that a session's policy names inbound for one transport.
pub open spec fn policy_ports(policy: SessionPolicy, proto: IpProto, internal: bool) -> Set<u16> {
    match policy.ingress {
        Some(ingress) => mapped_ports(ingress.port_mappings@, proto, internal),
        None => Set::empty(),
    }
}

/// The ports that an ingress declaration names for one transport.
pub fn ports_of(ingress: Option<&IngressPolicy>, proto: IpProto, internal: bool) -> (r: BTreeSet<u16>)
    ensures
        r@ == declared_ports(ingress, proto, internal),
{
    let mut out: BTreeSet<u16> = BTreeSet::new();
    if let Some(policy) = ingress {
        let mappings: &Vec<PortMapping> = &policy.port_mappings;
        let mut i: usize = 0;
        assert(out@ =~= mapped_ports(mappings@.take(0), proto, internal));
        while i < mappings.len()
            invariant
                i <= mappings.len(),
                out@ == mapped_ports(mappings@.take(i as int), proto, internal),
            decreases mappings.len() - i,
        {
            proof {
                crate::ordered::lemma_integers();
            }
            let m: PortMapping = mappings[i];
            let ghost done = mappings@.take(i as int);
            let ghost next = mappings@.take(i + 1);
            assert(next =~= done.push(m));
            let port: u16 = if internal {
                m.internal_port
            } else {
                m.external_port
            };
            proof {
                assert forall|p: u16| mapped_ports(next, proto, internal).contains(p) == (mapped_ports(
                    done,
                    proto,
                    internal,
                ).contains(p) || (m.proto == proto && p == port)) by {
                    if mapped_ports(done, proto, internal).contains(p) {
                        let k = choose|k: int|
                            0 <= k < done.len() && (#[trigger] done[k]).proto == proto && p == (
                            if internal {
                                done[k].internal_port
                            } else {
                                done[k].external_port
                            });
                        assert(next[k] == done[k]);
                    }
                    if m.proto == proto && p == port {
                        assert(next[i as int] == m);
                    }
                    if mapped_ports(next, proto, internal).contains(p) {
                        let k = choose|k: int|
                            0 <= k < next.len() && (#[trigger] next[k]).proto == proto && p == (
                            if internal {
                                next[k].internal_port
                            } else {
                                next[k].external_port
                            });
                        if k < done.len() {
                            assert(done[k] == next[k]);
                        }
                    }
                }
            }
            if m.proto == proto {
                out.insert(port);
            }
            assert(out@ =~= mapped_ports(next, proto, internal));
            i = i + 1;
        }
        assert(mappings@.take(mappings@.len() as int) =~= mappings@);
    }
    out
}

// ---------------------------------------------------------------------------
// Copies
// ---------------------------------------------------------------------------

/// A list of names, mathematically.
pub open spec fn names_in(list: Option<Vec<String>>) -> Option<Seq<Seq<char>>> {
    match list {
        Some(v) => Some(Seq::new(v@.len(), |i: int| v@[i]@)),
        None => None,
    }
}

/// An egress declaration, mathematically.
#[verifier::ext_equal]
pub struct EgressPolicyView {
    pub allow_subnets: Option<Seq<Seq<char>>>,
    pub allow_dns_hosts: Option<Seq<Seq<char>>>,
    pub allow_protocols: Option<Seq<IpProto>>,
    pub deny_subnets: Option<Seq<Seq<char>>>,
}

impl View for EgressPolicy {
    type V = EgressPolicyView;

    open spec fn view(&self) -> EgressPolicyView {
        EgressPolicyView {
            allow_subnets: names_in(self.allow_subnets),
            allow_dns_hosts: names_in(self.allow_dns_hosts),
            allow_protocols: match self.allow_protocols {
                Some(v) => Some(v@),
                None => None,
            },
            deny_subnets: names_in(self.deny_subnets),
        }
    }
}

/// Egress rules, mathematically.
#[verifier::ext_equal]
pub struct EgressRulesView {
    pub policy: Option<EgressPolicyView>,
    pub resolver: Ipv4Addr,
}

impl View for EgressRules {
    type V = EgressRulesView;

    open spec fn view(&self) -> EgressRulesView {
        EgressRulesView {
            policy: match self.policy {
                Some(policy) => Some(policy@),
                None => None,
            },
            resolver: self.resolver,
        }
    }
}

/// A copy of a list of names.
fn copy_names(list: &Option<Vec<String>>) -> (r: Option<Vec<String>>)
    ensures
        names_in(r) == names_in(*list),
{
    match list {
        None => None,
        Some(v) => {
            let mut out: Vec<String> = Vec::new();
            let mut i: usize = 0;
            while i < v.len()
                invariant
                    i <= v.len(),
                    out@.len() == i,
                    forall|j: int| 0 <= j < i ==> (#[trigger] out@[j])@ == v@[j]@,
                decreases v.len() - i,
            {
                out.push(v[i].clone());
                i = i + 1;
            }
            assert(names_in(Some(out))->0 =~= names_in(*list)->0);
            Some(out)
        },
    }
}

impl EgressPolicy {
    /// A copy of the declaration.
    pub fn copy(&self) -> (r: Self)
        ensures
            r@ == self@,
    {
        let allow_protocols: Option<Vec<IpProto>> = match &self.allow_protocols {
            None => None,
            Some(v) => {
                let mut out: Vec<IpProto> = Vec::new();
                let mut i: usize = 0;
                while i < v.len()
                    invariant
                        i <= v.len(),
                        out@ == v@.take(i as int),
                    decreases v.len() - i,
                {
                    out.push(v[i]);
                    i = i + 1;
                    assert(v@.take(i as int) =~= v@.take(i - 1).push(v@[i - 1]));
                }
                assert(v@.take(v@.len() as int) =~= v@);
                Some(out)
            },
        };
        EgressPolicy {
            allow_subnets: copy_names(&self.allow_subnets),
            allow_dns_hosts: copy_names(&self.allow_dns_hosts),
            allow_protocols,
            deny_subnets: copy_names(&self.deny_subnets),
        }
    }
}

impl EgressRules {
    /// The rules of an egress declaration, beside the resolver that the box is
    /// always let reach.
    pub fn from_policy(policy: Option<&EgressPolicy>, resolver: Ipv4Addr) -> (r: Self)
        ensures
            r@ == (EgressRulesView {
                policy: match policy {
                    Some(p) => Some(p@),
                    None => None,
                },
                resolver,
            }),
    {
        EgressRules {
            policy: match policy {
                Some(p) => Some(p.copy()),
                None => None,
            },
            resolver,
        }
    }
}

/// The ports that are declared inbound for a transport are those of its mappings
/// and no others: on the box's side or on the caller's, each side by itself,
/// whatever mappings of other transports there are. Without a declaration there
/// are none.
pub proof fn law_declared_ports_are_those_of_the_mappings(
    policy: SessionPolicy,
    ingress: IngressPolicy,
    proto: IpProto,
    port: u16,
)
    requires
        policy.ingress == Some(ingress),
    ensures
        policy_ports(policy, proto, true).contains(port) <==> exists|i: int|
            0 <= i < ingress.port_mappings@.len() && {
                let m = #[trigger] ingress.port_mappings@[i];
                m.internal_port == port && m.proto == proto
            },
        policy_ports(policy, proto, false).contains(port) <==> exists|i: int|
            0 <= i < ingress.port_mappings@.len() && {
                let m = #[trigger] ingress.port_mappings@[i];
                m.external_port == port && m.proto == proto
            },
        declared_ports(Some(&ingress), proto, true) == policy_ports(policy, proto, true),
        declared_ports(Some(&ingress), proto, false) == policy_ports(policy, proto, false),
        !declared_ports(None, proto, true).contains(port),
        !declared_ports(None, proto, false).contains(port),
        forall|p: SessionPolicy|
            p.ingress is None ==> !(#[trigger] policy_ports(p, proto, true)).contains(port),
        forall|p: SessionPolicy|
            p.ingress is None ==> !(#[trigger] policy_ports(p, proto, false)).contains(port),
{
    let ms = ingress.port_mappings@;
    assert forall|internal: bool| #[trigger] policy_ports(policy, proto, internal).contains(port)
        <==> exists|i: int|
        0 <= i < ms.len() && (#[trigger] ms[i]).proto == proto && port == (if internal {
            ms[i].internal_port
        } else {
            ms[i].external_port
        }) by {
    }
    assert(policy_ports(policy, proto, true).contains(port) || true);
    assert(policy_ports(policy, proto, false).contains(port) || true);
}

/// Transports and settings are spelt in small letters, by their own names.
pub proof fn law_transports_and_settings_are_spelt_out()
    ensures
        IpProto::Tcp.name() == "tcp"@,
        IpProto::Udp.name() == "udp"@,
        IpProto::Icmp.name() == "icmp"@,
        DynamicIngress::Allow.name() == "allow"@,
        DynamicIngress::Ask.name() == "ask"@,
        DynamicIngress::Deny.name() == "deny"@,
{
}

} // verus!
