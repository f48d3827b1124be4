//! How a box is put on the network: the plan its sandbox is built from, and the
//! reservation that an own-address box holds between its plan and its attach.

use vstd::prelude::*;

use crate::addr::Ipv4Addr;
use crate::policy::{ControlChannel, HostReach, HOST_HOSTNAME};
use crate::session::{IngressPolicy, NetworkMode};
use crate::subnet::{PtaskLease, SwitchSubnet, DEFAULT_MTU};
use crate::text;

verus! {

/// How the switch is reached.
#[derive(Clone, Copy, Debug, PartialEq, Eq, Structural)]
pub enum SwitchTransport {
    /// The daemon runs the switch itself, on a native host.
    LocalSpawn,
    /// The switch runs on the host of the daemon's microVM.
    HostShuttle { cid: u32, port: u32 },
}

/// Where a box resolves names.
#[derive(Debug, PartialEq, Eq)]
pub enum Resolver {
    /// As the host does.
    Host,
    /// At these servers.
    Nameservers(Vec<Ipv4Addr>),
    /// No names are resolved.
    Nowhere,
}

/// A name that a box's own table of hosts answers.
#[derive(Debug, PartialEq, Eq)]
pub struct HostEntry {
    pub name: String,
    pub address: Ipv4Addr,
}

/// The tap that a sandbox is to build.
#[derive(Clone, Copy, Debug, PartialEq, Eq, Structural)]
pub struct TapSpec {
    pub address: Ipv4Addr,
    pub netmask: Ipv4Addr,
    pub gateway: Ipv4Addr,
    pub mtu: u16,
}

/// What a sandbox is built from.
#[derive(Debug, PartialEq, Eq)]
pub struct NetPlan {
    /// Whether the box has a network namespace of its own.
    pub isolated: bool,
    pub tap: Option<TapSpec>,
    pub resolver: Resolver,
    pub hosts: Vec<HostEntry>,
}

/// Who builds an own-address box's tap.
#[derive(Clone, Copy, Debug, PartialEq, Eq, Structural)]
pub enum TapMechanism {
    /// The sandbox, in the box's own namespace.
    InNamespace,
    /// The daemon, which moves it into the box's namespace.
    Privileged,
}

/// Whether a resolver asks at one server alone.
pub open spec fn asks_only(resolver: Resolver, server: Ipv4Addr) -> bool {
    resolver matches Resolver::Nameservers(servers) && servers@ == seq![server]
}

/// The switch's DNS server, at its gateway.
pub open spec fn dns_address(subnet: SwitchSubnet) -> Ipv4Addr {
    Ipv4Addr { bits: (subnet.network_bits() + 1) as u32 }
}

/// A resolver that asks the switch.
fn at_switch(subnet: SwitchSubnet) -> (r: Resolver)
    ensures
        asks_only(r, dns_address(subnet)),
{
    let mut servers: Vec<Ipv4Addr> = Vec::new();
    servers.push(subnet.dns_server());
    assert(servers@ =~= seq![dns_address(subnet)]);
    Resolver::Nameservers(servers)
}

/// The kind of network that a box's mode calls for.
#[derive(Clone, Copy, Debug, PartialEq, Eq, Structural)]
pub enum NetworkKind {
    /// The host's address.
    HostAddress,
    /// An address on the switch.
    OwnAddress,
    /// None.
    Empty,
}

/// The kind of network that a box's mode calls for.
pub fn network_for(mode: NetworkMode) -> (r: NetworkKind)
    ensures
        r == (match mode {
            NetworkMode::HostNet => NetworkKind::HostAddress,
            NetworkMode::OwnIp => NetworkKind::OwnAddress,
            NetworkMode::NoNet => NetworkKind::Empty,
        }),
{
    match mode {
        NetworkMode::HostNet => NetworkKind::HostAddress,
        NetworkMode::OwnIp => NetworkKind::OwnAddress,
        NetworkMode::NoNet => NetworkKind::Empty,
    }
}

/// How a box reaches the host's loopback, if it can.
pub fn host_reach(mode: NetworkMode, transport: SwitchTransport) -> (r: Option<HostReach>)
    ensures
        r == (match (mode, transport) {
            (NetworkMode::NoNet, _) => None,
            (NetworkMode::HostNet, SwitchTransport::LocalSpawn) => Some(HostReach::SharedNamespace),
            _ => Some(HostReach::Switch),
        }),
{
    match mode {
        NetworkMode::NoNet => None,
        NetworkMode::OwnIp => Some(HostReach::Switch),
        NetworkMode::HostNet => match transport {
            SwitchTransport::LocalSpawn => Some(HostReach::SharedNamespace),
            SwitchTransport::HostShuttle { .. } => Some(HostReach::Switch),
        },
    }
}

/// The plan of a box that shares the host's address. On a native host the host's
/// name is answered from the box's own table, at loopback. Inside of a microVM
/// the namespace is the guest's, and the switch answers it.
pub fn host_ip_plan(transport: SwitchTransport, subnet: SwitchSubnet) -> (r: NetPlan)
    ensures
        !r.isolated,
        r.tap is None,
        match transport {
            SwitchTransport::LocalSpawn => {
                &&& r.resolver is Host
                &&& r.hosts@.len() == 1
                &&& r.hosts@[0].name@ == HOST_HOSTNAME@
                &&& r.hosts@[0].address.bits == crate::addr::LOCALHOST_BITS
            },
            SwitchTransport::HostShuttle { .. } => asks_only(r.resolver, dns_address(subnet))
                && r.hosts@.len() == 0,
        },
{
    let mut hosts: Vec<HostEntry> = Vec::new();
    match transport {
        SwitchTransport::LocalSpawn => {
            hosts.push(HostEntry { name: HOST_HOSTNAME.to_owned(), address: Ipv4Addr::localhost() });
            NetPlan { isolated: false, tap: None, resolver: Resolver::Host, hosts }
        },
        SwitchTransport::HostShuttle { .. } => NetPlan {
            isolated: false,
            tap: None,
            resolver: at_switch(subnet),
            hosts,
        },
    }
}

/// The plan of a box without a network.
pub fn no_net_plan() -> (r: NetPlan)
    ensures
        r.isolated,
        r.tap is None,
        r.resolver is Nowhere,
        r.hosts@.len() == 0,
{
    NetPlan { isolated: true, tap: None, resolver: Resolver::Nowhere, hosts: Vec::new() }
}

/// Who builds a box's tap: the daemon where it owns a microVM's network, and the
/// sandbox on a native host.
pub fn tap_mechanism(control: &ControlChannel) -> (r: TapMechanism)
    ensures
        r == (match control {
            ControlChannel::Vsock { .. } => TapMechanism::Privileged,
            ControlChannel::Unix(_) => TapMechanism::InNamespace,
        }),
{
    match control {
        ControlChannel::Vsock { .. } => TapMechanism::Privileged,
        ControlChannel::Unix(_) => TapMechanism::InNamespace,
    }
}

/// The tap that a sandbox builds for a lease.
pub open spec fn tap_of(subnet: SwitchSubnet, lease_ip: Ipv4Addr, tap: TapSpec) -> bool {
    &&& tap.address == lease_ip
    &&& tap.netmask.bits == 0x1_0000_0000 - crate::subnet::span(subnet.prefix_len())
    &&& tap.gateway.bits == subnet.network_bits() + 1
    &&& tap.mtu == DEFAULT_MTU
}

/// The plan of a box with an address of its own. The sandbox builds the tap only
/// where that is its part.
pub fn own_ip_plan(subnet: SwitchSubnet, lease_ip: Ipv4Addr, mechanism: TapMechanism) -> (r: NetPlan)
    ensures
        r.isolated,
        asks_only(r.resolver, dns_address(subnet)),
        r.hosts@.len() == 0,
        match mechanism {
            TapMechanism::InNamespace => r.tap matches Some(tap) && tap_of(subnet, lease_ip, tap),
            TapMechanism::Privileged => r.tap is None,
        },
{
    let tap: Option<TapSpec> = match mechanism {
        TapMechanism::InNamespace => Some(
            TapSpec {
                address: lease_ip,
                netmask: subnet.netmask(),
                gateway: subnet.gateway(),
                mtu: DEFAULT_MTU,
            },
        ),
        TapMechanism::Privileged => None,
    };
    NetPlan { isolated: true, tap, resolver: at_switch(subnet), hosts: Vec::new() }
}

// ---------------------------------------------------------------------------
// The tap that the daemon builds
// ---------------------------------------------------------------------------

/// A process's network namespace.
pub open spec fn netns_text(pid: u32) -> Seq<char> {
    "/proc/"@ + text::decimal(pid as nat) + "/ns/net"@
}

/// A process's network namespace.
pub fn netns_path(pid: u32) -> (r: String)
    ensures
        r@ == netns_text(pid),
{
    let mut out: String = "/proc/".to_owned();
    text::push_decimal(&mut out, pid as u64);
    out.append("/ns/net");
    out
}

/// What is reported where a box's namespace is gone before its tap was made.
pub fn netns_gone(pid: u32) -> (r: String)
    ensures
        r@ == "the PTask's network namespace is gone before its tap was made ("@ + netns_text(pid)
            + " does not exist); the sandbox did not survive its spawn"@,
{
    let mut out: String = "the PTask's network namespace is gone before its tap was made (".to_owned();
    out.append(netns_path(pid).as_str());
    out.append(" does not exist); the sandbox did not survive its spawn");
    out
}

/// The name of the tap of a lease: the low three octets of its address.
pub open spec fn tap_text(ip: Ipv4Addr) -> Seq<char> {
    let o = crate::addr::octets_of(ip.bits);
    "mtap"@ + text::decimal(o[1] as nat) + "_"@ + text::decimal(o[2] as nat) + "_"@ + text::decimal(
        o[3] as nat,
    )
}

/// The name of the tap of a lease.
pub fn tap_name(ip: Ipv4Addr) -> (r: String)
    ensures
        r@ == tap_text(ip),
{
    let o: [u8; 4] = ip.octets();
    let mut out: String = "mtap".to_owned();
    text::push_decimal(&mut out, o[1] as u64);
    out.append("_");
    text::push_decimal(&mut out, o[2] as u64);
    out.append("_");
    text::push_decimal(&mut out, o[3] as u64);
    out
}

/// What is reported where a sandbox was to build a tap and did not.
pub fn no_tap(tun: bool, userns: &str) -> (r: String)
    ensures
        r@ == "own-IP sandbox produced no in-namespace tap fd (/dev/net/tun present: "@ + (if tun {
            "true"@
        } else {
            "false"@
        }) + "; user namespaces: "@ + userns@ + ")"@,
{
    let mut out: String = "own-IP sandbox produced no in-namespace tap fd (/dev/net/tun present: ".to_owned();
    if tun {
        out.append("true");
    } else {
        out.append("false");
    }
    out.append("; user namespaces: ");
    out.append(userns);
    out.append(")");
    out
}

// ---------------------------------------------------------------------------
// The reservation
// ---------------------------------------------------------------------------

/// What an own-address box's plan reserved.
#[derive(Debug, PartialEq, Eq)]
pub struct Reserved {
    pub lease: PtaskLease,
    pub subnet: SwitchSubnet,
    pub control: ControlChannel,
    /// Decided with the plan, so that the attach cannot decide otherwise.
    pub mechanism: TapMechanism,
}

/// The control channel of a switch.
pub fn control_channel(transport: SwitchTransport, control_socket: &str) -> (r: ControlChannel)
    ensures
        match transport {
            SwitchTransport::LocalSpawn => r matches ControlChannel::Unix(path) && path@
                == control_socket@,
            SwitchTransport::HostShuttle { cid, port } => r == (ControlChannel::Vsock { cid, port }),
        },
{
    match transport {
        SwitchTransport::LocalSpawn => ControlChannel::Unix(control_socket.to_owned()),
        SwitchTransport::HostShuttle { cid, port } => ControlChannel::Vsock { cid, port },
    }
}

/// A box with an address of its own, from its plan to its attach.
#[derive(Debug)]
pub struct OwnIpNetwork {
    identity: String,
    ingress: Option<IngressPolicy>,
    reserved: Option<Reserved>,
}

impl OwnIpNetwork {
    /// The name that the box is registered under.
    pub closed spec fn name(&self) -> Seq<char> {
        self.identity@
    }

    /// The box's ingress declaration.
    pub closed spec fn declared(&self) -> Option<IngressPolicy> {
        self.ingress
    }

    /// What the plan reserved and neither an attach nor an abandon took.
    pub closed spec fn holding(&self) -> Option<Reserved> {
        self.reserved
    }

    /// A box that has reserved nothing.
    pub fn new(identity: &str, ingress: Option<IngressPolicy>) -> (r: Self)
        ensures
            r.name() == identity@,
            r.declared() == ingress,
            r.holding() is None,
    {
        OwnIpNetwork { identity: identity.to_owned(), ingress, reserved: None }
    }

    /// The name that the box is registered under.
    pub fn identity(&self) -> (r: &str)
        ensures
            r@ == self.name(),
    {
        self.identity.as_str()
    }

    /// The box's ingress declaration.
    pub fn ingress(&self) -> (r: Option<&IngressPolicy>)
        ensures
            match (r, self.declared()) {
                (Some(ingress), Some(declared)) => *ingress == declared,
                (None, None) => true,
                _ => false,
            },
    {
        match &self.ingress {
            Some(ingress) => Some(ingress),
            None => None,
        }
    }

    /// Plans the box, once the switch has handed out `lease`: the lease is
    /// reserved until the attach or the abandon.
    pub fn plan(
        &mut self,
        lease: PtaskLease,
        subnet: SwitchSubnet,
        transport: SwitchTransport,
        control_socket: &str,
    ) -> (r: NetPlan)
        ensures
            final(self).name() == old(self).name(),
            final(self).declared() == old(self).declared(),
            final(self).holding() matches Some(reserved) && {
                &&& reserved.lease == lease
                &&& reserved.subnet == subnet
                &&& match transport {
                    SwitchTransport::LocalSpawn => {
                        &&& reserved.control matches ControlChannel::Unix(path) && path@
                            == control_socket@
                        &&& reserved.mechanism == TapMechanism::InNamespace
                        &&& r.tap matches Some(tap) && tap_of(subnet, lease.ip, tap)
                    },
                    SwitchTransport::HostShuttle { cid, port } => {
                        &&& reserved.control == (ControlChannel::Vsock { cid, port })
                        &&& reserved.mechanism == TapMechanism::Privileged
                        &&& r.tap is None
                    },
                }
            },
            r.isolated,
            asks_only(r.resolver, dns_address(subnet)),
            r.hosts@.len() == 0,
    {
        let control: ControlChannel = control_channel(transport, control_socket);
        let mechanism: TapMechanism = tap_mechanism(&control);
        self.reserved = Some(Reserved { lease, subnet, control, mechanism });
        own_ip_plan(subnet, lease.ip, mechanism)
    }

    /// What an attach is made with. The reservation stays until the attach has
    /// succeeded.
    pub fn reserved(&self) -> (r: Result<&Reserved, &'static str>)
        ensures
            match (r, self.holding()) {
                (Ok(reserved), Some(held)) => *reserved == held,
                (Err(report), None) => report@
                    == "own-IP attach without a plan: nothing was leased"@,
                _ => false,
            },
    {
        match &self.reserved {
            Some(reserved) => Ok(reserved),
            None => Err("own-IP attach without a plan: nothing was leased"),
        }
    }

    /// Records that the attach succeeded: the release is the guard's from here.
    pub fn commit(&mut self)
        ensures
            final(self).holding() is None,
            final(self).name() == old(self).name(),
            final(self).declared() == old(self).declared(),
    {
        self.reserved = None;
    }

    /// Gives the reservation up; whether the switch is to be detached from.
    /// Where nothing is reserved, detaching would count a box that is not there.
    pub fn abandon(&mut self) -> (r: bool)
        ensures
            r == (old(self).holding() is Some),
            final(self).holding() is None,
            final(self).name() == old(self).name(),
            final(self).declared() == old(self).declared(),
    {
        let held: bool = self.reserved.is_some();
        self.reserved = None;
        held
    }
}

// ---------------------------------------------------------------------------
// Laws
// ---------------------------------------------------------------------------

/// What happens to a reservation.
pub enum Happening {
    /// A plan reserved.
    Planned,
    /// An attach was tried and failed.
    AttachFailed,
    /// An attach succeeded.
    Committed,
    /// The launch was abandoned.
    Abandoned,
}

/// Whether something is reserved after a happening.
pub open spec fn held_after(held: bool, happening: Happening) -> bool {
    match happening {
        Happening::Planned => true,
        Happening::AttachFailed => held,
        Happening::Committed | Happening::Abandoned => false,
    }
}

/// How often the switch is detached from in a run of happenings.
pub open spec fn releases(held: bool, run: Seq<Happening>) -> nat
    decreases run.len(),
{
    if run.len() == 0 {
        0
    } else {
        let rest = releases(held_after(held, run[0]), run.drop_first());
        if run[0] is Abandoned && held {
            rest + 1
        } else {
            rest
        }
    }
}

/// A launch whose attaches failed releases its lease once, however often it is
/// abandoned, and one that was attached releases nothing by being abandoned.
pub proof fn law_lease_is_released_once(held: bool, run: Seq<Happening>)
    requires
        forall|i: int| 0 <= i < run.len() ==> !(#[trigger] run[i] is Planned),
    ensures
        releases(held, run) <= 1,
        !held ==> releases(held, run) == 0,
        held && run.len() > 0 && (forall|i: int|
            0 <= i < run.len() ==> !(#[trigger] run[i] is Committed)) && run.last() is Abandoned
            ==> releases(held, run) == 1,
    decreases run.len(),
{
    if run.len() > 0 {
        let rest = run.drop_first();
        assert forall|i: int| 0 <= i < rest.len() implies !(#[trigger] rest[i] is Planned) by {
            assert(rest[i] == run[i + 1]);
        }
        law_lease_is_released_once(held_after(held, run[0]), rest);
        if (forall|i: int| 0 <= i < run.len() ==> !(#[trigger] run[i] is Committed)) {
            assert forall|i: int| 0 <= i < rest.len() implies !(#[trigger] rest[i] is Committed) by {
                assert(rest[i] == run[i + 1]);
            }
            assert(!(run[0] is Committed));
            if rest.len() > 0 {
                assert(rest.last() == run.last());
            }
        }
    }
}

/// A tap is named after the low three octets of its lease's address, each in
/// decimal and in their order, so that the name tells them apart.
pub proof fn law_tap_is_named_after_its_octets(ip: Ipv4Addr)
    ensures
        tap_text(ip).take(4) == "mtap"@,
        text::split(tap_text(ip).skip(4), '_') == seq![
            text::decimal((ip.bits as int / 0x1_0000 % 0x100) as nat),
            text::decimal((ip.bits as int / 0x100 % 0x100) as nat),
            text::decimal((ip.bits as int % 0x100) as nat),
        ],
{
    reveal_strlit("mtap");
    reveal_strlit("_");
    assert("_"@ =~= seq!['_']);
    crate::addr::lemma_bits_of_octets(ip.bits);
    let o = crate::addr::octets_of(ip.bits);
    let a = text::decimal(o[1] as nat);
    let b = text::decimal(o[2] as nat);
    let c = text::decimal(o[3] as nat);
    lemma_no_underscore(o[1] as nat);
    lemma_no_underscore(o[2] as nat);
    lemma_no_underscore(o[3] as nat);
    assert(tap_text(ip).take(4) =~= "mtap"@);
    assert(tap_text(ip).skip(4) =~= a + seq!['_'] + (b + seq!['_'] + c));
    text::law_split_parts_at_the_separator(a, '_', b + seq!['_'] + c);
    text::law_split_parts_at_the_separator(b, '_', c);
    text::law_split_parts_at_the_separator(c, '_', Seq::empty());
    assert(text::split(tap_text(ip).skip(4), '_') =~= seq![a, b, c]);
}

proof fn lemma_no_underscore(n: nat)
    ensures
        !text::decimal(n).contains('_'),
    decreases n,
{
    text::law_decimal_ends_in_the_remainder(n);
    if n >= 10 {
        lemma_no_underscore(n / 10);
        let all = text::decimal(n);
        let front = text::decimal(n / 10);
        if all.contains('_') {
            let i = choose|i: int| 0 <= i < all.len() && all[i] == '_';
            if i < front.len() {
                assert(front[i] == '_');
            }
        }
    }
}

} // verus!
