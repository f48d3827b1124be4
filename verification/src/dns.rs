//! The registry of live box names: the routing table that a host-side proxy
//! consults for a `Host:` header, and the table of record of the box zone.
//!
//! A box's name is `<session>.min.internal`. The deprecated three-label form
//! `<session>.<host-id>.min.internal` resolves to the same entry. A name that
//! a box holds without an address the host may be told is *held*, which is
//! not the same as *absent*.

use std::collections::{BTreeMap, BTreeSet};
use vstd::prelude::*;

use crate::addr::{Endpoint, Ipv4Addr, LOCALHOST_BITS};
use crate::session::{EgressRules, SessionId};
use crate::table::Table;
use crate::text;

verus! {

/// The suffix every box name carries.
pub const HOSTNAME_SUFFIX: &'static str = "min.internal";

/// The `<host-id>` of the deprecated three-label zone when none is configured.
pub const DEFAULT_HOST_ID: &'static str = "local";

/// The network of the reserved local range, `127.64.0.0`, from which published
/// boxes take their addresses on the host.
pub const RESERVED_LOCAL_NETWORK: u32 = 0x7f40_0000;

/// The length of the reserved local range's prefix.
pub const RESERVED_LOCAL_PREFIX: u8 = 24;

/// How many addresses the reserved local range spans.
pub const RESERVED_LOCAL_SIZE: u32 = 256;

/// The time to live, in seconds, of every answer in the box zone.
pub const ANSWER_TTL_SECS: u32 = 15;

// ---------------------------------------------------------------------------
// Addresses the host may be told
// ---------------------------------------------------------------------------

/// Whether `addr` lies in the reserved local range.
pub open spec fn in_reserved_range(addr: Ipv4Addr) -> bool {
    RESERVED_LOCAL_NETWORK <= addr.bits < RESERVED_LOCAL_NETWORK + RESERVED_LOCAL_SIZE
}

/// Whether an answer to a lookup on the host may carry `addr`: an address of
/// the reserved local range, `127.0.0.1`, or one of the node's own.
pub open spec fn host_answerable(addr: Ipv4Addr, node: Seq<Ipv4Addr>) -> bool {
    addr.bits == LOCALHOST_BITS || node.contains(addr) || in_reserved_range(addr)
}

/// Whether an answer to a lookup on the host may carry `addr`. `node` holds
/// the addresses that this host publishes at.
pub fn is_host_answerable(addr: Ipv4Addr, node: &[Ipv4Addr]) -> (r: bool)
    ensures
        r == host_answerable(addr, node@),
{
    if addr.bits == LOCALHOST_BITS {
        return true;
    }
    let mut i: usize = 0;
    while i < node.len()
        invariant
            i <= node.len(),
            forall|j: int| 0 <= j < i ==> node@[j] != addr,
        decreases node.len() - i,
    {
        if node[i] == addr {
            return true;
        }
        i = i + 1;
    }
    in_reserved_local_range(addr)
}

/// Whether `addr` lies in the reserved local range.
fn in_reserved_local_range(addr: Ipv4Addr) -> (r: bool)
    ensures
        r == in_reserved_range(addr),
{
    RESERVED_LOCAL_NETWORK <= addr.bits && addr.bits - RESERVED_LOCAL_NETWORK < RESERVED_LOCAL_SIZE
}

// ---------------------------------------------------------------------------
// Names
// ---------------------------------------------------------------------------

/// The box name of a session: `<session>.min.internal` in lower case.
pub open spec fn hostname_of(session_name: Seq<char>) -> Seq<char> {
    text::lower(session_name + seq!['.'] + HOSTNAME_SUFFIX@)
}

/// A box name, of the form `<session>.min.internal`.
#[derive(Clone, Debug, PartialEq, Eq, Hash)]
pub struct Hostname(pub String);

impl Hostname {
    /// The box name of a session. Names are compared without regard to case,
    /// so the name is kept in lower case.
    pub fn for_ptask(session_name: &str) -> (r: Self)
        ensures
            r.0@ == hostname_of(session_name@),
    {
        let mut full: String = session_name.to_owned();
        full.push('.');
        full.append(HOSTNAME_SUFFIX);
        assert(full@ =~= session_name@ + seq!['.'] + HOSTNAME_SUFFIX@);
        Hostname(text::to_lower(full.as_str()))
    }

    /// The name as a string slice.
    pub fn as_str(&self) -> (r: &str)
        ensures
            r@ == self.0@,
    {
        self.0.as_str()
    }
}

/// The host of an authority: up to and including the closing bracket of a
/// bracketed literal, else up to the first colon.
pub open spec fn host_part(authority: Seq<char>) -> Seq<char> {
    if authority.len() > 0 && authority[0] == '[' {
        let close = text::scan(authority, ']');
        if close < authority.len() {
            authority.take(close + 1)
        } else {
            authority
        }
    } else {
        authority.take(text::scan(authority, ':'))
    }
}

/// The host of a `Host:` header, without the `:port` that may follow it.
pub fn host_component<'a>(host_header: &'a str) -> (r: &'a str)
    ensures
        r@ == host_part(host_header@),
        r@.len() <= host_header@.len(),
        r@ == host_header@.take(r@.len() as int),
{
    let chars: Vec<char> = text::chars_of(host_header);
    assert(chars@.skip(0) =~= chars@);
    let end: usize = if chars.len() > 0 && chars[0] == '[' {
        let close: usize = text::scan_chars(&chars, ']', 0);
        if close < chars.len() {
            close + 1
        } else {
            assert(chars@.take(close as int) =~= chars@);
            close
        }
    } else {
        text::scan_chars(&chars, ':', 0)
    };
    let r = host_header.substring_char(0, end);
    assert(host_header@.subrange(0, end as int) =~= host_header@.take(end as int));
    r
}

/// The `<host-id>` labels that a daemon with the given id answers for: its own,
/// and `local` where that is another.
pub open spec fn host_ids(host_id: Seq<char>) -> Seq<Seq<char>> {
    if host_id == DEFAULT_HOST_ID@ {
        seq![host_id]
    } else {
        seq![host_id, DEFAULT_HOST_ID@]
    }
}

/// The texts of a list of strings.
pub open spec fn texts(v: Seq<String>) -> Seq<Seq<char>> {
    Seq::new(v.len(), |i: int| v[i]@)
}

/// The `<host-id>` labels that one daemon answers for: its own id, and `local`,
/// which every daemon keeps answering for.
pub fn host_ids_for(host_id: &str) -> (r: Vec<String>)
    ensures
        texts(r@) == host_ids(host_id@),
{
    let mut ids: Vec<String> = Vec::new();
    ids.push(host_id.to_owned());
    if !text::same(host_id, DEFAULT_HOST_ID) {
        ids.push(DEFAULT_HOST_ID.to_owned());
    }
    assert(texts(ids@) =~= host_ids(host_id@));
    ids
}

/// The ending of the deprecated names under one `<host-id>`.
pub open spec fn legacy_suffix(id: Seq<char>) -> Seq<char> {
    seq!['.'] + id + seq!['.'] + HOSTNAME_SUFFIX@
}

/// The two-label name that a deprecated three-label name stands for, under the
/// first of `ids` whose ending it carries behind a name that is not empty.
pub open spec fn two_label_of(ids: Seq<Seq<char>>, host: Seq<char>) -> Option<Seq<char>>
    decreases ids.len(),
{
    if ids.len() == 0 {
        None
    } else {
        let suffix = legacy_suffix(ids[0]);
        if text::ends_with(host, suffix) && host.len() > suffix.len() {
            Some(host.take(host.len() - suffix.len()) + seq!['.'] + HOSTNAME_SUFFIX@)
        } else {
            two_label_of(ids.drop_first(), host)
        }
    }
}

// ---------------------------------------------------------------------------
// Routes
// ---------------------------------------------------------------------------

/// The upstream that a route forwards to.
#[derive(Debug, PartialEq, Eq)]
pub enum Target {
    /// Host loopback, at the port that is asked for.
    Loopback,
    /// A box at its lease on the switch; `ports` translates the port that is
    /// asked for into the one behind it.
    Lease { lease: Ipv4Addr, ports: BTreeMap<u16, u16> },
}

/// Where a box name routes, and the session that owns the name.
#[derive(Debug, PartialEq, Eq)]
pub struct Route {
    pub target: Target,
    pub session: String,
    /// The ports a request may name; `None` where nothing is gated.
    pub declared: Option<BTreeSet<u16>>,
}

/// The upstream of a route, mathematically.
#[verifier::ext_equal]
pub enum TargetView {
    Loopback,
    Lease { lease: Ipv4Addr, ports: Map<u16, u16> },
}

/// A route, mathematically.
#[verifier::ext_equal]
pub struct RouteView {
    pub target: TargetView,
    pub session: Seq<char>,
    pub declared: Option<Set<u16>>,
}

impl View for Target {
    type V = TargetView;

    open spec fn view(&self) -> TargetView {
        match self {
            Target::Loopback => TargetView::Loopback,
            Target::Lease { lease, ports } => TargetView::Lease { lease: *lease, ports: ports@ },
        }
    }
}

impl View for Route {
    type V = RouteView;

    open spec fn view(&self) -> RouteView {
        RouteView {
            target: self.target@,
            session: self.session@,
            declared: match self.declared {
                Some(set) => Some(set@),
                None => None,
            },
        }
    }
}

impl RouteView {
    /// Whether a request may name `port`.
    pub open spec fn carries(self, port: u16) -> bool {
        match self.declared {
            Some(set) => set.contains(port),
            None => true,
        }
    }

    /// The upstream of a request for `port`.
    pub open spec fn upstream(self, port: u16) -> Option<Endpoint> {
        if !self.carries(port) {
            None
        } else {
            match self.target {
                TargetView::Loopback => Some(
                    Endpoint { ip: Ipv4Addr { bits: LOCALHOST_BITS }, port },
                ),
                TargetView::Lease { lease, ports } => if ports.contains_key(port) {
                    Some(Endpoint { ip: lease, port: ports[port] })
                } else {
                    None
                },
            }
        }
    }

    /// The address the name routes at.
    pub open spec fn address(self) -> Ipv4Addr {
        match self.target {
            TargetView::Loopback => Ipv4Addr { bits: LOCALHOST_BITS },
            TargetView::Lease { lease, .. } => lease,
        }
    }

    /// The address that a lookup on the host is told.
    pub open spec fn zone_address(self, node: Seq<Ipv4Addr>) -> Option<Ipv4Addr> {
        if host_answerable(self.address(), node) {
            Some(self.address())
        } else {
            None
        }
    }

    /// A route to host loopback.
    pub open spec fn loopback(session: Seq<char>, declared: Option<Set<u16>>) -> RouteView {
        RouteView { target: TargetView::Loopback, session, declared }
    }

    /// A route to a box at its lease; it carries the ports that its map names.
    pub open spec fn lease(session: Seq<char>, lease: Ipv4Addr, ports: Map<u16, u16>) -> RouteView {
        RouteView { target: TargetView::Lease { lease, ports }, session, declared: Some(ports.dom()) }
    }
}

impl Route {
    /// A route to host loopback, owned by `session`, that lets a request name
    /// the ports in `declared`.
    pub fn loopback(session: &str, declared: Option<BTreeSet<u16>>) -> (r: Self)
        ensures
            r@ == RouteView::loopback(
                session@,
                match declared {
                    Some(set) => Some(set@),
                    None => None,
                },
            ),
    {
        Route { target: Target::Loopback, session: session.to_owned(), declared }
    }

    /// A route to a box at `lease`, owned by `session`. The ports a request may
    /// name are the external ports of `ports`.
    pub fn lease(session: &str, lease: Ipv4Addr, ports: BTreeMap<u16, u16>) -> (r: Self)
        ensures
            r@ == RouteView::lease(session@, lease, ports@),
    {
        let declared: BTreeSet<u16> = declared_keys(&ports);
        Route {
            target: Target::Lease { lease, ports },
            session: session.to_owned(),
            declared: Some(declared),
        }
    }

    /// The ports a request to this name may name, or `None` when the target
    /// gates nothing.
    pub fn declared_ports(&self) -> (r: Option<&BTreeSet<u16>>)
        ensures
            match r {
                Some(set) => self@.declared == Some(set@),
                None => self@.declared is None,
            },
    {
        match &self.declared {
            Some(set) => Some(set),
            None => None,
        }
    }

    /// The upstream of a request for `port`, or `None` when the route does not
    /// carry that port.
    pub fn upstream(&self, port: u16) -> (r: Option<Endpoint>)
        ensures
            r == self@.upstream(port),
    {
        proof {
            crate::ordered::lemma_integers();
        }
        if let Some(set) = self.declared_ports() {
            if !set.contains(&port) {
                return None;
            }
        }
        match &self.target {
            Target::Loopback => Some(Endpoint::new(Ipv4Addr::localhost(), port)),
            Target::Lease { lease, ports } => {
                match ports.get(&port) {
                    Some(internal) => Some(Endpoint::new(*lease, *internal)),
                    None => None,
                }
            },
        }
    }

    /// The session that owns the name.
    pub fn session(&self) -> (r: &str)
        ensures
            r@ == self@.session,
    {
        self.session.as_str()
    }

    /// The address the name routes at: host loopback, or the box's lease.
    pub fn address(&self) -> (r: Ipv4Addr)
        ensures
            r == self@.address(),
    {
        match &self.target {
            Target::Loopback => Ipv4Addr::localhost(),
            Target::Lease { lease, .. } => *lease,
        }
    }

    /// The address that a lookup of the name on the host is answered with, or
    /// `None` when it is one the host may not be told.
    pub fn zone_address(&self, node: &[Ipv4Addr]) -> (r: Option<Ipv4Addr>)
        ensures
            r == self@.zone_address(node@),
    {
        let addr: Ipv4Addr = self.address();
        if is_host_answerable(addr, node) {
            Some(addr)
        } else {
            None
        }
    }
}

/// The declared ports of an external-to-internal map: its keys.
pub fn declared_keys(ports: &BTreeMap<u16, u16>) -> (r: BTreeSet<u16>)
    ensures
        r@ == ports@.dom(),
{
    proof {
        crate::ordered::lemma_integers();
    }
    let mut out: BTreeSet<u16> = BTreeSet::new();
    for k in it: ports.keys()
        invariant
            it.seq().unref().to_set() == ports@.dom(),
            out@ == it.seq().unref().take(it.index()).to_set(),
            it.index() == it.seq().len() ==> out@ =~= ports@.dom(),
    {
        proof {
            crate::ordered::lemma_integers();
        }
        let ghost done = it.seq().unref().take(it.index());
        let ghost next = it.seq().unref().take(it.index() + 1);
        out.insert(*k);
        assert(next =~= done.push(*k));
        assert(it.index() + 1 == it.seq().len() ==> next =~= it.seq().unref());
        assert(next.to_set() =~= done.to_set().insert(*k)) by {
            assert forall|x: u16| next.to_set().contains(x) == done.to_set().insert(*k).contains(
                x,
            ) by {
                if done.contains(x) {
                    let i = done.index_of(x);
                    assert(next[i] == x);
                }
                if x == *k {
                    assert(next[done.len() as int] == x);
                }
                if next.contains(x) {
                    let i = next.index_of(x);
                    if i < done.len() {
                        assert(done[i] == x);
                    }
                }
            }
        }
    }
    out
}

// ---------------------------------------------------------------------------
// The registry
// ---------------------------------------------------------------------------

/// A live registration: the box name minted for a session, and the session's
/// stable id.
#[derive(Debug)]
struct Registration {
    id: SessionId,
    hostname: Hostname,
}

/// The lease a box attached with, and its ports as an external-to-internal
/// map.
#[derive(Debug)]
struct OwnAddress {
    lease: Ipv4Addr,
    ports: BTreeMap<u16, u16>,
}

/// What is known of a live session as the caller of a request.
#[derive(Debug)]
struct CallerFacts {
    name: String,
    egress: EgressRules,
}

/// Who a request came from: the session whose box holds a lease, with the
/// rules that its own outbound frames are decided by.
#[derive(Debug)]
pub struct Caller<'a> {
    lease: Ipv4Addr,
    name: &'a str,
    egress: &'a EgressRules,
}

/// A caller, mathematically.
pub struct CallerView {
    pub lease: Ipv4Addr,
    pub name: Seq<char>,
    pub egress: EgressRules,
}

impl<'a> View for Caller<'a> {
    type V = CallerView;

    closed spec fn view(&self) -> CallerView {
        CallerView { lease: self.lease, name: self.name@, egress: *self.egress }
    }
}

impl<'a> Caller<'a> {
    /// The switch lease the caller's box holds.
    pub fn lease(&self) -> (r: Ipv4Addr)
        ensures
            r == self@.lease,
    {
        self.lease
    }

    /// The caller's session name.
    pub fn name(&self) -> (r: &str)
        ensures
            r@ == self@.name,
    {
        self.name
    }

    /// The rules that the caller's own outbound frames are decided by.
    pub fn egress(&self) -> (r: &EgressRules)
        ensures
            *r == self@.egress,
    {
        self.egress
    }
}

/// What the box zone holds for a name. A name that is held without an address
/// is not absent.
#[derive(Debug, PartialEq, Eq)]
pub enum ZoneEntry {
    /// No box holds the name.
    Absent,
    /// A box holds the name: the session that owns it, and the address that a
    /// lookup on the host is answered with, if there is one.
    Held { owner: String, address: Option<Ipv4Addr> },
}

/// What the box zone holds for a name, mathematically.
pub enum ZoneEntryView {
    Absent,
    Held { owner: Seq<char>, address: Option<Ipv4Addr> },
}

impl View for ZoneEntry {
    type V = ZoneEntryView;

    open spec fn view(&self) -> ZoneEntryView {
        match self {
            ZoneEntry::Absent => ZoneEntryView::Absent,
            ZoneEntry::Held { owner, address } => ZoneEntryView::Held {
                owner: owner@,
                address: *address,
            },
        }
    }
}

/// One row of the zone table: a name, the address it answers at on the host if
/// it has one, and the session that owns it.
#[derive(Debug, PartialEq, Eq)]
pub struct ZoneRow {
    pub name: String,
    pub address: Option<Ipv4Addr>,
    pub owner: String,
}

/// The names of rows.
pub open spec fn row_names(rows: Seq<ZoneRow>) -> Seq<Seq<char>> {
    Seq::new(rows.len(), |i: int| rows[i].name@)
}

/// The registry of live box names.
pub struct HostnameRegistry {
    host_ids: Vec<String>,
    on_switch: bool,
    by_host: Table<String, Route>,
    by_session: Table<String, Registration>,
    own: BTreeMap<u128, OwnAddress>,
    callers: BTreeMap<u128, CallerFacts>,
    by_lease: BTreeMap<u32, SessionId>,
}

/// The lease and the port map reported for a session, mathematically.
#[verifier::ext_equal]
pub struct OwnView {
    pub lease: Ipv4Addr,
    pub ports: Map<u16, u16>,
}

/// The registry, mathematically.
#[verifier::ext_equal]
pub struct RegistryView {
    /// The `<host-id>` labels of the deprecated zones answered for.
    pub host_ids: Seq<Seq<char>>,
    /// Whether the daemon sits on the switch.
    pub on_switch: bool,
    /// Box name to route.
    pub by_host: Map<Seq<char>, RouteView>,
    /// The names of the registered sessions, each with its stable id.
    pub by_session: Map<Seq<char>, SessionId>,
    /// Reported leases, by stable id.
    pub own: Map<u128, OwnView>,
    /// The name and egress rules of each session, by stable id.
    pub callers: Map<u128, (Seq<char>, EgressRules)>,
    /// The session that holds each lease.
    pub by_lease: Map<u32, SessionId>,
}

impl RegistryView {
    /// The route under a name in lower case: the name itself first, then the
    /// two-label name it stands for.
    pub open spec fn lookup(self, host: Seq<char>) -> Option<RouteView> {
        if self.by_host.contains_key(host) {
            Some(self.by_host[host])
        } else {
            match two_label_of(self.host_ids, host) {
                Some(name) => if self.by_host.contains_key(name) {
                    Some(self.by_host[name])
                } else {
                    None
                },
                None => None,
            }
        }
    }

    /// The route of a `Host:` header.
    pub open spec fn resolved(self, host_header: Seq<char>) -> Option<RouteView> {
        self.lookup(text::lower(host_part(host_header)))
    }

    /// What the zone holds for a name.
    pub open spec fn zone(self, host: Seq<char>, node: Seq<Ipv4Addr>) -> ZoneEntryView {
        match self.lookup(text::lower(host)) {
            Some(route) => ZoneEntryView::Held {
                owner: route.session,
                address: route.zone_address(node),
            },
            None => ZoneEntryView::Absent,
        }
    }

    /// The registry after `session_name` is registered along `route`.
    pub open spec fn registered(
        self,
        id: SessionId,
        session_name: Seq<char>,
        route: RouteView,
    ) -> RegistryView {
        RegistryView {
            by_host: self.by_host.insert(hostname_of(session_name), route),
            by_session: self.by_session.insert(session_name, id),
            ..self
        }
    }

    /// The route of a box with an address of its own: to its lease where the
    /// daemon sits on the switch, else to host loopback.
    pub open spec fn own_route(
        self,
        session_name: Seq<char>,
        own: OwnView,
        declared: Set<u16>,
    ) -> RouteView {
        if self.on_switch {
            RouteView::lease(session_name, own.lease, own.ports)
        } else {
            RouteView::loopback(session_name, Some(declared))
        }
    }

    /// The registry after a lease is reported for a session: the lease the
    /// session held before names nobody, the new one names the session, and
    /// the session's name is registered against it.
    pub open spec fn reported(
        self,
        id: SessionId,
        session_name: Seq<char>,
        lease: Ipv4Addr,
        ports: Map<u16, u16>,
    ) -> RegistryView {
        let kept = if self.own.contains_key(id.id) {
            self.by_lease.remove(self.own[id.id].lease.bits)
        } else {
            self.by_lease
        };
        let own = OwnView { lease, ports };
        (RegistryView {
            by_lease: kept.insert(lease.bits, id),
            own: self.own.insert(id.id, own),
            ..self
        }).registered(id, session_name, self.own_route(session_name, own, ports.dom()))
    }

    /// The registry after a session's lease and caller facts are dropped.
    pub open spec fn forgotten(self, id: SessionId) -> RegistryView {
        RegistryView {
            by_lease: if self.own.contains_key(id.id) {
                self.by_lease.remove(self.own[id.id].lease.bits)
            } else {
                self.by_lease
            },
            own: self.own.remove(id.id),
            callers: self.callers.remove(id.id),
            ..self
        }
    }

    /// Every registered session's name routes.
    pub open spec fn in_sync(self) -> bool {
        forall|name: Seq<char>| #[trigger]
            self.by_session.contains_key(name) ==> self.by_host.contains_key(hostname_of(name))
    }
}

impl View for HostnameRegistry {
    type V = RegistryView;

    closed spec fn view(&self) -> RegistryView {
        RegistryView {
            host_ids: texts(self.host_ids@),
            on_switch: self.on_switch,
            by_host: Map::new(
                |k: Seq<char>| self.by_host@.contains_key(k),
                |k: Seq<char>| self.by_host@[k]@,
            ),
            by_session: Map::new(
                |k: Seq<char>| self.by_session@.contains_key(k),
                |k: Seq<char>| self.by_session@[k].id,
            ),
            own: Map::new(
                |k: u128| self.own@.contains_key(k),
                |k: u128| OwnView { lease: self.own@[k].lease, ports: self.own@[k].ports@ },
            ),
            callers: Map::new(
                |k: u128| self.callers@.contains_key(k),
                |k: u128| (self.callers@[k].name@, self.callers@[k].egress),
            ),
            by_lease: self.by_lease@,
        }
    }
}

impl HostnameRegistry {
    /// The tables are in order, and each session is registered under its own
    /// box name.
    pub closed spec fn wf(&self) -> bool {
        &&& self.by_host.wf()
        &&& self.by_session.wf()
        &&& forall|name: Seq<char>| #[trigger]
            self.by_session@.contains_key(name) ==> self.by_session@[name].hostname.0@
                == hostname_of(name)
    }

    /// An empty registry for a daemon with the given `<host-id>`, that routes
    /// boxes with an address of their own by whether the daemon sits on the
    /// switch.
    pub fn new(host_id: &str, on_switch: bool) -> (r: Self)
        ensures
            r.wf(),
            r@ == (RegistryView {
                host_ids: host_ids(host_id@),
                on_switch,
                by_host: Map::empty(),
                by_session: Map::empty(),
                own: Map::empty(),
                callers: Map::empty(),
                by_lease: Map::empty(),
            }),
    {
        let r = HostnameRegistry {
            host_ids: host_ids_for(host_id),
            on_switch,
            by_host: Table::new(),
            by_session: Table::new(),
            own: BTreeMap::new(),
            callers: BTreeMap::new(),
            by_lease: BTreeMap::new(),
        };
        assert(r@.by_host =~= Map::empty());
        assert(r@.by_session =~= Map::empty());
        assert(r@.own =~= Map::empty());
        assert(r@.callers =~= Map::empty());
        r
    }

    /// Registers `session_name`'s box name along `route`.
    fn register(&mut self, session_id: SessionId, session_name: &str, route: Route) -> (r: Hostname)
        requires
            old(self).wf(),
        ensures
            final(self).wf(),
            r.0@ == hostname_of(session_name@),
            final(self)@ == old(self)@.registered(session_id, session_name@, route@),
    {
        let hostname: Hostname = Hostname::for_ptask(session_name);
        let kept: Hostname = Hostname(hostname.0.clone());
        self.by_session.insert(
            session_name.to_owned(),
            Registration { id: session_id, hostname: kept },
        );
        self.by_host.insert(hostname.0.clone(), route);
        assert(self@ =~= old(self)@.registered(session_id, session_name@, route@));
        hostname
    }

    /// Registers a box that shares the host's address. Its name routes to host
    /// loopback and gates no port.
    pub fn register_host_net(&mut self, session_id: SessionId, session_name: &str) -> (r: Hostname)
        requires
            old(self).wf(),
        ensures
            final(self).wf(),
            r.0@ == hostname_of(session_name@),
            final(self)@ == old(self)@.registered(
                session_id,
                session_name@,
                RouteView::loopback(session_name@, None),
            ),
    {
        self.register(session_id, session_name, Route::loopback(session_name, None))
    }

    /// Registers a box with an address of its own against the lease reported
    /// for its session; nothing is registered where none was. `declared` holds
    /// the ports a request may name.
    pub fn register_own_ip(
        &mut self,
        session_id: SessionId,
        session_name: &str,
        declared: BTreeSet<u16>,
    ) -> (r: Option<Hostname>)
        requires
            old(self).wf(),
        ensures
            final(self).wf(),
            match r {
                Some(hostname) => {
                    &&& old(self)@.own.contains_key(session_id.id)
                    &&& hostname.0@ == hostname_of(session_name@)
                    &&& final(self)@ == old(self)@.registered(
                        session_id,
                        session_name@,
                        old(self)@.own_route(
                            session_name@,
                            old(self)@.own[session_id.id],
                            declared@,
                        ),
                    )
                },
                None => !old(self)@.own.contains_key(session_id.id) && final(self)@ == old(self)@,
            },
    {
        proof {
            crate::ordered::lemma_integers();
        }
        let route: Route = match self.own.get(&session_id.id) {
            Some(own) => Self::own_route(self.on_switch, session_name, own, declared),
            None => {
                return None;
            },
        };
        Some(self.register(session_id, session_name, route))
    }

    /// The route of a box with an address of its own.
    fn own_route(
        on_switch: bool,
        session_name: &str,
        own: &OwnAddress,
        declared: BTreeSet<u16>,
    ) -> (r: Route)
        ensures
            r@ == (if on_switch {
                RouteView::lease(session_name@, own.lease, own.ports@)
            } else {
                RouteView::loopback(session_name@, Some(declared@))
            }),
    {
        if on_switch {
            Route::lease(session_name, own.lease, own.ports.clone())
        } else {
            Route::loopback(session_name, Some(declared))
        }
    }

    /// Records the name and the egress rules of a session, which a request
    /// from its box is put to.
    pub fn register_caller(
        &mut self,
        session_id: SessionId,
        session_name: &str,
        egress: EgressRules,
    )
        requires
            old(self).wf(),
        ensures
            final(self).wf(),
            final(self)@ == (RegistryView {
                callers: old(self)@.callers.insert(session_id.id, (session_name@, egress)),
                ..old(self)@
            }),
    {
        proof {
            crate::ordered::lemma_integers();
        }
        self.callers.insert(session_id.id, CallerFacts { name: session_name.to_owned(), egress });
        assert(self@.callers =~= old(self)@.callers.insert(
            session_id.id,
            (session_name@, egress),
        ));
    }

    /// The live caller at `lease`: the session whose box holds it. `None` when
    /// the lease names no session, or one of which no caller facts are kept.
    pub fn caller_at(&self, lease: Ipv4Addr) -> (r: Option<Caller<'_>>)
        requires
            self.wf(),
        ensures
            match r {
                Some(caller) => {
                    &&& self@.by_lease.contains_key(lease.bits)
                    &&& self@.callers.contains_key(self@.by_lease[lease.bits].id)
                    &&& caller@.lease == lease
                    &&& caller@.name == self@.callers[self@.by_lease[lease.bits].id].0
                    &&& caller@.egress == self@.callers[self@.by_lease[lease.bits].id].1
                },
                None => !self@.by_lease.contains_key(lease.bits) || !self@.callers.contains_key(
                    self@.by_lease[lease.bits].id,
                ),
            },
    {
        proof {
            crate::ordered::lemma_integers();
        }
        match self.by_lease.get(&lease.bits) {
            Some(id) => match self.callers.get(&id.id) {
                Some(facts) => Some(
                    Caller { lease, name: facts.name.as_str(), egress: &facts.egress },
                ),
                None => None,
            },
            None => None,
        }
    }

    /// Reports the lease that a box attached with, with its ports as an
    /// external-to-internal map, and registers the session's name against it.
    pub fn report_own_address(
        &mut self,
        session_id: SessionId,
        session_name: &str,
        lease: Ipv4Addr,
        ports: BTreeMap<u16, u16>,
    ) -> (r: Hostname)
        requires
            old(self).wf(),
        ensures
            final(self).wf(),
            r.0@ == hostname_of(session_name@),
            final(self)@ == old(self)@.reported(session_id, session_name@, lease, ports@),
    {
        proof {
            crate::ordered::lemma_integers();
        }
        let held: Option<u32> = match self.own.get(&session_id.id) {
            Some(own) => Some(own.lease.bits),
            None => None,
        };
        if let Some(bits) = held {
            self.by_lease.remove(&bits);
        }
        self.by_lease.insert(lease.bits, session_id);
        let declared: BTreeSet<u16> = declared_keys(&ports);
        let own = OwnAddress { lease, ports };
        let route: Route = Self::own_route(self.on_switch, session_name, &own, declared);
        self.own.insert(session_id.id, own);
        assert(self@.own =~= old(self)@.own.insert(
            session_id.id,
            OwnView { lease, ports: ports@ },
        ));
        self.register(session_id, session_name, route)
    }

    /// Drops an ended session's lease and caller facts.
    pub fn forget_own_address(&mut self, session_id: SessionId)
        requires
            old(self).wf(),
        ensures
            final(self).wf(),
            final(self)@ == old(self)@.forgotten(session_id),
    {
        proof {
            crate::ordered::lemma_integers();
        }
        if let Some(own) = self.own.remove(&session_id.id) {
            self.by_lease.remove(&own.lease.bits);
        }
        self.callers.remove(&session_id.id);
        assert(self@ =~= old(self)@.forgotten(session_id));
    }

    /// Withdraws `session_name`'s box name; gives the name back if one was
    /// registered, and changes nothing if none was. The name may route no longer:
    /// names are held in lower case, so it may be gone by the withdrawal of a
    /// session whose name differs in case alone.
    pub fn deregister(&mut self, session_name: &str) -> (r: Option<Hostname>)
        requires
            old(self).wf(),
        ensures
            final(self).wf(),
            match r {
                Some(hostname) => {
                    &&& old(self)@.by_session.contains_key(session_name@)
                    &&& hostname.0@ == hostname_of(session_name@)
                    &&& final(self)@ == (RegistryView {
                        by_host: old(self)@.by_host.remove(hostname_of(session_name@)),
                        by_session: old(self)@.by_session.remove(session_name@),
                        ..old(self)@
                    })
                },
                None => !old(self)@.by_session.contains_key(session_name@) && final(self)@ == old(self)@,
            },
    {
        match self.by_session.remove(&session_name.to_owned()) {
            Some(registration) => {
                self.by_host.remove(&registration.hostname.0);
                assert(self@.by_host =~= old(self)@.by_host.remove(hostname_of(session_name@)));
                assert(self@.by_session =~= old(self)@.by_session.remove(session_name@));
                Some(registration.hostname)
            },
            None => {
                assert(self.by_session@ =~= old(self).by_session@);
                None
            },
        }
    }

    /// The two-label name that a deprecated three-label name stands for.
    fn legacy_two_label(&self, host: &str) -> (r: Option<String>)
        ensures
            match r {
                Some(name) => two_label_of(self@.host_ids, host@) == Some(name@),
                None => two_label_of(self@.host_ids, host@) is None,
            },
    {
        let chars: Vec<char> = text::chars_of(host);
        let ghost ids = self@.host_ids;
        let mut i: usize = 0;
        assert(ids.skip(0) =~= ids);
        while i < self.host_ids.len()
            invariant
                i <= self.host_ids.len(),
                chars@ == host@,
                ids == texts(self.host_ids@),
                ids == self@.host_ids,
                two_label_of(ids, host@) == two_label_of(ids.skip(i as int), host@),
            decreases self.host_ids.len() - i,
        {
            let mut suffix: String = String::new();
            suffix.push('.');
            suffix.append(self.host_ids[i].as_str());
            suffix.push('.');
            suffix.append(HOSTNAME_SUFFIX);
            assert(suffix@ =~= legacy_suffix(ids[i as int]));
            assert(ids.skip(i as int)[0] == ids[i as int]);
            assert(ids.skip(i as int).drop_first() =~= ids.skip(i + 1));
            let tail: Vec<char> = text::chars_of(suffix.as_str());
            if chars.len() > tail.len() {
                let cut: usize = chars.len() - tail.len();
                assert(chars@.skip(cut as int).take(tail@.len() as int) =~= chars@.skip(cut as int));
                if text::chars_match_at(&chars, cut, &tail) {
                    let mut name: String = String::new();
                    let head: Vec<char> = text::chars_in(&chars, 0, cut);
                    name.append(text::string_of(&head).as_str());
                    name.push('.');
                    name.append(HOSTNAME_SUFFIX);
                    assert(name@ =~= host@.take(cut as int) + seq!['.'] + HOSTNAME_SUFFIX@);
                    return Some(name);
                }
            }
            i = i + 1;
        }
        None
    }

    /// The route under a name in lower case.
    fn lookup(&self, host: String) -> (r: Option<&Route>)
        requires
            self.wf(),
        ensures
            match r {
                Some(route) => self@.lookup(host@) == Some(route@),
                None => self@.lookup(host@) is None,
            },
    {
        match self.by_host.get(&host) {
            Some(route) => Some(route),
            None => match self.legacy_two_label(host.as_str()) {
                Some(name) => self.by_host.get(&name),
                None => None,
            },
        }
    }

    /// The route of a `Host:` header, or `None` if no live box owns the name.
    /// A `:port` is ignored, and so is case; the deprecated three-label form
    /// resolves to the entry of the two-label one, which it never hides.
    pub fn resolve(&self, host_header: &str) -> (r: Option<&Route>)
        requires
            self.wf(),
        ensures
            match r {
                Some(route) => self@.resolved(host_header@) == Some(route@),
                None => self@.resolved(host_header@) is None,
            },
    {
        self.lookup(text::to_lower(host_component(host_header)))
    }

    /// The two-label name that a `Host:` header is to use in its place, where it
    /// names a box by the deprecated three-label form; `None` where a box holds
    /// the name as it stands.
    pub fn deprecated(&self, host_header: &str) -> (r: Option<String>)
        requires
            self.wf(),
        ensures
            ({
                let host = text::lower(host_part(host_header@));
                match r {
                    Some(name) => !self@.by_host.contains_key(host) && two_label_of(
                        self@.host_ids,
                        host,
                    ) == Some(name@),
                    None => self@.by_host.contains_key(host) || two_label_of(
                        self@.host_ids,
                        host,
                    ) is None,
                }
            }),
    {
        let host: String = text::to_lower(host_component(host_header));
        if self.by_host.contains(&host) {
            None
        } else {
            self.legacy_two_label(host.as_str())
        }
    }

    /// What the zone holds for a full zone name.
    pub fn zone_entry(&self, host: &str, node: &[Ipv4Addr]) -> (r: ZoneEntry)
        requires
            self.wf(),
        ensures
            r@ == self@.zone(host@, node@),
    {
        match self.lookup(text::to_lower(host)) {
            Some(route) => ZoneEntry::Held {
                owner: route.session().to_owned(),
                address: route.zone_address(node),
            },
            None => ZoneEntry::Absent,
        }
    }

    /// Every live name in the zone, one row each, in name order.
    pub fn zone_table(&self, node: &[Ipv4Addr]) -> (r: Vec<ZoneRow>)
        requires
            self.wf(),
        ensures
            crate::table::lists(row_names(r@), self@.by_host.dom()),
            forall|i: int|
                0 <= i < r@.len() ==> {
                    let route = self@.by_host[(#[trigger] r@[i]).name@];
                    &&& r@[i].owner@ == route.session
                    &&& r@[i].address == route.zone_address(node@)
                },
    {
        let mut rows: Vec<ZoneRow> = Vec::new();
        let mut i: usize = 0;
        while i < self.by_host.len()
            invariant
                self.wf(),
                i <= self.by_host.keys().len(),
                row_names(rows@) == self.by_host.keys().take(i as int),
                forall|j: int|
                    0 <= j < rows@.len() ==> {
                        let route = self@.by_host[(#[trigger] rows@[j]).name@];
                        &&& rows@[j].owner@ == route.session
                        &&& rows@[j].address == route.zone_address(node@)
                    },
            decreases self.by_host.keys().len() - i,
        {
            proof {
                self.by_host.lemma_keys();
            }
            let route: &Route = self.by_host.value_at(i);
            let ghost before = rows@;
            rows.push(
                ZoneRow {
                    name: self.by_host.key_at(i).clone(),
                    address: route.zone_address(node),
                    owner: route.session().to_owned(),
                },
            );
            i = i + 1;
            assert(row_names(rows@) =~= row_names(before).push(self.by_host.keys()[i - 1]));
            assert(row_names(rows@) =~= self.by_host.keys().take(i as int));
        }
        proof {
            self.by_host.lemma_keys();
            assert(self.by_host.keys().take(i as int) =~= self.by_host.keys());
            assert forall|name: Seq<char>| #[trigger]
                self@.by_host.dom().contains(name) implies row_names(rows@).contains(name) by {
                assert(self.by_host@.contains_key(name));
            }
            assert forall|j: int| 0 <= j < rows@.len() implies self@.by_host.dom().contains(
                #[trigger] row_names(rows@)[j],
            ) by {
                assert(self.by_host@.contains_key(self.by_host.keys()[j]));
            }
        }
        rows
    }
}

// ---------------------------------------------------------------------------
// Laws
// ---------------------------------------------------------------------------

/// A registered name resolves to its route, however the name is spelt in case
/// and whatever port is named behind it.
pub proof fn law_registered_name_resolves(
    registry: RegistryView,
    id: SessionId,
    session_name: Seq<char>,
    route: RouteView,
    host_header: Seq<char>,
)
    requires
        text::lower(host_part(host_header)) == hostname_of(session_name),
    ensures
        registry.registered(id, session_name, route).resolved(host_header) == Some(route),
{
}

/// A port behind a name is ignored.
pub proof fn law_port_is_ignored(registry: RegistryView, host: Seq<char>, port: Seq<char>)
    requires
        !host.contains(':'),
        host.len() > 0 ==> host[0] != '[',
    ensures
        registry.resolved(host + seq![':'] + port) == registry.resolved(host),
{
    let with_port = host + seq![':'] + port;
    assert forall|j: int| 0 <= j < host.len() implies with_port[j] != ':' by {
        assert(with_port[j] == host[j]);
        assert(host.contains(host[j]));
    }
    assert(with_port[host.len() as int] == ':');
    text::lemma_scan_is(with_port, ':', host.len() as int);
    assert forall|j: int| 0 <= j < host.len() implies host[j] != ':' by {
        assert(host.contains(host[j]));
    }
    text::lemma_scan_is(host, ':', host.len() as int);
    assert(with_port.take(host.len() as int) =~= host);
    assert(host.take(host.len() as int) =~= host);
    if host.len() > 0 {
        assert(with_port[0] == host[0]);
    }
}

/// The deprecated three-label name of a box resolves to the same entry as its
/// two-label name, under the first label of the daemon's own whose ending it
/// carries, unless a box of its own is registered under it.
pub proof fn law_deprecated_name_is_the_same_entry(registry: RegistryView, name: Seq<char>, k: int)
    requires
        name.len() > 0,
        0 <= k < registry.host_ids.len(),
        !registry.by_host.contains_key(name + legacy_suffix(registry.host_ids[k])),
        forall|j: int|
            0 <= j < k ==> !text::ends_with(
                name + legacy_suffix(registry.host_ids[k]),
                legacy_suffix(#[trigger] registry.host_ids[j]),
            ),
    ensures
        registry.lookup(name + legacy_suffix(registry.host_ids[k])) == (
        if registry.by_host.contains_key(name + seq!['.'] + HOSTNAME_SUFFIX@) {
            Some(registry.by_host[name + seq!['.'] + HOSTNAME_SUFFIX@])
        } else {
            None
        }),
{
    lemma_two_label(registry.host_ids, name, k);
}

proof fn lemma_two_label(ids: Seq<Seq<char>>, name: Seq<char>, k: int)
    requires
        name.len() > 0,
        0 <= k < ids.len(),
        forall|j: int|
            0 <= j < k ==> !text::ends_with(
                name + legacy_suffix(ids[k]),
                legacy_suffix(#[trigger] ids[j]),
            ),
    ensures
        two_label_of(ids, name + legacy_suffix(ids[k])) == Some(
            name + seq!['.'] + HOSTNAME_SUFFIX@,
        ),
    decreases k,
{
    let host = name + legacy_suffix(ids[k]);
    if k == 0 {
        let suffix = legacy_suffix(ids[0]);
        assert(host.skip(host.len() - suffix.len()) =~= suffix);
        assert(host.take(host.len() - suffix.len()) =~= name);
    } else {
        let rest = ids.drop_first();
        assert(rest[k - 1] == ids[k]);
        assert forall|j: int| 0 <= j < k - 1 implies !text::ends_with(
            name + legacy_suffix(rest[k - 1]),
            legacy_suffix(#[trigger] rest[j]),
        ) by {
            assert(rest[j] == ids[j + 1]);
        }
        lemma_two_label(rest, name, k - 1);
        assert(!text::ends_with(host, legacy_suffix(ids[0])));
    }
}

/// The deprecated form never hides a box: a name that is registered resolves to
/// its own route.
pub proof fn law_registered_name_is_never_hidden(registry: RegistryView, host: Seq<char>)
    requires
        registry.by_host.contains_key(host),
    ensures
        registry.lookup(host) == Some(registry.by_host[host]),
{
}

/// The zone holds a name exactly while the name routes, so that a live box's
/// name is never answered as one that does not exist.
pub proof fn law_zone_holds_what_routes(registry: RegistryView, host: Seq<char>, node: Seq<Ipv4Addr>)
    ensures
        (registry.zone(host, node) is Held) == (registry.lookup(text::lower(host)) is Some),
        registry.zone(host, node) matches ZoneEntryView::Held { owner, .. } ==> owner
            == registry.lookup(text::lower(host))->0.session,
{
}

/// An address that the zone tells is one that the host can answer with.
pub proof fn law_zone_addresses_are_host_answerable(
    registry: RegistryView,
    host: Seq<char>,
    node: Seq<Ipv4Addr>,
)
    ensures
        registry.zone(host, node) matches ZoneEntryView::Held { address: Some(address), .. }
            ==> host_answerable(address, node),
{
}

/// A name that was withdrawn no longer resolves, unless it is the deprecated form
/// of another.
pub proof fn law_withdrawn_name_is_gone(registry: RegistryView, session_name: Seq<char>)
    requires
        two_label_of(registry.host_ids, hostname_of(session_name)) is None,
    ensures
        (RegistryView {
            by_host: registry.by_host.remove(hostname_of(session_name)),
            by_session: registry.by_session.remove(session_name),
            ..registry
        }).lookup(hostname_of(session_name)) is None,
{
}

/// Registering, reporting a lease and forgetting one keep every registered
/// session's name routing.
pub proof fn law_registered_sessions_stay_routed(
    registry: RegistryView,
    id: SessionId,
    session_name: Seq<char>,
    route: RouteView,
    lease: Ipv4Addr,
    ports: Map<u16, u16>,
)
    requires
        registry.in_sync(),
    ensures
        registry.registered(id, session_name, route).in_sync(),
        registry.reported(id, session_name, lease, ports).in_sync(),
        registry.forgotten(id).in_sync(),
{
    let plain = registry.registered(id, session_name, route);
    assert forall|name: Seq<char>| #[trigger] plain.by_session.contains_key(name) implies plain.by_host.contains_key(
    hostname_of(name)) by {
        if name != session_name {
            assert(registry.by_session.contains_key(name));
        }
    }
    let told = registry.reported(id, session_name, lease, ports);
    assert forall|name: Seq<char>| #[trigger] told.by_session.contains_key(name) implies told.by_host.contains_key(
    hostname_of(name)) by {
        if name != session_name {
            assert(registry.by_session.contains_key(name));
        }
    }
    let gone = registry.forgotten(id);
    assert forall|name: Seq<char>| #[trigger] gone.by_session.contains_key(name) implies gone.by_host.contains_key(
    hostname_of(name)) by {
        assert(registry.by_session.contains_key(name));
    }
}

/// A box on the switch is reached at the lease it last reported, at the ports it
/// declared and no others.
pub proof fn law_reported_box_is_reached_at_its_lease(
    registry: RegistryView,
    id: SessionId,
    session_name: Seq<char>,
    lease: Ipv4Addr,
    ports: Map<u16, u16>,
    port: u16,
)
    requires
        registry.on_switch,
    ensures
        ({
            let route = registry.reported(id, session_name, lease, ports).lookup(
                hostname_of(session_name),
            );
            &&& route is Some
            &&& route->0.upstream(port) == (if ports.contains_key(port) {
                Some(Endpoint { ip: lease, port: ports[port] })
            } else {
                None
            })
        }),
{
}

/// The lease that a session reported names that session, and one that it held
/// before and gave up names nobody.
pub proof fn law_lease_names_its_last_reporter(
    registry: RegistryView,
    id: SessionId,
    session_name: Seq<char>,
    lease: Ipv4Addr,
    ports: Map<u16, u16>,
)
    ensures
        ({
            let told = registry.reported(id, session_name, lease, ports);
            &&& told.by_lease.contains_key(lease.bits) && told.by_lease[lease.bits] == id
            &&& registry.own.contains_key(id.id) && registry.own[id.id].lease != lease
                ==> !told.by_lease.contains_key(registry.own[id.id].lease.bits)
        }),
{
}

/// A session that was forgotten is no caller at any lease.
pub proof fn law_forgotten_session_is_no_caller(registry: RegistryView, id: SessionId, bits: u32)
    requires
        registry.forgotten(id).by_lease.contains_key(bits),
        registry.forgotten(id).callers.contains_key(registry.forgotten(id).by_lease[bits].id),
    ensures
        registry.forgotten(id).by_lease[bits].id != id.id,
{
}

/// The host of an authority is all of it before the first colon; of one that opens
/// with a bracket, all up to the bracket that closes it, or all of it where none
/// does.
pub proof fn law_host_ends_at_the_colon_or_the_bracket(host: Seq<char>, rest: Seq<char>)
    ensures
        !host.contains(':') && (host.len() > 0 ==> host[0] != '[') ==> host_part(host) == host
            && host_part(host + seq![':'] + rest) == host,
        !host.contains(']') ==> {
            &&& host_part(seq!['['] + host + seq![']'] + rest) == seq!['['] + host + seq![']']
            &&& host_part(seq!['['] + host) == seq!['['] + host
        },
{
    if !host.contains(':') && (host.len() > 0 ==> host[0] != '[') {
        let s = host + seq![':'] + rest;
        assert forall|j: int| 0 <= j < host.len() implies s[j] != ':' && host[j] != ':' by {
            assert(s[j] == host[j]);
            assert(host.contains(host[j]));
        }
        assert(s[host.len() as int] == ':');
        text::lemma_scan_is(s, ':', host.len() as int);
        text::lemma_scan_is(host, ':', host.len() as int);
        assert(s.take(host.len() as int) =~= host);
        assert(host.take(host.len() as int) =~= host);
        if host.len() > 0 {
            assert(s[0] == host[0]);
        } else {
            assert(s[0] == ':');
        }
    }
    if !host.contains(']') {
        let open = seq!['['] + host;
        let s = open + seq![']'] + rest;
        assert(s =~= seq!['['] + host + seq![']'] + rest);
        assert forall|j: int| 0 <= j < open.len() implies s[j] != ']' && open[j] != ']' by {
            assert(s[j] == open[j]);
            if j > 0 {
                assert(open[j] == host[j - 1]);
                assert(host.contains(host[j - 1]));
            }
        }
        assert(s[open.len() as int] == ']');
        text::lemma_scan_is(s, ']', open.len() as int);
        text::lemma_scan_is(open, ']', open.len() as int);
        assert(s.take(open.len() as int + 1) =~= seq!['['] + host + seq![']']);
        assert(s[0] == '[' && open[0] == '[');
    }
}

/// A box's name is its session's name, its capital letters made small, with
/// `.min.internal` behind it.
pub proof fn law_box_name_is_the_session_name_in_the_zone(session_name: Seq<char>)
    ensures
        hostname_of(session_name) == text::lower(session_name) + seq![
            '.',
            'm',
            'i',
            'n',
            '.',
            'i',
            'n',
            't',
            'e',
            'r',
            'n',
            'a',
            'l',
        ],
{
    reveal_strlit("min.internal");
    assert(hostname_of(session_name) =~= text::lower(session_name) + seq![
        '.',
        'm',
        'i',
        'n',
        '.',
        'i',
        'n',
        't',
        'e',
        'r',
        'n',
        'a',
        'l',
    ]);
}

/// The host is told of `127.0.0.1`, of the node's own addresses and of those from
/// `127.64.0.0` to `127.64.0.255`, and of no others.
pub proof fn law_host_is_told_of_its_own_addresses(addr: Ipv4Addr, node: Seq<Ipv4Addr>)
    ensures
        host_answerable(addr, node) <==> {
            ||| addr.bits == 127 * 16777216 + 1
            ||| exists|i: int| 0 <= i < node.len() && #[trigger] node[i] == addr
            ||| 127 * 16777216 + 64 * 65536 <= addr.bits <= 127 * 16777216 + 64 * 65536 + 255
        },
{
}

/// A box behind host loopback is reached there at the port that is asked for, if
/// it declared that port or gates none; a box at a lease is reached at the lease,
/// at the port that its map gives. Nothing else is reached.
pub proof fn law_route_reaches_the_declared_ports(
    session: Seq<char>,
    declared: Set<u16>,
    lease: Ipv4Addr,
    ports: Map<u16, u16>,
    port: u16,
)
    ensures
        RouteView::loopback(session, None).upstream(port) == Some(
            Endpoint { ip: Ipv4Addr { bits: 0x7f00_0001 }, port },
        ),
        RouteView::loopback(session, Some(declared)).upstream(port) == (if declared.contains(port) {
            Some(Endpoint { ip: Ipv4Addr { bits: 0x7f00_0001 }, port })
        } else {
            None
        }),
        RouteView::lease(session, lease, ports).upstream(port) == (if ports.contains_key(port) {
            Some(Endpoint { ip: lease, port: ports[port] })
        } else {
            None
        }),
        RouteView::loopback(session, None).address().bits == 0x7f00_0001,
        RouteView::loopback(session, Some(declared)).address().bits == 0x7f00_0001,
        RouteView::lease(session, lease, ports).address() == lease,
        RouteView::loopback(session, None).session == session,
        RouteView::loopback(session, Some(declared)).session == session,
        RouteView::lease(session, lease, ports).session == session,
{
}

/// A box with an address of its own is reached at its lease where the daemon sits
/// on the switch, and on host loopback at its declared ports where it does not.
pub proof fn law_reported_box_is_reached_off_the_switch_too(
    registry: RegistryView,
    id: SessionId,
    session_name: Seq<char>,
    lease: Ipv4Addr,
    ports: Map<u16, u16>,
    declared: Set<u16>,
    port: u16,
)
    ensures
        ({
            let route = registry.reported(id, session_name, lease, ports).lookup(
                hostname_of(session_name),
            );
            &&& route is Some
            &&& route->0.session == session_name
            &&& route->0.upstream(port) == (if !ports.contains_key(port) {
                None
            } else if registry.on_switch {
                Some(Endpoint { ip: lease, port: ports[port] })
            } else {
                Some(Endpoint { ip: Ipv4Addr { bits: 0x7f00_0001 }, port })
            })
        }),
        ({
            let route = registry.own_route(session_name, OwnView { lease, ports }, declared);
            &&& route.session == session_name
            &&& route.upstream(port) == (if registry.on_switch {
                if ports.contains_key(port) {
                    Some(Endpoint { ip: lease, port: ports[port] })
                } else {
                    None
                }
            } else if declared.contains(port) {
                Some(Endpoint { ip: Ipv4Addr { bits: 0x7f00_0001 }, port })
            } else {
                None
            })
        }),
{
}

/// Registering, reporting and forgetting a session leave the names, leases and
/// facts of every other as they were.
pub proof fn law_other_sessions_are_left_alone(
    registry: RegistryView,
    id: SessionId,
    session_name: Seq<char>,
    route: RouteView,
    lease: Ipv4Addr,
    ports: Map<u16, u16>,
    host: Seq<char>,
    bits: u32,
    other: u128,
)
    requires
        host != hostname_of(session_name),
        bits != lease.bits,
        registry.own.contains_key(id.id) ==> bits != registry.own[id.id].lease.bits,
        other != id.id,
    ensures
        ({
            let told = registry.reported(id, session_name, lease, ports);
            let plain = registry.registered(id, session_name, route);
            let gone = registry.forgotten(id);
            &&& told.by_host.contains_key(host) == registry.by_host.contains_key(host)
            &&& told.by_host[host] == registry.by_host[host]
            &&& plain.by_host.contains_key(host) == registry.by_host.contains_key(host)
            &&& plain.by_host[host] == registry.by_host[host]
            &&& gone.by_host == registry.by_host
            &&& gone.by_session == registry.by_session
            &&& plain.by_lease == registry.by_lease
            &&& plain.own == registry.own
            &&& plain.callers == registry.callers
            &&& told.callers == registry.callers
            &&& told.by_lease.contains_key(bits) == registry.by_lease.contains_key(bits)
            &&& told.by_lease[bits] == registry.by_lease[bits]
            &&& gone.by_lease.contains_key(bits) == registry.by_lease.contains_key(bits)
            &&& gone.by_lease[bits] == registry.by_lease[bits]
            &&& told.own.contains_key(other) == registry.own.contains_key(other)
            &&& told.own[other] == registry.own[other]
            &&& gone.own.contains_key(other) == registry.own.contains_key(other)
            &&& gone.own[other] == registry.own[other]
            &&& gone.callers.contains_key(other) == registry.callers.contains_key(other)
            &&& gone.callers[other] == registry.callers[other]
            &&& told.own.contains_key(id.id) && told.own[id.id].lease == lease
                && told.own[id.id].ports == ports
            &&& !gone.own.contains_key(id.id)
        }),
{
}

/// A daemon answers for its own id and for `local`, its own first, and for no
/// other.
pub proof fn law_daemon_answers_for_its_id_and_local(host_id: Seq<char>, label: Seq<char>)
    ensures
        host_ids(host_id)[0] == host_id,
        host_ids(host_id).contains(label) <==> label == host_id || label == seq![
            'l',
            'o',
            'c',
            'a',
            'l',
        ],
        host_ids(host_id).len() <= 2,
{
    reveal_strlit("local");
    let local = seq!['l', 'o', 'c', 'a', 'l'];
    assert("local"@ =~= local);
    let ids = host_ids(host_id);
    assert(ids[0] == host_id);
    assert(ids.contains(ids[0]));
    if host_id != local {
        assert(ids[1] == local);
        assert(ids.contains(ids[1]));
    }
}

/// A name stands for a shorter one exactly if it is some text that is not empty
/// with the ending of one of the ids behind it; the shorter name is that text in
/// the zone.
pub proof fn law_deprecated_name_drops_the_id(ids: Seq<Seq<char>>, host: Seq<char>, stem: Seq<char>, k: int)
    ensures
        two_label_of(ids, host) matches Some(name) ==> exists|j: int, s: Seq<char>|
            {
                &&& 0 <= j < ids.len()
                &&& s.len() > 0
                &&& host == #[trigger] (s + (seq!['.'] + #[trigger] ids[j] + seq!['.']
                    + HOSTNAME_SUFFIX@))
                &&& name == s + seq!['.'] + HOSTNAME_SUFFIX@
            },
        stem.len() > 0 && 0 <= k < ids.len() && host == stem + (seq!['.'] + ids[k] + seq!['.']
            + HOSTNAME_SUFFIX@) ==> two_label_of(ids, host) is Some,
    decreases ids.len(),
{
    if ids.len() > 0 {
        let suffix = legacy_suffix(ids[0]);
        let rest = ids.drop_first();
        law_deprecated_name_drops_the_id(rest, host, stem, k - 1);
        if text::ends_with(host, suffix) && host.len() > suffix.len() {
            let s = host.take(host.len() - suffix.len());
            assert(host =~= s + (seq!['.'] + ids[0] + seq!['.'] + HOSTNAME_SUFFIX@)) by {
                assert(host.skip(host.len() - suffix.len()) == suffix);
                assert(host =~= s + host.skip(host.len() - suffix.len()));
            }
        } else {
            if two_label_of(ids, host) is Some {
                let name = two_label_of(ids, host)->0;
                let (j, s) = choose|j: int, s: Seq<char>|
                    {
                        &&& 0 <= j < rest.len()
                        &&& s.len() > 0
                        &&& host == #[trigger] (s + (seq!['.'] + #[trigger] rest[j] + seq!['.']
                            + HOSTNAME_SUFFIX@))
                        &&& name == s + seq!['.'] + HOSTNAME_SUFFIX@
                    };
                assert(rest[j] == ids[j + 1]);
                assert(host == s + (seq!['.'] + ids[j + 1] + seq!['.'] + HOSTNAME_SUFFIX@));
            }
            if stem.len() > 0 && 0 <= k < ids.len() && host == stem + (seq!['.'] + ids[k]
                + seq!['.'] + HOSTNAME_SUFFIX@) {
                if k == 0 {
                    assert(host.skip(host.len() - suffix.len()) =~= suffix);
                } else {
                    assert(rest[k - 1] == ids[k]);
                }
            }
        }
    }
}

/// What the zone tells of a box is its address, where the host may be told of it;
/// a name is looked up without regard to case, and one that no box holds, by
/// itself or by what it stands for, is absent.
pub proof fn law_zone_tells_of_what_the_host_may_know(
    registry: RegistryView,
    host: Seq<char>,
    low: Seq<char>,
    node: Seq<Ipv4Addr>,
)
    requires
        low == text::lower(host),
    ensures
        registry.by_host.contains_key(low) ==> registry.zone(host, node) == (ZoneEntryView::Held {
            owner: registry.by_host[low].session,
            address: if host_answerable(registry.by_host[low].address(), node) {
                Some(registry.by_host[low].address())
            } else {
                None
            },
        }),
        !registry.by_host.contains_key(low) && two_label_of(registry.host_ids, low) is None
            ==> registry.zone(host, node) is Absent && registry.lookup(low) is None,
        !registry.by_host.contains_key(low) && (two_label_of(registry.host_ids, low) matches Some(
            name,
        ) && !registry.by_host.contains_key(name)) ==> registry.zone(host, node) is Absent
            && registry.lookup(low) is None,
{
}

/// A registration is kept under its session's name with its id, and under the
/// box's name with its route; every other session's stays.
pub proof fn law_registration_is_kept_by_session_and_by_name(
    registry: RegistryView,
    id: SessionId,
    session_name: Seq<char>,
    route: RouteView,
    other: Seq<char>,
)
    requires
        other != session_name,
    ensures
        ({
            let plain = registry.registered(id, session_name, route);
            &&& plain.by_session.contains_key(session_name) && plain.by_session[session_name] == id
            &&& plain.by_host.contains_key(hostname_of(session_name))
                && plain.by_host[hostname_of(session_name)] == route
            &&& plain.by_session.contains_key(other) == registry.by_session.contains_key(other)
            &&& plain.by_session[other] == registry.by_session[other]
            &&& plain.host_ids == registry.host_ids
            &&& plain.on_switch == registry.on_switch
        }),
{
}

} // verus!
