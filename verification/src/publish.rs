//! The published boxes: the address that each box's name answers at, and the
//! ports it is published with.

use vstd::prelude::*;

use crate::addr::{IpAddr, Ipv4Addr};
use crate::dns::Hostname;
use crate::session::{NetworkMode, SessionId};
use crate::table::Table;

verus! {

// ---------------------------------------------------------------------------
// Addresses
// ---------------------------------------------------------------------------

/// The number of the first address that is leased to a box, `127.0.64.1`.
pub const FIRST_LOOPBACK: u32 = 0x7f00_4001;

/// How many addresses there are to lease, up to `127.0.64.254`.
pub const LOOPBACK_COUNT: u32 = 254;

/// Whether an address belongs to the range that boxes are leased from.
pub open spec fn in_loopback_range(address: Ipv4Addr) -> bool {
    FIRST_LOOPBACK <= address.bits < FIRST_LOOPBACK + LOOPBACK_COUNT
}

/// The range has no free address.
#[derive(Clone, Copy, Debug, PartialEq, Eq, Structural)]
pub struct RangeExhausted;

/// Leases addresses of the range, the lowest free one first.
#[derive(Debug)]
pub struct LoopbackAllocator {
    taken: Vec<bool>,
}

/// Whether `address` is the lowest of the range that is not leased.
pub open spec fn lowest_free(leased: Set<u32>, address: Ipv4Addr) -> bool {
    &&& in_loopback_range(address)
    &&& !leased.contains(address.bits)
    &&& forall|bits: u32| FIRST_LOOPBACK <= bits < address.bits ==> #[trigger] leased.contains(bits)
}

/// Whether every address of the range is leased.
pub open spec fn exhausted(leased: Set<u32>) -> bool {
    forall|bits: u32|
        FIRST_LOOPBACK <= bits < FIRST_LOOPBACK + LOOPBACK_COUNT ==> #[trigger] leased.contains(bits)
}

impl View for LoopbackAllocator {
    type V = Set<u32>;

    closed spec fn view(&self) -> Set<u32> {
        Set::new(
            |bits: u32|
                FIRST_LOOPBACK <= bits < FIRST_LOOPBACK + LOOPBACK_COUNT && self.taken@[bits
                    - FIRST_LOOPBACK],
        )
    }
}

impl LoopbackAllocator {
    /// There is a mark for each address of the range.
    pub closed spec fn wf(&self) -> bool {
        self.taken@.len() == LOOPBACK_COUNT
    }

    /// An allocator that has leased nothing.
    pub fn new() -> (r: Self)
        ensures
            r.wf(),
            r@ == Set::<u32>::empty(),
    {
        let mut taken: Vec<bool> = Vec::new();
        let mut i: u32 = 0;
        while i < LOOPBACK_COUNT
            invariant
                i <= LOOPBACK_COUNT,
                taken@.len() == i,
                forall|j: int| 0 <= j < i ==> !#[trigger] taken@[j],
            decreases LOOPBACK_COUNT - i,
        {
            taken.push(false);
            i = i + 1;
        }
        let r = LoopbackAllocator { taken };
        assert(r@ =~= Set::<u32>::empty());
        r
    }

    /// Whether an address belongs to the range.
    pub fn in_range(address: Ipv4Addr) -> (r: bool)
        ensures
            r == in_loopback_range(address),
    {
        FIRST_LOOPBACK <= address.bits && address.bits < FIRST_LOOPBACK + LOOPBACK_COUNT
    }

    /// Leases the lowest free address.
    pub fn allocate(&mut self) -> (r: Result<Ipv4Addr, RangeExhausted>)
        requires
            old(self).wf(),
        ensures
            final(self).wf(),
            match r {
                Ok(address) => lowest_free(old(self)@, address) && final(self)@ == old(self)@.insert(
                    address.bits,
                ),
                Err(_) => exhausted(old(self)@) && final(self)@ == old(self)@,
            },
    {
        let ghost before = self@;
        let mut i: u32 = 0;
        while i < LOOPBACK_COUNT
            invariant
                i <= LOOPBACK_COUNT,
                *self == *old(self),
                before == self@,
                self.wf(),
                forall|j: int| 0 <= j < i ==> #[trigger] self.taken@[j],
            decreases LOOPBACK_COUNT - i,
        {
            if !self.taken[i as usize] {
                let address = Ipv4Addr { bits: FIRST_LOOPBACK + i };
                assert forall|bits: u32| FIRST_LOOPBACK <= bits < address.bits implies #[trigger] before.contains(
                bits) by {
                    assert(self.taken@[bits - FIRST_LOOPBACK]);
                }
                self.taken.set(i as usize, true);
                assert(self@ =~= before.insert(address.bits));
                return Ok(address);
            }
            i = i + 1;
        }
        assert forall|bits: u32| FIRST_LOOPBACK <= bits < FIRST_LOOPBACK + LOOPBACK_COUNT implies #[trigger] before.contains(
        bits) by {
            assert(self.taken@[bits - FIRST_LOOPBACK]);
        }
        Err(RangeExhausted)
    }

    /// Takes a lease back. An address that is not leased is left alone.
    pub fn release(&mut self, address: Ipv4Addr)
        requires
            old(self).wf(),
        ensures
            final(self).wf(),
            final(self)@ == old(self)@.remove(address.bits),
    {
        let ghost before = self@;
        if Self::in_range(address) {
            self.taken.set((address.bits - FIRST_LOOPBACK) as usize, false);
        }
        assert(self@ =~= before.remove(address.bits));
    }
}

// ---------------------------------------------------------------------------
// Ports
// ---------------------------------------------------------------------------

/// Whether ports ascend, so that each occurs once.
pub open spec fn ascending(ports: Seq<u16>) -> bool {
    forall|i: int, j: int| 0 <= i < j < ports.len() ==> #[trigger] ports[i] < #[trigger] ports[j]
}

/// The ports in ascending order, each once.
pub fn sorted_ports(ports: &[u16]) -> (r: Vec<u16>)
    ensures
        ascending(r@),
        forall|p: u16| #[trigger] r@.contains(p) <==> ports@.contains(p),
{
    let mut out: Vec<u16> = Vec::new();
    let mut i: usize = 0;
    while i < ports.len()
        invariant
            i <= ports.len(),
            ascending(out@),
            forall|p: u16| #[trigger] out@.contains(p) <==> ports@.take(i as int).contains(p),
        decreases ports.len() - i,
    {
        let port: u16 = ports[i];
        let ghost before = out@;
        let mut at: usize = 0;
        while at < out.len() && out[at] < port
            invariant
                at <= out.len(),
                out@ == before,
                ascending(before),
                forall|j: int| 0 <= j < at ==> #[trigger] before[j] < port,
            decreases out.len() - at,
        {
            at = at + 1;
        }
        let ghost next = ports@.take(i + 1);
        assert(next =~= ports@.take(i as int).push(port));
        assert forall|p: u16| next.contains(p) <==> ports@.take(i as int).contains(p) || p == port by {
            if ports@.take(i as int).contains(p) {
                let k = choose|k: int| 0 <= k < i && ports@.take(i as int)[k] == p;
                assert(next[k] == p);
            }
            assert(next[i as int] == port);
            if next.contains(p) && p != port {
                let k = choose|k: int| 0 <= k < next.len() && next[k] == p;
                assert(ports@.take(i as int)[k] == p);
            }
        }
        if at < out.len() && out[at] == port {
            assert(before.contains(port)) by {
                assert(before[at as int] == port);
            }
        } else {
            out.insert(at, port);
            proof {
                let after = out@;
                assert(after =~= before.insert(at as int, port));
                assert forall|p: u16| after.contains(p) <==> before.contains(p) || p == port by {
                    if before.contains(p) {
                        let k = choose|k: int| 0 <= k < before.len() && before[k] == p;
                        if k < at {
                            assert(after[k] == p);
                        } else {
                            assert(after[k + 1] == p);
                        }
                    }
                    assert(after[at as int] == port);
                    if after.contains(p) && p != port {
                        let k = choose|k: int| 0 <= k < after.len() && after[k] == p;
                        if k < at {
                            assert(before[k] == p);
                        } else {
                            assert(before[k - 1] == p);
                        }
                    }
                }
                assert forall|a: int, b: int| 0 <= a < b < after.len() implies #[trigger] after[a]
                    < #[trigger] after[b] by {
                    let pa = if a < at {
                        a
                    } else {
                        a - 1
                    };
                    let pb = if b < at {
                        b
                    } else {
                        b - 1
                    };
                    if a != at {
                        assert(after[a] == before[pa]);
                    }
                    if b != at {
                        assert(after[b] == before[pb]);
                    }
                }
            }
        }
        i = i + 1;
    }
    assert(ports@.take(ports@.len() as int) =~= ports@);
    out
}

/// Whether a list holds a port.
fn has_port(ports: &Vec<u16>, port: u16) -> (r: bool)
    ensures
        r == ports@.contains(port),
{
    let mut i: usize = 0;
    while i < ports.len()
        invariant
            i <= ports.len(),
            forall|j: int| 0 <= j < i ==> #[trigger] ports@[j] != port,
        decreases ports.len() - i,
    {
        if ports[i] == port {
            assert(ports@[i as int] == port);
            return true;
        }
        i = i + 1;
    }
    false
}

/// A copy of a list of ports.
fn copy_ports(ports: &Vec<u16>) -> (r: Vec<u16>)
    ensures
        r@ == ports@,
{
    let mut out: Vec<u16> = Vec::new();
    let mut i: usize = 0;
    while i < ports.len()
        invariant
            i <= ports.len(),
            out@ == ports@.take(i as int),
        decreases ports.len() - i,
    {
        out.push(ports[i]);
        i = i + 1;
        assert(ports@.take(i as int) =~= ports@.take(i - 1).push(ports@[i - 1]));
    }
    assert(ports@.take(ports@.len() as int) =~= ports@);
    out
}

// ---------------------------------------------------------------------------
// The table
// ---------------------------------------------------------------------------

/// Which address a box is published at.
#[derive(Clone, Copy, Debug, PartialEq, Eq, Structural)]
pub enum AddressKind {
    /// An address of the box's own, leased from the range.
    Own,
    /// The node's address, shared with every other host-address box.
    Shared,
}

/// Two boxes on one shared address that publish the same port.
#[derive(Debug, PartialEq, Eq)]
pub struct PortCollision {
    pub port: u16,
    /// The other box's name.
    pub with: String,
}

/// What is settled when a box is published.
#[derive(Debug, PartialEq, Eq)]
pub struct Publication {
    pub hostname: String,
    pub address: Ipv4Addr,
    pub kind: AddressKind,
    /// The box's own ports, untranslated.
    pub ports: Vec<u16>,
    /// The ports that another box on the same address publishes as well.
    pub collisions: Vec<PortCollision>,
}

/// One published box, as listings show it.
#[derive(Debug, PartialEq, Eq)]
pub struct PublishedBox {
    pub hostname: String,
    pub session_id: SessionId,
    pub address: Ipv4Addr,
    pub kind: AddressKind,
    pub running: bool,
    pub ports: Vec<u16>,
    pub collisions: Vec<PortCollision>,
}

/// What the zone answers for a name.
#[derive(Clone, Copy, Debug, PartialEq, Eq, Structural)]
pub enum Lookup {
    /// A box holds the name, and the name answers the address.
    Address(IpAddr),
    /// A box holds the name, and no address answers right now.
    Held,
    /// No box holds the name.
    Unknown,
}

/// The read side of the zone.
pub trait Zone {
    /// Whether the table can be consulted.
    spec fn consultable(&self) -> bool;

    /// What a name answers.
    spec fn answer(&self, name: Seq<char>) -> Lookup;

    /// What a name, in lower case and without a trailing dot, answers.
    fn lookup(&self, name: &str) -> (r: Lookup)
        requires
            self.consultable(),
        ensures
            r == self.answer(name@),
    ;
}

/// One publication.
struct Entry {
    session_id: SessionId,
    address: Ipv4Addr,
    kind: AddressKind,
    ports: Vec<u16>,
    running: bool,
}

/// One publication, mathematically.
#[verifier::ext_equal]
pub struct EntryView {
    pub session_id: SessionId,
    pub address: Ipv4Addr,
    pub kind: AddressKind,
    pub ports: Seq<u16>,
    pub running: bool,
}

impl Entry {
    spec fn shown(self) -> EntryView {
        EntryView {
            session_id: self.session_id,
            address: self.address,
            kind: self.kind,
            ports: self.ports@,
            running: self.running,
        }
    }
}

/// The published boxes, mathematically.
#[verifier::ext_equal]
pub struct PublishView {
    /// The node's address.
    pub node: Ipv4Addr,
    /// The numbers of the addresses that are leased.
    pub leased: Set<u32>,
    /// The publications, by hostname.
    pub boxes: Map<Seq<char>, EntryView>,
    /// Whether the table has changed since that was last asked.
    pub changed: bool,
}

/// Whether two boxes on the shared address both publish a port.
pub open spec fn collides(
    boxes: Map<Seq<char>, EntryView>,
    hostname: Seq<char>,
    port: u16,
    other: Seq<char>,
) -> bool {
    &&& boxes.contains_key(hostname)
    &&& boxes.contains_key(other)
    &&& other != hostname
    &&& boxes[hostname].kind == AddressKind::Shared
    &&& boxes[other].kind == AddressKind::Shared
    &&& boxes[hostname].ports.contains(port)
    &&& boxes[other].ports.contains(port)
}

/// Whether one collision is listed before another: by port, then by name.
pub open spec fn listed_before(a: PortCollision, b: PortCollision) -> bool {
    a.port < b.port || (a.port == b.port && crate::table::text_before(a.with@, b.with@))
}

/// Whether `list` names every collision of a box, in order.
pub open spec fn names_collisions(
    boxes: Map<Seq<char>, EntryView>,
    hostname: Seq<char>,
    list: Seq<PortCollision>,
) -> bool {
    &&& forall|i: int|
        0 <= i < list.len() ==> collides(boxes, hostname, (#[trigger] list[i]).port, list[i].with@)
    &&& forall|port: u16, other: Seq<char>| #[trigger]
        collides(boxes, hostname, port, other) ==> exists|i: int|
            0 <= i < list.len() && (#[trigger] list[i]).port == port && list[i].with@ == other
    &&& forall|i: int, j: int|
        0 <= i < j < list.len() ==> listed_before(#[trigger] list[i], #[trigger] list[j])
}

impl PublishView {
    /// The table without a box, and with its own address free again.
    pub open spec fn withdrawn(self, hostname: Seq<char>) -> PublishView {
        if self.boxes.contains_key(hostname) {
            PublishView {
                leased: if self.boxes[hostname].kind == AddressKind::Own {
                    self.leased.remove(self.boxes[hostname].address.bits)
                } else {
                    self.leased
                },
                boxes: self.boxes.remove(hostname),
                changed: true,
                ..self
            }
        } else {
            self
        }
    }

    /// The table with one more publication.
    pub open spec fn published(self, hostname: Seq<char>, entry: EntryView) -> PublishView {
        PublishView {
            leased: if entry.kind == AddressKind::Own {
                self.leased.insert(entry.address.bits)
            } else {
                self.leased
            },
            boxes: self.boxes.insert(hostname, entry),
            changed: true,
            ..self
        }
    }

    /// What a name answers.
    pub open spec fn answer(self, name: Seq<char>) -> Lookup {
        if !self.boxes.contains_key(name) {
            Lookup::Unknown
        } else if self.boxes[name].kind == AddressKind::Shared && !self.boxes[name].running {
            Lookup::Held
        } else {
            Lookup::Address(IpAddr::V4(self.boxes[name].address))
        }
    }

    /// The leases are those of the boxes with an address of their own, each box
    /// has its own within the range, and every other box is at the node's
    /// address.
    pub open spec fn consistent(self) -> bool {
        &&& forall|h: Seq<char>| #[trigger]
            self.boxes.contains_key(h) ==> match self.boxes[h].kind {
                AddressKind::Own => in_loopback_range(self.boxes[h].address) && self.leased.contains(
                    self.boxes[h].address.bits,
                ),
                AddressKind::Shared => self.boxes[h].address == self.node,
            }
        &&& forall|g: Seq<char>, h: Seq<char>|
            #[trigger] self.boxes.contains_key(g) && #[trigger] self.boxes.contains_key(h) && g != h
                && self.boxes[g].kind == AddressKind::Own && self.boxes[h].kind == AddressKind::Own
                ==> self.boxes[g].address != self.boxes[h].address
        &&& forall|bits: u32| #[trigger]
            self.leased.contains(bits) ==> exists|h: Seq<char>| #[trigger]
                self.boxes.contains_key(h) && self.boxes[h].kind == AddressKind::Own
                    && self.boxes[h].address.bits == bits
        &&& forall|h: Seq<char>| #[trigger] self.boxes.contains_key(h) ==> ascending(self.boxes[h].ports)
    }
}

/// The hostnames of listed boxes.
pub open spec fn shown_names(boxes: Seq<PublishedBox>) -> Seq<Seq<char>> {
    Seq::new(boxes.len(), |i: int| boxes[i].hostname@)
}

/// Whether a listed box shows an entry of the boxes, and its collisions with the
/// rest of them.
pub open spec fn shown_as(
    boxes: Map<Seq<char>, EntryView>,
    entry: EntryView,
    shown: PublishedBox,
) -> bool {
    &&& shown.session_id == entry.session_id
    &&& shown.address == entry.address
    &&& shown.kind == entry.kind
    &&& shown.running == entry.running
    &&& shown.ports@ == entry.ports
    &&& names_collisions(boxes, shown.hostname@, shown.collisions@)
}

/// The published boxes and the addresses leased to them.
pub struct PublishTable {
    node: Ipv4Addr,
    allocator: LoopbackAllocator,
    boxes: Table<String, Entry>,
    changed: bool,
}

impl View for PublishTable {
    type V = PublishView;

    closed spec fn view(&self) -> PublishView {
        PublishView {
            node: self.node,
            leased: self.allocator@,
            boxes: Map::new(
                |h: Seq<char>| self.boxes@.contains_key(h),
                |h: Seq<char>| self.boxes@[h].shown(),
            ),
            changed: self.changed,
        }
    }
}

impl Default for PublishTable {
    /// The table of a native node, at `127.0.0.1`.
    fn default() -> (r: Self)
        ensures
            r.wf(),
            r@ == (PublishView {
                node: Ipv4Addr { bits: crate::addr::LOCALHOST_BITS },
                leased: Set::empty(),
                boxes: Map::empty(),
                changed: false,
            }),
    {
        Self::new(Ipv4Addr::localhost())
    }
}

impl PublishTable {
    /// The tables are in order and agree with each other.
    pub closed spec fn wf(&self) -> bool {
        self.boxes.wf() && self.allocator.wf() && self@.consistent()
    }

    /// An empty table for a node at `node_address`.
    pub fn new(node_address: Ipv4Addr) -> (r: Self)
        ensures
            r.wf(),
            r@ == (PublishView {
                node: node_address,
                leased: Set::empty(),
                boxes: Map::empty(),
                changed: false,
            }),
    {
        let r = PublishTable {
            node: node_address,
            allocator: LoopbackAllocator::new(),
            boxes: Table::new(),
            changed: false,
        };
        assert(r@.boxes =~= Map::<Seq<char>, EntryView>::empty());
        r
    }

    /// The node's address.
    pub fn node_address(&self) -> (r: Ipv4Addr)
        ensures
            r == self@.node,
    {
        self.node
    }

    /// Whether the table has changed since this was last asked.
    pub fn take_changed(&mut self) -> (r: bool)
        requires
            old(self).wf(),
        ensures
            final(self).wf(),
            r == old(self)@.changed,
            final(self)@ == (PublishView { changed: false, ..old(self)@ }),
    {
        let ghost before = *self;
        let changed: bool = self.changed;
        self.changed = false;
        assert(self@ =~= (PublishView { changed: false, ..before@ }));
        changed
    }

    /// Withdraws a session's box: its name is no longer held, and an address of
    /// its own is free again. Gives the address it was published at.
    pub fn withdraw(&mut self, session_name: &str) -> (r: Option<Ipv4Addr>)
        requires
            old(self).wf(),
        ensures
            final(self).wf(),
            final(self)@ == old(self)@.withdrawn(crate::dns::hostname_of(session_name@)),
            r == (if old(self)@.boxes.contains_key(crate::dns::hostname_of(session_name@)) {
                Some(old(self)@.boxes[crate::dns::hostname_of(session_name@)].address)
            } else {
                None
            }),
    {
        let Hostname(hostname) = Hostname::for_ptask(session_name);
        let ghost before = self@;
        let ghost h = hostname@;
        let gone: Option<Entry> = self.boxes.remove(&hostname);
        match gone {
            None => {
                assert(self@ =~= before);
                None
            },
            Some(entry) => {
                if let AddressKind::Own = entry.kind {
                    self.allocator.release(entry.address);
                }
                self.changed = true;
                proof {
                    assert(entry.shown() == before.boxes[h]);
                    assert(self@.boxes =~= before.boxes.remove(h));
                    assert(self@ =~= before.withdrawn(h));
                    lemma_withdrawn_consistent(before, h);
                }
                Some(entry.address)
            },
        }
    }

    /// Publishes a session's box: at an address of its own, or at the node's
    /// where the box shares the host's address, with its own ports. A box that
    /// is published under the name already is withdrawn first.
    pub fn publish(
        &mut self,
        session_id: SessionId,
        session_name: &str,
        mode: NetworkMode,
        ports: &[u16],
    ) -> (r: Result<Publication, RangeExhausted>)
        requires
            old(self).wf(),
        ensures
            final(self).wf(),
            ({
                let hostname = crate::dns::hostname_of(session_name@);
                let cleared = old(self)@.withdrawn(hostname);
                match r {
                    Err(_) => mode != NetworkMode::HostNet && exhausted(cleared.leased)
                        && final(self)@ == cleared,
                    Ok(publication) => {
                        &&& publication.hostname@ == hostname
                        &&& if mode == NetworkMode::HostNet {
                            publication.kind == AddressKind::Shared && publication.address
                                == cleared.node
                        } else {
                            publication.kind == AddressKind::Own && lowest_free(
                                cleared.leased,
                                publication.address,
                            )
                        }
                        &&& ascending(publication.ports@)
                        &&& forall|p: u16| #[trigger]
                            publication.ports@.contains(p) <==> ports@.contains(p)
                        &&& final(self)@ == cleared.published(
                            hostname,
                            EntryView {
                                session_id,
                                address: publication.address,
                                kind: publication.kind,
                                ports: publication.ports@,
                                running: false,
                            },
                        )
                        &&& names_collisions(final(self)@.boxes, hostname, publication.collisions@)
                    },
                }
            }),
    {
        let Hostname(hostname) = Hostname::for_ptask(session_name);
        self.withdraw(session_name);
        let ghost cleared = self@;
        let (address, kind): (Ipv4Addr, AddressKind) = match mode {
            NetworkMode::HostNet => (self.node, AddressKind::Shared),
            _ => match self.allocator.allocate() {
                Ok(address) => (address, AddressKind::Own),
                Err(e) => {
                    assert(self@ =~= cleared);
                    return Err(e);
                },
            },
        };
        let sorted: Vec<u16> = sorted_ports(ports);
        let entry = Entry { session_id, address, kind, ports: copy_ports(&sorted), running: false };
        let ghost shown = entry.shown();
        let ghost h = hostname@;
        self.boxes.insert(hostname.clone(), entry);
        self.changed = true;
        proof {
            assert(shown =~= (EntryView {
                session_id,
                address,
                kind,
                ports: sorted@,
                running: false,
            }));
            assert(self@.boxes =~= cleared.boxes.insert(h, shown));
            assert(self@ =~= cleared.published(h, shown));
            lemma_published_consistent(cleared, h, shown);
        }
        let collisions: Vec<PortCollision> = self.collisions_of(hostname.as_str());
        Ok(Publication { hostname, address, kind, ports: sorted, collisions })
    }

    /// Records whether a session's box is running; `false` where nothing is
    /// published under the name.
    pub fn set_running(&mut self, session_name: &str, running: bool) -> (r: bool)
        requires
            old(self).wf(),
        ensures
            final(self).wf(),
            ({
                let hostname = crate::dns::hostname_of(session_name@);
                &&& r == old(self)@.boxes.contains_key(hostname)
                &&& final(self)@ == (if r && old(self)@.boxes[hostname].running != running {
                    PublishView {
                        boxes: old(self)@.boxes.insert(
                            hostname,
                            EntryView { running, ..old(self)@.boxes[hostname] },
                        ),
                        changed: true,
                        ..old(self)@
                    }
                } else {
                    old(self)@
                })
            }),
            final(self)@ == old(self)@.marked(crate::dns::hostname_of(session_name@), running),
    {
        let Hostname(hostname) = Hostname::for_ptask(session_name);
        let ghost before = self@;
        let ghost h = hostname@;
        match self.boxes.get(&hostname) {
            None => {
                return false;
            },
            Some(entry) => {
                if entry.running == running {
                    return true;
                }
            },
        }
        let gone: Option<Entry> = self.boxes.remove(&hostname);
        if let Some(entry) = gone {
            let Entry { session_id, address, kind, ports, .. } = entry;
            self.boxes.insert(hostname, Entry { session_id, address, kind, ports, running });
        }
        self.changed = true;
        proof {
            let entry = EntryView { running, ..before.boxes[h] };
            assert(self@.boxes[h] =~= entry);
            assert(self@.boxes =~= before.boxes.insert(h, entry));
            assert forall|bits: u32| #[trigger] self@.leased.contains(bits) implies exists|g: Seq<char>|
                #[trigger] self@.boxes.contains_key(g) && self@.boxes[g].kind == AddressKind::Own
                    && self@.boxes[g].address.bits == bits by {
                let g = choose|g: Seq<char>| #[trigger]
                    before.boxes.contains_key(g) && before.boxes[g].kind == AddressKind::Own
                        && before.boxes[g].address.bits == bits;
                assert(self@.boxes.contains_key(g));
            }
        }
        true
    }

    /// The ports that a box shares with other boxes on the shared address, by
    /// port and then by name.
    fn collisions_of(&self, hostname: &str) -> (r: Vec<PortCollision>)
        requires
            self.wf(),
        ensures
            names_collisions(self@.boxes, hostname@, r@),
    {
        let mut out: Vec<PortCollision> = Vec::new();
        let key: String = hostname.to_owned();
        let entry: &Entry = match self.boxes.get(&key) {
            Some(entry) => entry,
            None => {
                return out;
            },
        };
        if let AddressKind::Own = entry.kind {
            return out;
        }
        let ghost boxes = self@.boxes;
        let ghost keys = self.boxes.keys();
        let ghost ports = entry.ports@;
        // Where each listed collision was found: its port and its box.
        let ghost mut found: Seq<(int, int)> = Seq::empty();
        let count: usize = self.boxes.len();
        let mut i: usize = 0;
        while i < entry.ports.len()
            invariant
                self.wf(),
                boxes == self@.boxes,
                keys == self.boxes.keys(),
                count == keys.len(),
                ports == entry.ports@,
                boxes.contains_key(hostname@),
                boxes[hostname@].ports == ports,
                boxes[hostname@].kind == AddressKind::Shared,
                i <= ports.len(),
                lists_found(boxes, hostname@, ports, keys, out@, found, i as int, 0),
            decreases ports.len() - i,
        {
            let port: u16 = entry.ports[i];
            let mut j: usize = 0;
            while j < count
                invariant
                    self.wf(),
                    boxes == self@.boxes,
                    keys == self.boxes.keys(),
                    count == keys.len(),
                    ports == entry.ports@,
                    boxes.contains_key(hostname@),
                    boxes[hostname@].ports == ports,
                    boxes[hostname@].kind == AddressKind::Shared,
                    i < ports.len(),
                    port == ports[i as int],
                    j <= count,
                    lists_found(boxes, hostname@, ports, keys, out@, found, i as int, j as int),
                decreases count - j,
            {
                proof {
                    self.boxes.lemma_keys();
                }
                let other: &String = self.boxes.key_at(j);
                let listed: &Entry = self.boxes.value_at(j);
                let shared: bool = match listed.kind {
                    AddressKind::Shared => true,
                    AddressKind::Own => false,
                };
                let ghost before = out@;
                let ghost seen = found;
                if shared && !crate::text::same(other.as_str(), hostname) && has_port(
                    &listed.ports,
                    port,
                ) {
                    out.push(PortCollision { port, with: other.clone() });
                    proof {
                        found = found.push((i as int, j as int));
                        assert(collides(boxes, hostname@, port, keys[j as int]));
                        assert forall|b: int| 0 <= b < out@.len() implies #[trigger] at_place(
                            boxes,
                            hostname@,
                            ports,
                            keys,
                            out@[b],
                            found[b],
                        ) && earlier(found[b], (i as int, j + 1)) by {
                            if b < before.len() {
                                assert(at_place(boxes, hostname@, ports, keys, before[b], seen[b]));
                            }
                        }
                    }
                }
                proof {
                    assert forall|a: int, b: int|
                        0 <= a < ports.len() && 0 <= b < keys.len() && earlier((a, b), (i as int, j + 1))
                            && #[trigger] collides(boxes, hostname@, ports[a], keys[b]) implies found.contains(
                    (a, b)) by {
                        if (a, b) == (i as int, j as int) {
                            assert(found.last() == (a, b));
                            assert(found[found.len() - 1] == (a, b));
                        } else {
                            assert(earlier((a, b), (i as int, j as int)));
                            assert(seen.contains((a, b)));
                            let k = choose|k: int| 0 <= k < seen.len() && seen[k] == (a, b);
                            assert(found[k] == (a, b));
                        }
                    }
                    assert(found.len() == out@.len());
                    assert forall|b: int| 0 <= b < out@.len() implies #[trigger] at_place(
                        boxes,
                        hostname@,
                        ports,
                        keys,
                        out@[b],
                        found[b],
                    ) && earlier(found[b], (i as int, j + 1)) by {
                        if b < before.len() {
                            assert(at_place(boxes, hostname@, ports, keys, before[b], seen[b]));
                        }
                    }
                    assert forall|a: int, b: int| 0 <= a < b < found.len() implies earlier(
                        #[trigger] found[a],
                        #[trigger] found[b],
                    ) by {
                        if b < seen.len() {
                            assert(earlier(seen[a], seen[b]));
                        } else {
                            assert(at_place(boxes, hostname@, ports, keys, before[a], seen[a]));
                        }
                    }
                }
                j = j + 1;
            }
            proof {
                assert forall|a: int, b: int|
                    0 <= a < ports.len() && 0 <= b < keys.len() && earlier((a, b), (i + 1, 0))
                        && #[trigger] collides(boxes, hostname@, ports[a], keys[b]) implies found.contains(
                (a, b)) by {
                    assert(earlier((a, b), (i as int, count as int)));
                }
                assert forall|b: int| 0 <= b < out@.len() implies #[trigger] at_place(
                    boxes,
                    hostname@,
                    ports,
                    keys,
                    out@[b],
                    found[b],
                ) && earlier(found[b], (i + 1, 0)) by {
                    assert(at_place(boxes, hostname@, ports, keys, out@[b], found[b]));
                    assert(earlier(found[b], (i as int, count as int)));
                }
            }
            i = i + 1;
        }
        proof {
            self.boxes.lemma_keys();
            assert(ascending(ports));
            lemma_lists_all(boxes, hostname@, ports, keys, out@, found);
        }
        out
    }

    /// Every published box, by hostname, with its collisions.
    pub fn entries(&self) -> (r: Vec<PublishedBox>)
        requires
            self.wf(),
        ensures
            crate::table::lists(shown_names(r@), self@.boxes.dom()),
            forall|i: int|
                0 <= i < r@.len() ==> shown_as(
                    self@.boxes,
                    self@.boxes[(#[trigger] r@[i]).hostname@],
                    r@[i],
                ),
    {
        let mut out: Vec<PublishedBox> = Vec::new();
        let mut i: usize = 0;
        while i < self.boxes.len()
            invariant
                self.wf(),
                i <= self.boxes.keys().len(),
                shown_names(out@) == self.boxes.keys().take(i as int),
                forall|j: int|
                    0 <= j < out@.len() ==> shown_as(
                        self@.boxes,
                        self@.boxes[(#[trigger] out@[j]).hostname@],
                        out@[j],
                    ),
            decreases self.boxes.keys().len() - i,
        {
            proof {
                self.boxes.lemma_keys();
            }
            let hostname: &String = self.boxes.key_at(i);
            let entry: &Entry = self.boxes.value_at(i);
            let collisions: Vec<PortCollision> = self.collisions_of(hostname.as_str());
            let ghost before = out@;
            out.push(
                PublishedBox {
                    hostname: hostname.clone(),
                    session_id: entry.session_id,
                    address: entry.address,
                    kind: entry.kind,
                    running: entry.running,
                    ports: copy_ports(&entry.ports),
                    collisions,
                },
            );
            i = i + 1;
            assert(shown_names(out@) =~= shown_names(before).push(self.boxes.keys()[i - 1]));
            assert(shown_names(out@) =~= self.boxes.keys().take(i as int));
        }
        proof {
            self.boxes.lemma_keys();
            assert(self.boxes.keys().take(i as int) =~= self.boxes.keys());
            assert forall|name: Seq<char>| #[trigger]
                self@.boxes.dom().contains(name) implies shown_names(out@).contains(name) by {
                assert(self.boxes@.contains_key(name));
            }
            assert forall|j: int| 0 <= j < out@.len() implies self@.boxes.dom().contains(
                #[trigger] shown_names(out@)[j],
            ) by {
                assert(self.boxes@.contains_key(self.boxes.keys()[j]));
            }
        }
        out
    }
}

impl Zone for PublishTable {
    open spec fn consultable(&self) -> bool {
        self.wf()
    }

    open spec fn answer(&self, name: Seq<char>) -> Lookup {
        self@.answer(name)
    }

    fn lookup(&self, name: &str) -> (r: Lookup) {
        let key: String = name.to_owned();
        match self.boxes.get(&key) {
            None => Lookup::Unknown,
            Some(entry) => match entry.kind {
                AddressKind::Shared => if entry.running {
                    Lookup::Address(IpAddr::V4(entry.address))
                } else {
                    Lookup::Held
                },
                AddressKind::Own => Lookup::Address(IpAddr::V4(entry.address)),
            },
        }
    }
}

/// Whether one place comes before another: by port, then by box.
spec fn earlier(a: (int, int), b: (int, int)) -> bool {
    a.0 < b.0 || (a.0 == b.0 && a.1 < b.1)
}

/// Whether a listed collision was found at a place.
spec fn at_place(
    boxes: Map<Seq<char>, EntryView>,
    hostname: Seq<char>,
    ports: Seq<u16>,
    keys: Seq<Seq<char>>,
    collision: PortCollision,
    place: (int, int),
) -> bool {
    &&& 0 <= place.0 < ports.len()
    &&& 0 <= place.1 < keys.len()
    &&& collision.port == ports[place.0]
    &&& collision.with@ == keys[place.1]
    &&& collides(boxes, hostname, collision.port, collision.with@)
}

/// Whether `list` holds the collisions found before the place `(i, j)`.
spec fn lists_found(
    boxes: Map<Seq<char>, EntryView>,
    hostname: Seq<char>,
    ports: Seq<u16>,
    keys: Seq<Seq<char>>,
    list: Seq<PortCollision>,
    found: Seq<(int, int)>,
    i: int,
    j: int,
) -> bool {
    &&& found.len() == list.len()
    &&& forall|b: int|
        0 <= b < list.len() ==> #[trigger] at_place(boxes, hostname, ports, keys, list[b], found[b])
            && earlier(found[b], (i, j))
    &&& forall|a: int, b: int|
        0 <= a < b < found.len() ==> earlier(#[trigger] found[a], #[trigger] found[b])
    &&& forall|a: int, b: int|
        0 <= a < ports.len() && 0 <= b < keys.len() && earlier((a, b), (i, j)) && #[trigger] collides(
            boxes,
            hostname,
            ports[a],
            keys[b],
        ) ==> found.contains((a, b))
}

/// A list that was found over every port and every box names every collision.
proof fn lemma_lists_all(
    boxes: Map<Seq<char>, EntryView>,
    hostname: Seq<char>,
    ports: Seq<u16>,
    keys: Seq<Seq<char>>,
    list: Seq<PortCollision>,
    found: Seq<(int, int)>,
)
    requires
        lists_found(boxes, hostname, ports, keys, list, found, ports.len() as int, 0),
        boxes.contains_key(hostname),
        boxes[hostname].ports == ports,
        ascending(ports),
        forall|h: Seq<char>| #[trigger] boxes.contains_key(h) ==> keys.contains(h),
        forall|a: int, b: int|
            0 <= a < b < keys.len() ==> crate::table::text_before(
                #[trigger] keys[a],
                #[trigger] keys[b],
            ),
    ensures
        names_collisions(boxes, hostname, list),
{
    assert forall|i: int| 0 <= i < list.len() implies collides(
        boxes,
        hostname,
        (#[trigger] list[i]).port,
        list[i].with@,
    ) by {
        assert(at_place(boxes, hostname, ports, keys, list[i], found[i]));
    }
    assert forall|port: u16, other: Seq<char>| #[trigger]
        collides(boxes, hostname, port, other) implies exists|i: int|
        0 <= i < list.len() && (#[trigger] list[i]).port == port && list[i].with@ == other by {
        let a = choose|a: int| 0 <= a < ports.len() && ports[a] == port;
        let b = choose|b: int| 0 <= b < keys.len() && keys[b] == other;
        assert(keys.contains(other));
        assert(collides(boxes, hostname, ports[a], keys[b]));
        assert(earlier((a, b), (ports.len() as int, 0)));
        assert(found.contains((a, b)));
        let i = choose|i: int| 0 <= i < found.len() && found[i] == (a, b);
        assert(at_place(boxes, hostname, ports, keys, list[i], found[i]));
        assert(list[i].port == port && list[i].with@ == other);
    }
    assert forall|i: int, j: int| 0 <= i < j < list.len() implies listed_before(
        #[trigger] list[i],
        #[trigger] list[j],
    ) by {
        assert(at_place(boxes, hostname, ports, keys, list[i], found[i]));
        assert(at_place(boxes, hostname, ports, keys, list[j], found[j]));
        assert(earlier(found[i], found[j]));
    }
}

/// Withdrawing a box keeps the leases those of the boxes.
proof fn lemma_withdrawn_consistent(table: PublishView, hostname: Seq<char>)
    requires
        table.consistent(),
    ensures
        table.withdrawn(hostname).consistent(),
{
    let after = table.withdrawn(hostname);
    if table.boxes.contains_key(hostname) {
        assert forall|h: Seq<char>| #[trigger] after.boxes.contains_key(h) implies match after.boxes[h].kind {
            AddressKind::Own => in_loopback_range(after.boxes[h].address) && after.leased.contains(
                after.boxes[h].address.bits,
            ),
            AddressKind::Shared => after.boxes[h].address == after.node,
        } by {
            assert(table.boxes.contains_key(h));
            if after.boxes[h].kind == AddressKind::Own && table.boxes[hostname].kind
                == AddressKind::Own {
                assert(table.boxes[h].address != table.boxes[hostname].address);
            }
        }
        assert forall|bits: u32| #[trigger] after.leased.contains(bits) implies exists|h: Seq<char>|
            #[trigger] after.boxes.contains_key(h) && after.boxes[h].kind == AddressKind::Own
                && after.boxes[h].address.bits == bits by {
            assert(table.leased.contains(bits));
            let h = choose|h: Seq<char>| #[trigger]
                table.boxes.contains_key(h) && table.boxes[h].kind == AddressKind::Own
                    && table.boxes[h].address.bits == bits;
            assert(h != hostname);
            assert(after.boxes.contains_key(h));
        }
        assert forall|g: Seq<char>, h: Seq<char>|
            #[trigger] after.boxes.contains_key(g) && #[trigger] after.boxes.contains_key(h) && g != h
                && after.boxes[g].kind == AddressKind::Own && after.boxes[h].kind
                == AddressKind::Own implies after.boxes[g].address != after.boxes[h].address by {
            assert(table.boxes.contains_key(g) && table.boxes.contains_key(h));
        }
        assert forall|h: Seq<char>| #[trigger] after.boxes.contains_key(h) implies ascending(
            after.boxes[h].ports,
        ) by {
            assert(table.boxes.contains_key(h));
        }
    }
}

/// Publishing a box at an address that is not leased, or at the node's, keeps
/// the leases those of the boxes.
proof fn lemma_published_consistent(table: PublishView, hostname: Seq<char>, entry: EntryView)
    requires
        table.consistent(),
        !table.boxes.contains_key(hostname),
        ascending(entry.ports),
        match entry.kind {
            AddressKind::Own => in_loopback_range(entry.address) && !table.leased.contains(
                entry.address.bits,
            ),
            AddressKind::Shared => entry.address == table.node,
        },
    ensures
        table.published(hostname, entry).consistent(),
{
    let after = table.published(hostname, entry);
    assert forall|g: Seq<char>, h: Seq<char>|
        #[trigger] after.boxes.contains_key(g) && #[trigger] after.boxes.contains_key(h) && g != h
            && after.boxes[g].kind == AddressKind::Own && after.boxes[h].kind
            == AddressKind::Own implies after.boxes[g].address != after.boxes[h].address by {
        if g != hostname {
            assert(table.boxes.contains_key(g));
        }
        if h != hostname {
            assert(table.boxes.contains_key(h));
        }
    }
    assert forall|h: Seq<char>| #[trigger] after.boxes.contains_key(h) implies match after.boxes[h].kind {
        AddressKind::Own => in_loopback_range(after.boxes[h].address) && after.leased.contains(
            after.boxes[h].address.bits,
        ),
        AddressKind::Shared => after.boxes[h].address == after.node,
    } && ascending(after.boxes[h].ports) by {
        if h != hostname {
            assert(table.boxes.contains_key(h));
        }
    }
    assert forall|bits: u32| #[trigger] after.leased.contains(bits) implies exists|h: Seq<char>|
        #[trigger] after.boxes.contains_key(h) && after.boxes[h].kind == AddressKind::Own
            && after.boxes[h].address.bits == bits by {
        if table.leased.contains(bits) {
            let h = choose|h: Seq<char>| #[trigger]
                table.boxes.contains_key(h) && table.boxes[h].kind == AddressKind::Own
                    && table.boxes[h].address.bits == bits;
            assert(after.boxes.contains_key(h));
        } else {
            assert(after.boxes.contains_key(hostname));
        }
    }
}

// ---------------------------------------------------------------------------
// Laws
// ---------------------------------------------------------------------------

/// What holds of a table at any time: the leases are those of the boxes with an
/// address of their own, no two of which share one, and every other box stands at
/// the node's address.
pub proof fn law_table_is_consistent(table: PublishTable)
    requires
        table.wf(),
    ensures
        table@.consistent(),
{
}

/// Two boxes with an address of their own never answer at the same address.
pub proof fn law_own_addresses_are_distinct(table: PublishView, g: Seq<char>, h: Seq<char>)
    requires
        table.consistent(),
        table.boxes.contains_key(g),
        table.boxes.contains_key(h),
        g != h,
        table.boxes[g].kind == AddressKind::Own,
        table.boxes[h].kind == AddressKind::Own,
    ensures
        table.answer(g) != table.answer(h),
{
}

/// Withdrawing a box that was just published gives back the table as it was, but
/// for the note that it changed: no lease is leaked.
pub proof fn law_withdraw_undoes_publish(table: PublishView, hostname: Seq<char>, entry: EntryView)
    requires
        !table.boxes.contains_key(hostname),
        entry.kind == AddressKind::Own ==> !table.leased.contains(entry.address.bits),
    ensures
        table.published(hostname, entry).withdrawn(hostname) == (PublishView {
            changed: true,
            ..table
        }),
{
    let after = table.published(hostname, entry).withdrawn(hostname);
    assert(after.boxes =~= table.boxes);
    assert(after.leased =~= table.leased);
}

/// A withdrawn name is unknown, and every other name answers as before.
pub proof fn law_withdraw_forgets_one_name(table: PublishView, hostname: Seq<char>, name: Seq<char>)
    ensures
        table.withdrawn(hostname).answer(hostname) == Lookup::Unknown,
        name != hostname ==> table.withdrawn(hostname).answer(name) == table.answer(name),
{
}

/// A published name is held from then on: an own address answers whether or not
/// the box runs, and a shared one answers only while it does.
pub proof fn law_published_name_is_held(
    table: PublishView,
    hostname: Seq<char>,
    entry: EntryView,
    running: bool,
)
    ensures
        table.published(hostname, EntryView { running, ..entry }).answer(hostname) == (
        if entry.kind == AddressKind::Own || running {
            Lookup::Address(IpAddr::V4(entry.address))
        } else {
            Lookup::Held
        }),
{
}

/// A collision is seen from both sides.
pub proof fn law_collisions_are_mutual(
    boxes: Map<Seq<char>, EntryView>,
    g: Seq<char>,
    port: u16,
    h: Seq<char>,
)
    ensures
        collides(boxes, g, port, h) == collides(boxes, h, port, g),
{
}

/// A box with an address of its own collides with nothing.
pub proof fn law_own_address_never_collides(
    boxes: Map<Seq<char>, EntryView>,
    hostname: Seq<char>,
    list: Seq<PortCollision>,
)
    requires
        names_collisions(boxes, hostname, list),
        boxes.contains_key(hostname),
        boxes[hostname].kind == AddressKind::Own,
    ensures
        list.len() == 0,
{
    if list.len() > 0 {
        assert(collides(boxes, hostname, list[0].port, list[0].with@));
    }
}

/// Publishing a box changes what its own name answers and nothing else: every
/// other name answers as before, and every lease but the box's own stays as it
/// was, here and on withdrawal.
pub proof fn law_publish_changes_one_name(
    table: PublishView,
    hostname: Seq<char>,
    entry: EntryView,
    name: Seq<char>,
    bits: u32,
)
    requires
        name != hostname,
    ensures
        table.published(hostname, entry).answer(name) == table.answer(name),
        table.published(hostname, entry).boxes.contains_key(name) == table.boxes.contains_key(name),
        table.published(hostname, entry).boxes[name] == table.boxes[name],
        table.withdrawn(hostname).boxes.contains_key(name) == table.boxes.contains_key(name),
        table.withdrawn(hostname).boxes[name] == table.boxes[name],
        table.published(hostname, entry).node == table.node,
        table.withdrawn(hostname).node == table.node,
        table.published(hostname, entry).changed,
        table.published(hostname, entry).leased.contains(bits) <==> table.leased.contains(bits) || (
        entry.kind == AddressKind::Own && bits == entry.address.bits),
        table.withdrawn(hostname).leased.contains(bits) <==> table.leased.contains(bits) && !(
        table.boxes.contains_key(hostname) && table.boxes[hostname].kind == AddressKind::Own && bits
            == table.boxes[hostname].address.bits),
        !table.boxes.contains_key(name) ==> table.answer(name) == Lookup::Unknown,
{
}

/// Two boxes at the shared address that both publish a port collide on it, and
/// the list of either names the other, once; boxes without a port in common do
/// not collide.
pub proof fn law_ports_in_common_collide(
    boxes: Map<Seq<char>, EntryView>,
    g: Seq<char>,
    h: Seq<char>,
    port: u16,
    list: Seq<PortCollision>,
)
    requires
        g != h,
        boxes.contains_key(g),
        boxes.contains_key(h),
        boxes[g].kind == AddressKind::Shared,
        boxes[h].kind == AddressKind::Shared,
        names_collisions(boxes, g, list),
    ensures
        (exists|i: int| 0 <= i < list.len() && (#[trigger] list[i]).port == port && list[i].with@ == h)
            <==> (boxes[g].ports.contains(port) && boxes[h].ports.contains(port)),
        forall|i: int, j: int|
            0 <= i < j < list.len() ==> (#[trigger] list[i]).port <= (#[trigger] list[j]).port && !(
            list[i].port == list[j].port && list[i].with@ == list[j].with@),
{
    if boxes[g].ports.contains(port) && boxes[h].ports.contains(port) {
        assert(collides(boxes, g, port, h));
    }
    if exists|i: int| 0 <= i < list.len() && (#[trigger] list[i]).port == port && list[i].with@ == h {
        let i = choose|i: int|
            0 <= i < list.len() && (#[trigger] list[i]).port == port && list[i].with@ == h;
        assert(collides(boxes, g, list[i].port, list[i].with@));
    }
    assert forall|i: int, j: int| 0 <= i < j < list.len() implies (#[trigger] list[i]).port <= (
    #[trigger] list[j]).port && !(list[i].port == list[j].port && list[i].with@ == list[j].with@) by {
        assert(listed_before(list[i], list[j]));
        crate::table::lemma_text_total(list[i].with@, list[j].with@, list[i].with@);
    }
}

/// The range that boxes are leased from runs from `127.0.64.1` to `127.0.64.254`;
/// the next lease is the lowest address that no box holds, and there is one
/// unless all of them are held.
pub proof fn law_lowest_free_address_is_leased_next(leased: Set<u32>, a: Ipv4Addr, b: Ipv4Addr)
    ensures
        in_loopback_range(a) <==> 127 * 16777216 + 64 * 256 + 1 <= a.bits <= 127 * 16777216 + 64 * 256
            + 254,
        lowest_free(leased, a) ==> in_loopback_range(a) && !leased.contains(a.bits) && !exhausted(
            leased,
        ),
        lowest_free(leased, a) && in_loopback_range(b) && !leased.contains(b.bits) ==> a.bits
            <= b.bits,
        exhausted(leased) && in_loopback_range(a) ==> leased.contains(a.bits),
{
}

/// Collisions are listed by port, and those of one port by the other box's name;
/// a table is marked as changed by a withdrawal that took something out.
pub proof fn law_collisions_are_listed_by_port_and_name(
    boxes: Map<Seq<char>, EntryView>,
    hostname: Seq<char>,
    list: Seq<PortCollision>,
    i: int,
    j: int,
    table: PublishView,
)
    requires
        names_collisions(boxes, hostname, list),
        0 <= i < j < list.len(),
    ensures
        list[i].port <= list[j].port,
        list[i].port == list[j].port ==> crate::table::text_before(list[i].with@, list[j].with@),
        list[i].with@ != hostname,
        table.withdrawn(hostname).changed <==> table.changed || table.boxes.contains_key(hostname),
{
    assert(listed_before(list[i], list[j]));
    assert(collides(boxes, hostname, list[i].port, list[i].with@));
}

/// A listed box shows the session, the address, the kind, the ports and the state
/// that it is published with.
pub proof fn law_listed_box_shows_its_publication(
    boxes: Map<Seq<char>, EntryView>,
    entry: EntryView,
    shown: PublishedBox,
)
    requires
        shown_as(boxes, entry, shown),
    ensures
        entry == (EntryView {
            session_id: shown.session_id,
            address: shown.address,
            kind: shown.kind,
            ports: shown.ports@,
            running: shown.running,
        }),
        names_collisions(boxes, shown.hostname@, shown.collisions@),
{
}

impl PublishView {
    /// The table once a box is known to run or not.
    pub open spec fn marked(self, hostname: Seq<char>, running: bool) -> PublishView {
        if self.boxes.contains_key(hostname) && self.boxes[hostname].running != running {
            PublishView {
                boxes: self.boxes.insert(hostname, EntryView { running, ..self.boxes[hostname] }),
                changed: true,
                ..self
            }
        } else {
            self
        }
    }
}

/// A box that is marked as running or not keeps its publication otherwise, and so
/// does every other box; the table has changed exactly if the mark did. A name
/// that is not published is not marked.
pub proof fn law_mark_changes_one_box(
    table: PublishView,
    hostname: Seq<char>,
    running: bool,
    name: Seq<char>,
)
    ensures
        ({
            let after = table.marked(hostname, running);
            &&& after.boxes.contains_key(name) == table.boxes.contains_key(name)
            &&& table.boxes.contains_key(hostname) ==> after.boxes[hostname] == (EntryView {
                running,
                ..table.boxes[hostname]
            })
            &&& name != hostname ==> after.boxes[name] == table.boxes[name] && after.answer(name)
                == table.answer(name)
            &&& after.leased == table.leased
            &&& after.node == table.node
            &&& after.changed <==> table.changed || (table.boxes.contains_key(hostname)
                && table.boxes[hostname].running != running)
            &&& table.marked(hostname, running).marked(hostname, running) == after
        }),
{
}

} // verus!
