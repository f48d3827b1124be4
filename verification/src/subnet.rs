//! The switch's subnet, the addresses that boxes lease from it, and the
//! configuration that the switch is started with.

use vstd::prelude::*;

use crate::addr::Ipv4Addr;
use crate::text;

verus! {

/// The MTU advertised to the switch and the tap devices.
pub const DEFAULT_MTU: u16 = 1500;

/// The base of the subnet used where none is configured, `100.64.0.0`.
pub const DEFAULT_SUBNET_BASE: u32 = 0x6440_0000;

/// The prefix length of the subnet used where none is configured.
pub const DEFAULT_SUBNET_PREFIX: u8 = 16;

/// What can go wrong while the switch is managed or addresses are allocated.
#[derive(Clone, Debug, PartialEq, Eq)]
pub enum NetError {
    /// The prefix length is one that no switch subnet can have.
    InvalidPrefix(u8),
    /// The subnet has no address left to hand out.
    SubnetExhausted(SwitchSubnet),
    /// The switch's program could not be started.
    Spawn { path: String, detail: String },
    /// The control socket did not appear within so many seconds.
    SocketTimeout(String, u64),
    /// The switch's configuration could not be written.
    WriteConfig { path: String, detail: String },
    /// The switch exited before it was asked to stop.
    UnexpectedExit(Option<i32>),
    /// Any other failure of the system.
    Io(String),
}

/// A 48-bit Ethernet address.
#[derive(Clone, Copy, Debug, PartialEq, Eq, Hash)]
pub struct MacAddr(pub [u8; 6]);

/// Six octets in hexadecimal, separated by colons.
pub open spec fn mac_text(o: Seq<u8>) -> Seq<char> {
    text::hex_byte(o[0]) + seq![':'] + text::hex_byte(o[1]) + seq![':'] + text::hex_byte(o[2])
        + seq![':'] + text::hex_byte(o[3]) + seq![':'] + text::hex_byte(o[4]) + seq![':']
        + text::hex_byte(o[5])
}

/// The octets of the Ethernet address of a switch address: the locally
/// administered prefix `52:54:00`, then the address's low three octets.
pub open spec fn mac_octets(ip: Ipv4Addr) -> Seq<u8> {
    let o = crate::addr::octets_of(ip.bits);
    seq![0x52u8, 0x54u8, 0x00u8, o[1], o[2], o[3]]
}

impl MacAddr {
    /// The Ethernet address of a switch address.
    pub fn for_switch_ip(ip: Ipv4Addr) -> (r: Self)
        ensures
            r.0@ == mac_octets(ip),
    {
        let o: [u8; 4] = ip.octets();
        let r = MacAddr([0x52, 0x54, 0x00, o[1], o[2], o[3]]);
        assert(r.0@ =~= mac_octets(ip));
        r
    }

    /// The Ethernet address of the switch's gateway.
    pub fn gateway() -> (r: Self)
        ensures
            r.0@ == seq![0x5au8, 0x94, 0xef, 0xe4, 0x0c, 0xdd],
    {
        let r = MacAddr([0x5a, 0x94, 0xef, 0xe4, 0x0c, 0xdd]);
        assert(r.0@ =~= seq![0x5au8, 0x94, 0xef, 0xe4, 0x0c, 0xdd]);
        r
    }

    /// The address in hexadecimal, separated by colons.
    pub fn to_text(&self) -> (r: String)
        ensures
            r@ == mac_text(self.0@),
    {
        let mut out: String = String::new();
        self.push_to(&mut out);
        assert(Seq::<char>::empty() + mac_text(self.0@) =~= mac_text(self.0@));
        out
    }

    /// Appends the address in hexadecimal to `out`.
    pub fn push_to(&self, out: &mut String)
        ensures
            final(out)@ == old(out)@ + mac_text(self.0@),
    {
        text::push_hex_byte(out, self.0[0]);
        out.push(':');
        text::push_hex_byte(out, self.0[1]);
        out.push(':');
        text::push_hex_byte(out, self.0[2]);
        out.push(':');
        text::push_hex_byte(out, self.0[3]);
        out.push(':');
        text::push_hex_byte(out, self.0[4]);
        out.push(':');
        text::push_hex_byte(out, self.0[5]);
        assert(out@ =~= old(out)@ + mac_text(self.0@));
    }
}

/// How many addresses a subnet with the given prefix length spans.
pub open spec fn span(prefix: u8) -> int {
    (1u32 << ((32 - prefix) as u32)) as int
}

/// The host part of an address is what is left over by the span.
proof fn lemma_host_part(b: u32, s: u32)
    requires
        3 <= s <= 24,
    ensures
        b & (((1u32 << s) - 1) as u32) == b % (1u32 << s),
{
    vstd::bits::lemma_u32_low_bits_mask_is_mod(b, s as nat);
    vstd::arithmetic::power2::lemma_pow2_strictly_increases(s as nat, 32);
    vstd::arithmetic::power2::lemma2_to64();
    vstd::bits::lemma_u32_shl_is_mul(1, s);
}

/// A subnet that the switch hands addresses out of. The prefix length lies
/// between 8 and 29, both ends included.
#[derive(Clone, Copy, Debug, PartialEq, Eq, Structural)]
pub struct SwitchSubnet {
    base: Ipv4Addr,
    prefix: u8,
}

impl SwitchSubnet {
    /// The prefix length is one that `new` accepts.
    #[verifier::type_invariant]
    spec fn valid(self) -> bool {
        8 <= self.prefix <= 29
    }

    /// The prefix length.
    pub closed spec fn prefix_len(self) -> u8 {
        self.prefix
    }

    /// The number of the network address: the base without its host part.
    pub closed spec fn network_bits(self) -> int {
        self.base.bits - self.base.bits as int % span(self.prefix)
    }

    /// The number of the broadcast address, the last of the subnet.
    pub open spec fn broadcast_bits(self) -> int {
        self.network_bits() + span(self.prefix_len()) - 1
    }

    /// Whether an address belongs to the subnet.
    pub open spec fn holds(self, ip: Ipv4Addr) -> bool {
        self.network_bits() <= ip.bits <= self.broadcast_bits()
    }

    /// The subnet as `network/prefix`.
    pub open spec fn shown(self) -> Seq<char> {
        (Ipv4Addr { bits: self.network_bits() as u32 }).dotted() + seq!['/'] + text::decimal(
            self.prefix_len() as nat,
        )
    }

    /// What holds of the numbers of a subnet.
    proof fn lemma_numbers(self)
        requires
            8 <= self.prefix <= 29,
        ensures
            8 <= span(self.prefix) <= 0x100_0000,
            0 <= self.network_bits(),
            self.network_bits() + span(self.prefix) <= 0x1_0000_0000,
    {
        let s: u32 = (32 - self.prefix) as u32;
        let b: u32 = self.base.bits;
        let m: u32 = 1u32 << s;
        assert(8 <= m <= 0x100_0000u32) by (bit_vector)
            requires
                m == 1u32 << s,
                3 <= s <= 24,
        ;
        let low: u32 = (m - 1) as u32;
        let r: u32 = b & low;
        lemma_host_part(b, s);
        assert(r < m && r <= b && (b - r) + m <= 0x1_0000_0000u64) by (bit_vector)
            requires
                m == 1u32 << s,
                low == m - 1,
                r == b & low,
                3 <= s <= 24,
        ;
    }

    /// The subnet of a base address and a prefix length. A prefix outside 8
    /// to 29 is refused: a narrower subnet has no room for a box, and a wider
    /// one lets the high octet vary, which the Ethernet address leaves out.
    pub fn new(base: Ipv4Addr, prefix: u8) -> (r: Result<Self, NetError>)
        ensures
            match r {
                Ok(subnet) => {
                    &&& 8 <= prefix <= 29
                    &&& subnet.prefix_len() == prefix
                    &&& subnet.network_bits() == base.bits - base.bits as int % span(prefix)
                },
                Err(e) => !(8 <= prefix <= 29) && e == NetError::InvalidPrefix(prefix),
            },
    {
        if prefix < 8 || prefix > 29 {
            return Err(NetError::InvalidPrefix(prefix));
        }
        Ok(SwitchSubnet { base, prefix })
    }

    /// The mask of the network part.
    fn mask(self) -> (r: u32)
        ensures
            self.base.bits & r == self.network_bits(),
            (self.network_bits() as u32) | !r == self.broadcast_bits(),
    {
        proof {
            use_type_invariant(&self);
            self.lemma_numbers();
        }
        let s: u32 = 32 - (self.prefix as u32);
        let mask: u32 = 0xffff_ffffu32 << s;
        proof {
            let b: u32 = self.base.bits;
            let m: u32 = 1u32 << s;
            let low: u32 = (m - 1) as u32;
            let r: u32 = b & low;
            lemma_host_part(b, s);
            let n: u32 = (b - r) as u32;
            assert(b & mask == b - r && n | !mask == n + m - 1) by (bit_vector)
                requires
                    mask == 0xffff_ffffu32 << s,
                    m == 1u32 << s,
                    low == m - 1,
                    r == b & low,
                    n == b - r,
                    3 <= s <= 24,
            ;
        }
        mask
    }

    /// The prefix length.
    pub fn prefix(self) -> (r: u8)
        ensures
            r == self.prefix_len(),
            8 <= r <= 29,
    {
        proof {
            use_type_invariant(&self);
        }
        self.prefix
    }

    /// The network address.
    pub fn network(self) -> (r: Ipv4Addr)
        ensures
            r.bits == self.network_bits(),
    {
        Ipv4Addr { bits: self.base.bits & self.mask() }
    }

    /// The broadcast address.
    pub fn broadcast(self) -> (r: Ipv4Addr)
        ensures
            r.bits == self.broadcast_bits(),
            r.bits >= self.network_bits() + 7,
    {
        proof {
            use_type_invariant(&self);
            self.lemma_numbers();
        }
        let mask: u32 = self.mask();
        Ipv4Addr { bits: self.network().bits | !mask }
    }

    /// The gateway address, the first after the network address.
    pub fn gateway(self) -> (r: Ipv4Addr)
        ensures
            r.bits == self.network_bits() + 1,
    {
        proof {
            use_type_invariant(&self);
            self.lemma_numbers();
        }
        Ipv4Addr { bits: self.network().bits + 1 }
    }

    /// The address of the resolver that the switch runs: its gateway.
    pub fn dns_server(self) -> (r: Ipv4Addr)
        ensures
            r.bits == self.network_bits() + 1,
    {
        self.gateway()
    }

    /// The host alias, the last before the broadcast address: the switch maps
    /// it to the host's loopback.
    pub fn host_alias(self) -> (r: Ipv4Addr)
        ensures
            r.bits == self.broadcast_bits() - 1,
    {
        proof {
            use_type_invariant(&self);
            self.lemma_numbers();
        }
        Ipv4Addr { bits: self.broadcast().bits - 1 }
    }

    /// The number of the first address that a box may lease.
    fn first_ptask(self) -> (r: u32)
        ensures
            r == self.network_bits() + 2,
    {
        proof {
            use_type_invariant(&self);
            self.lemma_numbers();
        }
        self.network().bits + 2
    }

    /// The number of the last address that a box may lease.
    fn last_ptask(self) -> (r: u32)
        ensures
            r == self.broadcast_bits() - 2,
            r <= 0xffff_fffd,
    {
        proof {
            use_type_invariant(&self);
            self.lemma_numbers();
        }
        self.broadcast().bits - 2
    }

    /// The network mask as an address.
    pub fn netmask(self) -> (r: Ipv4Addr)
        ensures
            r.bits == 0x1_0000_0000 - span(self.prefix_len()),
    {
        proof {
            use_type_invariant(&self);
            self.lemma_numbers();
        }
        let s: u32 = 32 - (self.prefix as u32);
        let mask: u32 = 0xffff_ffffu32 << s;
        proof {
            let m: u32 = 1u32 << s;
            assert(mask + m == 0x1_0000_0000u64) by (bit_vector)
                requires
                    mask == 0xffff_ffffu32 << s,
                    m == 1u32 << s,
                    3 <= s <= 24,
            ;
        }
        Ipv4Addr { bits: mask }
    }

    /// The subnet as `network/prefix`.
    pub fn to_text(self) -> (r: String)
        ensures
            r@ == self.shown(),
    {
        let mut out: String = self.network().to_text();
        out.push('/');
        text::push_decimal(&mut out, self.prefix as u64);
        assert(out@ =~= self.shown());
        out
    }
}

impl Default for SwitchSubnet {
    /// `100.64.0.0/16`.
    fn default() -> (r: Self)
        ensures
            r.prefix_len() == DEFAULT_SUBNET_PREFIX,
            r.network_bits() == DEFAULT_SUBNET_BASE,
            r.broadcast_bits() == 0x6440_ffff,
    {
        assert(1u32 << 16u32 == 0x1_0000u32) by (bit_vector);
        assert((32 - DEFAULT_SUBNET_PREFIX) as u32 == 16u32);
        assert(0x6440_0000int % 0x1_0000 == 0);
        SwitchSubnet {
            base: Ipv4Addr { bits: DEFAULT_SUBNET_BASE },
            prefix: DEFAULT_SUBNET_PREFIX,
        }
    }
}

/// One box's place on the switch.
#[derive(Clone, Copy, Debug, PartialEq, Eq)]
pub struct PtaskLease {
    pub ip: Ipv4Addr,
    pub mac: MacAddr,
}

/// Hands out the addresses of a subnet, each once.
#[derive(Debug)]
pub struct IpAllocator {
    subnet: SwitchSubnet,
    next: u32,
    leases: Vec<PtaskLease>,
}

impl IpAllocator {
    /// The leases run in sequence from the first address a box may lease, each
    /// with its own Ethernet address.
    pub closed spec fn wf(self) -> bool {
        &&& self.next == self.first() + self.leases@.len()
        &&& self.next <= self.last() + 1
        &&& forall|i: int|
            0 <= i < self.leases@.len() ==> {
                &&& (#[trigger] self.leases@[i]).ip.bits == self.first() + i
                &&& self.leases@[i].mac.0@ == mac_octets(self.leases@[i].ip)
            }
    }

    /// The subnet.
    pub closed spec fn pool(self) -> SwitchSubnet {
        self.subnet
    }

    /// The leases handed out, oldest first.
    pub closed spec fn book(self) -> Seq<PtaskLease> {
        self.leases@
    }

    /// The number of the first address a box may lease.
    pub open spec fn first(self) -> int {
        self.pool().network_bits() + 2
    }

    /// The number of the last address a box may lease.
    pub open spec fn last(self) -> int {
        self.pool().broadcast_bits() - 2
    }

    /// There are no more leases than addresses.
    pub proof fn lemma_count(self)
        requires
            self.wf(),
        ensures
            self.book().len() <= u32::MAX,
    {
    }

    /// An allocator that has handed out nothing.
    pub fn new(subnet: SwitchSubnet) -> (r: Self)
        ensures
            r.wf(),
            r.pool() == subnet,
            r.book() == Seq::<PtaskLease>::empty(),
    {
        let next: u32 = subnet.first_ptask();
        proof {
            use_type_invariant(&subnet);
            subnet.lemma_numbers();
        }
        IpAllocator { subnet, next, leases: Vec::new() }
    }

    /// The subnet.
    pub fn subnet(&self) -> (r: SwitchSubnet)
        ensures
            r == self.pool(),
    {
        self.subnet
    }

    /// Hands out the next address with its Ethernet address. An address is
    /// never handed out twice. Once the last one is gone, no more come.
    pub fn allocate(&mut self) -> (r: Result<PtaskLease, NetError>)
        requires
            old(self).wf(),
        ensures
            final(self).wf(),
            final(self).pool() == old(self).pool(),
            match r {
                Ok(lease) => {
                    &&& old(self).first() + old(self).book().len() <= old(self).last()
                    &&& lease.ip.bits == old(self).first() + old(self).book().len()
                    &&& lease.mac.0@ == mac_octets(lease.ip)
                    &&& final(self).book() == old(self).book().push(lease)
                },
                Err(e) => {
                    &&& old(self).first() + old(self).book().len() > old(self).last()
                    &&& e == NetError::SubnetExhausted(old(self).pool())
                    &&& final(self).book() == old(self).book()
                },
            },
    {
        let next: u32 = self.next;
        let last: u32 = self.subnet.last_ptask();
        if next > last {
            return Err(NetError::SubnetExhausted(self.subnet));
        }
        let ip: Ipv4Addr = Ipv4Addr { bits: next };
        let lease: PtaskLease = PtaskLease { ip, mac: MacAddr::for_switch_ip(ip) };
        self.next = next + 1;
        self.leases.push(lease);
        Ok(lease)
    }

    /// The leases handed out, oldest first.
    pub fn leases(&self) -> (r: &[PtaskLease])
        ensures
            r@ == self.book(),
    {
        self.leases.as_slice()
    }
}

// ---------------------------------------------------------------------------
// Laws of the address book
// ---------------------------------------------------------------------------

/// Two addresses of one subnet with the same Ethernet address are the same
/// address.
pub proof fn law_mac_determines_address(subnet: SwitchSubnet, a: Ipv4Addr, b: Ipv4Addr)
    requires
        8 <= subnet.prefix_len() <= 29,
        subnet.holds(a),
        subnet.holds(b),
        mac_octets(a) == mac_octets(b),
    ensures
        a == b,
{
    subnet.lemma_numbers();
    let s: u32 = (32 - subnet.prefix_len()) as u32;
    let m: u32 = 1u32 << s;
    let low: u32 = (m - 1) as u32;
    let base: u32 = subnet.base.bits;
    lemma_host_part(base, s);
    let n: u32 = (base - (base & low)) as u32;
    assert(base & low <= base && n & low == 0) by (bit_vector)
        requires
            n == base - (base & low),
            m == 1u32 << s,
            low == m - 1,
            3 <= s <= 24,
    ;
    let x: u32 = a.bits;
    let y: u32 = b.bits;
    assert(x / 0x100_0000u32 == y / 0x100_0000u32) by (bit_vector)
        requires
            n & low == 0,
            m == 1u32 << s,
            low == m - 1,
            3 <= s <= 24,
            n <= x,
            x - n <= low,
            n <= y,
            y - n <= low,
    ;
    crate::addr::lemma_bits_of_octets(x);
    crate::addr::lemma_bits_of_octets(y);
    let p = mac_octets(a);
    let q = mac_octets(b);
    assert(p[3] == q[3] && p[4] == q[4] && p[5] == q[5]);
}

impl IpAllocator {
    /// The leases of an allocator ascend, so that no address is handed out
    /// twice, and none of them is the network, gateway, host alias or
    /// broadcast address.
    pub proof fn law_leases_ascend_between_the_reserved(self, i: int, j: int)
        requires
            self.wf(),
            0 <= i < self.book().len(),
            0 <= j < self.book().len(),
        ensures
            i < j ==> self.book()[i].ip.bits < self.book()[j].ip.bits,
            self.pool().network_bits() + 1 < self.book()[i].ip.bits < self.pool().broadcast_bits()
                - 1,
            self.book()[i].mac.0@ == mac_octets(self.book()[i].ip),
    {
    }
}

// ---------------------------------------------------------------------------
// The switch's configuration
// ---------------------------------------------------------------------------

/// The line of one static lease.
pub open spec fn lease_line(lease: PtaskLease) -> Seq<char> {
    "    \""@ + lease.ip.dotted() + "\": \""@ + mac_text(lease.mac.0@) + "\"\n"@
}

/// The lines of the static leases, in order.
pub open spec fn lease_lines(leases: Seq<PtaskLease>) -> Seq<char>
    decreases leases.len(),
{
    if leases.len() == 0 {
        Seq::empty()
    } else {
        lease_lines(leases.drop_last()) + lease_line(leases.last())
    }
}

/// The part of the configuration before the leases.
pub open spec fn config_head(subnet: SwitchSubnet) -> Seq<char> {
    let gateway = Ipv4Addr { bits: (subnet.network_bits() + 1) as u32 };
    let alias = Ipv4Addr { bits: (subnet.broadcast_bits() - 1) as u32 };
    "stack:\n  mtu: "@ + text::decimal(DEFAULT_MTU as nat) + "\n  subnet: \""@ + subnet.shown()
        + "\"\n  gatewayIP: \""@ + gateway.dotted() + "\"\n  gatewayMacAddress: \""@ + mac_text(
        seq![0x5au8, 0x94, 0xef, 0xe4, 0x0c, 0xdd],
    ) + "\"\n  nat:\n    \""@ + alias.dotted()
        + "\": \"127.0.0.1\"\n  gatewayVirtualIPs:\n    - \""@ + alias.dotted()
        + "\"\n  dhcpStaticLeases:\n"@
}

/// The configuration of a switch with the given subnet and static leases. With
/// no leases the map of leases is written empty.
pub open spec fn config_text(subnet: SwitchSubnet, leases: Seq<PtaskLease>) -> Seq<char> {
    config_head(subnet) + if leases.len() == 0 {
        "    {}\n"@
    } else {
        lease_lines(leases)
    }
}

/// Renders the switch's configuration.
pub fn render_gvproxy_config(subnet: SwitchSubnet, leases: &[PtaskLease]) -> (r: String)
    ensures
        r@ == config_text(subnet, leases@),
{
    let mut s: String = String::new();
    s.append("stack:\n  mtu: ");
    text::push_decimal(&mut s, DEFAULT_MTU as u64);
    s.append("\n  subnet: \"");
    s.append(subnet.to_text().as_str());
    s.append("\"\n  gatewayIP: \"");
    subnet.gateway().push_to(&mut s);
    s.append("\"\n  gatewayMacAddress: \"");
    MacAddr::gateway().push_to(&mut s);
    s.append("\"\n  nat:\n    \"");
    subnet.host_alias().push_to(&mut s);
    s.append("\": \"127.0.0.1\"\n  gatewayVirtualIPs:\n    - \"");
    subnet.host_alias().push_to(&mut s);
    s.append("\"\n  dhcpStaticLeases:\n");
    assert(s@ =~= config_head(subnet));
    if leases.len() == 0 {
        s.append("    {}\n");
        return s;
    }
    let mut i: usize = 0;
    assert(leases@.take(0) =~= Seq::empty());
    assert(s@ =~= config_head(subnet) + lease_lines(leases@.take(0)));
    while i < leases.len()
        invariant
            i <= leases.len(),
            s@ == config_head(subnet) + lease_lines(leases@.take(i as int)),
        decreases leases.len() - i,
    {
        let ghost before = s@;
        s.append("    \"");
        leases[i].ip.push_to(&mut s);
        s.append("\": \"");
        leases[i].mac.push_to(&mut s);
        s.append("\"\n");
        assert(s@ =~= before + lease_line(leases@[i as int]));
        i = i + 1;
        assert(leases@.take(i as int).drop_last() =~= leases@.take(i - 1));
        assert(s@ =~= config_head(subnet) + lease_lines(leases@.take(i as int)));
    }
    assert(leases@.take(leases@.len() as int) =~= leases@);
    s
}

// ---------------------------------------------------------------------------
// Laws of the subnet
// ---------------------------------------------------------------------------

/// The narrowest subnet spans eight addresses, and each bit that the prefix is
/// shorter by doubles them.
pub proof fn law_shorter_prefix_doubles_the_span(prefix: u8)
    requires
        8 <= prefix <= 29,
    ensures
        span(29) == 8,
        prefix < 29 ==> span(prefix) == 2 * span((prefix + 1) as u8),
{
    assert(1u32 << 3u32 == 8u32) by (bit_vector);
    assert((32 - 29u8) as u32 == 3u32);
    if prefix < 29 {
        let s: u32 = (32 - prefix) as u32;
        let t: u32 = (s - 1) as u32;
        assert(1u32 << s == 2 * (1u32 << t)) by (bit_vector)
            requires
                s == t + 1,
                3 <= t <= 23,
        ;
        assert((32 - (prefix + 1) as u8) as u32 == t);
    }
}

impl SwitchSubnet {
    /// A subnet is a whole block: its first number is a multiple of its span, it
    /// holds as many addresses as it spans, and the address it was made of is one
    /// of them.
    pub proof fn law_subnet_is_one_block(self)
        requires
            8 <= self.prefix_len() <= 29,
        ensures
            self.network_bits() % span(self.prefix_len()) == 0,
            self.broadcast_bits() - self.network_bits() + 1 == span(self.prefix_len()),
            0 <= self.network_bits(),
            self.broadcast_bits() <= 0xffff_ffff,
    {
        self.lemma_numbers();
        let m = span(self.prefix);
        let b = self.base.bits as int;
        assert((b - b % m) % m == 0) by (nonlinear_arith)
            requires
                m > 0,
                b >= 0,
        ;
    }
}

/// The Ethernet address of a switch address begins with `52:54:00` and ends in
/// the low three octets of the address, the higher first.
pub proof fn law_mac_ends_in_the_address(ip: Ipv4Addr)
    ensures
        mac_octets(ip).len() == 6,
        mac_octets(ip)[0] == 0x52,
        mac_octets(ip)[1] == 0x54,
        mac_octets(ip)[2] == 0,
        mac_octets(ip)[3] * 0x1_0000 + mac_octets(ip)[4] * 0x100 + mac_octets(ip)[5] == ip.bits as int
            % 0x100_0000,
{
    crate::addr::lemma_bits_of_octets(ip.bits);
}

/// An Ethernet address is shown by the two figures of each octet, with a colon
/// behind each but the last.
pub proof fn law_mac_is_shown_octet_by_octet(o: Seq<u8>, i: int)
    requires
        o.len() == 6,
        0 <= i < 6,
    ensures
        mac_text(o).len() == 17,
        mac_text(o).subrange(3 * i, 3 * i + 2) == text::hex_byte(o[i]),
        i < 5 ==> mac_text(o)[3 * i + 2] == ':',
{
    assert forall|k: int| 0 <= k < 6 implies text::hex_byte(#[trigger] o[k]).len() == 2 by {
        text::law_byte_is_shown_by_its_halves(o[k]);
    }
    let t = mac_text(o);
    assert(t.len() == 17);
    assert(t.subrange(0, 2) =~= text::hex_byte(o[0]));
    assert(t.subrange(3, 5) =~= text::hex_byte(o[1]));
    assert(t.subrange(6, 8) =~= text::hex_byte(o[2]));
    assert(t.subrange(9, 11) =~= text::hex_byte(o[3]));
    assert(t.subrange(12, 14) =~= text::hex_byte(o[4]));
    assert(t.subrange(15, 17) =~= text::hex_byte(o[5]));
    assert(i == 0 || i == 1 || i == 2 || i == 3 || i == 4 || i == 5);
}

/// The lines of the leases are one line each, in order.
pub proof fn law_each_lease_has_its_line(a: Seq<PtaskLease>, b: Seq<PtaskLease>, lease: PtaskLease)
    ensures
        lease_lines(a + b) == lease_lines(a) + lease_lines(b),
        lease_lines(seq![lease]) == lease_line(lease),
    decreases b.len(),
{
    let one = seq![lease];
    assert(one.drop_last() =~= Seq::<PtaskLease>::empty());
    assert(lease_lines(one.drop_last()) =~= Seq::<char>::empty());
    assert(one.last() == lease);
    assert(lease_lines(one) =~= lease_line(lease));
    if b.len() == 0 {
        assert(a + b =~= a);
        assert(lease_lines(a) + lease_lines(b) =~= lease_lines(a));
    } else {
        law_each_lease_has_its_line(a, b.drop_last(), lease);
        assert((a + b).drop_last() =~= a + b.drop_last());
        assert((a + b).last() == b.last());
        lemma_behind(lease_lines(a), lease_lines(b.drop_last()), lease_line(b.last()));
    }
}

proof fn lemma_behind(a: Seq<char>, b: Seq<char>, c: Seq<char>)
    ensures
        a + (b + c) == a + b + c,
{
    assert(a + (b + c) =~= a + b + c);
}

/// The configuration ends in the lines of the leases, and says that there are
/// none where it has none; what is before them does not depend on them.
#[verifier::spinoff_prover]
pub proof fn law_configuration_ends_in_the_leases(
    subnet: SwitchSubnet,
    a: Seq<PtaskLease>,
    b: Seq<PtaskLease>,
)
    ensures
        a.len() > 0 ==> config_text(subnet, a + b) == config_text(subnet, a) + lease_lines(b),
        config_text(subnet, Seq::empty()) == config_head(subnet) + "    {}\n"@,
        a.len() > 0 ==> config_text(subnet, a) == config_head(subnet) + lease_lines(a),
{
    if a.len() > 0 {
        law_each_lease_has_its_line(a, b, a[0]);
        lemma_behind(config_head(subnet), lease_lines(a), lease_lines(b));
    }
}

/// Four fields, each between two of five parts.
pub open spec fn filled_in(parts: Seq<Seq<char>>, a: Seq<char>, b: Seq<char>, c: Seq<char>, d: Seq<char>) -> Seq<
    char,
> {
    parts[0] + a + parts[1] + b + parts[2] + c + parts[3] + d + parts[4]
}

/// Whether the part of the configuration before the leases is `parts` around what
/// it says of a subnet, for every subnet: the subnet itself, its first address as
/// the gateway, and its last but one as the host's, twice.
pub open spec fn tells_subnets(parts: Seq<Seq<char>>) -> bool {
    forall|subnet: SwitchSubnet| #[trigger]
        config_head(subnet) == filled_in(
            parts,
            subnet.shown(),
            (Ipv4Addr { bits: (subnet.network_bits() + 1) as u32 }).dotted(),
            (Ipv4Addr { bits: (subnet.broadcast_bits() - 1) as u32 }).dotted(),
            (Ipv4Addr { bits: (subnet.broadcast_bits() - 1) as u32 }).dotted(),
        )
}

/// The part of the configuration before the leases is the same text for every
/// subnet but for what it says of the subnet.
#[verifier::spinoff_prover]
pub proof fn law_configuration_tells_the_subnet_apart()
    ensures
        exists|parts: Seq<Seq<char>>| #[trigger] tells_subnets(parts),
{
    let p0 = "stack:\n  mtu: "@ + text::decimal(DEFAULT_MTU as nat) + "\n  subnet: \""@;
    let p1 = "\"\n  gatewayIP: \""@;
    let p2 = "\"\n  gatewayMacAddress: \""@ + mac_text(seq![0x5au8, 0x94, 0xef, 0xe4, 0x0c, 0xdd])
        + "\"\n  nat:\n    \""@;
    let p3 = "\": \"127.0.0.1\"\n  gatewayVirtualIPs:\n    - \""@;
    let p4 = "\"\n  dhcpStaticLeases:\n"@;
    let parts = seq![p0, p1, p2, p3, p4];
    assert forall|subnet: SwitchSubnet| #[trigger] config_head(subnet) == filled_in(
        parts,
        subnet.shown(),
        (Ipv4Addr { bits: (subnet.network_bits() + 1) as u32 }).dotted(),
        (Ipv4Addr { bits: (subnet.broadcast_bits() - 1) as u32 }).dotted(),
        (Ipv4Addr { bits: (subnet.broadcast_bits() - 1) as u32 }).dotted(),
    ) by {
        let before = p0 + subnet.shown() + p1 + (Ipv4Addr {
            bits: (subnet.network_bits() + 1) as u32,
        }).dotted();
        let mac = mac_text(seq![0x5au8, 0x94, 0xef, 0xe4, 0x0c, 0xdd]);
        lemma_behind(before, "\"\n  gatewayMacAddress: \""@ + mac, "\"\n  nat:\n    \""@);
        lemma_behind(before, "\"\n  gatewayMacAddress: \""@, mac);
    }
    assert(tells_subnets(parts));
}

} // verus!
