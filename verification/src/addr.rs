//! Addresses: IPv4 addresses, IP addresses of either family, and endpoints.

use vstd::prelude::*;

use crate::text;

verus! {

/// An IPv4 address, as the number its four octets write, the first the most
/// significant.
#[derive(Clone, Copy, Debug, PartialEq, Eq, PartialOrd, Ord, Hash, Structural)]
pub struct Ipv4Addr {
    pub bits: u32,
}

/// The bits of `127.0.0.1`.
pub const LOCALHOST_BITS: u32 = 0x7f00_0001;

/// The four octets that write `bits`.
pub open spec fn octets_of(bits: u32) -> Seq<u8> {
    seq![
        (bits as int / 0x100_0000) as u8,
        (bits as int / 0x1_0000 % 256) as u8,
        (bits as int / 0x100 % 256) as u8,
        (bits as int % 256) as u8,
    ]
}

/// The number that four octets write.
pub open spec fn bits_of(o: Seq<u8>) -> int {
    o[0] * 0x100_0000 + o[1] * 0x1_0000 + o[2] * 0x100 + o[3]
}

/// The octets of an address write its bits.
pub proof fn lemma_bits_of_octets(bits: u32)
    ensures
        bits_of(octets_of(bits)) == bits,
{
    assert((bits / 0x100_0000u32) * 0x100_0000 + (bits / 0x1_0000u32 % 256u32) * 0x1_0000 + (bits
        / 0x100u32 % 256u32) * 0x100 + (bits % 256u32) == bits) by (bit_vector);
    assert(bits / 0x100_0000u32 < 256) by (bit_vector);
}

/// The bits of four octets are written by them.
pub proof fn lemma_octets_of_bits(a: u8, b: u8, c: u8, d: u8)
    ensures
        0 <= bits_of(seq![a, b, c, d]) <= 0xffff_ffff,
        octets_of(bits_of(seq![a, b, c, d]) as u32) == seq![a, b, c, d],
{
    let n: u32 = bits_of(seq![a, b, c, d]) as u32;
    let (x, y, z, w): (u32, u32, u32, u32) = (a as u32, b as u32, c as u32, d as u32);
    assert(n == x * 0x100_0000 + y * 0x1_0000 + z * 0x100 + w);
    assert(n / 0x100_0000u32 == x && n / 0x1_0000u32 % 256u32 == y && n / 0x100u32 % 256u32 == z && n
        % 256u32 == w) by (bit_vector)
        requires
            n == x * 0x100_0000 + y * 0x1_0000 + z * 0x100 + w,
            x < 256,
            y < 256,
            z < 256,
            w < 256,
    ;
    assert(octets_of(n) =~= seq![a, b, c, d]);
}

impl Ipv4Addr {
    /// The address in dotted-decimal notation.
    pub open spec fn dotted(self) -> Seq<char> {
        let o = octets_of(self.bits);
        text::decimal(o[0] as nat) + seq!['.'] + text::decimal(o[1] as nat) + seq!['.']
            + text::decimal(o[2] as nat) + seq!['.'] + text::decimal(o[3] as nat)
    }

    /// The address `a.b.c.d`.
    pub fn new(a: u8, b: u8, c: u8, d: u8) -> (r: Self)
        ensures
            r.bits == bits_of(seq![a, b, c, d]),
            octets_of(r.bits) == seq![a, b, c, d],
    {
        proof {
            lemma_octets_of_bits(a, b, c, d);
        }
        Ipv4Addr {
            bits: (a as u32) * 0x100_0000 + (b as u32) * 0x1_0000 + (c as u32) * 0x100 + (d as u32),
        }
    }

    /// `127.0.0.1`.
    pub fn localhost() -> (r: Self)
        ensures
            r.bits == LOCALHOST_BITS,
    {
        Ipv4Addr { bits: LOCALHOST_BITS }
    }

    /// The four octets.
    pub fn octets(&self) -> (r: [u8; 4])
        ensures
            r@ == octets_of(self.bits),
    {
        let n: u32 = self.bits;
        let r: [u8; 4] = [
            (n / 0x100_0000) as u8,
            (n / 0x1_0000 % 256) as u8,
            (n / 0x100 % 256) as u8,
            (n % 256) as u8,
        ];
        assert(r@ =~= octets_of(self.bits));
        r
    }

    /// Whether this is a loopback address (`127.0.0.0/8`).
    pub fn is_loopback(&self) -> (r: bool)
        ensures
            r == (octets_of(self.bits)[0] == 127),
    {
        self.bits / 0x100_0000 == 127
    }

    /// The address in dotted-decimal notation.
    pub fn to_text(&self) -> (r: String)
        ensures
            r@ == self.dotted(),
    {
        let mut out: String = String::new();
        self.push_to(&mut out);
        assert(Seq::<char>::empty() + self.dotted() =~= self.dotted());
        out
    }

    /// Appends the address in dotted-decimal notation to `out`.
    pub fn push_to(&self, out: &mut String)
        ensures
            final(out)@ == old(out)@ + self.dotted(),
    {
        let o: [u8; 4] = self.octets();
        text::push_decimal(out, o[0] as u64);
        out.push('.');
        text::push_decimal(out, o[1] as u64);
        out.push('.');
        text::push_decimal(out, o[2] as u64);
        out.push('.');
        text::push_decimal(out, o[3] as u64);
        assert(out@ =~= old(out)@ + self.dotted());
    }
}

/// An IP address of either family; the sixteen octets of an IPv6 address as
/// one number.
#[derive(Clone, Copy, Debug, PartialEq, Eq, Hash, Structural)]
pub enum IpAddr {
    V4(Ipv4Addr),
    V6(u128),
}

impl IpAddr {
    /// Whether the address is a loopback address: `127.0.0.0/8`, or `::1`.
    pub open spec fn loopback(self) -> bool {
        match self {
            IpAddr::V4(ip) => octets_of(ip.bits)[0] == 127,
            IpAddr::V6(bits) => bits == 1,
        }
    }

    /// Whether this is a loopback address of its family.
    pub fn is_loopback(&self) -> (r: bool)
        ensures
            r == self.loopback(),
    {
        match self {
            IpAddr::V4(ip) => ip.is_loopback(),
            IpAddr::V6(bits) => *bits == 1,
        }
    }
}

/// An address of either family and a port.
#[derive(Clone, Copy, Debug, PartialEq, Eq, Hash, Structural)]
pub struct SocketAddr {
    pub ip: IpAddr,
    pub port: u16,
}

/// An IPv4 address and a port.
#[derive(Clone, Copy, Debug, PartialEq, Eq, Hash, Structural)]
pub struct Endpoint {
    pub ip: Ipv4Addr,
    pub port: u16,
}

impl Endpoint {
    /// The endpoint as `address:port`.
    pub open spec fn shown(self) -> Seq<char> {
        self.ip.dotted() + seq![':'] + text::decimal(self.port as nat)
    }

    /// The endpoint at `ip` and `port`.
    pub fn new(ip: Ipv4Addr, port: u16) -> (r: Self)
        ensures
            r.ip == ip,
            r.port == port,
    {
        Endpoint { ip, port }
    }

    /// The endpoint as `address:port`.
    pub fn to_text(&self) -> (r: String)
        ensures
            r@ == self.shown(),
    {
        let mut out: String = self.ip.to_text();
        out.push(':');
        text::push_decimal(&mut out, self.port as u64);
        assert(out@ =~= self.shown());
        out
    }
}

/// An address in dotted notation is its four octets, the most significant first;
/// they put together are the address again.
pub proof fn law_address_is_shown_by_its_octets(a: u8, b: u8, c: u8, d: u8)
    ensures
        (Ipv4Addr {
            bits: (a * 16777216 + b * 65536 + c * 256 + d) as u32,
        }).dotted() == text::decimal(a as nat) + seq!['.'] + text::decimal(b as nat) + seq!['.']
            + text::decimal(c as nat) + seq!['.'] + text::decimal(d as nat),
        (IpAddr::V4(
            Ipv4Addr { bits: (a * 16777216 + b * 65536 + c * 256 + d) as u32 },
        )).loopback() <==> a == 127,
        forall|n: u128| #[trigger] (IpAddr::V6(n)).loopback() <==> n == 1,
{
    lemma_octets_of_bits(a, b, c, d);
}

} // verus!
