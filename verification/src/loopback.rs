//! The probe of the reserved local range: whether every address that boxes could
//! be published at is there on this host.

use vstd::prelude::*;

use crate::addr::Ipv4Addr;
use crate::dns::{RESERVED_LOCAL_NETWORK, RESERVED_LOCAL_PREFIX, RESERVED_LOCAL_SIZE};
use crate::proxy::ErrorKind;
use crate::text;

verus! {

/// What a probe found.
#[derive(Debug, PartialEq, Eq)]
pub struct RangeProbe {
    /// How many addresses could be bound.
    pub bound: usize,
    /// How many addresses were tried.
    pub probed: usize,
    /// The first address that could not be bound, and why.
    pub first_failure: Option<(Ipv4Addr, ErrorKind)>,
}

/// How many binds succeeded.
pub open spec fn successes(results: Seq<Result<(), ErrorKind>>) -> nat
    decreases results.len(),
{
    if results.len() == 0 {
        0
    } else {
        successes(results.drop_last()) + (if results.last() is Ok {
            1nat
        } else {
            0
        })
    }
}

/// The first bind that failed.
pub open spec fn first_refusal(hosts: Seq<Ipv4Addr>, results: Seq<Result<(), ErrorKind>>) -> Option<
    (Ipv4Addr, ErrorKind),
>
    decreases results.len(),
{
    if results.len() == 0 {
        None
    } else {
        match first_refusal(hosts, results.drop_last()) {
            Some(found) => Some(found),
            None => match results.last() {
                Err(kind) => Some((hosts[results.len() - 1], kind)),
                Ok(_) => None,
            },
        }
    }
}

/// What a probe over `hosts` found, by what came of each bind.
pub open spec fn tallied(
    probe: RangeProbe,
    hosts: Seq<Ipv4Addr>,
    results: Seq<Result<(), ErrorKind>>,
) -> bool {
    &&& probe.probed == results.len()
    &&& probe.bound == successes(results)
    &&& probe.first_failure == first_refusal(hosts, results)
}

/// The range and its prefix, as it is shown.
pub open spec fn range_text() -> Seq<char> {
    (Ipv4Addr { bits: RESERVED_LOCAL_NETWORK }).dotted() + "/"@ + text::decimal(
        RESERVED_LOCAL_PREFIX as nat,
    )
}

impl RangeProbe {
    /// Whether the whole range is there.
    pub open spec fn whole(self) -> bool {
        self.bound == self.probed && self.probed > 0
    }

    /// What the probe found, in one line.
    pub open spec fn shown(self) -> Seq<char> {
        let counts = range_text() + " "@ + text::decimal(self.bound as nat) + "/"@ + text::decimal(
            self.probed as nat,
        ) + " bound"@;
        match self.first_failure {
            None => counts,
            Some((addr, kind)) => counts + "; first refusal "@ + addr.dotted() + " ("@ + kind.shown()
                + ")"@,
        }
    }

    /// The finding of a probe that did not run: the range is not known to be
    /// there.
    pub fn failed_to_run() -> (r: Self)
        ensures
            r.bound == 0,
            r.probed == 0,
            r.first_failure is None,
    {
        RangeProbe { bound: 0, probed: 0, first_failure: None }
    }

    /// Whether the whole range is there: every address that was tried could be
    /// bound, and there was one.
    pub fn present(&self) -> (r: bool)
        ensures
            r == self.whole(),
    {
        self.bound == self.probed && self.probed > 0
    }

    /// Whether the range is taken to be absent.
    pub fn interim(&self) -> (r: bool)
        ensures
            r == !self.whole(),
    {
        !self.present()
    }

    /// Where boxes are published, for the log.
    pub fn surface(&self) -> (r: &'static str)
        ensures
            r@ == (if self.whole() {
                "reserved-range"@
            } else {
                "127.0.0.1-interim"@
            }),
    {
        if self.interim() {
            "127.0.0.1-interim"
        } else {
            "reserved-range"
        }
    }

    /// What the probe found, in one line.
    pub fn summary(&self) -> (r: String)
        ensures
            r@ == self.shown(),
    {
        let mut out: String = (Ipv4Addr { bits: RESERVED_LOCAL_NETWORK }).to_text();
        out.append("/");
        text::push_decimal(&mut out, RESERVED_LOCAL_PREFIX as u64);
        out.append(" ");
        text::push_decimal(&mut out, self.bound as u64);
        out.append("/");
        text::push_decimal(&mut out, self.probed as u64);
        out.append(" bound");
        if let Some((addr, kind)) = &self.first_failure {
            out.append("; first refusal ");
            addr.push_to(&mut out);
            out.append(" (");
            out.append(kind.to_text().as_str());
            out.append(")");
        }
        assert(out@ =~= self.shown());
        out
    }
}

/// Every usable address of the reserved range: all but the first and the last.
pub fn range_hosts() -> (r: Vec<Ipv4Addr>)
    ensures
        r@.len() == RESERVED_LOCAL_SIZE - 2,
        forall|i: int| 0 <= i < r@.len() ==> (#[trigger] r@[i]).bits == RESERVED_LOCAL_NETWORK + 1 + i,
{
    let mut out: Vec<Ipv4Addr> = Vec::new();
    let mut host: u32 = 1;
    while host < RESERVED_LOCAL_SIZE - 1
        invariant
            1 <= host <= RESERVED_LOCAL_SIZE - 1,
            out@.len() == host - 1,
            forall|i: int|
                0 <= i < out@.len() ==> (#[trigger] out@[i]).bits == RESERVED_LOCAL_NETWORK + 1 + i,
        decreases RESERVED_LOCAL_SIZE - host,
    {
        out.push(Ipv4Addr { bits: RESERVED_LOCAL_NETWORK + host });
        host = host + 1;
    }
    out
}

/// Probes `hosts`, each with one `bind`.
pub fn probe_over<B: Fn(Ipv4Addr) -> Result<(), ErrorKind>>(hosts: &[Ipv4Addr], bind: B) -> (r:
    RangeProbe)
    requires
        forall|addr: Ipv4Addr| #[trigger] call_requires(bind, (addr,)),
    ensures
        exists|results: Seq<Result<(), ErrorKind>>|
            {
                &&& results.len() == hosts@.len()
                &&& #[trigger] tallied(r, hosts@, results)
                &&& forall|i: int|
                    0 <= i < hosts@.len() ==> call_ensures(bind, (hosts@[i],), #[trigger] results[i])
            },
{
    let mut bound: usize = 0;
    let mut probed: usize = 0;
    let mut first_failure: Option<(Ipv4Addr, ErrorKind)> = None;
    let ghost mut results: Seq<Result<(), ErrorKind>> = Seq::empty();
    while probed < hosts.len()
        invariant
            forall|addr: Ipv4Addr| #[trigger] call_requires(bind, (addr,)),
            probed <= hosts.len(),
            bound <= probed,
            results.len() == probed,
            bound == successes(results),
            first_failure == first_refusal(hosts@, results),
            forall|i: int|
                0 <= i < probed ==> call_ensures(bind, (hosts@[i],), #[trigger] results[i]),
        decreases hosts.len() - probed,
    {
        let addr: Ipv4Addr = hosts[probed];
        let ghost before = results;
        let result: Result<(), ErrorKind> = bind(addr);
        proof {
            results = before.push(result);
            assert(results.drop_last() =~= before);
        }
        match result {
            Ok(_) => {
                bound = bound + 1;
            },
            Err(kind) => {
                if first_failure.is_none() {
                    first_failure = Some((addr, kind));
                }
            },
        }
        probed = probed + 1;
    }
    let r = RangeProbe { bound, probed, first_failure };
    assert(tallied(r, hosts@, results));
    r
}

// ---------------------------------------------------------------------------
// Laws
// ---------------------------------------------------------------------------

proof fn lemma_successes(results: Seq<Result<(), ErrorKind>>)
    ensures
        successes(results) <= results.len(),
        successes(results) == results.len() <==> forall|i: int|
            0 <= i < results.len() ==> #[trigger] results[i] is Ok,
    decreases results.len(),
{
    if results.len() > 0 {
        let before = results.drop_last();
        lemma_successes(before);
        assert(results[results.len() - 1] == results.last());
        if forall|i: int| 0 <= i < results.len() ==> #[trigger] results[i] is Ok {
            assert forall|i: int| 0 <= i < before.len() implies #[trigger] before[i] is Ok by {
                assert(results[i] is Ok);
            }
        }
        if successes(results) == results.len() {
            assert forall|i: int| 0 <= i < results.len() implies #[trigger] results[i] is Ok by {
                if i < before.len() {
                    assert(before[i] is Ok);
                }
            }
        }
    }
}

/// One address that cannot be bound is enough for the range to read absent, and
/// so is a probe that tried none.
pub proof fn law_partial_range_reads_absent(
    probe: RangeProbe,
    hosts: Seq<Ipv4Addr>,
    results: Seq<Result<(), ErrorKind>>,
)
    requires
        tallied(probe, hosts, results),
    ensures
        probe.whole() <==> results.len() > 0 && forall|i: int|
            0 <= i < results.len() ==> #[trigger] results[i] is Ok,
{
    lemma_successes(results);
}

/// The failure that a probe names is the first one.
pub proof fn law_first_failure_is_the_first(
    hosts: Seq<Ipv4Addr>,
    results: Seq<Result<(), ErrorKind>>,
    at: int,
)
    requires
        0 <= at < results.len(),
        forall|i: int| 0 <= i < at ==> #[trigger] results[i] is Ok,
        results[at] is Err,
    ensures
        first_refusal(hosts, results) == Some((hosts[at], results[at]->Err_0)),
    decreases results.len(),
{
    let before = results.drop_last();
    if at < before.len() {
        law_first_failure_is_the_first(hosts, before, at);
    } else {
        lemma_no_refusal(hosts, before);
    }
}

proof fn lemma_no_refusal(hosts: Seq<Ipv4Addr>, results: Seq<Result<(), ErrorKind>>)
    requires
        forall|i: int| 0 <= i < results.len() ==> #[trigger] results[i] is Ok,
    ensures
        first_refusal(hosts, results) is None,
    decreases results.len(),
{
    if results.len() > 0 {
        let before = results.drop_last();
        assert forall|i: int| 0 <= i < before.len() implies #[trigger] before[i] is Ok by {
            assert(results[i] is Ok);
        }
        lemma_no_refusal(hosts, before);
        assert(results[results.len() - 1] is Ok);
    }
}

/// Every address that could be bound counts once, wherever in the range it is.
pub proof fn law_each_bind_counts_once(
    a: Seq<Result<(), ErrorKind>>,
    b: Seq<Result<(), ErrorKind>>,
    result: Result<(), ErrorKind>,
)
    ensures
        successes(a + b) == successes(a) + successes(b),
        successes(seq![result]) == (if result is Ok {
            1nat
        } else {
            0
        }),
    decreases b.len(),
{
    let one = seq![result];
    assert(one.drop_last() =~= Seq::<Result<(), ErrorKind>>::empty());
    assert(successes(one.drop_last()) == 0);
    assert(one.last() == result);
    if b.len() == 0 {
        assert(a + b =~= a);
    } else {
        law_each_bind_counts_once(a, b.drop_last(), result);
        assert((a + b).drop_last() =~= a + b.drop_last());
        assert((a + b).last() == b.last());
    }
}

/// What a probe found is told by the range and the two counts; the first refusal
/// is told behind them, by its address and its kind.
pub proof fn law_finding_tells_counts_and_first_refusal(
    probe: RangeProbe,
    addr: Ipv4Addr,
    kind: ErrorKind,
)
    ensures
        probe.first_failure is None ==> probe.shown() == range_text() + " "@ + text::decimal(
            probe.bound as nat,
        ) + "/"@ + text::decimal(probe.probed as nat) + " bound"@,
        probe.first_failure == Some((addr, kind)) ==> probe.shown() == (RangeProbe {
            first_failure: None,
            ..probe
        }).shown() + "; first refusal "@ + addr.dotted() + " ("@ + kind.shown() + ")"@,
{
}

} // verus!
