//! Egress by name: the addresses that a box may reach because a name it was
//! allowed resolved to them, and the queries that are answered before they
//! leave the box.

use std::collections::BTreeMap;

use vstd::prelude::*;

use crate::addr::{Endpoint, Ipv4Addr};
use crate::policy::KeyedWarnLimiter;
use crate::session::{EgressPolicy, EgressRules};
use crate::text;
use crate::wire::{
    decode_message, echo_reply, encode_reply, DnsMessage, MessageView, Reply, NO_ERROR, OP_QUERY,
    TYPE_AAAA, TYPE_HTTPS, TYPE_SVCB,
};

verus! {

/// The port that DNS is served on.
pub const DNS_PORT: u16 = 53;

/// How long the addresses of one resolution are let through, in milliseconds.
pub const ADMISSION_WINDOW_MS: u64 = 300_000;

/// How many admissions there may be before those that have ended are dropped.
pub const ADMISSION_SWEEP_AT: usize = 4096;

/// The largest DNS datagram that is read.
pub const MAX_DATAGRAM: usize = 4096;

/// Why an answer is not let through.
#[derive(Clone, Copy, Debug, PartialEq, Eq, Structural)]
pub enum RebindingRefusal {
    /// The box's own policy denies the address.
    DeniedSubnet,
    /// The address belongs to the infrastructure.
    Infrastructure,
}

impl RebindingRefusal {
    /// The rule that a refusal is logged under.
    pub open spec fn name(self) -> Seq<char> {
        match self {
            RebindingRefusal::DeniedSubnet => "dns-rebinding-denied-subnet"@,
            RebindingRefusal::Infrastructure => "dns-rebinding-infrastructure"@,
        }
    }

    /// The rule that a refusal is logged under.
    pub fn rule(self) -> (r: &'static str)
        ensures
            r@ == self.name(),
    {
        match self {
            RebindingRefusal::DeniedSubnet => "dns-rebinding-denied-subnet",
            RebindingRefusal::Infrastructure => "dns-rebinding-infrastructure",
        }
    }
}

/// An answer that is not let through, and why.
#[derive(Clone, Copy, Debug, PartialEq, Eq, Structural)]
pub struct RefusedAnswer {
    pub address: Ipv4Addr,
    pub refusal: RebindingRefusal,
}

/// The answers of one resolution, parted by whether they are let through.
#[derive(Debug, PartialEq, Eq)]
pub struct Split {
    pub admitted: Vec<Ipv4Addr>,
    pub refused: Vec<RefusedAnswer>,
}

/// What is logged of one resolution: the name asked for, and the refused answers
/// whose rule has not been warned of lately.
#[derive(Debug, PartialEq, Eq)]
pub struct Observed {
    pub name: String,
    pub refused: Vec<RefusedAnswer>,
}

/// A name as names are matched: in lower case, without the root dot.
pub open spec fn normal(name: Seq<char>) -> Seq<char> {
    let low = text::lower(name);
    if low.len() > 0 && low.last() == '.' {
        low.drop_last()
    } else {
        low
    }
}

/// A name as names are matched: in lower case, without the root dot.
pub fn normalized(name: &str) -> (r: String)
    ensures
        r@ == normal(name@),
{
    let low: String = text::to_lower(name);
    let chars: Vec<char> = text::chars_of(low.as_str());
    let n: usize = chars.len();
    if n > 0 && chars[n - 1] == '.' {
        let rest: Vec<char> = text::chars_in(chars.as_slice(), 0, n - 1);
        assert(rest@ =~= low@.drop_last());
        text::string_of(rest.as_slice())
    } else {
        low
    }
}

/// The addresses among the records of an answer section, in order.
pub open spec fn addresses(answers: Seq<Option<Ipv4Addr>>) -> Seq<Ipv4Addr>
    decreases answers.len(),
{
    if answers.len() == 0 {
        Seq::empty()
    } else {
        let before = addresses(answers.drop_last());
        match answers.last() {
            Some(address) => before.push(address),
            None => before,
        }
    }
}

/// The addresses among the records of an answer section, in order.
fn addresses_of(answers: &Vec<Option<Ipv4Addr>>) -> (r: Vec<Ipv4Addr>)
    ensures
        r@ == addresses(answers@),
{
    let mut out: Vec<Ipv4Addr> = Vec::new();
    let mut i: usize = 0;
    while i < answers.len()
        invariant
            i <= answers.len(),
            out@ == addresses(answers@.take(i as int)),
        decreases answers.len() - i,
    {
        assert(answers@.take(i + 1).drop_last() =~= answers@.take(i as int));
        if let Some(address) = answers[i] {
            out.push(address);
        }
        i = i + 1;
    }
    assert(answers@.take(answers@.len() as int) =~= answers@);
    out
}

/// Whether an admission made at `made` lasts at `now`.
pub open spec fn lasts(made: u64, now: u64) -> bool {
    now < made + ADMISSION_WINDOW_MS
}

/// Whether an admission made at `made` lasts at `now`.
fn is_open(made: u64, now: u64) -> (r: bool)
    ensures
        r == lasts(made, now),
{
    now < made || now - made < ADMISSION_WINDOW_MS
}

/// The admissions with those of a resolution at `now`.
pub open spec fn with_addresses(admitted: Map<u32, u64>, pins: Seq<Ipv4Addr>, now: u64) -> Map<u32, u64>
    decreases pins.len(),
{
    if pins.len() == 0 {
        admitted
    } else {
        with_addresses(admitted, pins.drop_last(), now).insert(pins.last().bits, now)
    }
}

/// The admissions that last at `now`.
pub open spec fn open_admissions(admitted: Map<u32, u64>, now: u64) -> Map<u32, u64> {
    Map::new(|k: u32| admitted.contains_key(k) && lasts(admitted[k], now), |k: u32| admitted[k])
}

/// The admissions after a resolution at `now`: its addresses are let through for
/// the window, and where there are too many, those that have ended go.
pub open spec fn admissions_after(admitted: Map<u32, u64>, pins: Seq<Ipv4Addr>, now: u64) -> Map<u32, u64> {
    let pinned = with_addresses(admitted, pins, now);
    if pins.len() > 0 && pinned.dom().len() > ADMISSION_SWEEP_AT {
        open_admissions(pinned, now)
    } else {
        pinned
    }
}

/// What is warned of when answers are refused at `now`: those whose rule was not
/// warned of within the minute, each warning counting for the answers behind it.
pub open spec fn warnings(last: Map<Seq<char>, u64>, refused: Seq<RefusedAnswer>, now: u64) -> (
    Map<Seq<char>, u64>,
    Seq<RefusedAnswer>,
)
    decreases refused.len(),
{
    if refused.len() == 0 {
        (last, Seq::empty())
    } else {
        let (seen, due) = warnings(last, refused.drop_last(), now);
        let answer = refused.last();
        let rule = answer.refusal.name();
        let previous = if seen.contains_key(rule) {
            Some(seen[rule])
        } else {
            None
        };
        if crate::policy::warning_due(previous, now) {
            (seen.insert(rule, now), due.push(answer))
        } else {
            (seen, due)
        }
    }
}

/// A box's gate, mathematically.
#[verifier::ext_equal]
pub struct GateView {
    /// The names that the box's policy allows; `None` where it declares none.
    pub names: Option<Seq<Seq<char>>>,
    /// The box's own resolver.
    pub resolver: Ipv4Addr,
    /// When each admission was made, under the number of its address.
    pub admitted: Map<u32, u64>,
}

impl GateView {
    /// Whether an endpoint is the box's resolver.
    pub open spec fn resolves(self, at: Endpoint) -> bool {
        at.ip == self.resolver && at.port == DNS_PORT
    }

    /// Whether a name is one that the box's policy allows.
    pub open spec fn allows(self, name: Seq<char>) -> bool {
        self.names matches Some(names) && names.contains(name)
    }

    /// The reply to a message that is answered empty: a standard query for a
    /// record type that is not carried, sent to the box's resolver.
    pub open spec fn intercepted(self, dst: Endpoint, message: MessageView) -> Option<Reply> {
        if self.resolves(dst) && message.is_query && message.op_code == OP_QUERY
            && message.questions.len() > 0 && (message.questions[0].record_type == TYPE_AAAA
            || message.questions[0].record_type == TYPE_HTTPS || message.questions[0].record_type
            == TYPE_SVCB) {
            Some(crate::wire::echo(message, NO_ERROR))
        } else {
            None
        }
    }

    /// What a reply resolves: the name asked for, and its addresses. Only a
    /// reply of the box's resolver about a name that the box is allowed does.
    pub open spec fn resolution(self, src: Endpoint, message: MessageView) -> Option<
        (Seq<char>, Seq<Ipv4Addr>),
    > {
        if self.resolves(src) && !message.is_query && message.questions.len() > 0 && self.allows(
            normal(message.questions[0].name),
        ) {
            Some((normal(message.questions[0].name), addresses(message.answers)))
        } else {
            None
        }
    }

    /// What a datagram resolves.
    pub open spec fn resolution_in(self, src: Endpoint, datagram: Seq<u8>) -> Option<
        (Seq<char>, Seq<Ipv4Addr>),
    > {
        if datagram.len() > MAX_DATAGRAM {
            None
        } else {
            match crate::wire::decoded_message(datagram) {
                Some(message) => self.resolution(src, message),
                None => None,
            }
        }
    }

    /// What a datagram observed at `now` makes of a box's gate, by the addresses that the
    /// box's rules admit of what it resolves.
    pub open spec fn observed(
        self,
        src: Endpoint,
        datagram: Seq<u8>,
        admitted: Seq<Ipv4Addr>,
        now: u64,
    ) -> GateView {
        match self.resolution_in(src, datagram) {
            Some(_) => GateView {
                admitted: admissions_after(self.admitted, admitted, now),
                ..self
            },
            None => self,
        }
    }

    /// Whether an address is let through at `now`.
    pub open spec fn admits(self, dst: Ipv4Addr, now: u64) -> bool {
        self.admitted.contains_key(dst.bits) && lasts(self.admitted[dst.bits], now)
    }
}

/// One box's gate: what its policy allows by name, and what resolutions have let
/// through.
pub struct DnsGate {
    names: Option<Vec<String>>,
    rules: EgressRules,
    admitted: BTreeMap<u32, u64>,
}

impl View for DnsGate {
    type V = GateView;

    closed spec fn view(&self) -> GateView {
        GateView {
            names: crate::session::names_in(self.names),
            resolver: self.rules.resolver,
            admitted: self.admitted@,
        }
    }
}

/// The names that an egress declaration allows, as names are matched.
pub open spec fn allowed_names(policy: Option<&EgressPolicy>) -> Option<Seq<Seq<char>>> {
    match policy {
        Some(policy) => match policy.allow_dns_hosts {
            Some(hosts) => Some(Seq::new(hosts@.len(), |i: int| normal(hosts@[i]@))),
            None => None,
        },
        None => None,
    }
}

impl DnsGate {
    /// The box's egress rules.
    pub closed spec fn rules(&self) -> EgressRules {
        self.rules
    }

    /// A box's gate, that has let nothing through.
    pub fn new(policy: Option<&EgressPolicy>, rules: EgressRules) -> (r: Self)
        ensures
            r.rules() == rules,
            r@ == (GateView {
                names: allowed_names(policy),
                resolver: rules.resolver,
                admitted: Map::empty(),
            }),
    {
        let names: Option<Vec<String>> = match policy {
            Some(policy) => match &policy.allow_dns_hosts {
                Some(hosts) => {
                    let mut out: Vec<String> = Vec::new();
                    let mut i: usize = 0;
                    while i < hosts.len()
                        invariant
                            i <= hosts.len(),
                            out@.len() == i,
                            forall|j: int| 0 <= j < i ==> (#[trigger] out@[j])@ == normal(hosts@[j]@),
                        decreases hosts.len() - i,
                    {
                        out.push(normalized(hosts[i].as_str()));
                        i = i + 1;
                    }
                    Some(out)
                },
                None => None,
            },
            None => None,
        };
        let gate = DnsGate { names, rules, admitted: BTreeMap::new() };
        assert(gate@.names is Some ==> gate@.names->0 =~= allowed_names(policy)->0);
        gate
    }

    /// Whether an endpoint is the box's resolver.
    fn is_resolver(&self, at: Endpoint) -> (r: bool)
        ensures
            r == self@.resolves(at),
    {
        at.ip.bits == self.rules.resolver.bits && at.port == DNS_PORT
    }

    /// Whether a name, as names are matched, is one that the box's policy
    /// allows. A policy that declares no names allows none.
    pub fn allows_name(&self, name: &str) -> (r: bool)
        ensures
            r == self@.allows(name@),
    {
        match &self.names {
            None => false,
            Some(names) => {
                let ghost all = self@.names->0;
                let mut i: usize = 0;
                while i < names.len()
                    invariant
                        i <= names.len(),
                        self@.names == Some(all),
                        all == crate::session::names_in(Some(*names))->0,
                        all.len() == names@.len(),
                        forall|j: int| 0 <= j < i ==> #[trigger] all[j] != name@,
                    decreases names.len() - i,
                {
                    assert(all[i as int] == names@[i as int]@);
                    if text::same(names[i].as_str(), name) {
                        assert(all.contains(name@));
                        return true;
                    }
                    i = i + 1;
                }
                false
            },
        }
    }

    /// The reply to a decoded message that the box sent to `dst`, where it is
    /// answered empty in place of being forwarded. Only a standard query is.
    pub fn intercept(&self, dst: Endpoint, message: &DnsMessage) -> (r: Option<Reply>)
        ensures
            r == self@.intercepted(dst, message@),
    {
        if !self.is_resolver(dst) || !message.is_query || message.op_code != OP_QUERY
            || message.questions.len() == 0 {
            return None;
        }
        let record_type: u16 = message.questions[0].record_type;
        assert(message@.questions[0].record_type == record_type);
        if record_type == TYPE_AAAA || record_type == TYPE_HTTPS || record_type == TYPE_SVCB {
            Some(echo_reply(message, NO_ERROR))
        } else {
            None
        }
    }

    /// The reply to a datagram that the box sent to `dst`, where it is answered
    /// empty; `None` where it is to be forwarded.
    pub fn intercept_query(&self, dst: &Endpoint, datagram: &[u8]) -> (r: Option<Vec<u8>>)
        ensures
            crate::wire::bytes_in(r) == (if datagram@.len() > MAX_DATAGRAM {
                None
            } else {
                match crate::wire::decoded_message(datagram@) {
                    None => None,
                    Some(message) => match self@.intercepted(*dst, message) {
                        None => None,
                        Some(reply) => crate::wire::encoded_reply(datagram@, reply),
                    },
                }
            }),
    {
        if !self.is_resolver(*dst) || datagram.len() > MAX_DATAGRAM {
            return None;
        }
        let message: DnsMessage = match decode_message(datagram) {
            Some(message) => message,
            None => {
                return None;
            },
        };
        match self.intercept(*dst, &message) {
            Some(reply) => encode_reply(datagram, &reply),
            None => None,
        }
    }

    /// What a decoded message from `src` resolves: the name asked for, and its
    /// addresses.
    pub fn resolution(&self, src: Endpoint, message: &DnsMessage) -> (r: Option<
        (String, Vec<Ipv4Addr>),
    >)
        ensures
            match r {
                Some((name, answers)) => self@.resolution(src, message@) == Some((name@, answers@)),
                None => self@.resolution(src, message@) is None,
            },
    {
        if !self.is_resolver(src) || message.is_query || message.questions.len() == 0 {
            return None;
        }
        let name: String = normalized(message.questions[0].name.as_str());
        assert(message@.questions[0].name == message.questions@[0].name@);
        if self.allows_name(name.as_str()) {
            Some((name, addresses_of(&message.answers)))
        } else {
            None
        }
    }

    /// Lets the addresses of a resolution at `now` through for the window.
    pub fn admit_addresses(&mut self, pins: &[Ipv4Addr], now: u64)
        ensures
            final(self).rules() == old(self).rules(),
            final(self)@ == (GateView {
                admitted: admissions_after(old(self)@.admitted, pins@, now),
                ..old(self)@
            }),
    {
        let ghost before = self@;
        if pins.len() == 0 {
            assert(self@ =~= (GateView {
                admitted: admissions_after(before.admitted, pins@, now),
                ..before
            }));
            return ;
        }
        proof {
            crate::ordered::lemma_integers();
        }
        let mut i: usize = 0;
        while i < pins.len()
            invariant
                i <= pins.len(),
                crate::ordered::sortable::<u32>(),
                self.rules() == old(self).rules(),
                before == old(self)@,
                self@ == (GateView {
                    admitted: with_addresses(before.admitted, pins@.take(i as int), now),
                    ..before
                }),
            decreases pins.len() - i,
        {
            assert(pins@.take(i + 1).drop_last() =~= pins@.take(i as int));
            self.admitted.insert(pins[i].bits, now);
            i = i + 1;
            assert(self@ =~= (GateView {
                admitted: with_addresses(before.admitted, pins@.take(i as int), now),
                ..before
            }));
        }
        assert(pins@.take(pins@.len() as int) =~= pins@);
        if self.admitted.len() > ADMISSION_SWEEP_AT {
            self.sweep(now);
        }
        assert(self@ =~= (GateView {
            admitted: admissions_after(before.admitted, pins@, now),
            ..before
        }));
    }

    /// Drops the admissions that have ended at `now`.
    fn sweep(&mut self, now: u64)
        ensures
            final(self).rules() == old(self).rules(),
            final(self)@ == (GateView {
                admitted: open_admissions(old(self)@.admitted, now),
                ..old(self)@
            }),
    {
        proof {
            crate::ordered::lemma_integers();
        }
        let open = |_bits: &u32, made: &u64| -> (r: bool)
            ensures
                r == lasts(*made, now),
            { is_open(*made, now) };
        crate::ordered::retain(&mut self.admitted, open);
        assert(self@.admitted =~= open_admissions(old(self)@.admitted, now));
    }

    /// Observes a datagram from `src` at `now`. Where it resolves a name that
    /// the box is allowed, `split` parts its addresses by the box's rules: those
    /// it admits are let through for the window, and those it refuses are warned
    /// of, each rule once a minute.
    pub fn observe_response<F: Fn(&[Ipv4Addr], &EgressRules) -> Split>(
        &mut self,
        src: &Endpoint,
        datagram: &[u8],
        now: u64,
        split: F,
        limiter: &mut KeyedWarnLimiter<String>,
    ) -> (r: Option<Observed>)
        requires
            old(limiter).wf(),
            forall|answers: &[Ipv4Addr], rules: &EgressRules| #[trigger]
                call_requires(split, (answers, rules)),
        ensures
            final(limiter).wf(),
            final(self).rules() == old(self).rules(),
            match old(self)@.resolution_in(*src, datagram@) {
                None => r is None && final(self)@ == old(self)@ && final(limiter)@ == old(limiter)@,
                Some((name, resolved)) => exists|answers: &[Ipv4Addr], parted: Split|
                    {
                        &&& answers@ == resolved
                        &&& #[trigger] call_ensures(split, (answers, &old(self).rules()), parted)
                        &&& final(self)@ == old(self)@.observed(
                            *src,
                            datagram@,
                            parted.admitted@,
                            now,
                        )
                        &&& r matches Some(observed)
                        &&& observed.name@ == name
                        &&& (final(limiter)@, observed.refused@) == warnings(
                            old(limiter)@,
                            parted.refused@,
                            now,
                        )
                    },
            },
    {
        if !self.is_resolver(*src) || datagram.len() > MAX_DATAGRAM {
            return None;
        }
        let message: DnsMessage = match decode_message(datagram) {
            Some(message) => message,
            None => {
                return None;
            },
        };
        let (name, answers): (String, Vec<Ipv4Addr>) = match self.resolution(*src, &message) {
            Some(found) => found,
            None => {
                return None;
            },
        };
        let resolved: &[Ipv4Addr] = answers.as_slice();
        let parted: Split = split(resolved, &self.rules);
        assert(call_ensures(split, (resolved, &old(self).rules()), parted));
        self.admit_addresses(parted.admitted.as_slice(), now);
        let refused: Vec<RefusedAnswer> = due_warnings(&parted.refused, now, limiter);
        Some(Observed { name, refused })
    }

    /// Whether an address is let through at `now`.
    pub fn admits_destination(&self, dst: Ipv4Addr, now: u64) -> (r: bool)
        ensures
            r == self@.admits(dst, now),
    {
        proof {
            crate::ordered::lemma_integers();
        }
        match self.admitted.get(&dst.bits) {
            Some(made) => is_open(*made, now),
            None => false,
        }
    }
}

/// The refused answers that are warned of at `now`.
fn due_warnings(
    refused: &Vec<RefusedAnswer>,
    now: u64,
    limiter: &mut KeyedWarnLimiter<String>,
) -> (r: Vec<RefusedAnswer>)
    requires
        old(limiter).wf(),
    ensures
        final(limiter).wf(),
        (final(limiter)@, r@) == warnings(old(limiter)@, refused@, now),
{
    let mut out: Vec<RefusedAnswer> = Vec::new();
    let mut i: usize = 0;
    while i < refused.len()
        invariant
            i <= refused.len(),
            limiter.wf(),
            (limiter@, out@) == warnings(old(limiter)@, refused@.take(i as int), now),
        decreases refused.len() - i,
    {
        assert(refused@.take(i + 1).drop_last() =~= refused@.take(i as int));
        let answer: RefusedAnswer = refused[i];
        if limiter.should_warn_at(answer.refusal.rule().to_owned(), now) {
            out.push(answer);
        }
        i = i + 1;
    }
    assert(refused@.take(refused@.len() as int) =~= refused@);
    out
}

// ---------------------------------------------------------------------------
// Laws
// ---------------------------------------------------------------------------

proof fn lemma_with_addresses(admitted: Map<u32, u64>, pins: Seq<Ipv4Addr>, now: u64, k: u32)
    ensures
        with_addresses(admitted, pins, now).contains_key(k) <==> admitted.contains_key(k) || exists|
            i: int,
        |
            0 <= i < pins.len() && (#[trigger] pins[i]).bits == k,
        (exists|i: int| 0 <= i < pins.len() && (#[trigger] pins[i]).bits == k) ==> with_addresses(
            admitted,
            pins,
            now,
        )[k] == now,
        !(exists|i: int| 0 <= i < pins.len() && (#[trigger] pins[i]).bits == k)
            && admitted.contains_key(k) ==> with_addresses(admitted, pins, now)[k] == admitted[k],
    decreases pins.len(),
{
    if pins.len() > 0 {
        let before = pins.drop_last();
        lemma_with_addresses(admitted, before, now, k);
        assert(pins[pins.len() - 1] == pins.last());
        if exists|i: int| 0 <= i < before.len() && (#[trigger] before[i]).bits == k {
            let i = choose|i: int| 0 <= i < before.len() && (#[trigger] before[i]).bits == k;
            assert(pins[i] == before[i]);
        }
        if exists|i: int| 0 <= i < pins.len() && (#[trigger] pins[i]).bits == k {
            let i = choose|i: int| 0 <= i < pins.len() && (#[trigger] pins[i]).bits == k;
            if i < before.len() {
                assert(before[i] == pins[i]);
            }
        }
    }
}

/// An address that a resolution lets through is let through exactly for the
/// window, however many admissions there are.
pub proof fn law_admission_lasts_for_the_window(
    gate: GateView,
    pins: Seq<Ipv4Addr>,
    now: u64,
    pin: Ipv4Addr,
    later: u64,
)
    requires
        pins.contains(pin),
        now <= later,
    ensures
        (GateView { admitted: admissions_after(gate.admitted, pins, now), ..gate }).admits(
            pin,
            later,
        ) <==> later < now + ADMISSION_WINDOW_MS,
{
    let i = choose|i: int| 0 <= i < pins.len() && pins[i] == pin;
    assert(pins[i].bits == pin.bits);
    lemma_with_addresses(gate.admitted, pins, now, pin.bits);
}

/// A resolution changes nothing for an address it does not hold: it stays let
/// through if it was, and it does not become so.
pub proof fn law_resolution_admits_only_its_answers(
    gate: GateView,
    pins: Seq<Ipv4Addr>,
    now: u64,
    other: Ipv4Addr,
    later: u64,
)
    requires
        !pins.contains(other),
        now <= later,
    ensures
        (GateView { admitted: admissions_after(gate.admitted, pins, now), ..gate }).admits(
            other,
            later,
        ) == gate.admits(other, later),
{
    lemma_with_addresses(gate.admitted, pins, now, other.bits);
    if exists|i: int| 0 <= i < pins.len() && (#[trigger] pins[i]).bits == other.bits {
        let i = choose|i: int| 0 <= i < pins.len() && (#[trigger] pins[i]).bits == other.bits;
        assert(pins[i] == other);
    }
}

/// After a datagram is observed, an address is let through exactly if it was
/// before, or if the datagram is a reply of the box's resolver about a name that
/// the box is allowed and the box's rules admit the address.
pub proof fn law_observation_admits_exactly_the_admitted(
    gate: GateView,
    src: Endpoint,
    datagram: Seq<u8>,
    admitted: Seq<Ipv4Addr>,
    now: u64,
    address: Ipv4Addr,
)
    ensures
        gate.observed(src, datagram, admitted, now).admits(address, now) <==> gate.admits(
            address,
            now,
        ) || {
            &&& gate.resolves(src)
            &&& datagram.len() <= MAX_DATAGRAM
            &&& crate::wire::decoded_message(datagram) matches Some(message)
            &&& !message.is_query
            &&& message.questions.len() > 0
            &&& gate.allows(normal(message.questions[0].name))
            &&& admitted.contains(address)
        },
{
    if admitted.contains(address) {
        law_admission_lasts_for_the_window(gate, admitted, now, address, now);
    } else {
        law_resolution_admits_only_its_answers(gate, admitted, now, address, now);
    }
}

/// A box that declares no names gains no address by resolving any, and neither
/// does a reply of anybody but the box's resolver let an address through.
pub proof fn law_undeclared_names_resolve_nothing(gate: GateView, src: Endpoint, message: MessageView)
    requires
        gate.names is None || !gate.resolves(src),
    ensures
        gate.resolution(src, message) is None,
{
}

/// Only a standard query to the box's resolver is answered in place of being
/// forwarded. The reply is empty and without an error, and it carries the query's
/// id and its question.
pub proof fn law_intercepted_reply_is_empty(gate: GateView, dst: Endpoint, message: MessageView)
    requires
        gate.intercepted(dst, message) is Some,
    ensures
        gate.resolves(dst),
        message.is_query,
        message.op_code == OP_QUERY,
        ({
            let reply = gate.intercepted(dst, message)->0;
            &&& reply.op_code == OP_QUERY
            &&& reply.id == message.id
            &&& reply.response_code == NO_ERROR
            &&& reply.answer is None
            &&& reply.echoed == 1
        }),
{
}

/// The addresses that a reply resolves to are those of its A records and no
/// others, in the order of the records, whatever records stand before, between
/// and behind them.
pub proof fn law_addresses_are_those_of_the_records(
    a: Seq<Option<Ipv4Addr>>,
    b: Seq<Option<Ipv4Addr>>,
    address: Ipv4Addr,
)
    ensures
        addresses(a + b) == addresses(a) + addresses(b),
        addresses(seq![Some(address)]) == seq![address],
        addresses(seq![None::<Ipv4Addr>]) == Seq::<Ipv4Addr>::empty(),
        addresses(a).contains(address) <==> a.contains(Some(address)),
        addresses(a).len() <= a.len(),
    decreases b.len(), a.len(),
{
    let one = seq![Some(address)];
    assert(one.drop_last() =~= Seq::<Option<Ipv4Addr>>::empty());
    assert(addresses(one.drop_last()) =~= Seq::<Ipv4Addr>::empty());
    assert(addresses(one) =~= seq![address]);
    let none = seq![None::<Ipv4Addr>];
    assert(none.drop_last() =~= Seq::<Option<Ipv4Addr>>::empty());
    assert(addresses(none) =~= Seq::<Ipv4Addr>::empty());
    if b.len() == 0 {
        assert(a + b =~= a);
        assert(addresses(a) + addresses(b) =~= addresses(a));
        if a.len() > 0 {
            let before = a.drop_last();
            law_addresses_are_those_of_the_records(before, b, address);
            assert(a.contains(Some(address)) <==> before.contains(Some(address)) || a.last()
                == Some(address)) by {
                if before.contains(Some(address)) {
                    let i = before.index_of(Some(address));
                    assert(a[i] == Some(address));
                }
                if a.contains(Some(address)) && a.last() != Some(address) {
                    let i = a.index_of(Some(address));
                    assert(before[i] == Some(address));
                }
            }
            if let Some(last) = a.last() {
                let all = addresses(before).push(last);
                if addresses(before).contains(address) {
                    let i = addresses(before).index_of(address);
                    assert(all[i] == address);
                }
                assert(all[addresses(before).len() as int] == last);
                if all.contains(address) && last != address {
                    let i = all.index_of(address);
                    assert(addresses(before)[i] == address);
                }
            }
        }
    } else {
        let rest = b.drop_last();
        law_addresses_are_those_of_the_records(a, rest, address);
        assert((a + b).drop_last() =~= a + rest);
        assert((a + b).last() == b.last());
        assert(addresses(a + b) =~= addresses(a) + addresses(b));
    }
}

/// A reply of the box's resolver about an allowed name resolves to the addresses
/// of all its A records, those behind an alias included. The name is matched
/// without regard to case and with or without the root dot.
pub proof fn law_reply_about_an_allowed_name_resolves(
    gate: GateView,
    src: Endpoint,
    message: MessageView,
    names: Seq<Seq<char>>,
    name: Seq<char>,
    i: int,
)
    requires
        gate.names == Some(names),
        0 <= i < names.len(),
        src.ip == gate.resolver,
        src.port == 53,
        !message.is_query,
        message.questions.len() > 0,
        message.questions[0].name == name || message.questions[0].name == name + seq!['.'],
        name.len() > 0 ==> name.last() != '.',
        names[i].len() == name.len(),
        forall|k: int|
            0 <= k < name.len() ==> (#[trigger] names[i][k]) as int == (if 65 <= name[k] as int
                <= 90 {
                name[k] as int + 32
            } else {
                name[k] as int
            }),
    ensures
        gate.resolution(src, message) == Some((names[i], addresses(message.answers))),
{
    let asked = message.questions[0].name;
    let low = text::lower(asked);
    assert forall|k: int| 0 <= k < name.len() implies low[k] == names[i][k] by {
        text::law_lower_changes_only_capitals(asked, k);
        assert(asked[k] == name[k]);
        assert(names[i][k] as int == low[k] as int);
    }
    if asked == name {
        if name.len() > 0 {
            text::law_lower_changes_only_capitals(asked, name.len() - 1);
        }
        assert(low =~= names[i]);
        assert(normal(asked) =~= names[i]);
    } else {
        text::law_lower_changes_only_capitals(asked, name.len() as int);
        assert(low.drop_last() =~= names[i]);
        assert(normal(asked) =~= names[i]);
    }
    assert(names.contains(names[i]));
}

/// Nothing else resolves anything: not a query, not a message of another sender
/// or port, not one without a question, and not one about a name that no allowed
/// one is.
pub proof fn law_only_replies_about_allowed_names_resolve(
    gate: GateView,
    src: Endpoint,
    message: MessageView,
)
    requires
        gate.resolution(src, message) is Some,
    ensures
        src.ip == gate.resolver,
        src.port == 53,
        !message.is_query,
        message.questions.len() > 0,
        gate.names is Some,
        gate.names->0.contains((gate.resolution(src, message)->0).0),
        (gate.resolution(src, message)->0).1 == addresses(message.answers),
{
}

/// Every query for an IPv6 address or for a service binding that the box sends to
/// its resolver is answered here, and no query for an IPv4 address is, nor one to
/// another endpoint.
pub proof fn law_queries_without_an_answer_are_kept_back(
    gate: GateView,
    dst: Endpoint,
    message: MessageView,
)
    ensures
        gate.intercepted(dst, message) is Some <==> {
            &&& dst.ip == gate.resolver
            &&& dst.port == 53
            &&& message.is_query
            &&& message.op_code == 0
            &&& message.questions.len() > 0
            &&& (message.questions[0].record_type == 28 || message.questions[0].record_type == 64
                || message.questions[0].record_type == 65)
        },
        gate.intercepted(dst, message) matches Some(reply) ==> {
            &&& reply.id == message.id
            &&& reply.op_code == message.op_code
            &&& reply.recursion_desired == message.recursion_desired
            &&& reply.checking_disabled == message.checking_disabled
            &&& !reply.authoritative
            &&& reply.response_code == 0
            &&& reply.echoed == 1
            &&& reply.answer is None
        },
{
}

/// An address is let through for five minutes from its last resolution on, and
/// not a millisecond longer.
pub proof fn law_address_is_let_through_for_five_minutes(gate: GateView, dst: Ipv4Addr, now: u64)
    ensures
        gate.admits(dst, now) <==> gate.admitted.contains_key(dst.bits) && now
            < gate.admitted[dst.bits] + 300_000,
{
}

/// Only what has ended is dropped, and only where there are more than 4096
/// admissions: an address that is let through stays so.
pub proof fn law_only_ended_admissions_are_dropped(
    admitted: Map<u32, u64>,
    pins: Seq<Ipv4Addr>,
    now: u64,
    key: u32,
)
    ensures
        admissions_after(admitted, pins, now).contains_key(key) ==> {
            ||| admissions_after(admitted, pins, now)[key] == now
            ||| admitted.contains_key(key) && admissions_after(admitted, pins, now)[key]
                == admitted[key]
        },
        admitted.contains_key(key) && now < admitted[key] + 300_000 ==> admissions_after(
            admitted,
            pins,
            now,
        ).contains_key(key),
        admitted.contains_key(key) && with_addresses(admitted, pins, now).dom().len() <= 4096
            ==> admissions_after(admitted, pins, now).contains_key(key),
{
    lemma_with_addresses_keeps(admitted, pins, now, key);
}

proof fn lemma_with_addresses_keeps(
    admitted: Map<u32, u64>,
    pins: Seq<Ipv4Addr>,
    now: u64,
    key: u32,
)
    ensures
        ({
            let after = with_addresses(admitted, pins, now);
            &&& admitted.contains_key(key) ==> after.contains_key(key)
            &&& after.contains_key(key) ==> after[key] == now || (admitted.contains_key(key)
                && after[key] == admitted[key])
        }),
    decreases pins.len(),
{
    if pins.len() > 0 {
        lemma_with_addresses_keeps(admitted, pins.drop_last(), now, key);
    }
}

/// Each rule is warned of once a minute: an answer is warned of where its rule
/// was not warned of before, or a minute ago or longer, and the answers of a run
/// are gone through one behind the other.
pub proof fn law_rule_is_warned_of_once_a_minute(
    last: Map<Seq<char>, u64>,
    a: Seq<RefusedAnswer>,
    b: Seq<RefusedAnswer>,
    answer: RefusedAnswer,
    now: u64,
)
    ensures
        ({
            let rule = answer.refusal.name();
            let (seen, due) = warnings(last, seq![answer], now);
            if !last.contains_key(rule) || now >= last[rule] + 60_000 {
                due == seq![answer] && seen == last.insert(rule, now)
            } else {
                due == Seq::<RefusedAnswer>::empty() && seen == last
            }
        }),
        ({
            let (between, first) = warnings(last, a, now);
            let (seen, second) = warnings(between, b, now);
            warnings(last, a + b, now) == (seen, first + second)
        }),
    decreases b.len(),
{
    let one = seq![answer];
    assert(one.drop_last() =~= Seq::<RefusedAnswer>::empty());
    assert(one.last() == answer);
    assert(warnings(last, one.drop_last(), now) == (last, Seq::<RefusedAnswer>::empty()));
    assert(Seq::<RefusedAnswer>::empty().push(answer) =~= one);
    let (between, first) = warnings(last, a, now);
    if b.len() == 0 {
        assert(a + b =~= a);
        assert(first + Seq::<RefusedAnswer>::empty() =~= first);
    } else {
        law_rule_is_warned_of_once_a_minute(last, a, b.drop_last(), answer, now);
        assert((a + b).drop_last() =~= a + b.drop_last());
        assert((a + b).last() == b.last());
        let (seen, second) = warnings(between, b.drop_last(), now);
        assert((first + second).push(b.last()) =~= first + second.push(b.last()));
    }
}

/// Names are matched without regard to case and with or without one root dot;
/// the names that a box is allowed are all kept, in their order.
pub proof fn law_names_are_matched_without_case_and_root(
    name: Seq<char>,
    i: int,
    policy: &EgressPolicy,
    hosts: Vec<String>,
    k: int,
)
    requires
        0 <= i < name.len(),
        name.last() != '.',
    ensures
        normal(name).len() == name.len(),
        normal(name)[i] as int == (if 65 <= name[i] as int <= 90 {
            name[i] as int + 32
        } else {
            name[i] as int
        }),
        normal(name + seq!['.']) == normal(name),
        policy.allow_dns_hosts == Some(hosts) ==> {
            &&& allowed_names(Some(policy)) is Some
            &&& allowed_names(Some(policy))->0.len() == hosts@.len()
            &&& 0 <= k < hosts@.len() ==> allowed_names(Some(policy))->0[k] == normal(hosts@[k]@)
        },
        policy.allow_dns_hosts is None ==> allowed_names(Some(policy)) is None,
        allowed_names(None) is None,
{
    text::law_lower_changes_only_capitals(name, i);
    text::law_lower_changes_only_capitals(name, name.len() - 1);
    let dotted = name + seq!['.'];
    assert(text::lower(dotted) =~= text::lower(name).push('.')) by {
        assert forall|j: int| 0 <= j < dotted.len() implies text::lower(dotted)[j] == text::lower(
            name,
        ).push('.')[j] by {
            if j < name.len() {
                assert(dotted[j] == name[j]);
            }
        }
    }
    assert(text::lower(dotted).drop_last() =~= text::lower(name));
    assert(text::lower(name).last() != '.');
}

/// A datagram is read up to 4096 bytes; what it resolves is what its message
/// does.
pub proof fn law_datagram_resolves_what_its_message_does(
    gate: GateView,
    src: Endpoint,
    datagram: Seq<u8>,
)
    ensures
        datagram.len() > 4096 ==> gate.resolution_in(src, datagram) is None,
        datagram.len() <= 4096 ==> match crate::wire::decoded_message(datagram) {
            Some(message) => gate.resolution_in(src, datagram) == gate.resolution(src, message),
            None => gate.resolution_in(src, datagram) is None,
        },
{
}

} // verus!
