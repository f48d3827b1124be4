//! Ports that publish themselves: what a box listens on, as the process file
//! system shows it, and what is published of it.

use std::collections::{BTreeMap, BTreeSet};

use vstd::prelude::*;

use crate::path::join;
use crate::publish::ascending;
use crate::session::{IngressPolicy, IpProto, NetworkMode, PortMapping};
use crate::text;

verus! {

/// How often a box's listening ports are read, in milliseconds.
pub const POLL_INTERVAL_MS: u64 = 500;

/// How many of a box's processes are walked to name the one behind a listener.
pub const PID_WALK_LIMIT: usize = 512;

/// One listening socket in a box.
#[derive(Clone, Copy, Debug, PartialEq, Eq, Structural)]
pub struct Listener {
    /// The box's own port.
    pub port: u16,
    /// The process that holds the socket.
    pub pid: u32,
}

// ---------------------------------------------------------------------------
// The rules
// ---------------------------------------------------------------------------

/// What becomes of a port that a box listens on.
#[derive(Clone, Copy, Debug, PartialEq, Eq, Structural)]
pub enum ListenPublication {
    /// The port is published.
    Publish,
    /// A declaration names the port, which was published with the box.
    Declared,
    /// The box's rules do not permit the port.
    Unpermitted,
}

/// A box's ingress rules, as they meet its own listeners: the ports that its
/// declaration names on the box's side, and the range that it permits.
#[derive(Debug, PartialEq, Eq)]
pub struct ListenRules {
    declared: Vec<u16>,
    range: Option<(u16, u16)>,
}

/// Whether a declaration names a port on the box's side, over TCP.
pub open spec fn names_port(ingress: Option<&IngressPolicy>, port: u16) -> bool {
    ingress matches Some(policy) && exists|i: int|
        0 <= i < policy.port_mappings@.len() && (#[trigger] policy.port_mappings@[i]).internal_port
            == port && policy.port_mappings@[i].proto == IpProto::Tcp
}

/// Whether one of the first mappings names a port on the box's side, over TCP.
spec fn named_before(mappings: Seq<PortMapping>, count: int, port: u16) -> bool {
    exists|j: int|
        0 <= j < count && (#[trigger] mappings[j]).internal_port == port && mappings[j].proto
            == IpProto::Tcp
}

/// What becomes of a port under a declaration.
pub open spec fn permitted(ingress: Option<&IngressPolicy>, port: u16) -> ListenPublication {
    if names_port(ingress, port) {
        ListenPublication::Declared
    } else if ingress matches Some(policy) && policy.dynamic_allowed_range matches Some((lo, hi)) && lo
        <= port <= hi {
        ListenPublication::Publish
    } else {
        ListenPublication::Unpermitted
    }
}

impl ListenRules {
    /// What becomes of a port.
    pub closed spec fn rule(&self, port: u16) -> ListenPublication {
        if self.declared@.contains(port) {
            ListenPublication::Declared
        } else if self.range matches Some((lo, hi)) && lo <= port <= hi {
            ListenPublication::Publish
        } else {
            ListenPublication::Unpermitted
        }
    }

    /// The rules of an ingress declaration.
    pub fn for_box_listeners(ingress: Option<&IngressPolicy>) -> (r: Self)
        ensures
            forall|port: u16| #[trigger] r.rule(port) == permitted(ingress, port),
    {
        let mut declared: Vec<u16> = Vec::new();
        let mut range: Option<(u16, u16)> = None;
        if let Some(policy) = ingress {
            range = policy.dynamic_allowed_range;
            let mappings: &Vec<PortMapping> = &policy.port_mappings;
            let mut i: usize = 0;
            while i < mappings.len()
                invariant
                    i <= mappings.len(),
                    forall|port: u16| #[trigger]
                        declared@.contains(port) <==> named_before(mappings@, i as int, port),
                decreases mappings.len() - i,
            {
                let m: PortMapping = mappings[i];
                let ghost before = declared@;
                if let IpProto::Tcp = m.proto {
                    declared.push(m.internal_port);
                    proof {
                        assert forall|port: u16| declared@.contains(port) <==> before.contains(port)
                            || port == m.internal_port by {
                            if before.contains(port) {
                                let k = choose|k: int| 0 <= k < before.len() && before[k] == port;
                                assert(declared@[k] == port);
                            }
                            assert(declared@[before.len() as int] == m.internal_port);
                            if declared@.contains(port) && port != m.internal_port {
                                let k = choose|k: int|
                                    0 <= k < declared@.len() && declared@[k] == port;
                                assert(before[k] == port);
                            }
                        }
                    }
                }
                proof {
                    assert forall|port: u16|
                        declared@.contains(port) <==> before.contains(port) || (m.proto
                            == IpProto::Tcp && port == m.internal_port) by {
                    }
                    assert forall|port: u16| #[trigger]
                        declared@.contains(port) <==> named_before(mappings@, i + 1, port) by {
                        if named_before(mappings@, i as int, port) {
                            let j = choose|j: int|
                                0 <= j < i && (#[trigger] mappings@[j]).internal_port == port
                                    && mappings@[j].proto == IpProto::Tcp;
                            assert(mappings@[j].internal_port == port);
                            assert(named_before(mappings@, i + 1, port));
                        }
                        if named_before(mappings@, i + 1, port) {
                            let j = choose|j: int|
                                0 <= j < i + 1 && (#[trigger] mappings@[j]).internal_port == port
                                    && mappings@[j].proto == IpProto::Tcp;
                            if j < i {
                                assert(named_before(mappings@, i as int, port));
                            }
                        }
                        assert(before.contains(port) == named_before(mappings@, i as int, port));
                        assert(mappings@[i as int] == m);
                    }
                }
                i = i + 1;
            }
        }
        let r = ListenRules { declared, range };
        assert forall|port: u16| #[trigger] r.rule(port) == permitted(ingress, port) by {
            assert(r.declared@.contains(port) <==> names_port(ingress, port));
        }
        r
    }

    /// What becomes of a port.
    pub fn publication(&self, port: u16) -> (r: ListenPublication)
        ensures
            r == self.rule(port),
    {
        let mut i: usize = 0;
        while i < self.declared.len()
            invariant
                i <= self.declared.len(),
                forall|j: int| 0 <= j < i ==> #[trigger] self.declared@[j] != port,
            decreases self.declared.len() - i,
        {
            if self.declared[i] == port {
                assert(self.declared@[i as int] == port);
                return ListenPublication::Declared;
            }
            i = i + 1;
        }
        match self.range {
            Some((lo, hi)) => if lo <= port && port <= hi {
                ListenPublication::Publish
            } else {
                ListenPublication::Unpermitted
            },
            None => ListenPublication::Unpermitted,
        }
    }
}

/// The rules that a box meets its own listeners with, or `None` where no
/// listener in it could publish anything: only a box with an address of its own
/// that permits a range is watched.
pub fn watched_rules(mode: NetworkMode, ingress: Option<&IngressPolicy>) -> (r: Option<ListenRules>)
    ensures
        r is Some <==> mode == NetworkMode::OwnIp && ingress is Some
            && ingress->0.dynamic_allowed_range is Some,
        r matches Some(rules) ==> forall|port: u16| #[trigger]
            rules.rule(port) == permitted(ingress, port),
{
    match mode {
        NetworkMode::OwnIp => match ingress {
            Some(policy) => if policy.dynamic_allowed_range.is_some() {
                Some(ListenRules::for_box_listeners(ingress))
            } else {
                None
            },
            None => None,
        },
        _ => None,
    }
}

// ---------------------------------------------------------------------------
// The watch
// ---------------------------------------------------------------------------

/// What a watch has published and refused, mathematically.
#[verifier::ext_equal]
pub struct WatchView {
    /// The ports that the watch published, with the process of each.
    pub listened: Map<u16, u32>,
    /// The ports that were refused.
    pub refused: Set<u16>,
}

/// Whether a port is among those that a box listens on.
pub open spec fn heard(seen: Seq<Listener>, port: u16) -> bool {
    exists|i: int| 0 <= i < seen.len() && (#[trigger] seen[i]).port == port
}

/// Whether every port that a watch published is one that the rules permit.
pub open spec fn only_permitted(rules: ListenRules, watch: WatchView) -> bool {
    forall|p: u16| #[trigger]
        watch.listened.contains_key(p) ==> rules.rule(p) == ListenPublication::Publish
}

/// Whether a listener is offered for publication.
pub open spec fn offered(rules: ListenRules, watch: WatchView, listener: Listener) -> bool {
    !watch.listened.contains_key(listener.port) && rules.rule(listener.port)
        == ListenPublication::Publish
}

/// Whether a listener is refused for the first time.
pub open spec fn newly_refused(rules: ListenRules, watch: WatchView, listener: Listener) -> bool {
    !watch.listened.contains_key(listener.port) && rules.rule(listener.port)
        == ListenPublication::Unpermitted && !watch.refused.contains(listener.port)
}

/// The watch after one listener, given whether an offered port was published.
pub open spec fn after_listener(
    rules: ListenRules,
    watch: WatchView,
    listener: Listener,
    published: bool,
) -> WatchView {
    if offered(rules, watch, listener) {
        if published {
            WatchView { listened: watch.listened.insert(listener.port, listener.pid), ..watch }
        } else {
            watch
        }
    } else if newly_refused(rules, watch, listener) {
        WatchView { refused: watch.refused.insert(listener.port), ..watch }
    } else {
        watch
    }
}

/// The watch after the first listeners of an observation.
pub open spec fn after_listeners(
    rules: ListenRules,
    watch: WatchView,
    seen: Seq<Listener>,
    published: Seq<bool>,
) -> WatchView
    decreases seen.len(),
{
    if seen.len() == 0 {
        watch
    } else {
        after_listener(
            rules,
            after_listeners(rules, watch, seen.drop_last(), published),
            seen.last(),
            published[seen.len() - 1],
        )
    }
}

/// The listeners of an observation that are refused for the first time.
pub open spec fn noticed(
    rules: ListenRules,
    watch: WatchView,
    seen: Seq<Listener>,
    published: Seq<bool>,
) -> Seq<Listener>
    decreases seen.len(),
{
    if seen.len() == 0 {
        Seq::empty()
    } else {
        let before = noticed(rules, watch, seen.drop_last(), published);
        if newly_refused(
            rules,
            after_listeners(rules, watch, seen.drop_last(), published),
            seen.last(),
        ) {
            before.push(seen.last())
        } else {
            before
        }
    }
}

/// Whether every port that is offered in a pass over an observation is published.
pub open spec fn all_taken(
    rules: ListenRules,
    watch: WatchView,
    seen: Seq<Listener>,
    published: Seq<bool>,
) -> bool {
    forall|i: int|
        0 <= i < seen.len() && offered(
            rules,
            after_listeners(rules, watch, seen.take(i), published),
            #[trigger] seen[i],
        ) ==> published[i]
}

/// The watch without the ports that are no longer listened on.
pub open spec fn settled(watch: WatchView, seen: Seq<Listener>) -> WatchView {
    WatchView {
        listened: Map::new(
            |p: u16| watch.listened.contains_key(p) && heard(seen, p),
            |p: u16| watch.listened[p],
        ),
        refused: Set::new(|p: u16| watch.refused.contains(p) && heard(seen, p)),
    }
}

/// What one pass over a box's listeners comes to.
#[derive(Debug, PartialEq, Eq)]
pub struct Reconciled {
    /// The listeners that are left unpublished, the first time each is seen.
    pub noticed: Vec<Listener>,
    /// The ports whose publication is to be withdrawn.
    pub withdrawn: Vec<u16>,
}

/// The watch on one box's listening ports.
pub struct ListenWatch {
    rules: ListenRules,
    listened: BTreeMap<u16, u32>,
    refused: BTreeSet<u16>,
}

impl View for ListenWatch {
    type V = WatchView;

    closed spec fn view(&self) -> WatchView {
        WatchView { listened: self.listened@, refused: self.refused@ }
    }
}

/// Whether a port is among those that a box listens on.
fn is_heard(seen: &[Listener], port: u16) -> (r: bool)
    ensures
        r == heard(seen@, port),
{
    let mut i: usize = 0;
    while i < seen.len()
        invariant
            i <= seen.len(),
            forall|j: int| 0 <= j < i ==> (#[trigger] seen@[j]).port != port,
        decreases seen.len() - i,
    {
        if seen[i].port == port {
            assert(seen@[i as int].port == port);
            return true;
        }
        i = i + 1;
    }
    false
}

impl ListenWatch {
    /// Every port that the watch published is one that the box's rules permit.
    pub closed spec fn wf(&self) -> bool {
        only_permitted(self.rules, self@)
    }

    /// The box's rules.
    pub closed spec fn rules(&self) -> ListenRules {
        self.rules
    }

    /// A watch that has published nothing.
    pub fn new(rules: ListenRules) -> (r: Self)
        ensures
            r.wf(),
            r.rules() == rules,
            r@ == (WatchView { listened: Map::empty(), refused: Set::empty() }),
    {
        let r = ListenWatch { rules, listened: BTreeMap::new(), refused: BTreeSet::new() };
        assert(r@ =~= (WatchView { listened: Map::empty(), refused: Set::empty() }));
        r
    }

    /// One pass over what the box listens on: each permitted port that no
    /// declaration names and that is not published yet is offered to `publish`,
    /// and every publication whose listener is gone is withdrawn.
    pub fn reconcile<P: Fn(u16, u32) -> bool>(&mut self, seen: &[Listener], publish: P) -> (r:
        Reconciled)
        requires
            old(self).wf(),
            forall|port: u16, pid: u32| #[trigger] call_requires(publish, (port, pid)),
        ensures
            final(self).wf(),
            final(self).rules() == old(self).rules(),
            exists|published: Seq<bool>| #[trigger]
                reconciled(old(self).rules(), old(self)@, seen@, published, final(self)@, r)
                    && forall|i: int|
                    0 <= i < seen@.len() && offered(
                        old(self).rules(),
                        after_listeners(old(self).rules(), old(self)@, seen@.take(i), published),
                        #[trigger] seen@[i],
                    ) ==> call_ensures(publish, (seen@[i].port, seen@[i].pid), published[i]),
    {
        proof {
            crate::ordered::lemma_integers();
        }
        let ghost rules = self.rules;
        let ghost start = self@;
        let ghost mut answers: Seq<bool> = Seq::empty();
        let mut notices: Vec<Listener> = Vec::new();
        let mut i: usize = 0;
        assert(seen@.take(0) =~= Seq::<Listener>::empty());
        while i < seen.len()
            invariant
                i <= seen.len(),
                crate::ordered::sortable::<u16>(),
                only_permitted(rules, self@),
                self.rules() == rules,
                rules == old(self).rules(),
                start == old(self)@,
                answers.len() == i,
                forall|port: u16, pid: u32| #[trigger] call_requires(publish, (port, pid)),
                self@ == after_listeners(rules, start, seen@.take(i as int), answers),
                notices@ == noticed(rules, start, seen@.take(i as int), answers),
                forall|j: int|
                    0 <= j < i && offered(
                        rules,
                        after_listeners(rules, start, seen@.take(j), answers),
                        #[trigger] seen@[j],
                    ) ==> call_ensures(publish, (seen@[j].port, seen@[j].pid), answers[j]),
            decreases seen.len() - i,
        {
            let listener: Listener = seen[i];
            let ghost here = self@;
            let ghost told = answers;
            let ghost done = seen@.take(i as int);
            assert(seen@.take(i + 1).drop_last() =~= done);
            assert(seen@.take(i + 1).last() == listener);
            let mut accepted: bool = false;
            if !self.listened.contains_key(&listener.port) {
                match self.rules.publication(listener.port) {
                    ListenPublication::Publish => {
                        accepted = publish(listener.port, listener.pid);
                        if accepted {
                            self.listened.insert(listener.port, listener.pid);
                        }
                    },
                    ListenPublication::Declared => {},
                    ListenPublication::Unpermitted => {
                        if !self.refused.contains(&listener.port) {
                            self.refused.insert(listener.port);
                            notices.push(listener);
                        }
                    },
                }
            }
            proof {
                answers = told.push(accepted);
                lemma_answers(rules, start, done, told, answers);
                assert(answers[i as int] == accepted);
                assert(self@ =~= after_listener(rules, here, listener, accepted));
                assert forall|j: int|
                    0 <= j < i + 1 && offered(
                        rules,
                        after_listeners(rules, start, seen@.take(j), answers),
                        #[trigger] seen@[j],
                    ) implies call_ensures(publish, (seen@[j].port, seen@[j].pid), answers[j]) by {
                    lemma_answers(rules, start, seen@.take(j), told, answers);
                }
            }
            i = i + 1;
        }
        assert(seen@.take(seen@.len() as int) =~= seen@);
        let ghost passed = self@;
        let withdrawn: Vec<u16> = self.drop_unheard(seen);
        self.forget_unheard(seen);
        let r = Reconciled { noticed: notices, withdrawn };
        assert(self@ =~= settled(passed, seen@));
        assert(reconciled(rules, start, seen@, answers, self@, r));
        r
    }

    /// Drops the published ports that are no longer listened on.
    fn drop_unheard(&mut self, seen: &[Listener]) -> (r: Vec<u16>)
        ensures
            final(self).rules() == old(self).rules(),
            final(self)@ == (WatchView {
                listened: settled(old(self)@, seen@).listened,
                refused: old(self)@.refused,
            }),
            ascending(r@),
            forall|p: u16| #[trigger]
                r@.contains(p) <==> old(self)@.listened.contains_key(p) && !heard(seen@, p),
    {
        proof {
            crate::ordered::lemma_integers();
        }
        let listened_on = |port: &u16, _pid: &u32| -> (r: bool)
            ensures
                r == heard(seen@, *port),
            { is_heard(seen, *port) };
        let out: Vec<u16> = crate::ordered::retain(&mut self.listened, listened_on);
        assert(self@.listened =~= settled(old(self)@, seen@).listened);
        assert forall|i: int, j: int| 0 <= i < j < out@.len() implies #[trigger] out@[i]
            < #[trigger] out@[j] by {
            assert(crate::ordered::precedes(out@[i], out@[j]));
        }
        out
    }

    /// Forgets the refused ports that are no longer listened on.
    fn forget_unheard(&mut self, seen: &[Listener])
        ensures
            final(self).rules() == old(self).rules(),
            final(self)@ == (WatchView {
                listened: old(self)@.listened,
                refused: settled(old(self)@, seen@).refused,
            }),
    {
        proof {
            crate::ordered::lemma_integers();
        }
        let listened_on = |port: &u16| -> (r: bool)
            ensures
                r == heard(seen@, *port),
            { is_heard(seen, *port) };
        crate::ordered::retain_members(&mut self.refused, listened_on);
        assert(self@.refused =~= settled(old(self)@, seen@).refused);
    }

    /// The process that a published port was published for.
    pub fn published_for(&self, port: u16) -> (r: Option<u32>)
        ensures
            r == (if self@.listened.contains_key(port) {
                Some(self@.listened[port])
            } else {
                None
            }),
    {
        proof {
            crate::ordered::lemma_integers();
        }
        match self.listened.get(&port) {
            Some(pid) => Some(*pid),
            None => None,
        }
    }
}

/// Whether a pass with these answers comes to this.
pub open spec fn reconciled(
    rules: ListenRules,
    before: WatchView,
    seen: Seq<Listener>,
    published: Seq<bool>,
    after: WatchView,
    r: Reconciled,
) -> bool {
    let passed = after_listeners(rules, before, seen, published);
    &&& published.len() == seen.len()
    &&& after == settled(passed, seen)
    &&& r.noticed@ == noticed(rules, before, seen, published)
    &&& ascending(r.withdrawn@)
    &&& forall|p: u16| #[trigger]
        r.withdrawn@.contains(p) <==> passed.listened.contains_key(p) && !heard(seen, p)
}

/// Later answers change nothing of what came before them.
proof fn lemma_answers(
    rules: ListenRules,
    watch: WatchView,
    seen: Seq<Listener>,
    a: Seq<bool>,
    b: Seq<bool>,
)
    requires
        seen.len() <= a.len() <= b.len(),
        forall|i: int| 0 <= i < a.len() ==> a[i] == b[i],
    ensures
        after_listeners(rules, watch, seen, a) == after_listeners(rules, watch, seen, b),
        noticed(rules, watch, seen, a) == noticed(rules, watch, seen, b),
    decreases seen.len(),
{
    if seen.len() > 0 {
        lemma_answers(rules, watch, seen.drop_last(), a, b);
    }
}

// ---------------------------------------------------------------------------
// The process file system
// ---------------------------------------------------------------------------

/// What is behind the first colon.
pub open spec fn behind_colon(s: Seq<char>) -> Option<Seq<char>> {
    if text::scan(s, ':') < s.len() {
        Some(s.skip(text::scan(s, ':') + 1))
    } else {
        None
    }
}

/// The port and the socket of a row of a socket table, where it is listening.
pub open spec fn listening_row(row: Seq<char>) -> Option<(u16, u64)> {
    let fields = text::words(row);
    if fields.len() > 9 && fields[3] == "0A"@ {
        match (text::numeral(fields[9], 10, u64::MAX as int), behind_colon(fields[1])) {
            (Some(inode), Some(hex)) => match text::numeral(hex, 16, u16::MAX as int) {
                Some(port) => Some((port as u16, inode as u64)),
                None => None,
            },
            _ => None,
        }
    } else {
        None
    }
}

/// The listening rows among rows, in order.
pub open spec fn listening_rows(rows: Seq<Seq<char>>) -> Seq<(u16, u64)>
    decreases rows.len(),
{
    if rows.len() == 0 {
        Seq::empty()
    } else {
        let before = listening_rows(rows.drop_last());
        match listening_row(rows.last()) {
            Some(found) => before.push(found),
            None => before,
        }
    }
}

/// The listening sockets of a table: its rows behind the heading.
pub open spec fn listening_in(table: Seq<char>) -> Seq<(u16, u64)> {
    let lines = text::text_lines(table);
    if lines.len() == 0 {
        Seq::empty()
    } else {
        listening_rows(lines.skip(1))
    }
}

/// The port and the socket of a row, where it is listening.
fn row_listening(row: &Vec<char>) -> (r: Option<(u16, u64)>)
    ensures
        r == listening_row(row@),
{
    let fields: Vec<Vec<char>> = text::split_words(row.as_slice());
    if fields.len() <= 9 {
        return None;
    }
    let state: Vec<char> = text::chars_of("0A");
    if !text::same_chars(fields[3].as_slice(), state.as_slice()) {
        return None;
    }
    let inode: u64 = match text::parse_numeral(fields[9].as_slice(), 10, u64::MAX) {
        Some(inode) => inode,
        None => {
            return None;
        },
    };
    let local: &Vec<char> = &fields[1];
    let colon: usize = text::scan_chars(local.as_slice(), ':', 0);
    assert(local@.skip(0) =~= local@);
    let n: usize = local.len();
    if colon >= n {
        return None;
    }
    let hex: Vec<char> = text::chars_in(local.as_slice(), colon + 1, n);
    assert(hex@ =~= local@.skip(colon + 1));
    match text::parse_numeral(hex.as_slice(), 16, u16::MAX as u64) {
        Some(port) => Some((port as u16, inode)),
        None => None,
    }
}

/// The port and the socket of every listening row of a socket table.
pub fn listening_sockets(table: &str) -> (r: Vec<(u16, u64)>)
    ensures
        r@ == listening_in(table@),
{
    let chars: Vec<char> = text::chars_of(table);
    let lines: Vec<Vec<char>> = text::split_lines(chars.as_slice());
    let ghost all = text::text_lines(table@);
    let mut out: Vec<(u16, u64)> = Vec::new();
    if lines.len() == 0 {
        return out;
    }
    let ghost rows = all.skip(1);
    let mut i: usize = 1;
    assert(rows.take(0) =~= Seq::<Seq<char>>::empty());
    while i < lines.len()
        invariant
            1 <= i <= lines.len(),
            lines@.len() == all.len(),
            forall|j: int| 0 <= j < lines@.len() ==> (#[trigger] lines@[j])@ == all[j],
            rows == all.skip(1),
            out@ == listening_rows(rows.take(i - 1)),
        decreases lines.len() - i,
    {
        assert(rows.take(i as int).drop_last() =~= rows.take(i - 1));
        assert(rows.take(i as int).last() == lines@[i as int]@);
        if let Some(found) = row_listening(&lines[i]) {
            out.push(found);
        }
        i = i + 1;
    }
    assert(rows.take(rows.len() as int) =~= rows);
    out
}

/// The socket that a descriptor's target names.
pub open spec fn inode_of(target: Seq<char>) -> Option<int> {
    let prefix = "socket:["@;
    if text::starts_with(target, prefix) && target.len() > prefix.len() && target.last() == ']' {
        text::numeral(target.subrange(prefix.len() as int, target.len() - 1), 10, u64::MAX as int)
    } else {
        None
    }
}

/// The socket that a descriptor's target names.
pub fn socket_inode(target: &str) -> (r: Option<u64>)
    ensures
        match r {
            Some(inode) => inode_of(target@) == Some(inode as int),
            None => inode_of(target@) is None,
        },
{
    let chars: Vec<char> = text::chars_of(target);
    let prefix: Vec<char> = text::chars_of("socket:[");
    let n: usize = chars.len();
    assert(chars@.skip(0) =~= chars@);
    if !text::chars_match_at(chars.as_slice(), 0, prefix.as_slice()) || n <= prefix.len() || chars[n
        - 1] != ']' {
        return None;
    }
    let digits: Vec<char> = text::chars_in(chars.as_slice(), prefix.len(), n - 1);
    text::parse_numeral(digits.as_slice(), 10, u64::MAX)
}

/// Which process holds each socket, the first that was found.
pub struct SocketOwners {
    owners: BTreeMap<u64, u32>,
}

impl View for SocketOwners {
    type V = Map<u64, u32>;

    closed spec fn view(&self) -> Map<u64, u32> {
        self.owners@
    }
}

impl SocketOwners {
    /// No socket is known to be held.
    pub fn new() -> (r: Self)
        ensures
            r@ == Map::<u64, u32>::empty(),
    {
        SocketOwners { owners: BTreeMap::new() }
    }

    /// Takes note of a descriptor of process `pid`.
    pub fn claim(&mut self, pid: u32, target: &str)
        ensures
            final(self)@ == (match inode_of(target@) {
                Some(inode) => if old(self)@.contains_key(inode as u64) {
                    old(self)@
                } else {
                    old(self)@.insert(inode as u64, pid)
                },
                None => old(self)@,
            }),
            final(self)@ == claimed(old(self)@, pid, target@),
    {
        proof {
            crate::ordered::lemma_integers();
        }
        if let Some(inode) = socket_inode(target) {
            if !self.owners.contains_key(&inode) {
                self.owners.insert(inode, pid);
            }
        }
    }

    /// The listeners of sockets, each with the process that holds it, or with
    /// `container_pid` where that is not known.
    pub fn listeners(&self, sockets: &[(u16, u64)], container_pid: u32) -> (r: Vec<Listener>)
        ensures
            r@.len() == sockets@.len(),
            forall|i: int|
                0 <= i < r@.len() ==> #[trigger] r@[i] == (Listener {
                    port: sockets@[i].0,
                    pid: if self@.contains_key(sockets@[i].1) {
                        self@[sockets@[i].1]
                    } else {
                        container_pid
                    },
                }),
    {
        proof {
            crate::ordered::lemma_integers();
        }
        let mut out: Vec<Listener> = Vec::new();
        let mut i: usize = 0;
        while i < sockets.len()
            invariant
                i <= sockets.len(),
                crate::ordered::sortable::<u64>(),
                out@.len() == i,
                forall|j: int|
                    0 <= j < i ==> #[trigger] out@[j] == (Listener {
                        port: sockets@[j].0,
                        pid: if self@.contains_key(sockets@[j].1) {
                            self@[sockets@[j].1]
                        } else {
                            container_pid
                        },
                    }),
            decreases sockets.len() - i,
        {
            let (port, inode): (u16, u64) = sockets[i];
            let pid: u32 = match self.owners.get(&inode) {
                Some(pid) => *pid,
                None => container_pid,
            };
            out.push(Listener { port, pid });
            i = i + 1;
        }
        out
    }
}

/// The walk over a box's processes, from its supervisor down, breadth first and
/// bounded.
pub struct PidWalk {
    pids: Vec<u32>,
    next: usize,
}

/// A walk, mathematically.
#[verifier::ext_equal]
pub struct PidWalkView {
    pub pids: Seq<u32>,
    pub next: nat,
}

impl View for PidWalk {
    type V = PidWalkView;

    closed spec fn view(&self) -> PidWalkView {
        PidWalkView { pids: self.pids@, next: self.next as nat }
    }
}

impl PidWalk {
    /// A walk that begins at the supervisor.
    pub fn new(container_pid: u32) -> (r: Self)
        ensures
            r@ == (PidWalkView { pids: seq![container_pid], next: 0 }),
    {
        let mut pids: Vec<u32> = Vec::new();
        pids.push(container_pid);
        assert(pids@ =~= seq![container_pid]);
        PidWalk { pids, next: 0 }
    }

    /// The process to ask for its children next; `None` once all are asked or
    /// there are enough.
    pub fn next_parent(&mut self) -> (r: Option<u32>)
        ensures
            ({
                let w = old(self)@;
                if w.next < w.pids.len() && w.pids.len() < PID_WALK_LIMIT {
                    r == Some(w.pids[w.next as int]) && final(self)@ == (PidWalkView {
                        next: w.next + 1,
                        ..w
                    })
                } else {
                    r is None && final(self)@ == w
                }
            }),
            r == asked_next(old(self)@),
    {
        if self.next < self.pids.len() && self.pids.len() < PID_WALK_LIMIT {
            let pid: u32 = self.pids[self.next];
            self.next = self.next + 1;
            Some(pid)
        } else {
            None
        }
    }

    /// Takes the children of the process that was asked.
    pub fn found(&mut self, children: &[u32])
        ensures
            final(self)@ == (PidWalkView {
                pids: old(self)@.pids + crate::enforcement::new_pids(old(self)@.pids, children@),
                ..old(self)@
            }),
    {
        let ghost start = self.pids@;
        let ghost mut fresh: Seq<u32> = Seq::empty();
        let mut i: usize = 0;
        assert(self.pids@ =~= start + fresh);
        while i < children.len()
            invariant
                i <= children.len(),
                start == old(self)@.pids,
                self.next == old(self)@.next,
                self.pids@ == start + fresh,
                fresh == crate::enforcement::new_pids(start, children@.take(i as int)),
            decreases children.len() - i,
        {
            assert(children@.take(i + 1).drop_last() =~= children@.take(i as int));
            let child: u32 = children[i];
            let ghost both = start + fresh;
            proof {
                if start.contains(child) {
                    let k = choose|k: int| 0 <= k < start.len() && start[k] == child;
                    assert(both[k] == child);
                }
                if fresh.contains(child) {
                    let k = choose|k: int| 0 <= k < fresh.len() && fresh[k] == child;
                    assert(both[start.len() + k] == child);
                }
                if both.contains(child) {
                    let k = choose|k: int| 0 <= k < both.len() && both[k] == child;
                    if k < start.len() {
                        assert(start[k] == child);
                    } else {
                        assert(fresh[k - start.len()] == child);
                    }
                }
            }
            if !has_pid(&self.pids, child) {
                self.pids.push(child);
                proof {
                    fresh = fresh.push(child);
                    assert(self.pids@ =~= start + fresh);
                }
            }
            i = i + 1;
        }
        assert(children@.take(children@.len() as int) =~= children@);
    }

    /// The processes found.
    pub fn pids(&self) -> (r: &[u32])
        ensures
            r@ == self@.pids,
    {
        self.pids.as_slice()
    }
}

/// Whether a list holds a process.
fn has_pid(pids: &Vec<u32>, pid: u32) -> (r: bool)
    ensures
        r == pids@.contains(pid),
{
    let mut i: usize = 0;
    while i < pids.len()
        invariant
            i <= pids.len(),
            forall|j: int| 0 <= j < i ==> #[trigger] pids@[j] != pid,
        decreases pids.len() - i,
    {
        if pids[i] == pid {
            assert(pids@[i as int] == pid);
            return true;
        }
        i = i + 1;
    }
    false
}

/// Where a box's listeners are read from: the entry of the box's supervisor in
/// the process file system.
#[derive(Debug)]
pub struct ProcListeners {
    proc_root: String,
    container_pid: u32,
}

impl ProcListeners {
    /// The process file system's root.
    pub closed spec fn root(&self) -> Seq<char> {
        self.proc_root@
    }

    /// The box's supervisor.
    pub closed spec fn supervisor(&self) -> u32 {
        self.container_pid
    }

    /// The listeners of the box that `container_pid` supervises.
    pub fn new(container_pid: u32) -> (r: Self)
        ensures
            r.root() == "/proc"@,
            r.supervisor() == container_pid,
    {
        ProcListeners { proc_root: "/proc".to_owned(), container_pid }
    }

    /// The same, in a process file system at another place.
    pub fn rooted_at(proc_root: &str, container_pid: u32) -> (r: Self)
        ensures
            r.root() == proc_root@,
            r.supervisor() == container_pid,
    {
        ProcListeners { proc_root: proc_root.to_owned(), container_pid }
    }

    /// The box's supervisor.
    pub fn container_pid(&self) -> (r: u32)
        ensures
            r == self.supervisor(),
    {
        self.container_pid
    }

    /// A process's entry.
    fn entry(&self, pid: u32) -> (r: String)
        ensures
            r@ == crate::path::joined(self.root(), text::decimal(pid as nat)),
    {
        join(self.proc_root.as_str(), text::decimal_string(pid as u64).as_str())
    }

    /// The socket table of one family, `tcp` or `tcp6`.
    pub fn table_path(&self, family: &str) -> (r: String)
        ensures
            r@ == crate::path::joined(
                crate::path::joined(
                    crate::path::joined(self.root(), text::decimal(self.supervisor() as nat)),
                    "net"@,
                ),
                family@,
            ),
    {
        let net: String = join(self.entry(self.container_pid).as_str(), "net");
        join(net.as_str(), family)
    }

    /// The listing of a process's children.
    pub fn children_path(&self, pid: u32) -> (r: String)
        ensures
            r@ == crate::path::joined(
                crate::path::joined(
                    crate::path::joined(
                        crate::path::joined(self.root(), text::decimal(pid as nat)),
                        "task"@,
                    ),
                    text::decimal(pid as nat),
                ),
                "children"@,
            ),
    {
        let task: String = join(self.entry(pid).as_str(), "task");
        let own: String = join(task.as_str(), text::decimal_string(pid as u64).as_str());
        join(own.as_str(), "children")
    }

    /// The directory of a process's descriptors.
    pub fn fd_dir(&self, pid: u32) -> (r: String)
        ensures
            r@ == crate::path::joined(
                crate::path::joined(self.root(), text::decimal(pid as nat)),
                "fd"@,
            ),
    {
        join(self.entry(pid).as_str(), "fd")
    }
}

// ---------------------------------------------------------------------------
// Laws
// ---------------------------------------------------------------------------

proof fn lemma_listened_permitted(
    rules: ListenRules,
    watch: WatchView,
    seen: Seq<Listener>,
    published: Seq<bool>,
    port: u16,
)
    ensures
        ({
            let after = after_listeners(rules, watch, seen, published);
            &&& watch.listened.contains_key(port) ==> after.listened.contains_key(port)
                && after.listened[port] == watch.listened[port]
            &&& after.listened.contains_key(port) && !watch.listened.contains_key(port)
                ==> rules.rule(port) == ListenPublication::Publish && heard(seen, port)
        }),
    decreases seen.len(),
{
    if seen.len() > 0 {
        let before = seen.drop_last();
        lemma_listened_permitted(rules, watch, before, published, port);
        if heard(before, port) {
            let i = choose|i: int| 0 <= i < before.len() && (#[trigger] before[i]).port == port;
            assert(seen[i].port == port);
        }
        assert(seen[seen.len() - 1] == seen.last());
    }
}

/// A port that the box's rules do not permit is never published, whatever
/// listens on it: what a pass leaves published was published before or is
/// permitted, and is listened on.
pub proof fn law_only_permitted_ports_are_published(
    rules: ListenRules,
    before: WatchView,
    seen: Seq<Listener>,
    published: Seq<bool>,
    after: WatchView,
    r: Reconciled,
    port: u16,
)
    requires
        reconciled(rules, before, seen, published, after, r),
        after.listened.contains_key(port),
    ensures
        heard(seen, port),
        before.listened.contains_key(port) || rules.rule(port) == ListenPublication::Publish,
        before.listened.contains_key(port) ==> after.listened[port] == before.listened[port],
{
    lemma_listened_permitted(rules, before, seen, published, port);
}

/// When the listener behind a published port closes, its publication is
/// withdrawn; and nothing is withdrawn that was not published, or that is still
/// listened on.
pub proof fn law_closed_ports_are_withdrawn(
    rules: ListenRules,
    before: WatchView,
    seen: Seq<Listener>,
    published: Seq<bool>,
    after: WatchView,
    r: Reconciled,
    port: u16,
)
    requires
        reconciled(rules, before, seen, published, after, r),
    ensures
        r.withdrawn@.contains(port) <==> before.listened.contains_key(port) && !heard(seen, port),
        r.withdrawn@.contains(port) ==> !after.listened.contains_key(port),
{
    lemma_listened_permitted(rules, before, seen, published, port);
}

/// A watch that ends with an empty pass leaves nothing of its own published.
pub proof fn law_ended_watch_leaves_nothing(
    rules: ListenRules,
    before: WatchView,
    published: Seq<bool>,
    after: WatchView,
    r: Reconciled,
)
    requires
        reconciled(rules, before, Seq::empty(), published, after, r),
    ensures
        after.listened == Map::<u16, u32>::empty(),
        forall|port: u16| before.listened.contains_key(port) ==> r.withdrawn@.contains(port),
{
    assert(after.listened =~= Map::<u16, u32>::empty());
    assert forall|port: u16| before.listened.contains_key(port) implies r.withdrawn@.contains(
        port,
    ) by {
        law_closed_ports_are_withdrawn(
            rules,
            before,
            Seq::empty(),
            published,
            after,
            r,
            port,
        );
    }
}

/// At any time, every port that a watch has published is one that the box's rules
/// permit.
pub proof fn law_watch_publishes_only_permitted_ports(watch: ListenWatch)
    requires
        watch.wf(),
    ensures
        only_permitted(watch.rules(), watch@),
{
}

/// Where every offer is taken, so is the last, and so are those before it.
proof fn lemma_taken_before(
    rules: ListenRules,
    watch: WatchView,
    seen: Seq<Listener>,
    published: Seq<bool>,
)
    requires
        seen.len() > 0,
        all_taken(rules, watch, seen, published),
    ensures
        all_taken(rules, watch, seen.drop_last(), published),
        offered(
            rules,
            after_listeners(rules, watch, seen.drop_last(), published),
            seen.last(),
        ) ==> published[seen.len() - 1],
{
    let before = seen.drop_last();
    assert forall|i: int|
        0 <= i < before.len() && offered(
            rules,
            after_listeners(rules, watch, before.take(i), published),
            #[trigger] before[i],
        ) implies published[i] by {
        assert(before.take(i) =~= seen.take(i));
        assert(before[i] == seen[i]);
    }
    assert(seen.take(seen.len() - 1) =~= before);
    assert(seen[seen.len() - 1] == seen.last());
}

/// What a port comes to by the last listener of a pass, whose offer is taken.
proof fn lemma_last_taken(
    rules: ListenRules,
    watch: WatchView,
    seen: Seq<Listener>,
    published: Seq<bool>,
    port: u16,
)
    requires
        seen.len() > 0,
        offered(
            rules,
            after_listeners(rules, watch, seen.drop_last(), published),
            seen.last(),
        ) ==> published[seen.len() - 1],
        ({
            let before = after_listeners(rules, watch, seen.drop_last(), published);
            &&& heard(seen.drop_last(), port) && rules.rule(port) == ListenPublication::Publish
                ==> before.listened.contains_key(port)
            &&& heard(seen.drop_last(), port) && rules.rule(port) == ListenPublication::Unpermitted
                ==> before.listened.contains_key(port) || before.refused.contains(port)
        }),
    ensures
        ({
            let after = after_listeners(rules, watch, seen, published);
            &&& heard(seen, port) && rules.rule(port) == ListenPublication::Publish
                ==> after.listened.contains_key(port)
            &&& heard(seen, port) && rules.rule(port) == ListenPublication::Unpermitted
                ==> after.listened.contains_key(port) || after.refused.contains(port)
        }),
{
    let before = seen.drop_last();
    if heard(seen, port) && seen.last().port != port {
        let i = choose|i: int| 0 <= i < seen.len() && (#[trigger] seen[i]).port == port;
        assert(before[i].port == port);
    }
}

/// What a port comes to in the course of a pass in which every offer is taken:
/// once it is heard it is published, where the rules permit it, and refused,
/// where they do not.
proof fn lemma_taken(
    rules: ListenRules,
    watch: WatchView,
    seen: Seq<Listener>,
    published: Seq<bool>,
    port: u16,
)
    requires
        all_taken(rules, watch, seen, published),
    ensures
        ({
            let after = after_listeners(rules, watch, seen, published);
            &&& heard(seen, port) && rules.rule(port) == ListenPublication::Publish
                ==> after.listened.contains_key(port)
            &&& heard(seen, port) && rules.rule(port) == ListenPublication::Unpermitted
                ==> after.listened.contains_key(port) || after.refused.contains(port)
        }),
    decreases seen.len(),
{
    if seen.len() > 0 {
        lemma_taken_before(rules, watch, seen, published);
        lemma_taken(rules, watch, seen.drop_last(), published, port);
        lemma_last_taken(rules, watch, seen, published, port);
    }
}

/// Where every offer is taken, one pass leaves published exactly the ports that
/// are listened on and that the rules permit.
pub proof fn law_pass_publishes_what_is_heard_and_permitted(
    rules: ListenRules,
    before: WatchView,
    seen: Seq<Listener>,
    published: Seq<bool>,
    after: WatchView,
    r: Reconciled,
    port: u16,
)
    requires
        only_permitted(rules, before),
        reconciled(rules, before, seen, published, after, r),
        all_taken(rules, before, seen, published),
    ensures
        after.listened.contains_key(port) <==> heard(seen, port) && rules.rule(port)
            == ListenPublication::Publish,
{
    lemma_listened_permitted(rules, before, seen, published, port);
    lemma_taken(rules, before, seen, published, port);
}

/// A pass changes nothing where each port that is listened on is published
/// already, or refused already, or declared.
proof fn lemma_nothing_to_do(
    rules: ListenRules,
    watch: WatchView,
    seen: Seq<Listener>,
    published: Seq<bool>,
)
    requires
        forall|i: int|
            0 <= i < seen.len() ==> !offered(rules, watch, #[trigger] seen[i]) && !newly_refused(
                rules,
                watch,
                seen[i],
            ),
    ensures
        after_listeners(rules, watch, seen, published) == watch,
        noticed(rules, watch, seen, published) == Seq::<Listener>::empty(),
    decreases seen.len(),
{
    if seen.len() > 0 {
        let before = seen.drop_last();
        assert forall|i: int| 0 <= i < before.len() implies !offered(
            rules,
            watch,
            #[trigger] before[i],
        ) && !newly_refused(rules, watch, before[i]) by {
            assert(before[i] == seen[i]);
        }
        lemma_nothing_to_do(rules, watch, before, published);
        assert(seen[seen.len() - 1] == seen.last());
    }
}

/// Where every offer is taken, a second pass over the same listeners changes
/// nothing: it publishes nothing, withdraws nothing and has nothing to notice.
pub proof fn law_second_pass_changes_nothing(
    rules: ListenRules,
    before: WatchView,
    seen: Seq<Listener>,
    first: Seq<bool>,
    between: WatchView,
    r: Reconciled,
    second: Seq<bool>,
    after: WatchView,
    again: Reconciled,
)
    requires
        reconciled(rules, before, seen, first, between, r),
        all_taken(rules, before, seen, first),
        reconciled(rules, between, seen, second, after, again),
    ensures
        after == between,
        again.noticed@ == Seq::<Listener>::empty(),
        again.withdrawn@ == Seq::<u16>::empty(),
        forall|i: int| 0 <= i < seen.len() ==> !offered(rules, between, #[trigger] seen[i]),
{
    assert forall|i: int| 0 <= i < seen.len() implies !offered(rules, between, #[trigger] seen[i])
        && !newly_refused(rules, between, seen[i]) by {
        assert(heard(seen, seen[i].port));
        lemma_taken(rules, before, seen, first, seen[i].port);
    }
    lemma_nothing_to_do(rules, between, seen, second);
    assert(settled(between, seen) =~= between);
    if again.withdrawn@.len() > 0 {
        assert(again.withdrawn@.contains(again.withdrawn@[0]));
    }
    assert(again.withdrawn@ =~= Seq::<u16>::empty());
}

/// A port that a declaration names is left alone, whatever listens on it: it is
/// neither published by the watch nor withdrawn.
pub proof fn law_declared_ports_are_left_alone(
    rules: ListenRules,
    before: WatchView,
    seen: Seq<Listener>,
    published: Seq<bool>,
    after: WatchView,
    r: Reconciled,
    port: u16,
)
    requires
        only_permitted(rules, before),
        reconciled(rules, before, seen, published, after, r),
        rules.rule(port) == ListenPublication::Declared,
    ensures
        !after.listened.contains_key(port),
        !r.withdrawn@.contains(port),
        forall|i: int|
            0 <= i < seen.len() && (#[trigger] seen[i]).port == port ==> !offered(
                rules,
                after_listeners(rules, before, seen.take(i), published),
                seen[i],
            ),
{
    lemma_listened_permitted(rules, before, seen, published, port);
}

/// A row of a socket table lists a listener exactly if it has ten fields or more,
/// the fourth says that it listens, the second ends in a colon and a port in
/// hexadecimal behind an address of any length, and the tenth is a number. White
/// space between the fields does not matter, nor do the other fields.
pub proof fn law_listening_row_is_listed(
    gaps: Seq<Seq<char>>,
    fields: Seq<Seq<char>>,
    address: Seq<char>,
    hex: Seq<char>,
)
    requires
        text::spaces(gaps, fields),
    ensures
        fields.len() >= 10 && fields[3] == seq!['0', 'A'] && !address.contains(':') && fields[1]
            == address + seq![':'] + hex ==> listening_row(text::spaced(gaps, fields)) == (match (
            text::numeral(hex, 16, 65535),
            text::numeral(fields[9], 10, 0xffff_ffff_ffff_ffff),
        ) {
            (Some(port), Some(inode)) => Some((port as u16, inode as u64)),
            _ => None,
        }),
        fields.len() < 10 || fields[3] != seq!['0', 'A'] || !fields[1].contains(':')
            ==> listening_row(text::spaced(gaps, fields)) is None,
{
    text::law_words_read_back(gaps, fields);
    reveal_strlit("0A");
    assert("0A"@ =~= seq!['0', 'A']);
    if fields.len() >= 10 {
        let local = fields[1];
        if !address.contains(':') && local == address + seq![':'] + hex {
            assert forall|j: int| 0 <= j < address.len() implies local[j] != ':' by {
                assert(local[j] == address[j]);
                assert(address.contains(address[j]));
            }
            assert(local[address.len() as int] == ':');
            text::lemma_scan_is(local, ':', address.len() as int);
            assert(local.skip(address.len() as int + 1) =~= hex);
        }
        if !local.contains(':') {
            text::lemma_scan(local, ':');
            if text::scan(local, ':') < local.len() {
                assert(local.contains(local[text::scan(local, ':')]));
            }
        }
    }
}

/// Every row behind the heading of a table is looked at: what a table lists is
/// what its rows list, in their order.
pub proof fn law_table_lists_what_its_rows_do(
    table: Seq<char>,
    a: Seq<Seq<char>>,
    b: Seq<Seq<char>>,
    row: Seq<char>,
)
    ensures
        text::text_lines(table).len() > 0 ==> listening_in(table) == listening_rows(
            text::text_lines(table).skip(1),
        ),
        text::text_lines(table).len() == 0 ==> listening_in(table).len() == 0,
        listening_rows(a + b) == listening_rows(a) + listening_rows(b),
        listening_row(row) matches Some(found) ==> listening_rows(seq![row]) == seq![found],
        listening_row(row) is None ==> listening_rows(seq![row]) == Seq::<(u16, u64)>::empty(),
    decreases b.len(),
{
    let one = seq![row];
    assert(one.drop_last() =~= Seq::<Seq<char>>::empty());
    assert(listening_rows(one.drop_last()) =~= Seq::<(u16, u64)>::empty());
    if let Some(found) = listening_row(row) {
        assert(listening_rows(one) =~= seq![found]);
    }
    if b.len() == 0 {
        assert(a + b =~= a);
        assert(listening_rows(a) + listening_rows(b) =~= listening_rows(a));
    } else {
        law_table_lists_what_its_rows_do(table, a, b.drop_last(), row);
        assert((a + b).drop_last() =~= a + b.drop_last());
        assert((a + b).last() == b.last());
        assert(listening_rows(a + b) =~= listening_rows(a) + listening_rows(b));
    }
}

/// The target of a descriptor names a socket exactly if a number stands between
/// `socket:[` and `]`.
pub proof fn law_socket_is_named_by_its_number(target: Seq<char>, digits: Seq<char>)
    ensures
        inode_of(
            seq!['s', 'o', 'c', 'k', 'e', 't', ':', '['] + digits + seq![']'],
        ) == text::numeral(digits, 10, 0xffff_ffff_ffff_ffff),
        inode_of(target) is Some ==> target.len() > 9 && target == seq![
            's',
            'o',
            'c',
            'k',
            'e',
            't',
            ':',
            '[',
        ] + target.subrange(8, target.len() - 1) + seq![']'],
{
    reveal_strlit("socket:[");
    let prefix = seq!['s', 'o', 'c', 'k', 'e', 't', ':', '['];
    assert("socket:["@ =~= prefix);
    let t = prefix + digits + seq![']'];
    assert(t.take(8) =~= prefix);
    assert(t.subrange(8, t.len() - 1) =~= digits);
    assert(t.last() == ']');
    if inode_of(target) is Some {
        let inner = target.subrange(8, target.len() - 1);
        assert(target =~= (prefix + inner) + seq![']']) by {
            assert(target.take(8) == prefix);
            assert forall|i: int| 0 <= i < 8 implies target[i] == prefix[i] by {
                assert(target.take(8)[i] == target[i]);
            }
        }
    }
}

/// A port that a box listens on is published by itself exactly if no TCP mapping
/// names it on the box's side and it lies within the range that is permitted; it
/// is left alone as declared exactly if a TCP mapping names it.
pub proof fn law_listening_port_is_ruled_by_mappings_and_range(
    ingress: IngressPolicy,
    port: u16,
)
    ensures
        permitted(Some(&ingress), port) == ListenPublication::Declared <==> exists|i: int|
            0 <= i < ingress.port_mappings@.len() && {
                let m = #[trigger] ingress.port_mappings@[i];
                m.internal_port == port && m.proto == IpProto::Tcp
            },
        permitted(Some(&ingress), port) == ListenPublication::Publish <==> {
            &&& ingress.dynamic_allowed_range matches Some((lo, hi)) && lo <= port && port <= hi
            &&& forall|i: int|
                0 <= i < ingress.port_mappings@.len() ==> {
                    let m = #[trigger] ingress.port_mappings@[i];
                    m.internal_port != port || m.proto != IpProto::Tcp
                }
        },
        permitted(None, port) == ListenPublication::Unpermitted,
{
    if permitted(Some(&ingress), port) == ListenPublication::Declared {
        let i = choose|i: int|
            0 <= i < ingress.port_mappings@.len() && (#[trigger] ingress.port_mappings@[i]).internal_port
                == port && ingress.port_mappings@[i].proto == IpProto::Tcp;
        assert(ingress.port_mappings@[i].internal_port == port);
    }
    if exists|i: int|
        0 <= i < ingress.port_mappings@.len() && {
            let m = #[trigger] ingress.port_mappings@[i];
            m.internal_port == port && m.proto == IpProto::Tcp
        } {
        assert(names_port(Some(&ingress), port));
    }
}

/// Whether one of some listeners is on a port.
pub open spec fn told_of(told: Seq<Listener>, port: u16) -> bool {
    exists|i: int| 0 <= i < told.len() && (#[trigger] told[i]).port == port
}

proof fn lemma_told_push(told: Seq<Listener>, listener: Listener, port: u16)
    ensures
        told_of(told.push(listener), port) <==> told_of(told, port) || listener.port == port,
{
    let all = told.push(listener);
    if told_of(told, port) {
        let i = choose|i: int| 0 <= i < told.len() && (#[trigger] told[i]).port == port;
        assert(all[i].port == port);
    }
    assert(all[told.len() as int] == listener);
    if told_of(all, port) && listener.port != port {
        let i = choose|i: int| 0 <= i < all.len() && (#[trigger] all[i]).port == port;
        assert(told[i].port == port);
    }
}

/// What a pass notices, and what it keeps of the refused ports.
proof fn lemma_noticed(
    rules: ListenRules,
    watch: WatchView,
    seen: Seq<Listener>,
    published: Seq<bool>,
    port: u16,
)
    ensures
        ({
            let told = noticed(rules, watch, seen, published);
            let after = after_listeners(rules, watch, seen, published);
            &&& told_of(told, port) <==> heard(seen, port) && rules.rule(port)
                == ListenPublication::Unpermitted && !watch.listened.contains_key(port)
                && !watch.refused.contains(port)
            &&& after.refused.contains(port) <==> watch.refused.contains(port) || told_of(told, port)
            &&& forall|i: int, j: int|
                0 <= i < j < told.len() ==> (#[trigger] told[i]).port != (#[trigger] told[j]).port
        }),
    decreases seen.len(),
{
    if seen.len() > 0 {
        let rest = seen.drop_last();
        let last = seen.last();
        lemma_noticed(rules, watch, rest, published, port);
        lemma_noticed(rules, watch, rest, published, last.port);
        lemma_listened_permitted(rules, watch, rest, published, port);
        lemma_listened_permitted(rules, watch, rest, published, last.port);
        let told = noticed(rules, watch, rest, published);
        lemma_told_push(told, last, port);
        assert(heard(seen, port) <==> heard(rest, port) || last.port == port) by {
            assert(seen =~= rest.push(last));
            lemma_told_push(rest, last, port);
        }
        if newly_refused(rules, after_listeners(rules, watch, rest, published), last) {
            let all = told.push(last);
            assert forall|i: int, j: int| 0 <= i < j < all.len() implies (#[trigger] all[i]).port != (
            #[trigger] all[j]).port by {
                assert(all[i] == told[i]);
                if j < told.len() {
                    assert(all[j] == told[j]);
                } else {
                    assert(!told_of(told, last.port));
                    assert(told[i].port != last.port);
                }
            }
        }
    }
}

/// A listener that the rules do not permit is noticed the first time its port is
/// seen and not again for as long as it is listened on: neither later in the same
/// pass nor in the next one. No other listener is noticed.
pub proof fn law_unpermitted_port_is_noticed_once(
    rules: ListenRules,
    before: WatchView,
    seen: Seq<Listener>,
    published: Seq<bool>,
    after: WatchView,
    r: Reconciled,
    port: u16,
)
    requires
        reconciled(rules, before, seen, published, after, r),
    ensures
        told_of(r.noticed@, port) <==> heard(seen, port) && rules.rule(port)
            == ListenPublication::Unpermitted && !before.listened.contains_key(port)
            && !before.refused.contains(port),
        after.refused.contains(port) <==> heard(seen, port) && (before.refused.contains(port)
            || told_of(r.noticed@, port)),
        forall|i: int, j: int|
            0 <= i < j < r.noticed@.len() ==> (#[trigger] r.noticed@[i]).port != (
            #[trigger] r.noticed@[j]).port,
{
    lemma_noticed(rules, before, seen, published, port);
}

/// What is published for a port counts for the process of its first listener,
/// where the offer of it is taken.
pub proof fn law_published_port_is_its_first_listeners(
    rules: ListenRules,
    before: WatchView,
    seen: Seq<Listener>,
    published: Seq<bool>,
    after: WatchView,
    r: Reconciled,
    at: int,
)
    requires
        reconciled(rules, before, seen, published, after, r),
        0 <= at < seen.len(),
        forall|j: int| 0 <= j < at ==> (#[trigger] seen[j]).port != seen[at].port,
        !before.listened.contains_key(seen[at].port),
        rules.rule(seen[at].port) == ListenPublication::Publish,
        published[at],
    ensures
        after.listened.contains_key(seen[at].port),
        after.listened[seen[at].port] == seen[at].pid,
{
    lemma_first_listener(rules, before, seen, published, at);
    assert(heard(seen, seen[at].port));
}

proof fn lemma_first_listener(
    rules: ListenRules,
    watch: WatchView,
    seen: Seq<Listener>,
    published: Seq<bool>,
    at: int,
)
    requires
        0 <= at < seen.len(),
        forall|j: int| 0 <= j < at ==> (#[trigger] seen[j]).port != seen[at].port,
        !watch.listened.contains_key(seen[at].port),
        rules.rule(seen[at].port) == ListenPublication::Publish,
        published[at],
    ensures
        ({
            let after = after_listeners(rules, watch, seen, published);
            after.listened.contains_key(seen[at].port) && after.listened[seen[at].port]
                == seen[at].pid
        }),
    decreases seen.len(),
{
    let rest = seen.drop_last();
    let port = seen[at].port;
    if at < rest.len() {
        lemma_first_listener(rules, watch, rest, published, at);
    } else {
        lemma_listened_permitted(rules, watch, rest, published, port);
        if heard(rest, port) {
            let j = choose|j: int| 0 <= j < rest.len() && (#[trigger] rest[j]).port == port;
            assert(seen[j].port == port);
        }
    }
}

/// Who holds which socket, once a descriptor of process `pid` is taken note of.
pub open spec fn claimed(owners: Map<u64, u32>, pid: u32, target: Seq<char>) -> Map<u64, u32> {
    match inode_of(target) {
        Some(inode) => if owners.contains_key(inode as u64) {
            owners
        } else {
            owners.insert(inode as u64, pid)
        },
        None => owners,
    }
}

/// A socket is held by the process whose descriptor was seen first; a later one
/// changes nothing, and neither does a descriptor of anything else.
pub proof fn law_first_claim_of_a_socket_stands(
    owners: Map<u64, u32>,
    pid: u32,
    other: u32,
    target: Seq<char>,
    inode: u64,
    key: u64,
)
    ensures
        inode_of(target) is None ==> claimed(owners, pid, target) == owners,
        inode_of(target) == Some(inode as int) ==> {
            let after = claimed(owners, pid, target);
            &&& after.contains_key(inode)
            &&& !owners.contains_key(inode) ==> after[inode] == pid
            &&& owners.contains_key(inode) ==> after[inode] == owners[inode]
            &&& key != inode ==> after.contains_key(key) == owners.contains_key(key) && after[key]
                == owners[key]
            &&& claimed(after, other, target) == after
        },
{
}

/// The process that a walk asks next.
pub open spec fn asked_next(walk: PidWalkView) -> Option<u32> {
    if walk.next < walk.pids.len() && walk.pids.len() < PID_WALK_LIMIT {
        Some(walk.pids[walk.next as int])
    } else {
        None
    }
}

/// A walk asks every process that it found, in the order they were found, until
/// it has found 512.
pub proof fn law_walk_asks_each_process_in_turn(pids: Seq<u32>, next: nat)
    ensures
        next < pids.len() && pids.len() < 512 ==> asked_next(PidWalkView { pids, next }) == Some(
            pids[next as int],
        ),
        next >= pids.len() || pids.len() >= 512 ==> asked_next(PidWalkView { pids, next }) is None,
{
}

} // verus!
