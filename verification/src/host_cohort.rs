//! The host-address cohort: boxes that share the host's address are told apart
//! from the daemon's own traffic by the cgroup that a socket was opened in.
//!
//! Under the daemon's tree, `daemon/` holds the daemon itself and `boxes/` every
//! host-address box: a box that is denied everything in a leaf under
//! `boxes/deny`, and any other in a leaf under `boxes/open`.

use vstd::prelude::*;

use crate::addr::Endpoint;
use crate::addr::Ipv4Addr;
use crate::answerer::ANSWERER_PORT;
use crate::path::join;
use crate::session::{DropRule, EgressPolicy, Verdict};
use crate::switch::{IPPROTO_TCP, IPPROTO_UDP};
use crate::text;

verus! {

/// The name of the daemon's tree.
pub const TREE_NAME: &'static str = "minimald.slice";

/// The daemon's own leaf under the root.
pub const DAEMON_LEAF: &'static str = "daemon";

/// The directory of every host-address box under the root.
pub const COHORT_DIR: &'static str = "boxes";

/// The class of the boxes that are denied everything.
pub const DENY_CLASS: &'static str = "deny";

/// The class of every other box.
pub const OPEN_CLASS: &'static str = "open";

/// Where the host mounts cgroup2.
pub const CGROUP2_MOUNT: &'static str = "/sys/fs/cgroup";

/// The packet filter's table that every daemon's chain is in.
pub const TABLE: &'static str = "minimal";

/// How a refusal is spelt in the packet filter's rules.
pub const REFUSAL: &'static str = "reject with icmpx admin-prohibited";

/// The endpoint of the box zone's answerer on a native host.
pub open spec fn answerer_endpoint() -> Endpoint {
    Endpoint { ip: Ipv4Addr { bits: crate::addr::LOCALHOST_BITS }, port: ANSWERER_PORT }
}

/// The endpoint of the box zone's answerer on a native host, the one
/// destination that is left to a box that is denied everything.
pub fn answerer() -> (r: Endpoint)
    ensures
        r == answerer_endpoint(),
{
    Endpoint::new(Ipv4Addr::localhost(), ANSWERER_PORT)
}

// ---------------------------------------------------------------------------
// Declarations
// ---------------------------------------------------------------------------

/// Whether a list is there and not empty.
pub open spec fn listed(list: Option<Vec<String>>) -> bool {
    list matches Some(v) && v@.len() > 0
}

/// Whether a declaration denies everything: an empty list of subnets, and no
/// names.
pub open spec fn denies_all(policy: Option<&EgressPolicy>) -> bool {
    policy matches Some(p) && (p.allow_subnets matches Some(subnets) && subnets@.len() == 0) && !listed(
        p.allow_dns_hosts,
    )
}

/// Whether a declaration holds any rule.
pub open spec fn holds_rules(policy: Option<&EgressPolicy>) -> bool {
    policy matches Some(p) && (p.allow_subnets is Some || listed(p.allow_dns_hosts) || listed(
        p.deny_subnets,
    ) || p.allow_protocols is Some)
}

fn is_listed(list: &Option<Vec<String>>) -> (r: bool)
    ensures
        r == listed(*list),
{
    match list {
        Some(v) => v.len() > 0,
        None => false,
    }
}

/// Whether a declaration denies everything: an empty list of subnets, and no
/// names.
pub fn is_deny_all(policy: Option<&EgressPolicy>) -> (r: bool)
    ensures
        r == denies_all(policy),
{
    match policy {
        Some(p) => match &p.allow_subnets {
            Some(subnets) => subnets.len() == 0 && !is_listed(&p.allow_dns_hosts),
            None => false,
        },
        None => false,
    }
}

/// Whether a declaration holds any rule.
pub fn has_rules(policy: Option<&EgressPolicy>) -> (r: bool)
    ensures
        r == holds_rules(policy),
{
    match policy {
        Some(p) => p.allow_subnets.is_some() || is_listed(&p.allow_dns_hosts) || is_listed(
            &p.deny_subnets,
        ) || p.allow_protocols.is_some(),
        None => false,
    }
}

// ---------------------------------------------------------------------------
// Paths
// ---------------------------------------------------------------------------

/// A path without white space and then without slashes around it.
pub open spec fn bare_path(path: Seq<char>) -> Seq<char> {
    text::trim_char(text::trim_white(path), '/')
}

/// The components of a path that are not empty.
pub open spec fn components(path: Seq<char>) -> Seq<Seq<char>> {
    text::non_empty(text::split(path, '/'))
}

/// A path without white space and then without slashes around it.
fn bare(path: &[char]) -> (r: Vec<char>)
    ensures
        r@ == bare_path(path@),
{
    let (from, to): (usize, usize) = text::trim_white_bounds(path);
    let inner: Vec<char> = text::chars_in(path, from, to);
    let (from, to): (usize, usize) = text::trim_char_bounds(inner.as_slice(), '/');
    text::chars_in(inner.as_slice(), from, to)
}

/// Whether a piece is a given word.
fn is_word(piece: &Vec<char>, word: &str) -> (r: bool)
    ensures
        r == (piece@ == word@),
{
    text::same_chars(piece.as_slice(), text::chars_of(word).as_slice())
}

/// Pieces, mathematically.
pub open spec fn pieces_of(v: Seq<Vec<char>>) -> Seq<Seq<char>> {
    Seq::new(v.len(), |i: int| v[i]@)
}

/// The pieces of a path, empty ones and all.
fn path_pieces(path: &[char]) -> (r: Vec<Vec<char>>)
    ensures
        pieces_of(r@) == text::split(path@, '/'),
{
    let r: Vec<Vec<char>> = text::split_chars(path, '/');
    assert(pieces_of(r@) =~= text::split(path@, '/'));
    r
}

/// The components of a path that are not empty.
fn path_components(path: &[char]) -> (r: Vec<Vec<char>>)
    ensures
        pieces_of(r@) == components(path@),
        2 * r@.len() <= path@.len() + 1,
{
    let all: Vec<Vec<char>> = path_pieces(path);
    let ghost pieces = text::split(path@, '/');
    let mut out: Vec<Vec<char>> = Vec::new();
    let mut i: usize = 0;
    assert(pieces.skip(0) =~= pieces);
    assert(pieces_of(out@) =~= Seq::<Seq<char>>::empty());
    while i < all.len()
        invariant
            i <= all.len(),
            pieces == pieces_of(all@),
            pieces_of(out@) + text::non_empty(pieces.skip(i as int)) == text::non_empty(pieces),
        decreases all.len() - i,
    {
        let ghost before = out@;
        let ghost rest = pieces.skip(i as int);
        assert(rest[0] == all@[i as int]@);
        assert(rest.drop_first() =~= pieces.skip(i + 1));
        if all[i].len() > 0 {
            let piece: Vec<char> = text::chars_in(all[i].as_slice(), 0, all[i].len());
            assert(piece@ =~= all@[i as int]@);
            out.push(piece);
            assert(pieces_of(out@) =~= pieces_of(before).push(rest[0]));
            assert(text::non_empty(rest) =~= seq![rest[0]] + text::non_empty(rest.drop_first()));
            assert(pieces_of(before).push(rest[0]) + text::non_empty(rest.drop_first())
                =~= pieces_of(before) + text::non_empty(rest));
        }
        i = i + 1;
    }
    assert(pieces.skip(pieces.len() as int) =~= Seq::<Seq<char>>::empty());
    assert(pieces_of(out@) + Seq::<Seq<char>>::empty() =~= pieces_of(out@));
    proof {
        text::lemma_non_empty_count(path@, '/');
    }
    out
}

/// The user whose manager a component names, as in `user@1000.service`.
pub open spec fn manager_uid(component: Seq<char>) -> Option<int> {
    if text::starts_with(component, "user@"@) && text::ends_with(
        component.skip("user@"@.len() as int),
        ".service"@,
    ) {
        let rest = component.skip("user@"@.len() as int);
        text::numeral(rest.take(rest.len() - ".service"@.len()), 10, u32::MAX as int)
    } else {
        None
    }
}

/// The user whose manager a component names.
fn user_manager_uid(component: &Vec<char>) -> (r: Option<u32>)
    ensures
        match r {
            Some(uid) => manager_uid(component@) == Some(uid as int),
            None => manager_uid(component@) is None,
        },
{
    let prefix: Vec<char> = text::chars_of("user@");
    let suffix: Vec<char> = text::chars_of(".service");
    if component.len() < prefix.len() {
        return None;
    }
    assert(component@.skip(0) =~= component@);
    if !text::chars_match_at(component.as_slice(), 0, prefix.as_slice()) {
        return None;
    }
    let rest: Vec<char> = text::chars_in(component.as_slice(), prefix.len(), component.len());
    assert(rest@ =~= component@.skip(prefix@.len() as int));
    if !text::chars_end_with(rest.as_slice(), suffix.as_slice()) {
        return None;
    }
    let digits: Vec<char> = text::chars_in(rest.as_slice(), 0, rest.len() - suffix.len());
    assert(digits@ =~= rest@.take(rest@.len() - suffix@.len()));
    match text::parse_numeral(digits.as_slice(), 10, u32::MAX as u64) {
        Some(n) => Some(n as u32),
        None => None,
    }
}

/// Where the first component that names a user's manager stands.
pub open spec fn manager_at(pieces: Seq<Seq<char>>) -> Option<int>
    decreases pieces.len(),
{
    if pieces.len() == 0 {
        None
    } else if manager_uid(pieces[0]) is Some {
        Some(0)
    } else {
        match manager_at(pieces.drop_first()) {
            Some(i) => Some(i + 1),
            None => None,
        }
    }
}

/// Where the first component that names a user's manager stands, and the user.
fn find_manager(pieces: &Vec<Vec<char>>) -> (r: Option<(usize, u32)>)
    ensures
        match r {
            Some((i, uid)) => i < pieces@.len() && manager_at(pieces_of(pieces@)) == Some(i as int)
                && manager_uid(pieces@[i as int]@) == Some(uid as int),
            None => manager_at(pieces_of(pieces@)) is None,
        },
{
    let ghost all = pieces_of(pieces@);
    let mut i: usize = 0;
    assert(all.skip(0) =~= all);
    while i < pieces.len()
        invariant
            i <= pieces.len(),
            all == pieces_of(pieces@),
            manager_at(all) == (match manager_at(all.skip(i as int)) {
                Some(k) => Some(k + i),
                None => None,
            }),
        decreases pieces.len() - i,
    {
        assert(all.skip(i as int)[0] == pieces@[i as int]@);
        assert(all.skip(i as int).drop_first() =~= all.skip(i + 1));
        if let Some(uid) = user_manager_uid(&pieces[i]) {
            return Some((i, uid));
        }
        i = i + 1;
    }
    assert(all.skip(i as int) =~= Seq::<Seq<char>>::empty());
    None
}

/// Pieces with a slash between each two.
pub open spec fn joined(pieces: Seq<Seq<char>>) -> Seq<char>
    decreases pieces.len(),
{
    if pieces.len() == 0 {
        Seq::empty()
    } else if pieces.len() == 1 {
        pieces[0]
    } else {
        joined(pieces.drop_last()) + "/"@ + pieces.last()
    }
}

/// The first pieces, with a slash between each two.
fn join_first(pieces: &Vec<Vec<char>>, count: usize) -> (r: String)
    requires
        count <= pieces@.len(),
    ensures
        r@ == joined(pieces_of(pieces@).take(count as int)),
{
    let ghost all = pieces_of(pieces@);
    let mut out: String = String::new();
    let mut i: usize = 0;
    assert(joined(all.take(0)) =~= Seq::<char>::empty());
    while i < count
        invariant
            i <= count <= pieces@.len(),
            all == pieces_of(pieces@),
            out@ == joined(all.take(i as int)),
        decreases count - i,
    {
        assert(all.take(i + 1).drop_last() =~= all.take(i as int));
        assert(all.take(i + 1).last() == pieces@[i as int]@);
        if i > 0 {
            out.append("/");
        }
        let piece: String = text::string_of(pieces[i].as_slice());
        out.append(piece.as_str());
        if i == 0 {
            assert(out@ =~= piece@);
        }
        i = i + 1;
    }
    out
}

/// The cgroup that a line names, if it is one of the unified hierarchy.
pub open spec fn unified(line: Seq<char>) -> Option<Seq<char>> {
    if text::starts_with(line, "0::"@) {
        Some(line.skip("0::"@.len() as int))
    } else {
        None
    }
}

/// What the first line of the unified hierarchy names.
pub open spec fn first_unified(lines: Seq<Seq<char>>) -> Option<Seq<char>>
    decreases lines.len(),
{
    if lines.len() == 0 {
        None
    } else {
        match unified(lines[0]) {
            Some(path) => Some(path),
            None => first_unified(lines.drop_first()),
        }
    }
}

/// The cgroup that a process's cgroup file names, without slashes around it.
pub open spec fn cgroup_in(proc_cgroup: Seq<char>) -> Option<Seq<char>> {
    match first_unified(text::text_lines(proc_cgroup)) {
        Some(path) => Some(bare_path(path)),
        None => None,
    }
}

/// The cgroup that a process's cgroup file names, as characters.
fn cgroup_chars(proc_cgroup: &str) -> (r: Option<Vec<char>>)
    ensures
        match r {
            Some(path) => cgroup_in(proc_cgroup@) == Some(path@),
            None => cgroup_in(proc_cgroup@) is None,
        },
{
    let chars: Vec<char> = text::chars_of(proc_cgroup);
    let lines: Vec<Vec<char>> = text::split_lines(chars.as_slice());
    let prefix: Vec<char> = text::chars_of("0::");
    let ghost all = text::text_lines(proc_cgroup@);
    let mut i: usize = 0;
    assert(all.skip(0) =~= all);
    while i < lines.len()
        invariant
            i <= lines.len(),
            lines@.len() == all.len(),
            forall|j: int| 0 <= j < lines@.len() ==> (#[trigger] lines@[j])@ == all[j],
            all == text::text_lines(proc_cgroup@),
            prefix@ == "0::"@,
            first_unified(all) == first_unified(all.skip(i as int)),
        decreases lines.len() - i,
    {
        let line: &Vec<char> = &lines[i];
        assert(all.skip(i as int)[0] == line@);
        assert(all.skip(i as int).drop_first() =~= all.skip(i + 1));
        assert(line@.skip(0) =~= line@);
        if text::chars_match_at(line.as_slice(), 0, prefix.as_slice()) {
            let path: Vec<char> = text::chars_in(line.as_slice(), prefix.len(), line.len());
            assert(path@ =~= line@.skip(prefix@.len() as int));
            return Some(bare(path.as_slice()));
        }
        i = i + 1;
    }
    None
}

/// The cgroup that a process's cgroup file names, without slashes around it.
pub fn cgroup_of(proc_cgroup: &str) -> (r: Option<String>)
    ensures
        match r {
            Some(path) => cgroup_in(proc_cgroup@) == Some(path@),
            None => cgroup_in(proc_cgroup@) is None,
        },
{
    match cgroup_chars(proc_cgroup) {
        Some(path) => Some(text::string_of(path.as_slice())),
        None => None,
    }
}

/// Whether a line of a mount table mounts cgroup2, and with `nsdelegate`.
pub open spec fn delegates_in(line: Seq<char>) -> Option<bool> {
    match text::find(line, " - "@) {
        None => None,
        Some(at) => {
            let fields = text::words(line.skip(at + " - "@.len()));
            if fields.len() > 0 && fields[0] == "cgroup2"@ {
                Some(
                    fields.len() > 2 && text::split(fields[2], ',').contains("nsdelegate"@),
                )
            } else {
                None
            }
        },
    }
}

/// What the first line that mounts cgroup2 says.
pub open spec fn first_delegates(lines: Seq<Seq<char>>) -> Option<bool>
    decreases lines.len(),
{
    if lines.len() == 0 {
        None
    } else {
        match delegates_in(lines[0]) {
            Some(yes) => Some(yes),
            None => first_delegates(lines.drop_first()),
        }
    }
}

/// Whether a line of a mount table mounts cgroup2, and with `nsdelegate`.
fn line_delegates(line: &Vec<char>) -> (r: Option<bool>)
    ensures
        r == delegates_in(line@),
{
    let sep: Vec<char> = text::chars_of(" - ");
    let at: usize = match text::find_chars(line.as_slice(), sep.as_slice()) {
        Some(at) => at,
        None => {
            return None;
        },
    };
    let n: usize = line.len();
    let after: Vec<char> = text::chars_in(line.as_slice(), at + sep.len(), n);
    assert(after@ =~= line@.skip(at + " - "@.len()));
    let fields: Vec<Vec<char>> = text::split_words(after.as_slice());
    if fields.len() == 0 || !is_word(&fields[0], "cgroup2") {
        return None;
    }
    if fields.len() < 3 {
        return Some(false);
    }
    let options: Vec<Vec<char>> = text::split_chars(fields[2].as_slice(), ',');
    let ghost all = text::split(fields@[2]@, ',');
    let mut i: usize = 0;
    while i < options.len()
        invariant
            i <= options.len(),
            options@.len() == all.len(),
            forall|j: int| 0 <= j < options@.len() ==> (#[trigger] options@[j])@ == all[j],
            forall|j: int| 0 <= j < i ==> #[trigger] all[j] != "nsdelegate"@,
        ensures
            all.contains("nsdelegate"@) == (i < options.len()),
        decreases options.len() - i,
    {
        if is_word(&options[i], "nsdelegate") {
            assert(all[i as int] == "nsdelegate"@);
            break;
        }
        assert(all[i as int] == options@[i as int]@);
        i = i + 1;
    }
    Some(i < options.len())
}

/// Whether the host's cgroup2 mount carries `nsdelegate`, by a mount table;
/// `None` where nothing mounts cgroup2.
pub fn cgroup2_nsdelegate(mountinfo: &str) -> (r: Option<bool>)
    ensures
        r == first_delegates(text::text_lines(mountinfo@)),
{
    let chars: Vec<char> = text::chars_of(mountinfo);
    let lines: Vec<Vec<char>> = text::split_lines(chars.as_slice());
    let ghost all = text::text_lines(mountinfo@);
    let mut i: usize = 0;
    assert(all.skip(0) =~= all);
    while i < lines.len()
        invariant
            i <= lines.len(),
            lines@.len() == all.len(),
            forall|j: int| 0 <= j < lines@.len() ==> (#[trigger] lines@[j])@ == all[j],
            first_delegates(all) == first_delegates(all.skip(i as int)),
            all == text::text_lines(mountinfo@),
        decreases lines.len() - i,
    {
        assert(all.skip(i as int)[0] == lines@[i as int]@);
        assert(all.skip(i as int).drop_first() =~= all.skip(i + 1));
        if let Some(yes) = line_delegates(&lines[i]) {
            return Some(yes);
        }
        i = i + 1;
    }
    None
}

/// Whether a cgroup's name may hold a character.
pub open spec fn leaf_char(c: char) -> bool {
    ('a' <= c && c <= 'z') || ('A' <= c && c <= 'Z') || ('0' <= c && c <= '9') || c == '-' || c == '_'
        || c == '.'
}

/// A session's name with every other character replaced.
pub open spec fn leaf_chars(session: Seq<char>) -> Seq<char> {
    Seq::new(
        session.len(),
        |i: int|
            if leaf_char(session[i]) {
                session[i]
            } else {
                '_'
            },
    )
}

/// The name that a session's leaf carries.
pub open spec fn leaf_name(session: Seq<char>) -> Seq<char> {
    let id = leaf_chars(session);
    if id.len() == 0 || id[0] == '.' {
        "s_"@ + id
    } else {
        id
    }
}

/// The name that a session's leaf carries.
pub fn leaf_id(session: &str) -> (r: String)
    ensures
        r@ == leaf_name(session@),
{
    let n: usize = session.unicode_len();
    let mut id: String = String::new();
    let mut i: usize = 0;
    assert(id@ =~= leaf_chars(session@).take(0));
    while i < n
        invariant
            i <= n,
            n == session@.len(),
            id@ == leaf_chars(session@).take(i as int),
        decreases n - i,
    {
        let c: char = session.get_char(i);
        let kept: bool = ('a' <= c && c <= 'z') || ('A' <= c && c <= 'Z') || ('0' <= c && c <= '9') || c
            == '-' || c == '_' || c == '.';
        if kept {
            id.push(c);
        } else {
            id.push('_');
        }
        i = i + 1;
        assert(leaf_chars(session@).take(i as int) =~= leaf_chars(session@).take(i - 1).push(
            leaf_chars(session@)[i - 1],
        ));
    }
    assert(leaf_chars(session@).take(n as int) =~= leaf_chars(session@));
    if n == 0 || id.as_str().get_char(0) == '.' {
        let mut out: String = "s_".to_owned();
        out.append(id.as_str());
        out
    } else {
        id
    }
}

// ---------------------------------------------------------------------------
// The classifier
// ---------------------------------------------------------------------------

/// The two source identities that are told apart.
#[derive(Clone, Copy, Debug, PartialEq, Eq, Hash, Structural)]
#[non_exhaustive]
pub enum SourceIdentity {
    /// The daemon's own traffic.
    NodePlane,
    /// Every host-address box.
    Cohort,
}

impl SourceIdentity {
    /// The identity as logs and counters spell it.
    pub open spec fn name(self) -> Seq<char> {
        match self {
            SourceIdentity::NodePlane => "node-plane"@,
            SourceIdentity::Cohort => "host-address-cohort"@,
        }
    }

    /// The identity as logs and counters spell it.
    pub fn as_str(self) -> (r: &'static str)
        ensures
            r@ == self.name(),
    {
        match self {
            SourceIdentity::NodePlane => "node-plane",
            SourceIdentity::Cohort => "host-address-cohort",
        }
    }
}

/// What the classifier makes of a cgroup path.
#[derive(Debug, PartialEq, Eq)]
#[non_exhaustive]
pub enum Classified {
    /// The daemon's leaf, or below it.
    NodePlane,
    /// A box's leaf, or below it.
    Box { id: String, deny_all: bool },
    /// With the boxes, in no leaf.
    Cohort,
}

/// What the classifier makes of a cgroup path, mathematically.
pub enum ClassifiedView {
    NodePlane,
    Box { id: Seq<char>, deny_all: bool },
    Cohort,
}

impl View for Classified {
    type V = ClassifiedView;

    open spec fn view(&self) -> ClassifiedView {
        match self {
            Classified::NodePlane => ClassifiedView::NodePlane,
            Classified::Box { id, deny_all } => ClassifiedView::Box {
                id: id@,
                deny_all: *deny_all,
            },
            Classified::Cohort => ClassifiedView::Cohort,
        }
    }
}

impl ClassifiedView {
    /// The source identity that a classification carries.
    pub open spec fn source(self) -> SourceIdentity {
        match self {
            ClassifiedView::NodePlane => SourceIdentity::NodePlane,
            _ => SourceIdentity::Cohort,
        }
    }

    /// The box that a classification names.
    pub open spec fn box_id(self) -> Option<Seq<char>> {
        match self {
            ClassifiedView::Box { id, .. } => Some(id),
            _ => None,
        }
    }
}

impl Classified {
    /// The source identity that the classification carries.
    pub fn source(&self) -> (r: SourceIdentity)
        ensures
            r == self@.source(),
    {
        match self {
            Classified::NodePlane => SourceIdentity::NodePlane,
            Classified::Box { .. } => SourceIdentity::Cohort,
            Classified::Cohort => SourceIdentity::Cohort,
        }
    }
}

/// What the pieces of a path behind the tree's root make of it.
pub open spec fn class_of(below: Seq<Seq<char>>) -> Option<ClassifiedView> {
    if below.len() == 0 {
        None
    } else if below[0] == DAEMON_LEAF@ {
        Some(ClassifiedView::NodePlane)
    } else if below[0] != COHORT_DIR@ {
        None
    } else if below.len() > 2 && (below[1] == DENY_CLASS@ || below[1] == OPEN_CLASS@) && below[2].len()
        > 0 {
        Some(ClassifiedView::Box { id: below[2], deny_all: below[1] == DENY_CLASS@ })
    } else {
        Some(ClassifiedView::Cohort)
    }
}

/// What a cgroup path is in the tree at `root`; `None` for a path outside of it.
pub open spec fn classified(root: Seq<char>, path: Seq<char>) -> Option<ClassifiedView> {
    let pieces = text::split(bare_path(path), '/');
    let above = text::split(root, '/');
    if text::starts_with(pieces, above) {
        class_of(pieces.skip(above.len() as int))
    } else {
        None
    }
}

/// What a rule matches beside the cgroup.
#[derive(Clone, Copy, Debug, PartialEq, Eq, Structural)]
pub enum Filter {
    /// Every destination.
    Any,
    /// TCP or UDP to one endpoint.
    Resolver(Endpoint),
}

impl Filter {
    /// Whether a connection passes the filter.
    pub open spec fn passes(self, dst: Endpoint, proto: u8) -> bool {
        match self {
            Filter::Any => true,
            Filter::Resolver(ep) => dst == ep && (proto == IPPROTO_TCP || proto == IPPROTO_UDP),
        }
    }

    /// The filter in the packet filter's language.
    pub open spec fn shown(self) -> Seq<char> {
        match self {
            Filter::Any => Seq::empty(),
            Filter::Resolver(ep) => " ip daddr "@ + ep.ip.dotted()
                + " meta l4proto { tcp, udp } th dport "@ + text::decimal(ep.port as nat),
        }
    }

    /// Writes the filter in the packet filter's language.
    fn render(self, out: &mut String)
        ensures
            final(out)@ == old(out)@ + self.shown(),
    {
        if let Filter::Resolver(ep) = self {
            out.append(" ip daddr ");
            ep.ip.push_to(out);
            out.append(" meta l4proto { tcp, udp } th dport ");
            text::push_decimal(out, ep.port as u64);
        }
        assert(out@ =~= old(out)@ + self.shown());
    }
}

/// What a rule that matches does.
#[derive(Clone, Copy, Debug, PartialEq, Eq, Structural)]
pub enum Action {
    Accept,
    Reject,
}

impl Action {
    /// The action in the packet filter's language.
    pub open spec fn shown(self) -> Seq<char> {
        match self {
            Action::Accept => "accept"@,
            Action::Reject => REFUSAL@,
        }
    }

    /// The action in the packet filter's language.
    fn spelling(self) -> (r: &'static str)
        ensures
            r@ == self.shown(),
    {
        match self {
            Action::Accept => "accept",
            Action::Reject => REFUSAL,
        }
    }
}

/// One rule: a match on the first components of a socket's cgroup, a filter, and
/// an action.
#[derive(Debug, PartialEq, Eq)]
pub struct Rule {
    /// How many components are matched.
    pub level: usize,
    /// The path that they are matched with.
    pub cgroup: String,
    pub filter: Filter,
    pub action: Action,
    /// What the rule counts for.
    pub comment: &'static str,
}

/// One rule, mathematically.
#[verifier::ext_equal]
pub struct RuleView {
    pub level: nat,
    pub cgroup: Seq<char>,
    pub filter: Filter,
    pub action: Action,
    pub comment: Seq<char>,
}

impl View for Rule {
    type V = RuleView;

    open spec fn view(&self) -> RuleView {
        RuleView {
            level: self.level as nat,
            cgroup: self.cgroup@,
            filter: self.filter,
            action: self.action,
            comment: self.comment@,
        }
    }
}

impl RuleView {
    /// Whether a connection from a socket's cgroup matches the rule.
    pub open spec fn matches_from(self, path: Seq<char>, dst: Endpoint, proto: u8) -> bool {
        let parts = components(path);
        let front = if parts.len() > self.level {
            parts.take(self.level as int)
        } else {
            parts
        };
        front == components(self.cgroup) && self.filter.passes(dst, proto)
    }

    /// The rule in the packet filter's language.
    pub open spec fn shown(self) -> Seq<char> {
        "socket cgroupv2 level "@ + text::decimal(self.level) + " \""@ + self.cgroup + "\""@
            + self.filter.shown() + " counter "@ + self.action.shown() + " comment \""@
            + self.comment + "\""@
    }
}

impl Rule {
    /// Whether a connection from a socket's cgroup matches the rule.
    fn matches_from(&self, path: &[char], dst: Endpoint, proto: u8) -> (r: bool)
        ensures
            r == self@.matches_from(path@, dst, proto),
    {
        let parts: Vec<Vec<char>> = path_components(path);
        let own: Vec<char> = text::chars_of(self.cgroup.as_str());
        let wanted: Vec<Vec<char>> = path_components(own.as_slice());
        let count: usize = if parts.len() > self.level {
            self.level
        } else {
            parts.len()
        };
        let ghost front = if pieces_of(parts@).len() > self.level {
            pieces_of(parts@).take(self.level as int)
        } else {
            pieces_of(parts@)
        };
        let ghost full = pieces_of(wanted@);
        if count != wanted.len() {
            assert(front.len() != full.len());
            return false;
        }
        let mut i: usize = 0;
        assert(count == 0 ==> front =~= full);
        while i < count
            invariant
                i <= count,
                count == wanted@.len(),
                count <= parts@.len(),
                front.len() == count,
                full == pieces_of(wanted@),
                forall|j: int| 0 <= j < count ==> #[trigger] front[j] == parts@[j]@,
                forall|j: int| 0 <= j < i ==> #[trigger] front[j] == full[j],
                i == count ==> front == full,
            ensures
                (front == full) == (i == count),
            decreases count - i,
        {
            if !text::same_chars(parts[i].as_slice(), wanted[i].as_slice()) {
                assert(front[i as int] != full[i as int]);
                break;
            }
            i = i + 1;
            assert(i == count ==> front =~= full);
        }
        if i < count {
            return false;
        }
        match self.filter {
            Filter::Any => true,
            Filter::Resolver(ep) => dst.ip.bits == ep.ip.bits && dst.port == ep.port && (proto
                == IPPROTO_TCP || proto == IPPROTO_UDP),
        }
    }

    /// Writes the rule in the packet filter's language.
    fn render(&self, out: &mut String)
        ensures
            final(out)@ == old(out)@ + self@.shown(),
    {
        out.append("socket cgroupv2 level ");
        text::push_decimal(out, self.level as u64);
        out.append(" \"");
        out.append(self.cgroup.as_str());
        out.append("\"");
        self.filter.render(out);
        out.append(" counter ");
        out.append(self.action.spelling());
        out.append(" comment \"");
        out.append(self.comment);
        out.append("\"");
        assert(out@ =~= old(out)@ + self@.shown());
    }
}

/// One connection's classification and verdict.
#[derive(Debug, PartialEq, Eq)]
pub struct Decision {
    pub source: SourceIdentity,
    /// The box that the connection came from, where it is known.
    pub box_id: Option<String>,
    pub verdict: Verdict,
}

/// One connection's classification and verdict, mathematically.
pub struct DecisionView {
    pub source: SourceIdentity,
    pub box_id: Option<Seq<char>>,
    pub verdict: Verdict,
}

impl View for Decision {
    type V = DecisionView;

    open spec fn view(&self) -> DecisionView {
        DecisionView {
            source: self.source,
            box_id: match self.box_id {
                Some(id) => Some(id@),
                None => None,
            },
            verdict: self.verdict,
        }
    }
}

/// The first rule that a connection matches.
pub open spec fn first_match(rules: Seq<RuleView>, path: Seq<char>, dst: Endpoint, proto: u8) -> Option<
    RuleView,
>
    decreases rules.len(),
{
    if rules.len() == 0 {
        None
    } else if rules[0].matches_from(path, dst, proto) {
        Some(rules[0])
    } else {
        first_match(rules.drop_first(), path, dst, proto)
    }
}

/// The daemon's leaf in the tree at `root`.
pub open spec fn daemon_path(root: Seq<char>) -> Seq<char> {
    root + "/"@ + DAEMON_LEAF@
}

/// The directory of the boxes in the tree at `root`.
pub open spec fn cohort_path(root: Seq<char>) -> Seq<char> {
    root + "/"@ + COHORT_DIR@
}

/// The directory of a class of boxes in the tree at `root`.
pub open spec fn class_path(root: Seq<char>, deny_all: bool) -> Seq<char> {
    cohort_path(root) + "/"@ + (if deny_all {
        DENY_CLASS@
    } else {
        OPEN_CLASS@
    })
}

/// A box's leaf in the tree at `root`.
pub open spec fn box_path(root: Seq<char>, id: Seq<char>, deny_all: bool) -> Seq<char> {
    class_path(root, deny_all) + "/"@ + id
}

/// The rules of the tree at `root`, in the order they are matched: what is left
/// to the boxes that are denied everything and their refusal, then the boxes,
/// then the daemon.
pub open spec fn rule_list(root: Seq<char>, answerer: Endpoint) -> Seq<RuleView> {
    let level = components(root).len();
    seq![
        RuleView {
            level: level + 2,
            cgroup: class_path(root, true),
            filter: Filter::Resolver(answerer),
            action: Action::Accept,
            comment: "deny-all resolver"@,
        },
        RuleView {
            level: level + 2,
            cgroup: class_path(root, true),
            filter: Filter::Any,
            action: Action::Reject,
            comment: "deny-all refuse"@,
        },
        RuleView {
            level: level + 1,
            cgroup: cohort_path(root),
            filter: Filter::Any,
            action: Action::Accept,
            comment: SourceIdentity::Cohort.name(),
        },
        RuleView {
            level: level + 1,
            cgroup: daemon_path(root),
            filter: Filter::Any,
            action: Action::Accept,
            comment: SourceIdentity::NodePlane.name(),
        },
    ]
}

/// What the rules of the tree at `root` give a connection from a socket's cgroup.
pub open spec fn ruled(
    root: Seq<char>,
    path: Seq<char>,
    dst: Endpoint,
    proto: u8,
    answerer: Endpoint,
) -> Verdict {
    match first_match(rule_list(root, answerer), bare_path(path), dst, proto) {
        Some(rule) => match rule.action {
            Action::Accept => Verdict::Admit,
            Action::Reject => Verdict::Drop(DropRule::Undeclared),
        },
        None => Verdict::Admit,
    }
}

/// The user whose manager delegates the tree at `root`.
pub open spec fn tree_uid(root: Seq<char>) -> Option<int> {
    let pieces = text::split(root, '/');
    match manager_at(pieces) {
        Some(i) => manager_uid(pieces[i]),
        None => None,
    }
}

/// The chain that the rules of the tree at `root` are in.
pub open spec fn chain_name(root: Seq<char>) -> Seq<char> {
    match tree_uid(root) {
        Some(uid) => "host_cohort_"@ + text::decimal(uid as nat),
        None => "host_cohort"@,
    }
}

/// The rules from the `i`-th on, each as the packet filter loads it.
pub open spec fn rule_lines(chain: Seq<char>, rules: Seq<RuleView>) -> Seq<char>
    decreases rules.len(),
{
    if rules.len() == 0 {
        Seq::empty()
    } else {
        rule_lines(chain, rules.drop_last()) + "add rule inet minimal "@ + chain + " "@
            + rules.last().shown() + "\n"@
    }
}

/// The ruleset of the tree at `root`, as the packet filter loads it.
pub open spec fn ruleset_text(root: Seq<char>, answerer: Endpoint) -> Seq<char> {
    "# Minimal host-address classifier for "@ + root
        + "; rendered by minimald, loaded by root.\nadd table inet minimal\nadd chain inet minimal "@
        + chain_name(root)
        + " { type filter hook output priority filter; policy accept; }\nflush chain inet minimal "@
        + chain_name(root) + "\n"@ + rule_lines(chain_name(root), rule_list(root, answerer))
}

/// The root of the tree that a daemon in the cgroup file's cgroup can own: under
/// the subtree that its user's manager delegates.
pub open spec fn native_root(self_cgroup: Seq<char>) -> Option<Seq<char>> {
    match cgroup_in(self_cgroup) {
        None => None,
        Some(path) => {
            let pieces = text::split(path, '/');
            match manager_at(pieces) {
                Some(i) => Some(
                    text::trim_char(joined(pieces.take(i + 1)) + "/"@ + TREE_NAME@, '/'),
                ),
                None => None,
            }
        },
    }
}

/// The daemon's tree of cgroups, by its root.
#[derive(Debug, PartialEq, Eq)]
pub struct Layout {
    root: String,
}

impl Layout {
    /// The root's path.
    pub closed spec fn at(&self) -> Seq<char> {
        self.root@
    }

    /// The tree at `root`, with or without slashes around it.
    pub fn new(root: &str) -> (r: Self)
        ensures
            r.at() == text::trim_char(root@, '/'),
    {
        let chars: Vec<char> = text::chars_of(root);
        let (from, to): (usize, usize) = text::trim_char_bounds(chars.as_slice(), '/');
        let inner: Vec<char> = text::chars_in(chars.as_slice(), from, to);
        Layout { root: text::string_of(inner.as_slice()) }
    }

    /// A copy of the layout.
    pub fn copy(&self) -> (r: Self)
        ensures
            r.at() == self.at(),
    {
        Layout { root: self.root.clone() }
    }

    /// The tree of a daemon in a guest, at the top of the mount.
    pub fn guest() -> (r: Self)
        ensures
            r.at() == TREE_NAME@,
    {
        proof {
            reveal_strlit("minimald.slice");
            text::lemma_trim_whole(TREE_NAME@, text::is_char('/'));
        }
        Self::new(TREE_NAME)
    }

    /// The tree of a native daemon, by its own cgroup file; `None` where its
    /// user's manager did not place it.
    pub fn native(self_cgroup: &str) -> (r: Option<Self>)
        ensures
            match r {
                Some(layout) => native_root(self_cgroup@) == Some(layout.at()),
                None => native_root(self_cgroup@) is None,
            },
    {
        let path: Vec<char> = match cgroup_chars(self_cgroup) {
            Some(path) => path,
            None => {
                return None;
            },
        };
        let pieces: Vec<Vec<char>> = path_pieces(path.as_slice());
        let count: usize = pieces.len();
        match find_manager(&pieces) {
            Some((i, _)) => {
                assert(i < count);
                let mut root: String = join_first(&pieces, i + 1);
                root.append("/");
                root.append(TREE_NAME);
                Some(Self::new(root.as_str()))
            },
            None => None,
        }
    }

    /// The root's path.
    pub fn root(&self) -> (r: &str)
        ensures
            r@ == self.at(),
    {
        self.root.as_str()
    }

    /// The user whose manager delegates the tree; `None` for a guest's.
    pub fn uid(&self) -> (r: Option<u32>)
        ensures
            match r {
                Some(uid) => tree_uid(self.at()) == Some(uid as int),
                None => tree_uid(self.at()) is None,
            },
    {
        let chars: Vec<char> = text::chars_of(self.root.as_str());
        let pieces: Vec<Vec<char>> = path_pieces(chars.as_slice());
        match find_manager(&pieces) {
            Some((_, uid)) => Some(uid),
            None => None,
        }
    }

    /// The chain that the tree's rules are in, one for each user.
    pub fn chain(&self) -> (r: String)
        ensures
            r@ == chain_name(self.at()),
    {
        match self.uid() {
            Some(uid) => {
                let mut out: String = "host_cohort_".to_owned();
                text::push_decimal(&mut out, uid as u64);
                out
            },
            None => "host_cohort".to_owned(),
        }
    }

    /// How deep the root is.
    pub fn level(&self) -> (r: usize)
        ensures
            r == components(self.at()).len(),
            r < usize::MAX - 2,
    {
        let chars: Vec<char> = text::chars_of(self.root.as_str());
        let n: usize = chars.len();
        let parts: Vec<Vec<char>> = path_components(chars.as_slice());
        assert(2 * parts@.len() <= n + 1);
        parts.len()
    }

    /// A path below another.
    fn below(path: &str, leaf: &str) -> (r: String)
        ensures
            r@ == path@ + "/"@ + leaf@,
    {
        let mut out: String = path.to_owned();
        out.append("/");
        out.append(leaf);
        out
    }

    /// The daemon's own leaf.
    pub fn daemon_leaf(&self) -> (r: String)
        ensures
            r@ == daemon_path(self.at()),
    {
        Self::below(self.root.as_str(), DAEMON_LEAF)
    }

    /// The directory of the boxes.
    pub fn cohort(&self) -> (r: String)
        ensures
            r@ == cohort_path(self.at()),
    {
        Self::below(self.root.as_str(), COHORT_DIR)
    }

    /// The directory of a class of boxes.
    pub fn class_dir(&self, deny_all: bool) -> (r: String)
        ensures
            r@ == class_path(self.at(), deny_all),
    {
        let cohort: String = self.cohort();
        if deny_all {
            Self::below(cohort.as_str(), DENY_CLASS)
        } else {
            Self::below(cohort.as_str(), OPEN_CLASS)
        }
    }

    /// The leaf of the box `id`.
    pub fn box_leaf(&self, id: &str, deny_all: bool) -> (r: String)
        ensures
            r@ == box_path(self.at(), id@, deny_all),
    {
        let class: String = self.class_dir(deny_all);
        Self::below(class.as_str(), id)
    }

    /// Where a leaf is on the host's mount.
    pub fn sysfs(&self, leaf: &str) -> (r: String)
        ensures
            r@ == crate::path::joined(CGROUP2_MOUNT@, leaf@),
    {
        join(CGROUP2_MOUNT, leaf)
    }

    /// What a cgroup path is in this tree; `None` for a path outside of it.
    pub fn classify(&self, cgroup_path: &str) -> (r: Option<Classified>)
        ensures
            match r {
                Some(found) => classified(self.at(), cgroup_path@) == Some(found@),
                None => classified(self.at(), cgroup_path@) is None,
            },
    {
        let chars: Vec<char> = text::chars_of(cgroup_path);
        let path: Vec<char> = bare(chars.as_slice());
        let pieces: Vec<Vec<char>> = path_pieces(path.as_slice());
        let own: Vec<char> = text::chars_of(self.root.as_str());
        let above: Vec<Vec<char>> = path_pieces(own.as_slice());
        let ghost all = pieces_of(pieces@);
        let ghost root = pieces_of(above@);
        if pieces.len() < above.len() {
            return None;
        }
        let n: usize = above.len();
        let mut i: usize = 0;
        while i < n
            invariant
                i <= n,
                n == above@.len(),
                n <= pieces@.len(),
                all == pieces_of(pieces@),
                root == pieces_of(above@),
                root == text::split(self.at(), '/'),
                all == text::split(bare_path(cgroup_path@), '/'),
                forall|j: int| 0 <= j < i ==> #[trigger] all[j] == root[j],
            decreases n - i,
        {
            if !text::same_chars(pieces[i].as_slice(), above[i].as_slice()) {
                assert(all.take(n as int)[i as int] != root[i as int]);
                return None;
            }
            i = i + 1;
        }
        assert(all.take(n as int) =~= root);
        let ghost below = all.skip(n as int);
        let left: usize = pieces.len() - n;
        if left == 0 {
            return None;
        }
        assert(below[0] == pieces@[n as int]@);
        if is_word(&pieces[n], DAEMON_LEAF) {
            return Some(Classified::NodePlane);
        }
        if !is_word(&pieces[n], COHORT_DIR) {
            return None;
        }
        if left > 2 {
            assert(below[1] == pieces@[n + 1]@);
            assert(below[2] == pieces@[n + 2]@);
            let deny_all: bool = is_word(&pieces[n + 1], DENY_CLASS);
            let open: bool = is_word(&pieces[n + 1], OPEN_CLASS);
            if (deny_all || open) && pieces[n + 2].len() > 0 {
                return Some(
                    Classified::Box { id: text::string_of(pieces[n + 2].as_slice()), deny_all },
                );
            }
        }
        Some(Classified::Cohort)
    }

    /// The static ruleset, in the order that rules are matched.
    pub fn rules(&self, answerer: Endpoint) -> (r: Vec<Rule>)
        ensures
            rules_of(r@) == rule_list(self.at(), answerer),
    {
        let level: usize = self.level();
        let mut out: Vec<Rule> = Vec::new();
        out.push(
            Rule {
                level: level + 2,
                cgroup: self.class_dir(true),
                filter: Filter::Resolver(answerer),
                action: Action::Accept,
                comment: "deny-all resolver",
            },
        );
        out.push(
            Rule {
                level: level + 2,
                cgroup: self.class_dir(true),
                filter: Filter::Any,
                action: Action::Reject,
                comment: "deny-all refuse",
            },
        );
        out.push(
            Rule {
                level: level + 1,
                cgroup: self.cohort(),
                filter: Filter::Any,
                action: Action::Accept,
                comment: SourceIdentity::Cohort.as_str(),
            },
        );
        out.push(
            Rule {
                level: level + 1,
                cgroup: self.daemon_leaf(),
                filter: Filter::Any,
                action: Action::Accept,
                comment: SourceIdentity::NodePlane.as_str(),
            },
        );
        assert(rules_of(out@) =~= rule_list(self.at(), answerer));
        out
    }

    /// The ruleset as the packet filter loads it. Loading it again changes
    /// nothing, and it touches this tree's chain alone.
    pub fn ruleset(&self, answerer: Endpoint) -> (r: String)
        ensures
            r@ == ruleset_text(self.at(), answerer),
    {
        let chain: String = self.chain();
        let mut out: String = "# Minimal host-address classifier for ".to_owned();
        out.append(self.root.as_str());
        out.append(
            "; rendered by minimald, loaded by root.\nadd table inet minimal\nadd chain inet minimal ",
        );
        out.append(chain.as_str());
        out.append(
            " { type filter hook output priority filter; policy accept; }\nflush chain inet minimal ",
        );
        out.append(chain.as_str());
        out.append("\n");
        let rules: Vec<Rule> = self.rules(answerer);
        let ghost head = out@;
        let ghost all = rules_of(rules@);
        let mut i: usize = 0;
        assert(rule_lines(chain@, all.take(0)) =~= Seq::<char>::empty());
        assert(out@ =~= head + rule_lines(chain@, all.take(0)));
        while i < rules.len()
            invariant
                i <= rules.len(),
                all == rules_of(rules@),
                out@ == head + rule_lines(chain@, all.take(i as int)),
            decreases rules.len() - i,
        {
            let ghost before = out@;
            assert(all.take(i + 1).drop_last() =~= all.take(i as int));
            assert(all.take(i + 1).last() == rules@[i as int]@);
            out.append("add rule inet minimal ");
            out.append(chain.as_str());
            out.append(" ");
            rules[i].render(&mut out);
            out.append("\n");
            i = i + 1;
            assert(out@ =~= head + rule_lines(chain@, all.take(i as int)));
        }
        assert(all.take(all.len() as int) =~= all);
        assert(out@ =~= ruleset_text(self.at(), answerer));
        out
    }

    /// What the ruleset gives a connection from a socket's cgroup; `None` for a
    /// socket outside of the tree.
    pub fn verdict(&self, cgroup_path: &str, dst: Endpoint, proto: u8, answerer: Endpoint) -> (r: Option<
        Decision,
    >)
        ensures
            match (r, classified(self.at(), cgroup_path@)) {
                (Some(decision), Some(found)) => decision@ == (DecisionView {
                    source: found.source(),
                    box_id: found.box_id(),
                    verdict: ruled(self.at(), cgroup_path@, dst, proto, answerer),
                }),
                (None, None) => true,
                _ => false,
            },
    {
        let found: Classified = match self.classify(cgroup_path) {
            Some(found) => found,
            None => {
                return None;
            },
        };
        let source: SourceIdentity = found.source();
        let box_id: Option<String> = match found {
            Classified::Box { id, .. } => Some(id),
            Classified::NodePlane => None,
            Classified::Cohort => None,
        };
        let chars: Vec<char> = text::chars_of(cgroup_path);
        let path: Vec<char> = bare(chars.as_slice());
        let rules: Vec<Rule> = self.rules(answerer);
        let ghost all = rules_of(rules@);
        let mut verdict: Verdict = Verdict::Admit;
        let mut i: usize = 0;
        assert(all.skip(0) =~= all);
        while i < rules.len()
            invariant_except_break
                verdict == Verdict::Admit,
            invariant
                i <= rules.len(),
                all == rules_of(rules@),
                path@ == bare_path(cgroup_path@),
                all == rule_list(self.at(), answerer),
                first_match(all, path@, dst, proto) == first_match(
                    all.skip(i as int),
                    path@,
                    dst,
                    proto,
                ),
            ensures
                verdict == ruled(self.at(), cgroup_path@, dst, proto, answerer),
            decreases rules.len() - i,
        {
            assert(all.skip(i as int)[0] == rules@[i as int]@);
            assert(all.skip(i as int).drop_first() =~= all.skip(i + 1));
            if rules[i].matches_from(path.as_slice(), dst, proto) {
                verdict = match rules[i].action {
                    Action::Accept => Verdict::Admit,
                    Action::Reject => Verdict::Drop(DropRule::Undeclared),
                };
                break;
            }
            i = i + 1;
        }
        Some(Decision { source, box_id, verdict })
    }
}

/// Rules, mathematically.
pub open spec fn rules_of(rules: Seq<Rule>) -> Seq<RuleView> {
    Seq::new(rules.len(), |i: int| rules[i]@)
}

/// Records one of the daemon's own package fetches: it is opened from the
/// daemon's leaf, so that no box's declaration reaches it.
pub fn record_node_plane_fetch(_what: &str) -> (r: SourceIdentity)
    ensures
        r == SourceIdentity::NodePlane,
{
    SourceIdentity::NodePlane
}

// ---------------------------------------------------------------------------
// Laws
// ---------------------------------------------------------------------------

/// Whether paths below a root read back as they are: the root begins with
/// neither a slash nor white space.
pub open spec fn plain_root(root: Seq<char>) -> bool {
    root.len() > 0 && root[0] != '/' && !text::white_space(root[0])
}

/// Whether a path ends with neither a slash nor white space.
pub open spec fn plain_end(path: Seq<char>) -> bool {
    path.len() > 0 && path.last() != '/' && !text::white_space(path.last())
}

/// Whether a name can be that of a leaf.
pub open spec fn plain_name(id: Seq<char>) -> bool {
    plain_end(id) && !id.contains('/')
}

/// Something below a path, or the path itself.
pub open spec fn at_or_below(path: Seq<char>, rest: Seq<char>) -> Seq<char> {
    if rest.len() == 0 {
        path
    } else {
        path + "/"@ + rest
    }
}

/// What is left of a path below another once it is bare is still below it: only
/// the far end goes.
proof fn lemma_bare_below(path: Seq<char>, rest: Seq<char>) -> (kept: Seq<char>)
    requires
        plain_root(path),
        plain_end(path),
    ensures
        bare_path(at_or_below(path, rest)) == at_or_below(path, kept),
{
    reveal_strlit("/");
    let all = at_or_below(path, rest);
    let n = path.len() as int;
    let white = |c: char| text::white_space(c);
    let slash = text::is_char('/');
    assert(all[0] == path[0]);
    assert(all[n - 1] == path.last());
    text::lemma_leading_is(all, white, 0);
    assert(all.skip(0) =~= all);
    text::lemma_trailing(all, white);
    let inner = text::trim_white(all);
    assert(inner =~= all.take(all.len() - text::trailing(all, white)));
    if inner.len() < n {
        assert(white(all[n - 1]));
    }
    assert(inner[0] == path[0]);
    assert(inner[n - 1] == path.last());
    text::lemma_leading_is(inner, slash, 0);
    assert(inner.skip(0) =~= inner);
    text::lemma_trailing(inner, slash);
    text::lemma_trimmed(inner, slash);
    let bare = bare_path(all);
    assert(bare =~= inner.take(inner.len() - text::trailing(inner, slash)));
    if bare.len() < n {
        assert(slash(inner[n - 1]));
    }
    assert(bare =~= all.take(bare.len() as int));
    if bare.len() == n {
        assert(bare =~= at_or_below(path, Seq::empty()));
        Seq::empty()
    } else {
        assert(all[n] == '/');
        if bare.len() == n + 1 {
            assert(slash(bare.last()));
        }
        let kept = bare.skip(n + 1);
        assert(bare =~= path + "/"@ + kept);
        kept
    }
}

/// A path below a root has the root's pieces, then its own.
proof fn lemma_below_root(root: Seq<char>, tail: Seq<char>)
    ensures
        text::starts_with(text::split(root + "/"@ + tail, '/'), text::split(root, '/')),
        text::split(root + "/"@ + tail, '/').skip(text::split(root, '/').len() as int)
            == text::split(tail, '/'),
        components(root + "/"@ + tail) == components(root) + components(tail),
{
    reveal_strlit("/");
    assert(root + "/"@ + tail =~= root + seq!['/'] + tail);
    text::lemma_split_join(root, '/', tail);
    let above = text::split(root, '/');
    let below = text::split(tail, '/');
    assert((above + below).take(above.len() as int) =~= above);
    assert((above + below).skip(above.len() as int) =~= below);
    text::lemma_non_empty_concat(above, below);
}

/// The pieces of a name, and of what is below it.
proof fn lemma_pieces_below(name: Seq<char>, rest: Seq<char>)
    requires
        !name.contains('/'),
    ensures
        text::split(at_or_below(name, rest), '/') == (if rest.len() == 0 {
            seq![name]
        } else {
            seq![name] + text::split(rest, '/')
        }),
{
    reveal_strlit("/");
    assert("/"@ =~= seq!['/']);
    text::lemma_split_whole(name, '/');
    if rest.len() > 0 {
        assert(at_or_below(name, rest) =~= name + seq!['/'] + rest);
        text::lemma_split_join(name, '/', rest);
    }
}

/// The components of a piece that is not empty, and of those behind it.
proof fn lemma_first_component(name: Seq<char>, rest: Seq<Seq<char>>)
    requires
        name.len() > 0,
    ensures
        text::non_empty(seq![name] + rest) == seq![name] + text::non_empty(rest),
        text::non_empty(seq![name]) == seq![name],
{
    let all = seq![name] + rest;
    assert(all.drop_first() =~= rest);
    let one = seq![name];
    assert(one.drop_first() =~= Seq::<Seq<char>>::empty());
    assert(text::non_empty(one.drop_first()) =~= Seq::<Seq<char>>::empty());
    assert(text::non_empty(one) =~= one);
}

/// The names in the tree hold no slash, and they are distinct.
proof fn lemma_tree_names()
    ensures
        plain_name(DAEMON_LEAF@),
        plain_name(COHORT_DIR@),
        plain_name(DENY_CLASS@),
        plain_name(OPEN_CLASS@),
        DAEMON_LEAF@ != COHORT_DIR@,
        DENY_CLASS@ != OPEN_CLASS@,
{
    reveal_strlit("daemon");
    reveal_strlit("boxes");
    reveal_strlit("deny");
    reveal_strlit("open");
    assert(DAEMON_LEAF@[0] == 'd' && COHORT_DIR@[0] == 'b');
    assert(DENY_CLASS@[0] == 'd' && OPEN_CLASS@[0] == 'o');
}

/// What a path in a box's leaf is made of.
proof fn lemma_box_path(root: Seq<char>, id: Seq<char>, deny_all: bool, rest: Seq<char>)
    requires
        plain_root(root),
        plain_name(id),
    ensures
        ({
            let path = at_or_below(box_path(root, id, deny_all), rest);
            let class = if deny_all {
                DENY_CLASS@
            } else {
                OPEN_CLASS@
            };
            let parts = components(bare_path(path));
            let level = components(root).len() as int;
            &&& classified(root, path) == Some(ClassifiedView::Box { id, deny_all })
            &&& parts.len() > level + 2
            &&& parts.take(level + 1) == components(root) + seq![COHORT_DIR@]
            &&& parts.take(level + 2) == components(root) + seq![COHORT_DIR@, class]
        }),
{
    reveal_strlit("/");
    lemma_tree_names();
    let own_path = box_path(root, id, deny_all);
    assert(own_path[0] == root[0]);
    assert(own_path.last() == id.last());
    let kept = lemma_bare_below(own_path, rest);
    let path = at_or_below(own_path, kept);
    let class = if deny_all {
        DENY_CLASS@
    } else {
        OPEN_CLASS@
    };
    let leaf = at_or_below(id, kept);
    let classed = at_or_below(class, leaf);
    let tail = at_or_below(COHORT_DIR@, classed);
    lemma_pieces_below(id, kept);
    lemma_pieces_below(class, leaf);
    lemma_pieces_below(COHORT_DIR@, classed);
    assert(path =~= root + "/"@ + tail);
    lemma_below_root(root, tail);
    let pieces = text::split(tail, '/');
    let own = text::split(leaf, '/');
    assert(pieces =~= seq![COHORT_DIR@] + (seq![class] + own));
    assert(pieces[0] == COHORT_DIR@ && pieces[1] == class && pieces[2] == own[0] && own[0] == id);
    lemma_first_component(COHORT_DIR@, seq![class] + own);
    lemma_first_component(class, own);
    let behind = if kept.len() == 0 {
        Seq::<Seq<char>>::empty()
    } else {
        text::split(kept, '/')
    };
    assert(own =~= seq![id] + behind);
    lemma_first_component(id, behind);
    let parts = components(path);
    let above = components(root);
    assert(parts =~= above + (seq![COHORT_DIR@] + (seq![class] + (seq![id] + text::non_empty(
        behind,
    )))));
    let level = above.len() as int;
    assert(parts.take(level + 1) =~= above + seq![COHORT_DIR@]);
    assert(parts.take(level + 2) =~= above + seq![COHORT_DIR@, class]);
}

/// The components of the directories that the rules name.
proof fn lemma_rule_components(root: Seq<char>)
    ensures
        components(class_path(root, true)) == components(root) + seq![COHORT_DIR@, DENY_CLASS@],
        components(cohort_path(root)) == components(root) + seq![COHORT_DIR@],
{
    lemma_tree_names();
    reveal_strlit("/");
    let tail = at_or_below(COHORT_DIR@, DENY_CLASS@);
    lemma_pieces_below(COHORT_DIR@, DENY_CLASS@);
    lemma_pieces_below(DENY_CLASS@, Seq::empty());
    assert(at_or_below(DENY_CLASS@, Seq::empty()) == DENY_CLASS@);
    assert(class_path(root, true) =~= root + "/"@ + tail);
    lemma_below_root(root, tail);
    lemma_first_component(COHORT_DIR@, seq![DENY_CLASS@]);
    lemma_first_component(DENY_CLASS@, Seq::empty());
    assert(components(class_path(root, true)) =~= components(root) + seq![
        COHORT_DIR@,
        DENY_CLASS@,
    ]);
    lemma_below_root(root, COHORT_DIR@);
    lemma_pieces_below(COHORT_DIR@, Seq::empty());
    assert(at_or_below(COHORT_DIR@, Seq::empty()) == COHORT_DIR@);
    lemma_first_component(COHORT_DIR@, Seq::empty());
    assert(components(cohort_path(root)) =~= components(root) + seq![COHORT_DIR@]);
}

/// A box's leaf, and everything below it, is classified as the box's own: the
/// one move that a confined box can make does not change what it is.
pub proof fn law_leaf_is_its_box(root: Seq<char>, id: Seq<char>, deny_all: bool, rest: Seq<char>)
    requires
        plain_root(root),
        plain_name(id),
    ensures
        classified(root, at_or_below(box_path(root, id, deny_all), rest)) == Some(
            ClassifiedView::Box { id, deny_all },
        ),
{
    lemma_box_path(root, id, deny_all, rest);
}

/// A box that is denied everything reaches the answerer over TCP or UDP, and
/// nothing else, from anywhere in its leaf; and what it does there is known to be
/// its own.
pub proof fn law_deny_all_reaches_only_the_answerer(
    root: Seq<char>,
    id: Seq<char>,
    rest: Seq<char>,
    dst: Endpoint,
    proto: u8,
    answerer: Endpoint,
)
    requires
        plain_root(root),
        plain_name(id),
    ensures
        classified(root, at_or_below(box_path(root, id, true), rest)) matches Some(found)
            && found.source() == SourceIdentity::Cohort && found.box_id() == Some(id),
        ruled(root, at_or_below(box_path(root, id, true), rest), dst, proto, answerer) == (if dst
            == answerer && (proto == IPPROTO_TCP || proto == IPPROTO_UDP) {
            Verdict::Admit
        } else {
            Verdict::Drop(DropRule::Undeclared)
        }),
{
    lemma_box_path(root, id, true, rest);
    lemma_rule_components(root);
    let rules = rule_list(root, answerer);
    reveal_with_fuel(first_match, 3);
    assert(rules.drop_first()[0] == rules[1]);
}

/// A box that is not denied everything is let through, whatever it connects to
/// from anywhere in its leaf; and what it does there is known to be its own.
pub proof fn law_open_box_is_admitted(
    root: Seq<char>,
    id: Seq<char>,
    rest: Seq<char>,
    dst: Endpoint,
    proto: u8,
    answerer: Endpoint,
)
    requires
        plain_root(root),
        plain_name(id),
    ensures
        classified(root, at_or_below(box_path(root, id, false), rest)) matches Some(found)
            && found.source() == SourceIdentity::Cohort && found.box_id() == Some(id),
        ruled(root, at_or_below(box_path(root, id, false), rest), dst, proto, answerer)
            == Verdict::Admit,
{
    lemma_box_path(root, id, false, rest);
    lemma_rule_components(root);
    lemma_tree_names();
    let path = bare_path(at_or_below(box_path(root, id, false), rest));
    let rules = rule_list(root, answerer);
    let level = components(root).len() as int;
    let front = components(path).take(level + 2);
    assert(front[level + 1] == OPEN_CLASS@);
    assert(components(class_path(root, true))[level + 1] == DENY_CLASS@);
    reveal_with_fuel(first_match, 5);
    assert(rules.drop_first()[0] == rules[1]);
    assert(rules.drop_first().drop_first()[0] == rules[2]);
}

/// The daemon's own connections, and those of its helpers, are let through as
/// node-plane traffic, whatever boxes are there.
pub proof fn law_daemon_is_never_refused(
    root: Seq<char>,
    rest: Seq<char>,
    dst: Endpoint,
    proto: u8,
    answerer: Endpoint,
)
    requires
        plain_root(root),
    ensures
        classified(root, at_or_below(daemon_path(root), rest)) == Some(ClassifiedView::NodePlane),
        ruled(root, at_or_below(daemon_path(root), rest), dst, proto, answerer) == Verdict::Admit,
{
    reveal_strlit("/");
    lemma_tree_names();
    lemma_rule_components(root);
    assert(daemon_path(root)[0] == root[0]);
    assert(daemon_path(root).last() == DAEMON_LEAF@.last());
    let kept = lemma_bare_below(daemon_path(root), rest);
    let path = at_or_below(daemon_path(root), kept);
    let tail = at_or_below(DAEMON_LEAF@, kept);
    lemma_pieces_below(DAEMON_LEAF@, kept);
    assert(path =~= root + "/"@ + tail);
    lemma_below_root(root, tail);
    let behind = if kept.len() == 0 {
        Seq::<Seq<char>>::empty()
    } else {
        text::split(kept, '/')
    };
    assert(text::split(tail, '/') =~= seq![DAEMON_LEAF@] + behind);
    lemma_first_component(DAEMON_LEAF@, behind);
    let above = components(root);
    let level = above.len() as int;
    let parts = components(path);
    assert(parts =~= above + (seq![DAEMON_LEAF@] + text::non_empty(behind)));
    assert(parts[level] == DAEMON_LEAF@);
    let rules = rule_list(root, answerer);
    let denied = components(class_path(root, true));
    assert(denied[level] == COHORT_DIR@);
    let front = if parts.len() > level + 2 {
        parts.take(level + 2)
    } else {
        parts
    };
    assert(front[level] == DAEMON_LEAF@);
    assert(front != denied);
    reveal_with_fuel(first_match, 5);
    assert(rules.drop_first()[0] == rules[1]);
    assert(rules.drop_first().drop_first()[0] == rules[2]);
    assert(rules.drop_first().drop_first().drop_first()[0] == rules[3]);
}

/// Every session's name makes a leaf's name, which is that of no other place in
/// the tree.
pub proof fn law_every_session_has_a_leaf_name(session: Seq<char>)
    ensures
        plain_name(leaf_name(session)),
{
    reveal_strlit("s_");
    let id = leaf_chars(session);
    let name = leaf_name(session);
    assert forall|i: int| 0 <= i < name.len() implies leaf_char(#[trigger] name[i]) by {
        if id.len() == 0 || id[0] == '.' {
            if i >= 2 {
                assert(name[i] == id[i - 2]);
            }
        }
    }
    assert(leaf_char(name.last()));
    if name.contains('/') {
        let i = choose|i: int| 0 <= i < name.len() && name[i] == '/';
        assert(leaf_char(name[i]));
    }
}

/// The root of a layout is one that paths below it read back from, unless it is
/// empty or begins with white space.
pub proof fn law_layouts_have_plain_roots(root: Seq<char>)
    requires
        text::trim_char(root, '/').len() > 0,
        !text::white_space(text::trim_char(root, '/')[0]),
    ensures
        plain_root(text::trim_char(root, '/')),
{
    text::lemma_trimmed(root, text::is_char('/'));
}

/// A declaration denies everything by its allowed subnets and names alone: where
/// it lists subnets and none is on the list, and no name is listed either. What
/// it denies, and over which protocols, makes no difference; one subnet or one
/// name lifts it, and so does a list that is not there.
pub proof fn law_nothing_allowed_denies_everything(p: &EgressPolicy, q: &EgressPolicy)
    ensures
        denies_all(None) == false,
        p.allow_subnets is None ==> !denies_all(Some(p)),
        p.allow_subnets matches Some(subnets) && subnets@.len() > 0 ==> !denies_all(Some(p)),
        p.allow_dns_hosts matches Some(names) && names@.len() > 0 ==> !denies_all(Some(p)),
        (p.allow_subnets matches Some(subnets) && subnets@.len() == 0) && (p.allow_dns_hosts is None
            || (p.allow_dns_hosts matches Some(names) && names@.len() == 0)) ==> denies_all(Some(p)),
        p.allow_subnets == q.allow_subnets && p.allow_dns_hosts == q.allow_dns_hosts ==> denies_all(
            Some(p),
        ) == denies_all(Some(q)),
{
}

/// A declaration holds a rule as soon as one of its four lists says something: a
/// list of allowed subnets or of protocols does so even when it is empty, a list
/// of names or of denied subnets when something is on it.
pub proof fn law_any_list_is_a_rule(p: &EgressPolicy)
    ensures
        !holds_rules(None),
        p.allow_subnets is Some ==> holds_rules(Some(p)),
        p.allow_protocols is Some ==> holds_rules(Some(p)),
        p.allow_dns_hosts matches Some(names) && names@.len() > 0 ==> holds_rules(Some(p)),
        p.deny_subnets matches Some(subnets) && subnets@.len() > 0 ==> holds_rules(Some(p)),
        p.allow_subnets is None && p.allow_protocols is None && (p.allow_dns_hosts matches Some(
            names,
        ) ==> names@.len() == 0) && (p.deny_subnets matches Some(subnets) ==> subnets@.len() == 0)
            ==> !holds_rules(Some(p)),
        denies_all(Some(p)) ==> holds_rules(Some(p)),
{
}

/// A path loses the white space around it, and then the slashes; what is between
/// them stays.
#[verifier::spinoff_prover]
pub proof fn law_bare_path_is_what_is_between_the_slashes(
    before: Seq<char>,
    front: Seq<char>,
    inner: Seq<char>,
    back: Seq<char>,
    after: Seq<char>,
)
    requires
        forall|i: int| 0 <= i < before.len() ==> text::white_space(#[trigger] before[i]),
        forall|i: int| 0 <= i < after.len() ==> text::white_space(#[trigger] after[i]),
        forall|i: int| 0 <= i < front.len() ==> #[trigger] front[i] == '/',
        forall|i: int| 0 <= i < back.len() ==> #[trigger] back[i] == '/',
        inner.len() > 0,
        inner[0] != '/',
        inner.last() != '/',
        front.len() == 0 ==> !text::white_space(inner[0]),
        back.len() == 0 ==> !text::white_space(inner.last()),
    ensures
        bare_path(before + (front + inner + back) + after) == inner,
{
    let white = |c: char| text::white_space(c);
    let middle = front + inner + back;
    assert(!text::white_space('/'));
    if front.len() > 0 {
        assert(middle[0] == front[0]);
    } else {
        assert(middle[0] == inner[0]);
    }
    if back.len() > 0 {
        assert(middle.last() == back[back.len() - 1]);
    } else {
        assert(middle.last() == inner.last());
    }
    assert forall|i: int| 0 <= i < before.len() implies white(#[trigger] before[i]) by {
    }
    assert forall|i: int| 0 <= i < after.len() implies white(#[trigger] after[i]) by {
    }
    text::law_trim_takes_the_ends_off(before, middle, after, white);
    assert(text::trim_white(before + middle + after) == middle);
    let slash = text::is_char('/');
    assert forall|i: int| 0 <= i < front.len() implies slash(#[trigger] front[i]) by {
    }
    assert forall|i: int| 0 <= i < back.len() implies slash(#[trigger] back[i]) by {
    }
    text::law_trim_takes_the_ends_off(front, inner, back, slash);
}

/// A process's cgroup is what stands behind `0::` on the first line that begins
/// so, wherever that line stands in the file; every other line is passed over.
#[verifier::spinoff_prover]
pub proof fn law_cgroup_is_on_the_unified_line(path: Seq<char>, line: Seq<char>, rest: Seq<char>)
    requires
        !path.contains('\n'),
        path.len() > 0 ==> path.last() != '\r',
        !line.contains('\n'),
        !(line.len() >= 3 && line[0] == '0' && line[1] == ':' && line[2] == ':'),
    ensures
        cgroup_in(seq!['0', ':', ':'] + path + seq!['\n'] + rest) == Some(bare_path(path)),
        cgroup_in(seq!['0', ':', ':'] + path) == Some(bare_path(path)),
        cgroup_in(line + seq!['\n'] + rest) == cgroup_in(rest),
        cgroup_in(line) is None,
{
    reveal_strlit("0::");
    let own = seq!['0', ':', ':'] + path;
    if own.contains('\n') {
        let i = choose|i: int| 0 <= i < own.len() && own[i] == '\n';
        assert(path[i - 3] == '\n');
    }
    text::law_lines_end_in_line_feeds(own, rest);
    if path.len() > 0 {
        assert(own.last() == path.last());
    } else {
        assert(own.last() == ':');
    }
    let kept = seq![own] + text::text_lines(rest);
    assert(kept[0] == own);
    assert(text::text_lines(own + seq!['\n'] + rest) == kept);
    assert(own.take("0::"@.len() as int) =~= "0::"@);
    assert(own.skip(3) =~= path);
    assert(unified(own) == Some(path));
    assert(seq![own][0] == own);
    text::law_lines_end_in_line_feeds(line, rest);
    let shown = if line.len() > 0 && line.last() == '\r' {
        line.take(line.len() - 1)
    } else {
        line
    };
    assert(unified(shown) is None) by {
        if text::starts_with(shown, "0::"@) {
            let front = shown.take(3);
            assert(front[0] == '0' && front[1] == ':' && front[2] == ':');
            assert(line[0] == '0' && line[1] == ':' && line[2] == ':');
        }
    }
    let passed = seq![shown] + text::text_lines(rest);
    assert(passed[0] == shown);
    assert(passed.drop_first() =~= text::text_lines(rest));
    if line.len() > 0 {
        assert(unified(line) is None) by {
            if text::starts_with(line, "0::"@) {
                let front = line.take(3);
                assert(front[0] == '0' && front[1] == ':' && front[2] == ':');
            }
        }
        let one = seq![line];
        assert(one[0] == line);
        assert(one.drop_first() =~= Seq::<Seq<char>>::empty());
        assert(first_unified(one.drop_first()) is None);
    }
}

/// Whether a dash between two spaces stands at `i`.
pub open spec fn lone_dash(s: Seq<char>, i: int) -> bool {
    0 <= i && i + 3 <= s.len() && s[i] == ' ' && s[i + 1] == '-' && s[i + 2] == ' '
}

/// The first lone dash is what a search finds.
proof fn lemma_lone_dash(s: Seq<char>, at: int)
    requires
        lone_dash(s, at),
        forall|i: int| i < at ==> !#[trigger] lone_dash(s, i),
    ensures
        text::find(s, " - "@) == Some(at),
{
    reveal_strlit(" - ");
    assert(s.subrange(at, at + 3) =~= " - "@);
    text::lemma_found_by(s, " - "@, 0, at);
    text::lemma_found(s, " - "@, 0);
    let first = text::find(s, " - "@)->0;
    let cut = s.subrange(first, first + 3);
    assert(cut[0] == ' ' && cut[1] == '-' && cut[2] == ' ');
    assert(lone_dash(s, first));
}

/// A line of a mount table is read behind its first lone dash: the file system
/// is the first word there and its options the third, parted by commas, whatever
/// white space is between them and whatever stands before the dash.
#[verifier::spinoff_prover]
pub proof fn law_mount_line_is_read_behind_the_dash(
    line: Seq<char>,
    at: int,
    gaps: Seq<Seq<char>>,
    fields: Seq<Seq<char>>,
)
    requires
        lone_dash(line, at),
        forall|i: int| i < at ==> !#[trigger] lone_dash(line, i),
        text::spaces(gaps, fields),
        line.skip(at + 3) == text::spaced(gaps, fields),
    ensures
        delegates_in(line) == (if fields.len() > 0 && fields[0] == "cgroup2"@ {
            Some(fields.len() > 2 && text::split(fields[2], ',').contains("nsdelegate"@))
        } else {
            None
        }),
{
    lemma_lone_dash(line, at);
    reveal_strlit(" - ");
    text::law_words_read_back(gaps, fields);
}

/// A line without a lone dash mounts nothing.
pub proof fn law_line_without_a_dash_mounts_nothing(line: Seq<char>)
    requires
        forall|i: int| !#[trigger] lone_dash(line, i),
    ensures
        delegates_in(line) is None,
{
    reveal_strlit(" - ");
    text::lemma_found(line, " - "@, 0);
    if text::find(line, " - "@) is Some {
        let at = text::find(line, " - "@)->0;
        let cut = line.subrange(at, at + 3);
        assert(cut[0] == ' ' && cut[1] == '-' && cut[2] == ' ');
        assert(lone_dash(line, at));
    }
}

/// The first line that mounts cgroup2 decides, however many lines are before it.
pub proof fn law_first_cgroup2_mount_decides(before: Seq<Seq<char>>, line: Seq<char>, after: Seq<Seq<char>>)
    requires
        forall|i: int| 0 <= i < before.len() ==> delegates_in(#[trigger] before[i]) is None,
    ensures
        delegates_in(line) is Some ==> first_delegates(before + seq![line] + after) == delegates_in(
            line,
        ),
        delegates_in(line) is None ==> first_delegates(before + seq![line] + after)
            == first_delegates(after),
    decreases before.len(),
{
    let all = before + seq![line] + after;
    if before.len() == 0 {
        assert(all[0] == line);
        assert(all.drop_first() =~= after);
    } else {
        assert(all[0] == before[0]);
        assert(all.drop_first() =~= before.drop_first() + seq![line] + after);
        assert forall|i: int| 0 <= i < before.drop_first().len() implies delegates_in(
            #[trigger] before.drop_first()[i],
        ) is None by {
            assert(delegates_in(before[i + 1]) is None);
        }
        law_first_cgroup2_mount_decides(before.drop_first(), line, after);
    }
}

/// A session's name is its leaf's name character for character: letters, figures,
/// dashes, underscores and dots stay, and every other character is an underscore.
/// One that is empty or begins with a dot gets `s_` in front.
pub proof fn law_leaf_is_named_after_the_session(session: Seq<char>, i: int)
    requires
        0 <= i < session.len(),
    ensures
        ({
            let front: int = if session[0] == '.' {
                2
            } else {
                0
            };
            let c = session[i] as int;
            let stays = 97 <= c <= 122 || 65 <= c <= 90 || 48 <= c <= 57 || c == 45 || c == 95 || c
                == 46;
            let name = leaf_name(session);
            &&& name.len() == front + session.len()
            &&& front == 2 ==> name[0] == 's' && name[1] == '_'
            &&& name[front + i] == (if stays {
                session[i]
            } else {
                '_'
            })
        }),
        leaf_name(Seq::empty()) == seq!['s', '_'],
{
    reveal_strlit("s_");
    let id = leaf_chars(session);
    assert(id[0] == '.' <==> session[0] == '.');
    assert(leaf_name(Seq::empty()) =~= seq!['s', '_']);
}

/// A component names the manager of the user whose number is between `user@` and
/// `.service`, and no other component does.
pub proof fn law_manager_is_named_by_its_user(component: Seq<char>, number: Seq<char>)
    ensures
        manager_uid("user@"@ + number + ".service"@) == text::numeral(number, 10, 0xffff_ffff),
        manager_uid(component) matches Some(uid) ==> {
            &&& component.len() >= 13
            &&& component == "user@"@ + component.subrange(5, component.len() - 8) + ".service"@
            &&& text::numeral(component.subrange(5, component.len() - 8), 10, 0xffff_ffff) == Some(uid)
        },
{
    reveal_strlit("user@");
    reveal_strlit(".service");
    let all = "user@"@ + number + ".service"@;
    assert(all.take(5) =~= "user@"@);
    let rest = all.skip(5);
    assert(rest =~= number + ".service"@);
    assert(rest.skip(rest.len() - 8) =~= ".service"@);
    assert(rest.take(rest.len() - 8) =~= number);
    if manager_uid(component) is Some {
        let rest = component.skip(5);
        let inner = component.subrange(5, component.len() - 8);
        assert(rest.take(rest.len() - 8) =~= inner);
        assert(component.take(5) =~= "user@"@);
        assert(rest.skip(rest.len() - 8) =~= ".service"@);
        assert(component =~= component.take(5) + rest.take(rest.len() - 8) + rest.skip(
            rest.len() - 8,
        ));
    }
}

/// Joining two runs of pieces puts a slash between them.
proof fn lemma_joined_concat(a: Seq<Seq<char>>, b: Seq<Seq<char>>)
    requires
        a.len() > 0,
        b.len() > 0,
    ensures
        joined(a + b) == joined(a) + "/"@ + joined(b),
    decreases b.len(),
{
    let all = a + b;
    assert(all.last() == b.last());
    assert(all.drop_last() =~= a + b.drop_last());
    if b.len() == 1 {
        assert(all.drop_last() =~= a);
        assert(joined(b) == b.last());
    } else {
        lemma_joined_concat(a, b.drop_last());
        assert(joined(all) =~= joined(a) + "/"@ + joined(b));
    }
}

/// The pieces of a path, joined again, are the path.
pub proof fn law_pieces_join_to_the_path(path: Seq<char>)
    ensures
        joined(text::split(path, '/')) == path,
    decreases path.len(),
{
    reveal_strlit("/");
    assert("/"@ =~= seq!['/']);
    text::lemma_scan(path, '/');
    let i = text::scan(path, '/');
    if i >= path.len() {
        assert(text::split(path, '/') =~= seq![path]);
    } else {
        let head = path.take(i);
        let rest = path.skip(i + 1);
        law_pieces_join_to_the_path(rest);
        assert(text::split(path, '/') == seq![head] + text::split(rest, '/'));
        assert(text::split(rest, '/').len() > 0);
        lemma_joined_concat(seq![head], text::split(rest, '/'));
        assert(joined(seq![head]) == head);
        assert(path =~= head + "/"@ + rest);
    }
}

/// Where the managers of two runs of pieces stand.
proof fn lemma_manager_concat(a: Seq<Seq<char>>, b: Seq<Seq<char>>)
    ensures
        manager_at(a + b) == (match manager_at(a) {
            Some(i) => Some(i),
            None => match manager_at(b) {
                Some(i) => Some(i + a.len()),
                None => None,
            },
        }),
    decreases a.len(),
{
    if a.len() == 0 {
        assert(a + b =~= b);
    } else {
        assert((a + b)[0] == a[0]);
        assert((a + b).drop_first() =~= a.drop_first() + b);
        lemma_manager_concat(a.drop_first(), b);
    }
}

/// Where a manager's component stands among the pieces of a path, and what the
/// pieces up to it join to.
#[verifier::spinoff_prover]
proof fn lemma_manager_in(front: Seq<char>, own: Seq<char>, back: Seq<char>)
    requires
        front.len() == 0 || front.last() == '/',
        back.len() == 0 || back[0] == '/',
        !own.contains('/'),
        manager_uid(own) is Some,
        manager_at(text::split(front, '/')) is None,
    ensures
        ({
            let pieces = text::split(front + own + back, '/');
            manager_at(pieces) matches Some(i) && 0 <= i < pieces.len() && pieces[i] == own
                && joined(pieces.take(i + 1)) == front + own
        }),
{
    reveal_strlit("/");
    assert("/"@ =~= seq!['/']);
    let path = front + own + back;
    let tail = own + back;
    text::lemma_split_whole(own, '/');
    let behind = if back.len() == 0 {
        Seq::<Seq<char>>::empty()
    } else {
        text::split(back.skip(1), '/')
    };
    if back.len() == 0 {
        assert(tail =~= own);
    } else {
        assert(tail =~= own + seq!['/'] + back.skip(1));
        text::lemma_split_join(own, '/', back.skip(1));
    }
    assert(text::split(tail, '/') =~= seq![own] + behind);
    let first = seq![own] + behind;
    assert(first[0] == own);
    if front.len() == 0 {
        assert(path =~= tail);
        let pieces = text::split(path, '/');
        assert(manager_at(pieces) == Some(0int));
        assert(pieces.take(1) =~= seq![own]);
        assert(front + own =~= own);
    } else {
        let above = front.take(front.len() - 1);
        assert(front =~= above + seq!['/'] + Seq::<char>::empty());
        text::lemma_split_join(above, '/', Seq::<char>::empty());
        lemma_manager_concat(text::split(above, '/'), text::split(Seq::<char>::empty(), '/'));
        assert(path =~= above + seq!['/'] + tail);
        text::lemma_split_join(above, '/', tail);
        let pieces = text::split(path, '/');
        let upper = text::split(above, '/');
        lemma_manager_concat(upper, first);
        let i = upper.len() as int;
        assert(manager_at(first) == Some(0int));
        assert(pieces =~= upper + first);
        assert(pieces[i] == own);
        assert(pieces.take(i + 1) =~= upper + seq![own]);
        assert(upper.len() > 0);
        lemma_joined_concat(upper, seq![own]);
        law_pieces_join_to_the_path(above);
        assert(joined(seq![own]) == own);
        assert(front + own =~= above + "/"@ + own);
    }
}

/// A native daemon's tree is right below the first component that names a user's
/// manager, wherever in its cgroup that stands and whatever is below it; the tree
/// and its chain are that user's.
#[verifier::spinoff_prover]
pub proof fn law_tree_is_below_the_users_manager(
    self_cgroup: Seq<char>,
    front: Seq<char>,
    own: Seq<char>,
    back: Seq<char>,
)
    requires
        front.len() == 0 || front.last() == '/',
        back.len() == 0 || back[0] == '/',
        !own.contains('/'),
        manager_uid(own) is Some,
        manager_at(text::split(front, '/')) is None,
        cgroup_in(self_cgroup) == Some(front + own + back),
    ensures
        native_root(self_cgroup) == Some(
            text::trim_char(front + own + "/minimald.slice"@, '/'),
        ),
        tree_uid(front + own + back) == manager_uid(own),
        chain_name(front + own + back) == "host_cohort_"@ + text::decimal(manager_uid(own)->0 as nat),
{
    lemma_manager_in(front, own, back);
    lemma_tree_below(front + own);
}

proof fn lemma_tree_below(path: Seq<char>)
    ensures
        path + "/"@ + TREE_NAME@ == path + "/minimald.slice"@,
{
    reveal_strlit("/");
    reveal_strlit("minimald.slice");
    reveal_strlit("/minimald.slice");
    assert(path + "/"@ + TREE_NAME@ =~= path + "/minimald.slice"@);
}

/// Where no component names a manager, there is no tree to own, and the chain is
/// that of a guest.
pub proof fn law_no_manager_no_tree(self_cgroup: Seq<char>, path: Seq<char>)
    requires
        forall|i: int|
            0 <= i < text::split(path, '/').len() ==> manager_uid(
                #[trigger] text::split(path, '/')[i],
            ) is None,
    ensures
        cgroup_in(self_cgroup) == Some(path) ==> native_root(self_cgroup) is None,
        cgroup_in(self_cgroup) is None ==> native_root(self_cgroup) is None,
        tree_uid(path) is None,
        chain_name(path) == "host_cohort"@,
{
    lemma_no_manager(text::split(path, '/'));
}

proof fn lemma_no_manager(pieces: Seq<Seq<char>>)
    requires
        forall|i: int| 0 <= i < pieces.len() ==> manager_uid(#[trigger] pieces[i]) is None,
    ensures
        manager_at(pieces) is None,
    decreases pieces.len(),
{
    if pieces.len() > 0 {
        assert forall|i: int| 0 <= i < pieces.drop_first().len() implies manager_uid(
            #[trigger] pieces.drop_first()[i],
        ) is None by {
            assert(manager_uid(pieces[i + 1]) is None);
        }
        lemma_no_manager(pieces.drop_first());
    }
}

/// Whether a path is at another or below it.
pub open spec fn within(path: Seq<char>, dir: Seq<char>) -> bool {
    path == dir || (path.len() > dir.len() && path.take(dir.len() as int) == dir && path[dir.len() as int]
        == '/')
}

/// A path whose pieces begin with those of another is within it.
proof fn lemma_within(path: Seq<char>, front: Seq<Seq<char>>)
    requires
        front.len() > 0,
        text::starts_with(text::split(path, '/'), front),
    ensures
        within(path, joined(front)),
{
    reveal_strlit("/");
    let pieces = text::split(path, '/');
    let n = front.len() as int;
    law_pieces_join_to_the_path(path);
    assert(pieces =~= front + pieces.skip(n));
    if pieces.len() == n {
        assert(pieces =~= front);
    } else {
        lemma_joined_concat(front, pieces.skip(n));
        assert(path.take(joined(front).len() as int) =~= joined(front));
    }
}

/// What is classified is in the tree, where its class says: the daemon's leaf, a
/// box's own leaf under the class of its declaration, or the boxes' directory. A
/// path that only begins with the same letters as the root is not in the tree.
#[verifier::spinoff_prover]
pub proof fn law_only_what_is_in_the_tree_is_classified(root: Seq<char>, path: Seq<char>)
    ensures
        classified(root, path) matches Some(class) ==> match class {
            ClassifiedView::NodePlane => within(bare_path(path), daemon_path(root)),
            ClassifiedView::Box { id, deny_all } => id.len() > 0 && within(
                bare_path(path),
                box_path(root, id, deny_all),
            ),
            ClassifiedView::Cohort => within(bare_path(path), cohort_path(root)),
        },
{
    reveal_strlit("/");
    if classified(root, path) is Some {
        let bare = bare_path(path);
        let pieces = text::split(bare, '/');
        let above = text::split(root, '/');
        let n = above.len() as int;
        assert(n > 0);
        law_pieces_join_to_the_path(root);
        let below = pieces.skip(n);
        let one = seq![below[0]];
        assert(pieces.take(n) =~= above);
        assert(pieces.take(n + 1) =~= above + one);
        lemma_within(bare, above + one);
        lemma_joined_concat(above, one);
        assert(joined(one) == below[0]);
        if classified(root, path)->0 is Box {
            let three = seq![below[0], below[1], below[2]];
            assert(pieces.take(n + 3) =~= above + three);
            lemma_within(bare, above + three);
            lemma_joined_concat(above, three);
            assert(three =~= seq![below[0], below[1]] + seq![below[2]]);
            lemma_joined_concat(seq![below[0], below[1]], seq![below[2]]);
            assert(seq![below[0], below[1]] =~= seq![below[0]] + seq![below[1]]);
            lemma_joined_concat(seq![below[0]], seq![below[1]]);
            assert(joined(seq![below[1]]) == below[1]);
            assert(joined(seq![below[2]]) == below[2]);
            let id = below[2];
            let deny_all = below[1] == DENY_CLASS@;
            assert(box_path(root, id, deny_all) =~= root + "/"@ + (below[0] + "/"@ + below[1] + "/"@
                + below[2]));
        }
    }
}

/// Everything in the boxes' directory is classified, and as a box of no leaf
/// where it is in none.
#[verifier::spinoff_prover]
pub proof fn law_boxes_directory_is_the_cohorts(root: Seq<char>, rest: Seq<char>)
    requires
        plain_root(root),
    ensures
        classified(root, at_or_below(cohort_path(root), rest)) matches Some(class) && class.source()
            == SourceIdentity::Cohort,
        classified(root, cohort_path(root)) == Some(ClassifiedView::Cohort),
        classified(root, class_path(root, true)) == Some(ClassifiedView::Cohort),
        classified(root, class_path(root, false)) == Some(ClassifiedView::Cohort),
{
    lemma_cohort_class(root, rest);
    lemma_cohort_class(root, Seq::empty());
    lemma_tree_names();
    reveal_strlit("/");
    assert forall|deny_all: bool| classified(root, #[trigger] class_path(root, deny_all)) == Some(
        ClassifiedView::Cohort,
    ) by {
        let class = if deny_all {
            DENY_CLASS@
        } else {
            OPEN_CLASS@
        };
        let path = class_path(root, deny_all);
        assert(path[0] == root[0] && path.last() == class.last());
        let white = |c: char| text::white_space(c);
        text::lemma_trim_whole(path, white);
        text::lemma_trim_whole(path, text::is_char('/'));
        assert(bare_path(path) == path);
        let tail = COHORT_DIR@ + "/"@ + class;
        assert(path =~= root + "/"@ + tail);
        lemma_below_root(root, tail);
        lemma_pieces_below(COHORT_DIR@, class);
        lemma_pieces_below(class, Seq::empty());
        assert(at_or_below(COHORT_DIR@, class) == tail);
        assert(at_or_below(class, Seq::empty()) == class);
        assert(text::split(tail, '/') =~= seq![COHORT_DIR@, class]);
    }
    assert(classified(root, class_path(root, true)) == Some(ClassifiedView::Cohort));
    assert(classified(root, class_path(root, false)) == Some(ClassifiedView::Cohort));
}

#[verifier::spinoff_prover]
proof fn lemma_cohort_class(root: Seq<char>, rest: Seq<char>)
    requires
        plain_root(root),
    ensures
        classified(root, at_or_below(cohort_path(root), rest)) matches Some(class) && class.source()
            == SourceIdentity::Cohort,
        classified(root, cohort_path(root)) == Some(ClassifiedView::Cohort),
{
    reveal_strlit("/");
    lemma_tree_names();
    let own = cohort_path(root);
    assert(own[0] == root[0] && own.last() == COHORT_DIR@.last());
    let kept = lemma_bare_below(own, rest);
    let tail = at_or_below(COHORT_DIR@, kept);
    assert(at_or_below(own, kept) =~= root + "/"@ + tail);
    lemma_below_root(root, tail);
    lemma_pieces_below(COHORT_DIR@, kept);
    assert(text::split(tail, '/')[0] == COHORT_DIR@);
    let white = |c: char| text::white_space(c);
    text::lemma_trim_whole(own, white);
    text::lemma_trim_whole(own, text::is_char('/'));
    assert(bare_path(own) == own);
    lemma_below_root(root, COHORT_DIR@);
    lemma_pieces_below(COHORT_DIR@, Seq::empty());
    assert(at_or_below(COHORT_DIR@, Seq::empty()) == COHORT_DIR@);
}

/// The rules refuse exactly what comes from below the class of the boxes that are
/// denied everything and does not go to the answerer over TCP or UDP. Everything
/// else on the host is let through, in the tree or out of it.
#[verifier::spinoff_prover]
pub proof fn law_only_deny_all_boxes_are_refused(
    root: Seq<char>,
    path: Seq<char>,
    dst: Endpoint,
    proto: u8,
    answerer: Endpoint,
)
    ensures
        ruled(root, path, dst, proto, answerer) == (if text::starts_with(
            components(bare_path(path)),
            components(root) + seq!["boxes"@, "deny"@],
        ) && !(dst == answerer && (proto == 6 || proto == 17)) {
            Verdict::Drop(DropRule::Undeclared)
        } else {
            Verdict::Admit
        }),
{
    lemma_rule_components(root);
    let rules = rule_list(root, answerer);
    let parts = components(bare_path(path));
    let denied = components(root) + seq!["boxes"@, "deny"@];
    let level = components(root).len();
    let front = if parts.len() > level + 2 {
        parts.take(level as int + 2)
    } else {
        parts
    };
    assert(denied.len() == level + 2);
    if text::starts_with(parts, denied) {
        assert(front =~= denied);
    } else if front == denied {
        assert(parts.take(level as int + 2) =~= denied);
    }
    reveal_with_fuel(first_match, 5);
    assert(rules.drop_first()[0] == rules[1]);
    assert(rules.drop_first().drop_first()[0] == rules[2]);
    assert(rules.drop_first().drop_first().drop_first()[0] == rules[3]);
}

/// The rules are loaded one line each and in their order, each into the chain;
/// the ruleset ends in them.
#[verifier::spinoff_prover]
pub proof fn law_ruleset_ends_in_its_rules(
    root: Seq<char>,
    answerer: Endpoint,
    chain: Seq<char>,
    a: Seq<RuleView>,
    rule: RuleView,
)
    ensures
        rule_lines(chain, a.push(rule)) == rule_lines(chain, a) + ("add rule inet minimal "@ + chain
            + " "@ + rule.shown() + "\n"@),
        rule_lines(chain, Seq::empty()) == Seq::<char>::empty(),
        text::ends_with(
            ruleset_text(root, answerer),
            rule_lines(chain_name(root), rule_list(root, answerer)),
        ),
{
    let all = a.push(rule);
    assert(all.drop_last() =~= a);
    assert(all.last() == rule);
    let before = rule_lines(chain, a);
    assert(rule_lines(chain, all) =~= before + ("add rule inet minimal "@ + chain + " "@
        + rule.shown() + "\n"@));
    let lines = rule_lines(chain_name(root), rule_list(root, answerer));
    let whole = ruleset_text(root, answerer);
    assert(whole.skip(whole.len() - lines.len()) =~= lines);
}

/// Two fields, each between two of three parts.
pub open spec fn filled_in(parts: Seq<Seq<char>>, a: Seq<char>, b: Seq<char>) -> Seq<char> {
    parts[0] + a + parts[1] + b + parts[2]
}

/// Whether a filter is shown as `parts` around the address and the port of its
/// endpoint, for every endpoint.
pub open spec fn tells_endpoints(parts: Seq<Seq<char>>) -> bool {
    forall|ep: Endpoint| #[trigger]
        Filter::Resolver(ep).shown() == filled_in(
            parts,
            ep.ip.dotted(),
            text::decimal(ep.port as nat),
        )
}

/// A filter for the answerer names the address and the port of any endpoint, in
/// the same words.
pub proof fn law_filter_names_its_endpoint()
    ensures
        Filter::Any.shown() == Seq::<char>::empty(),
        exists|parts: Seq<Seq<char>>| #[trigger] tells_endpoints(parts),
{
    let parts = seq![
        " ip daddr "@,
        " meta l4proto { tcp, udp } th dport "@,
        Seq::<char>::empty(),
    ];
    assert forall|ep: Endpoint| #[trigger] Filter::Resolver(ep).shown() == filled_in(
        parts,
        ep.ip.dotted(),
        text::decimal(ep.port as nat),
    ) by {
        assert(Filter::Resolver(ep).shown() =~= filled_in(
            parts,
            ep.ip.dotted(),
            text::decimal(ep.port as nat),
        ));
    }
    assert(tells_endpoints(parts));
}

/// The components of a path are those before each slash and behind it; a name
/// without one is its own, and where nothing is between two slashes, there is
/// none.
pub proof fn law_components_are_what_slashes_part(a: Seq<char>, b: Seq<char>, name: Seq<char>)
    requires
        !name.contains('/'),
    ensures
        components(a + seq!['/'] + b) == components(a) + components(b),
        name.len() > 0 ==> components(name) == seq![name],
        components(Seq::empty()) == Seq::<Seq<char>>::empty(),
{
    reveal_strlit("/");
    assert("/"@ =~= seq!['/']);
    lemma_below_root(a, b);
    text::lemma_split_whole(name, '/');
    if name.len() > 0 {
        lemma_first_component(name, Seq::empty());
    }
    let nothing = Seq::<char>::empty();
    text::lemma_split_whole(nothing, '/');
    let one = seq![nothing];
    assert(one[0] == nothing);
    assert(one.drop_first() =~= Seq::<Seq<char>>::empty());
    assert(text::non_empty(one.drop_first()) =~= Seq::<Seq<char>>::empty());
}

} // verus!
