//! Whether a native host decides per box for its host-address boxes, what a
//! session is told of it, and where a box is placed.

use vstd::prelude::*;

use crate::host_cohort::{
    answerer, cgroup2_nsdelegate, cgroup_of, has_rules, is_deny_all, leaf_id, Layout,
};
use crate::path::join;
use crate::session::EgressPolicy;
use crate::text;

verus! {

/// Where the install step keeps what root loads.
pub const INSTALL_DIR: &'static str = "/etc/minimal/host-classifier";

/// Where root's reloader keeps a copy of what it loaded.
pub const LOADED_STAMP_DIR: &'static str = "/run/minimal/host-classifier";

/// The directory under the daemon's state that the install step reads.
pub const STATE_SUBDIR: &'static str = "net/host-classifier";

/// The installer's file name.
pub const INSTALLER_NAME: &'static str = "install-host-classifier.sh";

/// The rendered ruleset's file name.
pub const RULES_NAME: &'static str = "rules.nft";

/// The reload request's file name.
pub const REQUEST_NAME: &'static str = "request";

/// The session attribute that records whether the host decides per box.
pub const ENFORCEMENT_ATTR: &'static str = "host_ip_enforcement";

/// The same record in the box's environment.
pub const ENFORCEMENT_ENV: &'static str = "MINIMAL_HOST_IP_ENFORCEMENT";

/// The advisory in the box's environment.
pub const ADVISORY_ENV: &'static str = "MINIMAL_HOST_IP_ADVISORY";

/// How long a session start waits for the ruleset to be loaded, in milliseconds.
pub const LOAD_WAIT_MS: u64 = 3_000;

// ---------------------------------------------------------------------------
// What the host offers
// ---------------------------------------------------------------------------

/// What the install step has left on the host.
#[derive(Clone, Copy, Debug, PartialEq, Eq, Structural)]
pub enum InstallState {
    /// No ruleset is installed for the daemon's user.
    Missing,
    /// The installed ruleset is not the current one.
    Stale,
    /// The installed ruleset is the current one.
    Current,
}

/// What a native host offers.
#[derive(Debug, PartialEq, Eq)]
pub struct HostProbe {
    pub install: InstallState,
    /// The command that runs the install step.
    pub install_command: String,
    /// The tree that the daemon can own, if there is one.
    pub delegated_root: Option<Layout>,
    /// The `nsdelegate` mount option; `None` with no cgroup2 mount.
    pub nsdelegate: Option<bool>,
    /// The daemon is in its own leaf.
    pub daemon_in_leaf: bool,
    /// The current ruleset was loaded since the daemon last asked.
    pub ruleset_loaded: bool,
}

/// Why a host cannot decide per box.
#[derive(Clone, Copy, Debug, PartialEq, Eq, Structural)]
#[non_exhaustive]
pub enum Cause {
    InstallStepMissing,
    InstallStepStale,
    NoDelegatedSubtree,
    CgroupNotDelegated,
    DaemonNotInItsLeaf,
    RulesetNotLoaded,
}

impl Cause {
    /// The cause as the advisory names it.
    pub open spec fn text(self) -> Seq<char> {
        match self {
            Cause::InstallStepMissing => "the classifier's privileged install step has not run"@,
            Cause::InstallStepStale => "the classifier's privileged install step ran for another ruleset than this daemon's"@,
            Cause::NoDelegatedSubtree => "the daemon is not under a cgroup subtree its user manager delegates (start it under the user manager, e.g. systemd-run --user --scope)"@,
            Cause::CgroupNotDelegated => "cgroup2 is not mounted with nsdelegate"@,
            Cause::DaemonNotInItsLeaf => "the daemon could not enter its own classifier leaf"@,
            Cause::RulesetNotLoaded => "the classifier ruleset has not been loaded for this daemon's tree (check the minimal-host-classifier-<uid>.path unit)"@,
        }
    }

    /// Whether running the install step clears the cause.
    pub open spec fn installable(self) -> bool {
        self == Cause::InstallStepMissing || self == Cause::InstallStepStale
    }

    /// The cause as the advisory names it.
    pub fn describe(self) -> (r: &'static str)
        ensures
            r@ == self.text(),
    {
        match self {
            Cause::InstallStepMissing => "the classifier's privileged install step has not run",
            Cause::InstallStepStale => "the classifier's privileged install step ran for another ruleset than this daemon's",
            Cause::NoDelegatedSubtree => "the daemon is not under a cgroup subtree its user manager delegates (start it under the user manager, e.g. systemd-run --user --scope)",
            Cause::CgroupNotDelegated => "cgroup2 is not mounted with nsdelegate",
            Cause::DaemonNotInItsLeaf => "the daemon could not enter its own classifier leaf",
            Cause::RulesetNotLoaded => "the classifier ruleset has not been loaded for this daemon's tree (check the minimal-host-classifier-<uid>.path unit)",
        }
    }

    /// Whether running the install step clears the cause.
    fn cleared_by_install(self) -> (r: bool)
        ensures
            r == self.installable(),
    {
        match self {
            Cause::InstallStepMissing => true,
            Cause::InstallStepStale => true,
            _ => false,
        }
    }
}

/// The command that runs the install step from `dir`.
pub fn install_command(dir: &str) -> (r: String)
    ensures
        r@ == "sudo bash "@ + crate::path::joined(dir@, INSTALLER_NAME@),
{
    let mut out: String = "sudo bash ".to_owned();
    out.append(join(dir, INSTALLER_NAME).as_str());
    out
}

/// A cause that holds or not, as a list.
pub open spec fn cause_if(holds: bool, cause: Cause) -> Seq<Cause> {
    if holds {
        seq![cause]
    } else {
        Seq::empty()
    }
}

/// Every cause for which a host cannot decide per box.
pub open spec fn causes_of(probe: HostProbe) -> Seq<Cause> {
    cause_if(probe.install == InstallState::Missing, Cause::InstallStepMissing) + cause_if(
        probe.install == InstallState::Stale,
        Cause::InstallStepStale,
    ) + cause_if(probe.delegated_root is None, Cause::NoDelegatedSubtree) + cause_if(
        probe.nsdelegate != Some(true),
        Cause::CgroupNotDelegated,
    ) + cause_if(!probe.daemon_in_leaf, Cause::DaemonNotInItsLeaf) + cause_if(
        probe.install == InstallState::Current && !probe.ruleset_loaded,
        Cause::RulesetNotLoaded,
    )
}

/// Causes with a semicolon between each two.
pub open spec fn named_causes(causes: Seq<Cause>) -> Seq<char>
    decreases causes.len(),
{
    if causes.len() == 0 {
        Seq::empty()
    } else if causes.len() == 1 {
        causes[0].text()
    } else {
        named_causes(causes.drop_last()) + "; "@ + causes.last().text()
    }
}

/// Whether the install step clears one of the causes.
pub open spec fn any_installable(causes: Seq<Cause>) -> bool {
    exists|i: int| 0 <= i < causes.len() && (#[trigger] causes[i]).installable()
}

/// What a session is told where the host does not decide per box.
pub open spec fn advisory_text(causes: Seq<Cause>, install_command: Seq<char>) -> Seq<char> {
    let told = "host-address boxes have no per-box egress enforcement on this host: "@
        + named_causes(causes) + "."@;
    if any_installable(causes) {
        told + " Install the classifier (one-time, needs root): "@ + install_command
    } else {
        told
    }
}

// ---------------------------------------------------------------------------
// The decision
// ---------------------------------------------------------------------------

/// Whether a host decides per box for its host-address boxes.
#[derive(Debug, PartialEq, Eq)]
#[non_exhaustive]
pub enum PerBoxEnforcement {
    /// Every box gets its own verdict on this tree.
    Enforced(Layout),
    /// No box does, for these causes.
    Unenforced { causes: Vec<Cause>, install_command: String },
}

/// Variables of an environment, mathematically.
pub open spec fn env_of(env: Seq<(String, String)>) -> Seq<(Seq<char>, Seq<char>)> {
    Seq::new(env.len(), |i: int| (env[i].0@, env[i].1@))
}

/// The record, and the advisory where there is one.
pub open spec fn env_with(record: Seq<char>, advisory: Option<Seq<char>>) -> Seq<
    (Seq<char>, Seq<char>),
> {
    match advisory {
        Some(told) => seq![(ENFORCEMENT_ENV@, record), (ADVISORY_ENV@, told)],
        None => seq![(ENFORCEMENT_ENV@, record)],
    }
}

fn env_pairs(record: &str, advisory: Option<String>) -> (r: Vec<(String, String)>)
    ensures
        env_of(r@) == env_with(
            record@,
            match advisory {
                Some(told) => Some(told@),
                None => None,
            },
        ),
{
    let mut env: Vec<(String, String)> = Vec::new();
    env.push((ENFORCEMENT_ENV.to_owned(), record.to_owned()));
    match advisory {
        Some(told) => {
            let ghost text = told@;
            env.push((ADVISORY_ENV.to_owned(), told));
            assert(env_of(env@) =~= env_with(record@, Some(text)));
        },
        None => {
            assert(env_of(env@) =~= env_with(record@, None));
        },
    }
    env
}

impl PerBoxEnforcement {
    /// Whether a box's verdict is its own.
    pub open spec fn enforces(self) -> bool {
        self is Enforced
    }

    /// What a session records.
    pub open spec fn recorded(self) -> Seq<char> {
        if self.enforces() {
            "per-box"@
        } else {
            "none"@
        }
    }

    /// What a session is told.
    pub open spec fn told(self) -> Option<Seq<char>> {
        match self {
            PerBoxEnforcement::Enforced(_) => None,
            PerBoxEnforcement::Unenforced { causes, install_command } => Some(
                advisory_text(causes@, install_command@),
            ),
        }
    }

    /// Whether this is the decision for a host.
    pub open spec fn decides(self, probe: HostProbe) -> bool {
        match self {
            PerBoxEnforcement::Enforced(layout) => causes_of(probe).len() == 0
                && probe.delegated_root is Some && layout.at() == probe.delegated_root->0.at(),
            PerBoxEnforcement::Unenforced { causes, install_command } => causes_of(probe).len() > 0
                && causes@ == causes_of(probe) && install_command@ == probe.install_command@,
        }
    }

    /// Decides by what the host offers. Everything that is missing is a cause.
    pub fn decide(probe: &HostProbe) -> (r: Self)
        ensures
            r.decides(*probe),
    {
        let mut causes: Vec<Cause> = Vec::new();
        match probe.install {
            InstallState::Missing => causes.push(Cause::InstallStepMissing),
            InstallState::Stale => causes.push(Cause::InstallStepStale),
            InstallState::Current => {},
        }
        if probe.delegated_root.is_none() {
            causes.push(Cause::NoDelegatedSubtree);
        }
        let delegates: bool = match probe.nsdelegate {
            Some(yes) => yes,
            None => false,
        };
        if !delegates {
            causes.push(Cause::CgroupNotDelegated);
        }
        if !probe.daemon_in_leaf {
            causes.push(Cause::DaemonNotInItsLeaf);
        }
        let current: bool = match probe.install {
            InstallState::Current => true,
            _ => false,
        };
        if current && !probe.ruleset_loaded {
            causes.push(Cause::RulesetNotLoaded);
        }
        assert(causes@ =~= causes_of(*probe));
        if causes.len() == 0 {
            if let Some(layout) = &probe.delegated_root {
                return PerBoxEnforcement::Enforced(layout.copy());
            }
        }
        PerBoxEnforcement::Unenforced { causes, install_command: probe.install_command.clone() }
    }

    /// Whether a box's verdict is its own.
    pub fn per_box(&self) -> (r: bool)
        ensures
            r == self.enforces(),
    {
        match self {
            PerBoxEnforcement::Enforced(_) => true,
            PerBoxEnforcement::Unenforced { .. } => false,
        }
    }

    /// What a session records.
    pub fn record(&self) -> (r: &'static str)
        ensures
            r@ == self.recorded(),
    {
        if self.per_box() {
            "per-box"
        } else {
            "none"
        }
    }

    /// What a session is told, or `None` when nothing needs saying. It names
    /// every cause, and the install command only where that clears one of them.
    pub fn advisory(&self) -> (r: Option<String>)
        ensures
            match (r, self.told()) {
                (Some(told), Some(text)) => told@ == text,
                (None, None) => true,
                _ => false,
            },
    {
        match self {
            PerBoxEnforcement::Enforced(_) => None,
            PerBoxEnforcement::Unenforced { causes, install_command } => {
                let mut out: String = "host-address boxes have no per-box egress enforcement on this host: ".to_owned();
                let ghost head = out@;
                let mut installable: bool = false;
                let mut i: usize = 0;
                assert(causes@.take(0) =~= Seq::<Cause>::empty());
                assert(out@ =~= head + named_causes(causes@.take(0)));
                while i < causes.len()
                    invariant
                        i <= causes.len(),
                        out@ == head + named_causes(causes@.take(i as int)),
                        installable == any_installable(causes@.take(i as int)),
                    decreases causes.len() - i,
                {
                    let ghost done = causes@.take(i as int);
                    let ghost next = causes@.take(i + 1);
                    assert(next.drop_last() =~= done);
                    assert(next.last() == causes@[i as int]);
                    if i > 0 {
                        out.append("; ");
                    }
                    let cause: Cause = causes[i];
                    out.append(cause.describe());
                    proof {
                        if any_installable(done) {
                            let k = choose|k: int|
                                0 <= k < done.len() && (#[trigger] done[k]).installable();
                            assert(next[k].installable());
                        }
                        if any_installable(next) {
                            let k = choose|k: int|
                                0 <= k < next.len() && (#[trigger] next[k]).installable();
                            if k < done.len() {
                                assert(done[k].installable());
                            }
                        }
                        assert(next[i as int] == cause);
                    }
                    if cause.cleared_by_install() {
                        installable = true;
                    }
                    i = i + 1;
                    assert(out@ =~= head + named_causes(causes@.take(i as int)));
                }
                assert(causes@.take(causes@.len() as int) =~= causes@);
                out.append(".");
                if installable {
                    out.append(" Install the classifier (one-time, needs root): ");
                    out.append(install_command.as_str());
                }
                Some(out)
            },
        }
    }

    /// What a box carries into its environment: the record, and the advisory
    /// where there is one.
    pub fn session_env(&self) -> (r: Vec<(String, String)>)
        ensures
            env_of(r@) == env_with(self.recorded(), self.told()),
    {
        env_pairs(self.record(), self.advisory())
    }
}

/// Where a host places a box.
#[derive(Debug, PartialEq, Eq)]
pub struct Placement {
    pub layout: Layout,
    /// The leaf's name.
    pub id: String,
    /// Whether the box is denied everything.
    pub deny_all: bool,
}

/// How many names are tried for a box's leaf.
pub const PLACE_ATTEMPTS: u32 = 99;

/// The name of a box's leaf at an attempt, the first being the box's own and
/// each later one with the attempt's number behind it.
pub open spec fn attempt_name(id: Seq<char>, attempt: nat) -> Seq<char> {
    if attempt <= 1 {
        id
    } else {
        id + "-"@ + text::decimal(attempt)
    }
}

impl Placement {
    /// The leaf's path.
    pub fn leaf(&self) -> (r: String)
        ensures
            r@ == crate::host_cohort::box_path(self.layout.at(), self.id@, self.deny_all),
    {
        self.layout.box_leaf(self.id.as_str(), self.deny_all)
    }

    /// The leaf to create at an attempt, where the leaves of the attempts before
    /// were there already; `None` once every name has been tried. Two sessions
    /// whose names make the same leaf name get a leaf each.
    pub fn candidate(&self, attempt: u32) -> (r: Option<Leaf>)
        ensures
            r is Some <==> attempt <= PLACE_ATTEMPTS,
            r matches Some(leaf) ==> {
                let kernel = crate::host_cohort::box_path(
                    self.layout.at(),
                    attempt_name(self.id@, attempt as nat),
                    self.deny_all,
                );
                &&& leaf.path() == kernel
                &&& leaf.mount() == crate::path::joined(crate::host_cohort::CGROUP2_MOUNT@, kernel)
            },
    {
        if attempt > PLACE_ATTEMPTS {
            return None;
        }
        let mut id: String = self.id.clone();
        if attempt > 1 {
            id.append("-");
            text::push_decimal(&mut id, attempt as u64);
        }
        let kernel: String = self.layout.box_leaf(id.as_str(), self.deny_all);
        Some(Leaf { sysfs: self.layout.sysfs(kernel.as_str()), kernel })
    }
}

/// What is decided for a host-address box when its session starts.
#[derive(Debug, PartialEq, Eq)]
pub struct SessionStart {
    /// The record and the advisory.
    pub env: Vec<(String, String)>,
    /// Where the box is placed, on a host that decides per box.
    pub placement: Option<Placement>,
}

/// What a session is told where its box has rules that are not decided per box.
pub open spec fn listed_advisory() -> Seq<char> {
    "this host decides deny-all per host-address box and nothing finer: the box's subnet or name list is not enforced here."@
}

/// Whether a box's rules go unenforced on a host that decides per box.
pub open spec fn listed_unenforced(
    enforcement: PerBoxEnforcement,
    policy: Option<&EgressPolicy>,
) -> bool {
    enforcement.enforces() && !crate::host_cohort::denies_all(policy)
        && crate::host_cohort::holds_rules(policy)
}

/// Decides for a host-address box when its session starts. A box on a host that
/// does not decide per box runs.
pub fn decide_session_start(session: &str, policy: Option<&EgressPolicy>, probe: &HostProbe) -> (r:
    SessionStart)
    ensures
        exists|enforcement: PerBoxEnforcement|
            {
                &&& #[trigger] enforcement.decides(*probe)
                &&& env_of(r.env@) == (if listed_unenforced(enforcement, policy) {
                    env_with("none"@, Some(listed_advisory()))
                } else {
                    env_with(enforcement.recorded(), enforcement.told())
                })
            },
        r.placement is Some <==> causes_of(*probe).len() == 0,
        r.placement matches Some(placement) ==> {
            &&& probe.delegated_root is Some
            &&& placement.layout.at() == probe.delegated_root->0.at()
            &&& placement.id@ == crate::host_cohort::leaf_name(session@)
            &&& placement.deny_all == crate::host_cohort::denies_all(policy)
        },
{
    let enforcement: PerBoxEnforcement = PerBoxEnforcement::decide(probe);
    let deny_all: bool = is_deny_all(policy);
    let placement: Option<Placement> = match &enforcement {
        PerBoxEnforcement::Enforced(layout) => Some(
            Placement { layout: layout.copy(), id: leaf_id(session), deny_all },
        ),
        PerBoxEnforcement::Unenforced { .. } => None,
    };
    let listed: bool = enforcement.per_box() && !deny_all && has_rules(policy);
    let env: Vec<(String, String)> = if listed {
        env_pairs(
            "none",
            Some(
                "this host decides deny-all per host-address box and nothing finer: the box's subnet or name list is not enforced here.".to_owned(),
            ),
        )
    } else {
        enforcement.session_env()
    };
    assert(enforcement.decides(*probe));
    SessionStart { env, placement }
}

/// Whether a session start goes on waiting: only the load of the ruleset is
/// missing, and there is time left.
pub fn awaits_load(probe: &HostProbe, now: u64, deadline: u64) -> (r: bool)
    ensures
        r == (causes_of(*probe) == seq![Cause::RulesetNotLoaded] && now < deadline),
{
    match PerBoxEnforcement::decide(probe) {
        PerBoxEnforcement::Unenforced { causes, .. } => {
            let only: bool = causes.len() == 1 && match causes[0] {
                Cause::RulesetNotLoaded => true,
                _ => false,
            };
            assert(only ==> causes@ =~= seq![Cause::RulesetNotLoaded]);
            only && now < deadline
        },
        PerBoxEnforcement::Enforced(_) => false,
    }
}

// ---------------------------------------------------------------------------
// The native host
// ---------------------------------------------------------------------------

/// The installed ruleset of a user.
pub fn installed_ruleset(uid: u32) -> (r: String)
    ensures
        r@ == crate::path::joined(INSTALL_DIR@, text::decimal(uid as nat) + ".nft"@),
{
    let mut name: String = text::decimal_string(uid as u64);
    name.append(".nft");
    join(INSTALL_DIR, name.as_str())
}

/// Root's copy of what it last loaded for a user.
pub fn loaded_stamp(uid: u32) -> (r: String)
    ensures
        r@ == crate::path::joined(LOADED_STAMP_DIR@, text::decimal(uid as nat) + ".loaded"@),
{
    let mut name: String = text::decimal_string(uid as u64);
    name.append(".loaded");
    join(LOADED_STAMP_DIR, name.as_str())
}

/// What was read of the host for a probe.
#[derive(Debug)]
pub struct HostReads {
    /// The installed ruleset, if there is one.
    pub installed: Option<String>,
    /// What root last loaded, if anything.
    pub loaded: Option<String>,
    /// When root last loaded, and when the daemon last asked for it.
    pub loaded_at: Option<u64>,
    pub asked_at: Option<u64>,
    /// The daemon's own cgroup file.
    pub self_cgroup: String,
    /// The mount table.
    pub mountinfo: String,
}

/// Whether root has loaded the ruleset since the daemon asked.
pub open spec fn was_loaded(reads: HostReads, rendered: Seq<char>) -> bool {
    (reads.loaded matches Some(loaded) && loaded@ == rendered) && match (
        reads.loaded_at,
        reads.asked_at,
    ) {
        (Some(loaded_at), Some(asked_at)) => loaded_at >= asked_at,
        _ => false,
    }
}

/// The native daemon's side: its tree, and the directory that the install step
/// reads.
#[derive(Debug)]
pub struct NativeHost {
    layout: Option<Layout>,
    dir: String,
}

impl NativeHost {
    /// The root of the tree, if the daemon can own one.
    pub closed spec fn tree(&self) -> Option<Seq<char>> {
        match self.layout {
            Some(layout) => Some(layout.at()),
            None => None,
        }
    }

    /// The directory that the install step reads.
    pub closed spec fn install_dir(&self) -> Seq<char> {
        self.dir@
    }

    /// The host of a daemon by its own cgroup file and its state directory.
    pub fn start(self_cgroup: &str, state_dir: &str) -> (r: Self)
        ensures
            r.tree() == crate::host_cohort::native_root(self_cgroup@),
            r.install_dir() == crate::path::joined(state_dir@, STATE_SUBDIR@),
    {
        NativeHost { layout: Layout::native(self_cgroup), dir: join(state_dir, STATE_SUBDIR) }
    }

    /// The directory that the install step reads.
    pub fn dir(&self) -> (r: &str)
        ensures
            r@ == self.install_dir(),
    {
        self.dir.as_str()
    }

    /// The tree, if the daemon can own one.
    pub fn layout(&self) -> (r: Option<&Layout>)
        ensures
            match r {
                Some(layout) => self.tree() == Some(layout.at()),
                None => self.tree() is None,
            },
    {
        match &self.layout {
            Some(layout) => Some(layout),
            None => None,
        }
    }

    /// The directories to create for the tree, in order: the daemon's leaf and
    /// the two classes of boxes.
    pub fn tree_dirs(&self) -> (r: Vec<String>)
        ensures
            crate::dns::texts(r@) == (match self.tree() {
                Some(root) => {
                    let mount = crate::host_cohort::CGROUP2_MOUNT@;
                    seq![
                        crate::path::joined(mount, crate::host_cohort::daemon_path(root)),
                        crate::path::joined(mount, crate::host_cohort::class_path(root, true)),
                        crate::path::joined(mount, crate::host_cohort::class_path(root, false)),
                    ]
                },
                None => Seq::empty(),
            }),
    {
        let mut out: Vec<String> = Vec::new();
        if let Some(layout) = &self.layout {
            out.push(layout.sysfs(layout.daemon_leaf().as_str()));
            out.push(layout.sysfs(layout.class_dir(true).as_str()));
            out.push(layout.sysfs(layout.class_dir(false).as_str()));
            assert(crate::dns::texts(out@) =~= seq![
                crate::path::joined(
                    crate::host_cohort::CGROUP2_MOUNT@,
                    crate::host_cohort::daemon_path(layout.at()),
                ),
                crate::path::joined(
                    crate::host_cohort::CGROUP2_MOUNT@,
                    crate::host_cohort::class_path(layout.at(), true),
                ),
                crate::path::joined(
                    crate::host_cohort::CGROUP2_MOUNT@,
                    crate::host_cohort::class_path(layout.at(), false),
                ),
            ]);
        } else {
            assert(crate::dns::texts(out@) =~= Seq::<Seq<char>>::empty());
        }
        out
    }

    /// The rendered ruleset, where the daemon can own a tree.
    pub fn ruleset(&self) -> (r: Option<String>)
        ensures
            match (r, self.tree()) {
                (Some(rules), Some(root)) => rules@ == crate::host_cohort::ruleset_text(
                    root,
                    crate::host_cohort::answerer_endpoint(),
                ),
                (None, None) => true,
                _ => false,
            },
    {
        match &self.layout {
            Some(layout) => Some(layout.ruleset(answerer())),
            None => None,
        }
    }

    /// The request for a load by process `pid` at `now`.
    pub fn request(pid: u32, now: u64) -> (r: String)
        ensures
            r@ == text::decimal(pid as nat) + " "@ + text::decimal(now as nat) + "\n"@,
    {
        let mut out: String = text::decimal_string(pid as u64);
        out.append(" ");
        text::push_decimal(&mut out, now);
        out.append("\n");
        out
    }

    /// What the host offers, by what was read of it.
    pub fn probe(&self, reads: &HostReads) -> (r: HostProbe)
        ensures
            r.install_command@ == "sudo bash "@ + crate::path::joined(
                self.install_dir(),
                INSTALLER_NAME@,
            ),
            r.nsdelegate == crate::host_cohort::first_delegates(
                text::text_lines(reads.mountinfo@),
            ),
            match self.tree() {
                None => {
                    &&& r.delegated_root is None
                    &&& r.install == InstallState::Missing
                    &&& !r.daemon_in_leaf
                    &&& !r.ruleset_loaded
                },
                Some(root) => {
                    let rendered = crate::host_cohort::ruleset_text(
                        root,
                        crate::host_cohort::answerer_endpoint(),
                    );
                    let owned = crate::host_cohort::tree_uid(root) is Some;
                    &&& r.delegated_root matches Some(layout) && layout.at() == root
                    &&& r.install == (match reads.installed {
                        Some(installed) => if !owned {
                            InstallState::Missing
                        } else if installed@ == rendered {
                            InstallState::Current
                        } else {
                            InstallState::Stale
                        },
                        None => InstallState::Missing,
                    })
                    &&& r.daemon_in_leaf == (crate::host_cohort::cgroup_in(reads.self_cgroup@)
                        == Some(crate::host_cohort::daemon_path(root)))
                    &&& r.ruleset_loaded == (owned && was_loaded(*reads, rendered))
                },
            },
            offers(self.tree(), *reads, r),
    {
        let install_command: String = install_command(self.dir.as_str());
        let nsdelegate: Option<bool> = cgroup2_nsdelegate(reads.mountinfo.as_str());
        let layout: &Layout = match &self.layout {
            Some(layout) => layout,
            None => {
                return HostProbe {
                    install: InstallState::Missing,
                    install_command,
                    delegated_root: None,
                    nsdelegate,
                    daemon_in_leaf: false,
                    ruleset_loaded: false,
                };
            },
        };
        let rendered: String = layout.ruleset(answerer());
        let owned: bool = layout.uid().is_some();
        let install: InstallState = match &reads.installed {
            Some(installed) => {
                if !owned {
                    InstallState::Missing
                } else if text::same(installed.as_str(), rendered.as_str()) {
                    InstallState::Current
                } else {
                    InstallState::Stale
                }
            },
            None => InstallState::Missing,
        };
        let daemon_in_leaf: bool = match cgroup_of(reads.self_cgroup.as_str()) {
            Some(cgroup) => text::same(cgroup.as_str(), layout.daemon_leaf().as_str()),
            None => false,
        };
        let loaded: bool = match &reads.loaded {
            Some(loaded) => text::same(loaded.as_str(), rendered.as_str()),
            None => false,
        };
        let since: bool = match (reads.loaded_at, reads.asked_at) {
            (Some(loaded_at), Some(asked_at)) => loaded_at >= asked_at,
            _ => false,
        };
        HostProbe {
            install,
            install_command,
            delegated_root: Some(layout.copy()),
            nsdelegate,
            daemon_in_leaf,
            ruleset_loaded: owned && loaded && since,
        }
    }
}

// ---------------------------------------------------------------------------
// A box's leaf
// ---------------------------------------------------------------------------

/// One box's leaf on the host's mount.
#[derive(Debug, PartialEq, Eq)]
pub struct Leaf {
    sysfs: String,
    kernel: String,
}

impl Leaf {
    /// Where the leaf is on the mount.
    pub closed spec fn mount(&self) -> Seq<char> {
        self.sysfs@
    }

    /// The leaf's path.
    pub closed spec fn path(&self) -> Seq<char> {
        self.kernel@
    }

    /// Where the leaf is on the mount.
    pub fn sysfs(&self) -> (r: &str)
        ensures
            r@ == self.mount(),
    {
        self.sysfs.as_str()
    }

    /// The file that a process enters the leaf by.
    pub fn procs_file(&self) -> (r: String)
        ensures
            r@ == crate::path::joined(self.mount(), "cgroup.procs"@),
    {
        join(self.sysfs.as_str(), "cgroup.procs")
    }

    /// The leaf's path.
    pub fn kernel_path(&self) -> (r: &str)
        ensures
            r@ == self.path(),
    {
        self.kernel.as_str()
    }

    /// Whether the box's process is in the leaf, by its cgroup file; the report
    /// where it is not.
    pub fn check_placed(&self, pid: u32, proc_cgroup: Option<&str>) -> (r: Result<(), String>)
        ensures
            ({
                let placed = match proc_cgroup {
                    Some(file) => crate::host_cohort::cgroup_in(file@),
                    None => None,
                };
                match r {
                    Ok(_) => placed == Some(self.path()),
                    Err(report) => placed != Some(self.path()) && report@ == "box process "@
                        + text::decimal(pid as nat) + " is in "@ + (match placed {
                        Some(path) => path,
                        None => Seq::empty(),
                    }) + " after placement, not "@ + self.path(),
                }
            }),
    {
        let placed: Option<String> = match proc_cgroup {
            Some(file) => cgroup_of(file),
            None => None,
        };
        let path: String = match placed {
            Some(path) => {
                if text::same(path.as_str(), self.kernel.as_str()) {
                    return Ok(());
                }
                path
            },
            None => String::new(),
        };
        let mut report: String = "box process ".to_owned();
        text::push_decimal(&mut report, pid as u64);
        report.append(" is in ");
        report.append(path.as_str());
        report.append(" after placement, not ");
        report.append(self.kernel.as_str());
        Err(report)
    }
}

/// How often the removal of a leaf is tried.
pub const REMOVAL_TRIES: u32 = 10;

/// How long to wait after a try that failed, in milliseconds: a process that
/// ended a moment ago can still count against its cgroup.
pub const REMOVAL_PAUSE_MS: u64 = 50;

/// What follows a try to remove a leaf.
#[derive(Clone, Copy, Debug, PartialEq, Eq, Structural)]
pub enum Removal {
    /// The leaf is gone.
    Done,
    /// The removal is tried again.
    Again,
    /// The leaf is left for the next daemon to remove.
    Left,
}

/// What follows a try to remove a leaf, by how many tries failed before it and
/// whether the leaf is gone now.
pub fn after_removal(failed: u32, gone: bool) -> (r: Removal)
    ensures
        r == (if gone {
            Removal::Done
        } else if failed + 1 < REMOVAL_TRIES {
            Removal::Again
        } else {
            Removal::Left
        }),
        r == removal_after(failed as nat, gone),
{
    if gone {
        Removal::Done
    } else if failed < REMOVAL_TRIES - 1 {
        Removal::Again
    } else {
        Removal::Left
    }
}

/// The process numbers among words.
pub open spec fn pids_of(words: Seq<Seq<char>>) -> Seq<u32>
    decreases words.len(),
{
    if words.len() == 0 {
        Seq::empty()
    } else {
        let before = pids_of(words.drop_last());
        match text::numeral(words.last(), 10, u32::MAX as int) {
            Some(n) => before.push(n as u32),
            None => before,
        }
    }
}

/// The processes that a listing of children names.
pub fn parse_pids(listing: &str) -> (r: Vec<u32>)
    ensures
        r@ == pids_of(text::words(listing@)),
{
    let chars: Vec<char> = text::chars_of(listing);
    let words: Vec<Vec<char>> = text::split_words(chars.as_slice());
    let ghost all = text::words(listing@);
    let mut out: Vec<u32> = Vec::new();
    let mut i: usize = 0;
    assert(all.take(0) =~= Seq::<Seq<char>>::empty());
    while i < words.len()
        invariant
            i <= words.len(),
            words@.len() == all.len(),
            forall|j: int| 0 <= j < words@.len() ==> (#[trigger] words@[j])@ == all[j],
            out@ == pids_of(all.take(i as int)),
        decreases words.len() - i,
    {
        assert(all.take(i + 1).drop_last() =~= all.take(i as int));
        assert(all.take(i + 1).last() == words@[i as int]@);
        if let Some(n) = text::parse_numeral(words[i].as_slice(), 10, u32::MAX as u64) {
            out.push(n as u32);
        }
        i = i + 1;
    }
    assert(all.take(all.len() as int) =~= all);
    out
}

/// The sweep that moves a box's processes into its leaf: the first process is
/// moved, then whatever it and the others have forked, until a whole pass finds
/// nothing new.
pub struct Sweep {
    seen: Vec<u32>,
    at: usize,
    pass: usize,
    moved: bool,
}

/// A sweep, mathematically.
#[verifier::ext_equal]
pub struct SweepView {
    /// The processes that are in the leaf.
    pub seen: Seq<u32>,
    /// How many of them were asked for their children in this pass.
    pub at: nat,
    /// How many there were when the pass began.
    pub pass: nat,
    /// Whether this pass found anything new.
    pub moved: bool,
}

impl View for Sweep {
    type V = SweepView;

    closed spec fn view(&self) -> SweepView {
        SweepView {
            seen: self.seen@,
            at: self.at as nat,
            pass: self.pass as nat,
            moved: self.moved,
        }
    }
}

/// The processes of a listing that are new, each once.
pub open spec fn new_pids(seen: Seq<u32>, children: Seq<u32>) -> Seq<u32>
    decreases children.len(),
{
    if children.len() == 0 {
        Seq::empty()
    } else {
        let before = new_pids(seen, children.drop_last());
        if seen.contains(children.last()) || before.contains(children.last()) {
            before
        } else {
            before.push(children.last())
        }
    }
}

impl Sweep {
    /// The pass is within the processes that are in the leaf.
    pub closed spec fn wf(&self) -> bool {
        self.at <= self.pass <= self.seen@.len() && (self.moved || self.pass == self.seen@.len())
    }

    /// The sweep once the process `pid` is moved.
    pub fn new(pid: u32) -> (r: Self)
        ensures
            r.wf(),
            r@ == (SweepView { seen: seq![pid], at: 0, pass: 1, moved: false }),
    {
        let mut seen: Vec<u32> = Vec::new();
        seen.push(pid);
        assert(seen@ =~= seq![pid]);
        Sweep { seen, at: 0, pass: 1, moved: false }
    }

    /// The process to ask for its children next; `None` once a whole pass has
    /// found nothing new.
    pub fn next_parent(&mut self) -> (r: Option<u32>)
        requires
            old(self).wf(),
        ensures
            final(self).wf(),
            ({
                let s = old(self)@;
                if s.at < s.pass {
                    r == Some(s.seen[s.at as int]) && final(self)@ == s
                } else if s.moved && s.seen.len() > 0 {
                    r == Some(s.seen[0]) && final(self)@ == (SweepView {
                        seen: s.seen,
                        at: 0,
                        pass: s.seen.len(),
                        moved: false,
                    })
                } else {
                    r is None && final(self)@ == s
                }
            }),
    {
        if self.at < self.pass {
            return Some(self.seen[self.at]);
        }
        if self.moved && self.seen.len() > 0 {
            self.at = 0;
            self.pass = self.seen.len();
            self.moved = false;
            return Some(self.seen[0]);
        }
        None
    }

    /// Whether a process is in the leaf.
    fn has(&self, pid: u32) -> (r: bool)
        ensures
            r == self@.seen.contains(pid),
    {
        let mut i: usize = 0;
        while i < self.seen.len()
            invariant
                i <= self.seen.len(),
                forall|j: int| 0 <= j < i ==> #[trigger] self.seen@[j] != pid,
            decreases self.seen.len() - i,
        {
            if self.seen[i] == pid {
                assert(self.seen@[i as int] == pid);
                return true;
            }
            i = i + 1;
        }
        false
    }

    /// Takes the children of the process that was asked: those that are new,
    /// which are to be moved in order.
    pub fn found(&mut self, children: &[u32]) -> (r: Vec<u32>)
        requires
            old(self).wf(),
            old(self)@.at < old(self)@.pass,
        ensures
            final(self).wf(),
            r@ == new_pids(old(self)@.seen, children@),
            final(self)@ == (SweepView {
                seen: old(self)@.seen + r@,
                at: old(self)@.at + 1,
                pass: old(self)@.pass,
                moved: old(self)@.moved || r@.len() > 0,
            }),
    {
        let ghost before = self@;
        let mut out: Vec<u32> = Vec::new();
        let mut i: usize = 0;
        assert(self@.seen =~= before.seen + out@);
        while i < children.len()
            invariant
                i <= children.len(),
                before == old(self)@,
                self.at == before.at,
                self.pass == before.pass,
                self.moved == before.moved,
                self@.seen == before.seen + out@,
                out@ == new_pids(before.seen, children@.take(i as int)),
            decreases children.len() - i,
        {
            assert(children@.take(i + 1).drop_last() =~= children@.take(i as int));
            let child: u32 = children[i];
            assert((before.seen + out@).contains(child) == (before.seen.contains(child)
                || out@.contains(child))) by {
                let both = before.seen + out@;
                if before.seen.contains(child) {
                    let k = choose|k: int| 0 <= k < before.seen.len() && before.seen[k] == child;
                    assert(both[k] == child);
                }
                if out@.contains(child) {
                    let k = choose|k: int| 0 <= k < out@.len() && out@[k] == child;
                    assert(both[before.seen.len() + k] == child);
                }
                if both.contains(child) {
                    let k = choose|k: int| 0 <= k < both.len() && both[k] == child;
                    if k < before.seen.len() {
                        assert(before.seen[k] == child);
                    } else {
                        assert(out@[k - before.seen.len()] == child);
                    }
                }
            }
            if !self.has(child) {
                self.seen.push(child);
                out.push(child);
                assert(self@.seen =~= before.seen + out@);
            }
            i = i + 1;
        }
        assert(children@.take(children@.len() as int) =~= children@);
        if out.len() > 0 {
            self.moved = true;
        }
        self.at = self.at + 1;
        assert(self@ =~= (SweepView {
            seen: before.seen + out@,
            at: before.at + 1,
            pass: before.pass,
            moved: before.moved || out@.len() > 0,
        }));
        out
    }
}

// ---------------------------------------------------------------------------
// Laws
// ---------------------------------------------------------------------------

/// A host decides per box only where nothing is missing: the ruleset is
/// installed, current and loaded, the daemon owns a delegated tree and is in its
/// own leaf there, and cgroup namespaces confine.
pub proof fn law_enforcement_needs_everything(enforcement: PerBoxEnforcement, probe: HostProbe)
    requires
        enforcement.decides(probe),
    ensures
        enforcement.enforces() <==> probe.install == InstallState::Current && probe.ruleset_loaded
            && probe.delegated_root is Some && probe.nsdelegate == Some(true)
            && probe.daemon_in_leaf,
{
    let causes = causes_of(probe);
    let a = cause_if(probe.install == InstallState::Missing, Cause::InstallStepMissing);
    let b = cause_if(probe.install == InstallState::Stale, Cause::InstallStepStale);
    let c = cause_if(probe.delegated_root is None, Cause::NoDelegatedSubtree);
    let d = cause_if(probe.nsdelegate != Some(true), Cause::CgroupNotDelegated);
    let e = cause_if(!probe.daemon_in_leaf, Cause::DaemonNotInItsLeaf);
    let f = cause_if(
        probe.install == InstallState::Current && !probe.ruleset_loaded,
        Cause::RulesetNotLoaded,
    );
    assert(causes.len() == a.len() + b.len() + c.len() + d.len() + e.len() + f.len());
}

/// The advisory names the install command exactly where the install step has not
/// run for the current ruleset.
pub proof fn law_command_is_named_where_it_helps(probe: HostProbe)
    ensures
        any_installable(causes_of(probe)) <==> probe.install != InstallState::Current,
{
    let causes = causes_of(probe);
    if probe.install != InstallState::Current {
        assert(causes[0].installable());
    } else {
        assert forall|i: int| 0 <= i < causes.len() implies !(#[trigger] causes[i]).installable() by {
        }
    }
}

/// A box is placed under the class of its declaration, in a leaf that is
/// classified as its own, so that its verdict is the one its declaration asks
/// for.
pub proof fn law_placement_is_classified(
    root: Seq<char>,
    session: Seq<char>,
    policy: Option<&EgressPolicy>,
)
    requires
        crate::host_cohort::plain_root(root),
    ensures
        crate::host_cohort::classified(
            root,
            crate::host_cohort::box_path(
                root,
                crate::host_cohort::leaf_name(session),
                crate::host_cohort::denies_all(policy),
            ),
        ) == Some(
            crate::host_cohort::ClassifiedView::Box {
                id: crate::host_cohort::leaf_name(session),
                deny_all: crate::host_cohort::denies_all(policy),
            },
        ),
{
    crate::host_cohort::law_every_session_has_a_leaf_name(session);
    crate::host_cohort::law_leaf_is_its_box(
        root,
        crate::host_cohort::leaf_name(session),
        crate::host_cohort::denies_all(policy),
        Seq::empty(),
    );
}

/// What a sweep finds is new, and what was found stays in the leaf.
pub proof fn law_sweep_moves_each_process_once(seen: Seq<u32>, children: Seq<u32>)
    requires
        seen.no_duplicates(),
    ensures
        (seen + new_pids(seen, children)).no_duplicates(),
        forall|c: u32| children.contains(c) ==> (seen + new_pids(seen, children)).contains(c),
    decreases children.len(),
{
    let found = new_pids(seen, children);
    if children.len() == 0 {
        assert(seen + found =~= seen);
    } else {
        let rest = children.drop_last();
        let before = new_pids(seen, rest);
        law_sweep_moves_each_process_once(seen, rest);
        let child = children.last();
        let all = seen + found;
        if seen.contains(child) || before.contains(child) {
            assert(found == before);
            if seen.contains(child) {
                let k = choose|k: int| 0 <= k < seen.len() && seen[k] == child;
                assert(all[k] == child);
            } else {
                let k = choose|k: int| 0 <= k < before.len() && before[k] == child;
                assert(all[seen.len() + k] == child);
            }
        } else {
            assert(all =~= (seen + before).push(child));
            assert(all[all.len() - 1] == child);
            assert forall|i: int, j: int| 0 <= i < j < all.len() implies all[i] != all[j] by {
                if j == all.len() - 1 {
                    if i < seen.len() {
                        assert(seen[i] == all[i]);
                    } else {
                        assert(before[i - seen.len()] == all[i]);
                    }
                } else {
                    assert((seen + before)[i] == all[i] && (seen + before)[j] == all[j]);
                }
            }
        }
        assert forall|c: u32| children.contains(c) implies all.contains(c) by {
            let k = choose|k: int| 0 <= k < children.len() && children[k] == c;
            if k < rest.len() {
                assert(rest[k] == c);
                assert(rest.contains(c));
                assert((seen + before).contains(c));
                let m = choose|m: int| 0 <= m < (seen + before).len() && (seen + before)[m] == c;
                assert(all[m] == c);
            } else {
                assert(c == child);
            }
        }
    }
}

/// Everything that a host lacks is a cause, each once, and nothing else is: an
/// install step that has not run or ran for another ruleset, a tree that the
/// daemon does not own, a mount that does not confine, a daemon out of its leaf,
/// and a current ruleset that is not loaded.
pub proof fn law_everything_missing_is_a_cause(probe: HostProbe, cause: Cause)
    ensures
        causes_of(probe).contains(cause) <==> match cause {
            Cause::InstallStepMissing => probe.install == InstallState::Missing,
            Cause::InstallStepStale => probe.install == InstallState::Stale,
            Cause::NoDelegatedSubtree => probe.delegated_root is None,
            Cause::CgroupNotDelegated => probe.nsdelegate != Some(true),
            Cause::DaemonNotInItsLeaf => !probe.daemon_in_leaf,
            Cause::RulesetNotLoaded => probe.install == InstallState::Current
                && !probe.ruleset_loaded,
        },
        causes_of(probe).no_duplicates(),
{
    let missing = cause_if(probe.install == InstallState::Missing, Cause::InstallStepMissing);
    let stale = cause_if(probe.install == InstallState::Stale, Cause::InstallStepStale);
    let tree = cause_if(probe.delegated_root is None, Cause::NoDelegatedSubtree);
    let mount = cause_if(probe.nsdelegate != Some(true), Cause::CgroupNotDelegated);
    let leaf = cause_if(!probe.daemon_in_leaf, Cause::DaemonNotInItsLeaf);
    let load = cause_if(
        probe.install == InstallState::Current && !probe.ruleset_loaded,
        Cause::RulesetNotLoaded,
    );
    lemma_either(missing, stale, cause);
    lemma_either(missing + stale, tree, cause);
    lemma_either(missing + stale + tree, mount, cause);
    lemma_either(missing + stale + tree + mount, leaf, cause);
    lemma_either(missing + stale + tree + mount + leaf, load, cause);
    lemma_cause_if(probe.install == InstallState::Missing, Cause::InstallStepMissing, cause);
    lemma_cause_if(probe.install == InstallState::Stale, Cause::InstallStepStale, cause);
    lemma_cause_if(probe.delegated_root is None, Cause::NoDelegatedSubtree, cause);
    lemma_cause_if(probe.nsdelegate != Some(true), Cause::CgroupNotDelegated, cause);
    lemma_cause_if(!probe.daemon_in_leaf, Cause::DaemonNotInItsLeaf, cause);
    lemma_cause_if(
        probe.install == InstallState::Current && !probe.ruleset_loaded,
        Cause::RulesetNotLoaded,
        cause,
    );
}

proof fn lemma_either(a: Seq<Cause>, b: Seq<Cause>, cause: Cause)
    ensures
        (a + b).contains(cause) <==> a.contains(cause) || b.contains(cause),
{
    if a.contains(cause) {
        let i = choose|i: int| 0 <= i < a.len() && a[i] == cause;
        assert((a + b)[i] == cause);
    }
    if b.contains(cause) {
        let i = choose|i: int| 0 <= i < b.len() && b[i] == cause;
        assert((a + b)[a.len() + i] == cause);
    }
}

proof fn lemma_cause_if(holds: bool, named: Cause, cause: Cause)
    ensures
        cause_if(holds, named).contains(cause) <==> holds && named == cause,
{
    if holds {
        assert(cause_if(holds, named)[0] == named);
    }
}

/// A session start waits for the load of the ruleset alone: for nothing else that
/// a host lacks, and not where it lacks something beside.
pub proof fn law_only_the_load_is_waited_for(probe: HostProbe)
    ensures
        causes_of(probe) == seq![Cause::RulesetNotLoaded] <==> probe.install
            == InstallState::Current && !probe.ruleset_loaded && probe.delegated_root is Some
            && probe.nsdelegate == Some(true) && probe.daemon_in_leaf,
{
    let all = causes_of(probe);
    let only = seq![Cause::RulesetNotLoaded];
    law_everything_missing_is_a_cause(probe, Cause::InstallStepMissing);
    law_everything_missing_is_a_cause(probe, Cause::InstallStepStale);
    law_everything_missing_is_a_cause(probe, Cause::NoDelegatedSubtree);
    law_everything_missing_is_a_cause(probe, Cause::CgroupNotDelegated);
    law_everything_missing_is_a_cause(probe, Cause::DaemonNotInItsLeaf);
    law_everything_missing_is_a_cause(probe, Cause::RulesetNotLoaded);
    assert(only[0] == Cause::RulesetNotLoaded);
    if probe.install == InstallState::Current && !probe.ruleset_loaded && probe.delegated_root is Some
        && probe.nsdelegate == Some(true) && probe.daemon_in_leaf {
        assert(all =~= only);
    }
    if all == only {
        assert(only.contains(Cause::RulesetNotLoaded));
        assert(!only.contains(Cause::NoDelegatedSubtree));
        assert(!only.contains(Cause::CgroupNotDelegated));
        assert(!only.contains(Cause::DaemonNotInItsLeaf));
    }
}

/// The causes of an advisory are named one behind the other, with a semicolon and
/// a space between each two.
pub proof fn law_causes_are_named_in_turn(a: Seq<Cause>, b: Seq<Cause>, cause: Cause)
    ensures
        a.len() > 0 && b.len() > 0 ==> named_causes(a + b) == named_causes(a) + seq![';', ' ']
            + named_causes(b),
        named_causes(seq![cause]) == cause.text(),
    decreases b.len(),
{
    reveal_strlit("; ");
    assert("; "@ =~= seq![';', ' ']);
    if a.len() > 0 && b.len() > 0 {
        let all = a + b;
        assert(all.last() == b.last());
        if b.len() == 1 {
            assert(all.drop_last() =~= a);
            assert(named_causes(b) == b.last().text());
        } else {
            assert(all.drop_last() =~= a + b.drop_last());
            law_causes_are_named_in_turn(a, b.drop_last(), cause);
            assert(named_causes(all) =~= named_causes(a) + seq![';', ' '] + named_causes(b));
        }
    }
}

/// An advisory ends in the install command where that clears one of its causes,
/// and does not speak of it otherwise; the causes are named in it either way.
pub proof fn law_advisory_ends_in_the_command_that_helps(
    causes: Seq<Cause>,
    command: Seq<char>,
    other: Seq<char>,
)
    ensures
        (exists|i: int|
            0 <= i < causes.len() && (#[trigger] causes[i] == Cause::InstallStepMissing || causes[i]
                == Cause::InstallStepStale)) ==> advisory_text(causes, command) == advisory_text(
            causes,
            Seq::empty(),
        ) + command,
        (forall|i: int|
            0 <= i < causes.len() ==> #[trigger] causes[i] != Cause::InstallStepMissing && causes[i]
                != Cause::InstallStepStale) ==> advisory_text(causes, command) == advisory_text(
            causes,
            other,
        ),
        exists|front: Seq<char>, back: Seq<char>|
            #![trigger front + named_causes(causes) + back]
            advisory_text(causes, command) == front + named_causes(causes) + back,
{
    let front = "host-address boxes have no per-box egress enforcement on this host: "@;
    let short = "."@;
    let long = "."@ + (" Install the classifier (one-time, needs root): "@ + command);
    if any_installable(causes) {
        assert(advisory_text(causes, command) =~= advisory_text(causes, Seq::empty()) + command);
        assert(advisory_text(causes, command) =~= front + named_causes(causes) + long);
    } else {
        assert(advisory_text(causes, command) =~= front + named_causes(causes) + short);
        if exists|i: int|
            0 <= i < causes.len() && (#[trigger] causes[i] == Cause::InstallStepMissing || causes[i]
                == Cause::InstallStepStale) {
            let i = choose|i: int|
                0 <= i < causes.len() && (#[trigger] causes[i] == Cause::InstallStepMissing
                    || causes[i] == Cause::InstallStepStale);
            assert(causes[i].installable());
        }
    }
}

/// A session on a host that decides per box records so and is told nothing; on
/// any other host it records that nothing is enforced and is told why.
pub proof fn law_session_records_what_is_enforced(enforcement: PerBoxEnforcement)
    ensures
        enforcement is Enforced ==> enforcement.recorded() == "per-box"@ && enforcement.told() is None,
        enforcement matches PerBoxEnforcement::Unenforced { causes, install_command }
            ==> enforcement.recorded() == "none"@ && enforcement.told() == Some(
            advisory_text(causes@, install_command@),
        ),
{
}

/// A box's lists go unenforced where the host decides per box and the box is not
/// denied everything, whichever of its four lists says something; a box with no
/// list loses nothing, and neither does one that is denied everything.
pub proof fn law_lists_are_not_enforced_per_box(enforcement: PerBoxEnforcement, p: &EgressPolicy)
    ensures
        !listed_unenforced(enforcement, None),
        enforcement !is Enforced ==> !listed_unenforced(enforcement, Some(p)),
        enforcement is Enforced && (p.allow_subnets matches Some(subnets) && subnets@.len() > 0)
            ==> listed_unenforced(enforcement, Some(p)),
        enforcement is Enforced && (p.allow_dns_hosts matches Some(names) && names@.len() > 0)
            ==> listed_unenforced(enforcement, Some(p)),
        enforcement is Enforced && p.allow_subnets is None && (p.allow_protocols is Some || (
        p.deny_subnets matches Some(subnets) && subnets@.len() > 0)) ==> listed_unenforced(
            enforcement,
            Some(p),
        ),
        (p.allow_subnets matches Some(subnets) && subnets@.len() == 0) && (p.allow_dns_hosts matches Some(
            names,
        ) ==> names@.len() == 0) ==> !listed_unenforced(enforcement, Some(p)),
        p.allow_subnets is None && p.allow_protocols is None && (p.allow_dns_hosts matches Some(
            names,
        ) ==> names@.len() == 0) && (p.deny_subnets matches Some(subnets) ==> subnets@.len() == 0)
            ==> !listed_unenforced(enforcement, Some(p)),
{
}

/// A ruleset counts as loaded once root has loaded that very text, no earlier
/// than the daemon last asked: a later request undoes an earlier load, and a load
/// of another text is none.
pub proof fn law_load_counts_from_the_request_on(reads: HostReads, rendered: Seq<char>)
    ensures
        was_loaded(reads, rendered) ==> reads.loaded is Some && reads.loaded->0@ == rendered
            && reads.loaded_at is Some && reads.asked_at is Some && reads.asked_at->0
            <= reads.loaded_at->0,
        reads.loaded is Some && reads.loaded->0@ == rendered && reads.loaded_at is Some
            && reads.asked_at is Some && reads.asked_at->0 <= reads.loaded_at->0 ==> was_loaded(
            reads,
            rendered,
        ),
{
}

/// Each attempt to place a box tries a name of its own, the box's first.
pub proof fn law_every_attempt_has_its_own_name(id: Seq<char>, a: nat, b: nat)
    requires
        1 <= a < b <= u32::MAX,
    ensures
        attempt_name(id, 1) == id,
        attempt_name(id, b) == id + seq!['-'] + text::decimal(b),
        attempt_name(id, a) != attempt_name(id, b),
{
    reveal_strlit("-");
    assert("-"@ =~= seq!['-']);
    let front = id + seq!['-'];
    let second = front + text::decimal(b);
    assert(second.skip(front.len() as int) =~= text::decimal(b));
    if a > 1 && attempt_name(id, a) == attempt_name(id, b) {
        let first = front + text::decimal(a);
        assert(first.skip(front.len() as int) =~= text::decimal(a));
        text::lemma_decimal_reads_back(a, u32::MAX as int);
        text::lemma_decimal_reads_back(b, u32::MAX as int);
    }
    if a == 1 {
        assert(second.len() > id.len());
    }
}

/// A listing names the processes of its words in their order: those that are a
/// number, and no others.
pub proof fn law_listing_names_its_numbers(a: Seq<Seq<char>>, b: Seq<Seq<char>>, word: Seq<char>)
    ensures
        pids_of(a + b) == pids_of(a) + pids_of(b),
        text::numeral(word, 10, 0xffff_ffff) matches Some(n) ==> pids_of(seq![word]) == seq![n as u32],
        text::numeral(word, 10, 0xffff_ffff) is None ==> pids_of(seq![word]) == Seq::<u32>::empty(),
    decreases b.len(),
{
    let one = seq![word];
    assert(one.drop_last() =~= Seq::<Seq<char>>::empty());
    assert(one.last() == word);
    assert(pids_of(one.drop_last()) =~= Seq::<u32>::empty());
    if text::numeral(word, 10, 0xffff_ffff) is Some {
        assert(pids_of(one) =~= seq![text::numeral(word, 10, 0xffff_ffff)->0 as u32]);
    }
    if b.len() == 0 {
        assert(a + b =~= a);
        assert(pids_of(a) + pids_of(b) =~= pids_of(a));
    } else {
        law_listing_names_its_numbers(a, b.drop_last(), word);
        assert((a + b).drop_last() =~= a + b.drop_last());
        assert((a + b).last() == b.last());
        assert(pids_of(a + b) =~= pids_of(a) + pids_of(b));
    }
}

/// What a sweep moves are children that were not in the leaf, and nothing else.
pub proof fn law_sweep_moves_only_new_children(seen: Seq<u32>, children: Seq<u32>, pid: u32)
    ensures
        new_pids(seen, children).contains(pid) <==> children.contains(pid) && !seen.contains(pid),
    decreases children.len(),
{
    let found = new_pids(seen, children);
    if children.len() > 0 {
        let rest = children.drop_last();
        let before = new_pids(seen, rest);
        let last = children.last();
        law_sweep_moves_only_new_children(seen, rest, pid);
        law_sweep_moves_only_new_children(seen, rest, last);
        if rest.contains(pid) {
            let k = choose|k: int| 0 <= k < rest.len() && rest[k] == pid;
            assert(children[k] == pid);
        }
        if children.contains(pid) && pid != last {
            let k = choose|k: int| 0 <= k < children.len() && children[k] == pid;
            assert(rest[k] == pid);
        }
        assert(children[children.len() - 1] == last);
        if !(seen.contains(last) || before.contains(last)) {
            assert(found[found.len() - 1] == last);
            if before.contains(pid) {
                let k = choose|k: int| 0 <= k < before.len() && before[k] == pid;
                assert(found[k] == pid);
            }
            if found.contains(pid) && pid != last {
                let k = choose|k: int| 0 <= k < found.len() && found[k] == pid;
                assert(before[k] == pid);
            }
        }
    }
}

/// A session's environment holds the record, and the advisory behind it where
/// there is one.
pub proof fn law_environment_holds_record_and_advisory(record: Seq<char>, told: Seq<char>)
    ensures
        env_with(record, None) == seq![("MINIMAL_HOST_IP_ENFORCEMENT"@, record)],
        env_with(record, Some(told)) == env_with(record, None).push(
            ("MINIMAL_HOST_IP_ADVISORY"@, told),
        ),
{
    assert(env_with(record, Some(told)) =~= env_with(record, None).push(
        ("MINIMAL_HOST_IP_ADVISORY"@, told),
    ));
}

/// What follows a try to remove a leaf, by how many tries failed before it.
pub open spec fn removal_after(failed: nat, gone: bool) -> Removal {
    if gone {
        Removal::Done
    } else if failed + 1 < REMOVAL_TRIES {
        Removal::Again
    } else {
        Removal::Left
    }
}

/// A leaf's removal is tried ten times: a leaf that is gone is done with at any
/// try, and one that is still there after the tenth is left.
pub proof fn law_removal_is_tried_ten_times(failed: nat)
    ensures
        removal_after(failed, true) == Removal::Done,
        failed < 9 ==> removal_after(failed, false) == Removal::Again,
        failed >= 9 ==> removal_after(failed, false) == Removal::Left,
{
}

/// Whether a probe says what a host offers to a daemon with a tree, by what was
/// read of the host.
pub open spec fn offers(tree: Option<Seq<char>>, reads: HostReads, probe: HostProbe) -> bool {
    match tree {
        None => {
            &&& probe.delegated_root is None
            &&& probe.install == InstallState::Missing
            &&& !probe.daemon_in_leaf
            &&& !probe.ruleset_loaded
        },
        Some(root) => {
            let rendered = crate::host_cohort::ruleset_text(
                root,
                crate::host_cohort::answerer_endpoint(),
            );
            let owned = crate::host_cohort::tree_uid(root) is Some;
            &&& probe.delegated_root matches Some(layout) && layout.at() == root
            &&& probe.install == (match reads.installed {
                Some(installed) => if !owned {
                    InstallState::Missing
                } else if installed@ == rendered {
                    InstallState::Current
                } else {
                    InstallState::Stale
                },
                None => InstallState::Missing,
            })
            &&& probe.daemon_in_leaf == (crate::host_cohort::cgroup_in(reads.self_cgroup@) == Some(
                crate::host_cohort::daemon_path(root),
            ))
            &&& probe.ruleset_loaded == (owned && was_loaded(reads, rendered))
        },
    }
}

/// What a host offers is what was read of it: a ruleset is current where the
/// installed text is the tree's own to the letter, and stale where it is any
/// other; it is loaded where root loaded that text since it was asked to; the
/// daemon is in its leaf where its cgroup is the leaf itself, and nothing below
/// or beside it. A tree that is no user's has nothing installed or loaded.
pub proof fn law_host_offers_what_was_read_of_it(
    root: Seq<char>,
    reads: HostReads,
    probe: HostProbe,
    text_of_tree: Seq<char>,
)
    requires
        offers(Some(root), reads, probe),
        text_of_tree == crate::host_cohort::ruleset_text(
            root,
            crate::addr::Endpoint { ip: crate::addr::Ipv4Addr { bits: 0x7f00_0001 }, port: 7656 },
        ),
    ensures
        probe.install == InstallState::Current <==> crate::host_cohort::tree_uid(root) is Some
            && reads.installed is Some && reads.installed->0@ == text_of_tree,
        probe.install == InstallState::Stale <==> crate::host_cohort::tree_uid(root) is Some
            && reads.installed is Some && reads.installed->0@ != text_of_tree,
        probe.ruleset_loaded <==> crate::host_cohort::tree_uid(root) is Some && was_loaded(
            reads,
            text_of_tree,
        ),
        probe.daemon_in_leaf <==> crate::host_cohort::cgroup_in(reads.self_cgroup@) == Some(
            root + "/daemon"@,
        ),
        probe.delegated_root is Some,
        forall|other: HostProbe| #[trigger]
            offers(None, reads, other) ==> other.install == InstallState::Missing
                && other.delegated_root is None && !other.daemon_in_leaf && !other.ruleset_loaded,
{
    reveal_strlit("/");
    reveal_strlit("daemon");
    reveal_strlit("/daemon");
    assert(crate::host_cohort::daemon_path(root) =~= root + "/daemon"@);
}

} // verus!
