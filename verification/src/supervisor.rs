//! Supervision of guest module lifecycles.
//!
//! The supervisor tracks children, decides what to do when one crashes —
//! stop, restart with exponential backoff, or escalate after too many
//! restarts inside an intensity window — and records each child's state.

use vstd::prelude::*;
use vstd::string::StringExecFns;

verus! {

/// Restart strategy for supervised modules.
#[derive(Debug, Clone, Copy, PartialEq, Eq, Structural)]
pub enum RestartStrategy {
    /// Always restart on crash.
    Permanent,
    /// Never restart on crash.
    Temporary,
    /// Restart only on abnormal termination.
    Transient,
}

/// Escalation level in the supervision hierarchy.
#[derive(Debug, Clone, Copy, PartialEq, Eq, Structural)]
pub enum EscalationLevel {
    /// Restart with preserved state.
    Level1RestartWithState,
    /// Restart with clean state.
    Level2RestartClean,
    /// Reload the module.
    Level3ReloadModule,
    /// Restart the supervisor.
    Level4RestartSupervisor,
    /// System restart required.
    Level5SystemRestart,
}

/// The position of a level on the escalation ladder, 1 through 5.
pub open spec fn level_number(l: EscalationLevel) -> u32 {
    match l {
        EscalationLevel::Level1RestartWithState => 1,
        EscalationLevel::Level2RestartClean => 2,
        EscalationLevel::Level3ReloadModule => 3,
        EscalationLevel::Level4RestartSupervisor => 4,
        EscalationLevel::Level5SystemRestart => 5,
    }
}

/// The level after one escalation.
pub open spec fn next_level(l: EscalationLevel) -> EscalationLevel {
    match l {
        EscalationLevel::Level1RestartWithState => EscalationLevel::Level2RestartClean,
        EscalationLevel::Level2RestartClean => EscalationLevel::Level3ReloadModule,
        EscalationLevel::Level3ReloadModule => EscalationLevel::Level4RestartSupervisor,
        EscalationLevel::Level4RestartSupervisor => EscalationLevel::Level5SystemRestart,
        EscalationLevel::Level5SystemRestart => EscalationLevel::Level5SystemRestart,
    }
}

impl EscalationLevel {
    /// Get the next escalation level; the last level stays put.
    pub fn next(&self) -> (r: Self)
        ensures
            r == next_level(*self),
    {
        match self {
            EscalationLevel::Level1RestartWithState => EscalationLevel::Level2RestartClean,
            EscalationLevel::Level2RestartClean => EscalationLevel::Level3ReloadModule,
            EscalationLevel::Level3ReloadModule => EscalationLevel::Level4RestartSupervisor,
            EscalationLevel::Level4RestartSupervisor => EscalationLevel::Level5SystemRestart,
            EscalationLevel::Level5SystemRestart => EscalationLevel::Level5SystemRestart,
        }
    }

    /// The position of the level on the escalation ladder, 1 through 5.
    pub fn number(&self) -> (r: u32)
        ensures
            r == level_number(*self),
    {
        match self {
            EscalationLevel::Level1RestartWithState => 1,
            EscalationLevel::Level2RestartClean => 2,
            EscalationLevel::Level3ReloadModule => 3,
            EscalationLevel::Level4RestartSupervisor => 4,
            EscalationLevel::Level5SystemRestart => 5,
        }
    }
}

// ---------------------------------------------------------------------------
// Child specifications and state
// ---------------------------------------------------------------------------

/// Configuration for a supervised child module.
#[derive(Debug)]
pub struct ChildSpec {
    /// Unique identifier for this child.
    pub id: String,
    /// Module manifest path.
    pub manifest_path: String,
    /// Restart strategy.
    pub restart: RestartStrategy,
    /// Maximum restart attempts within the intensity window.
    pub max_restarts: u32,
    /// Time window for counting restarts, in seconds.
    pub restart_intensity_window: u32,
    /// Base delay between restarts, in milliseconds.
    pub base_restart_delay_ms: u64,
    /// Maximum delay after backoff, in milliseconds.
    pub max_restart_delay_ms: u64,
    /// Integer backoff multiplier applied per restart attempt.
    pub backoff_factor: u64,
}

/// The mathematical shape of a child specification.
pub struct ChildSpecV {
    pub id: Seq<char>,
    pub manifest_path: Seq<char>,
    pub restart: RestartStrategy,
    pub max_restarts: u32,
    pub restart_intensity_window: u32,
    pub base_restart_delay_ms: u64,
    pub max_restart_delay_ms: u64,
    pub backoff_factor: u64,
}

impl View for ChildSpec {
    type V = ChildSpecV;

    open spec fn view(&self) -> ChildSpecV {
        ChildSpecV {
            id: self.id@,
            manifest_path: self.manifest_path@,
            restart: self.restart,
            max_restarts: self.max_restarts,
            restart_intensity_window: self.restart_intensity_window,
            base_restart_delay_ms: self.base_restart_delay_ms,
            max_restart_delay_ms: self.max_restart_delay_ms,
            backoff_factor: self.backoff_factor,
        }
    }
}

impl Default for ChildSpec {
    /// Permanent strategy, five restarts per minute window, one second base
    /// delay doubling up to thirty seconds.
    fn default() -> (r: Self)
        ensures
            r@.id.len() == 0,
            r@.manifest_path.len() == 0,
            r@.restart == RestartStrategy::Permanent,
            r@.max_restarts == 5,
            r@.restart_intensity_window == 60,
            r@.base_restart_delay_ms == 1000,
            r@.max_restart_delay_ms == 30000,
            r@.backoff_factor == 2,
    {
        ChildSpec {
            id: String::new(),
            manifest_path: String::new(),
            restart: RestartStrategy::Permanent,
            max_restarts: 5,
            restart_intensity_window: 60,
            base_restart_delay_ms: 1000,
            max_restart_delay_ms: 30000,
            backoff_factor: 2,
        }
    }
}

impl ChildSpec {
    /// An independent copy, equal at view level.
    pub fn dup(&self) -> (r: ChildSpec)
        ensures
            r@ == self@,
    {
        ChildSpec {
            id: self.id.clone(),
            manifest_path: self.manifest_path.clone(),
            restart: self.restart,
            max_restarts: self.max_restarts,
            restart_intensity_window: self.restart_intensity_window,
            base_restart_delay_ms: self.base_restart_delay_ms,
            max_restart_delay_ms: self.max_restart_delay_ms,
            backoff_factor: self.backoff_factor,
        }
    }
}

/// State of a supervised child.
#[derive(Debug)]
pub enum ChildState {
    /// Child is starting up.
    Starting,
    /// Child is running normally.
    Running,
    /// Child has crashed and is pending a decision.
    Crashed { error: String },
    /// Child is in restart delay.
    Restarting { attempt: u32 },
    /// Child has been stopped and will not be restarted.
    Stopped { reason: String },
    /// Child was gracefully shut down.
    Terminated,
}

/// The mathematical shape of a child state.
pub enum StateV {
    Starting,
    Running,
    Crashed(Seq<char>),
    Restarting(u32),
    Stopped(Seq<char>),
    Terminated,
}

impl View for ChildState {
    type V = StateV;

    open spec fn view(&self) -> StateV {
        match self {
            ChildState::Starting => StateV::Starting,
            ChildState::Running => StateV::Running,
            ChildState::Crashed { error } => StateV::Crashed(error@),
            ChildState::Restarting { attempt } => StateV::Restarting(*attempt),
            ChildState::Stopped { reason } => StateV::Stopped(reason@),
            ChildState::Terminated => StateV::Terminated,
        }
    }
}

/// The label naming a state's variant.
pub open spec fn state_label_of(s: StateV) -> Seq<char> {
    match s {
        StateV::Starting => "Starting"@,
        StateV::Running => "Running"@,
        StateV::Crashed(_) => "Crashed"@,
        StateV::Restarting(_) => "Restarting"@,
        StateV::Stopped(_) => "Stopped"@,
        StateV::Terminated => "Terminated"@,
    }
}

/// The label naming a state's variant.
pub fn state_label(s: &ChildState) -> (r: String)
    ensures
        r@ == state_label_of(s@),
{
    match s {
        ChildState::Starting => String::from_str("Starting"),
        ChildState::Running => String::from_str("Running"),
        ChildState::Crashed { .. } => String::from_str("Crashed"),
        ChildState::Restarting { .. } => String::from_str("Restarting"),
        ChildState::Stopped { .. } => String::from_str("Stopped"),
        ChildState::Terminated => String::from_str("Terminated"),
    }
}

/// Information about a supervised child.
#[derive(Debug)]
pub struct ChildInfo {
    /// Child specification.
    pub config: ChildSpec,
    /// Current state.
    pub state: ChildState,
    /// Number of restarts in the current window.
    pub restart_count: u32,
    /// Start of the current restart window, in Unix milliseconds.
    pub restart_window_start: Option<u64>,
    /// Last crash time, in Unix milliseconds.
    pub last_crash: Option<u64>,
    /// Current escalation level.
    pub escalation_level: EscalationLevel,
    /// Total crashes since registration.
    pub total_crashes: u64,
}

/// The mathematical shape of a supervised child.
pub struct ChildV {
    pub config: ChildSpecV,
    pub state: StateV,
    pub restart_count: u32,
    pub restart_window_start: Option<u64>,
    pub last_crash: Option<u64>,
    pub escalation_level: EscalationLevel,
    pub total_crashes: u64,
}

impl View for ChildInfo {
    type V = ChildV;

    open spec fn view(&self) -> ChildV {
        ChildV {
            config: self.config@,
            state: self.state@,
            restart_count: self.restart_count,
            restart_window_start: self.restart_window_start,
            last_crash: self.last_crash,
            escalation_level: self.escalation_level,
            total_crashes: self.total_crashes,
        }
    }
}

impl ChildInfo {
    /// A fresh child: starting, no restarts, lowest escalation level.
    pub fn new(config: ChildSpec) -> (r: Self)
        ensures
            r@.config == config@,
            r@.state is Starting,
            r@.restart_count == 0,
            r@.restart_window_start is None,
            r@.last_crash is None,
            r@.escalation_level == EscalationLevel::Level1RestartWithState,
            r@.total_crashes == 0,
    {
        ChildInfo {
            config,
            state: ChildState::Starting,
            restart_count: 0,
            restart_window_start: None,
            last_crash: None,
            escalation_level: EscalationLevel::Level1RestartWithState,
            total_crashes: 0,
        }
    }
}

// ---------------------------------------------------------------------------
// Backoff
// ---------------------------------------------------------------------------

/// `b` to the power `e`.
pub open spec fn pow_n(b: nat, e: nat) -> nat
    decreases e,
{
    if e == 0 {
        1
    } else {
        b * pow_n(b, (e - 1) as nat)
    }
}

/// The restart delay: the base delay multiplied by the backoff factor once
/// per attempt, capped at the maximum delay.
pub open spec fn backoff_delay(base: u64, factor: u64, attempt: nat, max_delay: u64) -> u64 {
    if base * pow_n(factor as nat, attempt) > max_delay {
        max_delay
    } else {
        (base * pow_n(factor as nat, attempt)) as u64
    }
}

proof fn lemma_pow_mono(f: nat, e1: nat, e2: nat)
    requires
        f >= 1,
        e1 <= e2,
    ensures
        pow_n(f, e1) <= pow_n(f, e2),
    decreases e2,
{
    if e1 < e2 {
        lemma_pow_mono(f, e1, (e2 - 1) as nat);
        let p = pow_n(f, (e2 - 1) as nat);
        assert(f * p >= p) by (nonlinear_arith)
            requires
                f >= 1,
                p >= 0,
        ;
    }
}

/// The delay before the next restart, with exponential backoff: the base
/// delay times the factor once per counted restart, capped at the maximum.
pub fn calculate_restart_delay(config: &ChildSpec, attempt: u32) -> (r: u64)
    ensures
        r == backoff_delay(
            config.base_restart_delay_ms,
            config.backoff_factor,
            attempt as nat,
            config.max_restart_delay_ms,
        ),
{
    let base = config.base_restart_delay_ms;
    let factor = config.backoff_factor;
    let max_delay = config.max_restart_delay_ms;
    let mut d: u64 = base;
    let mut k: u32 = 0;
    proof {
        assert(base * pow_n(factor as nat, 0) == base) by (nonlinear_arith);
    }
    while k < attempt
        invariant
            k <= attempt,
            base == config.base_restart_delay_ms,
            factor == config.backoff_factor,
            max_delay == config.max_restart_delay_ms,
            d == base * pow_n(factor as nat, k as nat),
        decreases attempt - k,
    {
        let ghost pk = pow_n(factor as nat, k as nat);
        match d.checked_mul(factor) {
            Some(v) => {
                proof {
                    assert((base * pk) * factor == base * (factor * pk)) by (nonlinear_arith);
                    assert(pow_n(factor as nat, k as nat + 1) == factor * pk);
                }
                d = v;
            },
            None => {
                proof {
                    assert(d * factor > u64::MAX);
                    assert(factor >= 1) by (nonlinear_arith)
                        requires
                            d * factor > u64::MAX,
                            d <= u64::MAX,
                            factor >= 0,
                    ;
                    assert((base * pk) * factor == base * (factor * pk)) by (nonlinear_arith);
                    assert(pow_n(factor as nat, k as nat + 1) == factor * pk);
                    lemma_pow_mono(factor as nat, k as nat + 1, attempt as nat);
                    assert(base * pow_n(factor as nat, k as nat + 1) <= base * pow_n(
                        factor as nat,
                        attempt as nat,
                    )) by (nonlinear_arith)
                        requires
                            base >= 0,
                            pow_n(factor as nat, k as nat + 1) <= pow_n(
                                factor as nat,
                                attempt as nat,
                            ),
                    ;
                    assert(base * pow_n(factor as nat, attempt as nat) > max_delay);
                    assert(backoff_delay(base, factor, attempt as nat, max_delay) == max_delay);
                }
                return max_delay;
            },
        }
        k = k + 1;
    }
    if d > max_delay {
        max_delay
    } else {
        d
    }
}

// ---------------------------------------------------------------------------
// Crash decisions
// ---------------------------------------------------------------------------

/// Action to take after a child crash.
#[derive(Debug)]
pub enum SupervisorAction {
    /// Restart the child after a delay.
    Restart { delay_ms: u64, manifest_path: String, escalation: EscalationLevel },
    /// Stop the child permanently.
    Stop,
    /// Escalate to a higher level.
    Escalate(EscalationLevel),
}

/// The mathematical shape of a supervisor action.
pub enum ActionV {
    Restart { delay_ms: u64, manifest_path: Seq<char>, escalation: EscalationLevel },
    Stop,
    Escalate(EscalationLevel),
}

impl View for SupervisorAction {
    type V = ActionV;

    open spec fn view(&self) -> ActionV {
        match self {
            SupervisorAction::Restart { delay_ms, manifest_path, escalation } => ActionV::Restart {
                delay_ms: *delay_ms,
                manifest_path: manifest_path@,
                escalation: *escalation,
            },
            SupervisorAction::Stop => ActionV::Stop,
            SupervisorAction::Escalate(l) => ActionV::Escalate(*l),
        }
    }
}

/// Whether the restart intensity window that started at `window_start` has
/// expired at `now`.
pub open spec fn window_expired(c: ChildV, now: u64) -> bool {
    match c.restart_window_start {
        Some(ws) => now > ws + c.config.restart_intensity_window * 1000,
        None => false,
    }
}

/// The error strings that `Transient` children treat as a normal exit.
pub open spec fn is_normal_exit(error: Seq<char>) -> bool {
    error == "normal"@ || error == "shutdown"@
}

/// Errors of supervisor operations.
#[derive(Debug)]
pub enum SupervisorError {
    /// A child with this identifier is already registered.
    AlreadyRegistered(String),
    /// No child with this identifier is registered.
    ChildNotFound(String),
}

impl SupervisorError {
    /// A human-readable description.
    pub fn message(&self) -> (r: String)
        ensures
            true,
    {
        match self {
            SupervisorError::AlreadyRegistered(id) => {
                let mut m = String::from_str("child already registered: ");
                m.append(id.as_str());
                m
            },
            SupervisorError::ChildNotFound(id) => {
                let mut m = String::from_str("child not found: ");
                m.append(id.as_str());
                m
            },
        }
    }
}

// ---------------------------------------------------------------------------
// The supervisor
// ---------------------------------------------------------------------------

/// The views of a vector of children.
pub open spec fn child_views(v: Seq<ChildInfo>) -> Seq<ChildV> {
    v.map_values(|c: ChildInfo| c@)
}

proof fn lemma_child_views_push(s: Seq<ChildInfo>, c: ChildInfo)
    ensures
        child_views(s.push(c)) == child_views(s).push(c@),
{
    assert(child_views(s.push(c)) =~= child_views(s).push(c@));
}

/// The position of the first child with the given identifier, or -1.
pub open spec fn child_index(cs: Seq<ChildV>, id: Seq<char>) -> int
    decreases cs.len(),
{
    if cs.len() == 0 {
        -1
    } else if cs[0].config.id == id {
        0
    } else {
        let r = child_index(cs.drop_first(), id);
        if r < 0 {
            -1
        } else {
            r + 1
        }
    }
}

pub proof fn lemma_child_index(cs: Seq<ChildV>, id: Seq<char>)
    ensures
        child_index(cs, id) >= 0 ==> 0 <= child_index(cs, id) < cs.len() && cs[child_index(
            cs,
            id,
        )].config.id == id && (forall|j: int|
            0 <= j < child_index(cs, id) ==> (#[trigger] cs[j]).config.id != id),
        child_index(cs, id) < 0 ==> (forall|j: int|
            0 <= j < cs.len() ==> (#[trigger] cs[j]).config.id != id),
    decreases cs.len(),
{
    if cs.len() > 0 && cs[0].config.id != id {
        let d = cs.drop_first();
        lemma_child_index(d, id);
        assert(forall|j: int| 0 <= j < d.len() ==> #[trigger] d[j] == cs[j + 1]);
        let r = child_index(d, id);
        if r >= 0 {
            assert forall|j: int| 0 <= j < r + 1 implies (#[trigger] cs[j]).config.id != id by {
                if j > 0 {
                    assert(cs[j] == d[j - 1]);
                }
            }
        } else {
            assert forall|j: int| 0 <= j < cs.len() implies (#[trigger] cs[j]).config.id != id by {
                if j > 0 {
                    assert(cs[j] == d[j - 1]);
                }
            }
        }
    }
}

/// Supervisor for guest module lifecycles. Decisions are made here; running
/// the restarts (sleeping out the delay and reloading the module) is the
/// caller's job, driven by the returned `SupervisorAction`.
pub struct Supervisor {
    children: Vec<ChildInfo>,
}

impl Supervisor {
    /// The supervised children, in registration order.
    pub closed spec fn children_view(&self) -> Seq<ChildV> {
        child_views(self.children@)
    }

    /// Well-formedness: child identifiers are unique.
    pub open spec fn wf(&self) -> bool {
        forall|a: int, b: int|
            0 <= a < b < self.children_view().len() ==> (#[trigger] self.children_view()[
                a
            ]).config.id != (#[trigger] self.children_view()[b]).config.id
    }

    /// Create a new supervisor with no children.
    pub fn new() -> (r: Self)
        ensures
            r.wf(),
            r.children_view().len() == 0,
    {
        Supervisor { children: Vec::new() }
    }

    /// Create a new supervisor; restart execution is the caller's job, so
    /// this is the same as `new`.
    pub fn new_noop() -> (r: Self)
        ensures
            r.wf(),
            r.children_view().len() == 0,
    {
        Self::new()
    }

    /// Look up the position of a child by identifier.
    fn find_child(&self, id: &str) -> (r: Option<usize>)
        ensures
            r matches Some(i) ==> child_index(self.children_view(), id@) == i && i
                < self.children_view().len() && self.children_view()[i as int].config.id == id@,
            r is None ==> child_index(self.children_view(), id@) < 0,
    {
        proof {
            lemma_child_index(self.children_view(), id@);
        }
        let n: usize = self.children.len();
        let mut i: usize = 0;
        while i < n
            invariant
                n == self.children@.len(),
                i <= n,
                forall|j: int| 0 <= j < i ==> (#[trigger] self.children_view()[j]).config.id != id@,
            decreases n - i,
        {
            proof {
                assert(self.children_view()[i as int] == self.children@[i as int]@);
            }
            if crate::encoding::str_eq(self.children[i].config.id.as_str(), id) {
                proof {
                    lemma_child_index(self.children_view(), id@);
                    let k = child_index(self.children_view(), id@);
                    if k != i as int {
                        if k < 0 {
                            assert(self.children_view()[i as int].config.id != id@);
                        } else if k < i as int {
                            assert(self.children_view()[k].config.id != id@);
                        } else {
                            assert(self.children_view()[i as int].config.id != id@);
                        }
                        assert(false);
                    }
                }
                return Some(i);
            }
            i = i + 1;
        }
        proof {
            lemma_child_index(self.children_view(), id@);
            if child_index(self.children_view(), id@) >= 0 {
                assert(self.children_view()[child_index(self.children_view(), id@)].config.id
                    == id@);
                assert(false);
            }
        }
        None
    }

    /// Register a child module. Fails if the identifier is taken.
    pub fn register_child(&mut self, config: ChildSpec) -> (r: Result<(), SupervisorError>)
        requires
            old(self).wf(),
        ensures
            final(self).wf(),
            child_index(old(self).children_view(), config@.id) >= 0 ==> (r is Err && final(self).children_view() == old(self).children_view()),
            child_index(old(self).children_view(), config@.id) < 0 ==> {
                &&& r is Ok
                &&& final(self).children_view().len() == old(self).children_view().len() + 1
                &&& final(self).children_view().take(old(self).children_view().len() as int)
                    == old(self).children_view()
                &&& ({
                    let c = final(self).children_view().last();
                    &&& c.config == config@
                    &&& c.state is Starting
                    &&& c.restart_count == 0
                    &&& c.restart_window_start is None
                    &&& c.last_crash is None
                    &&& c.escalation_level == EscalationLevel::Level1RestartWithState
                    &&& c.total_crashes == 0
                })
            },
    {
        proof {
            lemma_child_index(self.children_view(), config@.id);
        }
        match self.find_child(config.id.as_str()) {
            Some(_) => Err(SupervisorError::AlreadyRegistered(config.id.clone())),
            None => {
                let child = ChildInfo::new(config);
                let ghost pre = self.children@;
                self.children.push(child);
                proof {
                    lemma_child_views_push(pre, child);
                    assert(self.children_view().take(child_views(pre).len() as int) =~= child_views(
                        pre,
                    ));
                    lemma_child_index(child_views(pre), child@.config.id);
                    assert forall|a: int, b: int|
                        0 <= a < b < self.children_view().len() implies (
                    #[trigger] self.children_view()[a]).config.id != (
                    #[trigger] self.children_view()[b]).config.id by {
                        if b < child_views(pre).len() {
                            assert(child_views(pre)[a].config.id != child_views(pre)[b].config.id);
                        } else {
                            assert(child_views(pre)[a].config.id != child@.config.id);
                        }
                    }
                }
                Ok(())
            },
        }
    }

    /// Unregister a child module. Fails if it is not registered.
    pub fn unregister_child(&mut self, id: &str) -> (r: Result<(), SupervisorError>)
        requires
            old(self).wf(),
        ensures
            final(self).wf(),
            child_index(old(self).children_view(), id@) < 0 ==> (r is Err && final(self).children_view() == old(self).children_view()),
            child_index(old(self).children_view(), id@) >= 0 ==> (r is Ok && final(self).children_view() == old(self).children_view().remove(
                child_index(old(self).children_view(), id@),
            )),
    {
        match self.find_child(id) {
            Some(i) => {
                self.children.remove(i);
                proof {
                    assert(self.children_view() =~= old(self).children_view().remove(i as int));
                    assert forall|a: int, b: int|
                        0 <= a < b < self.children_view().len() implies (
                    #[trigger] self.children_view()[a]).config.id != (
                    #[trigger] self.children_view()[b]).config.id by {
                        let olda = if a < i as int {
                            a
                        } else {
                            a + 1
                        };
                        let oldb = if b < i as int {
                            b
                        } else {
                            b + 1
                        };
                        assert(self.children_view()[a] == old(self).children_view()[olda]);
                        assert(self.children_view()[b] == old(self).children_view()[oldb]);
                        assert(old(self).children_view()[olda].config.id != old(self).children_view()[oldb].config.id);
                    }
                }
                Ok(())
            },
            None => Err(SupervisorError::ChildNotFound(String::from_str(id))),
        }
    }

    /// Report a child as successfully started: it moves to `Running`.
    pub fn report_started(&mut self, id: &str) -> (r: Result<(), SupervisorError>)
        requires
            old(self).wf(),
        ensures
            final(self).wf(),
            child_index(old(self).children_view(), id@) < 0 ==> (r is Err && final(self).children_view() == old(self).children_view()),
            child_index(old(self).children_view(), id@) >= 0 ==> {
                let idx = child_index(old(self).children_view(), id@);
                &&& r is Ok
                &&& final(self).children_view().len() == old(self).children_view().len()
                &&& final(self).children_view()[idx].state is Running
                &&& final(self).children_view()[idx].config == old(self).children_view()[idx].config
                &&& forall|j: int|
                    0 <= j < old(self).children_view().len() && j != idx
                        ==> #[trigger] final(self).children_view()[j] == old(self).children_view()[j]
            },
    {
        match self.find_child(id) {
            Some(i) => {
                let mut child = self.children.remove(i);
                child.state = ChildState::Running;
                self.children.insert(i, child);
                proof {
                    assert(self.children_view() =~= old(self).children_view().update(
                        i as int,
                        self.children_view()[i as int],
                    ));
                    assert forall|a: int, b: int|
                        0 <= a < b < self.children_view().len() implies (
                    #[trigger] self.children_view()[a]).config.id != (
                    #[trigger] self.children_view()[b]).config.id by {
                        assert(self.children_view()[a].config.id == old(self).children_view()[
                            a
                        ].config.id);
                        assert(self.children_view()[b].config.id == old(self).children_view()[
                            b
                        ].config.id);
                    }
                }
                Ok(())
            },
            None => Err(SupervisorError::ChildNotFound(String::from_str(id))),
        }
    }

    /// Decide what to do about a crash reported at an explicit time.
    ///
    /// A `Temporary` child stops; a `Transient` child whose error reads
    /// `normal` or `shutdown` terminates and is not restarted. Otherwise the
    /// intensity window is reset if it has expired; exceeding `max_restarts`
    /// inside the window advances the escalation level once and resets the
    /// count, stopping the child entirely at level four or above. A restart
    /// is delayed by the base delay multiplied by the backoff factor once per
    /// restart already counted in the window.
    pub fn report_crash_at(&mut self, id: &str, error: &str, now: u64) -> (r: Result<
        SupervisorAction,
        SupervisorError,
    >)
        requires
            old(self).wf(),
        ensures
            final(self).wf(),
            child_index(old(self).children_view(), id@) < 0 ==> (r is Err && final(self).children_view() == old(self).children_view()),
            child_index(old(self).children_view(), id@) >= 0 ==> {
                let idx = child_index(old(self).children_view(), id@);
                let c = old(self).children_view()[idx];
                let c2 = final(self).children_view()[idx];
                &&& r is Ok
                &&& final(self).children_view().len() == old(self).children_view().len()
                &&& (forall|j: int|
                    0 <= j < old(self).children_view().len() && j != idx
                        ==> #[trigger] final(self).children_view()[j] == old(self).children_view()[j])
                &&& c2.config == c.config
                &&& c2.last_crash == Some(now)
                &&& c2.total_crashes == (if c.total_crashes < u64::MAX {
                    (c.total_crashes + 1) as u64
                } else {
                    u64::MAX
                })
                &&& (c.config.restart == RestartStrategy::Temporary ==> (r
                    == Ok::<_, SupervisorError>(SupervisorAction::Stop) && c2.state is Stopped
                    && c2.restart_count == c.restart_count && c2.restart_window_start
                    == c.restart_window_start && c2.escalation_level == c.escalation_level))
                &&& (c.config.restart == RestartStrategy::Transient && is_normal_exit(error@) ==> (
                r == Ok::<_, SupervisorError>(SupervisorAction::Stop) && c2.state is Terminated
                    && c2.restart_count == c.restart_count && c2.restart_window_start
                    == c.restart_window_start && c2.escalation_level == c.escalation_level))
                &&& ((c.config.restart == RestartStrategy::Permanent || (c.config.restart
                    == RestartStrategy::Transient && !is_normal_exit(error@))) ==> {
                    let eff_count: u32 = if window_expired(c, now) {
                        0u32
                    } else {
                        c.restart_count
                    };
                    let eff_level = if window_expired(c, now) {
                        EscalationLevel::Level1RestartWithState
                    } else {
                        c.escalation_level
                    };
                    &&& c2.restart_window_start == (if window_expired(c, now)
                        || c.restart_window_start is None {
                        Some(now)
                    } else {
                        c.restart_window_start
                    })
                    &&& if eff_count >= c.config.max_restarts {
                        let nl = next_level(eff_level);
                        if level_number(nl) >= 4 {
                            &&& (r matches Ok(a) && a@ == ActionV::Escalate(nl))
                            &&& c2.state is Stopped
                            &&& c2.escalation_level == nl
                        } else {
                            &&& (r matches Ok(a) && a@ == (ActionV::Restart {
                                delay_ms: backoff_delay(
                                    c.config.base_restart_delay_ms,
                                    c.config.backoff_factor,
                                    0nat,
                                    c.config.max_restart_delay_ms,
                                ),
                                manifest_path: c.config.manifest_path,
                                escalation: nl,
                            }))
                            &&& c2.state == StateV::Restarting(1)
                            &&& c2.restart_count == 1
                            &&& c2.escalation_level == nl
                        }
                    } else {
                        &&& (r matches Ok(a) && a@ == (ActionV::Restart {
                            delay_ms: backoff_delay(
                                c.config.base_restart_delay_ms,
                                c.config.backoff_factor,
                                eff_count as nat,
                                c.config.max_restart_delay_ms,
                            ),
                            manifest_path: c.config.manifest_path,
                            escalation: eff_level,
                        }))
                        &&& c2.state == StateV::Restarting((eff_count + 1) as u32)
                        &&& c2.restart_count == eff_count + 1
                        &&& c2.escalation_level == eff_level
                    }
                })
            },
    {
        let idx = match self.find_child(id) {
            Some(i) => i,
            None => {
                return Err(SupervisorError::ChildNotFound(String::from_str(id)));
            },
        };
        let mut child = self.children.remove(idx);
        child.last_crash = Some(now);
        child.total_crashes = if child.total_crashes < u64::MAX {
            child.total_crashes + 1
        } else {
            u64::MAX
        };
        let normal = crate::encoding::str_eq(error, "normal") || crate::encoding::str_eq(
            error,
            "shutdown",
        );
        if matches!(child.config.restart, RestartStrategy::Temporary) {
            child.state = ChildState::Stopped {
                reason: String::from_str("temporary strategy; not restarted"),
            };
            self.children.insert(idx, child);
            proof {
                self.lemma_wf_after_update(old(self), idx as int);
            }
            return Ok(SupervisorAction::Stop);
        }
        if matches!(child.config.restart, RestartStrategy::Transient) && normal {
            child.state = ChildState::Terminated;
            self.children.insert(idx, child);
            proof {
                self.lemma_wf_after_update(old(self), idx as int);
            }
            return Ok(SupervisorAction::Stop);
        }
        child.state = ChildState::Crashed { error: String::from_str(error) };
        // Reset the window if it has expired.
        let expired: bool = match child.restart_window_start {
            Some(ws) => {
                let bound = ws.saturating_add((child.config.restart_intensity_window as u64)
                    * 1000);
                now > bound
            },
            None => false,
        };
        if expired {
            child.restart_count = 0;
            child.restart_window_start = Some(now);
            child.escalation_level = EscalationLevel::Level1RestartWithState;
        }
        if matches!(child.restart_window_start, None) {
            child.restart_window_start = Some(now);
        }
        // Escalate when the restart limit inside the window is exceeded.
        if child.restart_count >= child.config.max_restarts {
            let nl = child.escalation_level.next();
            child.escalation_level = nl;
            if nl.number() >= 4 {
                child.state = ChildState::Stopped {
                    reason: String::from_str("restart limit exceeded"),
                };
                self.children.insert(idx, child);
                proof {
                    self.lemma_wf_after_update(old(self), idx as int);
                }
                return Ok(SupervisorAction::Escalate(nl));
            }
            child.restart_count = 0;
        }
        let attempt_base = child.restart_count;
        let delay = calculate_restart_delay(&child.config, attempt_base);
        child.restart_count = attempt_base + 1;
        child.state = ChildState::Restarting { attempt: child.restart_count };
        let escalation = child.escalation_level;
        let manifest_path = child.config.manifest_path.clone();
        self.children.insert(idx, child);
        proof {
            self.lemma_wf_after_update(old(self), idx as int);
        }
        Ok(SupervisorAction::Restart { delay_ms: delay, manifest_path, escalation })
    }

    /// Decide what to do about a crash reported now.
    pub fn report_crash(&mut self, id: &str, error: &str) -> (r: Result<
        SupervisorAction,
        SupervisorError,
    >)
        requires
            old(self).wf(),
        ensures
            final(self).wf(),
            child_index(old(self).children_view(), id@) < 0 ==> (r is Err && final(self).children_view() == old(self).children_view()),
            child_index(old(self).children_view(), id@) >= 0 ==> {
                let idx = child_index(old(self).children_view(), id@);
                let c = old(self).children_view()[idx];
                let c2 = final(self).children_view()[idx];
                &&& r is Ok
                &&& final(self).children_view().len() == old(self).children_view().len()
                &&& (forall|j: int|
                    0 <= j < old(self).children_view().len() && j != idx
                        ==> #[trigger] final(self).children_view()[j] == old(self).children_view()[j])
                &&& c2.config == c.config
                &&& c2.last_crash is Some
                &&& c2.total_crashes == (if c.total_crashes < u64::MAX {
                    (c.total_crashes + 1) as u64
                } else {
                    u64::MAX
                })
                &&& (c.config.restart == RestartStrategy::Temporary ==> r == Ok::<
                    _,
                    SupervisorError,
                >(SupervisorAction::Stop) && c2.state is Stopped)
                &&& (c.config.restart == RestartStrategy::Transient && is_normal_exit(error@) ==> r
                    == Ok::<_, SupervisorError>(SupervisorAction::Stop) && c2.state is Terminated)
                &&& ((c.config.restart == RestartStrategy::Permanent || (c.config.restart
                    == RestartStrategy::Transient && !is_normal_exit(error@))) ==> (r matches Ok(a)
                    && !(a is Stop)))
            },
    {
        let now = crate::encoding::now_millis();
        self.report_crash_at(id, error, now)
    }

    /// Identifiers never change when one child is updated in place, so
    /// uniqueness carries over.
    proof fn lemma_wf_after_update(&self, prev: &Self, idx: int)
        requires
            prev.wf(),
            self.children_view().len() == prev.children_view().len(),
            0 <= idx < prev.children_view().len(),
            forall|j: int|
                0 <= j < prev.children_view().len() && j != idx
                    ==> #[trigger] self.children_view()[j] == prev.children_view()[j],
            self.children_view()[idx].config.id == prev.children_view()[idx].config.id,
        ensures
            self.wf(),
    {
        assert forall|a: int, b: int|
            0 <= a < b < self.children_view().len() implies (#[trigger] self.children_view()[
            a
        ]).config.id != (#[trigger] self.children_view()[b]).config.id by {
            assert(self.children_view()[a].config.id == prev.children_view()[a].config.id);
            assert(self.children_view()[b].config.id == prev.children_view()[b].config.id);
        }
    }

    /// Mark a child as starting again, after its restart was carried out.
    pub fn mark_restart_started(&mut self, id: &str) -> (r: Result<(), SupervisorError>)
        requires
            old(self).wf(),
        ensures
            final(self).wf(),
            child_index(old(self).children_view(), id@) < 0 ==> (r is Err && final(self).children_view() == old(self).children_view()),
            child_index(old(self).children_view(), id@) >= 0 ==> {
                let idx = child_index(old(self).children_view(), id@);
                let c = old(self).children_view()[idx];
                let c2 = final(self).children_view()[idx];
                &&& r is Ok
                &&& final(self).children_view().len() == old(self).children_view().len()
                &&& (forall|j: int|
                    0 <= j < old(self).children_view().len() && j != idx
                        ==> #[trigger] final(self).children_view()[j] == old(self).children_view()[j])
                &&& c2.state is Starting
                &&& c2.config == c.config
                &&& c2.restart_count == c.restart_count
                &&& c2.restart_window_start == c.restart_window_start
                &&& c2.last_crash == c.last_crash
                &&& c2.escalation_level == c.escalation_level
                &&& c2.total_crashes == c.total_crashes
            },
    {
        match self.find_child(id) {
            Some(i) => {
                let mut child = self.children.remove(i);
                child.state = ChildState::Starting;
                self.children.insert(i, child);
                proof {
                    self.lemma_wf_after_update(old(self), i as int);
                }
                Ok(())
            },
            None => Err(SupervisorError::ChildNotFound(String::from_str(id))),
        }
    }

    /// The status of every child.
    pub fn get_status(&self) -> (r: Vec<ChildStatus>)
        ensures
            r@.len() == self.children_view().len(),
            forall|i: int|
                0 <= i < r@.len() ==> {
                    let c = self.children_view()[i];
                    &&& (#[trigger] r@[i]).id@ == c.config.id
                    &&& r@[i].state@ == state_label_of(c.state)
                    &&& r@[i].restart_count == c.restart_count
                    &&& r@[i].total_crashes == c.total_crashes
                    &&& r@[i].escalation_level == c.escalation_level
                },
    {
        let mut out: Vec<ChildStatus> = Vec::new();
        let n: usize = self.children.len();
        let mut i: usize = 0;
        while i < n
            invariant
                n == self.children@.len(),
                i <= n,
                out@.len() == i,
                forall|j: int|
                    0 <= j < i ==> {
                        let c = self.children_view()[j];
                        &&& (#[trigger] out@[j]).id@ == c.config.id
                        &&& out@[j].state@ == state_label_of(c.state)
                        &&& out@[j].restart_count == c.restart_count
                        &&& out@[j].total_crashes == c.total_crashes
                        &&& out@[j].escalation_level == c.escalation_level
                    },
            decreases n - i,
        {
            proof {
                assert(self.children_view()[i as int] == self.children@[i as int]@);
            }
            let c = &self.children[i];
            out.push(
                ChildStatus {
                    id: c.config.id.clone(),
                    state: state_label(&c.state),
                    restart_count: c.restart_count,
                    total_crashes: c.total_crashes,
                    escalation_level: c.escalation_level,
                },
            );
            i = i + 1;
        }
        out
    }

    /// The status of one child, if registered.
    pub fn get_child_status(&self, id: &str) -> (r: Option<ChildStatus>)
        ensures
            child_index(self.children_view(), id@) < 0 ==> r is None,
            child_index(self.children_view(), id@) >= 0 ==> (r matches Some(s) && {
                let c = self.children_view()[child_index(self.children_view(), id@)];
                &&& s.id@ == c.config.id
                &&& s.state@ == state_label_of(c.state)
                &&& s.restart_count == c.restart_count
                &&& s.total_crashes == c.total_crashes
                &&& s.escalation_level == c.escalation_level
            }),
    {
        match self.find_child(id) {
            Some(i) => {
                proof {
                    assert(self.children_view()[i as int] == self.children@[i as int]@);
                }
                let c = &self.children[i];
                Some(
                    ChildStatus {
                        id: c.config.id.clone(),
                        state: state_label(&c.state),
                        restart_count: c.restart_count,
                        total_crashes: c.total_crashes,
                        escalation_level: c.escalation_level,
                    },
                )
            },
            None => None,
        }
    }

    /// Shut down all children gracefully: every child moves to `Terminated`.
    pub fn shutdown_all(&mut self)
        requires
            old(self).wf(),
        ensures
            final(self).wf(),
            final(self).children_view().len() == old(self).children_view().len(),
            forall|i: int|
                0 <= i < final(self).children_view().len() ==> (#[trigger] final(self).children_view()[i]).state is Terminated && final(self).children_view()[i].config
                    == old(self).children_view()[i].config,
    {
        let n: usize = self.children.len();
        let mut out: Vec<ChildInfo> = Vec::new();
        let mut i: usize = 0;
        while i < n
            invariant
                n == self.children@.len(),
                self.children_view() == old(self).children_view(),
                i <= n,
                out@.len() == i,
                forall|j: int|
                    0 <= j < i ==> (#[trigger] child_views(out@)[j]).state is Terminated
                        && child_views(out@)[j].config == self.children_view()[j].config,
            decreases n - i,
        {
            proof {
                assert(self.children_view()[i as int] == self.children@[i as int]@);
            }
            let c = &self.children[i];
            let replacement = ChildInfo {
                config: c.config.dup(),
                state: ChildState::Terminated,
                restart_count: c.restart_count,
                restart_window_start: c.restart_window_start,
                last_crash: c.last_crash,
                escalation_level: c.escalation_level,
                total_crashes: c.total_crashes,
            };
            let ghost pre = out@;
            out.push(replacement);
            proof {
                lemma_child_views_push(pre, replacement);
            }
            i = i + 1;
        }
        self.children = out;
        proof {
            assert forall|a: int, b: int|
                0 <= a < b < self.children_view().len() implies (#[trigger] self.children_view()[
                a
            ]).config.id != (#[trigger] self.children_view()[b]).config.id by {
                assert(self.children_view()[a].config == old(self).children_view()[a].config);
                assert(self.children_view()[b].config == old(self).children_view()[b].config);
            }
        }
    }
}

/// Status of a supervised child.
#[derive(Debug)]
pub struct ChildStatus {
    pub id: String,
    pub state: String,
    pub restart_count: u32,
    pub total_crashes: u64,
    pub escalation_level: EscalationLevel,
}

} // verus!
