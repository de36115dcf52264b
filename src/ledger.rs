//! Decisions about the deploy ledger: how its queries are qualified, which
//! environment it belongs to, whether a run may start or finish, and the
//! pre-flight checks before a migration.

use vstd::prelude::*;
use crate::text::{chars_equal, chars_of, starts_with, string_of};

verus! {

/// `s` with every occurrence of the non-empty `pat`, scanned left to right,
/// replaced by `rep`, as `str::replace` does.
pub open spec fn replace_all(s: Seq<char>, pat: Seq<char>, rep: Seq<char>) -> Seq<char>
    decreases s.len(),
{
    if pat.len() == 0 || s.len() == 0 {
        s
    } else if starts_with(s, pat) {
        rep + replace_all(s.skip(pat.len() as int), pat, rep)
    } else {
        seq![s[0]] + replace_all(s.drop_first(), pat, rep)
    }
}

pub open spec fn placeholder() -> Seq<char> {
    "{schema_prefix}"@
}

/// The prefix that qualifies ledger tables: the ledger's own schema where the
/// target supports schemas, nothing otherwise.
pub open spec fn schema_prefix(schema_support: bool) -> Seq<char> {
    if schema_support {
        "oxigration."@
    } else {
        seq![]
    }
}

fn starts_with_at(s: &Vec<char>, i: usize, p: &Vec<char>) -> (r: bool)
    requires
        i <= s@.len(),
    ensures
        r == starts_with(s@.skip(i as int), p@),
{
    let n = s.len();
    if p.len() > n - i {
        return false;
    }
    let mut j: usize = 0;
    while j < p.len()
        invariant
            n == s@.len(),
            i <= s@.len(),
            p@.len() <= s@.len() - i,
            j <= p@.len(),
            forall|q: int| 0 <= q < j ==> s@[i + q] == p@[q],
        decreases p@.len() - j,
    {
        if s[i + j] != p[j] {
            proof {
                assert(s@.skip(i as int).take(p@.len() as int)[j as int] != p@[j as int]);
            }
            return false;
        }
        j = j + 1;
    }
    proof {
        assert(s@.skip(i as int).take(p@.len() as int) =~= p@);
    }
    true
}

/// Replaces the `{schema_prefix}` placeholder of `query_template` with the
/// ledger schema's prefix when `schema_support` holds, and with nothing
/// otherwise.
pub fn format_query_with_schema(query_template: &str, schema_support: bool) -> (r: String)
    ensures
        r@ == replace_all(query_template@, placeholder(), schema_prefix(schema_support)),
{
    let s = chars_of(query_template);
    let pat = chars_of("{schema_prefix}");
    let prefix_text = if schema_support {
        "oxigration."
    } else {
        ""
    };
    let rep = chars_of(prefix_text);
    proof {
        reveal_strlit("{schema_prefix}");
        reveal_strlit("");
        assert(rep@ == schema_prefix(schema_support));
        assert(pat@.len() > 0);
    }
    let mut out: Vec<char> = Vec::new();
    let mut i: usize = 0;
    proof {
        assert(s@.skip(0) =~= s@);
    }
    while i < s.len()
        invariant
            i <= s@.len(),
            pat@ == placeholder(),
            pat@.len() > 0,
            out@ + replace_all(s@.skip(i as int), pat@, rep@) == replace_all(s@, pat@, rep@),
        decreases s@.len() - i,
    {
        let ghost o0 = out@;
        if starts_with_at(&s, i, &pat) {
            let mut k: usize = 0;
            while k < rep.len()
                invariant
                    k <= rep@.len(),
                    out@ == o0 + rep@.take(k as int),
                decreases rep@.len() - k,
            {
                out.push(rep[k]);
                proof {
                    assert(out@ =~= o0 + rep@.take(k + 1));
                }
                k = k + 1;
            }
            proof {
                assert(rep@.take(rep@.len() as int) =~= rep@);
                assert(s@.skip(i as int).skip(pat@.len() as int) =~= s@.skip(i + pat@.len()));
                assert(out@ + replace_all(s@.skip(i + pat@.len()), pat@, rep@) =~= o0 + replace_all(
                    s@.skip(i as int),
                    pat@,
                    rep@,
                ));
            }
            i = i + pat.len();
        } else {
            out.push(s[i]);
            proof {
                assert(s@.skip(i as int).drop_first() =~= s@.skip(i + 1));
                assert(out@ + replace_all(s@.skip(i + 1), pat@, rep@) =~= o0 + replace_all(
                    s@.skip(i as int),
                    pat@,
                    rep@,
                ));
            }
            i = i + 1;
        }
    }
    proof {
        assert(s@.skip(i as int) =~= seq![]);
        assert(out@ + seq![] =~= out@);
    }
    string_of(&out)
}

/// The environments a ledger may belong to.
#[derive(Debug, Clone, Copy, PartialEq, Eq, Structural)]
pub enum Environment {
    Dev,
    Test,
    Prod,
    Stage,
}

pub open spec fn environment_text(e: Environment) -> Seq<char> {
    match e {
        Environment::Dev => seq!['D', 'E', 'V'],
        Environment::Test => seq!['T', 'E', 'S', 'T'],
        Environment::Prod => seq!['P', 'R', 'O', 'D'],
        Environment::Stage => seq!['S', 'T', 'A', 'G', 'E'],
    }
}

/// The environment named exactly `s`, if any.
pub open spec fn environment_of(s: Seq<char>) -> Option<Environment> {
    if s == environment_text(Environment::Dev) {
        Some(Environment::Dev)
    } else if s == environment_text(Environment::Test) {
        Some(Environment::Test)
    } else if s == environment_text(Environment::Prod) {
        Some(Environment::Prod)
    } else if s == environment_text(Environment::Stage) {
        Some(Environment::Stage)
    } else {
        None
    }
}

fn environment_chars(e: Environment) -> (r: Vec<char>)
    ensures
        r@ == environment_text(e),
{
    let mut v: Vec<char> = Vec::new();
    match e {
        Environment::Dev => {
            v.push('D');
            v.push('E');
            v.push('V');
        },
        Environment::Test => {
            v.push('T');
            v.push('E');
            v.push('S');
            v.push('T');
        },
        Environment::Prod => {
            v.push('P');
            v.push('R');
            v.push('O');
            v.push('D');
        },
        Environment::Stage => {
            v.push('S');
            v.push('T');
            v.push('A');
            v.push('G');
            v.push('E');
        },
    }
    proof {
        assert(v@ =~= environment_text(e));
    }
    v
}

/// The name under which the ledger stores an environment.
pub fn environment_name(e: Environment) -> (r: String)
    ensures
        r@ == environment_text(e),
{
    string_of(&environment_chars(e))
}

/// Reads `DEV`, `TEST`, `PROD` or `STAGE`.
pub fn parse_environment(name: &str) -> (r: Option<Environment>)
    ensures
        r == environment_of(name@),
{
    let c = chars_of(name);
    if chars_equal(&c, &environment_chars(Environment::Dev)) {
        Some(Environment::Dev)
    } else if chars_equal(&c, &environment_chars(Environment::Test)) {
        Some(Environment::Test)
    } else if chars_equal(&c, &environment_chars(Environment::Prod)) {
        Some(Environment::Prod)
    } else if chars_equal(&c, &environment_chars(Environment::Stage)) {
        Some(Environment::Stage)
    } else {
        None
    }
}

/// Why the ledger refuses an operation.
#[derive(Debug)]
pub enum LedgerError {
    /// The ledger belongs to `stored`, the caller declared `declared`.
    EnvironmentMismatch { stored: String, declared: Environment },
    /// Another run is still recorded as in progress.
    RunInProgress,
    /// Only a run in progress can be completed, and only as succeeded or failed.
    InvalidTransition { from: ExecutionStatus, to: ExecutionStatus },
}

/// Every ledger operation but the first initialisation requires the stored
/// environment to be the declared one.
pub fn check_ledger_environment(stored: &str, declared: Environment) -> (r: Result<(), LedgerError>)
    ensures
        r is Ok <==> stored@ == environment_text(declared),
        r matches Err(e) ==> e matches LedgerError::EnvironmentMismatch { stored: s, declared: d }
            && s@ == stored@ && d == declared,
{
    let c = chars_of(stored);
    if chars_equal(&c, &environment_chars(declared)) {
        Ok(())
    } else {
        Err(LedgerError::EnvironmentMismatch { stored: stored.to_owned(), declared })
    }
}

/// The state of a recorded run.
#[derive(Debug, Clone, Copy, PartialEq, Eq, Structural)]
pub enum ExecutionStatus {
    InProgress,
    Succeeded,
    Failed,
}

/// The status stored as `in-progress`, `succeeded` or `failed`.
pub open spec fn status_of(s: Seq<char>) -> Option<ExecutionStatus> {
    if s == "in-progress"@ {
        Some(ExecutionStatus::InProgress)
    } else if s == "succeeded"@ {
        Some(ExecutionStatus::Succeeded)
    } else if s == "failed"@ {
        Some(ExecutionStatus::Failed)
    } else {
        None
    }
}

/// Reads a stored run status; any other text is no status.
pub fn parse_execution_status(text: &str) -> (r: Option<ExecutionStatus>)
    ensures
        r == status_of(text@),
{
    let c = chars_of(text);
    if chars_equal(&c, &chars_of("in-progress")) {
        Some(ExecutionStatus::InProgress)
    } else if chars_equal(&c, &chars_of("succeeded")) {
        Some(ExecutionStatus::Succeeded)
    } else if chars_equal(&c, &chars_of("failed")) {
        Some(ExecutionStatus::Failed)
    } else {
        None
    }
}

/// A run in progress is an advisory lock: no other run may start meanwhile.
pub fn may_start_run(recorded: &Vec<ExecutionStatus>) -> (r: Result<(), LedgerError>)
    ensures
        r is Ok <==> !recorded@.contains(ExecutionStatus::InProgress),
        r matches Err(e) ==> e matches LedgerError::RunInProgress,
{
    let mut i: usize = 0;
    while i < recorded.len()
        invariant
            i <= recorded@.len(),
            forall|j: int| 0 <= j < i ==> recorded@[j] != ExecutionStatus::InProgress,
        decreases recorded@.len() - i,
    {
        if recorded[i] == ExecutionStatus::InProgress {
            return Err(LedgerError::RunInProgress);
        }
        i = i + 1;
    }
    Ok(())
}

/// Completes a run: from in progress to succeeded or failed, nothing else.
pub fn finish_execution(current: ExecutionStatus, outcome: ExecutionStatus) -> (r: Result<
    ExecutionStatus,
    LedgerError,
>)
    ensures
        r is Ok <==> current == ExecutionStatus::InProgress && outcome != ExecutionStatus::InProgress,
        r matches Ok(s) ==> s == outcome,
        r matches Err(e) ==> e matches LedgerError::InvalidTransition { from, to } && from == current
            && to == outcome,
{
    if current == ExecutionStatus::InProgress && outcome != ExecutionStatus::InProgress {
        Ok(outcome)
    } else {
        Err(LedgerError::InvalidTransition { from: current, to: outcome })
    }
}

/// The probes that precede a migration, cheapest first.
#[derive(Debug, Clone, Copy, PartialEq, Eq, Structural)]
pub enum PreflightCheck {
    /// Is the target reachable?
    TargetReachable,
    /// Does the source directory exist?
    SourceDirExists,
    /// Which environment does the caller declare?
    DeclaredEnvironment,
    /// Which environment does the ledger record?
    LedgerEnvironment,
    /// Does the ledger's log table exist?
    LedgerExists,
}

/// What the probes have found so far; `None` where a probe has not run.
pub struct PreflightFacts {
    pub is_init: bool,
    pub target_reachable: Option<bool>,
    pub source_dir_exists: Option<bool>,
    pub declared_environment: Option<String>,
    pub ledger_environment: Option<String>,
    pub ledger_exists: Option<bool>,
}

#[derive(Debug)]
pub enum PreflightError {
    TargetUnreachable,
    SourceDirMissing,
    InvalidEnvironment { name: String },
    EnvironmentMismatch { stored: String, declared: String },
    LedgerMissing,
}

pub enum PreflightStep {
    /// Run this probe and record what it finds.
    Probe(PreflightCheck),
    /// All probes ran, or one failed.
    Done(Result<(), PreflightError>),
}

/// The step the pre-flight checks call for, as a view.
pub enum StepView {
    Probe(PreflightCheck),
    Pass,
    Fail(PreflightError),
}

pub open spec fn preflight(f: PreflightFacts) -> StepView {
    match f.target_reachable {
        None => StepView::Probe(PreflightCheck::TargetReachable),
        Some(false) => StepView::Fail(PreflightError::TargetUnreachable),
        Some(true) => if f.is_init {
            StepView::Pass
        } else {
            match f.source_dir_exists {
                None => StepView::Probe(PreflightCheck::SourceDirExists),
                Some(false) => StepView::Fail(PreflightError::SourceDirMissing),
                Some(true) => match f.declared_environment {
                    None => StepView::Probe(PreflightCheck::DeclaredEnvironment),
                    Some(env) => if environment_of(env@) is None {
                        StepView::Fail(PreflightError::InvalidEnvironment { name: env })
                    } else {
                        match f.ledger_environment {
                            None => StepView::Probe(PreflightCheck::LedgerEnvironment),
                            Some(stored) => if stored@ != env@ {
                                StepView::Fail(
                                    PreflightError::EnvironmentMismatch { stored, declared: env },
                                )
                            } else {
                                match f.ledger_exists {
                                    None => StepView::Probe(PreflightCheck::LedgerExists),
                                    Some(false) => StepView::Fail(PreflightError::LedgerMissing),
                                    Some(true) => StepView::Pass,
                                }
                            },
                        }
                    },
                },
            }
        },
    }
}

pub open spec fn step_view(s: PreflightStep) -> StepView {
    match s {
        PreflightStep::Probe(c) => StepView::Probe(c),
        PreflightStep::Done(Ok(())) => StepView::Pass,
        PreflightStep::Done(Err(e)) => StepView::Fail(e),
    }
}

pub open spec fn same_error(a: PreflightError, b: PreflightError) -> bool {
    match (a, b) {
        (PreflightError::TargetUnreachable, PreflightError::TargetUnreachable) => true,
        (PreflightError::SourceDirMissing, PreflightError::SourceDirMissing) => true,
        (PreflightError::InvalidEnvironment { name: x }, PreflightError::InvalidEnvironment { name: y }) => x@ == y@,
        (
            PreflightError::EnvironmentMismatch { stored: s1, declared: d1 },
            PreflightError::EnvironmentMismatch { stored: s2, declared: d2 },
        ) => s1@ == s2@ && d1@ == d2@,
        (PreflightError::LedgerMissing, PreflightError::LedgerMissing) => true,
        _ => false,
    }
}

pub open spec fn same_step(a: StepView, b: StepView) -> bool {
    match (a, b) {
        (StepView::Probe(x), StepView::Probe(y)) => x == y,
        (StepView::Pass, StepView::Pass) => true,
        (StepView::Fail(x), StepView::Fail(y)) => same_error(x, y),
        _ => false,
    }
}

/// Decides the next pre-flight step from what the probes found: the first
/// probe not yet run, the first failure, or success. An initialisation only
/// needs a reachable target.
pub fn environment_checks(facts: &PreflightFacts) -> (r: PreflightStep)
    ensures
        same_step(step_view(r), preflight(*facts)),
{
    match facts.target_reachable {
        None => return PreflightStep::Probe(PreflightCheck::TargetReachable),
        Some(false) => return PreflightStep::Done(Err(PreflightError::TargetUnreachable)),
        Some(true) => {},
    }
    if facts.is_init {
        return PreflightStep::Done(Ok(()));
    }
    match facts.source_dir_exists {
        None => return PreflightStep::Probe(PreflightCheck::SourceDirExists),
        Some(false) => return PreflightStep::Done(Err(PreflightError::SourceDirMissing)),
        Some(true) => {},
    }
    let env = match &facts.declared_environment {
        None => return PreflightStep::Probe(PreflightCheck::DeclaredEnvironment),
        Some(env) => env,
    };
    if parse_environment(env.as_str()).is_none() {
        return PreflightStep::Done(Err(PreflightError::InvalidEnvironment { name: env.clone() }));
    }
    let stored = match &facts.ledger_environment {
        None => return PreflightStep::Probe(PreflightCheck::LedgerEnvironment),
        Some(stored) => stored,
    };
    if !(*stored == *env) {
        return PreflightStep::Done(
            Err(PreflightError::EnvironmentMismatch { stored: stored.clone(), declared: env.clone() }),
        );
    }
    match facts.ledger_exists {
        None => PreflightStep::Probe(PreflightCheck::LedgerExists),
        Some(false) => PreflightStep::Done(Err(PreflightError::LedgerMissing)),
        Some(true) => PreflightStep::Done(Ok(())),
    }
}

} // verus!
