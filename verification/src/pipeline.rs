//! The execution gate: a single linear pipeline per invocation that
//! fetches a reference, verifies the supplied policy against it, and only
//! then performs exactly one disposition — execute, write to a file, or
//! print. The outside work (network, file system, process spawning) is done
//! by the caller, who performs each returned action and reports its result
//! as the next event; every decision between those steps is made here.
use vstd::prelude::*;

use crate::codec::PolicyParseError;
use crate::policy::Policy;
use crate::verify::{spec_verify, verify, RejectReason, Verdict};

verus! {

/// What the content retriever can report instead of bytes.
#[derive(Clone, Copy, Debug, PartialEq, Eq, Structural)]
pub enum FetchError {
    /// The reference does not parse; surfaced before any network call.
    InvalidReference,
    /// The registry has no such content.
    NotFound,
    /// The transfer failed.
    Network,
    /// The content is not of an accepted media type.
    MediaTypeMismatch,
}

/// What a disposition can report instead of success.
#[derive(Clone, Copy, Debug, PartialEq, Eq, Structural)]
pub enum RunError {
    /// The script could not be spawned.
    Launch,
    /// Writing or emitting the bytes failed.
    Io,
}

/// Everything a pipeline run can fail with, reported as a value and never
/// as a fault.
#[derive(Clone, Copy, Debug, PartialEq, Eq, Structural)]
pub enum GateError {
    /// More than one disposition was requested.
    ConfigConflict,
    /// The reference does not parse.
    InvalidReference,
    /// The registry has no such content.
    FetchNotFound,
    /// The transfer failed.
    FetchNetwork,
    /// The content is not of an accepted media type.
    MediaTypeMismatch,
    /// The policy document was refused by the store.
    PolicyParse(PolicyParseError),
    /// The policy had expired.
    PolicyExpired,
    /// The policy does not declare the requested role.
    UnknownRole,
    /// Too few distinct valid signatures for the role.
    InsufficientSignatures { have: u64, need: u64 },
    /// The script could not be spawned.
    LaunchError,
    /// Writing or emitting the bytes failed.
    IoError,
}

/// The one action applied to verified content.
#[derive(Clone, Debug)]
pub enum Disposition {
    /// Run the bytes as a script.
    Execute,
    /// Write the bytes to this path.
    WriteFile(String),
    /// Emit the bytes on the caller's standard output.
    Print,
}

/// How the executed script's standard streams are handled.
#[derive(Clone, Copy, Debug, PartialEq, Eq, Structural)]
pub enum IoMode {
    /// Streams are captured, not shown live.
    Piped,
    /// The child inherits the caller's streams.
    Interactive,
}

/// One validated configuration for one pipeline run.
#[derive(Clone, Debug)]
pub struct Options {
    /// Whether a policy was supplied and must gate the disposition. Running
    /// unverified is this flag off: an explicit, caller-visible choice,
    /// never a fallback.
    pub enforce_policy: bool,
    /// The one disposition to apply.
    pub disposition: Disposition,
    /// Stream handling for an executed script.
    pub io_mode: IoMode,
}

/// A raw request as a caller states it, before validation.
pub struct Request {
    /// Run the fetched bytes.
    pub execute: bool,
    /// Save the fetched bytes to this path.
    pub out_file: Option<String>,
    /// Emit the fetched bytes on standard output.
    pub print: bool,
    /// Let an executed script inherit the caller's streams.
    pub interactive: bool,
}

/// How many dispositions a request selects.
pub open spec fn spec_selected(r: Request) -> int {
    (if r.execute {
        1int
    } else {
        0int
    }) + (if r.out_file is Some {
        1int
    } else {
        0int
    }) + (if r.print {
        1int
    } else {
        0int
    })
}

/// Validates a raw request into options: selecting more than one
/// disposition is a configuration conflict, rejected here, before any
/// fetch; selecting none means print.
pub fn plan_options(req: Request, policy_supplied: bool) -> (r: Result<Options, GateError>)
    ensures
        spec_selected(req) >= 2 ==> r == Err::<Options, GateError>(GateError::ConfigConflict),
        spec_selected(req) <= 1 ==> (r matches Ok(o) && o.enforce_policy == policy_supplied
            && o.io_mode == (if req.interactive {
            IoMode::Interactive
        } else {
            IoMode::Piped
        }) && o.disposition == (match req.out_file {
            Option::Some(path) => if req.execute {
                Disposition::Execute
            } else {
                Disposition::WriteFile(path)
            },
            Option::None => if req.execute {
                Disposition::Execute
            } else {
                Disposition::Print
            },
        })),
{
    let mut selected: u32 = 0;
    if req.execute {
        selected = selected + 1;
    }
    if req.out_file.is_some() {
        selected = selected + 1;
    }
    if req.print {
        selected = selected + 1;
    }
    if selected >= 2 {
        return Err(GateError::ConfigConflict);
    }
    let io_mode = if req.interactive {
        IoMode::Interactive
    } else {
        IoMode::Piped
    };
    let disposition = if req.execute {
        Disposition::Execute
    } else {
        match req.out_file {
            Some(path) => Disposition::WriteFile(path),
            None => Disposition::Print,
        }
    };
    Ok(Options { enforce_policy: policy_supplied, disposition, io_mode })
}

/// The pipeline's states. Verification is CPU-bound and never suspends, so
/// the verifying stage is passed through inside the step that consumes the
/// fetch result: the states at rest are these.
#[derive(Clone, Copy, Debug, PartialEq, Eq, Structural)]
pub enum GateState {
    /// The fetch action is out with the caller.
    Fetching,
    /// The one disposition action is out with the caller.
    Disposing,
    /// Terminal: the disposition completed.
    Done,
    /// Terminal: the verifier rejected the policy; no disposition ran.
    Rejected,
    /// Terminal: a collaborator failed.
    Failed,
}

/// What the caller must do next.
pub enum GateAction {
    /// Fetch the reference's bytes and report `Fetched`.
    Fetch,
    /// Run the bytes as a script under the mode and report `Ran`.
    Run(Vec<u8>, IoMode),
    /// Write the bytes to the path and report `Wrote`.
    Write(String, Vec<u8>),
    /// Emit the bytes on standard output and report `Emitted`.
    Emit(Vec<u8>),
    /// The run is over; nothing is left to do.
    Finish(GateOutcome),
}

/// What the caller reports back after performing an action.
pub enum GateEvent {
    /// The fetch returned bytes or failed.
    Fetched(Result<Vec<u8>, FetchError>),
    /// The script ran to this exit code, or could not be run.
    Ran(Result<i32, RunError>),
    /// The write finished or failed.
    Wrote(Result<(), RunError>),
    /// The emit finished or failed.
    Emitted(Result<(), RunError>),
}

/// How one pipeline run ended.
#[derive(Clone, Copy, Debug, PartialEq, Eq, Structural)]
pub enum GateOutcome {
    /// The disposition completed; for an executed script this carries the
    /// child's exit code, otherwise zero.
    Completed(i32),
    /// The run failed or was rejected; the error says why.
    Failed(GateError),
}

/// One pipeline instance: the validated options, the policy that gates the
/// run if one was supplied, the role and clock the verifier uses, and the
/// current state.
pub struct Gate {
    /// The validated configuration.
    pub opts: Options,
    /// The policy gating this run, already loaded; present exactly when
    /// `opts.enforce_policy`.
    pub policy: Option<Policy>,
    /// The role the fetched content must be verified against.
    pub role: String,
    /// The reference clock for expiry.
    pub now: u64,
    /// Where the run stands.
    pub state: GateState,
    /// The verifier's verdict, once it has run in this instance.
    pub verdict: Option<Verdict>,
    /// Whether the one disposition action has been issued.
    pub disposed: bool,
}

/// The fetch error as a pipeline error.
pub open spec fn spec_fetch_error(e: FetchError) -> GateError {
    match e {
        FetchError::InvalidReference => GateError::InvalidReference,
        FetchError::NotFound => GateError::FetchNotFound,
        FetchError::Network => GateError::FetchNetwork,
        FetchError::MediaTypeMismatch => GateError::MediaTypeMismatch,
    }
}

/// The rejection reason as a pipeline error.
pub open spec fn spec_reject_error(r: RejectReason) -> GateError {
    match r {
        RejectReason::Expired => GateError::PolicyExpired,
        RejectReason::UnknownRole => GateError::UnknownRole,
        RejectReason::InsufficientSignatures { have, need } => GateError::InsufficientSignatures {
            have,
            need,
        },
    }
}

/// The disposition error as a pipeline error.
pub open spec fn spec_run_error(e: RunError) -> GateError {
    match e {
        RunError::Launch => GateError::LaunchError,
        RunError::Io => GateError::IoError,
    }
}

/// Whether an action hands fetched bytes to a disposition.
pub open spec fn dispositional(a: GateAction) -> bool {
    a is Run || a is Write || a is Emit
}

impl Gate {
    /// The pipeline's invariant: the policy is present exactly under
    /// enforcement and is well formed; a disposition has been issued
    /// exactly from the disposing state on; and under enforcement no
    /// disposition is ever issued without a passing verdict from this very
    /// instance.
    pub open spec fn wf(self) -> bool {
        &&& (self.opts.enforce_policy <==> self.policy is Some)
        &&& (self.policy matches Some(p) ==> p@.wf())
        &&& (self.state == GateState::Fetching ==> !self.disposed && self.verdict is None)
        &&& (self.state == GateState::Disposing ==> self.disposed && (self.opts.enforce_policy
            ==> self.verdict == Some(Verdict::VerifiedOk)))
        &&& (self.state == GateState::Done ==> self.disposed)
        &&& (self.state == GateState::Rejected ==> !self.disposed)
    }

    /// Which events can answer the pending action.
    pub open spec fn event_fits(self, ev: GateEvent) -> bool {
        match self.state {
            GateState::Fetching => ev is Fetched,
            GateState::Disposing => match self.opts.disposition {
                Disposition::Execute => ev is Ran,
                Disposition::WriteFile(_) => ev is Wrote,
                Disposition::Print => ev is Emitted,
            },
            _ => false,
        }
    }
}

/// The next state and the one disposition action for the fetched bytes.
pub open spec fn spec_dispose(g: Gate, bytes: Vec<u8>) -> (Gate, GateAction) {
    let g2 = Gate { state: GateState::Disposing, disposed: true, ..g };
    match g.opts.disposition {
        Disposition::Execute => (g2, GateAction::Run(bytes, g.opts.io_mode)),
        Disposition::WriteFile(path) => (g2, GateAction::Write(path, bytes)),
        Disposition::Print => (g2, GateAction::Emit(bytes)),
    }
}

/// The transition function: the caller's event decides the next state
/// and the next action.
pub open spec fn spec_step(g: Gate, ev: GateEvent) -> (Gate, GateAction) {
    match ev {
        GateEvent::Fetched(res) => match res {
            Result::Err(e) => (
                Gate { state: GateState::Failed, ..g },
                GateAction::Finish(GateOutcome::Failed(spec_fetch_error(e))),
            ),
            Result::Ok(bytes) => match g.policy {
                Option::None => spec_dispose(g, bytes),
                Option::Some(pol) => {
                    let v = spec_verify(pol@, g.role@, g.now);
                    let g1 = Gate { verdict: Some(v), ..g };
                    if v == Verdict::VerifiedOk {
                        spec_dispose(g1, bytes)
                    } else {
                        (
                            Gate { state: GateState::Rejected, ..g1 },
                            GateAction::Finish(
                                GateOutcome::Failed(spec_reject_error(v->Rejected_0)),
                            ),
                        )
                    }
                },
            },
        },
        GateEvent::Ran(res) => match res {
            Result::Ok(code) => (
                Gate { state: GateState::Done, ..g },
                GateAction::Finish(GateOutcome::Completed(code)),
            ),
            Result::Err(e) => (
                Gate { state: GateState::Failed, ..g },
                GateAction::Finish(GateOutcome::Failed(spec_run_error(e))),
            ),
        },
        GateEvent::Wrote(res) => match res {
            Result::Ok(u) => (
                Gate { state: GateState::Done, ..g },
                GateAction::Finish(GateOutcome::Completed(0)),
            ),
            Result::Err(e) => (
                Gate { state: GateState::Failed, ..g },
                GateAction::Finish(GateOutcome::Failed(spec_run_error(e))),
            ),
        },
        GateEvent::Emitted(res) => match res {
            Result::Ok(u) => (
                Gate { state: GateState::Done, ..g },
                GateAction::Finish(GateOutcome::Completed(0)),
            ),
            Result::Err(e) => (
                Gate { state: GateState::Failed, ..g },
                GateAction::Finish(GateOutcome::Failed(spec_run_error(e))),
            ),
        },
    }
}

impl Gate {
    /// Starts one pipeline run. Configuration conflicts have already been
    /// rejected by `plan_options`, so the first action is always the fetch:
    /// nothing is fetched for a conflicting request.
    pub fn new(opts: Options, policy: Option<Policy>, role: String, now: u64) -> (r: (
        Gate,
        GateAction,
    ))
        requires
            opts.enforce_policy <==> policy is Some,
            policy matches Some(p) ==> p@.wf(),
        ensures
            r.0.wf(),
            r.0 == (Gate {
                opts,
                policy,
                role,
                now,
                state: GateState::Fetching,
                verdict: None::<Verdict>,
                disposed: false,
            }),
            r.1 is Fetch,
    {
        (
            Gate {
                opts,
                policy,
                role,
                now,
                state: GateState::Fetching,
                verdict: None,
                disposed: false,
            },
            GateAction::Fetch,
        )
    }

    /// Issues the one disposition action for the fetched bytes.
    fn dispose(&mut self, bytes: Vec<u8>) -> (a: GateAction)
        ensures
            (*final(self), a) == spec_dispose(*old(self), bytes),
    {
        self.state = GateState::Disposing;
        self.disposed = true;
        match &self.opts.disposition {
            Disposition::Execute => GateAction::Run(bytes, self.opts.io_mode),
            Disposition::WriteFile(path) => GateAction::Write(path.clone(), bytes),
            Disposition::Print => GateAction::Emit(bytes),
        }
    }

    /// Consumes the caller's report and decides the next action. Under
    /// enforcement the fetched bytes reach a disposition only on a passing
    /// verdict computed here, from this instance's policy, role and clock.
    pub fn step(&mut self, ev: GateEvent) -> (a: GateAction)
        requires
            old(self).wf(),
            old(self).event_fits(ev),
        ensures
            (*final(self), a) == spec_step(*old(self), ev),
            final(self).wf(),
            dispositional(a) ==> (final(self).opts.enforce_policy ==> final(self).verdict == Some(
                Verdict::VerifiedOk,
            )),
            dispositional(a) ==> !old(self).disposed && final(self).disposed,
    {
        match ev {
            GateEvent::Fetched(res) => match res {
                Result::Err(e) => {
                    self.state = GateState::Failed;
                    let ge = match e {
                        FetchError::InvalidReference => GateError::InvalidReference,
                        FetchError::NotFound => GateError::FetchNotFound,
                        FetchError::Network => GateError::FetchNetwork,
                        FetchError::MediaTypeMismatch => GateError::MediaTypeMismatch,
                    };
                    GateAction::Finish(GateOutcome::Failed(ge))
                },
                Result::Ok(bytes) => {
                    let v = match &self.policy {
                        None => None,
                        Some(pol) => Some(verify(pol, self.role.as_str(), self.now)),
                    };
                    match v {
                        None => self.dispose(bytes),
                        Some(Verdict::VerifiedOk) => {
                            self.verdict = Some(Verdict::VerifiedOk);
                            self.dispose(bytes)
                        },
                        Some(Verdict::Rejected(reason)) => {
                            self.verdict = Some(Verdict::Rejected(reason));
                            self.state = GateState::Rejected;
                            let ge = match reason {
                                RejectReason::Expired => GateError::PolicyExpired,
                                RejectReason::UnknownRole => GateError::UnknownRole,
                                RejectReason::InsufficientSignatures { have, need } => {
                                    GateError::InsufficientSignatures { have, need }
                                },
                            };
                            GateAction::Finish(GateOutcome::Failed(ge))
                        },
                    }
                },
            },
            GateEvent::Ran(res) => match res {
                Result::Ok(code) => {
                    self.state = GateState::Done;
                    GateAction::Finish(GateOutcome::Completed(code))
                },
                Result::Err(e) => {
                    self.state = GateState::Failed;
                    let ge = match e {
                        RunError::Launch => GateError::LaunchError,
                        RunError::Io => GateError::IoError,
                    };
                    GateAction::Finish(GateOutcome::Failed(ge))
                },
            },
            GateEvent::Wrote(res) => match res {
                Result::Ok(u) => {
                    self.state = GateState::Done;
                    GateAction::Finish(GateOutcome::Completed(0))
                },
                Result::Err(e) => {
                    self.state = GateState::Failed;
                    let ge = match e {
                        RunError::Launch => GateError::LaunchError,
                        RunError::Io => GateError::IoError,
                    };
                    GateAction::Finish(GateOutcome::Failed(ge))
                },
            },
            GateEvent::Emitted(res) => match res {
                Result::Ok(u) => {
                    self.state = GateState::Done;
                    GateAction::Finish(GateOutcome::Completed(0))
                },
                Result::Err(e) => {
                    self.state = GateState::Failed;
                    let ge = match e {
                        RunError::Launch => GateError::LaunchError,
                        RunError::Io => GateError::IoError,
                    };
                    GateAction::Finish(GateOutcome::Failed(ge))
                },
            },
        }
    }
}

/// No byte of fetched content reaches any disposition — the script runner
/// above all — unless this very run produced a passing verdict or
/// enforcement was explicitly off: every dispositional action the
/// transition function can emit is so gated.
pub proof fn lemma_execution_gated(g: Gate, ev: GateEvent)
    requires
        g.wf(),
        g.event_fits(ev),
    ensures
        dispositional(spec_step(g, ev).1) ==> (g.opts.enforce_policy ==> spec_step(
            g,
            ev,
        ).0.verdict == Some(Verdict::VerifiedOk)),
        spec_step(g, ev).1 is Run ==> g.opts.disposition is Execute,
{
}

/// Exactly one disposition is issued per invocation: the transition
/// function preserves the invariant, and it emits a dispositional action
/// only once, moving the instance from undisposed to disposed.
pub proof fn lemma_single_disposition(g: Gate, ev: GateEvent)
    requires
        g.wf(),
        g.event_fits(ev),
    ensures
        spec_step(g, ev).0.wf(),
        dispositional(spec_step(g, ev).1) ==> !g.disposed && spec_step(g, ev).0.disposed,
{
}

/// The process exit status for an outcome: the child's own code when a
/// script was executed and completed; otherwise distinct nonzero codes so
/// that a caller can tell untrusted content apart from trusted content
/// that failed to run — configuration conflicts, fetch failures, policy
/// failures, and execution failures each map to their own status.
pub open spec fn spec_exit_code(o: GateOutcome) -> i32 {
    match o {
        GateOutcome::Completed(c) => c,
        GateOutcome::Failed(e) => match e {
            GateError::ConfigConflict => 2,
            GateError::InvalidReference => 3,
            GateError::FetchNotFound => 3,
            GateError::FetchNetwork => 3,
            GateError::MediaTypeMismatch => 3,
            GateError::PolicyParse(err) => 4,
            GateError::PolicyExpired => 4,
            GateError::UnknownRole => 4,
            GateError::InsufficientSignatures { have, need } => 4,
            GateError::LaunchError => 5,
            GateError::IoError => 5,
        },
    }
}

/// The process exit status for an outcome.
pub fn exit_code(o: &GateOutcome) -> (r: i32)
    ensures
        r == spec_exit_code(*o),
{
    match o {
        GateOutcome::Completed(c) => *c,
        GateOutcome::Failed(e) => match e {
            GateError::ConfigConflict => 2,
            GateError::InvalidReference => 3,
            GateError::FetchNotFound => 3,
            GateError::FetchNetwork => 3,
            GateError::MediaTypeMismatch => 3,
            GateError::PolicyParse(_) => 4,
            GateError::PolicyExpired => 4,
            GateError::UnknownRole => 4,
            GateError::InsufficientSignatures { .. } => 4,
            GateError::LaunchError => 5,
            GateError::IoError => 5,
        },
    }
}

} // verus!

