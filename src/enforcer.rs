use vstd::prelude::*;
use crate::program::{CompiledProgram, Instruction};

verus! {

/// Where the process stands with respect to its filter.
#[derive(Clone, Copy, PartialEq, Eq, Debug, Structural)]
pub enum Phase {
    /// No filter has been handed to the kernel yet.
    Unsandboxed,
    /// A filter has been handed out for installation; its outcome is awaited.
    Pending,
    /// The filter is in force on every thread.
    Sandboxed,
    /// Installation failed; the process must not go on serving.
    Failed,
}

#[derive(Clone, Copy, PartialEq, Eq, Debug, Structural)]
pub enum EnforceError {
    KernelRejected,
    PartialApplication,
    AlreadyInstalled,
}

/// What the kernel reported for an installation request.
#[derive(Clone, Copy, PartialEq, Eq, Debug, Structural)]
pub enum KernelOutcome {
    Applied,
    Rejected,
    PartiallyApplied,
}

impl KernelOutcome {
    /// Reads the status of an install call made with thread synchronisation: zero on success,
    /// negative when the kernel refused the filter, and otherwise the id of a thread that could
    /// not be brought under it.
    pub fn from_status(status: i64) -> (r: KernelOutcome)
        ensures
            status == 0 ==> r == KernelOutcome::Applied,
            status < 0 ==> r == KernelOutcome::Rejected,
            status > 0 ==> r == KernelOutcome::PartiallyApplied,
    {
        if status == 0 {
            KernelOutcome::Applied
        } else if status < 0 {
            KernelOutcome::Rejected
        } else {
            KernelOutcome::PartiallyApplied
        }
    }
}

/// The state of an enforcer: its phase and the filter in force (empty when none is).
pub struct EnforcerState {
    pub phase: Phase,
    pub active: Seq<Instruction>,
}

pub open spec fn initial_state() -> EnforcerState {
    EnforcerState { phase: Phase::Unsandboxed, active: Seq::empty() }
}

/// Asking to install `program`: only the first request is accepted.
pub open spec fn begin_step(s: EnforcerState, program: Seq<Instruction>) -> (EnforcerState, Result<
    Seq<Instruction>,
    EnforceError,
>) {
    if s.phase == Phase::Unsandboxed {
        (EnforcerState { phase: Phase::Pending, active: program }, Ok(program))
    } else {
        (s, Err(EnforceError::AlreadyInstalled))
    }
}

/// Recording what the kernel did with a pending request.
pub open spec fn finish_step(s: EnforcerState, outcome: KernelOutcome) -> (EnforcerState, Result<
    (),
    EnforceError,
>) {
    match outcome {
        KernelOutcome::Applied => (EnforcerState { phase: Phase::Sandboxed, active: s.active }, Ok(())),
        KernelOutcome::Rejected => (
            EnforcerState { phase: Phase::Failed, active: Seq::empty() },
            Err(EnforceError::KernelRejected),
        ),
        KernelOutcome::PartiallyApplied => (
            EnforcerState { phase: Phase::Failed, active: Seq::empty() },
            Err(EnforceError::PartialApplication),
        ),
    }
}

/// Installs a compiled filter once per process; takes ownership of the program.
pub struct Enforcer {
    phase: Phase,
    active: Option<CompiledProgram>,
}

impl View for Enforcer {
    type V = EnforcerState;

    closed spec fn view(&self) -> EnforcerState {
        EnforcerState {
            phase: self.phase,
            active: match self.active {
                Some(p) => p@,
                None => Seq::empty(),
            },
        }
    }
}

impl Enforcer {
    pub fn new() -> (r: Enforcer)
        ensures
            r@ == initial_state(),
    {
        Enforcer { phase: Phase::Unsandboxed, active: None }
    }

    pub fn phase(&self) -> (r: Phase)
        ensures
            r == self@.phase,
    {
        self.phase
    }

    /// Takes the program for installation and returns the instructions to hand to the kernel;
    /// refuses every request after the first.
    pub fn begin_install(&mut self, program: CompiledProgram) -> (r: Result<
        Vec<Instruction>,
        EnforceError,
    >)
        ensures
            final(self)@ == begin_step(old(self)@, program@).0,
            match r {
                Ok(v) => begin_step(old(self)@, program@).1 == Ok::<
                    Seq<Instruction>,
                    EnforceError,
                >(v@),
                Err(e) => begin_step(old(self)@, program@).1 == Err::<
                    Seq<Instruction>,
                    EnforceError,
                >(e),
            },
    {
        if self.phase != Phase::Unsandboxed {
            return Err(EnforceError::AlreadyInstalled);
        }
        let src = program.instructions();
        let mut out: Vec<Instruction> = Vec::new();
        let mut i: usize = 0;
        while i < src.len()
            invariant
                i <= src@.len(),
                out@ == src@.take(i as int),
            decreases src@.len() - i,
        {
            out.push(src[i]);
            assert(src@.take(i as int).push(src@[i as int]) =~= src@.take(i as int + 1));
            i = i + 1;
        }
        assert(src@.take(i as int) =~= src@);
        self.phase = Phase::Pending;
        self.active = Some(program);
        Ok(out)
    }

    /// Records the kernel's answer to the pending request.
    pub fn finish_install(&mut self, outcome: KernelOutcome) -> (r: Result<(), EnforceError>)
        requires
            old(self)@.phase == Phase::Pending,
        ensures
            (final(self)@, r) == finish_step(old(self)@, outcome),
    {
        match outcome {
            KernelOutcome::Applied => {
                self.phase = Phase::Sandboxed;
                Ok(())
            },
            KernelOutcome::Rejected => {
                self.phase = Phase::Failed;
                self.active = None;
                Err(EnforceError::KernelRejected)
            },
            KernelOutcome::PartiallyApplied => {
                self.phase = Phase::Failed;
                self.active = None;
                Err(EnforceError::PartialApplication)
            },
        }
    }
}

/// Once a first installation has been requested and answered, whatever the answer, a second
/// request fails and leaves the filter in force as it was: it is never widened.
pub proof fn lemma_second_install_rejected(
    first: Seq<Instruction>,
    second: Seq<Instruction>,
    outcome: KernelOutcome,
)
    ensures
        ({
            let s1 = begin_step(initial_state(), first).0;
            let s2 = finish_step(s1, outcome).0;
            let (s3, r) = begin_step(s2, second);
            &&& r == Err::<Seq<Instruction>, EnforceError>(EnforceError::AlreadyInstalled)
            &&& s3 == s2
            &&& s3.active == first || s3.active.len() == 0
        }),
{
}

} // verus!
