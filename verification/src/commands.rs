//! Fail-fast dispatch of one logical command across an ordered list
//! of stacks: the library builds every invocation and decides after
//! each reported outcome whether to go on; the surrounding program
//! spawns the processes.
use vstd::prelude::*;

verus! {

use crate::config::Config;
use crate::config::ConfigView;
use crate::config::Stack;
use crate::config::StackView;
use crate::error::Error;
use crate::error::ErrorView;
use crate::exec::ExecOptions;
use crate::exec::ExecOptionsView;
use crate::exec::base_options;
use crate::exec::full_args;
use crate::exec::stack_options;

impl DeepView for ExecOptions {
    type V = ExecOptionsView;

    open spec fn deep_view(&self) -> ExecOptionsView {
        self.view()
    }
}

/// What the process-spawn collaborator reports for one invocation.
pub enum SpawnOutcome {
    /// The child process ran to completion: `success` is whether it
    /// exited with status zero, `status` its rendered exit status.
    Exited { success: bool, status: String },
    /// The child process could not be started at all.
    Failed { message: String },
}

/// The per-stack invocations for one logical command, in execution
/// order.
pub open spec fn planned_options(
    cv: ConfigView,
    command: Seq<char>,
    stacks: Seq<StackView>,
    args: Seq<Seq<char>>,
) -> Seq<ExecOptionsView> {
    Seq::new(stacks.len(), |i: int| stack_options(base_options(cv, command, args), stacks[i]))
}

/// A batch of invocations dispatched one at a time with fail-fast
/// semantics: once an outcome is anything but a clean exit, no
/// further invocation is handed out.
pub struct Dispatch {
    invocations: Vec<ExecOptions>,
    next: usize,
    failure: Option<Error>,
}

/// The mathematical value of a batch.
pub ghost struct DispatchView {
    pub invocations: Seq<ExecOptionsView>,
    pub next: int,
    pub failure: Option<ErrorView>,
}

impl View for Dispatch {
    type V = DispatchView;

    closed spec fn view(&self) -> DispatchView {
        DispatchView {
            invocations: self.invocations.deep_view(),
            next: self.next as int,
            failure: match self.failure {
                Some(e) => Some(e@),
                None => None,
            },
        }
    }
}

impl DispatchView {
    /// The batch is in a sensible state: the cursor is inside the
    /// list and every invocation has a program to spawn.
    pub open spec fn wf(self) -> bool {
        &&& 0 <= self.next <= self.invocations.len()
        &&& forall|i: int|
            0 <= i < self.invocations.len() ==> (#[trigger] self.invocations[i]).binary.len() >= 1
    }
}

impl Dispatch {
    /// The invocation to run next; nothing once the batch is done or
    /// has failed fast.
    pub fn current(&self) -> (r: Option<&ExecOptions>)
        requires
            self@.wf(),
        ensures
            match r {
                Some(o) => self@.failure is None && self@.next < self@.invocations.len() && o@
                    == self@.invocations[self@.next],
                None => self@.failure is Some || self@.next == self@.invocations.len(),
            },
    {
        match &self.failure {
            Some(_) => None,
            None => {
                if self.next < self.invocations.len() {
                    Some(&self.invocations[self.next])
                } else {
                    None
                }
            },
        }
    }

    /// Records the collaborator's outcome for the current invocation:
    /// a clean exit advances to the next stack, anything else stops
    /// the batch with the error describing this invocation.
    pub fn record(&mut self, outcome: SpawnOutcome)
        requires
            old(self)@.wf(),
            old(self)@.failure is None,
            old(self)@.next < old(self)@.invocations.len(),
        ensures
            final(self)@.wf(),
            final(self)@.invocations == old(self)@.invocations,
            match outcome {
                SpawnOutcome::Exited { success, status } => {
                    if success {
                        final(self)@.next == old(self)@.next + 1 && final(self)@.failure is None
                    } else {
                        final(self)@.next == old(self)@.next && final(self)@.failure == Some(
                            ErrorView::NonZeroExit {
                                program: old(self)@.invocations[old(self)@.next].binary[0],
                                args: full_args(old(self)@.invocations[old(self)@.next]),
                                status: status@,
                            },
                        )
                    }
                },
                SpawnOutcome::Failed { message } => {
                    &&& final(self)@.next == old(self)@.next
                    &&& final(self)@.failure == Some(ErrorView::SpawnError { message: message@ })
                },
            },
    {
        let n = self.invocations.len();
        proof {
            assert(self.invocations.deep_view().len() == n as int);
            assert(self.invocations.deep_view()[self.next as int] == self.invocations@[self.next as int]@);
        }
        match outcome {
            SpawnOutcome::Exited { success, status } => {
                if success {
                    self.next = self.next + 1;
                } else {
                    let program = self.invocations[self.next].program().clone();
                    let args = self.invocations[self.next].args();
                    self.failure = Some(Error::NonZeroExit { program, args, status });
                }
            },
            SpawnOutcome::Failed { message } => {
                self.failure = Some(Error::SpawnError { message });
            },
        }
    }

    /// The batch's verdict so far: the error of the failed invocation,
    /// or success.
    pub fn result(&self) -> (r: Result<(), Error>)
        ensures
            match r {
                Ok(_) => self@.failure is None,
                Err(e) => self@.failure == Some(e@),
            },
    {
        match &self.failure {
            None => Ok(()),
            Some(e) => Err(e.clone()),
        }
    }
}

impl Dispatch {
    /// Joins two batches that have not started into one: with
    /// fail-fast dispatch, running the combined batch runs the second
    /// part only if every invocation of the first succeeded.
    pub fn chain(self, other: Dispatch) -> (r: Dispatch)
        requires
            self@.wf(),
            other@.wf(),
            self@.next == 0,
            other@.next == 0,
            self@.failure is None,
            other@.failure is None,
        ensures
            r@.wf(),
            r@.next == 0,
            r@.failure is None,
            r@.invocations == self@.invocations + other@.invocations,
    {
        let ghost a = self@.invocations;
        let ghost b = other@.invocations;
        let mut invocations = self.invocations;
        let mut tail = other.invocations;
        invocations.append(&mut tail);
        proof {
            assert(invocations.deep_view() =~= a + b);
        }
        Dispatch { invocations, next: 0, failure: None }
    }
}

/// Builds the fail-fast batch that runs subcommand `command` against
/// the given stacks in order, each with its specialized invocation.
pub fn run_against_stacks(
    command: &str,
    config: &Config,
    stacks: &Vec<Stack>,
    args: &Vec<String>,
) -> (r: Dispatch)
    requires
        config@.command.len() >= 1,
    ensures
        r@.wf(),
        r@.next == 0,
        r@.failure is None,
        r@.invocations == planned_options(
            config@,
            command@,
            stacks.deep_view(),
            args.deep_view(),
        ),
{
    let ghost planned = planned_options(config@, command@, stacks.deep_view(), args.deep_view());
    let base = ExecOptions::new(config, command, args);
    let mut invocations: Vec<ExecOptions> = Vec::new();
    let mut i: usize = 0;
    while i < stacks.len()
        invariant
            planned == planned_options(
                config@,
                command@,
                stacks.deep_view(),
                args.deep_view(),
            ),
            base@ == base_options(config@, command@, args.deep_view()),
            i <= stacks@.len(),
            planned.len() == stacks@.len(),
            invocations.deep_view() == planned.subrange(0, i as int),
        decreases stacks@.len() - i,
    {
        let ghost prev = invocations.deep_view();
        let o = base.with_stack(&stacks[i]);
        invocations.push(o);
        proof {
            assert(invocations.deep_view() =~= prev.push(o@));
            assert(prev.push(o@) =~= planned.subrange(0, i + 1));
        }
        i = i + 1;
    }
    proof {
        assert(invocations.deep_view() =~= planned);
        assert(config@.command == base@.binary);
        assert(forall|w: int| 0 <= w < planned.len() ==> (#[trigger] planned[w]).binary.len()
            >= 1);
    }
    Dispatch { invocations, next: 0, failure: None }
}

} // verus!
