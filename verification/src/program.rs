//! The command surface: the stack selection argument, the lifecycle
//! commands, and the policy table mapping each command to its closure,
//! its ordering and its invocation batch.
use vstd::prelude::*;

verus! {

use vstd::string::StrSliceExecFns;
use crate::commands::Dispatch;
use crate::commands::planned_options;
use crate::commands::run_against_stacks;
use crate::config::Config;
use crate::config::ConfigView;
use crate::config::StackView;
use crate::config::backward_ordering;
use crate::config::clone_stacks;
use crate::config::contains_stack_key;
use crate::config::forward_ordering;
use crate::config::has_key;
use crate::config::key_listed;
use crate::config::selected_stacks;
use crate::error::Error;
use crate::text::clone_strings;
use crate::text::split_commas;
use crate::text::split_on_commas;

/// Reverses a list; used to turn a dependency order into a teardown
/// order.
pub fn reverse<T>(items: Vec<T>) -> (r: Vec<T>)
    ensures
        r@ == items@.reverse(),
{
    let mut out: Vec<T> = Vec::new();
    let mut rest = items;
    while rest.len() > 0
        invariant
            out@ + rest@.reverse() == items@.reverse(),
        decreases rest@.len(),
    {
        let ghost prev = rest@;
        let x = rest.pop().unwrap();
        proof {
            assert(prev =~= rest@.push(x));
            assert(prev.reverse() =~= seq![x] + rest@.reverse());
            assert(out@ + (seq![x] + rest@.reverse()) =~= (out@ + seq![x]) + rest@.reverse());
            assert(out@ + seq![x] =~= out@.push(x));
        }
        out.push(x);
    }
    proof {
        assert(out@ + rest@.reverse() =~= out@);
    }
    out
}

// --------------------------------------------------------- the selection
/// The names a raw selection denotes: none (meaning all stacks) when
/// it is absent, empty or the wildcard, else the comma-split names.
pub open spec fn selection_names(sel: Option<Seq<char>>) -> Seq<Seq<char>> {
    match sel {
        None => Seq::empty(),
        Some(s) => if s.len() == 0 || s == "*"@ {
            Seq::empty()
        } else {
            split_commas(s)
        },
    }
}

/// The stack selection every command receives: a comma separated list
/// of stack names, where absence, emptiness or `*` means all stacks.
pub struct GlobalArguments {
    stacks: Option<String>,
}

impl View for GlobalArguments {
    type V = Option<Seq<char>>;

    closed spec fn view(&self) -> Option<Seq<char>> {
        self.stacks.deep_view()
    }
}

fn is_star(s: &String) -> (r: bool)
    ensures
        r == (s@ == "*"@),
{
    proof {
        reveal_strlit("*");
    }
    if s.as_str().unicode_len() == 1 {
        let c = s.as_str().get_char(0);
        proof {
            if c == '*' {
                assert(s@ =~= "*"@);
            }
        }
        c == '*'
    } else {
        false
    }
}

impl GlobalArguments {
    /// Wraps the raw selection, if one was given.
    pub fn new(stacks: Option<String>) -> (r: Self)
        ensures
            r@ == stacks.deep_view(),
    {
        GlobalArguments { stacks }
    }

    /// The requested stack names; empty means every stack.
    pub fn stacks(&self) -> (r: Vec<String>)
        ensures
            r.deep_view() == selection_names(self@),
    {
        match &self.stacks {
            None => {
                let r: Vec<String> = Vec::new();
                proof {
                    assert(r.deep_view() =~= selection_names(self@));
                }
                r
            },
            Some(s) => {
                if s.as_str().is_empty() || is_star(s) {
                    let r: Vec<String> = Vec::new();
                    proof {
                        assert(r.deep_view() =~= selection_names(self@));
                    }
                    r
                } else {
                    split_on_commas(s.as_str())
                }
            },
        }
    }
}

// ------------------------------------------------------------- commands
/// The lifecycle commands, each carrying the arguments passed through
/// to the external program.
pub enum Commands {
    /// Build or rebuild services.
    Build { args: Vec<String> },
    /// Copy files between a service container and the filesystem.
    Cp { args: Vec<String> },
    /// Create containers for a service.
    Create { args: Vec<String> },
    /// Stop and remove containers and networks.
    Down { args: Vec<String> },
    /// Receive real time events from containers.
    Events { args: Vec<String> },
    /// Execute a command in a running container.
    Exec { args: Vec<String> },
    /// List images used by the created containers.
    Images { args: Vec<String> },
    /// Force stop service containers.
    Kill { args: Vec<String> },
    /// View output from containers.
    Logs { args: Vec<String> },
    /// Pause services.
    Pause { args: Vec<String> },
    /// Print the public port for a port binding.
    Port { args: Vec<String> },
    /// List containers.
    Ps { args: Vec<String> },
    /// Pull service images.
    Pull { args: Vec<String> },
    /// Push service images.
    Push { args: Vec<String> },
    /// Restart service containers.
    Restart { args: Vec<String> },
    /// Remove stopped service containers.
    Rm { args: Vec<String> },
    /// Run a one-off command on a service.
    Run { args: Vec<String> },
    /// Start services.
    Start { args: Vec<String> },
    /// Stop services.
    Stop { args: Vec<String> },
    /// Display the running processes.
    Top { args: Vec<String> },
    /// Unpause services.
    Unpause { args: Vec<String> },
    /// Create and start containers detached.
    Up { args: Vec<String> },
}

/// How a command selects and orders its target stacks.
pub ghost enum Policy {
    /// The plain selection in key order, no closure.
    Plain,
    /// The forward closure in dependency order.
    Forward,
    /// The forward closure in dependency order, with a forced wait
    /// flag prepended to the trailing arguments.
    ForcedWait,
    /// The backward closure, reversed into the teardown-safe order.
    Teardown,
    /// The plain selection, which must resolve to exactly one stack.
    Single,
    /// Teardown of the backward closure, then bring-up of the forward
    /// closure extended by whatever else was torn down.
    Restart,
}

/// The policy table: which closure, ordering and batch shape each
/// lifecycle command uses.
pub open spec fn policy_of(c: Commands) -> Policy {
    match c {
        Commands::Build { .. } => Policy::Plain,
        Commands::Cp { .. } => Policy::Single,
        Commands::Create { .. } => Policy::Forward,
        Commands::Down { .. } => Policy::Teardown,
        Commands::Events { .. } => Policy::Single,
        Commands::Exec { .. } => Policy::Single,
        Commands::Images { .. } => Policy::Plain,
        Commands::Kill { .. } => Policy::Teardown,
        Commands::Logs { .. } => Policy::Single,
        Commands::Pause { .. } => Policy::Teardown,
        Commands::Port { .. } => Policy::Single,
        Commands::Ps { .. } => Policy::Plain,
        Commands::Pull { .. } => Policy::Plain,
        Commands::Push { .. } => Policy::Plain,
        Commands::Restart { .. } => Policy::Restart,
        Commands::Rm { .. } => Policy::Teardown,
        Commands::Run { .. } => Policy::Single,
        Commands::Start { .. } => Policy::Single,
        Commands::Stop { .. } => Policy::Single,
        Commands::Top { .. } => Policy::Plain,
        Commands::Unpause { .. } => Policy::Forward,
        Commands::Up { .. } => Policy::ForcedWait,
    }
}

/// The subcommand each lifecycle command hands to the external
/// program.
pub open spec fn verb_of(c: Commands) -> Seq<char> {
    match c {
        Commands::Build { .. } => "build"@,
        Commands::Cp { .. } => "cp"@,
        Commands::Create { .. } => "create"@,
        Commands::Down { .. } => "down"@,
        Commands::Events { .. } => "events"@,
        Commands::Exec { .. } => "exec"@,
        Commands::Images { .. } => "images"@,
        Commands::Kill { .. } => "kill"@,
        Commands::Logs { .. } => "logs"@,
        Commands::Pause { .. } => "pause"@,
        Commands::Port { .. } => "port"@,
        Commands::Ps { .. } => "ps"@,
        Commands::Pull { .. } => "pull"@,
        Commands::Push { .. } => "push"@,
        Commands::Restart { .. } => "restart"@,
        Commands::Rm { .. } => "rm"@,
        Commands::Run { .. } => "run"@,
        Commands::Start { .. } => "start"@,
        Commands::Stop { .. } => "stop"@,
        Commands::Top { .. } => "top"@,
        Commands::Unpause { .. } => "unpause"@,
        Commands::Up { .. } => "up"@,
    }
}

/// The pass-through arguments of a command.
pub open spec fn args_of(c: Commands) -> Seq<Seq<char>> {
    match c {
        Commands::Build { args } => args.deep_view(),
        Commands::Cp { args } => args.deep_view(),
        Commands::Create { args } => args.deep_view(),
        Commands::Down { args } => args.deep_view(),
        Commands::Events { args } => args.deep_view(),
        Commands::Exec { args } => args.deep_view(),
        Commands::Images { args } => args.deep_view(),
        Commands::Kill { args } => args.deep_view(),
        Commands::Logs { args } => args.deep_view(),
        Commands::Pause { args } => args.deep_view(),
        Commands::Port { args } => args.deep_view(),
        Commands::Ps { args } => args.deep_view(),
        Commands::Pull { args } => args.deep_view(),
        Commands::Push { args } => args.deep_view(),
        Commands::Restart { args } => args.deep_view(),
        Commands::Rm { args } => args.deep_view(),
        Commands::Run { args } => args.deep_view(),
        Commands::Start { args } => args.deep_view(),
        Commands::Stop { args } => args.deep_view(),
        Commands::Top { args } => args.deep_view(),
        Commands::Unpause { args } => args.deep_view(),
        Commands::Up { args } => args.deep_view(),
    }
}

/// The stacks of `ds` (scanned in order) whose key is not already
/// listed in `fw`: what a restart tore down beyond what it brings up
/// through the forward closure.
pub open spec fn extras_upto(ds: Seq<StackView>, fw: Seq<StackView>, n: int) -> Seq<StackView>
    decreases n,
{
    if n <= 0 {
        Seq::empty()
    } else if key_listed(fw, ds[n - 1].key) {
        extras_upto(ds, fw, n - 1)
    } else {
        extras_upto(ds, fw, n - 1).push(ds[n - 1])
    }
}

/// What the batch of a command must hold, by policy class.
pub open spec fn plan_ok(
    c: Commands,
    cv: ConfigView,
    names: Seq<Seq<char>>,
    inv: Seq<crate::exec::ExecOptionsView>,
) -> bool {
    match policy_of(c) {
        Policy::Plain => inv == planned_options(cv, verb_of(c), selected_stacks(cv, names), args_of(c)),
        Policy::Single => selected_stacks(cv, names).len() == 1 && inv == planned_options(
            cv,
            verb_of(c),
            selected_stacks(cv, names),
            args_of(c),
        ),
        Policy::Forward => exists|fw: Seq<StackView>|
            #[trigger] forward_ordering(cv, names, fw) && inv == planned_options(
                cv,
                verb_of(c),
                fw,
                args_of(c),
            ),
        Policy::ForcedWait => exists|fw: Seq<StackView>|
            #[trigger] forward_ordering(cv, names, fw) && inv == planned_options(
                cv,
                verb_of(c),
                fw,
                seq!["--wait"@] + args_of(c),
            ),
        Policy::Teardown => exists|ds: Seq<StackView>|
            #[trigger] backward_ordering(cv, names, ds) && inv == planned_options(
                cv,
                verb_of(c),
                ds.reverse(),
                args_of(c),
            ),
        Policy::Restart => exists|ds: Seq<StackView>, fw: Seq<StackView>|
            #[trigger] backward_ordering(cv, names, ds) && #[trigger] forward_ordering(
                cv,
                names,
                fw,
            ) && inv == planned_options(cv, "down"@, ds.reverse(), args_of(c)) + planned_options(
                cv,
                "up"@,
                fw + extras_upto(ds, fw, ds.len() as int),
                seq!["--wait"@],
            ),
    }
}

impl Commands {
    /// Resolves the command's target stacks per the policy table and
    /// builds the fail-fast batch of invocations that runs it.
    pub fn run(&self, globals: &GlobalArguments, config: &Config) -> (r: Result<Dispatch, Error>)
        requires
            config@.well_formed(),
        ensures
            match r {
                Ok(d) => {
                    &&& d@.wf()
                    &&& d@.next == 0
                    &&& d@.failure is None
                    &&& plan_ok(*self, config@, selection_names(globals@), d@.invocations)
                },
                Err(e) => {
                    &&& (e@ is UnknownStack || e@ is StackCountError)
                    &&& (e@ is UnknownStack ==> !has_key(config@.stacks, e@->UnknownStack_name)
                        && selection_names(globals@).contains(e@->UnknownStack_name))
                    &&& (e@ is StackCountError ==> policy_of(*self) is Single
                        && e@->StackCountError_count == selected_stacks(
                        config@,
                        selection_names(globals@),
                    ).len() && e@->StackCountError_count != 1)
                },
            },
    {
        let names = globals.stacks();
        match self {
            Commands::Build { args } => {
                let stacks = match config.stacks(&names) {
                    Ok(v) => v,
                    Err(e) => {
                        return Err(e);
                    },
                };
                Ok(run_against_stacks("build", config, &stacks, args))
            },
            Commands::Cp { args } => {
                let stacks = match config.stack(&names) {
                    Ok(v) => v,
                    Err(e) => {
                        return Err(e);
                    },
                };
                Ok(run_against_stacks("cp", config, &stacks, args))
            },
            Commands::Create { args } => {
                let stacks = match config.stacks_with_dependencies(&names) {
                    Ok(v) => v,
                    Err(e) => {
                        return Err(e);
                    },
                };
                Ok(run_against_stacks("create", config, &stacks, args))
            },
            Commands::Down { args } => {
                let stacks = match config.stacks_with_dependants(&names) {
                    Ok(v) => v,
                    Err(e) => {
                        return Err(e);
                    },
                };
                let ghost ds = stacks.deep_view();
                let down = reverse(stacks);
                proof {
                    assert(down.deep_view() =~= ds.reverse());
                }
                Ok(run_against_stacks("down", config, &down, args))
            },
            Commands::Events { args } => {
                let stacks = match config.stack(&names) {
                    Ok(v) => v,
                    Err(e) => {
                        return Err(e);
                    },
                };
                Ok(run_against_stacks("events", config, &stacks, args))
            },
            Commands::Exec { args } => {
                let stacks = match config.stack(&names) {
                    Ok(v) => v,
                    Err(e) => {
                        return Err(e);
                    },
                };
                Ok(run_against_stacks("exec", config, &stacks, args))
            },
            Commands::Images { args } => {
                let stacks = match config.stacks(&names) {
                    Ok(v) => v,
                    Err(e) => {
                        return Err(e);
                    },
                };
                Ok(run_against_stacks("images", config, &stacks, args))
            },
            Commands::Kill { args } => {
                let stacks = match config.stacks_with_dependants(&names) {
                    Ok(v) => v,
                    Err(e) => {
                        return Err(e);
                    },
                };
                let ghost ds = stacks.deep_view();
                let down = reverse(stacks);
                proof {
                    assert(down.deep_view() =~= ds.reverse());
                }
                Ok(run_against_stacks("kill", config, &down, args))
            },
            Commands::Logs { args } => {
                let stacks = match config.stack(&names) {
                    Ok(v) => v,
                    Err(e) => {
                        return Err(e);
                    },
                };
                Ok(run_against_stacks("logs", config, &stacks, args))
            },
            Commands::Pause { args } => {
                let stacks = match config.stacks_with_dependants(&names) {
                    Ok(v) => v,
                    Err(e) => {
                        return Err(e);
                    },
                };
                let ghost ds = stacks.deep_view();
                let down = reverse(stacks);
                proof {
                    assert(down.deep_view() =~= ds.reverse());
                }
                Ok(run_against_stacks("pause", config, &down, args))
            },
            Commands::Port { args } => {
                let stacks = match config.stack(&names) {
                    Ok(v) => v,
                    Err(e) => {
                        return Err(e);
                    },
                };
                Ok(run_against_stacks("port", config, &stacks, args))
            },
            Commands::Ps { args } => {
                let stacks = match config.stacks(&names) {
                    Ok(v) => v,
                    Err(e) => {
                        return Err(e);
                    },
                };
                Ok(run_against_stacks("ps", config, &stacks, args))
            },
            Commands::Pull { args } => {
                let stacks = match config.stacks(&names) {
                    Ok(v) => v,
                    Err(e) => {
                        return Err(e);
                    },
                };
                Ok(run_against_stacks("pull", config, &stacks, args))
            },
            Commands::Push { args } => {
                let stacks = match config.stacks(&names) {
                    Ok(v) => v,
                    Err(e) => {
                        return Err(e);
                    },
                };
                Ok(run_against_stacks("push", config, &stacks, args))
            },
            Commands::Restart { args } => {
                let stacks = match config.stacks_with_dependants(&names) {
                    Ok(v) => v,
                    Err(e) => {
                        return Err(e);
                    },
                };
                let ghost ds = stacks.deep_view();
                let kept = clone_stacks(&stacks);
                let down = reverse(stacks);
                proof {
                    assert(down.deep_view() =~= ds.reverse());
                }
                let down_batch = run_against_stacks("down", config, &down, args);
                let fw = match config.stacks_with_dependencies(&names) {
                    Ok(v) => v,
                    Err(e) => {
                        return Err(e);
                    },
                };
                let ghost fwv = fw.deep_view();
                let mut up_stacks = fw;
                let mut i: usize = 0;
                proof {
                    assert(up_stacks.deep_view() =~= fwv + extras_upto(ds, fwv, 0));
                }
                while i < kept.len()
                    invariant
                        kept.deep_view() == ds,
                        i <= kept@.len(),
                        ds.len() == kept@.len(),
                        crate::config::distinct_keys(ds),
                        up_stacks.deep_view() == fwv + extras_upto(ds, fwv, i as int),
                    decreases kept@.len() - i,
                {
                    proof {
                        assert(kept.deep_view()[i as int] == kept@[i as int]@);
                    }
                    let ghost prev = up_stacks.deep_view();
                    if !contains_stack_key(&up_stacks, &kept[i].key) {
                        proof {
                            assert(!key_listed(prev, ds[i as int].key));
                            assert(!key_listed(fwv, ds[i as int].key)) by {
                                if key_listed(fwv, ds[i as int].key) {
                                    let q = choose|q: int|
                                        0 <= q < fwv.len() && (#[trigger] fwv[q]).key
                                            == ds[i as int].key;
                                    assert(prev[q].key == ds[i as int].key);
                                }
                            }
                        }
                        up_stacks.push(kept[i].clone());
                        proof {
                            assert(up_stacks.deep_view() =~= prev.push(ds[i as int]));
                            assert(prev.push(ds[i as int]) =~= fwv + extras_upto(
                                ds,
                                fwv,
                                i + 1,
                            ));
                        }
                    } else {
                        proof {
                            assert(key_listed(prev, ds[i as int].key));
                            let q = choose|q: int|
                                0 <= q < prev.len() && (#[trigger] prev[q]).key
                                    == ds[i as int].key;
                            assert(key_listed(fwv, ds[i as int].key)) by {
                                if q < fwv.len() {
                                    assert(fwv[q].key == ds[i as int].key);
                                } else {
                                    lemma_extras_elem(ds, fwv, i as int, q - fwv.len());
                                    let j = choose|j: int|
                                        0 <= j < i && #[trigger] extras_upto(ds, fwv, i as int)[q
                                            - fwv.len()] == ds[j];
                                    assert(ds[j].key == ds[i as int].key);
                                    assert(false);
                                }
                            }
                        }
                    }
                    i = i + 1;
                }
                let mut wait_args: Vec<String> = Vec::new();
                wait_args.push("--wait".to_owned());
                let up_batch = run_against_stacks("up", config, &up_stacks, &wait_args);
                proof {
                    assert(wait_args.deep_view() =~= seq!["--wait"@]);
                }
                Ok(down_batch.chain(up_batch))
            },
            Commands::Rm { args } => {
                let stacks = match config.stacks_with_dependants(&names) {
                    Ok(v) => v,
                    Err(e) => {
                        return Err(e);
                    },
                };
                let ghost ds = stacks.deep_view();
                let down = reverse(stacks);
                proof {
                    assert(down.deep_view() =~= ds.reverse());
                }
                Ok(run_against_stacks("rm", config, &down, args))
            },
            Commands::Run { args } => {
                let stacks = match config.stack(&names) {
                    Ok(v) => v,
                    Err(e) => {
                        return Err(e);
                    },
                };
                Ok(run_against_stacks("run", config, &stacks, args))
            },
            Commands::Start { args } => {
                let stacks = match config.stack(&names) {
                    Ok(v) => v,
                    Err(e) => {
                        return Err(e);
                    },
                };
                Ok(run_against_stacks("start", config, &stacks, args))
            },
            Commands::Stop { args } => {
                let stacks = match config.stack(&names) {
                    Ok(v) => v,
                    Err(e) => {
                        return Err(e);
                    },
                };
                Ok(run_against_stacks("stop", config, &stacks, args))
            },
            Commands::Top { args } => {
                let stacks = match config.stacks(&names) {
                    Ok(v) => v,
                    Err(e) => {
                        return Err(e);
                    },
                };
                Ok(run_against_stacks("top", config, &stacks, args))
            },
            Commands::Unpause { args } => {
                let stacks = match config.stacks_with_dependencies(&names) {
                    Ok(v) => v,
                    Err(e) => {
                        return Err(e);
                    },
                };
                Ok(run_against_stacks("unpause", config, &stacks, args))
            },
            Commands::Up { args } => {
                let stacks = match config.stacks_with_dependencies(&names) {
                    Ok(v) => v,
                    Err(e) => {
                        return Err(e);
                    },
                };
                let mut forced: Vec<String> = Vec::new();
                forced.push("--wait".to_owned());
                let mut rest = clone_strings(args);
                forced.append(&mut rest);
                proof {
                    assert(forced.deep_view() =~= seq!["--wait"@] + args.deep_view());
                }
                Ok(run_against_stacks("up", config, &stacks, &forced))
            },
        }
    }
}

/// Every extra of a restart is one of the first `n` torn-down stacks.
proof fn lemma_extras_elem(ds: Seq<StackView>, fw: Seq<StackView>, n: int, w: int)
    requires
        n <= ds.len(),
        0 <= w < extras_upto(ds, fw, n).len(),
    ensures
        exists|j: int| 0 <= j < n && #[trigger] extras_upto(ds, fw, n)[w] == ds[j],
    decreases n,
{
    if n > 0 {
        let prev = extras_upto(ds, fw, n - 1);
        if !key_listed(fw, ds[n - 1].key) {
            if w < prev.len() {
                lemma_extras_elem(ds, fw, n - 1, w);
                let j = choose|j: int| 0 <= j < n - 1 && #[trigger] prev[w] == ds[j];
                assert(extras_upto(ds, fw, n)[w] == ds[j]);
            } else {
                assert(extras_upto(ds, fw, n)[w] == ds[n - 1]);
            }
        } else {
            lemma_extras_elem(ds, fw, n - 1, w);
            let j = choose|j: int| 0 <= j < n - 1 && #[trigger] prev[w] == ds[j];
            assert(extras_upto(ds, fw, n)[w] == ds[j]);
        }
    }
}

} // verus!
