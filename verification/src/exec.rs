//! Composition of the concrete external-process invocation: program,
//! argument list, environment and working directory, specialized per
//! stack.
use vstd::prelude::*;

verus! {

use vstd::string::StringExecFns;
use crate::config::Config;
use crate::config::ConfigView;
use crate::config::Stack;
use crate::config::StackView;
use crate::config::resolved_directory;
use crate::text::clone_pairs;
use crate::text::clone_strings;

/// One fully-resolved external-process invocation.
pub struct ExecOptions {
    /// The external program and its fixed leading arguments.
    pub binary: Vec<String>,
    /// Arguments standing between the template and the subcommand,
    /// such as the project scope of one stack.
    pub global_args: Vec<String>,
    /// The subcommand to run.
    pub command: String,
    /// Trailing arguments placed after the subcommand.
    pub args: Vec<String>,
    /// Environment variables for the child process; later entries win
    /// on key collisions.
    pub environment: Vec<(String, String)>,
    /// Working directory of the child process.
    pub working_dir: String,
}

/// The mathematical value of an invocation.
pub ghost struct ExecOptionsView {
    pub binary: Seq<Seq<char>>,
    pub global_args: Seq<Seq<char>>,
    pub command: Seq<char>,
    pub args: Seq<Seq<char>>,
    pub environment: Seq<(Seq<char>, Seq<char>)>,
    pub working_dir: Seq<char>,
}

impl View for ExecOptions {
    type V = ExecOptionsView;

    open spec fn view(&self) -> ExecOptionsView {
        ExecOptionsView {
            binary: self.binary.deep_view(),
            global_args: self.global_args.deep_view(),
            command: self.command@,
            args: self.args.deep_view(),
            environment: self.environment.deep_view(),
            working_dir: self.working_dir@,
        }
    }
}

/// The mapping an environment entry list denotes: later entries win.
pub open spec fn env_map(entries: Seq<(Seq<char>, Seq<char>)>) -> Map<Seq<char>, Seq<char>>
    decreases entries.len(),
{
    if entries.len() == 0 {
        Map::empty()
    } else {
        env_map(entries.drop_last()).insert(entries.last().0, entries.last().1)
    }
}

/// Concatenating two environment entry lists merges their mappings,
/// the second list winning on every key collision.
pub proof fn lemma_env_map_concat(a: Seq<(Seq<char>, Seq<char>)>, b: Seq<(Seq<char>, Seq<char>)>)
    ensures
        env_map(a + b) == env_map(a).union_prefer_right(env_map(b)),
    decreases b.len(),
{
    if b.len() == 0 {
        assert(a + b =~= a);
        assert(env_map(a).union_prefer_right(env_map(b)) =~= env_map(a));
    } else {
        lemma_env_map_concat(a, b.drop_last());
        assert((a + b).drop_last() =~= a + b.drop_last());
        assert((a + b).last() == b.last());
        assert(env_map(a).union_prefer_right(env_map(b)) =~= env_map(a).union_prefer_right(
            env_map(b.drop_last()),
        ).insert(b.last().0, b.last().1));
    }
}

/// The base invocation for running subcommand `command` with trailing
/// `args` under a configuration, shared by every target stack.
pub open spec fn base_options(cv: ConfigView, command: Seq<char>, args: Seq<Seq<char>>) -> ExecOptionsView {
    ExecOptionsView {
        binary: cv.command,
        global_args: Seq::empty(),
        command: command,
        args: args,
        environment: cv.environment,
        working_dir: cv.base_dir,
    }
}

/// The invocation specialized to one stack: project scope flag and
/// stack name appended, working directory resolved, and the stack's
/// environment merged over the base environment.
pub open spec fn stack_options(base: ExecOptionsView, s: StackView) -> ExecOptionsView {
    ExecOptionsView {
        global_args: base.global_args + seq!["-p"@, s.name],
        environment: base.environment + s.environment,
        working_dir: resolved_directory(s, base.working_dir),
        ..base
    }
}

/// The full argument list after the program: the template remainder,
/// the per-stack arguments, the subcommand, then the trailing
/// arguments.
pub open spec fn full_args(o: ExecOptionsView) -> Seq<Seq<char>> {
    o.binary.skip(1) + o.global_args + seq![o.command] + o.args
}

impl ExecOptions {
    /// The base options for one logical command invocation.
    pub fn new(config: &Config, command: &str, args: &Vec<String>) -> (r: Self)
        ensures
            r@ == base_options(config@, command@, args.deep_view()),
    {
        let r = ExecOptions {
            binary: clone_strings(&config.command),
            global_args: Vec::new(),
            command: command.to_owned(),
            args: clone_strings(args),
            environment: clone_pairs(&config.environment),
            working_dir: config.base_dir.clone(),
        };
        proof {
            assert(r@.binary =~~= config@.command);
            assert(r@.global_args =~~= Seq::<Seq<char>>::empty());
            assert(r@.args =~~= args.deep_view());
            assert(r@.environment =~~= config@.environment);
        }
        r
    }

    /// The options specialized to one stack.
    pub fn with_stack(&self, stack: &Stack) -> (r: Self)
        ensures
            r@ == stack_options(self@, stack@),
    {
        let mut global_args = clone_strings(&self.global_args);
        global_args.push("-p".to_owned());
        global_args.push(stack.name.clone());
        let mut environment = clone_pairs(&self.environment);
        let mut stack_env = clone_pairs(&stack.environment);
        environment.append(&mut stack_env);
        let working_dir = stack.directory(&self.working_dir);
        let r = ExecOptions {
            binary: clone_strings(&self.binary),
            global_args,
            command: self.command.clone(),
            args: clone_strings(&self.args),
            environment,
            working_dir,
        };
        proof {
            assert(r@.binary =~~= self@.binary);
            assert(r@.args =~~= self@.args);
            assert(r@.global_args =~~= self@.global_args + seq!["-p"@, stack@.name]);
            assert(r@.environment =~~= self@.environment + stack@.environment);
        }
        r
    }

    /// The program to spawn: the first token of the template.
    pub fn program(&self) -> (r: &String)
        requires
            self@.binary.len() >= 1,
        ensures
            r@ == self@.binary[0],
    {
        &self.binary[0]
    }

    /// The full argument list placed after the program.
    pub fn args(&self) -> (r: Vec<String>)
        requires
            self@.binary.len() >= 1,
        ensures
            r.deep_view() == full_args(self@),
    {
        let mut r: Vec<String> = Vec::new();
        let mut i: usize = 1;
        while i < self.binary.len()
            invariant
                1 <= i <= self.binary@.len() || (self.binary@.len() < 1 && i == 1),
                self@.binary.len() == self.binary@.len(),
                r.deep_view() == self@.binary.subrange(1, if i <= self.binary@.len() {
                    i as int
                } else {
                    1int
                }),
            decreases self.binary@.len() - i,
        {
            let ghost prev = r.deep_view();
            r.push(self.binary[i].clone());
            proof {
                assert(r.deep_view() =~= prev.push(self@.binary[i as int]));
                assert(prev.push(self@.binary[i as int]) =~= self@.binary.subrange(1, i + 1));
            }
            i = i + 1;
        }
        proof {
            assert(r.deep_view() =~= self@.binary.skip(1));
        }
        let ghost part1 = r.deep_view();
        let mut j: usize = 0;
        while j < self.global_args.len()
            invariant
                j <= self.global_args@.len(),
                self@.global_args.len() == self.global_args@.len(),
                r.deep_view() == part1 + self@.global_args.subrange(0, j as int),
            decreases self.global_args@.len() - j,
        {
            let ghost prev = r.deep_view();
            r.push(self.global_args[j].clone());
            proof {
                assert(r.deep_view() =~= prev.push(self@.global_args[j as int]));
                assert(prev.push(self@.global_args[j as int]) =~= part1
                    + self@.global_args.subrange(0, j + 1));
            }
            j = j + 1;
        }
        proof {
            assert(r.deep_view() =~= part1 + self@.global_args);
        }
        let ghost part2 = r.deep_view();
        r.push(self.command.clone());
        proof {
            assert(r.deep_view() =~= part2 + seq![self@.command]);
        }
        let ghost part3 = r.deep_view();
        let mut t: usize = 0;
        while t < self.args.len()
            invariant
                t <= self.args@.len(),
                self@.args.len() == self.args@.len(),
                r.deep_view() == part3 + self@.args.subrange(0, t as int),
            decreases self.args@.len() - t,
        {
            let ghost prev = r.deep_view();
            r.push(self.args[t].clone());
            proof {
                assert(r.deep_view() =~= prev.push(self@.args[t as int]));
                assert(prev.push(self@.args[t as int]) =~= part3 + self@.args.subrange(0, t + 1));
            }
            t = t + 1;
        }
        proof {
            assert(r.deep_view() =~= part3 + self@.args);
            assert(r.deep_view() =~= full_args(self@));
        }
        r
    }
}

} // verus!
