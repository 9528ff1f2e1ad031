//! The error kinds of the library, each carrying enough context to be
//! rendered as a single human-readable line.
use vstd::prelude::*;

verus! {

use vstd::string::StringExecFns;
use crate::text::clone_strings;
use crate::text::dec_rep;
use crate::text::join_spaces;
use crate::text::joined_spaces;
use crate::text::u64_to_dec;

/// Everything that can go wrong: the first three are found once when
/// the configuration is loaded, the fourth when a single-stack command
/// resolves to the wrong number of stacks, and the last two while
/// dispatching external processes.
#[derive(Debug)]
pub enum Error {
    /// A requested name is not a configured stack key.
    UnknownStack { name: String },
    /// A declared dependency key does not exist in the stack set.
    DanglingDependency { key: String },
    /// The declared dependencies contain a directed cycle; the named
    /// edge lies on one.
    DependencyCycle { from: String, to: String },
    /// A single-stack command resolved to zero or several stacks.
    StackCountError { count: usize },
    /// The external program could not be started at all.
    SpawnError { message: String },
    /// The external program ran and exited with a failing status.
    NonZeroExit { program: String, args: Vec<String>, status: String },
}

/// The mathematical value of an `Error`: every string replaced by its
/// sequence of characters.
pub ghost enum ErrorView {
    UnknownStack { name: Seq<char> },
    DanglingDependency { key: Seq<char> },
    DependencyCycle { from: Seq<char>, to: Seq<char> },
    StackCountError { count: nat },
    SpawnError { message: Seq<char> },
    NonZeroExit { program: Seq<char>, args: Seq<Seq<char>>, status: Seq<char> },
}

impl View for Error {
    type V = ErrorView;

    open spec fn view(&self) -> ErrorView {
        match self {
            Error::UnknownStack { name } => ErrorView::UnknownStack { name: name@ },
            Error::DanglingDependency { key } => ErrorView::DanglingDependency { key: key@ },
            Error::DependencyCycle { from, to } => ErrorView::DependencyCycle {
                from: from@,
                to: to@,
            },
            Error::StackCountError { count } => ErrorView::StackCountError {
                count: *count as nat,
            },
            Error::SpawnError { message } => ErrorView::SpawnError { message: message@ },
            Error::NonZeroExit { program, args, status } => ErrorView::NonZeroExit {
                program: program@,
                args: args.deep_view(),
                status: status@,
            },
        }
    }
}

/// The human-readable line for each error kind.
pub open spec fn error_message(e: ErrorView) -> Seq<char> {
    match e {
        ErrorView::UnknownStack { name } => "unknown stack \""@ + name + "\""@,
        ErrorView::DanglingDependency { key } => "invalid dependency: \""@ + key
            + "\" is not a known stack"@,
        ErrorView::DependencyCycle { from, to } => "invalid dependency cycle: \""@ + from
            + "\" cannot depend on \""@ + to + "\""@,
        ErrorView::StackCountError { count } => "Only one stack can be used but "@ + dec_rep(count)
            + " were provided."@,
        ErrorView::SpawnError { message } => "Error running docker compose: "@ + message,
        ErrorView::NonZeroExit { program, args, status } => "Error running command `"@ + program
            + " "@ + joined_spaces(args) + "`: "@ + status,
    }
}

impl Error {
    /// Renders this error as its single human-readable line.
    pub fn message(&self) -> (r: String)
        ensures
            r@ == error_message(self@),
    {
        match self {
            Error::UnknownStack { name } => {
                let mut s = "unknown stack \"".to_owned();
                s.append(name.as_str());
                s.append("\"");
                s
            },
            Error::DanglingDependency { key } => {
                let mut s = "invalid dependency: \"".to_owned();
                s.append(key.as_str());
                s.append("\" is not a known stack");
                s
            },
            Error::DependencyCycle { from, to } => {
                let mut s = "invalid dependency cycle: \"".to_owned();
                s.append(from.as_str());
                s.append("\" cannot depend on \"");
                s.append(to.as_str());
                s.append("\"");
                s
            },
            Error::StackCountError { count } => {
                let mut s = "Only one stack can be used but ".to_owned();
                let n = u64_to_dec(*count as u64);
                s.append(n.as_str());
                s.append(" were provided.");
                s
            },
            Error::SpawnError { message } => {
                let mut s = "Error running docker compose: ".to_owned();
                s.append(message.as_str());
                s
            },
            Error::NonZeroExit { program, args, status } => {
                let mut s = "Error running command `".to_owned();
                s.append(program.as_str());
                s.append(" ");
                let joined = join_spaces(args);
                s.append(joined.as_str());
                s.append("`: ");
                s.append(status.as_str());
                s
            },
        }
    }
}

impl Clone for Error {
    /// A clone of an error has the same mathematical value.
    fn clone(&self) -> (r: Self)
        ensures
            r@ == self@,
    {
        match self {
            Error::UnknownStack { name } => Error::UnknownStack { name: name.clone() },
            Error::DanglingDependency { key } => Error::DanglingDependency { key: key.clone() },
            Error::DependencyCycle { from, to } => Error::DependencyCycle {
                from: from.clone(),
                to: to.clone(),
            },
            Error::StackCountError { count } => Error::StackCountError { count: *count },
            Error::SpawnError { message } => Error::SpawnError { message: message.clone() },
            Error::NonZeroExit { program, args, status } => {
                let a = clone_strings(args);
                proof {
                    assert(a.deep_view() =~= args.deep_view());
                }
                Error::NonZeroExit { program: program.clone(), args: a, status: status.clone() }
            },
        }
    }
}

} // verus!
