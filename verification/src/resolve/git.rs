//! Fetching a package from a git repository, for the `git = "..."` table form of a
//! dependency.
use vstd::prelude::*;

use crate::text::{
    concat4, deep, join, joined, split_at_last, split_last, strip_prefix, trim, trimmed,
    without_prefix,
};

verus! {

/// Why a git repository cannot be fetched.
#[derive(Debug, PartialEq, Eq)]
pub enum GitError {
    /// The `git` command cannot be started.
    Spawn { args: String, reason: String },
    /// The `git` command fails.
    CommandFailed { args: String, stderr: String },
    /// The checkout directory cannot be prepared.
    Io { path: String, reason: String },
}

/// What a `GitError` says.
#[verifier::ext_equal]
pub enum GitFault {
    Spawn { args: Seq<char>, reason: Seq<char> },
    CommandFailed { args: Seq<char>, stderr: Seq<char> },
    Io { path: Seq<char>, reason: Seq<char> },
}

impl DeepView for GitError {
    type V = GitFault;

    open spec fn deep_view(&self) -> GitFault {
        match self {
            GitError::Spawn { args, reason } => GitFault::Spawn { args: args@, reason: reason@ },
            GitError::CommandFailed { args, stderr } => GitFault::CommandFailed {
                args: args@,
                stderr: stderr@,
            },
            GitError::Io { path, reason } => GitFault::Io { path: path@, reason: reason@ },
        }
    }
}

/// The message of a git fault.
pub open spec fn git_message(fault: GitFault) -> Seq<char> {
    match fault {
        GitFault::Spawn { args, reason } => "failed to run `git "@ + args + "`: "@ + reason,
        GitFault::CommandFailed { args, stderr } => "`git "@ + args + "` failed: "@ + stderr,
        GitFault::Io { path, reason } => "failed to prepare git checkout at "@ + path + ": "@
            + reason,
    }
}

impl GitError {
    /// The message of the error.
    pub fn message(&self) -> (r: String)
        ensures
            r@ == git_message(self.deep_view()),
    {
        match self {
            GitError::Spawn { args, reason } => concat4(
                "failed to run `git ",
                args.as_str(),
                "`: ",
                reason.as_str(),
            ),
            GitError::CommandFailed { args, stderr } => concat4(
                "`git ",
                args.as_str(),
                "` failed: ",
                stderr.as_str(),
            ),
            GitError::Io { path, reason } => concat4(
                "failed to prepare git checkout at ",
                path.as_str(),
                ": ",
                reason.as_str(),
            ),
        }
    }
}

/// How a `git` command ended.
pub enum CommandOutcome {
    /// It was not started.
    NotStarted { reason: String },
    /// It ended, with success or not, having written `stderr`.
    Ended { success: bool, stderr: String },
}

/// The fault, if any, of a `git` command with the arguments `args`.
pub open spec fn run_fault(args: Seq<Seq<char>>, outcome: CommandOutcome) -> Option<GitFault> {
    match outcome {
        CommandOutcome::NotStarted { reason } => Some(
            GitFault::Spawn { args: join(args, " "@), reason: reason@ },
        ),
        CommandOutcome::Ended { success, stderr } => if success {
            None
        } else {
            Some(GitFault::CommandFailed { args: join(args, " "@), stderr: trim(stderr@) })
        },
    }
}

/// What comes of running `git` with the arguments `args`.
pub fn run(args: &Vec<String>, outcome: CommandOutcome) -> (r: Result<(), GitError>)
    ensures
        match r {
            Ok(()) => run_fault(deep(args@), outcome) is None,
            Err(e) => run_fault(deep(args@), outcome) == Some(e.deep_view()),
        },
{
    match outcome {
        CommandOutcome::NotStarted { reason } => Err(
            GitError::Spawn { args: joined(args, " "), reason },
        ),
        CommandOutcome::Ended { success, stderr } => if success {
            Ok(())
        } else {
            Err(
                GitError::CommandFailed {
                    args: joined(args, " "),
                    stderr: trimmed(stderr.as_str()),
                },
            )
        },
    }
}

/// A step of fetching a ref from a repository into an empty directory.
#[derive(Debug, Clone, Copy, PartialEq, Eq, Structural)]
pub enum FetchStep {
    /// Clone the one commit that a tag or a branch names.
    ShallowClone,
    /// Remove the directory, where a failed clone left it.
    ClearDirectory,
    /// Clone the whole repository.
    FullClone,
    /// Check the ref out.
    Checkout,
    /// Remove the `.git` directory, where there is one: only the tracked files are the
    /// package.
    StripMetadata,
    /// The directory holds the package.
    Fetched,
}

/// The step that follows `step`, or none where its failure is the failure of the fetch. A
/// shallow clone may fail -- a commit cannot be cloned by its name -- and is then made up
/// for by a full one.
pub open spec fn next_fetch_step(step: FetchStep, success: bool) -> Option<FetchStep> {
    match step {
        FetchStep::ShallowClone => if success {
            Some(FetchStep::StripMetadata)
        } else {
            Some(FetchStep::ClearDirectory)
        },
        _ => if !success {
            None
        } else {
            match step {
                FetchStep::ClearDirectory => Some(FetchStep::FullClone),
                FetchStep::FullClone => Some(FetchStep::Checkout),
                FetchStep::Checkout => Some(FetchStep::StripMetadata),
                _ => Some(FetchStep::Fetched),
            }
        },
    }
}

/// The step that follows `step`.
pub fn fetch(step: FetchStep, success: bool) -> (r: Option<FetchStep>)
    ensures
        r == next_fetch_step(step, success),
{
    match step {
        FetchStep::ShallowClone => if success {
            Some(FetchStep::StripMetadata)
        } else {
            Some(FetchStep::ClearDirectory)
        },
        FetchStep::ClearDirectory => if success {
            Some(FetchStep::FullClone)
        } else {
            None
        },
        FetchStep::FullClone => if success {
            Some(FetchStep::Checkout)
        } else {
            None
        },
        FetchStep::Checkout => if success {
            Some(FetchStep::StripMetadata)
        } else {
            None
        },
        FetchStep::StripMetadata => if success {
            Some(FetchStep::Fetched)
        } else {
            None
        },
        FetchStep::Fetched => if success {
            Some(FetchStep::Fetched)
        } else {
            None
        },
    }
}

/// The arguments of the `git` command that a step runs, if it runs one.
pub open spec fn fetch_command(
    step: FetchStep,
    url: Seq<char>,
    git_ref: Seq<char>,
    dest: Seq<char>,
) -> Option<Seq<Seq<char>>> {
    match step {
        FetchStep::ShallowClone => Some(
            seq!["clone"@, "--quiet"@, "--depth"@, "1"@, "--branch"@, git_ref, url, dest],
        ),
        FetchStep::FullClone => Some(seq!["clone"@, "--quiet"@, url, dest]),
        FetchStep::Checkout => Some(seq!["checkout"@, "--quiet"@, git_ref]),
        _ => None,
    }
}

/// The arguments of the `git` command that a step runs, if it runs one. A checkout runs in
/// the directory `dest`.
pub fn fetch_args(step: FetchStep, url: &str, git_ref: &str, dest: &str) -> (r: Option<Vec<String>>)
    ensures
        match r {
            Some(args) => fetch_command(step, url@, git_ref@, dest@) == Some(deep(args@)),
            None => fetch_command(step, url@, git_ref@, dest@) is None,
        },
{
    let mut args: Vec<String> = Vec::new();
    match step {
        FetchStep::ShallowClone => {
            args.push("clone".to_string());
            args.push("--quiet".to_string());
            args.push("--depth".to_string());
            args.push("1".to_string());
            args.push("--branch".to_string());
            args.push(git_ref.to_string());
            args.push(url.to_string());
            args.push(dest.to_string());
        },
        FetchStep::FullClone => {
            args.push("clone".to_string());
            args.push("--quiet".to_string());
            args.push(url.to_string());
            args.push(dest.to_string());
        },
        FetchStep::Checkout => {
            args.push("checkout".to_string());
            args.push("--quiet".to_string());
            args.push(git_ref.to_string());
        },
        _ => {
            return None;
        },
    }
    assert(deep(args@) =~= fetch_command(step, url@, git_ref@, dest@)->0);
    Some(args)
}

/// The `source` of a pin that comes from a git repository.
pub open spec fn git_source_text(url: Seq<char>, git_ref: Seq<char>) -> Seq<char> {
    "git+"@ + url + "@"@ + git_ref
}

/// The repository and the ref that the `source` of a pin names, where it is a git source:
/// what stands before and behind the last `@` behind `git+`.
pub open spec fn git_source_parts(source: Seq<char>) -> Option<(Seq<char>, Seq<char>)> {
    match without_prefix(source, "git+"@) {
        Some(rest) => split_last(rest, '@'),
        None => None,
    }
}

/// The `laplace.lock` `source` string for a git-sourced package.
pub fn git_source(url: &str, git_ref: &str) -> (r: String)
    ensures
        r@ == git_source_text(url@, git_ref@),
{
    concat4("git+", url, "@", git_ref)
}

/// Parse a `laplace.lock` `source` string back into `(url, git_ref)`, or `None` if it isn't
/// a git source (e.g. `"registry"`). Splits on the last `@` so scp-style urls containing
/// their own `@` (`git@host:user/repo`) still parse correctly.
pub fn parse_git_source(source: &str) -> (r: Option<(String, String)>)
    ensures
        r.deep_view() == git_source_parts(source@),
{
    match strip_prefix(source, "git+") {
        Some(rest) => split_at_last(rest.as_str(), '@'),
        None => None,
    }
}

} // verus!
