//! The walk of `laplace install` over the lock: one package after the other is read, verified and
//! only then stored in the cache.
//!
//! A step says what is to be done next, and an event what came of it. The walk sees the lock and
//! nothing of `laplace.toml`.
use vstd::prelude::*;

use crate::cli::install_dir;
use crate::docs::installed_dir;
use crate::resolve::{
    checksum_fault, deep_files, pin_source, registry_copy_fault, verify_checksum,
    verify_registry_copy, InstallSource, InstallText, Registry,
};
use crate::resolve::checksum::{FileContents, PackageFile};
use crate::resolve::error::{ResolveError, ResolveFault};
use crate::resolve::lockfile::{Lockfile, Pin};
use crate::text::{deep, deep_result};

verus! {

/// What `laplace install` does next, for the pin at `index` of the lock.
#[derive(Debug, PartialEq, Eq)]
pub enum InstallStep {
    /// Read the files in a folder of the registry, given by its parts below the registry's root.
    ReadRegistry { index: usize, dir: Vec<String> },
    /// Fetch a ref of a git repository, and read its files.
    FetchGit { index: usize, url: String, git_ref: String },
    /// Store the files that were read last in a directory of the cache, given by its parts below
    /// the cache's root.
    Store { index: usize, dest: Vec<String> },
    /// Nothing: every pin has been restored.
    Done,
}

/// What an `InstallStep` says.
#[verifier::ext_equal]
pub enum InstallStepText {
    ReadRegistry { index: int, dir: Seq<Seq<char>> },
    FetchGit { index: int, url: Seq<char>, git_ref: Seq<char> },
    Store { index: int, dest: Seq<Seq<char>> },
    Done,
}

impl DeepView for InstallStep {
    type V = InstallStepText;

    open spec fn deep_view(&self) -> InstallStepText {
        match self {
            InstallStep::ReadRegistry { index, dir } => InstallStepText::ReadRegistry {
                index: *index as int,
                dir: deep(dir@),
            },
            InstallStep::FetchGit { index, url, git_ref } => InstallStepText::FetchGit {
                index: *index as int,
                url: url@,
                git_ref: git_ref@,
            },
            InstallStep::Store { index, dest } => InstallStepText::Store {
                index: *index as int,
                dest: deep(dest@),
            },
            InstallStep::Done => InstallStepText::Done,
        }
    }
}

/// What came of a step.
pub enum InstallEvent {
    /// The folder of the registry was read: none where there is no such folder.
    RegistryRead(Option<Result<Vec<PackageFile>, ResolveError>>),
    /// The repository was fetched and read.
    GitRead(Result<Vec<PackageFile>, ResolveError>),
    /// The files were stored.
    Stored(Result<(), ResolveError>),
}

/// What an `InstallEvent` says.
#[verifier::ext_equal]
pub enum InstallEventText {
    RegistryRead(Option<Result<Seq<FileContents>, ResolveFault>>),
    GitRead(Result<Seq<FileContents>, ResolveFault>),
    Stored(Option<ResolveFault>),
}

impl DeepView for InstallEvent {
    type V = InstallEventText;

    open spec fn deep_view(&self) -> InstallEventText {
        match self {
            InstallEvent::RegistryRead(files) => InstallEventText::RegistryRead(
                match files {
                    Some(files) => Some(deep_files(*files)),
                    None => None,
                },
            ),
            InstallEvent::GitRead(files) => InstallEventText::GitRead(deep_files(*files)),
            InstallEvent::Stored(outcome) => InstallEventText::Stored(
                match outcome {
                    Ok(_) => None,
                    Err(e) => Some(e.deep_view()),
                },
            ),
        }
    }
}

/// The step that begins with the pin at `index`, or the fault of its source.
pub open spec fn install_from(pins: Seq<Pin>, index: int) -> Result<
    InstallStepText,
    ResolveFault,
> {
    if index >= pins.len() {
        Ok(InstallStepText::Done)
    } else {
        match pin_source(pins[index]) {
            Err(fault) => Err(fault),
            Ok(InstallText::Registry { dir }) => Ok(InstallStepText::ReadRegistry { index, dir }),
            Ok(InstallText::Git { url, git_ref }) => Ok(
                InstallStepText::FetchGit { index, url, git_ref },
            ),
        }
    }
}

/// The step that follows `step` after `event`, or the fault that ends the walk: what was read is
/// stored only if it is what was pinned, and the next pin comes once it is stored. An event that
/// is none of the step's leaves it as it is.
pub open spec fn install_next(
    root: Seq<char>,
    pins: Seq<Pin>,
    step: InstallStepText,
    event: InstallEventText,
) -> Result<InstallStepText, ResolveFault> {
    match (step, event) {
        (
            InstallStepText::ReadRegistry { index, .. },
            InstallEventText::RegistryRead(files),
        ) => match registry_copy_fault(root, pins[index], files) {
            Some(fault) => Err(fault),
            None => Ok(
                InstallStepText::Store { index, dest: installed_dir(pins[index]) },
            ),
        },
        (
            InstallStepText::FetchGit { index, .. },
            InstallEventText::GitRead(files),
        ) => match checksum_fault(pins[index], files) {
            Some(fault) => Err(fault),
            None => Ok(
                InstallStepText::Store { index, dest: installed_dir(pins[index]) },
            ),
        },
        (InstallStepText::Store { index, .. }, InstallEventText::Stored(outcome)) => match outcome {
            Some(fault) => Err(fault),
            None => install_from(pins, index + 1),
        },
        _ => Ok(step),
    }
}

/// The step is for one of `n` pins.
pub open spec fn step_fits(step: InstallStepText, n: int) -> bool {
    match step {
        InstallStepText::ReadRegistry { index, .. } => 0 <= index < n,
        InstallStepText::FetchGit { index, .. } => 0 <= index < n,
        InstallStepText::Store { index, .. } => 0 <= index < n,
        InstallStepText::Done => true,
    }
}

/// The step that begins with the pin at `index`.
fn start_package(lock: &Lockfile, index: usize) -> (r: Result<
    InstallStep,
    ResolveError,
>)
    ensures
        deep_result(r) == install_from(lock.deep_view(), index as int),
        r matches Ok(step) ==> step_fits(step.deep_view(), lock.packages@.len() as int),
{
    if index >= lock.packages.len() {
        return Ok(InstallStep::Done);
    }
    let pkg = &lock.packages[index];
    assert(lock.deep_view()[index as int] == pkg.deep_view());
    match crate::resolve::install(pkg) {
        Ok(InstallSource::Registry { dir }) => Ok(InstallStep::ReadRegistry { index, dir }),
        Ok(InstallSource::Git { url, git_ref }) => Ok(
            InstallStep::FetchGit { index, url, git_ref },
        ),
        Err(e) => Err(e),
    }
}

/// The first step of `laplace install`.
pub fn start_install(lock: &Lockfile) -> (r: Result<InstallStep, ResolveError>)
    ensures
        deep_result(r) == install_from(lock.deep_view(), 0),
        r matches Ok(step) ==> step_fits(step.deep_view(), lock.packages@.len() as int),
{
    start_package(lock, 0)
}

/// The step of `laplace install` that follows `step`, given what came of that.
pub fn continue_install(
    registry: &Registry,
    lock: &Lockfile,
    step: InstallStep,
    event: InstallEvent,
) -> (r: Result<InstallStep, ResolveError>)
    requires
        step_fits(step.deep_view(), lock.packages@.len() as int),
    ensures
        deep_result(r) == install_next(
            registry.deep_view(),
            lock.deep_view(),
            step.deep_view(),
            event.deep_view(),
        ),
        r matches Ok(next) ==> step_fits(next.deep_view(), lock.packages@.len() as int),
{
    match step {
        InstallStep::ReadRegistry { index, dir } => {
            let pkg = &lock.packages[index];
            assert(lock.deep_view()[index as int] == pkg.deep_view());
            match event {
                InstallEvent::RegistryRead(files) => {
                    match verify_registry_copy(registry, pkg, files) {
                        Ok(()) => Ok(
                            InstallStep::Store { index, dest: install_dir(pkg) },
                        ),
                        Err(e) => Err(e),
                    }
                },
                _ => Ok(InstallStep::ReadRegistry { index, dir }),
            }
        },
        InstallStep::FetchGit { index, url, git_ref } => {
            let pkg = &lock.packages[index];
            assert(lock.deep_view()[index as int] == pkg.deep_view());
            match event {
                InstallEvent::GitRead(files) => {
                    match verify_checksum(pkg, files) {
                        Ok(()) => Ok(
                            InstallStep::Store { index, dest: install_dir(pkg) },
                        ),
                        Err(e) => Err(e),
                    }
                },
                _ => Ok(InstallStep::FetchGit { index, url, git_ref }),
            }
        },
        InstallStep::Store { index, dest } => {
            match event {
                InstallEvent::Stored(outcome) => {
                    match outcome {
                        Ok(()) => {
                            let count: usize = lock.packages.len();
                            assert(index < count);
                            start_package(lock, index + 1)
                        },
                        Err(e) => Err(e),
                    }
                },
                _ => Ok(InstallStep::Store { index, dest }),
            }
        },
        InstallStep::Done => Ok(InstallStep::Done),
    }
}

} // verus!
