//! `laplace init`: generate a starter `laplace.toml` from a package repo's `.stan` files,
//! guessing `exports` from `// @laplace`-documented functions -- undocumented functions are
//! assumed private and left out.
use vstd::prelude::*;

use crate::manifest::{manifest_message, ManifestError, ManifestFault, PackageManifest, PackageText};
use crate::parser::signatures::{extract_signatures, signatures_of, FunctionSig, Signature};
use crate::text::{clone_texts, concat2, deep, deep_result};

verus! {

/// Why a package manifest cannot be generated.
#[derive(Debug, PartialEq, Eq)]
pub enum InitError {
    /// There already is a manifest at that path.
    AlreadyExists(String),
    /// The directory cannot be read.
    Io { reason: String },
    /// The manifest cannot be written.
    Manifest(ManifestError),
}

/// What an `InitError` says.
#[verifier::ext_equal]
pub enum InitFault {
    AlreadyExists(Seq<char>),
    Io { reason: Seq<char> },
    Manifest(ManifestFault),
}

impl DeepView for InitError {
    type V = InitFault;

    open spec fn deep_view(&self) -> InitFault {
        match self {
            InitError::AlreadyExists(path) => InitFault::AlreadyExists(path@),
            InitError::Io { reason } => InitFault::Io { reason: reason@ },
            InitError::Manifest(e) => InitFault::Manifest(e.deep_view()),
        }
    }
}

/// The message of an init fault.
pub open spec fn init_message(fault: InitFault) -> Seq<char> {
    match fault {
        InitFault::AlreadyExists(path) => path
            + " already exists -- remove it first if you want to regenerate it"@,
        InitFault::Io { reason } => reason,
        InitFault::Manifest(fault) => manifest_message(fault),
    }
}

impl InitError {
    /// The message of the error.
    pub fn message(&self) -> (r: String)
        ensures
            r@ == init_message(self.deep_view()),
    {
        match self {
            InitError::AlreadyExists(path) => concat2(
                path.as_str(),
                " already exists -- remove it first if you want to regenerate it",
            ),
            InitError::Io { reason } => reason.clone(),
            InitError::Manifest(e) => e.message(),
        }
    }
}

/// What `init` did, for the CLI to report back to the user.
#[derive(Debug)]
pub struct InitSummary {
    pub name: String,
    /// `// @laplace`-documented functions written into `exports`, in the order they were
    /// found.
    pub included: Vec<String>,
    /// Undocumented functions left out of `exports` on the assumption they're private --
    /// reported so the user can add them by hand if that guess is wrong.
    pub excluded: Vec<String>,
}

/// What an init summary says.
#[verifier::ext_equal]
pub struct SummaryText {
    pub name: Seq<char>,
    pub included: Seq<Seq<char>>,
    pub excluded: Seq<Seq<char>>,
}

impl DeepView for InitSummary {
    type V = SummaryText;

    open spec fn deep_view(&self) -> SummaryText {
        SummaryText {
            name: self.name@,
            included: deep(self.included@),
            excluded: deep(self.excluded@),
        }
    }
}

/// The names of those of `sigs` that have a doc comment, or of those that have none, in
/// order.
pub open spec fn names_by_doc(sigs: Seq<Signature>, documented: bool) -> Seq<Seq<char>>
    decreases sigs.len(),
{
    if sigs.len() == 0 {
        seq![]
    } else if (sigs.last().doc is Some) == documented {
        names_by_doc(sigs.drop_last(), documented).push(sigs.last().name)
    } else {
        names_by_doc(sigs.drop_last(), documented)
    }
}

/// The names of those of `sigs` that have a doc comment, or of those that have none.
fn select_names(sigs: &Vec<FunctionSig>, documented: bool) -> (r: Vec<String>)
    ensures
        deep(r@) == names_by_doc(deep(sigs@), documented),
{
    let ghost all = deep(sigs@);
    let mut out: Vec<String> = Vec::new();
    assert(deep(out@) =~= names_by_doc(all.take(0), documented));
    let mut i: usize = 0;
    while i < sigs.len()
        invariant
            all == deep(sigs@),
            i <= sigs@.len(),
            deep(out@) == names_by_doc(all.take(i as int), documented),
        decreases sigs@.len() - i,
    {
        let ghost held = out@;
        proof {
            assert(all.take(i + 1).drop_last() =~= all.take(i as int));
            assert(all.take(i + 1).last() == sigs@[i as int].deep_view());
        }
        if sigs[i].doc.is_some() == documented {
            out.push(sigs[i].name.clone());
            assert(deep(out@) =~= deep(held).push(sigs@[i as int].name@));
        }
        i += 1;
    }
    assert(all.take(i as int) =~= all);
    out
}

/// The name of a package in a directory with the name `dir_name`: that name, or `package` where
/// the directory has none.
pub open spec fn package_name(dir_name: Option<Seq<char>>) -> Seq<char> {
    match dir_name {
        Some(name) => name,
        None => "package"@,
    }
}

/// Guess a package name from the name of its directory, if that has one.
pub fn guess_package_name(dir_name: Option<&str>) -> (r: String)
    ensures
        r@ == package_name(dir_name.deep_view()),
{
    match dir_name {
        Some(name) => name.to_string(),
        None => "package".to_string(),
    }
}

/// What `laplace init` decides: to write a manifest for what `source` defines, unless there
/// is one.
pub open spec fn init_result(
    dir_name: Option<Seq<char>>,
    manifest_path: Seq<char>,
    manifest_exists: bool,
    source: Result<Seq<char>, Seq<char>>,
) -> Result<(SummaryText, PackageText), InitFault> {
    if manifest_exists {
        Err(InitFault::AlreadyExists(manifest_path))
    } else {
        match source {
            Err(reason) => Err(InitFault::Io { reason }),
            Ok(text) => {
                let included = names_by_doc(signatures_of(text), true);
                let excluded = names_by_doc(signatures_of(text), false);
                Ok(
                    (
                        SummaryText { name: package_name(dir_name), included, excluded },
                        PackageText {
                            name: package_name(dir_name),
                            version: "0.1.0"@,
                            exports: included,
                        },
                    ),
                )
            },
        }
    }
}

/// The starter `laplace.toml` to write to `manifest_path`: `name` guessed from the directory's
/// name, `version = "0.1.0"`, and `exports` pre-filled with every `// @laplace`-documented function
/// of the directory's `.stan` source. Errors rather than overwriting if there already is one.
///
/// `source` is what reading the `.stan` files gave.
pub fn init(
    dir_name: Option<&str>,
    manifest_path: &str,
    manifest_exists: bool,
    source: Result<String, String>,
) -> (r: Result<(InitSummary, PackageManifest), InitError>)
    ensures
        deep_result(r) == init_result(
            dir_name.deep_view(),
            manifest_path@,
            manifest_exists,
            deep_result(source),
        ),
{
    if manifest_exists {
        return Err(InitError::AlreadyExists(manifest_path.to_string()));
    }
    let name = guess_package_name(dir_name);
    let source = match source {
        Ok(source) => source,
        Err(reason) => {
            return Err(InitError::Io { reason });
        },
    };
    let signatures = extract_signatures(source.as_str());
    let included = select_names(&signatures, true);
    let excluded = select_names(&signatures, false);
    let manifest = PackageManifest {
        name: name.clone(),
        version: "0.1.0".to_string(),
        exports: clone_texts(&included),
    };
    Ok((InitSummary { name, included, excluded }, manifest))
}

} // verus!
