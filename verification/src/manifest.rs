//! `laplace.toml`, of projects and of packages.
use vstd::prelude::*;

use crate::files::{FileOutcome, FileText};
use crate::order::{
    is_text_less, lemma_text_less_total, lemma_text_less_transitive, ranked, sort, text_less,
};
use crate::paths::{extension, name_extension};
use crate::text::{clone_option, clone_texts, concat3, concat4, deep, deep_result, same};

verus! {

/// A single dependency entry in the project manifest: either the plain string form (a
/// semver range, resolved via the local registry) or the table form (a git source).
#[derive(Debug, PartialEq, Eq)]
pub enum Dependency {
    Range(String),
    Git(GitDependency),
}

/// The table form of a dependency entry: a git repository pinned to either a tag or a
/// commit rev (exactly one of the two).
#[derive(Debug, PartialEq, Eq)]
pub struct GitDependency {
    pub git: String,
    pub tag: Option<String>,
    pub rev: Option<String>,
}

/// What a dependency entry says.
#[verifier::ext_equal]
pub enum DependencyText {
    Range(Seq<char>),
    Git(GitText),
}

/// What the table form of a dependency entry says.
#[verifier::ext_equal]
pub struct GitText {
    pub git: Seq<char>,
    pub tag: Option<Seq<char>>,
    pub rev: Option<Seq<char>>,
}

impl DeepView for Dependency {
    type V = DependencyText;

    open spec fn deep_view(&self) -> DependencyText {
        match self {
            Dependency::Range(range) => DependencyText::Range(range@),
            Dependency::Git(git) => DependencyText::Git(git.deep_view()),
        }
    }
}

impl DeepView for GitDependency {
    type V = GitText;

    open spec fn deep_view(&self) -> GitText {
        GitText { git: self.git@, tag: self.tag.deep_view(), rev: self.rev.deep_view() }
    }
}

impl Clone for Dependency {
    fn clone(&self) -> (r: Self)
        ensures
            r.deep_view() == self.deep_view(),
    {
        match self {
            Dependency::Range(range) => Dependency::Range(range.clone()),
            Dependency::Git(git) => Dependency::Git(git.clone()),
        }
    }
}

impl Clone for GitDependency {
    fn clone(&self) -> (r: Self)
        ensures
            r.deep_view() == self.deep_view(),
    {
        GitDependency {
            git: self.git.clone(),
            tag: clone_option(&self.tag),
            rev: clone_option(&self.rev),
        }
    }
}

impl Dependency {
    /// The range of the plain string form.
    pub fn as_range(&self) -> (r: Option<&str>)
        ensures
            match self.deep_view() {
                DependencyText::Range(range) => r matches Some(s) && s@ == range,
                DependencyText::Git(_) => r is None,
            },
    {
        match self {
            Dependency::Range(range) => Some(range.as_str()),
            Dependency::Git(_) => None,
        }
    }
}

/// The single ref that a git dependency pins, or the fault that it pins none or two.
pub open spec fn pinned_ref(dep: GitText) -> Result<Seq<char>, ManifestFault> {
    match (dep.tag, dep.rev) {
        (Some(tag), None) => Ok(tag),
        (None, Some(rev)) => Ok(rev),
        (None, None) => Err(ManifestFault::GitRefMissing { git: dep.git }),
        (Some(_), Some(_)) => Err(ManifestFault::GitRefAmbiguous { git: dep.git }),
    }
}

impl GitDependency {
    /// The single ref to check out. Exactly one of `tag`/`rev` must be set; anything else
    /// is a malformed manifest entry.
    pub fn git_ref(&self) -> (r: Result<&str, ManifestError>)
        ensures
            match r {
                Ok(name) => pinned_ref(self.deep_view()) == Ok::<Seq<char>, ManifestFault>(name@),
                Err(e) => pinned_ref(self.deep_view()) == Err::<Seq<char>, ManifestFault>(
                    e.deep_view(),
                ),
            },
    {
        match &self.tag {
            Some(tag) => match &self.rev {
                Some(_) => Err(ManifestError::GitRefAmbiguous { git: self.git.clone() }),
                None => Ok(tag.as_str()),
            },
            None => match &self.rev {
                Some(rev) => Ok(rev.as_str()),
                None => Err(ManifestError::GitRefMissing { git: self.git.clone() }),
            },
        }
    }
}

/// Package-level `laplace.toml`, shipped alongside a package's `.stan` file(s) in the
/// registry.
///
/// ```toml
/// name = "gps"
/// version = "1.0.0"
/// exports = ["rbf_cov"]
/// ```
#[derive(Debug, PartialEq, Eq)]
pub struct PackageManifest {
    pub name: String,
    pub version: String,
    pub exports: Vec<String>,
}

/// What a package manifest says.
#[verifier::ext_equal]
pub struct PackageText {
    pub name: Seq<char>,
    pub version: Seq<char>,
    pub exports: Seq<Seq<char>>,
}

impl DeepView for PackageManifest {
    type V = PackageText;

    open spec fn deep_view(&self) -> PackageText {
        PackageText { name: self.name@, version: self.version@, exports: deep(self.exports@) }
    }
}

impl Clone for PackageManifest {
    fn clone(&self) -> (r: Self)
        ensures
            r.deep_view() == self.deep_view(),
    {
        PackageManifest {
            name: self.name.clone(),
            version: self.version.clone(),
            exports: clone_texts(&self.exports),
        }
    }
}

/// Why a manifest cannot be read, written or used.
#[derive(Debug, PartialEq, Eq)]
pub enum ManifestError {
    /// The file at `path` cannot be accessed.
    Io { path: String, reason: String },
    /// The file at `path` does not hold a manifest.
    Parse { path: String, reason: String },
    /// The manifest for `path` cannot be written as text.
    Serialize { path: String, reason: String },
    /// A git dependency pins neither a tag nor a rev.
    GitRefMissing { git: String },
    /// A git dependency pins both a tag and a rev.
    GitRefAmbiguous { git: String },
}

/// What a `ManifestError` says.
#[verifier::ext_equal]
pub enum ManifestFault {
    Io { path: Seq<char>, reason: Seq<char> },
    Parse { path: Seq<char>, reason: Seq<char> },
    Serialize { path: Seq<char>, reason: Seq<char> },
    GitRefMissing { git: Seq<char> },
    GitRefAmbiguous { git: Seq<char> },
}

impl DeepView for ManifestError {
    type V = ManifestFault;

    open spec fn deep_view(&self) -> ManifestFault {
        match self {
            ManifestError::Io { path, reason } => ManifestFault::Io {
                path: path@,
                reason: reason@,
            },
            ManifestError::Parse { path, reason } => ManifestFault::Parse {
                path: path@,
                reason: reason@,
            },
            ManifestError::Serialize { path, reason } => ManifestFault::Serialize {
                path: path@,
                reason: reason@,
            },
            ManifestError::GitRefMissing { git } => ManifestFault::GitRefMissing { git: git@ },
            ManifestError::GitRefAmbiguous { git } => ManifestFault::GitRefAmbiguous { git: git@ },
        }
    }
}

/// The message of a manifest fault.
pub open spec fn manifest_message(fault: ManifestFault) -> Seq<char> {
    match fault {
        ManifestFault::Io { path, reason } => "failed to read "@ + path + ": "@ + reason,
        ManifestFault::Parse { path, reason } => "failed to parse "@ + path + ": "@ + reason,
        ManifestFault::Serialize { path, reason } => "failed to serialize manifest for "@ + path
            + ": "@ + reason,
        ManifestFault::GitRefMissing { git } => "git dependency `"@ + git
            + "` needs a `tag` or a `rev`"@,
        ManifestFault::GitRefAmbiguous { git } => "git dependency `"@ + git
            + "` cannot have both `tag` and `rev` set"@,
    }
}

impl ManifestError {
    /// The message of the error.
    pub fn message(&self) -> (r: String)
        ensures
            r@ == manifest_message(self.deep_view()),
    {
        match self {
            ManifestError::Io { path, reason } => concat4(
                "failed to read ",
                path.as_str(),
                ": ",
                reason.as_str(),
            ),
            ManifestError::Parse { path, reason } => concat4(
                "failed to parse ",
                path.as_str(),
                ": ",
                reason.as_str(),
            ),
            ManifestError::Serialize { path, reason } => concat4(
                "failed to serialize manifest for ",
                path.as_str(),
                ": ",
                reason.as_str(),
            ),
            ManifestError::GitRefMissing { git } => concat3(
                "git dependency `",
                git.as_str(),
                "` needs a `tag` or a `rev`",
            ),
            ManifestError::GitRefAmbiguous { git } => concat3(
                "git dependency `",
                git.as_str(),
                "` cannot have both `tag` and `rev` set",
            ),
        }
    }
}

// Dependencies ------------------------------------------------------------

/// The entries' names are in strictly ascending order.
pub open spec fn names_ascend(entries: Seq<(Seq<char>, DependencyText)>) -> bool {
    forall|i: int, j: int|
        0 <= i < j < entries.len() ==> text_less(
            (#[trigger] entries[i]).0,
            (#[trigger] entries[j]).0,
        )
}

/// One of `entries` has the name `name`.
pub open spec fn has_entry(entries: Seq<(Seq<char>, DependencyText)>, name: Seq<char>) -> bool {
    exists|i: int| 0 <= i < entries.len() && (#[trigger] entries[i]).0 == name
}

/// The position of the entry with the name `name`.
pub open spec fn entry_index(entries: Seq<(Seq<char>, DependencyText)>, name: Seq<char>) -> int {
    choose|i: int| 0 <= i < entries.len() && (#[trigger] entries[i]).0 == name
}

/// The map that `entries` hold.
pub open spec fn entry_map(entries: Seq<(Seq<char>, DependencyText)>) -> Map<
    Seq<char>,
    DependencyText,
> {
    Map::new(
        |name: Seq<char>| has_entry(entries, name),
        |name: Seq<char>| entries[entry_index(entries, name)].1,
    )
}

/// A map holds at a name what the only entry of that name says.
proof fn lemma_entry_at(entries: Seq<(Seq<char>, DependencyText)>, i: int)
    requires
        names_ascend(entries),
        0 <= i < entries.len(),
    ensures
        entry_map(entries).contains_key(entries[i].0),
        entry_map(entries)[entries[i].0] == entries[i].1,
{
    let k = entry_index(entries, entries[i].0);
    assert(has_entry(entries, entries[i].0));
    assert(0 <= k < entries.len() && entries[k].0 == entries[i].0);
    lemma_text_less_total(entries[i].0, entries[i].0);
    if k < i {
        assert(text_less(entries[k].0, entries[i].0));
    } else if i < k {
        assert(text_less(entries[i].0, entries[k].0));
    }
}

/// The dependencies of a project: at most one entry per name, in the order of the names.
#[derive(Debug, PartialEq, Eq)]
pub struct Dependencies {
    entries: Vec<(String, Dependency)>,
}

impl View for Dependencies {
    type V = Map<Seq<char>, DependencyText>;

    closed spec fn view(&self) -> Map<Seq<char>, DependencyText> {
        entry_map(deep(self.entries@))
    }
}

impl Dependencies {
    #[verifier::type_invariant]
    spec fn well_formed(self) -> bool {
        names_ascend(deep(self.entries@))
    }

    /// No dependencies.
    pub fn new() -> (r: Self)
        ensures
            r@ == Map::<Seq<char>, DependencyText>::empty(),
    {
        let r = Dependencies { entries: Vec::new() };
        assert(r@ =~= Map::empty());
        r
    }

    /// The entries, in the order of their names.
    pub fn entries(&self) -> (r: &Vec<(String, Dependency)>)
        ensures
            names_ascend(deep(r@)),
            entry_map(deep(r@)) == self@,
    {
        proof {
            use_type_invariant(self);
        }
        &self.entries
    }

    /// The entry with the name `name`.
    pub fn get(&self, name: &str) -> (r: Option<&Dependency>)
        ensures
            match r {
                Some(dep) => self@.contains_key(name@) && self@[name@] == dep.deep_view(),
                None => !self@.contains_key(name@),
            },
    {
        proof {
            use_type_invariant(self);
        }
        let ghost model = deep(self.entries@);
        let mut i: usize = 0;
        while i < self.entries.len()
            invariant
                model == deep(self.entries@),
                names_ascend(model),
                i <= self.entries@.len(),
                forall|j: int| 0 <= j < i ==> (#[trigger] model[j]).0 != name@,
            decreases self.entries@.len() - i,
        {
            let entry = &self.entries[i];
            assert(model[i as int] == entry.deep_view());
            if same(entry.0.as_str(), name) {
                proof {
                    lemma_entry_at(model, i as int);
                }
                return Some(&entry.1);
            }
            i += 1;
        }
        None
    }

    /// Sets the entry with the name `name`, in place of the one that has it already.
    pub fn insert(&mut self, name: String, dependency: Dependency)
        ensures
            final(self)@ == old(self)@.insert(name@, dependency.deep_view()),
    {
        let ghost before = deep(self.entries@);
        let ghost entry = (name@, dependency.deep_view());
        proof {
            use_type_invariant(&*self);
        }
        let mut entries: Vec<(String, Dependency)> = Vec::new();
        let mut i: usize = 0;
        while i < self.entries.len() && is_text_less(
            self.entries[i].0.as_str(),
            name.as_str(),
        )
            invariant
                before == deep(self.entries@),
                i <= self.entries@.len(),
                deep(entries@) == before.take(i as int),
                forall|j: int| 0 <= j < i ==> text_less((#[trigger] before[j]).0, name@),
            decreases self.entries@.len() - i,
        {
            let ghost held = entries@;
            let item = &self.entries[i];
            assert(before[i as int] == item.deep_view());
            let copy = (item.0.clone(), item.1.clone());
            entries.push(copy);
            assert(deep(entries@) =~= deep(held).push(copy.deep_view()));
            i += 1;
        }
        let replaces = i < self.entries.len() && same(
            self.entries[i].0.as_str(),
            name.as_str(),
        );
        let ghost held = entries@;
        entries.push((name, dependency));
        assert(deep(entries@) =~= deep(held).push(entry));
        let ghost kept: int = if replaces {
            i + 1
        } else {
            i as int
        };
        let mut k: usize = if replaces {
            i + 1
        } else {
            i
        };
        while k < self.entries.len()
            invariant
                before == deep(self.entries@),
                0 <= i <= kept <= k <= self.entries@.len(),
                deep(entries@) == before.take(i as int).push(entry) + before.subrange(
                    kept,
                    k as int,
                ),
            decreases self.entries@.len() - k,
        {
            let ghost held = entries@;
            let item = &self.entries[k];
            assert(before[k as int] == item.deep_view());
            let copy = (item.0.clone(), item.1.clone());
            entries.push(copy);
            assert(deep(entries@) =~= deep(held).push(copy.deep_view()));
            k += 1;
        }
        proof {
            let after = deep(entries@);
            assert(after =~= before.take(i as int).push(entry) + before.skip(kept));
            lemma_insert_entry(before, entry, i as int, kept);
        }
        *self = Dependencies { entries };
    }
}

/// Putting an entry in its place keeps the order and sets the map at its name.
proof fn lemma_insert_entry(
    before: Seq<(Seq<char>, DependencyText)>,
    entry: (Seq<char>, DependencyText),
    i: int,
    kept: int,
)
    requires
        names_ascend(before),
        0 <= i <= before.len(),
        forall|j: int| 0 <= j < i ==> text_less((#[trigger] before[j]).0, entry.0),
        i < before.len() ==> !text_less(before[i].0, entry.0),
        kept == (if i < before.len() && before[i].0 == entry.0 {
            i + 1
        } else {
            i
        }),
    ensures
        names_ascend(before.take(i).push(entry) + before.skip(kept)),
        entry_map(before.take(i).push(entry) + before.skip(kept)) == entry_map(before).insert(
            entry.0,
            entry.1,
        ),
{
    let after = before.take(i).push(entry) + before.skip(kept);
    assert forall|j: int| kept <= j < before.len() implies text_less(
        entry.0,
        (#[trigger] before[j]).0,
    ) by {
        lemma_text_less_total(before[i].0, entry.0);
        if j > i && before[i].0 != entry.0 {
            assert(text_less(before[i].0, before[j].0));
            lemma_text_less_transitive(entry.0, before[i].0, before[j].0);
        } else if j > i {
            assert(text_less(before[i].0, before[j].0));
        }
    }
    assert forall|a: int, b: int| 0 <= a < b < after.len() implies text_less(
        (#[trigger] after[a]).0,
        (#[trigger] after[b]).0,
    ) by {
        if b < i {
            assert(after[a] == before[a] && after[b] == before[b]);
        } else if b == i {
            assert(after[a] == before[a] && after[b] == entry);
        } else {
            assert(after[b] == before[b - i - 1 + kept]);
            if a < i {
                assert(after[a] == before[a]);
                assert(text_less(before[a].0, before[b - i - 1 + kept].0));
            } else if a == i {
                assert(after[a] == entry);
            } else {
                assert(after[a] == before[a - i - 1 + kept]);
                assert(text_less(before[a - i - 1 + kept].0, before[b - i - 1 + kept].0));
            }
        }
    }
    let m = entry_map(after);
    let n = entry_map(before).insert(entry.0, entry.1);
    assert forall|name: Seq<char>|
        #![trigger m.dom().contains(name)]
        #![trigger m[name]]
        m.dom().contains(name) == n.dom().contains(name) && (m.dom().contains(name) ==> m[name]
            == n[name]) by {
        if name == entry.0 {
            assert(after[i] == entry);
            lemma_entry_at(after, i);
        } else {
            if has_entry(after, name) {
                let k = entry_index(after, name);
                let j = if k < i {
                    k
                } else {
                    k - i - 1 + kept
                };
                assert(after[k].0 == name);
                assert(k != i);
                assert(after[k] == before[j]);
                lemma_entry_at(after, k);
                lemma_entry_at(before, j);
            }
            if has_entry(before, name) {
                let j = entry_index(before, name);
                assert(before[j].0 == name);
                assert(j < i || j >= kept);
                let k = if j < i {
                    j
                } else {
                    j + i + 1 - kept
                };
                assert(after[k] == before[j]);
                assert(has_entry(after, name));
            }
        }
    }
    assert(m =~= n);
}

impl Clone for Dependencies {
    fn clone(&self) -> (r: Self)
        ensures
            r@ == self@,
    {
        proof {
            use_type_invariant(self);
        }
        let ghost model = deep(self.entries@);
        let mut entries: Vec<(String, Dependency)> = Vec::new();
        let mut i: usize = 0;
        while i < self.entries.len()
            invariant
                model == deep(self.entries@),
                i <= self.entries@.len(),
                deep(entries@) == model.take(i as int),
            decreases self.entries@.len() - i,
        {
            let ghost held = entries@;
            let item = &self.entries[i];
            assert(model[i as int] == item.deep_view());
            let copy = (item.0.clone(), item.1.clone());
            entries.push(copy);
            assert(deep(entries@) =~= deep(held).push(copy.deep_view()));
            i += 1;
        }
        assert(deep(entries@) =~= model);
        Dependencies { entries }
    }
}

/// Project-level `laplace.toml`: dependency entries, either a semver range (resolved via
/// the local filesystem registry) or a git source.
///
/// ```toml
/// [dependencies]
/// gps = "^1.0"
/// gps2 = { git = "https://github.com/user/repo", tag = "0.1.0" }
/// gps3 = { git = "https://github.com/user/repo", rev = "abc123" }
/// ```
#[derive(Debug, PartialEq, Eq)]
pub struct ProjectManifest {
    pub dependencies: Dependencies,
}

impl DeepView for ProjectManifest {
    type V = Map<Seq<char>, DependencyText>;

    open spec fn deep_view(&self) -> Map<Seq<char>, DependencyText> {
        self.dependencies@
    }
}

impl Default for ProjectManifest {
    fn default() -> (r: Self)
        ensures
            r.deep_view() == Map::<Seq<char>, DependencyText>::empty(),
    {
        ProjectManifest { dependencies: Dependencies::new() }
    }
}

impl Clone for ProjectManifest {
    fn clone(&self) -> (r: Self)
        ensures
            r.deep_view() == self.deep_view(),
    {
        ProjectManifest { dependencies: self.dependencies.clone() }
    }
}

// Reading -----------------------------------------------------------------

/// What reading a project manifest comes to: a missing file is an empty manifest.
pub open spec fn project_manifest_of(
    path: Seq<char>,
    outcome: FileText<Map<Seq<char>, DependencyText>>,
) -> Result<Map<Seq<char>, DependencyText>, ManifestFault> {
    match outcome {
        FileText::Missing { .. } => Ok(Map::empty()),
        FileText::Unreadable { reason } => Err(ManifestFault::Io { path, reason }),
        FileText::Malformed { reason } => Err(ManifestFault::Parse { path, reason }),
        FileText::Holds(manifest) => Ok(manifest),
    }
}

/// Read a project's `laplace.toml`, given what came of it. A missing file is treated as an
/// empty manifest (no dependencies yet) rather than an error, so a fresh project can run
/// `laplace add` before `laplace.toml` exists.
pub fn read_project_manifest(path: &str, outcome: FileOutcome<ProjectManifest>) -> (r: Result<
    ProjectManifest,
    ManifestError,
>)
    ensures
        deep_result(r) == project_manifest_of(path@, outcome.deep_view()),
{
    match outcome {
        FileOutcome::Missing { .. } => Ok(ProjectManifest::default()),
        FileOutcome::Unreadable { reason } => Err(
            ManifestError::Io { path: path.to_string(), reason },
        ),
        FileOutcome::Malformed { reason } => Err(
            ManifestError::Parse { path: path.to_string(), reason },
        ),
        FileOutcome::Holds(manifest) => Ok(manifest),
    }
}

/// What reading a package manifest comes to: the file must be there.
pub open spec fn package_manifest_of(path: Seq<char>, outcome: FileText<PackageText>) -> Result<
    PackageText,
    ManifestFault,
> {
    match outcome {
        FileText::Missing { reason } => Err(ManifestFault::Io { path, reason }),
        FileText::Unreadable { reason } => Err(ManifestFault::Io { path, reason }),
        FileText::Malformed { reason } => Err(ManifestFault::Parse { path, reason }),
        FileText::Holds(manifest) => Ok(manifest),
    }
}

/// Read a package's own `laplace.toml`, given what came of it. Unlike the project manifest,
/// this must exist -- every package in the registry ships one.
pub fn read_package_manifest(path: &str, outcome: FileOutcome<PackageManifest>) -> (r: Result<
    PackageManifest,
    ManifestError,
>)
    ensures
        deep_result(r) == package_manifest_of(path@, outcome.deep_view()),
{
    match outcome {
        FileOutcome::Missing { reason } => Err(
            ManifestError::Io { path: path.to_string(), reason },
        ),
        FileOutcome::Unreadable { reason } => Err(
            ManifestError::Io { path: path.to_string(), reason },
        ),
        FileOutcome::Malformed { reason } => Err(
            ManifestError::Parse { path: path.to_string(), reason },
        ),
        FileOutcome::Holds(manifest) => Ok(manifest),
    }
}

// A package's source ------------------------------------------------------

/// `name` is that of a `.stan` file.
pub open spec fn is_stan_name(name: Seq<char>) -> bool {
    name_extension(name) == Some("stan"@)
}

/// Those of `names` that are names of `.stan` files, in order.
pub open spec fn stan_names(names: Seq<Seq<char>>) -> Seq<Seq<char>>
    decreases names.len(),
{
    if names.len() == 0 {
        seq![]
    } else if is_stan_name(names.last()) {
        stan_names(names.drop_last()).push(names.last())
    } else {
        stan_names(names.drop_last())
    }
}

/// The names of a package directory's `.stan` files, sorted, given those of all its files.
pub fn stan_files(names: &Vec<String>) -> (r: Vec<String>)
    ensures
        deep(r@) == ranked::<String>(stan_names(deep(names@))),
{
    let ghost all = deep(names@);
    let mut out: Vec<String> = Vec::new();
    assert(deep(out@) =~= stan_names(all.take(0)));
    let mut i: usize = 0;
    while i < names.len()
        invariant
            all == deep(names@),
            i <= names@.len(),
            deep(out@) == stan_names(all.take(i as int)),
        decreases names@.len() - i,
    {
        let ghost held = out@;
        proof {
            assert(all.take(i + 1).drop_last() =~= all.take(i as int));
            assert(all.take(i + 1).last() == names@[i as int]@);
        }
        let is_stan = match extension(names[i].as_str()) {
            Some(ext) => same(ext.as_str(), "stan"),
            None => false,
        };
        if is_stan {
            out.push(names[i].clone());
            assert(deep(out@) =~= deep(held).push(names@[i as int]@));
        }
        i += 1;
    }
    assert(all.take(i as int) =~= all);
    sort(out)
}

/// The texts of `files` one after the other, each with a line end behind it.
pub open spec fn concatenated(files: Seq<Seq<char>>) -> Seq<char>
    decreases files.len(),
{
    if files.len() == 0 {
        seq![]
    } else {
        concatenated(files.drop_last()) + files.last() + "\n"@
    }
}

/// Concatenate the texts of a package directory's `.stan` files, given in the order of their
/// names, so that code generation and doc extraction always agree on what a package's source
/// is.
pub fn read_package_stan_source(files: &Vec<String>) -> (r: String)
    ensures
        r@ == concatenated(deep(files@)),
{
    let ghost all = deep(files@);
    let mut out = String::new();
    assert(out@ =~= concatenated(all.take(0)));
    let mut i: usize = 0;
    while i < files.len()
        invariant
            all == deep(files@),
            i <= files@.len(),
            out@ == concatenated(all.take(i as int)),
        decreases files@.len() - i,
    {
        proof {
            assert(all.take(i + 1).drop_last() =~= all.take(i as int));
            assert(all.take(i + 1).last() == files@[i as int]@);
        }
        out = concat3(out.as_str(), files[i].as_str(), "\n");
        i += 1;
    }
    assert(all.take(i as int) =~= all);
    out
}

} // verus!
