//! `laplace.lock`: exact pins and checksums.
use vstd::prelude::*;

use crate::files::{FileOutcome, FileText};
use crate::order::{
    is_text_less, lemma_text_at_most_transitive, lemma_text_less_total, ranked, sort, text_at_most,
    Ranked,
};
use crate::text::{concat4, deep, deep_result, first_from, same};

verus! {

/// One exact pin.
#[derive(Debug, PartialEq, Eq)]
pub struct LockedPackage {
    pub name: String,
    pub version: String,
    pub checksum: String,
    /// Where the package comes from: `registry`, or `git+<url>@<ref>`.
    pub source: String,
}

/// What a pin says.
#[verifier::ext_equal]
pub struct Pin {
    pub name: Seq<char>,
    pub version: Seq<char>,
    pub checksum: Seq<char>,
    pub source: Seq<char>,
}

impl DeepView for LockedPackage {
    type V = Pin;

    open spec fn deep_view(&self) -> Pin {
        Pin {
            name: self.name@,
            version: self.version@,
            checksum: self.checksum@,
            source: self.source@,
        }
    }
}

impl Clone for LockedPackage {
    fn clone(&self) -> (r: Self)
        ensures
            r == *self,
    {
        LockedPackage {
            name: self.name.clone(),
            version: self.version.clone(),
            checksum: self.checksum.clone(),
            source: self.source.clone(),
        }
    }
}

impl Ranked for LockedPackage {
    open spec fn ranks_at_most(a: Pin, b: Pin) -> bool {
        text_at_most(a.name, b.name)
    }

    fn at_most(&self, other: &Self) -> (r: bool) {
        !is_text_less(other.name.as_str(), self.name.as_str())
    }

    proof fn rank_is_total(a: Pin, b: Pin) {
        lemma_text_less_total(a.name, b.name);
    }

    proof fn rank_is_transitive(a: Pin, b: Pin, c: Pin) {
        lemma_text_at_most_transitive(a.name, b.name, c.name);
    }
}

/// `laplace.lock`: an array of exact package pins. Always written sorted by name, so the
/// file is stable across writes regardless of insertion order.
#[derive(Debug, PartialEq, Eq)]
pub struct Lockfile {
    pub packages: Vec<LockedPackage>,
}

impl DeepView for Lockfile {
    type V = Seq<Pin>;

    open spec fn deep_view(&self) -> Seq<Pin> {
        deep(self.packages@)
    }
}

impl Default for Lockfile {
    fn default() -> (r: Self)
        ensures
            r.deep_view() == Seq::<Pin>::empty(),
    {
        let r = Lockfile { packages: Vec::new() };
        assert(r.deep_view() =~= Seq::<Pin>::empty());
        r
    }
}

impl Clone for Lockfile {
    fn clone(&self) -> (r: Self)
        ensures
            r.deep_view() == self.deep_view(),
    {
        let mut packages: Vec<LockedPackage> = Vec::new();
        let mut i: usize = 0;
        while i < self.packages.len()
            invariant
                i <= self.packages@.len(),
                packages@ == self.packages@.take(i as int),
            decreases self.packages@.len() - i,
        {
            packages.push(self.packages[i].clone());
            i += 1;
        }
        assert(packages@ =~= self.packages@);
        Lockfile { packages }
    }
}

/// A pin of the package `name`.
pub open spec fn pins_package(pins: Seq<Pin>, name: Seq<char>) -> spec_fn(int) -> bool {
    |i: int| pins[i].name == name
}

/// The first pin of the package `name`.
pub open spec fn find_pin(pins: Seq<Pin>, name: Seq<char>) -> Option<Pin> {
    match first_from(pins_package(pins, name), 0, pins.len() as int) {
        Some(i) => Some(pins[i]),
        None => None,
    }
}

/// `pins` without those of the package `name`.
pub open spec fn without_package(pins: Seq<Pin>, name: Seq<char>) -> Seq<Pin>
    decreases pins.len(),
{
    if pins.len() == 0 {
        seq![]
    } else if pins.last().name == name {
        without_package(pins.drop_last(), name)
    } else {
        without_package(pins.drop_last(), name).push(pins.last())
    }
}

/// `pins` with `pin` in place of all pins of its package.
pub open spec fn recorded(pins: Seq<Pin>, pin: Pin) -> Seq<Pin> {
    without_package(pins, pin.name).push(pin)
}

impl Lockfile {
    /// The first pin of the package `name`.
    pub fn find(&self, name: &str) -> (r: Option<&LockedPackage>)
        ensures
            r.deep_view() == find_pin(self.deep_view(), name@),
    {
        let ghost pins = self.deep_view();
        let ghost p = pins_package(pins, name@);
        let ghost n = pins.len() as int;
        let mut i: usize = 0;
        while i < self.packages.len()
            invariant
                pins == self.deep_view(),
                p == pins_package(pins, name@),
                n == pins.len(),
                i <= n,
                first_from(p, 0, n) == first_from(p, i as int, n),
            decreases n - i,
        {
            assert(pins[i as int] == self.packages@[i as int].deep_view());
            if same(self.packages[i].name.as_str(), name) {
                assert(p(i as int));
                return Some(&self.packages[i]);
            }
            assert(!p(i as int));
            i += 1;
        }
        None
    }

    /// Pins `locked` in place of all pins of its package.
    pub fn record(&mut self, locked: LockedPackage)
        ensures
            final(self).deep_view() == recorded(old(self).deep_view(), locked.deep_view()),
    {
        let ghost pins = self.deep_view();
        let mut packages: Vec<LockedPackage> = Vec::new();
        assert(deep(packages@) =~= without_package(pins.take(0), locked.name@));
        let mut i: usize = 0;
        while i < self.packages.len()
            invariant
                pins == self.deep_view(),
                i <= self.packages@.len(),
                deep(packages@) == without_package(pins.take(i as int), locked.name@),
            decreases self.packages@.len() - i,
        {
            let ghost held = packages@;
            let package = &self.packages[i];
            proof {
                assert(pins.take(i + 1).drop_last() =~= pins.take(i as int));
                assert(pins.take(i + 1).last() == package.deep_view());
            }
            if !same(package.name.as_str(), locked.name.as_str()) {
                packages.push(package.clone());
                assert(deep(packages@) =~= deep(held).push(package.deep_view()));
            }
            i += 1;
        }
        assert(pins.take(i as int) =~= pins);
        let ghost held = packages@;
        packages.push(locked);
        assert(deep(packages@) =~= deep(held).push(locked.deep_view()));
        self.packages = packages;
    }

    /// The lock as it is written: sorted by name, pins of the same name in the order they
    /// have.
    pub fn sorted(&self) -> (r: Lockfile)
        ensures
            r.deep_view() == ranked::<LockedPackage>(self.deep_view()),
    {
        Lockfile { packages: sort(self.clone().packages) }
    }
}

/// Why a lock cannot be read or written.
#[derive(Debug, PartialEq, Eq)]
pub enum LockfileError {
    /// The file at `path` cannot be accessed.
    Io { path: String, reason: String },
    /// The file at `path` does not hold a lock.
    Parse { path: String, reason: String },
    /// The lock for `path` cannot be written as text.
    Serialize { path: String, reason: String },
}

/// What a `LockfileError` says.
#[verifier::ext_equal]
pub enum LockfileFault {
    Io { path: Seq<char>, reason: Seq<char> },
    Parse { path: Seq<char>, reason: Seq<char> },
    Serialize { path: Seq<char>, reason: Seq<char> },
}

impl DeepView for LockfileError {
    type V = LockfileFault;

    open spec fn deep_view(&self) -> LockfileFault {
        match self {
            LockfileError::Io { path, reason } => LockfileFault::Io {
                path: path@,
                reason: reason@,
            },
            LockfileError::Parse { path, reason } => LockfileFault::Parse {
                path: path@,
                reason: reason@,
            },
            LockfileError::Serialize { path, reason } => LockfileFault::Serialize {
                path: path@,
                reason: reason@,
            },
        }
    }
}

/// The message of a lock fault.
pub open spec fn lockfile_message(fault: LockfileFault) -> Seq<char> {
    match fault {
        LockfileFault::Io { path, reason } => "failed to read "@ + path + ": "@ + reason,
        LockfileFault::Parse { path, reason } => "failed to parse "@ + path + ": "@ + reason,
        LockfileFault::Serialize { path, reason } => "failed to serialize lockfile for "@ + path
            + ": "@ + reason,
    }
}

impl LockfileError {
    /// The message of the error.
    pub fn message(&self) -> (r: String)
        ensures
            r@ == lockfile_message(self.deep_view()),
    {
        match self {
            LockfileError::Io { path, reason } => concat4(
                "failed to read ",
                path.as_str(),
                ": ",
                reason.as_str(),
            ),
            LockfileError::Parse { path, reason } => concat4(
                "failed to parse ",
                path.as_str(),
                ": ",
                reason.as_str(),
            ),
            LockfileError::Serialize { path, reason } => concat4(
                "failed to serialize lockfile for ",
                path.as_str(),
                ": ",
                reason.as_str(),
            ),
        }
    }
}

/// What reading a lock comes to: a missing file is an empty lock.
pub open spec fn lock_of(path: Seq<char>, outcome: FileText<Seq<Pin>>) -> Result<
    Seq<Pin>,
    LockfileFault,
> {
    match outcome {
        FileText::Missing { .. } => Ok(seq![]),
        FileText::Unreadable { reason } => Err(LockfileFault::Io { path, reason }),
        FileText::Malformed { reason } => Err(LockfileFault::Parse { path, reason }),
        FileText::Holds(pins) => Ok(pins),
    }
}

/// Read `laplace.lock`, given what came of it. A missing file is treated as an empty lock
/// (nothing installed yet), not an error.
pub fn read_lockfile(path: &str, outcome: FileOutcome<Lockfile>) -> (r: Result<
    Lockfile,
    LockfileError,
>)
    ensures
        deep_result(r) == lock_of(path@, outcome.deep_view()),
{
    match outcome {
        FileOutcome::Missing { .. } => Ok(Lockfile::default()),
        FileOutcome::Unreadable { reason } => Err(
            LockfileError::Io { path: path.to_string(), reason },
        ),
        FileOutcome::Malformed { reason } => Err(
            LockfileError::Parse { path: path.to_string(), reason },
        ),
        FileOutcome::Holds(lock) => Ok(lock),
    }
}

} // verus!
