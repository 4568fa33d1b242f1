//! Semantic versions and requirements on them.
use vstd::prelude::*;

use crate::text::{deep, same};

verus! {

/// What `semver::Version::parse` complains of in `text`, or none where it accepts it.
pub uninterp spec fn semver_fault(text: Seq<char>) -> Option<Seq<char>>;

/// What `semver::VersionReq::parse` complains of in `text`, or none where it accepts it.
pub uninterp spec fn semver_req_fault(text: Seq<char>) -> Option<Seq<char>>;

/// The version that `a` spells is less than the one that `b` spells, by the order of
/// `semver::Version`.
pub uninterp spec fn semver_less(a: Seq<char>, b: Seq<char>) -> bool;

/// The requirement that `req` spells matches the version that `version` spells, by
/// `semver::VersionReq::matches`.
pub uninterp spec fn semver_admits(req: Seq<char>, version: Seq<char>) -> bool;

/// The version that `version` spells is a release: it has no pre-release identifiers, which
/// a `-` before all build metadata would begin.
pub open spec fn is_release(version: Seq<char>) -> bool {
    forall|i: int|
        0 <= i < version.len() && #[trigger] version[i] == '-' ==> exists|j: int|
            0 <= j < i && #[trigger] version[j] == '+'
}

/// `semver::Version::parse`, and `to_string` of what it returns.
///
/// Whether a text is accepted, and with which message it is rejected, is a function of the
/// text alone. An accepted text comes back unchanged: the three numbers are written
/// without leading zeros, which the parser rejects, and the pre-release and build
/// identifiers are kept as they are.
#[verifier::external_body]
fn semver_parse(text: &str) -> (r: Result<String, String>)
    ensures
        match r {
            Ok(written) => semver_fault(text@) is None && written@ == text@,
            Err(message) => semver_fault(text@) == Some(message@),
        },
{
    match semver::Version::parse(text) {
        Ok(version) => Ok(version.to_string()),
        Err(error) => Err(error.to_string()),
    }
}

/// `semver::VersionReq::parse`: the message with which it rejects a text, if it does. It is
/// a function of the text alone. A `*` alone is accepted, and makes `VersionReq::STAR`.
#[verifier::external_body]
fn semver_req_parse(text: &str) -> (r: Option<String>)
    ensures
        match r {
            Some(message) => semver_req_fault(text@) == Some(message@),
            None => semver_req_fault(text@) is None,
        },
        text@ == "*"@ ==> r is None,
{
    match semver::VersionReq::parse(text) {
        Ok(_) => None,
        Err(error) => Some(error.to_string()),
    }
}

/// `<` of `semver::Version`, of the versions that `a` and `b` spell.
///
/// The order is total: not both of `a` and `b` are less than the other, and whatever is at
/// most `b` and greater than `a` shows that `a` is less than `b`.
#[verifier::external_body]
fn semver_is_less(a: &str, b: &str) -> (r: bool)
    requires
        semver_fault(a@) is None,
        semver_fault(b@) is None,
    ensures
        r == semver_less(a@, b@),
        r ==> !semver_less(b@, a@),
        forall|c: Seq<char>|
            semver_fault(c) is None && #[trigger] semver_less(a@, c) && !semver_less(b@, c) ==> r,
{
    semver::Version::parse(a).unwrap() < semver::Version::parse(b).unwrap()
}

/// `semver::VersionReq::matches`, of the requirement that `req` spells and the version that
/// `version` spells. A `*` has no comparators, and matches the releases.
#[verifier::external_body]
fn semver_matches(req: &str, version: &str) -> (r: bool)
    requires
        semver_req_fault(req@) is None,
        semver_fault(version@) is None,
    ensures
        r == semver_admits(req@, version@),
        req@ == "*"@ ==> r == is_release(version@),
{
    let requirement = semver::VersionReq::parse(req).unwrap();
    requirement.matches(&semver::Version::parse(version).unwrap())
}

/// A semantic version, held as the text that spells it. Two versions are the same exactly
/// if their texts are.
#[derive(Debug, PartialEq, Eq)]
pub struct Version {
    text: String,
}

impl DeepView for Version {
    type V = Seq<char>;

    closed spec fn deep_view(&self) -> Seq<char> {
        self.text@
    }
}

impl Version {
    #[verifier::type_invariant]
    spec fn well_formed(self) -> bool {
        semver_fault(self.text@) is None
    }

    /// The version that `text` spells, or the message that says why it spells none.
    pub fn parse(text: &str) -> (r: Result<Version, String>)
        ensures
            match r {
                Ok(version) => semver_fault(text@) is None && version.deep_view() == text@,
                Err(message) => semver_fault(text@) == Some(message@),
            },
    {
        match semver_parse(text) {
            Ok(text) => Ok(Version { text }),
            Err(message) => Err(message),
        }
    }

    /// The text that spells the version.
    pub fn as_str(&self) -> (r: &str)
        ensures
            r@ == self.deep_view(),
            semver_fault(r@) is None,
    {
        proof {
            use_type_invariant(self);
        }
        self.text.as_str()
    }
}

impl Clone for Version {
    fn clone(&self) -> (r: Self)
        ensures
            r.deep_view() == self.deep_view(),
    {
        proof {
            use_type_invariant(self);
        }
        Version { text: self.text.clone() }
    }
}

/// A requirement on versions, held as the text that spells it.
#[derive(Debug, PartialEq, Eq)]
pub struct Requirement {
    text: String,
}

impl DeepView for Requirement {
    type V = Seq<char>;

    closed spec fn deep_view(&self) -> Seq<char> {
        self.text@
    }
}

impl Requirement {
    #[verifier::type_invariant]
    spec fn well_formed(self) -> bool {
        semver_req_fault(self.text@) is None
    }

    /// The requirement that `text` spells, or the message that says why it spells none.
    pub fn parse(text: &str) -> (r: Result<Requirement, String>)
        ensures
            match r {
                Ok(req) => semver_req_fault(text@) is None && req.deep_view() == text@,
                Err(message) => semver_req_fault(text@) == Some(message@),
            },
    {
        match semver_req_parse(text) {
            None => Ok(Requirement { text: text.to_string() }),
            Some(message) => Err(message),
        }
    }

    /// The requirement that every release meets.
    pub fn any() -> (r: Requirement)
        ensures
            r.deep_view() == any_release(),
    {
        let rejected = semver_req_parse("*");
        assert(rejected is None);
        Requirement { text: "*".to_string() }
    }

    /// Whether `version` meets the requirement.
    pub fn matches(&self, version: &Version) -> (r: bool)
        ensures
            r == semver_admits(self.deep_view(), version.deep_view()),
            self.deep_view() == any_release() ==> r == is_release(version.deep_view()),
    {
        proof {
            use_type_invariant(self);
        }
        semver_matches(self.text.as_str(), version.as_str())
    }
}

/// The text of the requirement that every release meets.
pub open spec fn any_release() -> Seq<char> {
    "*"@
}

/// Those of `names` that spell a version, in order.
pub open spec fn versions_among(names: Seq<Seq<char>>) -> Seq<Seq<char>>
    decreases names.len(),
{
    if names.len() == 0 {
        seq![]
    } else if semver_fault(names.last()) is None {
        versions_among(names.drop_last()).push(names.last())
    } else {
        versions_among(names.drop_last())
    }
}

/// Those of `names` that spell a version, in order. The others are ignored.
pub fn versions_of(names: &Vec<String>) -> (r: Vec<Version>)
    ensures
        deep(r@) == versions_among(deep(names@)),
{
    let ghost all = deep(names@);
    let mut out: Vec<Version> = Vec::new();
    assert(deep(out@) =~= versions_among(all.take(0)));
    let mut i: usize = 0;
    while i < names.len()
        invariant
            all == deep(names@),
            i <= names@.len(),
            deep(out@) == versions_among(all.take(i as int)),
        decreases names@.len() - i,
    {
        let ghost held = out@;
        proof {
            assert(all.take(i + 1).drop_last() =~= all.take(i as int));
            assert(all.take(i + 1).last() == names@[i as int]@);
        }
        if let Ok(version) = Version::parse(names[i].as_str()) {
            out.push(version);
            assert(deep(out@) =~= deep(held).push(version.deep_view()));
        }
        i += 1;
    }
    assert(all.take(i as int) =~= all);
    out
}

/// The greatest of `versions` that meets the requirement `req`; of equal ones the last.
pub open spec fn latest(req: Seq<char>, versions: Seq<Seq<char>>) -> Option<Seq<char>>
    decreases versions.len(),
{
    if versions.len() == 0 {
        None
    } else {
        let best = latest(req, versions.drop_last());
        let next = versions.last();
        if !semver_admits(req, next) {
            best
        } else {
            match best {
                Some(version) => if semver_less(next, version) {
                    best
                } else {
                    Some(next)
                },
                None => Some(next),
            }
        }
    }
}

/// `best` is one of `versions` that meets `req`, and no other of these is greater.
pub open spec fn is_latest(req: Seq<char>, versions: Seq<Seq<char>>, best: Seq<char>) -> bool {
    &&& versions.contains(best)
    &&& semver_admits(req, best)
    &&& forall|i: int|
        0 <= i < versions.len() && semver_admits(req, #[trigger] versions[i]) && versions[i]
            != best ==> !semver_less(best, versions[i])
}

/// The greatest of `versions` that meets the requirement `req`.
pub fn latest_matching(req: &Requirement, versions: &Vec<Version>) -> (r: Option<Version>)
    ensures
        r.deep_view() == latest(req.deep_view(), deep(versions@)),
        match r {
            Some(best) => is_latest(req.deep_view(), deep(versions@), best.deep_view()),
            None => forall|i: int|
                0 <= i < versions@.len() ==> !semver_admits(
                    req.deep_view(),
                    #[trigger] deep(versions@)[i],
                ),
        },
        req.deep_view() == any_release() ==> (r matches Some(best) ==> is_release(
            best.deep_view(),
        )),
{
    let ghost all = deep(versions@);
    let ghost wanted = req.deep_view();
    let mut best: Option<Version> = None;
    let mut i: usize = 0;
    while i < versions.len()
        invariant
            all == deep(versions@),
            wanted == req.deep_view(),
            i <= versions@.len(),
            forall|k: int| 0 <= k < i ==> semver_fault(#[trigger] all[k]) is None,
            best.deep_view() == latest(wanted, all.take(i as int)),
            match best {
                Some(b) => is_latest(wanted, all.take(i as int), b.deep_view()),
                None => forall|k: int|
                    0 <= k < i ==> !semver_admits(wanted, #[trigger] all[k]),
            },
            wanted == any_release() ==> (best matches Some(b) ==> is_release(b.deep_view())),
        decreases versions@.len() - i,
    {
        let next = &versions[i];
        let text = next.as_str();
        let ghost part = all.take(i as int);
        let ghost longer = all.take(i + 1);
        let ghost found = best.deep_view();
        proof {
            assert(longer.drop_last() =~= part);
            assert(all[i as int] == text@);
            assert(longer[i as int] == text@);
            if let Some(b) = found {
                let at = choose|k: int| 0 <= k < part.len() && part[k] == b;
                assert(longer[at] == b);
            }
        }
        proof {
            assert forall|k: int|
                0 <= k < longer.len() && found is Some && semver_admits(
                    wanted,
                    #[trigger] longer[k],
                ) && longer[k] != found->0 && longer[k] != text@ implies !semver_less(
                found->0,
                longer[k],
            ) by {
                assert(longer[k] == part[k]);
            }
        }
        if req.matches(next) {
            let keeps = match &best {
                Some(b) => semver_is_less(text, b.as_str()),
                None => false,
            };
            if !keeps {
                proof {
                    assert forall|k: int|
                        0 <= k < longer.len() && semver_admits(wanted, #[trigger] longer[k])
                            && longer[k] != text@ implies !semver_less(text@, longer[k]) by {
                        assert(longer[k] == part[k]);
                        assert(longer[k] == all[k]);
                    }
                }
                best = Some(next.clone());
            }
        }
        i += 1;
    }
    assert(all.take(i as int) =~= all);
    best
}

/// Whether `version` is one of `versions`.
pub fn contains_version(versions: &Vec<Version>, version: &Version) -> (r: bool)
    ensures
        r == deep(versions@).contains(version.deep_view()),
{
    let mut i: usize = 0;
    while i < versions.len()
        invariant
            i <= versions@.len(),
            forall|j: int| 0 <= j < i ==> #[trigger] deep(versions@)[j] != version.deep_view(),
        decreases versions@.len() - i,
    {
        if same(versions[i].as_str(), version.as_str()) {
            assert(deep(versions@)[i as int] == version.deep_view());
            return true;
        }
        assert(deep(versions@)[i as int] != version.deep_view());
        i += 1;
    }
    false
}

} // verus!
