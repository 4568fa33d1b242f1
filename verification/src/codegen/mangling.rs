//! Mangling the packages' exports, and the names that they take.
use vstd::prelude::*;

use crate::codegen::{CodegenError, CodegenFault, InstalledPackage, Package};
use crate::codegen::rename::{mangle, mangled, rename_all_calls, replaced};
use crate::order::{ranked, sort};
use crate::text::{
    clone_texts, deep, first_from, lemma_first_agrees, lemma_first_extends, lemma_first_found,
    lemma_first_skip, same,
};

verus! {

/// The mangled names of `exports`.
pub open spec fn mangled_names(package: Seq<char>, exports: Seq<Seq<char>>) -> Seq<Seq<char>> {
    exports.map_values(|func: Seq<char>| mangled(package, func))
}

/// The code that a package contributes: its source with each of its exports renamed to its
/// mangled form, at its definition and at its call sites.
pub open spec fn package_code(package: Package) -> Seq<char> {
    let exports = ranked::<String>(package.exported);
    replaced(package.source, exports, mangled_names(package.name, exports))
}

/// The code that each of `packages` contributes.
pub open spec fn package_codes(packages: Seq<Package>) -> Seq<Seq<char>> {
    packages.map_values(|p: Package| package_code(p))
}

/// A mangled name and the package that takes it.
#[verifier::ext_equal]
pub struct Claim {
    pub mangled: Seq<char>,
    pub package: Seq<char>,
}

/// The names that a package takes for `exports`.
pub open spec fn package_claims(package: Seq<char>, exports: Seq<Seq<char>>) -> Seq<Claim> {
    exports.map_values(|func: Seq<char>| Claim { mangled: mangled(package, func), package })
}

/// The names that `packages` take, in order.
pub open spec fn claims(packages: Seq<Package>) -> Seq<Claim>
    decreases packages.len(),
{
    if packages.len() == 0 {
        seq![]
    } else {
        claims(packages.drop_last()) + package_claims(
            packages.last().name,
            ranked::<String>(packages.last().exported),
        )
    }
}

/// A claim of a name that another package has claimed before.
pub open spec fn clashes(taken: Seq<Claim>) -> spec_fn(int) -> bool {
    |j: int|
        exists|i: int|
            0 <= i < j && (#[trigger] taken[i]).mangled == taken[j].mangled && taken[i].package
                != taken[j].package
}

/// A claim of the name `name`.
pub open spec fn claims_name(taken: Seq<Claim>, name: Seq<char>) -> spec_fn(int) -> bool {
    |i: int| taken[i].mangled == name
}

/// The fault of the first claim, if any, of a name that another package has claimed
/// before.
pub open spec fn claim_fault(taken: Seq<Claim>) -> Option<CodegenFault> {
    match first_from(clashes(taken), 0, taken.len() as int) {
        None => None,
        Some(j) => Some(
            CodegenFault::DuplicateMangledName {
                mangled: taken[j].mangled,
                first_package: taken[first_from(
                    claims_name(taken, taken[j].mangled),
                    0,
                    j,
                )->0].package,
                second_package: taken[j].package,
            },
        ),
    }
}

/// A claim, as a value of the program.
struct NameClaim {
    mangled: String,
    package: String,
}

impl DeepView for NameClaim {
    type V = Claim;

    closed spec fn deep_view(&self) -> Claim {
        Claim { mangled: self.mangled@, package: self.package@ }
    }
}

/// The package of the first of `taken` that claims `name`.
fn find_claim<'a>(taken: &'a Vec<NameClaim>, name: &str) -> (r: Option<&'a String>)
    ensures
        match r {
            Some(package) => {
                let i = first_from(claims_name(deep(taken@), name@), 0, taken@.len() as int);
                &&& i is Some
                &&& 0 <= i->0 < taken@.len()
                &&& deep(taken@)[i->0] == (Claim { mangled: name@, package: package@ })
            },
            None => first_from(claims_name(deep(taken@), name@), 0, taken@.len() as int) is None,
        },
{
    let ghost p = claims_name(deep(taken@), name@);
    let ghost n = taken@.len() as int;
    let mut i: usize = 0;
    while i < taken.len()
        invariant
            p == claims_name(deep(taken@), name@),
            n == taken@.len(),
            i <= n,
            first_from(p, 0, n) == first_from(p, i as int, n),
        decreases n - i,
    {
        assert(deep(taken@)[i as int] == taken@[i as int].deep_view());
        if same(taken[i].mangled.as_str(), name) {
            assert(p(i as int));
            return Some(&taken[i].package);
        }
        assert(!p(i as int));
        i += 1;
    }
    None
}

/// Behind claims without a clash, a further claim clashes exactly if the first claim of
/// its name is another package's.
proof fn lemma_next_claim(taken: Seq<Claim>, next: Claim)
    requires
        first_from(clashes(taken), 0, taken.len() as int) is None,
    ensures
        ({
            let i = first_from(claims_name(taken, next.mangled), 0, taken.len() as int);
            let all = taken.push(next);
            &&& clashes(all)(taken.len() as int) <==> (i is Some && taken[i->0].package
                != next.package)
            &&& i == first_from(claims_name(all, next.mangled), 0, taken.len() as int)
            &&& forall|j: int| 0 <= j < taken.len() ==> !#[trigger] clashes(all)(j)
        }),
{
    let n = taken.len() as int;
    let all = taken.push(next);
    let named = claims_name(taken, next.mangled);
    lemma_first_found(clashes(taken), 0, n);
    lemma_first_found(named, 0, n);
    lemma_first_agrees(named, claims_name(all, next.mangled), 0, n);
    assert forall|j: int| 0 <= j < n implies !#[trigger] clashes(all)(j) by {
        assert(!clashes(taken)(j));
        if clashes(all)(j) {
            let i = choose|i: int|
                0 <= i < j && (#[trigger] all[i]).mangled == all[j].mangled && all[i].package
                    != all[j].package;
            assert(taken[i].mangled == taken[j].mangled && taken[i].package != taken[j].package);
        }
    }
    match first_from(named, 0, n) {
        None => {
            if clashes(all)(n) {
                let i = choose|i: int|
                    0 <= i < n && (#[trigger] all[i]).mangled == all[n].mangled && all[i].package
                        != all[n].package;
                assert(named(i));
            }
        },
        Some(k) => {
            assert(named(k));
            if taken[k].package != next.package {
                assert(all[k].mangled == all[n].mangled && all[k].package != all[n].package);
                assert(clashes(all)(n));
            } else if clashes(all)(n) {
                let i = choose|i: int|
                    0 <= i < n && (#[trigger] all[i]).mangled == all[n].mangled && all[i].package
                        != all[n].package;
                assert(named(i));
                assert(k < i);
                assert(taken[k].mangled == taken[i].mangled && taken[k].package
                    != taken[i].package);
                assert(clashes(taken)(i));
            }
        },
    }
}

/// A clash among the first claims is the clash of all of them.
proof fn lemma_clash_stays(taken: Seq<Claim>, n: int)
    requires
        0 <= n <= taken.len(),
        claim_fault(taken.take(n)) is Some,
    ensures
        claim_fault(taken) == claim_fault(taken.take(n)),
{
    let part = taken.take(n);
    assert forall|j: int| 0 <= j < n implies #[trigger] clashes(part)(j) == clashes(taken)(j) by {
        if clashes(taken)(j) {
            let i = choose|i: int|
                0 <= i < j && (#[trigger] taken[i]).mangled == taken[j].mangled && taken[i].package
                    != taken[j].package;
            assert(part[i].mangled == part[j].mangled && part[i].package != part[j].package);
        }
        if clashes(part)(j) {
            let i = choose|i: int|
                0 <= i < j && (#[trigger] part[i]).mangled == part[j].mangled && part[i].package
                    != part[j].package;
            assert(taken[i].mangled == taken[j].mangled && taken[i].package != taken[j].package);
        }
    }
    lemma_first_agrees(clashes(part), clashes(taken), 0, n);
    lemma_first_found(clashes(part), 0, n);
    let j = first_from(clashes(part), 0, n)->0;
    lemma_first_extends(clashes(taken), 0, n, taken.len() as int);
    lemma_first_agrees(claims_name(part, part[j].mangled), claims_name(taken, taken[j].mangled), 0, j);
    lemma_first_found(claims_name(part, part[j].mangled), 0, j);
    let i = choose|i: int|
        0 <= i < j && (#[trigger] part[i]).mangled == part[j].mangled && part[i].package
            != part[j].package;
    assert(claims_name(part, part[j].mangled)(i));
}

/// The code that each of `packages` contributes, or the fault of the first mangled name
/// that two of them take.
pub fn mangle_packages(packages: &Vec<&InstalledPackage>) -> (r: Result<Vec<String>, CodegenError>)
    ensures
        match r {
            Ok(codes) => {
                &&& claim_fault(claims(deep(packages@))) is None
                &&& deep(codes@) == package_codes(deep(packages@))
            },
            Err(e) => claim_fault(claims(deep(packages@))) == Some(e.deep_view()),
        },
{
    let ghost all = deep(packages@);
    let mut codes: Vec<String> = Vec::new();
    let mut taken: Vec<NameClaim> = Vec::new();
    assert(deep(codes@) =~= package_codes(all.take(0)));
    assert(deep(taken@) =~= claims(all.take(0)));
    let mut i: usize = 0;
    while i < packages.len()
        invariant
            all == deep(packages@),
            i <= packages@.len(),
            deep(codes@) == package_codes(all.take(i as int)),
            deep(taken@) == claims(all.take(i as int)),
            first_from(clashes(deep(taken@)), 0, taken@.len() as int) is None,
        decreases packages@.len() - i,
    {
        let pkg = packages[i];
        let ghost before = deep(taken@);
        let ghost package = pkg.deep_view();
        let exports = sort(clone_texts(&pkg.exported));
        let ghost names = deep(exports@);
        let ghost next = before + package_claims(package.name, names);
        proof {
            assert(all.take(i + 1).drop_last() =~= all.take(i as int));
            assert(all.take(i + 1).last() == package);
            assert(next == claims(all.take(i + 1)));
            assert(before =~= next.take(before.len() as int));
        }
        let mut mangled_exports: Vec<String> = Vec::new();
        let mut j: usize = 0;
        while j < exports.len()
            invariant
                all == deep(packages@),
                i < packages@.len(),
                package == pkg.deep_view(),
                names == deep(exports@),
                next == before + package_claims(package.name, names),
                next == claims(all.take(i + 1)),
                j <= exports@.len(),
                deep(mangled_exports@) == mangled_names(package.name, names).take(j as int),
                deep(taken@) == next.take(before.len() + j),
                first_from(clashes(deep(taken@)), 0, taken@.len() as int) is None,
            decreases exports@.len() - j,
        {
            let export = exports[j].as_str();
            let mangled_name = mangle(pkg.name.as_str(), export);
            let ghost held = deep(taken@);
            let ghost claim = Claim { mangled: mangled_name@, package: package.name };
            proof {
                lemma_next_claim(held, claim);
                assert(names[j as int] == export@);
                assert(next[before.len() + j] == claim);
                assert(next.take(before.len() + j + 1) =~= held.push(claim));
                lemma_first_skip(
                    clashes(held.push(claim)),
                    0,
                    held.len() as int,
                    held.len() as int + 1,
                );
            }
            if let Some(owner) = find_claim(&taken, mangled_name.as_str()) {
                if !same(owner.as_str(), pkg.name.as_str()) {
                    proof {
                        let m = before.len() + j;
                        let part = next.take(m + 1);
                        lemma_first_found(claims_name(held, claim.mangled), 0, held.len() as int);
                        assert(first_from(clashes(part), 0, m + 1) == Some(m));
                        lemma_clash_stays(next, m + 1);
                        lemma_claims_prefix(all, i + 1);
                        lemma_clash_stays(claims(all), next.len() as int);
                    }
                    return Err(
                        CodegenError::DuplicateMangledName {
                            mangled: mangled_name,
                            first_package: owner.clone(),
                            second_package: pkg.name.clone(),
                        },
                    );
                }
            }
            let ghost renamed = mangled_exports@;
            mangled_exports.push(mangled_name.clone());
            assert(deep(mangled_exports@) =~= deep(renamed).push(mangled_name@));
            taken.push(NameClaim { mangled: mangled_name, package: pkg.name.clone() });
            proof {
                let n = held.len() as int;
                assert(deep(taken@) =~= held.push(claim));
                assert(!clashes(held.push(claim))(n));
                assert(first_from(clashes(held.push(claim)), n + 1, n + 1) is None);
            }
            j += 1;
        }
        assert(deep(mangled_exports@) =~= mangled_names(package.name, names));
        assert(next.take(before.len() + j) =~= next);
        assert(exports@.len() == names.len() == mangled_exports@.len());
        let code = rename_all_calls(pkg.source.as_str(), &exports, &mangled_exports);
        let ghost old_codes = codes@;
        codes.push(code);
        assert(deep(codes@) =~= deep(old_codes).push(package_code(package)));
        assert(package_codes(all.take(i + 1)) =~= package_codes(all.take(i as int)).push(
            package_code(package),
        ));
        i += 1;
    }
    assert(all.take(i as int) =~= all);
    Ok(codes)
}

/// The claims of the first packages come first.
proof fn lemma_claims_prefix(packages: Seq<Package>, n: int)
    requires
        0 <= n <= packages.len(),
    ensures
        claims(packages.take(n)).len() <= claims(packages).len(),
        claims(packages).take(claims(packages.take(n)).len() as int) == claims(packages.take(n)),
    decreases packages.len(),
{
    if n == packages.len() {
        assert(packages.take(n) =~= packages);
        assert(claims(packages).take(claims(packages).len() as int) =~= claims(packages));
    } else {
        assert(packages.drop_last().take(n) =~= packages.take(n));
        lemma_claims_prefix(packages.drop_last(), n);
        let short = claims(packages.take(n));
        assert(claims(packages).take(short.len() as int) =~= claims(packages.drop_last()).take(
            short.len() as int,
        ));
    }
}

} // verus!
