//! Which sources compile, and what is wrong with those that do not.
use vstd::prelude::*;

use crate::codegen::{block_imports, block_span, compiled, CodegenFault, Package};
use crate::codegen::calls::{call_edits, find_package};
use crate::codegen::imports::{
    defines, export_fault, first_undefined, has_undefined, imported, imports_package,
    undefined_export, unresolved,
};
use crate::codegen::mangling::{claim_fault, claims, claims_name, clashes, package_claims, Claim};
use crate::codegen::rename::{call_sites, mangled, CallSite};
use crate::laws::output::is_within;
use crate::order::{lemma_ranked_permutes, ranked, Ranked};
use crate::parser::library_block::{Import, Library};
use crate::parser::signatures::Signature;
use crate::text::{first_from, lemma_first_found};

verus! {

/// `packages[i]` is the last of `packages` with the name `name`.
pub open spec fn is_last_named(packages: Seq<Package>, name: Seq<char>, i: int) -> bool {
    &&& 0 <= i < packages.len()
    &&& packages[i].name == name
    &&& forall|j: int| i < j < packages.len() ==> (#[trigger] packages[j]).name != name
}

/// The package of a call is found, at whatever position it stands, exactly if one of the packages
/// has the name; of several with the name it is the last.
pub proof fn law_called_package_is_found(packages: Seq<Package>, name: Seq<char>)
    ensures
        find_package(packages, name) is Some <==> exists|i: int|
            0 <= i < packages.len() && (#[trigger] packages[i]).name == name,
        find_package(packages, name) matches Some(package) ==> exists|i: int|
            #[trigger] is_last_named(packages, name, i) && packages[i] == package,
    decreases packages.len(),
{
    if packages.len() > 0 {
        let front = packages.drop_last();
        let last = packages.len() - 1;
        law_called_package_is_found(front, name);
        if packages[last].name == name {
            assert(is_last_named(packages, name, last));
        } else if let Some(package) = find_package(front, name) {
            let i = choose|i: int|
                #[trigger] is_last_named(front, name, i) && front[i] == package;
            assert(packages[i] == front[i]);
            assert forall|j: int| i < j < packages.len() implies (#[trigger] packages[j]).name
                != name by {
                if j < last {
                    assert(front[j] == packages[j]);
                }
            }
            assert(is_last_named(packages, name, i));
        } else {
            assert forall|i: int| 0 <= i < packages.len() implies (#[trigger] packages[i]).name
                != name by {
                if i < last {
                    assert(front[i] == packages[i]);
                }
            }
        }
    }
}

/// Imported are those of the installed packages that an import names, all of them, in the order in
/// which they are installed.
pub proof fn law_imported_packages_are_those_named(installed: Seq<Package>, imports: Seq<Import>)
    ensures
        imported(installed, imports) == installed.filter(
            |p: Package| exists|i: int| 0 <= i < imports.len() && (#[trigger] imports[i]).name == p.name,
        ),
    decreases installed.len(),
{
    reveal(Seq::filter);
    if installed.len() > 0 {
        law_imported_packages_are_those_named(installed.drop_last(), imports);
    }
}

/// Among the imported packages the one of a name is the one among all that are installed, where an
/// import has the name.
proof fn lemma_imported_find(installed: Seq<Package>, imports: Seq<Import>, name: Seq<char>)
    ensures
        find_package(imported(installed, imports), name) == (if imports_package(imports, name) {
            find_package(installed, name)
        } else {
            None
        }),
    decreases installed.len(),
{
    if installed.len() > 0 {
        let front = installed.drop_last();
        let package = installed.last();
        lemma_imported_find(front, imports, name);
        if imports_package(imports, package.name) {
            assert(imported(installed, imports).drop_last() =~= imported(front, imports));
        }
    }
}

/// An installed package that is imported is one of those imported, and the other way round.
proof fn lemma_imported_contains(installed: Seq<Package>, imports: Seq<Import>, package: Package)
    ensures
        imported(installed, imports).contains(package) <==> installed.contains(package)
            && imports_package(imports, package.name),
    decreases installed.len(),
{
    if installed.len() > 0 {
        let front = installed.drop_last();
        let before = imported(front, imports);
        let all = imported(installed, imports);
        lemma_imported_contains(front, imports, package);
        assert(installed =~= front.push(installed.last()));
        assert(installed.contains(package) <==> front.contains(package) || package
            == installed.last()) by {
            if front.contains(package) {
                let i = choose|i: int| 0 <= i < front.len() && front[i] == package;
                assert(installed[i] == package);
            }
            assert(installed[installed.len() - 1] == installed.last());
            if installed.contains(package) && package != installed.last() {
                let i = choose|i: int| 0 <= i < installed.len() && installed[i] == package;
                assert(front[i] == package);
            }
        }
        if imports_package(imports, installed.last().name) {
            assert(all == before.push(installed.last()));
            assert(all.contains(package) <==> before.contains(package) || package
                == installed.last()) by {
                if before.contains(package) {
                    let i = choose|i: int| 0 <= i < before.len() && before[i] == package;
                    assert(all[i] == package);
                }
                assert(all[all.len() - 1] == installed.last());
                if all.contains(package) && package != installed.last() {
                    let i = choose|i: int| 0 <= i < all.len() && all[i] == package;
                    assert(before[i] == package);
                }
            }
        }
    }
}

/// A name is claimed exactly if a package exports a function that it is the mangled name of.
proof fn lemma_claims_contain(packages: Seq<Package>, claim: Claim)
    ensures
        claims(packages).contains(claim) <==> exists|i: int, func: Seq<char>|
            0 <= i < packages.len() && #[trigger] packages[i].exported.contains(func) && claim.package
                == packages[i].name && claim.mangled == mangled(packages[i].name, func),
    decreases packages.len(),
{
    if packages.len() > 0 {
        let front = packages.drop_last();
        let p = packages.last();
        let last = packages.len() - 1;
        let sorted = ranked::<String>(p.exported);
        let own = package_claims(p.name, sorted);
        let before = claims(front);
        let all = claims(packages);
        lemma_claims_contain(front, claim);
        assert(all == before + own);
        if all.contains(claim) {
            let k = choose|k: int| 0 <= k < all.len() && all[k] == claim;
            if k < before.len() {
                assert(before[k] == claim);
                let (i, func) = choose|i: int, func: Seq<char>|
                    0 <= i < front.len() && #[trigger] front[i].exported.contains(func)
                        && claim.package == front[i].name && claim.mangled == mangled(
                        front[i].name,
                        func,
                    );
                assert(packages[i] == front[i]);
                assert(packages[i].exported.contains(func));
            } else {
                let m = k - before.len();
                assert(own[m] == claim);
                lemma_ranked_members::<String>(p.exported, sorted[m]);
                assert(packages[last].exported.contains(sorted[m]));
            }
        }
        if exists|i: int, func: Seq<char>|
            0 <= i < packages.len() && #[trigger] packages[i].exported.contains(func) && claim.package
                == packages[i].name && claim.mangled == mangled(packages[i].name, func) {
            let (i, func) = choose|i: int, func: Seq<char>|
                0 <= i < packages.len() && #[trigger] packages[i].exported.contains(func)
                    && claim.package == packages[i].name && claim.mangled == mangled(
                    packages[i].name,
                    func,
                );
            if i < last {
                assert(front[i] == packages[i]);
                assert(front[i].exported.contains(func));
                let k = choose|k: int| 0 <= k < before.len() && before[k] == claim;
                assert(all[k] == claim);
            } else {
                lemma_ranked_members::<String>(p.exported, func);
                let m = choose|m: int| 0 <= m < sorted.len() && sorted[m] == func;
                assert(own[m] == claim);
                assert(all[before.len() + m] == claim);
            }
        }
    }
}

/// Sorting changes nothing about what is there.
pub proof fn lemma_ranked_members<T: Ranked>(s: Seq<T::V>, v: T::V)
    ensures
        ranked::<T>(s).contains(v) <==> s.contains(v),
{
    broadcast use vstd::seq_lib::group_to_multiset_ensures;

    lemma_ranked_permutes::<T>(s);
    assert(s.contains(v) <==> s.to_multiset().contains(v));
    assert(ranked::<T>(s).contains(v) <==> ranked::<T>(s).to_multiset().contains(v));
}

/// An installed package has the name.
pub open spec fn is_installed(installed: Seq<Package>, name: Seq<char>) -> bool {
    exists|i: int| 0 <= i < installed.len() && (#[trigger] installed[i]).name == name
}

/// Every import names an installed package.
pub open spec fn imports_resolve(imports: Seq<Import>, installed: Seq<Package>) -> bool {
    forall|k: int|
        #![trigger imports[k]]
        0 <= k < imports.len() ==> is_installed(installed, imports[k].name)
}

/// One of the functions has the name.
pub open spec fn has_function(sigs: Seq<Signature>, name: Seq<char>) -> bool {
    exists|f: int| 0 <= f < sigs.len() && (#[trigger] sigs[f]).name == name
}

/// Every package's source defines a function of the name of each of its exports.
pub open spec fn exports_exist(installed: Seq<Package>) -> bool {
    forall|i: int, m: int|
        #![trigger installed[i].exported[m]]
        0 <= i < installed.len() && 0 <= m < installed[i].exported.len() ==> has_function(
            installed[i].signatures,
            installed[i].exported[m],
        )
}

/// An import names the package.
pub open spec fn is_imported(imports: Seq<Import>, package: Package) -> bool {
    exists|k: int| 0 <= k < imports.len() && (#[trigger] imports[k]).name == package.name
}

/// Two imported packages of different names have no mangled name in common.
pub open spec fn names_stay_apart(imports: Seq<Import>, installed: Seq<Package>) -> bool {
    forall|i: int, j: int, f: Seq<char>, g: Seq<char>|
        0 <= i < installed.len() && 0 <= j < installed.len() && is_imported(imports, installed[i])
            && is_imported(imports, installed[j]) && installed[i].name != installed[j].name
            && #[trigger] installed[i].exported.contains(f)
            && #[trigger] installed[j].exported.contains(g) ==> installed[i].name + "__"@ + f
            != installed[j].name + "__"@ + g
}

/// The package that a call names is imported, and the last one of that name exports the function.
pub open spec fn call_resolves(
    imports: Seq<Import>,
    installed: Seq<Package>,
    site: CallSite,
) -> bool {
    exists|i: int|
        #[trigger] is_last_named(installed, site.package, i) && is_imported(imports, installed[i])
            && installed[i].exported.contains(site.func)
}

/// Every call outside of the library block is of a function that an imported package exports.
pub open spec fn calls_resolve(
    s: Seq<char>,
    block: Option<Library>,
    installed: Seq<Package>,
) -> bool {
    forall|k: int|
        0 <= k < call_sites(s).len() && !is_within(block_span(s, block), #[trigger] call_sites(s)[k])
            ==> call_resolves(block_imports(block), installed, call_sites(s)[k])
}

/// Compiling succeeds exactly if it should: every import is installed, every installed package
/// defines its exports, no two imported packages take the same mangled name, and every call outside
/// of the library block is of a function that an imported package exports.
pub proof fn law_sound_source_compiles(
    s: Seq<char>,
    block: Option<Library>,
    installed: Seq<Package>,
)
    ensures
        compiled(s, block, installed) is Ok <==> {
            &&& imports_resolve(block_imports(block), installed)
            &&& exports_exist(installed)
            &&& names_stay_apart(block_imports(block), installed)
            &&& calls_resolve(s, block, installed)
        },
{
    let imports = block_imports(block);
    let packages = imported(installed, imports);
    let span = block_span(s, block);
    lemma_imports_resolve(imports, installed);
    lemma_exports_exist(installed);
    lemma_names_stay_apart(imports, installed);
    lemma_calls_resolve(call_sites(s), span, imports, installed);
}

/// No import is unresolved exactly if all resolve.
proof fn lemma_imports_resolve(imports: Seq<Import>, installed: Seq<Package>)
    ensures
        first_from(unresolved(imports, installed), 0, imports.len() as int) is None
            <==> imports_resolve(imports, installed),
{
    let p = unresolved(imports, installed);
    lemma_first_found(p, 0, imports.len() as int);
    if first_from(p, 0, imports.len() as int) is None {
        assert forall|k: int|
            #![trigger imports[k]]
            0 <= k < imports.len() implies is_installed(installed, imports[k].name) by {
            assert(!p(k));
        }
    } else {
        let k = first_from(p, 0, imports.len() as int)->0;
        assert(p(k));
        assert(imports[k].name == imports[k].name);
    }
}

/// There is no fault of an export exactly if all exist.
proof fn lemma_exports_exist(installed: Seq<Package>)
    ensures
        export_fault(installed) is None <==> exports_exist(installed),
{
    let p = has_undefined(installed);
    lemma_first_found(p, 0, installed.len() as int);
    if export_fault(installed) is None {
        assert forall|i: int, m: int|
            #![trigger installed[i].exported[m]]
            0 <= i < installed.len() && 0 <= m < installed[i].exported.len() implies has_function(
            installed[i].signatures,
            installed[i].exported[m],
        ) by {
            assert(!p(i));
            let q = undefined_export(installed[i]);
            lemma_first_found(q, 0, installed[i].exported.len() as int);
            assert(!q(m));
        }
    } else {
        let i = first_from(p, 0, installed.len() as int)->0;
        assert(p(i));
        let q = undefined_export(installed[i]);
        lemma_first_found(q, 0, installed[i].exported.len() as int);
        let m = first_undefined(installed[i])->0;
        assert(q(m));
        assert(!defines(installed[i], installed[i].exported[m]));
    }
}

/// There is no fault of a claim exactly if no two packages share a mangled name.
proof fn lemma_names_stay_apart(imports: Seq<Import>, installed: Seq<Package>)
    ensures
        claim_fault(claims(imported(installed, imports))) is None <==> names_stay_apart(
            imports,
            installed,
        ),
{
    let packages = imported(installed, imports);
    let taken = claims(packages);
    let p = clashes(taken);
    lemma_first_found(p, 0, taken.len() as int);
    if claim_fault(taken) is None {
        assert forall|i: int, j: int, f: Seq<char>, g: Seq<char>|
            0 <= i < installed.len() && 0 <= j < installed.len() && is_imported(
                imports,
                installed[i],
            ) && is_imported(imports, installed[j]) && installed[i].name != installed[j].name
                && #[trigger] installed[i].exported.contains(f)
                && #[trigger] installed[j].exported.contains(g) implies installed[i].name + "__"@
            + f != installed[j].name + "__"@ + g by {
            let a = lemma_claimed(imports, installed, i, f);
            let b = lemma_claimed(imports, installed, j, g);
            if taken[a].mangled == taken[b].mangled {
                if a < b {
                    assert(p(b));
                } else {
                    assert(p(a));
                }
            }
        }
    } else {
        let b = first_from(p, 0, taken.len() as int)->0;
        assert(p(b));
        let a = choose|a: int|
            0 <= a < b && (#[trigger] taken[a]).mangled == taken[b].mangled && taken[a].package
                != taken[b].package;
        let (i, f) = lemma_claimant(imports, installed, a);
        let (j, g) = lemma_claimant(imports, installed, b);
        assert(installed[i].exported.contains(f) && installed[j].exported.contains(g));
    }
}

/// The claim of an export of an imported package.
proof fn lemma_claimed(
    imports: Seq<Import>,
    installed: Seq<Package>,
    i: int,
    f: Seq<char>,
) -> (k: int)
    requires
        0 <= i < installed.len(),
        is_imported(imports, installed[i]),
        installed[i].exported.contains(f),
    ensures
        0 <= k < claims(imported(installed, imports)).len(),
        claims(imported(installed, imports))[k] == (Claim {
            mangled: mangled(installed[i].name, f),
            package: installed[i].name,
        }),
{
    let packages = imported(installed, imports);
    let claim = Claim { mangled: mangled(installed[i].name, f), package: installed[i].name };
    lemma_imported_contains(installed, imports, installed[i]);
    assert(installed.contains(installed[i]));
    let m = choose|m: int| 0 <= m < packages.len() && packages[m] == installed[i];
    lemma_claims_contain(packages, claim);
    assert(packages[m].exported.contains(f));
    choose|k: int| 0 <= k < claims(packages).len() && claims(packages)[k] == claim
}

/// The imported package and its export that a claim is of.
proof fn lemma_claimant(imports: Seq<Import>, installed: Seq<Package>, k: int) -> (r: (
    int,
    Seq<char>,
))
    requires
        0 <= k < claims(imported(installed, imports)).len(),
    ensures
        ({
            let claim = claims(imported(installed, imports))[k];
            &&& 0 <= r.0 < installed.len()
            &&& is_imported(imports, installed[r.0])
            &&& installed[r.0].exported.contains(r.1)
            &&& claim.package == installed[r.0].name
            &&& claim.mangled == mangled(installed[r.0].name, r.1)
        }),
{
    let packages = imported(installed, imports);
    let claim = claims(packages)[k];
    assert(claims(packages).contains(claim));
    lemma_claims_contain(packages, claim);
    let (m, f) = choose|m: int, f: Seq<char>|
        0 <= m < packages.len() && #[trigger] packages[m].exported.contains(f) && claim.package
            == packages[m].name && claim.mangled == mangled(packages[m].name, f);
    assert(packages.contains(packages[m]));
    lemma_imported_contains(installed, imports, packages[m]);
    let i = choose|i: int| 0 <= i < installed.len() && installed[i] == packages[m];
    (i, f)
}

/// A call resolves exactly if its package is found and exports its function.
proof fn lemma_call_resolves(imports: Seq<Import>, installed: Seq<Package>, site: CallSite)
    ensures
        call_resolves(imports, installed, site) <==> (find_package(
            imported(installed, imports),
            site.package,
        ) matches Some(package) && package.exported.contains(site.func)),
{
    lemma_imported_find(installed, imports, site.package);
    law_called_package_is_found(installed, site.package);
    if call_resolves(imports, installed, site) {
        let i = choose|i: int|
            #[trigger] is_last_named(installed, site.package, i) && is_imported(
                imports,
                installed[i],
            ) && installed[i].exported.contains(site.func);
        let package = find_package(installed, site.package)->0;
        let j = choose|j: int|
            #[trigger] is_last_named(installed, site.package, j) && installed[j] == package;
        assert(i == j);
        assert(imports_package(imports, site.package));
    }
}

/// The edits of calls can be made exactly if all calls outside of the span resolve.
proof fn lemma_calls_resolve(
    sites: Seq<CallSite>,
    span: Option<(int, int)>,
    imports: Seq<Import>,
    installed: Seq<Package>,
)
    ensures
        call_edits(sites, span, imported(installed, imports)) is Ok <==> forall|k: int|
            0 <= k < sites.len() && !is_within(span, #[trigger] sites[k]) ==> call_resolves(
                imports,
                installed,
                sites[k],
            ),
    decreases sites.len(),
{
    if sites.len() > 0 {
        let front = sites.drop_last();
        let last = sites.len() - 1;
        lemma_calls_resolve(front, span, imports, installed);
        lemma_call_resolves(imports, installed, sites[last]);
        if call_edits(sites, span, imported(installed, imports)) is Ok {
            assert forall|k: int|
                0 <= k < sites.len() && !is_within(span, #[trigger] sites[k]) implies call_resolves(
                imports,
                installed,
                sites[k],
            ) by {
                if k < last {
                    assert(front[k] == sites[k]);
                }
            }
        } else if forall|k: int|
            0 <= k < sites.len() && !is_within(span, #[trigger] sites[k]) ==> call_resolves(
                imports,
                installed,
                sites[k],
            ) {
            assert forall|k: int|
                0 <= k < front.len() && !is_within(span, #[trigger] front[k]) implies call_resolves(
                imports,
                installed,
                front[k],
            ) by {
                assert(front[k] == sites[k]);
            }
            assert(is_within(span, sites[last]) || call_resolves(imports, installed, sites[last]));
        }
    }
}

/// The imports before the one at `k` are installed, and that one is not.
pub open spec fn is_first_missing(imports: Seq<Import>, installed: Seq<Package>, k: int) -> bool {
    &&& 0 <= k < imports.len()
    &&& !is_installed(installed, imports[k].name)
    &&& forall|j: int|
        #![trigger imports[j]]
        0 <= j < k ==> is_installed(installed, imports[j].name)
}

/// The exports before the one at `m` of the package at `i` are defined, and that one is not.
pub open spec fn is_first_undefined(installed: Seq<Package>, i: int, m: int) -> bool {
    &&& 0 <= i < installed.len()
    &&& 0 <= m < installed[i].exported.len()
    &&& !has_function(installed[i].signatures, installed[i].exported[m])
    &&& forall|n: int|
        #![trigger installed[i].exported[n]]
        0 <= n < m ==> has_function(installed[i].signatures, installed[i].exported[n])
    &&& exports_exist(installed.take(i))
}

/// The two imported packages, of different names, export functions that have the mangled name.
pub open spec fn share_name(
    imports: Seq<Import>,
    first: Package,
    second: Package,
    name: Seq<char>,
) -> bool {
    &&& first.name != second.name
    &&& is_imported(imports, first)
    &&& is_imported(imports, second)
    &&& exists|f: Seq<char>|
        #[trigger] first.exported.contains(f) && first.name + "__"@ + f == name
    &&& exists|g: Seq<char>|
        #[trigger] second.exported.contains(g) && second.name + "__"@ + g == name
}

/// Imported packages of the two names share the mangled name.
pub open spec fn is_shared(
    imports: Seq<Import>,
    installed: Seq<Package>,
    name: Seq<char>,
    first: Seq<char>,
    second: Seq<char>,
) -> bool {
    exists|i: int, j: int|
        0 <= i < installed.len() && 0 <= j < installed.len() && #[trigger] share_name(
            imports,
            installed[i],
            installed[j],
            name,
        ) && installed[i].name == first && installed[j].name == second
}

/// The package is imported, and the last one of its name does not export the function.
pub open spec fn is_kept_back(
    imports: Seq<Import>,
    installed: Seq<Package>,
    package: Seq<char>,
    func: Seq<char>,
) -> bool {
    exists|i: int|
        #[trigger] is_last_named(installed, package, i) && is_imported(imports, installed[i])
            && !installed[i].exported.contains(func)
}

/// The calls outside of `span` before the one at `k` resolve, and that one does not.
pub open spec fn is_first_unresolved(
    sites: Seq<CallSite>,
    span: Option<(int, int)>,
    imports: Seq<Import>,
    installed: Seq<Package>,
    k: int,
) -> bool {
    &&& 0 <= k < sites.len()
    &&& !is_within(span, sites[k])
    &&& !call_resolves(imports, installed, sites[k])
    &&& forall|j: int|
        0 <= j < k && !is_within(span, #[trigger] sites[j]) ==> call_resolves(
            imports,
            installed,
            sites[j],
        )
}

/// What has to be so for compiling to end in the fault.
pub open spec fn is_due(
    s: Seq<char>,
    block: Option<Library>,
    installed: Seq<Package>,
    fault: CodegenFault,
) -> bool {
    let imports = block_imports(block);
    let sites = call_sites(s);
    let span = block_span(s, block);
    match fault {
        CodegenFault::MissingImport { package } => exists|k: int|
            #[trigger] is_first_missing(imports, installed, k) && imports[k].name == package,
        CodegenFault::ExportedFunctionMissing { package, func } => {
            &&& imports_resolve(imports, installed)
            &&& exists|i: int, m: int|
                #[trigger] is_first_undefined(installed, i, m) && installed[i].name == package
                    && installed[i].exported[m] == func
        },
        CodegenFault::DuplicateMangledName { mangled, first_package, second_package } => {
            &&& imports_resolve(imports, installed)
            &&& exports_exist(installed)
            &&& is_shared(imports, installed, mangled, first_package, second_package)
        },
        CodegenFault::UnknownPackageReference { package, func } => {
            &&& imports_resolve(imports, installed)
            &&& exports_exist(installed)
            &&& names_stay_apart(imports, installed)
            &&& exists|k: int|
                #[trigger] is_first_unresolved(sites, span, imports, installed, k)
                    && sites[k].package == package && sites[k].func == func
            &&& forall|i: int|
                0 <= i < installed.len() && (#[trigger] installed[i]).name == package
                    ==> !is_imported(imports, installed[i])
        },
        CodegenFault::FunctionNotExported { package, func } => {
            &&& imports_resolve(imports, installed)
            &&& exports_exist(installed)
            &&& names_stay_apart(imports, installed)
            &&& exists|k: int|
                #[trigger] is_first_unresolved(sites, span, imports, installed, k)
                    && sites[k].package == package && sites[k].func == func
            &&& is_kept_back(imports, installed, package, func)
        },
    }
}

/// Where compiling fails, it says what is wrong: the first import that is not installed; else the
/// first export that its package does not define; else two imported packages with a mangled name
/// in common; else the first call outside of the library block that does not resolve, and whether
/// its package or only its function is the reason.
pub proof fn law_compile_faults_are_due(
    s: Seq<char>,
    block: Option<Library>,
    installed: Seq<Package>,
)
    ensures
        compiled(s, block, installed) matches Err(fault) ==> is_due(s, block, installed, fault),
{
    let imports = block_imports(block);
    let packages = imported(installed, imports);
    let span = block_span(s, block);
    let sites = call_sites(s);
    lemma_imports_resolve(imports, installed);
    lemma_exports_exist(installed);
    lemma_names_stay_apart(imports, installed);
    let p = unresolved(imports, installed);
    lemma_first_found(p, 0, imports.len() as int);
    if let Some(k) = first_from(p, 0, imports.len() as int) {
        assert(p(k));
        assert forall|j: int|
            #![trigger imports[j]]
            0 <= j < k implies is_installed(installed, imports[j].name) by {
            assert(!p(j));
        }
        assert(is_first_missing(imports, installed, k));
    } else if export_fault(installed) is Some {
        lemma_undefined_export_is_first(installed);
    } else if claim_fault(claims(packages)) is Some {
        let taken = claims(packages);
        let q = clashes(taken);
        lemma_first_found(q, 0, taken.len() as int);
        let b = first_from(q, 0, taken.len() as int)->0;
        assert(q(b));
        let c = claims_name(taken, taken[b].mangled);
        lemma_first_found(c, 0, b);
        let some = choose|a: int|
            0 <= a < b && (#[trigger] taken[a]).mangled == taken[b].mangled && taken[a].package
                != taken[b].package;
        assert(c(some));
        let a = first_from(c, 0, b)->0;
        assert(c(a));
        if taken[a].package == taken[b].package {
            assert(a < some);
            assert(taken[a].mangled == taken[some].mangled);
            assert(q(some));
        }
        let (i, f) = lemma_claimant(imports, installed, a);
        let (j, g) = lemma_claimant(imports, installed, b);
        assert(installed[i].exported.contains(f) && installed[j].exported.contains(g));
        assert(share_name(imports, installed[i], installed[j], taken[b].mangled));
        assert(compiled(s, block, installed)->Err_0 == CodegenFault::DuplicateMangledName {
            mangled: taken[b].mangled,
            first_package: installed[i].name,
            second_package: installed[j].name,
        });
        assert(is_shared(
            imports,
            installed,
            taken[b].mangled,
            installed[i].name,
            installed[j].name,
        ));
    } else if call_edits(sites, span, packages) is Err {
        let k = lemma_unresolved_call_is_first(sites, span, imports, installed);
        lemma_imported_find(installed, imports, sites[k].package);
        law_called_package_is_found(installed, sites[k].package);
        if find_package(packages, sites[k].package) is None {
            assert forall|i: int|
                0 <= i < installed.len() && (#[trigger] installed[i]).name == sites[k].package implies
                !is_imported(imports, installed[i]) by {
            }
            assert(compiled(s, block, installed)->Err_0 == CodegenFault::UnknownPackageReference {
                package: sites[k].package,
                func: sites[k].func,
            });
            assert(is_first_unresolved(sites, span, imports, installed, k));
        } else {
            let package = find_package(installed, sites[k].package)->0;
            let i = choose|i: int|
                #[trigger] is_last_named(installed, sites[k].package, i) && installed[i] == package;
            assert(is_last_named(installed, sites[k].package, i) && is_imported(
                imports,
                installed[i],
            ));
            assert(!installed[i].exported.contains(sites[k].func));
            assert(is_kept_back(imports, installed, sites[k].package, sites[k].func));
            assert(compiled(s, block, installed)->Err_0 == CodegenFault::FunctionNotExported {
                package: sites[k].package,
                func: sites[k].func,
            });
            assert(is_first_unresolved(sites, span, imports, installed, k));
        }
    }
}

/// The fault of an export is that of the first that is not defined.
proof fn lemma_undefined_export_is_first(installed: Seq<Package>)
    requires
        export_fault(installed) is Some,
    ensures
        export_fault(installed)->0 matches CodegenFault::ExportedFunctionMissing { package, func }
            && exists|i: int, m: int|
            #[trigger] is_first_undefined(installed, i, m) && installed[i].name == package
                && installed[i].exported[m] == func,
{
    let p = has_undefined(installed);
    lemma_first_found(p, 0, installed.len() as int);
    let i = first_from(p, 0, installed.len() as int)->0;
    assert(p(i));
    let q = undefined_export(installed[i]);
    lemma_first_found(q, 0, installed[i].exported.len() as int);
    let m = first_undefined(installed[i])->0;
    assert(q(m));
    assert(!defines(installed[i], installed[i].exported[m]));
    assert forall|n: int|
        #![trigger installed[i].exported[n]]
        0 <= n < m implies has_function(installed[i].signatures, installed[i].exported[n]) by {
        assert(!q(n));
    }
    let before = installed.take(i);
    let r = has_undefined(before);
    lemma_first_found(r, 0, before.len() as int);
    if let Some(j) = first_from(r, 0, before.len() as int) {
        assert(r(j));
        assert(before[j] == installed[j]);
        assert(!p(j));
    }
    lemma_exports_exist(before);
    assert(is_first_undefined(installed, i, m));
}

/// The fault of a call is that of the first that does not resolve.
proof fn lemma_unresolved_call_is_first(
    sites: Seq<CallSite>,
    span: Option<(int, int)>,
    imports: Seq<Import>,
    installed: Seq<Package>,
) -> (k: int)
    requires
        call_edits(sites, span, imported(installed, imports)) is Err,
    ensures
        is_first_unresolved(sites, span, imports, installed, k),
        call_edits(sites, span, imported(installed, imports))->Err_0 == (if find_package(
            imported(installed, imports),
            sites[k].package,
        ) is None {
            CodegenFault::UnknownPackageReference {
                package: sites[k].package,
                func: sites[k].func,
            }
        } else {
            CodegenFault::FunctionNotExported { package: sites[k].package, func: sites[k].func }
        }),
    decreases sites.len(),
{
    let front = sites.drop_last();
    let packages = imported(installed, imports);
    let last = sites.len() - 1;
    if call_edits(front, span, packages) is Err {
        let k = lemma_unresolved_call_is_first(front, span, imports, installed);
        assert(front[k] == sites[k]);
        assert forall|j: int| 0 <= j < k && !is_within(span, #[trigger] sites[j]) implies call_resolves(
            imports,
            installed,
            sites[j],
        ) by {
            assert(front[j] == sites[j]);
        }
        k
    } else {
        lemma_calls_resolve(front, span, imports, installed);
        lemma_call_resolves(imports, installed, sites[last]);
        assert forall|j: int|
            0 <= j < last && !is_within(span, #[trigger] sites[j]) implies call_resolves(
            imports,
            installed,
            sites[j],
        ) by {
            assert(front[j] == sites[j]);
        }
        last
    }
}

} // verus!
