//! The edits that rewrite `pkg::func(` call sites.
use vstd::prelude::*;

use crate::codegen::{CodegenError, CodegenFault, InstalledPackage, Package};
use crate::codegen::edits::{edits_fit, Edit, SourceEdit};
use crate::codegen::rename::{mangle, mangled, CallSite, Site};
use crate::text::{contains_text, deep, same};

verus! {

/// The last of `packages` with the name `name`.
pub open spec fn find_package(packages: Seq<Package>, name: Seq<char>) -> Option<Package>
    decreases packages.len(),
{
    if packages.len() == 0 {
        None
    } else if packages.last().name == name {
        Some(packages.last())
    } else {
        find_package(packages.drop_last(), name)
    }
}

/// The last of `packages` with the name `name`.
fn lookup_package<'a>(packages: &Vec<&'a InstalledPackage>, name: &str) -> (r: Option<
    &'a InstalledPackage,
>)
    ensures
        r.deep_view() == find_package(deep(packages@), name@),
{
    let ghost all = deep(packages@);
    let mut n: usize = packages.len();
    assert(all.take(n as int) =~= all);
    while n > 0
        invariant
            all == deep(packages@),
            n <= packages@.len(),
            find_package(all, name@) == find_package(all.take(n as int), name@),
        decreases n,
    {
        let pkg = packages[n - 1];
        proof {
            assert(all.take(n as int).last() == pkg.deep_view());
            assert(all.take(n as int).drop_last() =~= all.take(n - 1));
        }
        if same(pkg.name.as_str(), name) {
            return Some(pkg);
        }
        n -= 1;
    }
    None
}

/// The call site stands inside the span.
pub open spec fn inside(span: Option<(int, int)>, site: CallSite) -> bool {
    match span {
        Some((start, end)) => start <= site.start && site.end <= end,
        None => false,
    }
}

/// The edits that replace the call sites outside of `span` by the mangled names, or the
/// fault of the first of them that calls what none of `packages` exports.
pub open spec fn call_edits(
    sites: Seq<CallSite>,
    span: Option<(int, int)>,
    packages: Seq<Package>,
) -> Result<Seq<Edit>, CodegenFault>
    decreases sites.len(),
{
    if sites.len() == 0 {
        Ok(seq![])
    } else {
        let site = sites.last();
        match call_edits(sites.drop_last(), span, packages) {
            Err(fault) => Err(fault),
            Ok(edits) => if inside(span, site) {
                Ok(edits)
            } else {
                match find_package(packages, site.package) {
                    None => Err(
                        CodegenFault::UnknownPackageReference {
                            package: site.package,
                            func: site.func,
                        },
                    ),
                    Some(package) => if !package.exported.contains(site.func) {
                        Err(
                            CodegenFault::FunctionNotExported {
                                package: site.package,
                                func: site.func,
                            },
                        )
                    } else {
                        Ok(
                            edits.push(
                                Edit {
                                    start: site.start,
                                    end: site.end,
                                    text: mangled(site.package, site.func),
                                    splice: false,
                                },
                            ),
                        )
                    },
                }
            },
        }
    }
}

/// A fault among the first call sites is the fault of all of them.
proof fn lemma_call_fault_stays(
    sites: Seq<CallSite>,
    span: Option<(int, int)>,
    packages: Seq<Package>,
    n: int,
)
    requires
        0 <= n <= sites.len(),
        call_edits(sites.take(n), span, packages) is Err,
    ensures
        call_edits(sites, span, packages) == call_edits(sites.take(n), span, packages),
    decreases sites.len(),
{
    if n == sites.len() {
        assert(sites.take(n) =~= sites);
    } else {
        assert(sites.drop_last().take(n) =~= sites.take(n));
        lemma_call_fault_stays(sites.drop_last(), span, packages, n);
    }
}

/// A span, as numbers of the model.
pub open spec fn span_of(span: Option<(usize, usize)>) -> Option<(int, int)> {
    match span {
        Some((start, end)) => Some((start as int, end as int)),
        None => None,
    }
}

/// The edits that replace the call sites outside of `span` by the mangled names, in a
/// source of length `n`.
pub fn edit_calls(
    sites: &Vec<Site>,
    span: Option<(usize, usize)>,
    packages: &Vec<&InstalledPackage>,
    n: usize,
) -> (r: Result<Vec<SourceEdit>, CodegenError>)
    requires
        forall|k: int|
            0 <= k < sites@.len() ==> (#[trigger] sites@[k]).start <= sites@[k].end <= n,
    ensures
        match r {
            Ok(edits) => {
                &&& call_edits(deep(sites@), span_of(span), deep(packages@)) == Ok::<
                    Seq<Edit>,
                    CodegenFault,
                >(deep(edits@))
                &&& edits_fit(deep(edits@), n as int)
            },
            Err(e) => call_edits(deep(sites@), span_of(span), deep(packages@)) == Err::<
                Seq<Edit>,
                CodegenFault,
            >(e.deep_view()),
        },
{
    let ghost all = deep(sites@);
    let ghost model = deep(packages@);
    let mut edits: Vec<SourceEdit> = Vec::new();
    assert(deep(edits@) =~= seq![]);
    let mut i: usize = 0;
    while i < sites.len()
        invariant
            all == deep(sites@),
            model == deep(packages@),
            i <= sites@.len(),
            call_edits(all.take(i as int), span_of(span), model) == Ok::<
                Seq<Edit>,
                CodegenFault,
            >(deep(edits@)),
            edits_fit(deep(edits@), n as int),
            forall|k: int|
                0 <= k < sites@.len() ==> (#[trigger] sites@[k]).start <= sites@[k].end <= n,
        decreases sites@.len() - i,
    {
        let site = &sites[i];
        proof {
            assert(all.take(i + 1).drop_last() =~= all.take(i as int));
            assert(all.take(i + 1).last() == site.deep_view());
        }
        let skipped = match span {
            Some((start, end)) => start <= site.start && site.end <= end,
            None => false,
        };
        if !skipped {
            match lookup_package(packages, site.package.as_str()) {
                None => {
                    proof {
                        lemma_call_fault_stays(all, span_of(span), model, i + 1);
                    }
                    return Err(
                        CodegenError::UnknownPackageReference {
                            package: site.package.clone(),
                            func: site.func.clone(),
                        },
                    );
                },
                Some(target) => {
                    if !contains_text(&target.exported, site.func.as_str()) {
                        proof {
                            lemma_call_fault_stays(all, span_of(span), model, i + 1);
                        }
                        return Err(
                            CodegenError::FunctionNotExported {
                                package: site.package.clone(),
                                func: site.func.clone(),
                            },
                        );
                    }
                    let ghost before = edits@;
                    let edit = SourceEdit {
                        start: site.start,
                        end: site.end,
                        text: mangle(site.package.as_str(), site.func.as_str()),
                        splice: false,
                    };
                    edits.push(edit);
                    assert(deep(edits@) =~= deep(before).push(edit.deep_view()));
                },
            }
        }
        i += 1;
    }
    assert(all.take(i as int) =~= all);
    Ok(edits)
}

} // verus!
