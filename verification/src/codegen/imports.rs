//! Which installed packages a source imports, and whether these hold what they export.
use vstd::prelude::*;

use crate::codegen::{CodegenError, CodegenFault, InstalledPackage, Package};
use crate::parser::library_block::{Import, ImportStatement};
use crate::parser::signatures::FunctionSig;
use crate::text::{as_position, deep, first_from, same};

verus! {

/// One of `packages` has the name `name`.
pub open spec fn has_package(packages: Seq<Package>, name: Seq<char>) -> bool {
    exists|i: int| 0 <= i < packages.len() && (#[trigger] packages[i]).name == name
}

/// One of `imports` names the package `name`.
pub open spec fn imports_package(imports: Seq<Import>, name: Seq<char>) -> bool {
    exists|i: int| 0 <= i < imports.len() && (#[trigger] imports[i]).name == name
}

/// The source of `package` defines a function `func`.
pub open spec fn defines(package: Package, func: Seq<char>) -> bool {
    exists|i: int|
        0 <= i < package.signatures.len() && (#[trigger] package.signatures[i]).name == func
}

/// An import that names none of the installed packages.
pub open spec fn unresolved(imports: Seq<Import>, installed: Seq<Package>) -> spec_fn(
    int,
) -> bool {
    |i: int| !has_package(installed, imports[i].name)
}

/// An export of `package` that its source does not define.
pub open spec fn undefined_export(package: Package) -> spec_fn(int) -> bool {
    |i: int| !defines(package, package.exported[i])
}

/// The first export of `package` that its source does not define.
pub open spec fn first_undefined(package: Package) -> Option<int> {
    first_from(undefined_export(package), 0, package.exported.len() as int)
}

/// A package that exports what its source does not define.
pub open spec fn has_undefined(installed: Seq<Package>) -> spec_fn(int) -> bool {
    |i: int| first_undefined(installed[i]) is Some
}

/// Those of `installed` that `imports` name, in the order they have there.
pub open spec fn imported(installed: Seq<Package>, imports: Seq<Import>) -> Seq<Package>
    decreases installed.len(),
{
    if installed.len() == 0 {
        seq![]
    } else if imports_package(imports, installed.last().name) {
        imported(installed.drop_last(), imports).push(installed.last())
    } else {
        imported(installed.drop_last(), imports)
    }
}

/// The first import, if any, that names none of the installed packages.
pub fn find_unresolved(imports: &Vec<ImportStatement>, installed: &[InstalledPackage]) -> (r: Option<
    usize,
>)
    ensures
        as_position(r) == first_from(
            unresolved(deep(imports@), deep(installed@)),
            0,
            imports@.len() as int,
        ),
        r matches Some(i) ==> i < imports@.len(),
{
    let ghost p = unresolved(deep(imports@), deep(installed@));
    let ghost n = imports@.len() as int;
    let mut i: usize = 0;
    while i < imports.len()
        invariant
            p == unresolved(deep(imports@), deep(installed@)),
            n == imports@.len(),
            i <= n,
            first_from(p, 0, n) == first_from(p, i as int, n),
        decreases n - i,
    {
        if !is_installed(installed, imports[i].name.as_str()) {
            assert(p(i as int));
            return Some(i);
        }
        assert(!p(i as int));
        i += 1;
    }
    None
}

/// Whether one of `installed` has the name `name`.
fn is_installed(installed: &[InstalledPackage], name: &str) -> (r: bool)
    ensures
        r == has_package(deep(installed@), name@),
{
    let mut i: usize = 0;
    while i < installed.len()
        invariant
            i <= installed@.len(),
            forall|j: int| 0 <= j < i ==> (#[trigger] deep(installed@)[j]).name != name@,
        decreases installed@.len() - i,
    {
        if same(installed[i].name.as_str(), name) {
            assert(deep(installed@)[i as int].name == name@);
            return true;
        }
        assert(deep(installed@)[i as int].name != name@);
        i += 1;
    }
    false
}

/// Whether one of `imports` names the package `name`.
fn is_imported(imports: &Vec<ImportStatement>, name: &str) -> (r: bool)
    ensures
        r == imports_package(deep(imports@), name@),
{
    let mut i: usize = 0;
    while i < imports.len()
        invariant
            i <= imports@.len(),
            forall|j: int| 0 <= j < i ==> (#[trigger] deep(imports@)[j]).name != name@,
        decreases imports@.len() - i,
    {
        if same(imports[i].name.as_str(), name) {
            assert(deep(imports@)[i as int].name == name@);
            return true;
        }
        assert(deep(imports@)[i as int].name != name@);
        i += 1;
    }
    false
}

/// Whether `signatures` hold one of a function `func`.
fn has_signature(signatures: &Vec<FunctionSig>, func: &str) -> (r: bool)
    ensures
        r == exists|i: int|
            0 <= i < signatures@.len() && (#[trigger] deep(signatures@)[i]).name == func@,
{
    let mut i: usize = 0;
    while i < signatures.len()
        invariant
            i <= signatures@.len(),
            forall|j: int| 0 <= j < i ==> (#[trigger] deep(signatures@)[j]).name != func@,
        decreases signatures@.len() - i,
    {
        if same(signatures[i].name.as_str(), func) {
            assert(deep(signatures@)[i as int].name == func@);
            return true;
        }
        assert(deep(signatures@)[i as int].name != func@);
        i += 1;
    }
    false
}

/// The first export of `package`, if any, that its source does not define.
fn find_undefined(package: &InstalledPackage) -> (r: Option<usize>)
    ensures
        as_position(r) == first_undefined(package.deep_view()),
        r matches Some(i) ==> i < package.exported@.len(),
{
    let ghost p = undefined_export(package.deep_view());
    let ghost n = package.exported@.len() as int;
    let mut i: usize = 0;
    while i < package.exported.len()
        invariant
            p == undefined_export(package.deep_view()),
            n == package.exported@.len(),
            i <= n,
            first_from(p, 0, n) == first_from(p, i as int, n),
        decreases n - i,
    {
        if !has_signature(&package.signatures, package.exported[i].as_str()) {
            assert(p(i as int));
            return Some(i);
        }
        assert(!p(i as int));
        i += 1;
    }
    None
}

/// The fault of the first package, if any, that exports what its source does not define.
pub open spec fn export_fault(installed: Seq<Package>) -> Option<CodegenFault> {
    match first_from(has_undefined(installed), 0, installed.len() as int) {
        None => None,
        Some(k) => Some(
            CodegenFault::ExportedFunctionMissing {
                package: installed[k].name,
                func: installed[k].exported[first_undefined(installed[k])->0],
            },
        ),
    }
}

/// The first export of an installed package that its source does not define, as an error.
pub fn check_exports(installed: &[InstalledPackage]) -> (r: Option<CodegenError>)
    ensures
        r.deep_view() == export_fault(deep(installed@)),
{
    let ghost all = deep(installed@);
    let ghost p = has_undefined(all);
    let ghost n = installed@.len() as int;
    let mut i: usize = 0;
    while i < installed.len()
        invariant
            all == deep(installed@),
            p == has_undefined(all),
            n == installed@.len(),
            i <= n,
            first_from(p, 0, n) == first_from(p, i as int, n),
        decreases n - i,
    {
        assert(all[i as int] == installed@[i as int].deep_view());
        if let Some(j) = find_undefined(&installed[i]) {
            assert(p(i as int));
            assert(installed@[i as int].deep_view().exported[j as int]
                == installed@[i as int].exported@[j as int]@);
            return Some(
                CodegenError::ExportedFunctionMissing {
                    package: installed[i].name.clone(),
                    func: installed[i].exported[j].clone(),
                },
            );
        }
        assert(!p(i as int));
        i += 1;
    }
    None
}

/// Those of `installed` that `imports` name, in the order they have there.
pub fn select_imported<'a>(installed: &'a [InstalledPackage], imports: &Vec<ImportStatement>) -> (r:
    Vec<&'a InstalledPackage>)
    ensures
        deep(r@) == imported(deep(installed@), deep(imports@)),
{
    let ghost all = deep(installed@);
    let mut out: Vec<&'a InstalledPackage> = Vec::new();
    assert(deep(out@) =~= imported(all.take(0), deep(imports@)));
    let mut i: usize = 0;
    while i < installed.len()
        invariant
            all == deep(installed@),
            i <= installed@.len(),
            deep(out@) == imported(all.take(i as int), deep(imports@)),
        decreases installed@.len() - i,
    {
        let ghost before = out@;
        proof {
            assert(all.take(i + 1).drop_last() =~= all.take(i as int));
            assert(all.take(i + 1).last() == installed@[i as int].deep_view());
        }
        if is_imported(imports, installed[i].name.as_str()) {
            out.push(&installed[i]);
            assert(deep(out@) =~= deep(before).push(installed@[i as int].deep_view()));
        }
        i += 1;
    }
    assert(all.take(i as int) =~= all);
    out
}

} // verus!
