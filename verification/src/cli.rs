//! What the `laplace` commands decide and print, apart from reading and writing.
use vstd::prelude::*;

use crate::codegen::{
    block_imports, codegen_message, compiled, generate_with_package_lines, Compiled, GeneratedStan,
    InstalledPackage, Package,
};
use crate::codegen::line_ranges::ranges_are_fresh;
use crate::docs::installed_dir;
use crate::init::{InitSummary, SummaryText};
use crate::laws::parsing::law_library_block_stands_in_source;
use crate::manifest::{PackageManifest, PackageText};
use crate::parser::library_block::{
    library_message, library_of, parse_library_block, Import, ImportStatement,
};
use crate::parser::signatures::{extract_signatures, signatures_of};
use crate::paths::two_parts;
use crate::resolve::lockfile::{find_pin, LockedPackage, Lockfile, Pin};
use crate::text::{
    as_position, chars_of, concat2, concat3, concat4, concat5, concat7, decimal, decimal_of, deep,
    deep_result, find_text, first_from, join, joined, lines, lines_of, matches_at, occurrence, same,
    slice_of, split_at_first, split_first,
};

verus! {

// Arguments ---------------------------------------------------------------

/// The name and the version that a package spec gives: what stands before and behind its
/// first `@`.
pub open spec fn package_spec(spec: Seq<char>) -> (Seq<char>, Option<Seq<char>>) {
    match split_first(spec, '@') {
        Some((name, version)) => (name, Some(version)),
        None => (spec, None),
    }
}

/// Split `<pkg>` or `<pkg>@<version>` into its parts.
pub fn parse_package_spec(spec: &str) -> (r: (String, Option<String>))
    ensures
        r.deep_view() == package_spec(spec@),
{
    match split_at_first(spec, '@') {
        Some((name, version)) => (name, Some(version)),
        None => (spec.to_string(), None),
    }
}

/// The package and the function that a doc spec names: what stands before and behind its
/// first `::`.
pub open spec fn doc_spec(spec: Seq<char>) -> Option<(Seq<char>, Seq<char>)> {
    match find_text(spec, "::"@, 0) {
        Some(i) => Some((spec.take(i), spec.skip(i + 2))),
        None => None,
    }
}

/// Split `<package>::<function>` into its parts, or say what was expected.
pub fn parse_doc_spec(spec: &str) -> (r: Result<(String, String), String>)
    ensures
        match doc_spec(spec@) {
            Some(parts) => r matches Ok(found) && found.deep_view() == parts,
            None => r matches Err(message) && message@ == "expected `<package>::<function>`, got `"@
                + spec@ + "`"@,
        },
{
    let chars = chars_of(spec);
    let colons = chars_of("::");
    proof {
        reveal_strlit("::");
    }
    let n: usize = chars.len();
    let ghost p = occurrence(spec@, "::"@);
    let mut i: usize = 0;
    while i < n
        invariant
            chars@ == spec@,
            colons@ == "::"@,
            colons@.len() == 2,
            n == chars@.len(),
            p == occurrence(spec@, "::"@),
            i <= n,
            first_from(p, 0, n as int) == first_from(p, i as int, n as int),
        decreases n - i,
    {
        if matches_at(chars.as_slice(), colons.as_slice(), i) {
            assert(p(i as int));
            let package = slice_of(chars.as_slice(), 0, i);
            let func = slice_of(chars.as_slice(), i + 2, n);
            assert(package@ == spec@.take(i as int));
            assert(func@ == spec@.skip(i + 2));
            return Ok((package, func));
        }
        assert(!p(i as int));
        i += 1;
    }
    Err(concat3("expected `<package>::<function>`, got `", spec, "`"))
}

/// Whether the flags of `laplace add` go together; if not, says why.
pub fn check_add_flags(git: bool, tag: bool, rev: bool) -> (r: Result<(), String>)
    ensures
        r is Ok <==> (git || !(tag || rev)),
        r matches Err(message) ==> message@ == "--tag/--rev only apply together with --git"@,
{
    if !git && (tag || rev) {
        Err("--tag/--rev only apply together with --git".to_string())
    } else {
        Ok(())
    }
}

// Places ------------------------------------------------------------------

/// Where the output for a file with the name `<stem>.<extension>` goes by default:
/// `build/<stem>.stan`, by its parts.
pub open spec fn output_path(stem: Option<Seq<char>>) -> Seq<Seq<char>> {
    let name = match stem {
        Some(stem) => stem,
        None => "model"@,
    };
    seq!["build"@, name + ".stan"@]
}

/// Where the output for a file goes by default, given the stem of its name, if it has one that is
/// a text.
pub fn default_output_path(stem: Option<&str>) -> (r: Vec<String>)
    ensures
        deep(r@) == output_path(stem.deep_view()),
{
    let name = match stem {
        Some(stem) => stem,
        None => "model",
    };
    two_parts("build", concat2(name, ".stan").as_str())
}

/// Where `laplace` keeps its files, below the home directory.
pub fn laplace_home() -> (r: &'static str)
    ensures
        r@ == ".laplace"@,
{
    ".laplace"
}

/// Where `laplace install`/`add`/`update` copy resolved packages, below the home directory:
/// `~/.laplace/packages/<name>/<version>/`.
pub fn default_cache_root() -> (r: Vec<String>)
    ensures
        deep(r@) == seq![".laplace"@, "packages"@],
{
    two_parts(laplace_home(), "packages")
}

/// The local filesystem "registry" packages are resolved from, below the home directory. Defaults
/// to `~/.laplace/registry`; none where another is chosen with `LAPLACE_REGISTRY`.
pub fn registry_root(is_chosen: bool) -> (r: Option<Vec<String>>)
    ensures
        is_chosen ==> r is None,
        !is_chosen ==> (r matches Some(parts) && deep(parts@) == seq![".laplace"@, "registry"@]),
{
    if is_chosen {
        None
    } else {
        Some(two_parts(laplace_home(), "registry"))
    }
}

/// Where a pinned package is installed, by its parts below the cache's root.
pub fn install_dir(pkg: &LockedPackage) -> (r: Vec<String>)
    ensures
        deep(r@) == installed_dir(pkg.deep_view()),
{
    two_parts(pkg.name.as_str(), pkg.version.as_str())
}

// Building ----------------------------------------------------------------

/// The message that an imported package is not locked.
pub open spec fn not_locked_text(name: Seq<char>) -> Seq<char> {
    "`"@ + name + "` is imported but not recorded in laplace.lock -- run `laplace add "@ + name
        + "` first"@
}

/// The pin of an imported package, or the message that there is none.
pub fn locate_import(lock: &Lockfile, import: &ImportStatement) -> (r: Result<
    LockedPackage,
    String,
>)
    ensures
        match find_pin(lock.deep_view(), import.name@) {
            Some(pin) => r matches Ok(locked) && locked.deep_view() == pin,
            None => r matches Err(message) && message@ == not_locked_text(import.name@),
        },
{
    match lock.find(import.name.as_str()) {
        Some(locked) => Ok(locked.clone()),
        None => Err(
            concat5(
                "`",
                import.name.as_str(),
                "` is imported but not recorded in laplace.lock -- run `laplace add ",
                import.name.as_str(),
                "` first",
            ),
        ),
    }
}

/// The message that a pinned package is not installed.
pub open spec fn not_installed_text(pin: Pin) -> Seq<char> {
    "`"@ + pin.name + "@"@ + pin.version
        + "` is in laplace.lock but not installed -- run `laplace install` first"@
}

/// The message that a pinned package is not installed.
pub fn not_installed(pkg: &LockedPackage) -> (r: String)
    ensures
        r@ == not_installed_text(pkg.deep_view()),
{
    concat5(
        "`",
        pkg.name.as_str(),
        "@",
        pkg.version.as_str(),
        "` is in laplace.lock but not installed -- run `laplace install` first",
    )
}

/// The package of a name, its exports and the text of its `.stan` files.
pub open spec fn package_with(
    name: Seq<char>,
    exports: Seq<Seq<char>>,
    source: Seq<char>,
) -> Package {
    Package { name, source, signatures: signatures_of(source), exported: exports }
}

/// An installed package, given its own manifest and the text of its `.stan` files.
pub fn load_installed_package(name: &str, manifest: PackageManifest, source: String) -> (r:
    InstalledPackage)
    ensures
        r.deep_view() == package_with(name@, manifest.deep_view().exports, source@),
{
    let signatures = extract_signatures(source.as_str());
    InstalledPackage { name: name.to_string(), source, signatures, exported: manifest.exports }
}

/// A package with the name `name`.
pub open spec fn is_named(packages: Seq<Package>, name: Seq<char>) -> spec_fn(int) -> bool {
    |i: int| packages[i].name == name
}

/// The first `k` pins name the package `name`.
pub open spec fn named_before(pins: Seq<Pin>, k: int, name: Seq<char>) -> bool {
    exists|j: int| 0 <= j < k && (#[trigger] pins[j]).name == name
}

/// The packages that the first `k` pins name, each once, in the order of the pins.
pub open spec fn in_pin_order(pins: Seq<Pin>, packages: Seq<Package>, k: int) -> Seq<Package>
    decreases k,
{
    if k <= 0 {
        seq![]
    } else {
        let rest = in_pin_order(pins, packages, k - 1);
        let name = pins[k - 1].name;
        match first_from(is_named(packages, name), 0, packages.len() as int) {
            Some(i) => if named_before(pins, k - 1, name) {
                rest
            } else {
                rest.push(packages[i])
            },
            None => rest,
        }
    }
}

/// The packages loaded for a build in lockfile order, in which their code is spliced, each
/// once however often it is imported.
pub fn in_lock_order(lock: &Lockfile, loaded: &Vec<InstalledPackage>) -> (r: Vec<InstalledPackage>)
    ensures
        deep(r@) == in_pin_order(
            lock.deep_view(),
            deep(loaded@),
            lock.deep_view().len() as int,
        ),
{
    let ghost pins = lock.deep_view();
    let ghost packages = deep(loaded@);
    let mut out: Vec<InstalledPackage> = Vec::new();
    assert(deep(out@) =~= in_pin_order(pins, packages, 0));
    let mut k: usize = 0;
    while k < lock.packages.len()
        invariant
            pins == lock.deep_view(),
            packages == deep(loaded@),
            k <= lock.packages@.len(),
            deep(out@) == in_pin_order(pins, packages, k as int),
        decreases lock.packages@.len() - k,
    {
        let name = lock.packages[k].name.as_str();
        assert(pins[k as int].name == name@);
        let ghost held = out@;
        if let Some(i) = position_of_package(loaded, name) {
            if !is_pinned_before(lock, k, name) {
                let package = loaded[i].clone();
                assert(packages[i as int] == package.deep_view());
                out.push(package);
                assert(deep(out@) =~= deep(held).push(package.deep_view()));
            }
        }
        k += 1;
    }
    out
}

/// The first of `loaded` with the name `name`.
fn position_of_package(loaded: &Vec<InstalledPackage>, name: &str) -> (r: Option<usize>)
    ensures
        as_position(r) == first_from(is_named(deep(loaded@), name@), 0, loaded@.len() as int),
        r matches Some(i) ==> i < loaded@.len(),
{
    let ghost p = is_named(deep(loaded@), name@);
    let ghost n = loaded@.len() as int;
    let mut i: usize = 0;
    while i < loaded.len()
        invariant
            p == is_named(deep(loaded@), name@),
            n == loaded@.len(),
            i <= n,
            first_from(p, 0, n) == first_from(p, i as int, n),
        decreases n - i,
    {
        assert(deep(loaded@)[i as int] == loaded@[i as int].deep_view());
        if same(loaded[i].name.as_str(), name) {
            assert(p(i as int));
            return Some(i);
        }
        assert(!p(i as int));
        i += 1;
    }
    None
}

/// Whether one of the first `k` pins names the package `name`.
fn is_pinned_before(lock: &Lockfile, k: usize, name: &str) -> (r: bool)
    requires
        k <= lock.packages@.len(),
    ensures
        r == named_before(lock.deep_view(), k as int, name@),
{
    let ghost pins = lock.deep_view();
    let mut j: usize = 0;
    while j < k
        invariant
            pins == lock.deep_view(),
            j <= k <= lock.packages@.len(),
            forall|m: int| 0 <= m < j ==> (#[trigger] pins[m]).name != name@,
        decreases k - j,
    {
        assert(pins[j as int] == lock.packages@[j as int].deep_view());
        if same(lock.packages[j].name.as_str(), name) {
            return true;
        }
        j += 1;
    }
    false
}

/// What reading the directory of an imported package gave.
pub enum PackageRead {
    /// There is no such directory.
    NotInstalled,
    /// Its manifest or its source cannot be read.
    Failed { reason: String },
    /// Its own manifest, and the text of its `.stan` files.
    Read { manifest: PackageManifest, source: String },
}

/// What a `PackageRead` says.
#[verifier::ext_equal]
pub enum PackageReadText {
    NotInstalled,
    Failed { reason: Seq<char> },
    Read { manifest: PackageText, source: Seq<char> },
}

impl DeepView for PackageRead {
    type V = PackageReadText;

    open spec fn deep_view(&self) -> PackageReadText {
        match self {
            PackageRead::NotInstalled => PackageReadText::NotInstalled,
            PackageRead::Failed { reason } => PackageReadText::Failed { reason: reason@ },
            PackageRead::Read { manifest, source } => PackageReadText::Read {
                manifest: manifest.deep_view(),
                source: source@,
            },
        }
    }
}

/// The packages that `imports` name, where each is locked and its directory, of which `reads`
/// say what was found, can be read; or the message of the first that is not.
pub open spec fn loaded_packages(
    pins: Seq<Pin>,
    imports: Seq<Import>,
    reads: Seq<PackageReadText>,
) -> Result<Seq<Package>, Seq<char>>
    decreases imports.len(),
{
    if imports.len() == 0 {
        Ok(seq![])
    } else {
        match loaded_packages(pins, imports.drop_last(), reads.drop_last()) {
            Err(message) => Err(message),
            Ok(packages) => match find_pin(pins, imports.last().name) {
                None => Err(not_locked_text(imports.last().name)),
                Some(pin) => match reads.last() {
                    PackageReadText::NotInstalled => Err(not_installed_text(pin)),
                    PackageReadText::Failed { reason } => Err(reason),
                    PackageReadText::Read { manifest, source } => Ok(
                        packages.push(package_with(pin.name, manifest.exports, source)),
                    ),
                },
            },
        }
    }
}

/// A message about the first imports is the message about all of them.
proof fn lemma_load_fault_stays(
    pins: Seq<Pin>,
    imports: Seq<Import>,
    reads: Seq<PackageReadText>,
    n: int,
)
    requires
        0 <= n <= imports.len() == reads.len(),
        loaded_packages(pins, imports.take(n), reads.take(n)) is Err,
    ensures
        loaded_packages(pins, imports, reads) == loaded_packages(
            pins,
            imports.take(n),
            reads.take(n),
        ),
    decreases imports.len(),
{
    if n == imports.len() {
        assert(imports.take(n) =~= imports);
        assert(reads.take(n) =~= reads);
    } else {
        assert(imports.drop_last().take(n) =~= imports.take(n));
        assert(reads.drop_last().take(n) =~= reads.take(n));
        lemma_load_fault_stays(pins, imports.drop_last(), reads.drop_last(), n);
    }
}

/// The packages that `imports` name, given what reading the directory of each gave.
pub fn load_imports(lock: &Lockfile, imports: &Vec<ImportStatement>, reads: &Vec<PackageRead>) -> (r:
    Result<Vec<InstalledPackage>, String>)
    requires
        imports@.len() == reads@.len(),
    ensures
        match r {
            Ok(packages) => loaded_packages(lock.deep_view(), deep(imports@), deep(reads@)) == Ok::<
                Seq<Package>,
                Seq<char>,
            >(deep(packages@)),
            Err(message) => loaded_packages(lock.deep_view(), deep(imports@), deep(reads@))
                == Err::<Seq<Package>, Seq<char>>(message@),
        },
{
    let ghost pins = lock.deep_view();
    let ghost all = deep(imports@);
    let ghost seen = deep(reads@);
    let mut packages: Vec<InstalledPackage> = Vec::new();
    assert(deep(packages@) =~= seq![]);
    let mut i: usize = 0;
    while i < imports.len()
        invariant
            pins == lock.deep_view(),
            all == deep(imports@),
            seen == deep(reads@),
            i <= imports@.len() == reads@.len(),
            loaded_packages(pins, all.take(i as int), seen.take(i as int)) == Ok::<
                Seq<Package>,
                Seq<char>,
            >(deep(packages@)),
        decreases imports@.len() - i,
    {
        let ghost held = packages@;
        proof {
            assert(all.take(i + 1).drop_last() =~= all.take(i as int));
            assert(seen.take(i + 1).drop_last() =~= seen.take(i as int));
            assert(all.take(i + 1).last() == imports@[i as int].deep_view());
            assert(seen.take(i + 1).last() == reads@[i as int].deep_view());
        }
        let locked = match locate_import(lock, &imports[i]) {
            Ok(locked) => locked,
            Err(message) => {
                proof {
                    lemma_load_fault_stays(pins, all, seen, i + 1);
                }
                return Err(message);
            },
        };
        match &reads[i] {
            PackageRead::NotInstalled => {
                proof {
                    lemma_load_fault_stays(pins, all, seen, i + 1);
                }
                return Err(not_installed(&locked));
            },
            PackageRead::Failed { reason } => {
                proof {
                    lemma_load_fault_stays(pins, all, seen, i + 1);
                }
                return Err(reason.clone());
            },
            PackageRead::Read { manifest, source } => {
                let package = load_installed_package(
                    locked.name.as_str(),
                    manifest.clone(),
                    source.clone(),
                );
                packages.push(package);
                assert(deep(packages@) =~= deep(held).push(package.deep_view()));
            },
        }
        i += 1;
    }
    assert(all.take(i as int) =~= all);
    assert(seen.take(i as int) =~= seen);
    Ok(packages)
}

/// The imports of a source's library block, none where there is none or it cannot be parsed.
pub open spec fn source_imports(source: Seq<char>) -> Seq<Import> {
    match library_of(source) {
        Ok(block) => block_imports(block),
        Err(_) => seq![],
    }
}

/// What `laplace build` makes of a source: its library block is parsed, what that imports is
/// loaded as the lock pins it, and the source is compiled with these packages in lockfile
/// order; or the message of what fails first.
pub open spec fn built(
    source: Seq<char>,
    pins: Seq<Pin>,
    reads: Seq<PackageReadText>,
) -> Result<Compiled, Seq<char>> {
    match library_of(source) {
        Err(fault) => Err(library_message(fault)),
        Ok(block) => match loaded_packages(pins, block_imports(block), reads) {
            Err(message) => Err(message),
            Ok(packages) => match compiled(
                source,
                block,
                in_pin_order(pins, packages, pins.len() as int),
            ) {
                Err(fault) => Err(codegen_message(fault)),
                Ok(output) => Ok(output),
            },
        },
    }
}

/// What `laplace build` makes of a source, given the lock and what reading the directory of
/// each imported package gave.
pub fn build(source: &str, lock: &Lockfile, reads: &Vec<PackageRead>) -> (r: Result<
    GeneratedStan,
    String,
>)
    requires
        reads@.len() == source_imports(source@).len(),
    ensures
        deep_result(r) == built(source@, lock.deep_view(), deep(reads@)),
        r matches Ok(generated) ==> ranges_are_fresh(generated.package_line_ranges@),
{
    let block = match parse_library_block(source) {
        Ok(block) => block,
        Err(e) => {
            return Err(e.message());
        },
    };
    let no_imports: Vec<ImportStatement> = Vec::new();
    let imports: &Vec<ImportStatement> = match &block {
        Some(block) => &block.imports,
        None => &no_imports,
    };
    assert(deep(imports@) =~= block_imports(block.deep_view()));
    assert(imports@.len() == deep(imports@).len());
    let loaded = match load_imports(lock, imports, reads) {
        Ok(loaded) => loaded,
        Err(message) => {
            return Err(message);
        },
    };
    let installed = in_lock_order(lock, &loaded);
    proof {
        if block is Some {
            law_library_block_stands_in_source(source@);
        }
    }
    match generate_with_package_lines(source, block.as_ref(), installed.as_slice()) {
        Ok(generated) => Ok(generated),
        Err(e) => Err(e.message()),
    }
}

/// A step of `laplace build`.
#[derive(Debug, Clone, Copy, PartialEq, Eq, Structural)]
pub enum BuildStep {
    /// Compile the source.
    Compile,
    /// Hold what was compiled against the existing output.
    Compare,
    /// Write what was compiled.
    Write,
    /// Run `stanc` on what was written.
    RunStanc,
    /// The build is done.
    Done,
}

/// The step that follows `step`, or none where its failure is the failure of the build. With
/// `--check` the output is only compared; with `--validate` it is type-checked once it is written.
pub open spec fn next_build_step(
    check: bool,
    validate: bool,
    step: BuildStep,
    success: bool,
) -> Option<BuildStep> {
    if !success {
        None
    } else {
        match step {
            BuildStep::Compile => if check {
                Some(BuildStep::Compare)
            } else {
                Some(BuildStep::Write)
            },
            BuildStep::Write => if validate {
                Some(BuildStep::RunStanc)
            } else {
                Some(BuildStep::Done)
            },
            _ => Some(BuildStep::Done),
        }
    }
}

/// The step of a build that follows `step`.
pub fn continue_build(check: bool, validate: bool, step: BuildStep, success: bool) -> (r: Option<
    BuildStep,
>)
    ensures
        r == next_build_step(check, validate, step, success),
{
    if !success {
        return None;
    }
    match step {
        BuildStep::Compile => if check {
            Some(BuildStep::Compare)
        } else {
            Some(BuildStep::Write)
        },
        BuildStep::Write => if validate {
            Some(BuildStep::RunStanc)
        } else {
            Some(BuildStep::Done)
        },
        _ => Some(BuildStep::Done),
    }
}

/// What `laplace build --check` says: that the existing output is what would be written, or,
/// as an error, that it is not. A missing output counts as an empty one.
pub fn check_output(path: &str, existing: &str, generated: &str) -> (r: Result<String, String>)
    ensures
        if existing@ == generated@ {
            r matches Ok(report) && report@ == path@ + " is up to date"@
        } else {
            r matches Err(message) && message@ == path@
                + " is out of date with `laplace build` (run without --check to update it)"@
        },
{
    if same(existing, generated) {
        Ok(concat2(path, " is up to date"))
    } else {
        Err(
            concat2(
                path,
                " is out of date with `laplace build` (run without --check to update it)",
            ),
        )
    }
}

// Reports -----------------------------------------------------------------

/// `singular` for exactly one, else `plural`.
pub open spec fn plural_form(count: int, singular: Seq<char>, plural: Seq<char>) -> Seq<char> {
    if count == 1 {
        singular
    } else {
        plural
    }
}

/// `singular` for exactly one, else `plural`.
pub fn pluralize(count: usize, singular: &'static str, plural: &'static str) -> (r: &'static str)
    ensures
        r@ == plural_form(count as int, singular@, plural@),
{
    if count == 1 {
        singular
    } else {
        plural
    }
}

/// A count and what is counted.
pub open spec fn counted(count: nat, singular: Seq<char>, plural: Seq<char>) -> Seq<char> {
    decimal(count) + " "@ + plural_form(count as int, singular, plural)
}

/// A count and what is counted.
fn count_text(count: usize, singular: &'static str, plural: &'static str) -> (r: String)
    ensures
        r@ == counted(count as nat, singular@, plural@),
{
    concat3(decimal_of(count).as_str(), " ", pluralize(count, singular, plural))
}

/// What `laplace build` prints of an output written to `path`.
pub open spec fn build_report_text(path: Seq<char>, source: Seq<char>, imports: nat) -> Seq<char> {
    "wrote "@ + path + " ("@ + counted(lines(source).len(), "line"@, "lines"@) + ", "@ + counted(
        imports,
        "dependency"@,
        "dependencies"@,
    ) + ")"@
}

/// What `laplace build` prints of an output written to `path`.
pub fn build_report(path: &str, source: &str, imports: usize) -> (r: String)
    ensures
        r@ == build_report_text(path@, source@, imports as nat),
{
    let all_lines = lines_of(source);
    assert(all_lines@.len() == deep(all_lines@).len());
    concat7(
        "wrote ",
        path,
        " (",
        count_text(all_lines.len(), "line", "lines").as_str(),
        ", ",
        count_text(imports, "dependency", "dependencies").as_str(),
        ")",
    )
}

/// What `laplace init` prints.
pub open spec fn init_report_text(summary: SummaryText) -> Seq<char> {
    let included = if summary.included.len() == 0 {
        "no @laplace-documented functions found -- exports is empty, add entries by hand\n"@
    } else {
        "included "@ + decimal(summary.included.len()) + " exported "@ + plural_form(
            summary.included.len() as int,
            "function"@,
            "functions"@,
        ) + ": "@ + join(summary.included, ", "@) + "\n"@
    };
    let excluded = if summary.excluded.len() == 0 {
        seq![]
    } else {
        "note: "@ + decimal(summary.excluded.len()) + " undocumented "@ + plural_form(
            summary.excluded.len() as int,
            "function"@,
            "functions"@,
        ) + " left out of exports (add manually if this guess is wrong): "@ + join(
            summary.excluded,
            ", "@,
        ) + "\n"@
    };
    "wrote laplace.toml for `"@ + summary.name + "`\n"@ + included + excluded
}

/// What `laplace init` prints.
pub fn init_report(summary: &InitSummary) -> (r: String)
    ensures
        r@ == init_report_text(summary.deep_view()),
{
    let ghost model = summary.deep_view();
    assert(model.included.len() == summary.included@.len());
    assert(model.excluded.len() == summary.excluded@.len());
    let included = if summary.included.len() == 0 {
        "no @laplace-documented functions found -- exports is empty, add entries by hand\n".to_string()
    } else {
        concat7(
            "included ",
            decimal_of(summary.included.len()).as_str(),
            " exported ",
            pluralize(summary.included.len(), "function", "functions"),
            ": ",
            joined(&summary.included, ", ").as_str(),
            "\n",
        )
    };
    let excluded = if summary.excluded.len() == 0 {
        String::new()
    } else {
        concat7(
            "note: ",
            decimal_of(summary.excluded.len()).as_str(),
            " undocumented ",
            pluralize(summary.excluded.len(), "function", "functions"),
            " left out of exports (add manually if this guess is wrong): ",
            joined(&summary.excluded, ", ").as_str(),
            "\n",
        )
    };
    assert(summary.excluded@.len() == 0 ==> excluded@ =~= seq![]);
    concat5(
        "wrote laplace.toml for `",
        summary.name.as_str(),
        "`\n",
        included.as_str(),
        excluded.as_str(),
    )
}

/// What `laplace install` prints of `count` installed packages.
pub fn install_report(count: usize) -> (r: String)
    ensures
        r@ == "installed "@ + counted(count as nat, "package"@, "packages"@),
{
    concat2("installed ", count_text(count, "package", "packages").as_str())
}

/// What `laplace add` prints of a package pinned from the registry or from git.
pub fn add_report(locked: &LockedPackage, from_git: bool) -> (r: String)
    ensures
        r@ == "added "@ + locked.name@ + "@"@ + locked.version@ + (if from_git {
            " (git)"@
        } else {
            ""@
        }),
{
    concat5(
        "added ",
        locked.name.as_str(),
        "@",
        locked.version.as_str(),
        if from_git {
            " (git)"
        } else {
            ""
        },
    )
}

/// What `laplace update` prints of a package pinned anew.
pub fn update_report(locked: &LockedPackage) -> (r: String)
    ensures
        r@ == "updated "@ + locked.name@ + " to "@ + locked.version@,
{
    concat4("updated ", locked.name.as_str(), " to ", locked.version.as_str())
}

} // verus!
