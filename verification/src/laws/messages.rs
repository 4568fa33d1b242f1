//! What a message tells of the fault that it is of.
use vstd::prelude::*;

use crate::cli::{build_report_text, plural_form};
use crate::codegen::{codegen_message, CodegenFault};
use crate::docs::{docs_message, DocsFault};
use crate::init::{init_message, InitFault};
use crate::laws::texts::{in_turn, lemma_in_turn_next, lemma_in_turn_one};
use crate::manifest::{manifest_message, ManifestFault};
use crate::parser::library_block::{library_message, LibraryFault};
use crate::resolve::error::{resolve_message, ResolveFault};
use crate::resolve::git::{git_message, GitFault};
use crate::resolve::lockfile::{lockfile_message, LockfileFault};
use crate::text::{decimal, lines};
use crate::validate::{validate_message, ValidateFault};

verus! {

/// One thing told between two texts.
proof fn lemma_tells_one(t0: Seq<char>, a: Seq<char>, t1: Seq<char>)
    ensures
        in_turn(t0 + a + t1, seq![a]),
        in_turn(t0 + a, seq![a]),
{
    let none = Seq::<Seq<char>>::empty();
    lemma_in_turn_one(t0);
    lemma_in_turn_next(t0, none, a);
    assert(none + seq![a] =~= seq![a]);
    lemma_in_turn_next(t0 + a, seq![a], t1);
}

/// Two things told between texts.
proof fn lemma_tells_two(t0: Seq<char>, a: Seq<char>, t1: Seq<char>, b: Seq<char>, t2: Seq<char>)
    ensures
        in_turn(t0 + a + t1 + b + t2, seq![a, b]),
        in_turn(t0 + a + t1 + b, seq![a, b]),
{
    lemma_tells_one(t0, a, t1);
    lemma_in_turn_next(t0 + a + t1, seq![a], b);
    assert(seq![a] + seq![b] =~= seq![a, b]);
    lemma_in_turn_next(t0 + a + t1 + b, seq![a, b], t2);
}

/// Three things told between texts.
proof fn lemma_tells_three(
    t0: Seq<char>,
    a: Seq<char>,
    t1: Seq<char>,
    b: Seq<char>,
    t2: Seq<char>,
    c: Seq<char>,
    t3: Seq<char>,
)
    ensures
        in_turn(t0 + a + t1 + b + t2 + c + t3, seq![a, b, c]),
        in_turn(t0 + a + t1 + b + t2 + c, seq![a, b, c]),
{
    lemma_tells_two(t0, a, t1, b, t2);
    lemma_in_turn_next(t0 + a + t1 + b + t2, seq![a, b], c);
    assert(seq![a, b] + seq![c] =~= seq![a, b, c]);
    lemma_in_turn_next(t0 + a + t1 + b + t2 + c, seq![a, b, c], t3);
}

/// The things that a fault of compiling is about, in the order in which they are told.
pub open spec fn codegen_facts(fault: CodegenFault) -> Seq<Seq<char>> {
    match fault {
        CodegenFault::MissingImport { package } => seq![package],
        CodegenFault::FunctionNotExported { package, func } => seq![package, func],
        CodegenFault::UnknownPackageReference { package, func } => seq![package, func],
        CodegenFault::ExportedFunctionMissing { package, func } => seq![package, func],
        CodegenFault::DuplicateMangledName { mangled, first_package, second_package } => seq![
            first_package,
            second_package,
            mangled,
        ],
    }
}

/// The message of a fault of compiling names the packages and the function that it is about.
pub proof fn law_codegen_message_tells_what_is_wrong(fault: CodegenFault)
    ensures
        in_turn(codegen_message(fault), codegen_facts(fault)),
{
    match fault {
        CodegenFault::MissingImport { package } => {
            lemma_tells_one(
                "`library` imports `"@,
                package,
                "`, but no installed package by that name was provided (run `laplace install`?)"@,
            );
        },
        CodegenFault::FunctionNotExported { package, func } => {
            lemma_tells_two("`"@, package, "::"@, func, "(` is called, but `"@);
            let begun = "`"@ + package + "::"@ + func + "(` is called, but `"@;
            let facts = seq![package, func];
            lemma_in_turn_next(begun, facts, func);
            lemma_in_turn_next(begun + func, facts, "` is not in `"@);
            lemma_in_turn_next(
                begun + func + "` is not in `"@,
                facts,
                (package + "`'s exports"@),
            );
        },
        CodegenFault::UnknownPackageReference { package, func } => {
            lemma_tells_two("`"@, package, "::"@, func, "(` is called, but `"@);
            let begun = "`"@ + package + "::"@ + func + "(` is called, but `"@;
            let facts = seq![package, func];
            lemma_in_turn_next(begun, facts, package);
            lemma_in_turn_next(
                begun + package,
                facts,
                "` was not imported in the `library { }` block"@,
            );
        },
        CodegenFault::ExportedFunctionMissing { package, func } => {
            lemma_tells_two(
                "package `"@,
                package,
                "` declares export `"@,
                func,
                "`, but no such function was found in its source"@,
            );
        },
        CodegenFault::DuplicateMangledName { mangled, first_package, second_package } => {
            lemma_tells_three(
                "packages `"@,
                first_package,
                "` and `"@,
                second_package,
                "` both mangle to `"@,
                mangled,
                "` -- this should be impossible given the package-name prefix and indicates a naming \
            collision between the two packages"@,
            );
        },
    }
}

/// The message of a fault of a library block names the byte or the statement that it is about.
pub proof fn law_library_message_tells_what_is_wrong(fault: LibraryFault)
    ensures
        in_turn(
            library_message(fault),
            seq![
                match fault {
                    LibraryFault::UnclosedBlock { start } => decimal(start as nat),
                    LibraryFault::MalformedImport { statement } => statement,
                    LibraryFault::EmptyPackageName { statement } => statement,
                },
            ],
        ),
{
    match fault {
        LibraryFault::UnclosedBlock { start } => {
            lemma_tells_one(
                "`library {` block opened at byte "@,
                decimal(start as nat),
                " is never closed with a matching `}`"@,
            );
        },
        LibraryFault::MalformedImport { statement } => {
            lemma_tells_one(
                "malformed import statement `"@,
                statement,
                "`: expected `import <name>` or `import <name>@<version>`"@,
            );
        },
        LibraryFault::EmptyPackageName { statement } => {
            lemma_tells_one("import statement `"@, statement, "` has no package name"@);
        },
    }
}

/// The things that a fault of a manifest is about.
pub open spec fn manifest_facts(fault: ManifestFault) -> Seq<Seq<char>> {
    match fault {
        ManifestFault::Io { path, reason } => seq![path, reason],
        ManifestFault::Parse { path, reason } => seq![path, reason],
        ManifestFault::Serialize { path, reason } => seq![path, reason],
        ManifestFault::GitRefMissing { git } => seq![git],
        ManifestFault::GitRefAmbiguous { git } => seq![git],
    }
}

/// The message of a fault of a manifest names the file and the reason, or the repository.
pub proof fn law_manifest_message_tells_what_is_wrong(fault: ManifestFault)
    ensures
        in_turn(manifest_message(fault), manifest_facts(fault)),
{
    match fault {
        ManifestFault::Io { path, reason } => {
            lemma_tells_two("failed to read "@, path, ": "@, reason, seq![]);
        },
        ManifestFault::Parse { path, reason } => {
            lemma_tells_two("failed to parse "@, path, ": "@, reason, seq![]);
        },
        ManifestFault::Serialize { path, reason } => {
            lemma_tells_two("failed to serialize manifest for "@, path, ": "@, reason, seq![]);
        },
        ManifestFault::GitRefMissing { git } => {
            lemma_tells_one("git dependency `"@, git, "` needs a `tag` or a `rev`"@);
        },
        ManifestFault::GitRefAmbiguous { git } => {
            lemma_tells_one("git dependency `"@, git, "` cannot have both `tag` and `rev` set"@);
        },
    }
}

/// The things that a fault of a lock is about.
pub open spec fn lockfile_facts(fault: LockfileFault) -> Seq<Seq<char>> {
    match fault {
        LockfileFault::Io { path, reason } => seq![path, reason],
        LockfileFault::Parse { path, reason } => seq![path, reason],
        LockfileFault::Serialize { path, reason } => seq![path, reason],
    }
}

/// The message of a fault of a lock names the file and the reason.
pub proof fn law_lockfile_message_tells_what_is_wrong(fault: LockfileFault)
    ensures
        in_turn(lockfile_message(fault), lockfile_facts(fault)),
{
    match fault {
        LockfileFault::Io { path, reason } => {
            lemma_tells_two("failed to read "@, path, ": "@, reason, seq![]);
        },
        LockfileFault::Parse { path, reason } => {
            lemma_tells_two("failed to parse "@, path, ": "@, reason, seq![]);
        },
        LockfileFault::Serialize { path, reason } => {
            lemma_tells_two("failed to serialize lockfile for "@, path, ": "@, reason, seq![]);
        },
    }
}

/// The things that a fault of the documentation is about.
pub open spec fn docs_facts(fault: DocsFault) -> Seq<Seq<char>> {
    match fault {
        DocsFault::Io { path, reason } => seq![path, reason],
        DocsFault::Parse { path, reason } => seq![path, reason],
        DocsFault::Serialize { path, reason } => seq![path, reason],
        DocsFault::Lockfile(fault) => lockfile_facts(fault),
        DocsFault::PackageNotInLockfile { package } => seq![package],
        DocsFault::PackageNotInstalled { package, path } => seq![package, path],
        DocsFault::FunctionNotFound { package, func } => seq![package, func],
    }
}

/// The message of a fault of the documentation names the file and the reason, or the package and
/// what it lacks.
pub proof fn law_docs_message_tells_what_is_wrong(fault: DocsFault)
    ensures
        in_turn(docs_message(fault), docs_facts(fault)),
{
    match fault {
        DocsFault::Io { path, reason } => {
            lemma_tells_two("failed to access "@, path, ": "@, reason, seq![]);
        },
        DocsFault::Parse { path, reason } => {
            lemma_tells_two("failed to parse "@, path, ": "@, reason, seq![]);
        },
        DocsFault::Serialize { path, reason } => {
            lemma_tells_two("failed to serialize docs for "@, path, ": "@, reason, seq![]);
        },
        DocsFault::Lockfile(fault) => {
            law_lockfile_message_tells_what_is_wrong(fault);
        },
        DocsFault::PackageNotInLockfile { package } => {
            lemma_tells_one(
                "`"@,
                package,
                "` is not a dependency of this project (not found in laplace.lock)"@,
            );
        },
        DocsFault::PackageNotInstalled { package, path } => {
            lemma_tells_two(
                "`"@,
                package,
                "` is locked but not installed at "@,
                path,
                " -- run `laplace install`?"@,
            );
        },
        DocsFault::FunctionNotFound { package, func } => {
            lemma_tells_two("package `"@, package, "` has no function named `"@, func, "`"@);
        },
    }
}

/// The things that a fault of git is about.
pub open spec fn git_facts(fault: GitFault) -> Seq<Seq<char>> {
    match fault {
        GitFault::Spawn { args, reason } => seq![args, reason],
        GitFault::CommandFailed { args, stderr } => seq![args, stderr],
        GitFault::Io { path, reason } => seq![path, reason],
    }
}

/// The message of a fault of git names the command, or the directory, and the reason.
pub proof fn law_git_message_tells_what_is_wrong(fault: GitFault)
    ensures
        in_turn(git_message(fault), git_facts(fault)),
{
    match fault {
        GitFault::Spawn { args, reason } => {
            lemma_tells_two("failed to run `git "@, args, "`: "@, reason, seq![]);
        },
        GitFault::CommandFailed { args, stderr } => {
            lemma_tells_two("`git "@, args, "` failed: "@, stderr, seq![]);
        },
        GitFault::Io { path, reason } => {
            lemma_tells_two(
                "failed to prepare git checkout at "@,
                path,
                ": "@,
                reason,
                seq![],
            );
        },
    }
}

/// The message of a fault of `init` names the file or the reason.
pub proof fn law_init_message_tells_what_is_wrong(fault: InitFault)
    ensures
        in_turn(
            init_message(fault),
            match fault {
                InitFault::AlreadyExists(path) => seq![path],
                InitFault::Io { reason } => seq![reason],
                InitFault::Manifest(fault) => manifest_facts(fault),
            },
        ),
{
    match fault {
        InitFault::AlreadyExists(path) => {
            lemma_in_turn_one(path);
            lemma_in_turn_next(
                path,
                seq![path],
                " already exists -- remove it first if you want to regenerate it"@,
            );
        },
        InitFault::Io { reason } => {
            lemma_in_turn_one(reason);
        },
        InitFault::Manifest(fault) => {
            law_manifest_message_tells_what_is_wrong(fault);
        },
    }
}

/// The message of a failed validation names the command and the reason, or the file and what was
/// said of it.
pub proof fn law_validate_message_tells_what_is_wrong(fault: ValidateFault)
    ensures
        in_turn(
            validate_message(fault),
            match fault {
                ValidateFault::CommandNotFound { command, reason } => seq![command, reason],
                ValidateFault::TypeCheckFailed { path, annotated } => seq![path, annotated],
            },
        ),
{
    match fault {
        ValidateFault::CommandNotFound { command, reason } => {
            lemma_tells_two(
                "`"@,
                command,
                "` was not found on PATH -- install cmdstan/stanc, or omit --validate: "@,
                reason,
                seq![],
            );
        },
        ValidateFault::TypeCheckFailed { path, annotated } => {
            lemma_tells_two("stanc reported errors in "@, path, ":\n"@, annotated, seq![]);
        },
    }
}

/// The things that a fault of resolving is about, in the order in which they are told.
pub open spec fn resolve_facts(fault: ResolveFault) -> Seq<Seq<char>> {
    match fault {
        ResolveFault::Manifest(fault) => manifest_facts(fault),
        ResolveFault::Lockfile(fault) => lockfile_facts(fault),
        ResolveFault::Io { path, reason } => seq![path, reason],
        ResolveFault::InvalidVersion { value, reason } => seq![value, reason],
        ResolveFault::InvalidVersionReq { value, reason } => seq![value, reason],
        ResolveFault::PackageNotInRegistry { package, registry_root } => seq![
            package,
            registry_root,
        ],
        ResolveFault::PinnedVersionNotAvailable { package, version } => seq![package, version],
        ResolveFault::NoMatchingVersion { package, range } => seq![package, range],
        ResolveFault::PackageNameMismatch { path, expected, found } => seq![path, found, expected],
        ResolveFault::LockedVersionNotInRegistry { name, version, registry_root } => seq![
            name,
            version,
            registry_root,
        ],
        ResolveFault::ChecksumMismatch { name, version, expected, actual } => seq![
            name,
            version,
            expected,
            actual,
        ],
        ResolveFault::NotADependency { package } => seq![package],
        ResolveFault::NotARegistryDependency { package } => seq![package],
        ResolveFault::TempDir { reason } => seq![reason],
        ResolveFault::Git(fault) => git_facts(fault),
        ResolveFault::UnknownSource { name, version, pkg_source } => seq![
            pkg_source,
            name,
            version,
        ],
        ResolveFault::Docs(fault) => docs_facts(fault),
    }
}

/// The message of a fault of resolving names the package, the version and whatever else it is about.
pub proof fn law_resolve_message_tells_what_is_wrong(fault: ResolveFault)
    ensures
        in_turn(resolve_message(fault), resolve_facts(fault)),
{
    match fault {
        ResolveFault::Manifest(fault) => {
            law_manifest_message_tells_what_is_wrong(fault);
        },
        ResolveFault::Lockfile(fault) => {
            law_lockfile_message_tells_what_is_wrong(fault);
        },
        ResolveFault::Io { path, reason } => {
            lemma_tells_two("failed to access "@, path, ": "@, reason, seq![]);
        },
        ResolveFault::InvalidVersion { value, reason } => {
            lemma_tells_two("`"@, value, "` is not a valid version: "@, reason, seq![]);
        },
        ResolveFault::InvalidVersionReq { value, reason } => {
            lemma_tells_two("`"@, value, "` is not a valid version requirement: "@, reason, seq![]);
        },
        ResolveFault::PackageNotInRegistry { package, registry_root } => {
            lemma_tells_two(
                "package `"@,
                package,
                "` was not found in the registry at "@,
                registry_root,
                seq![],
            );
        },
        ResolveFault::PinnedVersionNotAvailable { package, version } => {
            lemma_tells_two("`"@, package, "@"@, version, "` is not available in the registry"@);
        },
        ResolveFault::NoMatchingVersion { package, range } => {
            lemma_tells_two(
                "no version of `"@,
                package,
                "` in the registry satisfies `"@,
                range,
                "`"@,
            );
        },
        ResolveFault::PackageNameMismatch { path, expected, found } => {
            lemma_tells_three(
                "registry package at "@,
                path,
                " declares name `"@,
                found,
                "`, expected `"@,
                expected,
                "`"@,
            );
        },
        ResolveFault::LockedVersionNotInRegistry { name, version, registry_root } => {
            lemma_tells_three(
                "laplace.lock references `"@,
                name,
                "@"@,
                version,
                "`, which was not found in the registry at "@,
                registry_root,
                seq![],
            );
        },
        ResolveFault::ChecksumMismatch { name, version, expected, actual } => {
            lemma_checksum_message(name, version, expected, actual);
        },
        ResolveFault::NotADependency { package } => {
            let t1 = "` is not a dependency of this project yet -- run `laplace add "@;
            lemma_tells_one("`"@, package, t1);
            lemma_in_turn_next("`"@ + package + t1, seq![package], package);
            lemma_in_turn_next("`"@ + package + t1 + package, seq![package], "` first"@);
        },
        ResolveFault::NotARegistryDependency { package } => {
            let t1 = "` is a git dependency in laplace.toml -- use `laplace update "@;
            let t2 = "` to refresh it, not `laplace add "@;
            lemma_tells_one("`"@, package, t1);
            let begun = "`"@ + package + t1;
            lemma_in_turn_next(begun, seq![package], package);
            lemma_in_turn_next(begun + package, seq![package], t2);
            lemma_in_turn_next(begun + package + t2, seq![package], package);
            lemma_in_turn_next(begun + package + t2 + package, seq![package], "`"@);
        },
        ResolveFault::TempDir { reason } => {
            lemma_tells_one("failed to create a temporary directory: "@, reason, seq![]);
        },
        ResolveFault::Git(fault) => {
            law_git_message_tells_what_is_wrong(fault);
        },
        ResolveFault::UnknownSource { name, version, pkg_source } => {
            lemma_tells_three(
                "laplace.lock has an unrecognized source `"@,
                pkg_source,
                "` for `"@,
                name,
                "@"@,
                version,
                "`"@,
            );
        },
        ResolveFault::Docs(fault) => {
            law_docs_message_tells_what_is_wrong(fault);
        },
    }
}

/// The message of a checksum that is not the pinned one.
proof fn lemma_checksum_message(
    name: Seq<char>,
    version: Seq<char>,
    expected: Seq<char>,
    actual: Seq<char>,
)
    ensures
        in_turn(
            resolve_message(ResolveFault::ChecksumMismatch { name, version, expected, actual }),
            seq![name, version, expected, actual],
        ),
{
    let t0 = "checksum mismatch for `"@;
    let t2 = "`: laplace.lock says "@;
    let t3 = ", registry contents hash to "@;
    lemma_tells_three(t0, name, "@"@, version, t2, expected, t3);
    let begun = t0 + name + "@"@ + version + t2 + expected + t3;
    let facts = seq![name, version, expected];
    lemma_in_turn_next(begun, facts, actual);
    assert(facts + seq![actual] =~= seq![name, version, expected, actual]);
    lemma_in_turn_next(
        begun + actual,
        seq![name, version, expected, actual],
        " -- the registry copy has changed since the lock was written"@,
    );
}

/// What `build` prints names the file, how many lines were written and how many packages were
/// imported.
pub proof fn law_build_report_counts(path: Seq<char>, source: Seq<char>, imports: nat)
    ensures
        in_turn(
            build_report_text(path, source, imports),
            seq![path, decimal(lines(source).len()), decimal(imports)],
        ),
{
    let n = lines(source).len();
    let facts = seq![path, decimal(n)];
    let ls = " "@ + plural_form(n as int, "line"@, "lines"@);
    let ds = " "@ + plural_form(imports as int, "dependency"@, "dependencies"@);
    lemma_tells_two("wrote "@, path, " ("@, decimal(n), ls);
    let begun = "wrote "@ + path + " ("@ + decimal(n) + ls;
    lemma_in_turn_next(begun, facts, ", "@);
    lemma_in_turn_next(begun + ", "@, facts, decimal(imports));
    let all = seq![path, decimal(n), decimal(imports)];
    assert(facts + seq![decimal(imports)] =~= all);
    lemma_in_turn_next(begun + ", "@ + decimal(imports), all, ds);
    lemma_in_turn_next(begun + ", "@ + decimal(imports) + ds, all, ")"@);
    lemma_report_is(path, decimal(n), plural_form(n as int, "line"@, "lines"@), decimal(imports),
        plural_form(imports as int, "dependency"@, "dependencies"@));
}

/// The two ways in which the report is put together.
proof fn lemma_report_is(
    path: Seq<char>,
    n: Seq<char>,
    line: Seq<char>,
    m: Seq<char>,
    dep: Seq<char>,
)
    ensures
        "wrote "@ + path + " ("@ + (n + " "@ + line) + ", "@ + (m + " "@ + dep) + ")"@ == "wrote "@
            + path + " ("@ + n + (" "@ + line) + ", "@ + m + (" "@ + dep) + ")"@,
{
    assert("wrote "@ + path + " ("@ + (n + " "@ + line) =~= "wrote "@ + path + " ("@ + n + (" "@
        + line));
    let a = "wrote "@ + path + " ("@ + n + (" "@ + line) + ", "@;
    assert(a + (m + " "@ + dep) =~= a + m + (" "@ + dep));
}

} // verus!
