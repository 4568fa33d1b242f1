//! What `laplace init` reads and writes, and what is told of it.
use vstd::prelude::*;

use crate::cli::{doc_spec, init_report_text, output_path, package_spec, plural_form};
use crate::docs::{
    documents, installed_dir, lookup_result, sidecar_of, sidecar_read, DocsFault, DocsText,
};
use crate::files::FileText;
use crate::init::{init_result, names_by_doc, InitFault, SummaryText};
use crate::laws::calling::lemma_ranked_members;
use crate::laws::choosing::lemma_push_contains;
use crate::laws::texts::{
    in_turn, lacks, law_joined_parts_stand_in_turn, law_split_at_the_first, law_split_at_the_last,
    lemma_in_turn_concat, lemma_in_turn_next, lemma_in_turn_one,
};
use crate::manifest::{
    concatenated, is_stan_name, package_manifest_of, project_manifest_of, stan_names,
    DependencyText, ManifestFault, PackageText,
};
use crate::order::{lemma_ranked_ascends, lemma_ranked_permutes, ranked, text_at_most};
use crate::parser::signatures::{signatures_of, FunctionSig, Signature};
use crate::resolve::lockfile::{
    find_pin, lock_of, pins_package, recorded, without_package, LockfileFault, Pin,
};
use crate::text::{
    decimal, find_char, find_text, first_from, is_char_at, join, lemma_first_found, occurrence,
    occurs_at, split_first, split_last,
};

verus! {

/// The names of the functions that have a doc comment, or of those that have none, in the order of
/// the source.
pub open spec fn names_where(sigs: Seq<Signature>, documented: bool) -> Seq<Seq<char>> {
    sigs.filter(|sig: Signature| (sig.doc is Some) == documented).map_values(
        |sig: Signature| sig.name,
    )
}

/// The names by doc comment are those of the functions that have one, or have none.
proof fn lemma_names_by_doc(sigs: Seq<Signature>, documented: bool)
    ensures
        names_by_doc(sigs, documented) == names_where(sigs, documented),
    decreases sigs.len(),
{
    reveal(Seq::filter);
    if sigs.len() > 0 {
        lemma_names_by_doc(sigs.drop_last(), documented);
    }
    assert(names_by_doc(sigs, documented) =~= names_where(sigs, documented));
}

/// A name is listed exactly if it is that of a function with a doc comment, or without.
proof fn lemma_names_by_doc_contain(sigs: Seq<Signature>, documented: bool, name: Seq<char>)
    ensures
        names_by_doc(sigs, documented).contains(name) <==> exists|i: int|
            0 <= i < sigs.len() && (#[trigger] sigs[i]).name == name && (sigs[i].doc is Some)
                == documented,
    decreases sigs.len(),
{
    if sigs.len() > 0 {
        let front = sigs.drop_last();
        let last = sigs.len() - 1;
        lemma_names_by_doc_contain(front, documented, name);
        lemma_push_contains(names_by_doc(front, documented), sigs[last].name, name);
        if exists|i: int|
            0 <= i < front.len() && (#[trigger] front[i]).name == name && (front[i].doc is Some)
                == documented {
            let i = choose|i: int|
                0 <= i < front.len() && (#[trigger] front[i]).name == name && (front[i].doc is Some)
                    == documented;
            assert(sigs[i] == front[i]);
        }
        if exists|i: int|
            0 <= i < sigs.len() && (#[trigger] sigs[i]).name == name && (sigs[i].doc is Some)
                == documented {
            let i = choose|i: int|
                0 <= i < sigs.len() && (#[trigger] sigs[i]).name == name && (sigs[i].doc is Some)
                    == documented;
            if i < last {
                assert(front[i] == sigs[i]);
            }
        }
    }
}

/// `init` exports every function that has a doc comment, and no other: the manifest that it writes
/// has a name exactly if a function of that name in the source is documented, and lists them in
/// the order of the source, as the summary does. The others are those that the summary says were
/// left out.
pub proof fn law_init_exports_every_documented_function(
    dir_name: Option<Seq<char>>,
    path: Seq<char>,
    source: Seq<char>,
    name: Seq<char>,
)
    ensures
        init_result(dir_name, path, false, Ok(source)) matches Ok((summary, manifest)) && {
            let sigs = signatures_of(source);
            &&& manifest.exports.contains(name) <==> exists|i: int|
                0 <= i < sigs.len() && (#[trigger] sigs[i]).name == name && sigs[i].doc is Some
            &&& summary.excluded.contains(name) <==> exists|i: int|
                0 <= i < sigs.len() && (#[trigger] sigs[i]).name == name && sigs[i].doc is None
            &&& manifest.exports == names_where(sigs, true)
            &&& manifest.exports == summary.included
            &&& summary.excluded == names_where(sigs, false)
            &&& manifest.exports.len() + summary.excluded.len() == sigs.len()
        },
{
    let sigs = signatures_of(source);
    lemma_names_by_doc(sigs, true);
    lemma_names_by_doc(sigs, false);
    lemma_names_by_doc_contain(sigs, true, name);
    lemma_names_by_doc_contain(sigs, false, name);
    lemma_names_add_up(sigs);
}

/// Every function is listed once.
proof fn lemma_names_add_up(sigs: Seq<Signature>)
    ensures
        names_by_doc(sigs, true).len() + names_by_doc(sigs, false).len() == sigs.len(),
    decreases sigs.len(),
{
    if sigs.len() > 0 {
        lemma_names_add_up(sigs.drop_last());
    }
}

/// The manifest that `init` writes has the name of the directory, or `package` where it has none,
/// which is also the one that the summary has, and the version `0.1.0`. A source that cannot be read
/// is a fault.
pub proof fn law_init_names_the_package(
    dir_name: Option<Seq<char>>,
    path: Seq<char>,
    source: Seq<char>,
    reason: Seq<char>,
)
    ensures
        init_result(dir_name, path, false, Ok(source)) matches Ok((summary, manifest))
            && manifest.name == (match dir_name {
            Some(name) => name,
            None => "package"@,
        }) && summary.name == manifest.name && manifest.version == "0.1.0"@,
        init_result(dir_name, path, false, Err(reason)) == Err::<
            (SummaryText, PackageText),
            InitFault,
        >(InitFault::Io { reason }),
{
}

/// What `init` prints names the package, every function that it included and then every one that
/// it left out.
pub proof fn law_init_report_names_every_function(summary: SummaryText)
    ensures
        in_turn(
            init_report_text(summary),
            seq![summary.name] + summary.included + summary.excluded,
        ),
{
    let a = "wrote laplace.toml for `"@;
    let begun = a + summary.name + "`\n"@;
    lemma_in_turn_one(a);
    lemma_in_turn_next(a, Seq::empty(), summary.name);
    lemma_in_turn_next(a + summary.name, Seq::empty() + seq![summary.name], "`\n"@);
    assert(Seq::<Seq<char>>::empty() + seq![summary.name] =~= seq![summary.name]);
    let included = if summary.included.len() == 0 {
        "no @laplace-documented functions found -- exports is empty, add entries by hand\n"@
    } else {
        "included "@ + decimal(summary.included.len()) + " exported "@ + plural_form(
            summary.included.len() as int,
            "function"@,
            "functions"@,
        ) + ": "@ + join(summary.included, ", "@) + "\n"@
    };
    let excluded = if summary.excluded.len() == 0 {
        seq![]
    } else {
        "note: "@ + decimal(summary.excluded.len()) + " undocumented "@ + plural_form(
            summary.excluded.len() as int,
            "function"@,
            "functions"@,
        ) + " left out of exports (add manually if this guess is wrong): "@ + join(
            summary.excluded,
            ", "@,
        ) + "\n"@
    };
    lemma_listed_in_turn(
        "included "@ + decimal(summary.included.len()) + " exported "@ + plural_form(
            summary.included.len() as int,
            "function"@,
            "functions"@,
        ) + ": "@,
        summary.included,
    );
    lemma_listed_in_turn(
        "note: "@ + decimal(summary.excluded.len()) + " undocumented "@ + plural_form(
            summary.excluded.len() as int,
            "function"@,
            "functions"@,
        ) + " left out of exports (add manually if this guess is wrong): "@,
        summary.excluded,
    );
    lemma_in_turn_one(included);
    lemma_in_turn_one(excluded);
    if summary.included.len() == 0 {
        assert(summary.included =~= Seq::empty());
    }
    if summary.excluded.len() == 0 {
        assert(summary.excluded =~= Seq::empty());
    }
    lemma_in_turn_concat(begun, seq![summary.name], included, summary.included);
    lemma_in_turn_concat(
        begun + included,
        seq![summary.name] + summary.included,
        excluded,
        summary.excluded,
    );
}

/// Names that are listed behind a text and before a line end stand there one behind the other.
proof fn lemma_listed_in_turn(head: Seq<char>, names: Seq<Seq<char>>)
    ensures
        in_turn(head + join(names, ", "@) + "\n"@, names),
{
    law_joined_parts_stand_in_turn(names, ", "@);
    lemma_in_turn_one(head);
    lemma_in_turn_concat(head, Seq::empty(), join(names, ", "@), names);
    assert(Seq::<Seq<char>>::empty() + names =~= names);
    lemma_in_turn_next(head + join(names, ", "@), names, "\n"@);
}

/// A package's source is in the files whose name is something and then `.stan`.
pub proof fn law_stan_files_end_in_stan(name: Seq<char>)
    ensures
        is_stan_name(name) <==> name.len() > 5 && name.skip(name.len() - 5) == ".stan"@,
{
    reveal_strlit(".stan");
    reveal_strlit("stan");
    law_split_at_the_last(name, '.');
    if let Some((stem, ext)) = split_last(name, '.') {
        if is_stan_name(name) {
            assert(name.skip(name.len() - 5) =~= ".stan"@);
        }
        if name.len() > 5 && name.skip(name.len() - 5) == ".stan"@ {
            let k = name.len() - 5;
            let end = name.skip(k);
            assert(end[0] == '.' && end[1] == 's' && end[2] == 't' && end[3] == 'a' && end[4]
                == 'n');
            assert(name[k] == '.' && name[k + 1] == 's' && name[k + 2] == 't' && name[k + 3]
                == 'a' && name[k + 4] == 'n');
            let d = stem.len() as int;
            assert(name[d] == '.');
            if d < k {
                assert(ext[k - d - 1] == name[k]);
            }
            assert(d == k);
            assert(ext =~= "stan"@);
        }
    } else if name.len() > 5 && name.skip(name.len() - 5) == ".stan"@ {
        assert(name.skip(name.len() - 5)[0] == name[name.len() - 5]);
    }
}

/// Of a directory's files those are read whose names are of `.stan` files, all of them, in the order
/// of their names.
pub proof fn law_every_stan_file_is_read(names: Seq<Seq<char>>, name: Seq<char>)
    ensures
        stan_names(names) == names.filter(|n: Seq<char>| is_stan_name(n)),
        ranked::<String>(stan_names(names)).contains(name) <==> names.contains(name)
            && is_stan_name(name),
        ranked::<String>(stan_names(names)).to_multiset() == stan_names(names).to_multiset(),
        forall|i: int, j: int|
            0 <= i < j < ranked::<String>(stan_names(names)).len() ==> text_at_most(
                #[trigger] ranked::<String>(stan_names(names))[i],
                #[trigger] ranked::<String>(stan_names(names))[j],
            ),
{
    lemma_stan_names(names, name);
    lemma_ranked_members::<String>(stan_names(names), name);
    lemma_ranked_permutes::<String>(stan_names(names));
    lemma_ranked_ascends::<String>(stan_names(names));
}

/// The names of `.stan` files among names.
proof fn lemma_stan_names(names: Seq<Seq<char>>, name: Seq<char>)
    ensures
        stan_names(names) == names.filter(|n: Seq<char>| is_stan_name(n)),
        stan_names(names).contains(name) <==> names.contains(name) && is_stan_name(name),
    decreases names.len(),
{
    reveal(Seq::filter);
    if names.len() > 0 {
        let front = names.drop_last();
        lemma_stan_names(front, name);
        assert(names =~= front.push(names.last()));
        lemma_push_contains(front, names.last(), name);
        lemma_push_contains(stan_names(front), names.last(), name);
    }
}

/// The text of a package is that of its files one after the other: that of two lists of files is
/// that of the one and then that of the other, and that of one file is its text and a line end.
pub proof fn law_source_is_all_files(a: Seq<Seq<char>>, b: Seq<Seq<char>>, file: Seq<char>)
    ensures
        concatenated(a + b) == concatenated(a) + concatenated(b),
        concatenated(seq![file]) == file + "\n"@,
        concatenated(Seq::<Seq<char>>::empty()).len() == 0,
    decreases b.len(),
{
    assert(concatenated(seq![file].drop_last()) =~= Seq::empty());
    assert(concatenated(seq![file]) =~= file + "\n"@);
    if b.len() == 0 {
        assert(a + b =~= a);
        assert(concatenated(a) + concatenated(b) =~= concatenated(a));
    } else {
        assert((a + b).drop_last() =~= a + b.drop_last());
        law_source_is_all_files(a, b.drop_last(), file);
        assert(concatenated(a + b) =~= concatenated(a) + concatenated(b));
    }
}

// Looking a function up ---------------------------------------------------

/// `pins[i]` is the first of `pins` of the package `name`.
pub open spec fn is_first_pin(pins: Seq<Pin>, name: Seq<char>, i: int) -> bool {
    &&& 0 <= i < pins.len()
    &&& pins[i].name == name
    &&& forall|j: int| 0 <= j < i ==> (#[trigger] pins[j]).name != name
}

/// A package has a pin exactly if one of the pins has its name, wherever it stands; of several it is
/// the first.
pub proof fn law_pin_is_found(pins: Seq<Pin>, name: Seq<char>)
    ensures
        find_pin(pins, name) is Some <==> exists|i: int|
            0 <= i < pins.len() && (#[trigger] pins[i]).name == name,
        find_pin(pins, name) matches Some(pin) ==> exists|i: int|
            #[trigger] is_first_pin(pins, name, i) && pins[i] == pin,
{
    let p = pins_package(pins, name);
    lemma_first_found(p, 0, pins.len() as int);
    match first_from(p, 0, pins.len() as int) {
        Some(i) => {
            assert(p(i));
            assert forall|j: int| 0 <= j < i implies (#[trigger] pins[j]).name != name by {
                assert(!p(j));
            }
            assert(is_first_pin(pins, name, i));
        },
        None => {
            assert forall|i: int| 0 <= i < pins.len() implies (#[trigger] pins[i]).name != name by {
                assert(!p(i));
            }
        },
    }
}

/// `functions[i]` is the first function of the name.
pub open spec fn is_first_function(functions: Seq<Signature>, func: Seq<char>, i: int) -> bool {
    &&& 0 <= i < functions.len()
    &&& functions[i].name == func
    &&& forall|j: int| 0 <= j < i ==> (#[trigger] functions[j]).name != func
}

/// `laplace doc` finds a function exactly if the lock can be read, one of its pins is of the
/// package, the sidecar of that can be read, and one of its functions has the name. Otherwise it says
/// which of these is missing.
pub proof fn law_documented_function_is_found(
    lock: Result<Seq<Pin>, LockfileFault>,
    dir: Seq<char>,
    package: Seq<char>,
    func: Seq<char>,
    sidecar: Option<Result<DocsText, DocsFault>>,
)
    ensures
        ({
            let found = lookup_result(lock, dir, package, func, sidecar);
            let locked = lock matches Ok(pins) && exists|i: int|
                0 <= i < pins.len() && (#[trigger] pins[i]).name == package;
            &&& lock matches Err(fault) ==> found == Err::<Signature, DocsFault>(
                DocsFault::Lockfile(fault),
            )
            &&& lock is Ok && !locked ==> found == Err::<Signature, DocsFault>(
                DocsFault::PackageNotInLockfile { package },
            )
            &&& locked && sidecar is None ==> found == Err::<Signature, DocsFault>(
                DocsFault::PackageNotInstalled { package, path: dir },
            )
            &&& locked ==> (sidecar matches Some(Err(fault)) ==> found == Err::<
                Signature,
                DocsFault,
            >(fault))
            &&& locked ==> (sidecar matches Some(Ok(docs)) ==> match found {
                Ok(sig) => exists|i: int|
                    #[trigger] is_first_function(docs.functions, func, i) && docs.functions[i]
                        == sig,
                Err(fault) => fault == (DocsFault::FunctionNotFound { package, func })
                    && forall|i: int|
                    0 <= i < docs.functions.len() ==> (#[trigger] docs.functions[i]).name != func,
            })
        }),
{
    if let Ok(pins) = lock {
        law_pin_is_found(pins, package);
    }
    if let Some(Ok(docs)) = sidecar {
        let p = documents(docs.functions, func);
        let n = docs.functions.len() as int;
        lemma_first_found(p, 0, n);
        match first_from(p, 0, n) {
            Some(i) => {
                assert(p(i));
                assert forall|j: int| 0 <= j < i implies (#[trigger] docs.functions[j]).name
                    != func by {
                    assert(!p(j));
                }
                assert(is_first_function(docs.functions, func, i));
            },
            None => {
                assert forall|i: int| 0 <= i < n implies (#[trigger] docs.functions[i]).name
                    != func by {
                    assert(!p(i));
                }
            },
        }
    }
}

/// The sidecar of a package says which package and version it is of, and holds every function of the
/// source, those of a name in the order of the source.
pub proof fn law_sidecar_holds_every_function(
    source: Seq<char>,
    name: Seq<char>,
    version: Seq<char>,
    sig: Signature,
)
    ensures
        ({
            let docs = sidecar_of(source, name, version);
            &&& docs.package == name
            &&& docs.version == version
            &&& docs.functions.len() == signatures_of(source).len()
            &&& docs.functions.contains(sig) <==> signatures_of(source).contains(sig)
        }),
{
    lemma_ranked_members::<FunctionSig>(signatures_of(source), sig);
    lemma_ranked_permutes::<FunctionSig>(signatures_of(source));
}

/// A sidecar that is there is what it holds; one that cannot be read or makes no sense is a fault
/// that names the file and the reason.
pub proof fn law_sidecar_is_read(path: Seq<char>, outcome: FileText<DocsText>)
    ensures
        match outcome {
            FileText::Holds(docs) => sidecar_read(path, outcome) == Ok::<DocsText, DocsFault>(docs),
            FileText::Malformed { reason } => sidecar_read(path, outcome) == Err::<
                DocsText,
                DocsFault,
            >(DocsFault::Parse { path, reason }),
            FileText::Missing { reason } => sidecar_read(path, outcome) == Err::<
                DocsText,
                DocsFault,
            >(DocsFault::Io { path, reason }),
            FileText::Unreadable { reason } => sidecar_read(path, outcome) == Err::<
                DocsText,
                DocsFault,
            >(DocsFault::Io { path, reason }),
        },
{
}

/// Packages are installed by their names and versions, so that two have a directory in common only
/// if they have both in common; and the output of a source goes by the stem of its name.
pub proof fn law_places_go_by_names(a: Pin, b: Pin, stem: Seq<char>)
    ensures
        installed_dir(a) == seq![a.name, a.version],
        installed_dir(a) == installed_dir(b) <==> a.name == b.name && a.version == b.version,
        output_path(Some(stem)) == seq!["build"@, stem + ".stan"@],
        output_path(None) == seq!["build"@, "model"@ + ".stan"@],
{
    if installed_dir(a) == installed_dir(b) {
        assert(installed_dir(a)[0] == a.name && installed_dir(b)[0] == b.name);
        assert(installed_dir(a)[1] == a.version && installed_dir(b)[1] == b.version);
    }
}

// Locking -----------------------------------------------------------------

/// Recording a pin takes away those of its package, all of them, keeps the others in their order,
/// and puts the new one behind them.
pub proof fn law_recording_replaces_the_pin(pins: Seq<Pin>, pin: Pin)
    ensures
        recorded(pins, pin) == pins.filter(|p: Pin| p.name != pin.name).push(pin),
{
    lemma_without_package_filters(pins, pin.name);
}

/// Without a package's pins there are those of the others.
proof fn lemma_without_package_filters(pins: Seq<Pin>, name: Seq<char>)
    ensures
        without_package(pins, name) == pins.filter(|p: Pin| p.name != name),
    decreases pins.len(),
{
    reveal(Seq::filter);
    if pins.len() > 0 {
        lemma_without_package_filters(pins.drop_last(), name);
    }
}

/// A lock, a project manifest and a package manifest that are there are what they hold; a lock or a
/// project manifest that is missing is empty, and everything else is a fault.
pub proof fn law_missing_files_are_empty(
    path: Seq<char>,
    lock: FileText<Seq<Pin>>,
    project: FileText<Map<Seq<char>, DependencyText>>,
    package: FileText<PackageText>,
)
    ensures
        lock matches FileText::Holds(pins) ==> lock_of(path, lock) == Ok::<Seq<Pin>, LockfileFault>(
            pins,
        ),
        lock is Missing ==> (lock_of(path, lock) matches Ok(pins) && pins.len() == 0),
        lock matches FileText::Unreadable { reason } ==> lock_of(path, lock) == Err::<
            Seq<Pin>,
            LockfileFault,
        >(LockfileFault::Io { path, reason }),
        lock matches FileText::Malformed { reason } ==> lock_of(path, lock) == Err::<
            Seq<Pin>,
            LockfileFault,
        >(LockfileFault::Parse { path, reason }),
        project matches FileText::Holds(entries) ==> project_manifest_of(path, project) == Ok::<
            Map<Seq<char>, DependencyText>,
            ManifestFault,
        >(entries),
        project is Missing ==> (project_manifest_of(path, project) matches Ok(entries)
            && entries.dom() =~= Set::empty()),
        project matches FileText::Unreadable { reason } ==> project_manifest_of(path, project)
            == Err::<Map<Seq<char>, DependencyText>, ManifestFault>(
            ManifestFault::Io { path, reason },
        ),
        project matches FileText::Malformed { reason } ==> project_manifest_of(path, project)
            == Err::<Map<Seq<char>, DependencyText>, ManifestFault>(
            ManifestFault::Parse { path, reason },
        ),
        package matches FileText::Holds(manifest) ==> package_manifest_of(path, package) == Ok::<
            PackageText,
            ManifestFault,
        >(manifest),
        package matches FileText::Malformed { reason } ==> package_manifest_of(path, package)
            == Err::<PackageText, ManifestFault>(ManifestFault::Parse { path, reason }),
        package matches FileText::Missing { reason } ==> package_manifest_of(path, package) == Err::<
            PackageText,
            ManifestFault,
        >(ManifestFault::Io { path, reason }),
        package matches FileText::Unreadable { reason } ==> package_manifest_of(path, package)
            == Err::<PackageText, ManifestFault>(ManifestFault::Io { path, reason }),
{
}

/// A package spec `<name>@<version>` gives the two back, and one without `@` the name alone.
pub proof fn law_package_spec_reads_back(name: Seq<char>, version: Seq<char>)
    requires
        lacks(name, '@'),
    ensures
        package_spec(name + "@"@ + version) == (name, Some(version)),
        package_spec(name) == (name, None::<Seq<char>>),
{
    reveal_strlit("@");
    let s = name + "@"@ + version;
    let n = name.len() as int;
    let p = is_char_at(s, '@');
    lemma_first_found(p, 0, s.len() as int);
    assert(s[n] == '@');
    assert(p(n));
    let i = find_char(s, '@')->0;
    if i < n {
        assert(p(i));
        assert(s[i] == name[i]);
    }
    assert(s.take(n) =~= name);
    assert(s.skip(n + 1) =~= version);
    law_split_at_the_first(name, '@');
    if let Some((a, b)) = split_first(name, '@') {
        assert(name[a.len() as int] == '@');
    }
}

/// Specs are taken apart at the first `@` and the first `::`: what stands before and behind gives the
/// spec back, and there is nothing to take apart exactly if the spec has none.
pub proof fn law_specs_are_taken_apart_at_the_first(spec: Seq<char>)
    ensures
        match package_spec(spec) {
            (name, Some(version)) => spec == name + "@"@ + version && lacks(name, '@'),
            (name, None) => spec == name && lacks(name, '@'),
        },
        match doc_spec(spec) {
            Some((package, func)) => spec == package + "::"@ + func && forall|j: int|
                0 <= j < package.len() ==> !#[trigger] occurs_at(spec, "::"@, j),
            None => forall|j: int| !#[trigger] occurs_at(spec, "::"@, j),
        },
{
    reveal_strlit("@");
    reveal_strlit("::");
    law_split_at_the_first(spec, '@');
    if let (name, Some(version)) = package_spec(spec) {
        assert(name + "@"@ + version =~= name + seq!['@'] + version);
    }
    let p = occurrence(spec, "::"@);
    lemma_first_found(p, 0, spec.len() as int);
    match doc_spec(spec) {
        Some((package, func)) => {
            let i = package.len() as int;
            assert(p(i));
            assert(spec =~= spec.take(i) + spec.subrange(i, i + 2) + spec.skip(i + 2));
            assert forall|j: int| 0 <= j < i implies !#[trigger] occurs_at(spec, "::"@, j) by {
                assert(!p(j));
            }
        },
        None => {
            assert forall|j: int| !#[trigger] occurs_at(spec, "::"@, j) by {
                if 0 <= j < spec.len() {
                    assert(!p(j));
                }
            }
        },
    }
}

/// A doc spec `<package>::<function>` gives the two back, and one without `::` nothing.
pub proof fn law_doc_spec_reads_back(package: Seq<char>, func: Seq<char>)
    requires
        lacks(package, ':'),
    ensures
        doc_spec(package + "::"@ + func) == Some((package, func)),
        doc_spec(package) is None,
{
    reveal_strlit("::");
    let s = package + "::"@ + func;
    let n = package.len() as int;
    let p = occurrence(s, "::"@);
    lemma_first_found(p, 0, s.len() as int);
    assert(s.subrange(n, n + 2) =~= "::"@);
    assert(p(n));
    let i = find_text(s, "::"@, 0)->0;
    if i < n {
        assert(p(i));
        assert(s.subrange(i, i + 2)[0] == s[i]);
        assert(s[i] == package[i]);
    }
    assert(s.take(n) =~= package);
    assert(s.skip(n + 2) =~= func);
    let q = occurrence(package, "::"@);
    lemma_first_found(q, 0, n);
    if let Some(k) = find_text(package, "::"@, 0) {
        assert(q(k));
        assert(package.subrange(k, k + 2)[0] == package[k]);
    }
}

} // verus!
