//! Which packages a build loads, and where they come out.
use vstd::prelude::*;
use vstd::utf8::encode_utf8;

use crate::cli::{built, in_pin_order, is_named, loaded_packages, named_before, PackageReadText};
use crate::codegen::{
    block_imports, codegen_message, compiled, splice_edits, splice_head, splice_tail, Compiled,
    Package,
};
use crate::codegen::edits::{edited_before_splice, Edit};
use crate::codegen::imports::imported;
use crate::codegen::mangling::{package_code, package_codes};
use crate::laws::building::{law_located_packages_are_built_in, package_of};
use crate::laws::compiling::{
    compile_edits, compiles, edits_in_order, law_package_code_is_spliced,
    lemma_compile_edits_are_plain, lemma_contained_is_sorted, lemma_sorted_in_order, sorted_edits,
    splice_place,
};
use crate::laws::starting::law_pin_is_found;
use crate::laws::texts::{
    in_turn, law_joined_parts_stand_in_turn, lemma_in_turn_concat, lemma_in_turn_next,
    lemma_in_turn_one,
};
use crate::order::{lemma_text_less_total, ranked, text_less};
use crate::parser::library_block::{library_message, library_of, Import, Library};
use crate::parser::signatures::signatures_of;
use crate::resolve::{checksum_fault, registry_copy_fault};
use crate::resolve::checksum::{
    all_bytes, checksum_of, file_bytes, hex, path_less, sha256_digest, with_slashes, FileContents,
    PackageFile,
};
use crate::resolve::error::ResolveFault;
use crate::resolve::git::{
    fetch_command, next_fetch_step, run_fault, CommandOutcome, FetchStep, GitFault,
};
use crate::resolve::lockfile::{find_pin, pins_package, Pin};
use crate::text::{first_from, join, lemma_first_found, trim};

verus! {

// Loading -----------------------------------------------------------------

/// The package that an import names is locked, and its directory could be read.
pub open spec fn is_loadable(pins: Seq<Pin>, import: Import, read: PackageReadText) -> bool {
    read is Read && exists|i: int| 0 <= i < pins.len() && (#[trigger] pins[i]).name == import.name
}

/// The package is the one that the import names, with what was read of it.
pub open spec fn is_loaded(package: Package, import: Import, read: PackageReadText) -> bool {
    &&& read matches PackageReadText::Read { manifest, source } && package.exported
        == manifest.exports && package.source == source && package.signatures == signatures_of(
        source,
    )
    &&& package.name == import.name
}

/// What is said of an import that cannot be loaded: that it is not locked, that what is locked is not
/// installed, or why that cannot be read.
pub open spec fn load_fault(pins: Seq<Pin>, import: Import, read: PackageReadText) -> Seq<char> {
    match find_pin(pins, import.name) {
        None => "`"@ + import.name
            + "` is imported but not recorded in laplace.lock -- run `laplace add "@ + import.name
            + "` first"@,
        Some(pin) => match read {
            PackageReadText::Failed { reason } => reason,
            _ => "`"@ + pin.name + "@"@ + pin.version
                + "` is in laplace.lock but not installed -- run `laplace install` first"@,
        },
    }
}

/// The imports before the one at `k` can be loaded, and that one cannot.
pub open spec fn is_first_unloadable(
    pins: Seq<Pin>,
    imports: Seq<Import>,
    reads: Seq<PackageReadText>,
    k: int,
) -> bool {
    &&& 0 <= k < imports.len()
    &&& !is_loadable(pins, imports[k], reads[k])
    &&& forall|j: int| 0 <= j < k ==> is_loadable(pins, #[trigger] imports[j], reads[j])
}

/// Every import is loaded, as it was read, in the order of the imports, exactly if each of them can
/// be; otherwise the first that cannot is named.
pub proof fn law_every_import_is_loaded(
    pins: Seq<Pin>,
    imports: Seq<Import>,
    reads: Seq<PackageReadText>,
)
    requires
        imports.len() == reads.len(),
    ensures
        match loaded_packages(pins, imports, reads) {
            Ok(packages) => packages.len() == imports.len() && forall|k: int|
                0 <= k < imports.len() ==> is_loadable(pins, #[trigger] imports[k], reads[k])
                    && is_loaded(packages[k], imports[k], reads[k]),
            Err(message) => exists|k: int|
                #[trigger] is_first_unloadable(pins, imports, reads, k) && message == load_fault(
                    pins,
                    imports[k],
                    reads[k],
                ),
        },
    decreases imports.len(),
{
    if imports.len() > 0 {
        let front = imports.drop_last();
        let before = reads.drop_last();
        let last = imports.len() - 1;
        law_every_import_is_loaded(pins, front, before);
        law_pin_is_found(pins, imports[last].name);
        match loaded_packages(pins, front, before) {
            Err(message) => {
                let k = choose|k: int|
                    #[trigger] is_first_unloadable(pins, front, before, k) && message == load_fault(
                        pins,
                        front[k],
                        before[k],
                    );
                assert(front[k] == imports[k] && before[k] == reads[k]);
                assert forall|j: int| 0 <= j < k implies is_loadable(
                    pins,
                    #[trigger] imports[j],
                    reads[j],
                ) by {
                    assert(front[j] == imports[j] && before[j] == reads[j]);
                }
                assert(is_first_unloadable(pins, imports, reads, k));
            },
            Ok(packages) => {
                assert forall|j: int| 0 <= j < last implies is_loadable(
                    pins,
                    #[trigger] imports[j],
                    reads[j],
                ) && is_loaded(packages[j], imports[j], reads[j]) by {
                    assert(front[j] == imports[j] && before[j] == reads[j]);
                }
                if is_loadable(pins, imports[last], reads[last]) {
                    let all = loaded_packages(pins, imports, reads)->Ok_0;
                    assert forall|k: int| 0 <= k < imports.len() implies is_loadable(
                        pins,
                        #[trigger] imports[k],
                        reads[k],
                    ) && is_loaded(all[k], imports[k], reads[k]) by {
                        if k < last {
                            assert(all[k] == packages[k]);
                        }
                    }
                } else {
                    assert(is_first_unloadable(pins, imports, reads, last));
                }
            },
        }
    }
}

/// Where in the lock a package is first pinned.
pub open spec fn pin_index(pins: Seq<Pin>, name: Seq<char>) -> Option<int> {
    first_from(pins_package(pins, name), 0, pins.len() as int)
}

/// Packages are built in the order of the lock, each once: the earlier one of two is pinned before
/// the later one, each is the first that was loaded under its name, and none is missing that was
/// loaded and is pinned.
pub proof fn law_packages_are_built_in_lock_order(
    pins: Seq<Pin>,
    packages: Seq<Package>,
    name: Seq<char>,
)
    ensures
        ({
            let out = in_pin_order(pins, packages, pins.len() as int);
            &&& forall|i: int|
                0 <= i < out.len() ==> package_of(packages, (#[trigger] out[i]).name) == Some(out[i])
                    && pin_index(pins, out[i].name) is Some
            &&& forall|i: int, j: int|
                0 <= i < j < out.len() ==> pin_index(pins, (#[trigger] out[i]).name)->0 < pin_index(
                    pins,
                    (#[trigger] out[j]).name,
                )->0
            &&& pin_index(pins, name) is Some && package_of(packages, name) is Some ==> out.contains(
                package_of(packages, name)->0,
            )
        }),
{
    lemma_in_pin_order(pins, packages, pins.len() as int);
    if pin_index(pins, name) is Some && package_of(packages, name) is Some {
        law_located_packages_are_built_in(pins, packages, name);
    }
}

/// What the first pins bring, in their order.
proof fn lemma_in_pin_order(pins: Seq<Pin>, packages: Seq<Package>, k: int)
    requires
        0 <= k <= pins.len(),
    ensures
        ({
            let out = in_pin_order(pins, packages, k);
            &&& forall|i: int|
                0 <= i < out.len() ==> package_of(packages, (#[trigger] out[i]).name) == Some(out[i])
                    && (pin_index(pins, out[i].name) matches Some(a) && a < k)
            &&& forall|i: int, j: int|
                0 <= i < j < out.len() ==> pin_index(pins, (#[trigger] out[i]).name)->0 < pin_index(
                    pins,
                    (#[trigger] out[j]).name,
                )->0
        }),
    decreases k,
{
    if k > 0 {
        let rest = in_pin_order(pins, packages, k - 1);
        let out = in_pin_order(pins, packages, k);
        let name = pins[k - 1].name;
        lemma_in_pin_order(pins, packages, k - 1);
        let q = is_named(packages, name);
        lemma_first_found(q, 0, packages.len() as int);
        if let Some(i) = first_from(q, 0, packages.len() as int) {
            assert(q(i));
            if !named_before(pins, k - 1, name) {
                let p = pins_package(pins, name);
                lemma_first_found(p, 0, pins.len() as int);
                assert(p(k - 1));
                let a = pin_index(pins, name)->0;
                if a < k - 1 {
                    assert(p(a));
                    assert(pins[a].name == name);
                }
                assert(a == k - 1);
                assert(out == rest.push(packages[i]));
                assert forall|m: int| 0 <= m < out.len() implies package_of(
                    packages,
                    (#[trigger] out[m]).name,
                ) == Some(out[m]) && (pin_index(pins, out[m].name) matches Some(a) && a < k) by {
                    if m < rest.len() {
                        assert(out[m] == rest[m]);
                    }
                }
                assert forall|m: int, j: int| 0 <= m < j < out.len() implies pin_index(
                    pins,
                    (#[trigger] out[m]).name,
                )->0 < pin_index(pins, (#[trigger] out[j]).name)->0 by {
                    assert(out[m] == rest[m]);
                    if j < rest.len() {
                        assert(out[j] == rest[j]);
                    }
                }
            }
        }
    }
}

/// A build is what its parts come to: the library block is read, what that imports is loaded, and the
/// source is compiled with these packages in the order of the lock. What fails first is what is
/// said.
pub proof fn law_build_loads_and_compiles(
    source: Seq<char>,
    pins: Seq<Pin>,
    reads: Seq<PackageReadText>,
)
    ensures
        library_of(source) matches Err(fault) ==> built(source, pins, reads) == Err::<
            Compiled,
            Seq<char>,
        >(library_message(fault)),
        library_of(source) matches Ok(block) ==> {
            let imports = block_imports(block);
            &&& loaded_packages(pins, imports, reads) matches Err(message) ==> built(
                source,
                pins,
                reads,
            ) == Err::<Compiled, Seq<char>>(message)
            &&& loaded_packages(pins, imports, reads) matches Ok(packages) ==> {
                let out = compiled(
                    source,
                    block,
                    in_pin_order(pins, packages, pins.len() as int),
                );
                &&& out matches Ok(text) ==> built(source, pins, reads) == Ok::<
                    Compiled,
                    Seq<char>,
                >(text)
                &&& out matches Err(fault) ==> built(source, pins, reads) == Err::<
                    Compiled,
                    Seq<char>,
                >(codegen_message(fault))
            }
        },
{
}

// What comes out ----------------------------------------------------------

/// The code of each package.
pub open spec fn code_of_each(packages: Seq<Package>) -> Seq<Seq<char>> {
    Seq::new(packages.len(), |k: int| package_code(packages[k]))
}

/// The code of every imported package is in the output, in the order in which the packages are
/// given; and for every one of them its lines are reported, in the same order.
pub proof fn law_every_package_comes_out(
    s: Seq<char>,
    block: Option<Library>,
    installed: Seq<Package>,
)
    requires
        compiles(s, block, installed),
    ensures
        ({
            let packages = imported(installed, block_imports(block));
            let out = compiled(s, block, installed)->Ok_0;
            &&& in_turn(out.source, code_of_each(packages))
            &&& out.package_lines.len() == packages.len()
            &&& forall|k: int|
                0 <= k < packages.len() ==> (#[trigger] out.package_lines[k]).package
                    == packages[k].name
        }),
{
    let packages = imported(installed, block_imports(block));
    let codes = package_codes(packages);
    let out = compiled(s, block, installed)->Ok_0;
    assert(codes =~= code_of_each(packages));
    if packages.len() == 0 {
        lemma_in_turn_one(out.source);
        assert(codes =~= Seq::empty());
        lemma_splice_needs_code(s, block, installed);
    } else {
        let text = splice_head(s) + join(codes, "\n"@) + splice_tail(s);
        let at = splice_place(s, block, installed);
        law_package_code_is_spliced(s, block, installed);
        law_joined_parts_stand_in_turn(codes, "\n"@);
        lemma_in_turn_one(splice_head(s));
        lemma_in_turn_concat(splice_head(s), Seq::empty(), join(codes, "\n"@), codes);
        assert(Seq::<Seq<char>>::empty() + codes =~= codes);
        lemma_in_turn_next(splice_head(s) + join(codes, "\n"@), codes, splice_tail(s));
        let front = out.source.take(at);
        let behind = out.source.skip(at + text.len());
        lemma_in_turn_one(front);
        lemma_in_turn_concat(front, Seq::empty(), text, codes);
        lemma_in_turn_next(front + text, codes, behind);
        assert(out.source =~= front + text + behind);
        lemma_splice_is_made(s, block, installed);
    }
}

/// Without code nothing is spliced in, and no lines are reported.
proof fn lemma_splice_needs_code(s: Seq<char>, block: Option<Library>, installed: Seq<Package>)
    requires
        compiled(s, block, installed) is Ok,
        imported(installed, block_imports(block)).len() == 0,
    ensures
        compiled(s, block, installed)->Ok_0.package_lines.len() == 0,
{
    let packages = imported(installed, block_imports(block));
    assert(package_codes(packages).len() == 0);
}

/// The edit that splices the code in is made.
proof fn lemma_splice_is_made(s: Seq<char>, block: Option<Library>, installed: Seq<Package>)
    requires
        compiles(s, block, installed),
        imported(installed, block_imports(block)).len() > 0,
    ensures
        edited_before_splice(s, sorted_edits(s, block, installed), 0) is Some,
{
    let edits = compile_edits(s, block, installed);
    let sorted = sorted_edits(s, block, installed);
    let packages = imported(installed, block_imports(block));
    let codes = package_codes(packages);
    lemma_compile_edits_are_plain(s, block, installed);
    lemma_sorted_in_order(edits, s.len() as int);
    let e = splice_edits(s, codes)[0];
    assert(edits[edits.len() - 1] == e);
    lemma_contained_is_sorted(edits, e);
    let k = choose|k: int| 0 <= k < sorted.len() && sorted[k] == e;
    lemma_splice_is_reached(s, sorted, 0, k);
}

/// Edits in order are all made, that of the code too.
proof fn lemma_splice_is_reached(s: Seq<char>, edits: Seq<Edit>, cursor: int, k: int)
    requires
        edits_in_order(edits, s.len() as int),
        0 <= k < edits.len(),
        edits[k].splice,
        cursor <= edits[0].start,
    ensures
        edited_before_splice(s, edits, cursor) is Some,
    decreases edits.len(),
{
    if !edits[0].splice {
        let rest = edits.drop_first();
        assert forall|i: int| 0 <= i < rest.len() implies 0 <= (#[trigger] rest[i]).start
            <= rest[i].end <= s.len() by {
            assert(rest[i] == edits[i + 1]);
        }
        assert forall|i: int, j: int| 0 <= i < j < rest.len() implies (#[trigger] rest[i]).end <= (
        #[trigger] rest[j]).start by {
            assert(rest[i] == edits[i + 1] && rest[j] == edits[j + 1]);
        }
        assert(rest[k - 1] == edits[k]);
        assert(rest[0] == edits[1]);
        lemma_splice_is_reached(s, rest, edits[0].end, k - 1);
    }
}

// Checksums ---------------------------------------------------------------

/// What is hashed covers every file: that of two lists of files is that of the one and then that of
/// the other, and of one file it is its path, with `/` between the parts and for every backslash, a
/// zero byte, its contents and a zero byte.
pub proof fn law_every_file_is_hashed(
    a: Seq<FileContents>,
    b: Seq<FileContents>,
    file: FileContents,
)
    ensures
        all_bytes(a + b) == all_bytes(a) + all_bytes(b),
        all_bytes(seq![file]) == encode_utf8(with_slashes(join(file.path, "/"@))) + seq![0u8]
            + file.contents + seq![0u8],
        all_bytes(Seq::<FileContents>::empty()).len() == 0,
    decreases b.len(),
{
    assert(all_bytes(seq![file].drop_last()) =~= Seq::empty());
    assert(all_bytes(seq![file]) =~= file_bytes(file));
    if b.len() == 0 {
        assert(a + b =~= a);
        assert(all_bytes(a) + all_bytes(b) =~= all_bytes(a));
    } else {
        assert((a + b).drop_last() =~= a + b.drop_last());
        law_every_file_is_hashed(a, b.drop_last(), file);
        assert(all_bytes(a + b) =~= all_bytes(a) + all_bytes(b));
    }
}

/// Only backslashes are changed in a path.
pub proof fn law_only_backslashes_become_slashes(s: Seq<char>, i: int)
    requires
        0 <= i < s.len(),
    ensures
        with_slashes(s).len() == s.len(),
        s[i] == '\\' ==> with_slashes(s)[i] == '/',
        s[i] != '\\' ==> with_slashes(s)[i] == s[i],
{
}

/// The checksum of files in the order of their paths is `sha256:` and the digest of all of them, in
/// hexadecimal.
pub proof fn law_checksum_is_the_digest_of_all_files(files: Seq<FileContents>)
    requires
        forall|i: int, j: int|
            0 <= i < j < files.len() ==> !path_less(
                (#[trigger] files[j]).path,
                (#[trigger] files[i]).path,
            ),
    ensures
        checksum_of(files) == "sha256:"@ + hex(sha256_digest(all_bytes(files))),
{
    lemma_sorted_stays(files);
}

/// Files in order stay as they are.
proof fn lemma_sorted_stays(files: Seq<FileContents>)
    requires
        forall|i: int, j: int|
            0 <= i < j < files.len() ==> !path_less(
                (#[trigger] files[j]).path,
                (#[trigger] files[i]).path,
            ),
    ensures
        ranked::<PackageFile>(files) == files,
    decreases files.len(),
{
    if files.len() > 0 {
        let rest = files.drop_first();
        assert forall|i: int, j: int| 0 <= i < j < rest.len() implies !path_less(
            (#[trigger] rest[j]).path,
            (#[trigger] rest[i]).path,
        ) by {
            assert(rest[i] == files[i + 1] && rest[j] == files[j + 1]);
        }
        lemma_sorted_stays(rest);
        if rest.len() > 0 {
            assert(rest[0] == files[1]);
            assert(!path_less(files[1].path, files[0].path));
        }
        assert(seq![files[0]] + rest =~= files);
    }
}

/// At part `i` the paths first differ, and there `a` has the one that comes first.
pub open spec fn is_path_less_at(a: Seq<Seq<char>>, b: Seq<Seq<char>>, i: int) -> bool {
    &&& 0 <= i < a.len()
    &&& i < b.len()
    &&& text_less(a[i], b[i])
    &&& forall|j: int| 0 <= j < i ==> #[trigger] a[j] == b[j]
}

/// Paths are ordered part by part: one comes before another exactly if it has the part that comes
/// first where they first differ, or leads to the other.
pub proof fn law_paths_are_ordered_by_parts(a: Seq<Seq<char>>, b: Seq<Seq<char>>)
    ensures
        path_less(a, b) <==> ((a.len() < b.len() && b.take(a.len() as int) == a) || exists|i: int|
            #[trigger] is_path_less_at(a, b, i)),
    decreases a.len(),
{
    if a.len() == 0 {
        assert(b.take(0) =~= a);
    } else if b.len() == 0 {
    } else if a[0] != b[0] {
        if path_less(a, b) {
            assert(is_path_less_at(a, b, 0));
        } else {
            if a.len() < b.len() && b.take(a.len() as int) == a {
                assert(b.take(a.len() as int)[0] == b[0]);
            }
            if exists|i: int| #[trigger] is_path_less_at(a, b, i) {
                let i = choose|i: int| #[trigger] is_path_less_at(a, b, i);
                if i > 0 {
                    assert(a[0] == b[0]);
                }
            }
        }
    } else {
        let x = a.drop_first();
        let y = b.drop_first();
        law_paths_are_ordered_by_parts(x, y);
        lemma_text_less_total(a[0], a[0]);
        if path_less(a, b) {
            if x.len() < y.len() && y.take(x.len() as int) == x {
                assert(b.take(a.len() as int) =~= a) by {
                    assert forall|j: int| 0 <= j < a.len() implies b[j] == a[j] by {
                        if j > 0 {
                            assert(y.take(x.len() as int)[j - 1] == x[j - 1]);
                        }
                    }
                }
            } else {
                let i = choose|i: int| #[trigger] is_path_less_at(x, y, i);
                assert forall|j: int| 0 <= j < i + 1 implies #[trigger] a[j] == b[j] by {
                    if j > 0 {
                        assert(x[j - 1] == y[j - 1]);
                    }
                }
                assert(is_path_less_at(a, b, i + 1));
            }
        } else {
            if a.len() < b.len() && b.take(a.len() as int) == a {
                assert(y.take(x.len() as int) =~= x) by {
                    assert forall|j: int| 0 <= j < x.len() implies y[j] == x[j] by {
                        assert(b.take(a.len() as int)[j + 1] == a[j + 1]);
                    }
                }
            }
            if exists|i: int| #[trigger] is_path_less_at(a, b, i) {
                let i = choose|i: int| #[trigger] is_path_less_at(a, b, i);
                assert(i > 0);
                assert forall|j: int| 0 <= j < i - 1 implies #[trigger] x[j] == y[j] by {
                    assert(a[j + 1] == b[j + 1]);
                }
                assert(is_path_less_at(x, y, i - 1));
            }
        }
    }
}

/// What was fetched is accepted exactly if it could be read and has the checksum of the pin;
/// otherwise it is said why not, with both checksums where they differ. A version without a folder
/// in the registry is not accepted.
pub proof fn law_only_what_was_pinned_is_accepted(
    root: Seq<char>,
    pin: Pin,
    files: Result<Seq<FileContents>, ResolveFault>,
)
    ensures
        checksum_fault(pin, files) is None <==> (files matches Ok(found) && checksum_of(found)
            == pin.checksum),
        registry_copy_fault(root, pin, Some(files)) == checksum_fault(pin, files),
        files matches Err(fault) ==> checksum_fault(pin, files) == Some(fault),
        files matches Ok(found) ==> (checksum_of(found) != pin.checksum ==> checksum_fault(pin, files)
            == Some(
            ResolveFault::ChecksumMismatch {
                name: pin.name,
                version: pin.version,
                expected: pin.checksum,
                actual: checksum_of(found),
            },
        )),
        registry_copy_fault(root, pin, None) == Some(
            ResolveFault::LockedVersionNotInRegistry {
                name: pin.name,
                version: pin.version,
                registry_root: root,
            },
        ),
{
}

// Fetching ----------------------------------------------------------------

/// A fetch clones the ref alone where it can, and otherwise clears what was left, clones everything
/// and checks the ref out; it ends by removing the metadata. Any failure but that of the first
/// clone is the failure of the fetch.
pub proof fn law_fetch_falls_back_on_a_full_clone(success: bool)
    ensures
        next_fetch_step(FetchStep::ShallowClone, true) == Some(FetchStep::StripMetadata),
        next_fetch_step(FetchStep::ShallowClone, false) == Some(FetchStep::ClearDirectory),
        next_fetch_step(FetchStep::ClearDirectory, success) == (if success {
            Some(FetchStep::FullClone)
        } else {
            None
        }),
        next_fetch_step(FetchStep::FullClone, success) == (if success {
            Some(FetchStep::Checkout)
        } else {
            None
        }),
        next_fetch_step(FetchStep::Checkout, success) == (if success {
            Some(FetchStep::StripMetadata)
        } else {
            None
        }),
        next_fetch_step(FetchStep::StripMetadata, success) == (if success {
            Some(FetchStep::Fetched)
        } else {
            None
        }),
{
}

/// Both clones are of the repository and into the directory; the first of them is of the ref, as is
/// the checkout behind the second. No other step runs a command.
pub proof fn law_fetch_is_of_the_ref(
    step: FetchStep,
    url: Seq<char>,
    git_ref: Seq<char>,
    dest: Seq<char>,
)
    ensures
        ({
            let args = fetch_command(step, url, git_ref, dest);
            &&& args is Some <==> step == FetchStep::ShallowClone || step == FetchStep::FullClone
                || step == FetchStep::Checkout
            &&& step == FetchStep::ShallowClone || step == FetchStep::FullClone ==> args->0.len() >= 3
                && args->0[0] == "clone"@ && args->0[args->0.len() - 2] == url
                && args->0[args->0.len() - 1] == dest
            &&& step == FetchStep::ShallowClone ==> exists|k: int|
                0 < k < args->0.len() - 2 && args->0[k - 1] == "--branch"@ && #[trigger] args->0[k]
                    == git_ref
            &&& step == FetchStep::Checkout ==> args->0[0] == "checkout"@ && args->0.last() == git_ref
        }),
{
    if step == FetchStep::ShallowClone {
        let args = fetch_command(step, url, git_ref, dest)->0;
        assert(args[5] == git_ref && args[4] == "--branch"@);
    }
}

/// A command of `git` fails exactly if it cannot be started or does not succeed; then its arguments,
/// joined by spaces, and the reason or what it wrote are told.
pub proof fn law_git_failure_is_told(args: Seq<Seq<char>>, outcome: CommandOutcome)
    ensures
        match outcome {
            CommandOutcome::NotStarted { reason } => run_fault(args, outcome) == Some(
                GitFault::Spawn { args: join(args, " "@), reason: reason@ },
            ),
            CommandOutcome::Ended { success, stderr } => if success {
                run_fault(args, outcome) is None
            } else {
                run_fault(args, outcome) == Some(
                    GitFault::CommandFailed { args: join(args, " "@), stderr: trim(stderr@) },
                )
            },
        },
{
}

} // verus!
