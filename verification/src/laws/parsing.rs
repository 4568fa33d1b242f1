//! The `library { }` block, imports, call sites and signatures.
use vstd::prelude::*;

use crate::codegen::{block_fits, block_span};
use crate::codegen::rename::{
    call_site, call_sites, call_sites_before, ident_end, ident_start, is_qualifier, lemma_ident_end,
    lemma_ident_run,
};
use crate::parser::brace_match::{closes_brace, closing_brace, is_code, is_ident, lex_at};
use crate::parser::library_block::{
    every_position, is_import_version, is_library_header, is_package_char, is_package_name,
    is_version_char, library_brace, library_header, library_of, one_import, Import, LibraryFault,
};
use crate::parser::signatures::{header_of, header_text};
use crate::text::{
    at_byte, byte_offset, find_char, first_from, is_char_at, is_space, lemma_byte_offset_monotonic,
    lemma_first_found, lemma_first_skip, lemma_skip_space_bounds, occurs_at, position_of_byte,
    skip_space, trim, trim_end, trim_start,
};

verus! {

// Byte offsets ------------------------------------------------------------

/// A byte offset leads back to the position it was made from.
pub proof fn law_byte_offset_leads_back(s: Seq<char>, i: int)
    requires
        0 <= i <= s.len(),
    ensures
        position_of_byte(s, byte_offset(s, i)) == Some(i),
{
    let p = at_byte(s, byte_offset(s, i));
    let end = s.len() as int + 1;
    assert forall|j: int| 0 <= j < i implies !#[trigger] p(j) by {
        lemma_byte_offset_monotonic(s, j, i);
    }
    lemma_first_skip(p, 0, i, end);
    assert(p(i));
}

// The library block -------------------------------------------------------

/// Where the library block of `s` begins and ends.
pub open spec fn library_span(s: Seq<char>) -> Option<(int, int)> {
    match first_from(library_header(s), 0, s.len() as int) {
        None => None,
        Some(k) => match closing_brace(every_position(s), s, library_brace(s, k)) {
            None => None,
            Some(close) => Some((k, close + 1)),
        },
    }
}

/// The header and the two braces of a library block.
pub proof fn lemma_library_span(s: Seq<char>)
    requires
        library_span(s) is Some,
    ensures
        ({
            let (start, end) = library_span(s)->0;
            let open = library_brace(s, start);
            &&& 0 <= start && start + 7 <= open < end - 1 && end <= s.len()
            &&& is_library_header(s, start)
            &&& "library"@.len() == 7
            &&& s[open] == '{'
            &&& s[end - 1] == '}'
        }),
{
    reveal_strlit("library");
    let n = s.len() as int;
    lemma_first_found(library_header(s), 0, n);
    let start = first_from(library_header(s), 0, n)->0;
    let open = library_brace(s, start);
    lemma_skip_space_bounds(s, start + 7);
    let p = closes_brace(every_position(s), s, open);
    lemma_first_found(p, open, n);
    let close = first_from(p, open, n)->0;
    assert(p(close));
    assert(close != open);
}

/// The byte range of a parsed block is where it stands: it begins with the word `library`,
/// ends with the brace that closes it, and lies between characters of the source, as
/// `generate` asks of it.
pub proof fn law_library_block_stands_in_source(s: Seq<char>)
    requires
        library_of(s) matches Ok(found) && found is Some,
    ensures
        ({
            let block = library_of(s)->Ok_0->0;
            let (start, end) = library_span(s)->0;
            &&& library_span(s) is Some
            &&& block.start == byte_offset(s, start)
            &&& block.end == byte_offset(s, end)
            &&& 0 <= start < end <= s.len()
            &&& occurs_at(s, "library"@, start)
            &&& s[end - 1] == '}'
            &&& block_fits(block, s)
            &&& block_span(s, Some(block)) == Some((start, end))
        }),
{
    lemma_library_span(s);
    let (start, end) = library_span(s)->0;
    law_byte_offset_leads_back(s, start);
    law_byte_offset_leads_back(s, end);
}

// Imports -----------------------------------------------------------------

/// A text without white space at either end is its own trimmed form.
pub proof fn lemma_trim_is_same(s: Seq<char>)
    requires
        s.len() > 0 ==> !is_space(s[0]) && !is_space(s.last()),
    ensures
        trim(s) == s,
        trim_start(s) == s,
        trim_end(s) == s,
{
    assert(s.skip(0) =~= s);
    assert(s.take(s.len() as int) =~= s);
}

/// Leading white space is trimmed away.
proof fn lemma_trim_one_space(s: Seq<char>)
    requires
        s.len() > 0,
        !is_space(s[0]),
        !is_space(s.last()),
    ensures
        trim(seq![' '] + s) == s,
{
    let t = seq![' '] + s;
    assert(t[1] == s[0]);
    assert(skip_space(t, 1) == 1);
    assert(skip_space(t, 0) == 1);
    assert(t.skip(1) =~= s);
    lemma_trim_is_same(s);
}

/// A character of a package name or a version is neither white space nor `@`.
proof fn lemma_name_chars(c: char)
    requires
        is_package_char(c) || is_version_char(c),
    ensures
        !is_space(c),
        c != '@',
{
}

/// `import <name>` reads as an import of that package in any version.
pub proof fn law_bare_import_is_read(name: Seq<char>)
    requires
        is_package_name(name),
    ensures
        one_import("import "@ + name) == Ok::<Import, LibraryFault>(Import { name, version: None }),
{
    reveal_strlit("import");
    reveal_strlit("import ");
    let statement = "import "@ + name;
    let rest = seq![' '] + name;
    assert(statement.subrange(0, 6) =~= "import"@);
    assert(statement.skip(6) =~= rest);
    lemma_name_chars(name[0]);
    lemma_name_chars(name.last());
    lemma_trim_one_space(name);
    lemma_no_at(name);
}

/// `import <name>@<version>` reads as an import of that package in that version.
pub proof fn law_pinned_import_is_read(name: Seq<char>, version: Seq<char>)
    requires
        is_package_name(name),
        is_import_version(version),
    ensures
        one_import("import "@ + name + "@"@ + version) == Ok::<Import, LibraryFault>(
            Import { name, version: Some(version) },
        ),
{
    reveal_strlit("import");
    reveal_strlit("import ");
    reveal_strlit("@");
    let statement = "import "@ + name + "@"@ + version;
    let spec = name + "@"@ + version;
    let rest = seq![' '] + spec;
    assert(statement.subrange(0, 6) =~= "import"@);
    assert(statement.skip(6) =~= rest);
    lemma_name_chars(name[0]);
    lemma_name_chars(name.last());
    lemma_name_chars(version[0]);
    lemma_name_chars(version.last());
    assert(spec[0] == name[0]);
    assert(spec.last() == version.last());
    lemma_trim_one_space(spec);
    let p = is_char_at(spec, '@');
    let at = name.len() as int;
    assert forall|j: int| 0 <= j < at implies !#[trigger] p(j) by {
        lemma_name_chars(name[j]);
    }
    assert(p(at));
    lemma_first_skip(p, 0, at, spec.len() as int);
    assert(spec.take(at) =~= name);
    assert(spec.skip(at + 1) =~= version);
    lemma_trim_is_same(name);
    lemma_trim_is_same(version);
}

/// A package name has no `@` in it.
proof fn lemma_no_at(name: Seq<char>)
    requires
        is_package_name(name),
    ensures
        find_char(name, '@') is None,
{
    let p = is_char_at(name, '@');
    assert forall|j: int| 0 <= j < name.len() implies !#[trigger] p(j) by {
        lemma_name_chars(name[j]);
    }
    lemma_first_found(p, 0, name.len() as int);
}

// Call sites --------------------------------------------------------------

/// Where a call site stands around its `::`.
pub proof fn lemma_call_site_bounds(s: Seq<char>, i: int)
    requires
        is_qualifier(s, i),
    ensures
        ({
            let site = call_site(s, i);
            &&& 0 <= site.start < i && i + 2 < site.end <= s.len()
            &&& forall|j: int| site.start <= j < i ==> is_ident(#[trigger] s[j])
            &&& forall|j: int| i + 2 <= j < site.end ==> is_ident(#[trigger] s[j])
            &&& s[i] == ':' && s[i + 1] == ':'
        }),
{
    lemma_ident_run(s, i);
    lemma_ident_end(s, i);
    lemma_ident_end(s, i + 2);
    assert forall|j: int| call_site(s, i).start <= j < i implies is_ident(#[trigger] s[j]) by {
    }
}

/// The text at a call site is `package::func`, and both names are made of identifier
/// characters.
pub proof fn law_call_site_reads_as_call(s: Seq<char>, i: int)
    requires
        is_qualifier(s, i),
    ensures
        ({
            let site = call_site(s, i);
            &&& s.subrange(site.start, site.end) == site.package + "::"@ + site.func
            &&& site.package.len() > 0 && site.func.len() > 0
            &&& forall|j: int| 0 <= j < site.package.len() ==> is_ident(#[trigger] site.package[j])
            &&& forall|j: int| 0 <= j < site.func.len() ==> is_ident(#[trigger] site.func[j])
        }),
{
    reveal_strlit("::");
    lemma_call_site_bounds(s, i);
    let site = call_site(s, i);
    assert(s.subrange(site.start, site.end) =~= site.package + "::"@ + site.func);
}

/// No part of a call site is in a comment or a string literal.
pub proof fn law_call_site_is_code(s: Seq<char>, i: int, j: int)
    requires
        is_qualifier(s, i),
        call_site(s, i).start <= j < call_site(s, i).end,
    ensures
        is_code(s, j),
{
    lemma_ident_run_is_code(s, i);
    lemma_ident_end_is_code(s, i + 2);
    assert(lex_at(s, i + 1) is Code);
}

/// The run of identifier characters before a position is real code.
proof fn lemma_ident_run_is_code(s: Seq<char>, i: int)
    requires
        0 <= i <= s.len(),
    ensures
        forall|j: int| ident_start(s, i) <= j < i ==> is_code(s, j),
    decreases i,
{
    if 0 < i && is_ident(s[i - 1]) && is_code(s, i - 1) {
        lemma_ident_run_is_code(s, i - 1);
    }
}

/// The run of identifier characters from a position on is real code.
proof fn lemma_ident_end_is_code(s: Seq<char>, i: int)
    requires
        0 <= i <= s.len(),
    ensures
        forall|j: int| i <= j < ident_end(s, i) ==> is_code(s, j),
    decreases s.len() - i,
{
    if i < s.len() && is_ident(s[i]) && is_code(s, i) {
        lemma_ident_end_is_code(s, i + 1);
    }
}

/// A run of identifier characters does not reach back over another character.
proof fn lemma_ident_start_after(s: Seq<char>, q: int, j: int)
    requires
        0 <= q < j <= s.len(),
        !is_ident(s[q]),
    ensures
        q < ident_start(s, j),
    decreases j,
{
    if q < j - 1 && is_ident(s[j - 1]) && is_code(s, j - 1) {
        lemma_ident_start_after(s, q, j - 1);
    }
}

/// Two call sites do not touch: the `(` behind the first stands between them.
pub proof fn lemma_call_sites_apart(s: Seq<char>, i: int, j: int)
    requires
        is_qualifier(s, i),
        is_qualifier(s, j),
        i < j,
    ensures
        call_site(s, i).end < call_site(s, j).start,
{
    lemma_call_site_bounds(s, i);
    lemma_call_site_bounds(s, j);
    let end = call_site(s, i).end;
    let q = skip_space(s, end);
    lemma_skip_space_bounds(s, end);
    if j < end {
        assert(is_ident(s[j + 1]) || is_ident(s[j]));
    }
    assert(s[j] == ':');
    assert(j > q) by {
        if j <= q {
            if j < q {
                assert(is_space(s[j]));
            }
        }
    }
    lemma_ident_start_after(s, q, j);
}

/// Each call site listed is the one around some `::`.
pub proof fn lemma_sites_have_qualifiers(s: Seq<char>, n: int, k: int)
    requires
        0 <= k < call_sites_before(s, n).len(),
    ensures
        exists|i: int|
            i < n && #[trigger] is_qualifier(s, i) && call_sites_before(s, n)[k] == call_site(s, i),
    decreases n,
{
    if n > 0 {
        let before = call_sites_before(s, n - 1);
        if k < before.len() {
            lemma_sites_have_qualifiers(s, n - 1, k);
            let i = choose|i: int|
                i < n - 1 && #[trigger] is_qualifier(s, i) && before[k] == call_site(s, i);
            assert(is_qualifier(s, i) && call_sites_before(s, n)[k] == call_site(s, i));
        } else {
            assert(is_qualifier(s, n - 1));
        }
    }
}

/// Call sites are listed in the order in which they stand, and do not overlap.
pub proof fn law_call_sites_in_order(s: Seq<char>, n: int)
    ensures
        forall|a: int, b: int|
            0 <= a < b < call_sites_before(s, n).len() ==> (#[trigger] call_sites_before(
                s,
                n,
            )[a]).end < (#[trigger] call_sites_before(s, n)[b]).start,
    decreases n,
{
    if n > 0 {
        law_call_sites_in_order(s, n - 1);
        let sites = call_sites_before(s, n);
        let before = call_sites_before(s, n - 1);
        assert forall|a: int, b: int| 0 <= a < b < sites.len() implies (#[trigger] sites[a]).end < (
        #[trigger] sites[b]).start by {
            assert(sites[a] == before[a]);
            if b < before.len() {
                assert(sites[b] == before[b]);
            } else {
                lemma_sites_have_qualifiers(s, n - 1, a);
                let i = choose|i: int|
                    i < n - 1 && #[trigger] is_qualifier(s, i) && before[a] == call_site(s, i);
                lemma_call_sites_apart(s, i, n - 1);
            }
        }
    }
}

/// Every `package::func(` of real code is listed.
pub proof fn law_every_call_site_is_listed(s: Seq<char>, i: int)
    requires
        is_qualifier(s, i),
    ensures
        call_sites(s).contains(call_site(s, i)),
{
    lemma_site_listed(s, s.len() as int, i);
}

/// A call site before position `n` is listed.
proof fn lemma_site_listed(s: Seq<char>, n: int, i: int)
    requires
        is_qualifier(s, i),
        i < n,
    ensures
        call_sites_before(s, n).contains(call_site(s, i)),
    decreases n,
{
    let sites = call_sites_before(s, n);
    if i == n - 1 {
        assert(sites.last() == call_site(s, i));
    } else {
        lemma_site_listed(s, n - 1, i);
        let before = call_sites_before(s, n - 1);
        let k = choose|k: int| 0 <= k < before.len() && before[k] == call_site(s, i);
        assert(sites[k] == call_site(s, i));
    }
}

// Signatures --------------------------------------------------------------

/// A doc comment is never required: which function a header declares does not depend on the
/// comment above it.
pub proof fn law_doc_comment_is_not_required(documented: Seq<char>, bare: Seq<char>)
    requires
        header_text(documented) == header_text(bare),
    ensures
        match (header_of(documented), header_of(bare)) {
            (Some(a), Some(b)) => a.name == b.name && a.params == b.params && a.return_type
                == b.return_type,
            (None, None) => true,
            _ => false,
        },
{
}

} // verus!
