//! Writing and moving `library { }` blocks.
use vstd::prelude::*;
use vstd::utf8::*;

use crate::laws::parsing::{
    law_bare_import_is_read, law_pinned_import_is_read, lemma_library_span, lemma_trim_is_same,
    library_span,
};
use crate::parser::brace_match::{brace_depth, closes_brace, closing_brace};
use crate::parser::library_block::{
    before_comment, every_position, imports_of, is_import_version, is_library_header,
    is_package_char, is_package_name, is_version_char, library_brace, library_header, library_of,
    one_import, statements, Import, Library, LibraryFault,
};
use crate::text::{
    byte_offset, first_from, is_char_at, is_space, lemma_encode_concat, lemma_first_found,
    lemma_first_skip, lemma_skip_space_bounds, lines, occurrence, occurs_at, skip_space, split,
    trim,
};

verus! {

// Written blocks ----------------------------------------------------------

/// An import that can be written down: it has a package name, and a version of the form that an
/// import can ask for, if any.
pub open spec fn is_writable(import: Import) -> bool {
    is_package_name(import.name) && (import.version matches Some(v) ==> is_import_version(v))
}

/// An import as it is written.
pub open spec fn import_text(import: Import) -> Seq<char> {
    match import.version {
        None => "import "@ + import.name,
        Some(version) => "import "@ + import.name + "@"@ + version,
    }
}

/// Imports as they are written, one per line.
pub open spec fn import_lines(imports: Seq<Import>) -> Seq<char>
    decreases imports.len(),
{
    if imports.len() == 0 {
        seq![]
    } else {
        "  "@ + import_text(imports[0]) + "\n"@ + import_lines(imports.drop_first())
    }
}

/// A library block with these imports.
pub open spec fn block_text(imports: Seq<Import>) -> Seq<char> {
    "library {\n"@ + import_lines(imports) + "}"@
}

/// A character of a written import.
spec fn is_import_char(c: char) -> bool {
    is_package_char(c) || is_version_char(c) || c == ' ' || c == '@'
}

/// The line of each import.
spec fn line_list(imports: Seq<Import>) -> Seq<Seq<char>> {
    imports.map_values(|import: Import| "  "@ + import_text(import))
}

/// What an import's line is made of.
proof fn lemma_import_line(import: Import)
    requires
        is_writable(import),
    ensures
        ({
            let text = import_text(import);
            let line = "  "@ + text;
            &&& text.len() > 0
            &&& !is_space(text[0])
            &&& !is_space(text.last())
            &&& trim(line) == text
            &&& line.len() == text.len() + 2
            &&& forall|j: int| 0 <= j < line.len() ==> is_import_char(#[trigger] line[j])
        }),
{
    reveal_strlit("  ");
    reveal_strlit("import ");
    reveal_strlit("@");
    let text = import_text(import);
    let line = "  "@ + text;
    let n = import.name.len() as int;
    assert(text[0] == 'i');
    match import.version {
        None => {
            assert(text.last() == import.name[n - 1]);
            assert(is_package_char(import.name[n - 1]));
        },
        Some(version) => {
            assert(text.last() == version[version.len() - 1]);
            assert(is_version_char(version[version.len() - 1]));
        },
    }
    assert forall|j: int| 0 <= j < line.len() implies is_import_char(#[trigger] line[j]) by {
        if j < 2 {
            assert(line[j] == "  "@[j]);
        } else if j < 9 {
            assert(line[j] == "import "@[j - 2]);
        } else if j < 9 + n {
            assert(line[j] == import.name[j - 9]);
            assert(is_package_char(import.name[j - 9]));
        } else if let Some(version) = import.version {
            if j > 9 + n {
                assert(line[j] == version[j - 10 - n]);
                assert(is_version_char(version[j - 10 - n]));
            }
        }
    }
    assert(line[0] == ' ' && line[1] == ' ' && line[2] == text[0]);
    assert(skip_space(line, 2) == 2);
    assert(skip_space(line, 1) == 2);
    assert(skip_space(line, 0) == 2);
    assert(line.skip(2) =~= text);
    lemma_trim_is_same(text);
}

/// The first line of a text is what stands before its first line feed.
pub proof fn lemma_first_line(line: Seq<char>, rest: Seq<char>)
    requires
        forall|j: int| 0 <= j < line.len() ==> #[trigger] line[j] != '\n',
        line.len() > 0 ==> line.last() != '\r',
    ensures
        lines(line + "\n"@ + rest) == seq![line] + lines(rest),
{
    reveal_strlit("\n");
    let s = line + "\n"@ + rest;
    let n = line.len() as int;
    let p = is_char_at(s, '\n');
    assert forall|j: int| 0 <= j < n implies !#[trigger] p(j) by {
        assert(s[j] == line[j]);
    }
    assert(s[n] == '\n');
    assert(p(n));
    lemma_first_skip(p, 0, n, s.len() as int);
    assert(s.take(n) =~= line);
    assert(s.skip(n + 1) =~= rest);
}

/// The lines of written imports.
proof fn lemma_import_lines(imports: Seq<Import>)
    requires
        forall|k: int| 0 <= k < imports.len() ==> is_writable(#[trigger] imports[k]),
    ensures
        lines(import_lines(imports)) == line_list(imports),
        forall|j: int|
            0 <= j < import_lines(imports).len() ==> is_import_char(
                #[trigger] import_lines(imports)[j],
            ) || import_lines(imports)[j] == '\n',
    decreases imports.len(),
{
    reveal_strlit("\n");
    if imports.len() == 0 {
        assert(line_list(imports) =~= seq![]);
    } else {
        let rest = imports.drop_first();
        assert forall|k: int| 0 <= k < rest.len() implies is_writable(#[trigger] rest[k]) by {
            assert(rest[k] == imports[k + 1]);
        }
        lemma_import_lines(rest);
        assert(is_writable(imports[0]));
        lemma_import_line(imports[0]);
        let line = "  "@ + import_text(imports[0]);
        assert(is_import_char(line[line.len() - 1]));
        lemma_first_line(line, import_lines(rest));
        assert(seq![line] + line_list(rest) =~= line_list(imports));
        let all = import_lines(imports);
        let n = line.len() as int;
        assert forall|j: int| 0 <= j < all.len() implies is_import_char(#[trigger] all[j]) || all[j]
            == '\n' by {
            if j < n {
                assert(all[j] == line[j]);
            } else if j > n {
                assert(all[j] == import_lines(rest)[j - n - 1]);
            }
        }
    }
}

/// An import's line is one statement.
proof fn lemma_one_statement(line: Seq<char>)
    requires
        forall|j: int| 0 <= j < line.len() ==> is_import_char(#[trigger] line[j]),
    ensures
        split(before_comment(line), ';') == seq![line],
{
    reveal_strlit("//");
    let n = line.len() as int;
    let p = occurrence(line, "//"@);
    assert forall|j: int| 0 <= j < n implies !#[trigger] p(j) by {
        if p(j) {
            assert(line.subrange(j, j + 2)[0] == "//"@[0]);
            assert(is_import_char(line[j]));
        }
    }
    lemma_first_found(p, 0, n);
    let q = is_char_at(line, ';');
    assert forall|j: int| 0 <= j < n implies !#[trigger] q(j) by {
        assert(is_import_char(line[j]));
    }
    lemma_first_found(q, 0, n);
}

/// The lines of written imports, behind an empty one, are their statements.
proof fn lemma_import_statements(imports: Seq<Import>)
    requires
        forall|k: int| 0 <= k < imports.len() ==> is_writable(#[trigger] imports[k]),
    ensures
        statements(seq![Seq::<char>::empty()] + line_list(imports)) == seq![Seq::<char>::empty()]
            + line_list(imports),
        imports_of(seq![Seq::<char>::empty()] + line_list(imports)) == Ok::<
            Seq<Import>,
            LibraryFault,
        >(imports),
    decreases imports.len(),
{
    let all = seq![Seq::<char>::empty()] + line_list(imports);
    if imports.len() == 0 {
        assert(all =~= seq![Seq::<char>::empty()]);
        assert(all.drop_last() =~= Seq::<Seq<char>>::empty());
        lemma_one_statement(Seq::empty());
        assert(statements(all.drop_last()) =~= Seq::<Seq<char>>::empty());
        assert(statements(all) =~= all);
        lemma_trim_is_same(Seq::empty());
        assert(imports =~= seq![]);
        assert(imports_of(all.drop_last()) == Ok::<Seq<Import>, LibraryFault>(seq![]));
    } else {
        let front = imports.drop_last();
        let last = imports.last();
        assert forall|k: int| 0 <= k < front.len() implies is_writable(#[trigger] front[k]) by {
            assert(front[k] == imports[k]);
        }
        lemma_import_statements(front);
        assert(is_writable(imports[imports.len() - 1]));
        lemma_import_line(last);
        let line = "  "@ + import_text(last);
        lemma_one_statement(line);
        assert(all.drop_last() =~= seq![Seq::<char>::empty()] + line_list(front));
        assert(all.last() == line);
        assert(statements(all) =~= all);
        match last.version {
            None => law_bare_import_is_read(last.name),
            Some(version) => law_pinned_import_is_read(last.name, version),
        }
        assert(one_import(import_text(last)) == Ok::<Import, LibraryFault>(last));
        assert(front.push(last) =~= imports);
    }
}

/// Between an opening brace and the next brace the depth is one.
proof fn lemma_depth_is_one(mask: Seq<bool>, s: Seq<char>, open: int, end: int)
    requires
        0 <= open < end <= s.len(),
        mask[open],
        s[open] == '{',
        forall|j: int| open < j < end ==> #[trigger] s[j] != '{' && s[j] != '}',
    ensures
        brace_depth(mask, s, open, end) == 1,
    decreases end - open,
{
    if end - 1 > open {
        lemma_depth_is_one(mask, s, open, end - 1);
    } else {
        assert(brace_depth(mask, s, open, open) == 0);
    }
}

/// A library block written from a list of imports reads back as that list, and takes up the
/// whole text.
pub proof fn law_written_block_is_read(imports: Seq<Import>)
    requires
        forall|k: int| 0 <= k < imports.len() ==> is_writable(#[trigger] imports[k]),
    ensures
        library_of(block_text(imports)) == Ok::<Option<Library>, LibraryFault>(
            Some(
                Library { imports, start: 0, end: encode_utf8(block_text(imports)).len() as int },
            ),
        ),
{
    reveal_strlit("library");
    reveal_strlit("library {\n");
    reveal_strlit("}");
    reveal_strlit("\n");
    let s = block_text(imports);
    let inner = import_lines(imports);
    let n = s.len() as int;
    lemma_import_lines(imports);
    let head = "library {\n"@;
    assert(n == 10 + inner.len() + 1);
    assert forall|j: int| 0 <= j < 10 implies s[j] == head[j] by {
    }
    assert(s.subrange(0, 7) =~= "library"@);
    assert(s[7] == ' ' && s[8] == '{' && s[9] == '\n' && s[n - 1] == '}');
    assert(skip_space(s, 8) == 8);
    assert(skip_space(s, 7) == 8);
    let p = library_header(s);
    assert(p(0));
    assert(first_from(p, 0, n) == Some(0int));
    let every = every_position(s);
    let q = closes_brace(every, s, 8);
    assert forall|j: int| 8 < j < n - 1 implies #[trigger] s[j] != '{' && s[j] != '}' by {
        if j >= 10 {
            assert(s[j] == inner[j - 10]);
        }
    }
    lemma_depth_is_one(every, s, 8, n - 1);
    assert forall|j: int| 8 <= j < n - 1 implies !#[trigger] q(j) by {
        assert(s[8] == '{');
    }
    lemma_first_skip(q, 8, n - 1, n);
    assert(q(n - 1));
    let body = s.subrange(9, n - 1);
    assert(body =~= Seq::<char>::empty() + "\n"@ + inner);
    lemma_first_line(Seq::empty(), inner);
    lemma_import_statements(imports);
    assert(s.take(0) =~= Seq::<char>::empty());
    assert(byte_offset(s, 0) == 0);
    assert(s.take(n) =~= s);
}

// Moved blocks ------------------------------------------------------------

/// White space in front of something else is skipped alike wherever it stands.
proof fn lemma_skip_space_shifts(t: Seq<char>, d: int, s: Seq<char>, i: int, stop: int)
    requires
        0 <= i <= stop < s.len(),
        0 <= d,
        d + s.len() <= t.len(),
        forall|j: int| 0 <= j < s.len() ==> #[trigger] s[j] == t[d + j],
        !is_space(s[stop]),
    ensures
        skip_space(t, d + i) == d + skip_space(s, i),
        skip_space(s, i) <= stop,
    decreases stop - i,
{
    assert(s[i] == t[d + i]);
    if is_space(s[i]) {
        lemma_skip_space_shifts(t, d, s, i + 1, stop);
    }
}

/// Braces count alike wherever they stand.
proof fn lemma_depth_shifts(t: Seq<char>, d: int, s: Seq<char>, open: int, end: int)
    requires
        0 <= open <= end <= s.len(),
        0 <= d,
        d + s.len() <= t.len(),
        forall|j: int| 0 <= j < s.len() ==> #[trigger] s[j] == t[d + j],
    ensures
        brace_depth(every_position(t), t, d + open, d + end) == brace_depth(
            every_position(s),
            s,
            open,
            end,
        ),
    decreases end - open,
{
    if open < end {
        lemma_depth_shifts(t, d, s, open, end - 1);
        assert(s[end - 1] == t[d + end - 1]);
    }
}

/// Nothing outside of a library block matters to it: text before and behind it only moves its
/// range. What comes before must be made of whole lines and not have the word `library`.
pub proof fn law_block_only_shifts(prefix: Seq<char>, s: Seq<char>, suffix: Seq<char>)
    requires
        library_of(s) matches Ok(found) && found is Some,
        prefix.len() > 0 ==> prefix.last() == '\n',
        forall|j: int| !occurs_at(prefix, "library"@, j),
    ensures
        ({
            let block = library_of(s)->Ok_0->0;
            let moved = encode_utf8(prefix).len();
            library_of(prefix + s + suffix) == Ok::<Option<Library>, LibraryFault>(
                Some(
                    Library {
                        imports: block.imports,
                        start: block.start + moved,
                        end: block.end + moved,
                    },
                ),
            )
        }),
{
    let t = prefix + s + suffix;
    let d = prefix.len() as int;
    lemma_library_span(s);
    let (k, end) = library_span(s)->0;
    let open = library_brace(s, k);
    let close = end - 1;
    lemma_header_shifts(prefix, s, suffix);
    lemma_close_shifts(prefix, s, suffix, open);
    assert(t.subrange(d + open + 1, d + close) =~= s.subrange(open + 1, close));
    lemma_offset_shifts(prefix, s, suffix, k);
    lemma_offset_shifts(prefix, s, suffix, end);
}

/// A header of the block is one wherever the text stands.
proof fn lemma_header_alike(
    prefix: Seq<char>,
    s: Seq<char>,
    suffix: Seq<char>,
    j: int,
    stop: int,
)
    requires
        prefix.len() > 0 ==> prefix.last() == '\n',
        0 <= j,
        j + 7 <= stop < s.len(),
        !is_space(s[stop]),
    ensures
        is_library_header(s, j) == is_library_header(prefix + s + suffix, prefix.len() + j),
        library_brace(prefix + s + suffix, prefix.len() + j) == prefix.len() + library_brace(s, j),
{
    reveal_strlit("library");
    let t = prefix + s + suffix;
    let d = prefix.len() as int;
    assert(s.subrange(j, j + 7) =~= t.subrange(d + j, d + j + 7));
    assert(s[j + 7] == t[d + j + 7]);
    if j > 0 {
        assert(s[j - 1] == t[d + j - 1]);
    } else if d > 0 {
        assert(t[d - 1] == prefix.last());
    }
    lemma_skip_space_shifts(t, d, s, j + 7, stop);
    lemma_skip_space_bounds(s, j + 7);
    let brace = skip_space(s, j + 7);
    assert(s[brace] == t[d + brace]);
}

/// No header begins in whole lines without the word `library`.
proof fn lemma_no_header_before(prefix: Seq<char>, rest: Seq<char>, j: int)
    requires
        prefix.last() == '\n',
        forall|i: int| !occurs_at(prefix, "library"@, i),
        0 <= j < prefix.len(),
    ensures
        !is_library_header(prefix + rest, j),
{
    reveal_strlit("library");
    let t = prefix + rest;
    let d = prefix.len() as int;
    if is_library_header(t, j) {
        let found = t.subrange(j, j + 7);
        if j + 7 <= d {
            assert(prefix.subrange(j, j + 7) =~= found);
            assert(occurs_at(prefix, "library"@, j));
        } else {
            let at = d - 1 - j;
            assert(found[at] == t[d - 1]);
            assert("library"@[at] == '\n');
        }
    }
}

/// The first header moves with the text.
proof fn lemma_header_shifts(prefix: Seq<char>, s: Seq<char>, suffix: Seq<char>)
    requires
        library_span(s) is Some,
        prefix.len() > 0 ==> prefix.last() == '\n',
        forall|j: int| !occurs_at(prefix, "library"@, j),
    ensures
        ({
            let t = prefix + s + suffix;
            let (k, _) = library_span(s)->0;
            &&& first_from(library_header(t), 0, t.len() as int) == Some(prefix.len() + k)
            &&& library_brace(t, prefix.len() + k) == prefix.len() + library_brace(s, k)
        }),
{
    let t = prefix + s + suffix;
    let d = prefix.len() as int;
    let n = s.len() as int;
    lemma_library_span(s);
    let (k, _) = library_span(s)->0;
    let open = library_brace(s, k);
    let p = library_header(s);
    let q = library_header(t);
    lemma_first_found(p, 0, n);
    assert forall|j: int| 0 <= j < d + k implies !#[trigger] q(j) by {
        if j < d {
            assert(t =~= prefix + (s + suffix));
            lemma_no_header_before(prefix, s + suffix, j);
        } else {
            assert(!p(j - d));
            lemma_header_alike(prefix, s, suffix, j - d, open);
        }
    }
    lemma_first_skip(q, 0, d + k, t.len() as int);
    lemma_header_alike(prefix, s, suffix, k, open);
    assert(p(k));
    assert(q(d + k));
}

/// The closing brace moves with the text.
proof fn lemma_close_shifts(prefix: Seq<char>, s: Seq<char>, suffix: Seq<char>, open: int)
    requires
        0 <= open < s.len(),
        closing_brace(every_position(s), s, open) is Some,
    ensures
        ({
            let t = prefix + s + suffix;
            closing_brace(every_position(t), t, prefix.len() + open) == Some(
                prefix.len() + closing_brace(every_position(s), s, open)->0,
            )
        }),
{
    let t = prefix + s + suffix;
    let d = prefix.len() as int;
    let n = s.len() as int;
    let close = closing_brace(every_position(s), s, open)->0;
    let p = closes_brace(every_position(s), s, open);
    let q = closes_brace(every_position(t), t, d + open);
    lemma_first_found(p, open, n);
    assert forall|j: int| open <= j < n implies #[trigger] p(j) == q(d + j) by {
        lemma_depth_shifts(t, d, s, open, j + 1);
        assert(s[j] == t[d + j]);
    }
    assert forall|j: int| d + open <= j < d + close implies !#[trigger] q(j) by {
        assert(p(j - d) == q(d + (j - d)));
    }
    lemma_first_skip(q, d + open, d + close, t.len() as int);
    assert(p(close) == q(d + close));
}

/// Text in front moves a byte offset by its length.
proof fn lemma_offset_shifts(prefix: Seq<char>, s: Seq<char>, suffix: Seq<char>, i: int)
    requires
        0 <= i <= s.len(),
    ensures
        byte_offset(prefix + s + suffix, prefix.len() + i) == encode_utf8(prefix).len()
            + byte_offset(s, i),
{
    assert((prefix + s + suffix).take(prefix.len() + i) =~= prefix + s.take(i));
    lemma_encode_concat(prefix, s.take(i));
}

} // verus!
