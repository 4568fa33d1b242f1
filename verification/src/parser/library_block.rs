//! Finds the `library { }` block in a `.laplace` source and extracts its `import`
//! statements. Everything outside the block is left untouched here; `codegen` deletes
//! the block from the final output, using the byte range that is reported here.
use std::ops::Range;
use vstd::prelude::*;

use crate::codegen::rename::{borders_no_word, is_whole_word};
use crate::parser::brace_match::{brace_depth, closes_brace, closing_brace, is_digit, is_letter};
use crate::text::{
    after_space, as_position, byte_offset, byte_offset_of, chars_of, concat3, decimal, decimal_of,
    deep, deep_result, find_text, first_from, is_space, is_white_space, lines, lines_of, matches_at,
    occurrence, occurs_at, skip_space, slice_of, split, split_at_each, split_at_first, split_first,
    trim, trimmed, without_prefix,
};

verus! {

/// One `import` statement inside a `library { }` block, e.g. `import gps` or
/// `import gps@1.0.0`.
#[derive(Debug, PartialEq, Eq)]
pub struct ImportStatement {
    pub name: String,
    pub version: Option<String>,
}

/// What an import statement says.
#[verifier::ext_equal]
pub struct Import {
    pub name: Seq<char>,
    pub version: Option<Seq<char>>,
}

impl DeepView for ImportStatement {
    type V = Import;

    open spec fn deep_view(&self) -> Import {
        Import { name: self.name@, version: self.version.deep_view() }
    }
}

impl Clone for ImportStatement {
    fn clone(&self) -> (r: Self)
        ensures
            r.deep_view() == self.deep_view(),
    {
        let version = match &self.version {
            Some(v) => Some(v.clone()),
            None => None,
        };
        ImportStatement { name: self.name.clone(), version }
    }
}

/// A parsed `library { }` block: its imports, and the byte range it occupies in the
/// source (including the `library` keyword and both braces).
#[derive(Debug, PartialEq, Eq)]
pub struct LibraryBlock {
    pub imports: Vec<ImportStatement>,
    pub byte_range: Range<usize>,
}

/// What a library block holds and where it stands, in bytes.
#[verifier::ext_equal]
pub struct Library {
    pub imports: Seq<Import>,
    pub start: int,
    pub end: int,
}

impl DeepView for LibraryBlock {
    type V = Library;

    open spec fn deep_view(&self) -> Library {
        Library {
            imports: deep(self.imports@),
            start: self.byte_range.start as int,
            end: self.byte_range.end as int,
        }
    }
}

/// Why a `library { }` block cannot be parsed.
#[derive(Debug, PartialEq, Eq)]
pub enum LibraryBlockError {
    /// The block that opens at byte `start` is never closed.
    UnclosedBlock { start: usize },
    /// The statement is no `import <name>` and no `import <name>@<version>`.
    MalformedImport { statement: String },
    /// The import statement names no package.
    EmptyPackageName { statement: String },
}

/// What a `LibraryBlockError` says.
#[verifier::ext_equal]
pub enum LibraryFault {
    UnclosedBlock { start: int },
    MalformedImport { statement: Seq<char> },
    EmptyPackageName { statement: Seq<char> },
}

impl DeepView for LibraryBlockError {
    type V = LibraryFault;

    open spec fn deep_view(&self) -> LibraryFault {
        match self {
            LibraryBlockError::UnclosedBlock { start } => LibraryFault::UnclosedBlock {
                start: *start as int,
            },
            LibraryBlockError::MalformedImport { statement } => LibraryFault::MalformedImport {
                statement: statement@,
            },
            LibraryBlockError::EmptyPackageName { statement } => LibraryFault::EmptyPackageName {
                statement: statement@,
            },
        }
    }
}

/// The message of a library block fault.
pub open spec fn library_message(fault: LibraryFault) -> Seq<char> {
    match fault {
        LibraryFault::UnclosedBlock { start } => "`library {` block opened at byte "@ + decimal(
            start as nat,
        ) + " is never closed with a matching `}`"@,
        LibraryFault::MalformedImport { statement } => "malformed import statement `"@ + statement
            + "`: expected `import <name>` or `import <name>@<version>`"@,
        LibraryFault::EmptyPackageName { statement } => "import statement `"@ + statement
            + "` has no package name"@,
    }
}

impl LibraryBlockError {
    /// The message of the error.
    pub fn message(&self) -> (r: String)
        ensures
            r@ == library_message(self.deep_view()),
    {
        match self {
            LibraryBlockError::UnclosedBlock { start } => concat3(
                "`library {` block opened at byte ",
                decimal_of(*start).as_str(),
                " is never closed with a matching `}`",
            ),
            LibraryBlockError::MalformedImport { statement } => concat3(
                "malformed import statement `",
                statement.as_str(),
                "`: expected `import <name>` or `import <name>@<version>`",
            ),
            LibraryBlockError::EmptyPackageName { statement } => concat3(
                "import statement `",
                statement.as_str(),
                "` has no package name",
            ),
        }
    }
}

// The block ---------------------------------------------------------------

/// Position `i` of `s` begins the whole word `library`, behind which, possibly after
/// white space, a `{` stands.
pub open spec fn is_library_header(s: Seq<char>, i: int) -> bool {
    &&& occurs_at(s, "library"@, i)
    &&& is_whole_word(s, i, i + "library"@.len())
    &&& library_brace(s, i) < s.len()
    &&& s[library_brace(s, i)] == '{'
}

/// A position that begins the header of a library block.
pub open spec fn library_header(s: Seq<char>) -> spec_fn(int) -> bool {
    |i: int| is_library_header(s, i)
}

/// The first position behind the word `library` at `i` that holds no white space.
pub open spec fn library_brace(s: Seq<char>, i: int) -> int {
    skip_space(s, i + "library"@.len())
}

/// Every position of `s`.
pub open spec fn every_position(s: Seq<char>) -> Seq<bool> {
    Seq::new(s.len(), |i: int| true)
}

/// The library block of `s`, if it has one: what stands between the braces behind the
/// first header, read as imports. Braces are counted wherever they stand.
pub open spec fn library_of(s: Seq<char>) -> Result<Option<Library>, LibraryFault> {
    match first_from(library_header(s), 0, s.len() as int) {
        None => Ok(None),
        Some(k) => {
            let open = library_brace(s, k);
            match closing_brace(every_position(s), s, open) {
                None => Err(LibraryFault::UnclosedBlock { start: byte_offset(s, k) }),
                Some(close) => match imports_of(statements(lines(s.subrange(open + 1, close)))) {
                    Err(fault) => Err(fault),
                    Ok(imports) => Ok(
                        Some(
                            Library {
                                imports,
                                start: byte_offset(s, k),
                                end: byte_offset(s, close + 1),
                            },
                        ),
                    ),
                },
            }
        },
    }
}

/// Find the `library { }` block in `source`, if present, and parse its imports.
///
/// Returns `Ok(None)` if the source contains no `library { ... }` block at all (e.g.
/// the bare word `library` appears in a comment but is never followed by a brace).
/// Does not inspect anything outside the block.
pub fn parse_library_block(source: &str) -> (r: Result<Option<LibraryBlock>, LibraryBlockError>)
    ensures
        deep_result(r) == library_of(source@),
{
    let chars = chars_of(source);
    let (keyword_start, open_brace) = match find_library_block_header(chars.as_slice()) {
        Some(found) => found,
        None => {
            return Ok(None);
        },
    };
    let start = byte_offset_of(source, chars.as_slice(), keyword_start);
    let close_brace = match find_matching_brace(chars.as_slice(), open_brace) {
        Some(close) => close,
        None => {
            return Err(LibraryBlockError::UnclosedBlock { start });
        },
    };
    let body = slice_of(chars.as_slice(), open_brace + 1, close_brace);
    let imports = match parse_imports(body.as_str()) {
        Ok(imports) => imports,
        Err(fault) => {
            return Err(fault);
        },
    };
    let end = byte_offset_of(source, chars.as_slice(), close_brace + 1);
    Ok(Some(LibraryBlock { imports, byte_range: start..end }))
}

/// Locate a `library` keyword (as a whole word) that is followed, possibly after white
/// space, by `{`. Returns the positions of the keyword and of the brace.
pub fn find_library_block_header(source: &[char]) -> (r: Option<(usize, usize)>)
    ensures
        match r {
            Some((start, open)) => {
                &&& first_from(library_header(source@), 0, source@.len() as int) == Some(
                    start as int,
                )
                &&& open == library_brace(source@, start as int)
                &&& start < open < source@.len()
                &&& source@[open as int] == '{'
            },
            None => first_from(library_header(source@), 0, source@.len() as int) is None,
        },
{
    let ghost p = library_header(source@);
    let ghost n = source@.len() as int;
    let word = chars_of("library");
    proof {
        reveal_strlit("library");
    }
    let mut i: usize = 0;
    while i < source.len()
        invariant
            p == library_header(source@),
            n == source@.len(),
            word@ == "library"@,
            word@.len() == 7,
            i <= n,
            first_from(p, 0, n) == first_from(p, i as int, n),
        decreases n - i,
    {
        if matches_at(source, word.as_slice(), i) && borders_no_word(source, i, i + word.len()) {
            let open = after_space(source, i + word.len());
            if open < source.len() && source[open] == '{' {
                assert(p(i as int));
                return Some((i, open));
            }
        }
        assert(!p(i as int));
        i += 1;
    }
    None
}

/// Given the position of an opening `{`, find that of its matching `}`.
pub fn find_matching_brace(source: &[char], open_brace: usize) -> (r: Option<usize>)
    requires
        open_brace < source@.len(),
        source@[open_brace as int] == '{',
    ensures
        as_position(r) == closing_brace(every_position(source@), source@, open_brace as int),
        r matches Some(i) ==> open_brace < i < source@.len() && source@[i as int] == '}',
{
    let ghost every = every_position(source@);
    let ghost p = closes_brace(every, source@, open_brace as int);
    let ghost n = source@.len() as int;
    let mut depth: usize = 0;
    let mut i: usize = open_brace;
    while i < source.len()
        invariant
            every == every_position(source@),
            p == closes_brace(every, source@, open_brace as int),
            n == source@.len(),
            open_brace <= i <= n,
            source@[open_brace as int] == '{',
            depth == brace_depth(every, source@, open_brace as int, i as int),
            i > open_brace ==> depth > 0,
            depth <= i - open_brace,
            first_from(p, open_brace as int, n) == first_from(p, i as int, n),
        decreases n - i,
    {
        let c = source[i];
        if c == '{' {
            depth += 1;
        } else if c == '}' {
            depth -= 1;
            if depth == 0 {
                return Some(i);
            }
        }
        i += 1;
    }
    None
}

// The imports -------------------------------------------------------------

/// A line up to the `//` that begins a comment.
pub open spec fn before_comment(line: Seq<char>) -> Seq<char> {
    match find_text(line, "//"@, 0) {
        Some(i) => line.take(i),
        None => line,
    }
}

/// The statements of a block body with the lines `body_lines`: what stands between line
/// ends and semicolons, comments left out.
pub open spec fn statements(body_lines: Seq<Seq<char>>) -> Seq<Seq<char>>
    decreases body_lines.len(),
{
    if body_lines.len() == 0 {
        seq![]
    } else {
        statements(body_lines.drop_last()) + split(before_comment(body_lines.last()), ';')
    }
}

/// The imports that the statements that are not blank make, or the fault of the first
/// of these that is no import.
pub open spec fn imports_of(parts: Seq<Seq<char>>) -> Result<Seq<Import>, LibraryFault>
    decreases parts.len(),
{
    if parts.len() == 0 {
        Ok(seq![])
    } else {
        let statement = trim(parts.last());
        match imports_of(parts.drop_last()) {
            Err(fault) => Err(fault),
            Ok(imports) => if statement.len() == 0 {
                Ok(imports)
            } else {
                match one_import(statement) {
                    Ok(import) => Ok(imports.push(import)),
                    Err(fault) => Err(fault),
                }
            },
        }
    }
}

/// Parse the imports of a block body.
pub fn parse_imports(body: &str) -> (r: Result<Vec<ImportStatement>, LibraryBlockError>)
    ensures
        match r {
            Ok(v) => imports_of(statements(lines(body@))) == Ok::<Seq<Import>, LibraryFault>(
                deep(v@),
            ),
            Err(e) => imports_of(statements(lines(body@))) == Err::<Seq<Import>, LibraryFault>(
                e.deep_view(),
            ),
        },
{
    let parts = split_statements(body);
    let ghost all = deep(parts@);
    let mut imports: Vec<ImportStatement> = Vec::new();
    assert(deep(imports@) =~= seq![]);
    let mut i: usize = 0;
    while i < parts.len()
        invariant
            all == deep(parts@),
            all == statements(lines(body@)),
            i <= parts@.len(),
            imports_of(all.take(i as int)) == Ok::<Seq<Import>, LibraryFault>(deep(imports@)),
        decreases parts@.len() - i,
    {
        let statement = trimmed(parts[i].as_str());
        proof {
            assert(all.take(i + 1).drop_last() =~= all.take(i as int));
            assert(all.take(i + 1).last() == parts@[i as int]@);
        }
        if !statement.as_str().is_empty() {
            match parse_one_import(statement.as_str()) {
                Ok(import) => {
                    let ghost before = imports@;
                    imports.push(import);
                    assert(deep(imports@) =~= deep(before).push(import.deep_view()));
                },
                Err(fault) => {
                    proof {
                        lemma_fault_stays(all, i + 1);
                    }
                    return Err(fault);
                },
            }
        }
        i += 1;
    }
    assert(all.take(i as int) =~= all);
    Ok(imports)
}

/// A fault in the first `n` statements is the fault of the whole.
proof fn lemma_fault_stays(parts: Seq<Seq<char>>, n: int)
    requires
        0 <= n <= parts.len(),
        imports_of(parts.take(n)) is Err,
    ensures
        imports_of(parts) == imports_of(parts.take(n)),
    decreases parts.len(),
{
    if n == parts.len() {
        assert(parts.take(n) =~= parts);
    } else {
        assert(parts.drop_last().take(n) =~= parts.take(n));
        lemma_fault_stays(parts.drop_last(), n);
    }
}

/// Split the block body into individual statements on line comments, line ends and
/// semicolons (imports may be one per line or `;`-separated).
pub fn split_statements(body: &str) -> (r: Vec<String>)
    ensures
        deep(r@) == statements(lines(body@)),
{
    let body_lines = lines_of(body);
    let ghost all = deep(body_lines@);
    let mut out: Vec<String> = Vec::new();
    assert(deep(out@) =~= statements(all.take(0)));
    let mut i: usize = 0;
    while i < body_lines.len()
        invariant
            all == deep(body_lines@),
            i <= body_lines@.len(),
            deep(out@) == statements(all.take(i as int)),
        decreases body_lines@.len() - i,
    {
        let line = strip_line_comment(body_lines[i].as_str());
        let mut parts = split_at_each(line.as_str(), ';');
        let ghost before = deep(out@);
        let ghost added = deep(parts@);
        out.append(&mut parts);
        proof {
            assert(all.take(i + 1).drop_last() =~= all.take(i as int));
            assert(all.take(i + 1).last() == body_lines@[i as int]@);
            assert(deep(out@) =~= before + added);
        }
        i += 1;
    }
    assert(all.take(i as int) =~= all);
    out
}

/// A line up to the `//` that begins a comment.
pub fn strip_line_comment(line: &str) -> (r: String)
    ensures
        r@ == before_comment(line@),
{
    let chars = chars_of(line);
    let slashes = chars_of("//");
    let ghost p = occurrence(line@, "//"@);
    let ghost n = line@.len() as int;
    let mut i: usize = 0;
    while i < chars.len()
        invariant
            chars@ == line@,
            slashes@ == "//"@,
            p == occurrence(line@, "//"@),
            n == line@.len(),
            i <= n,
            first_from(p, 0, n) == first_from(p, i as int, n),
        decreases n - i,
    {
        if matches_at(chars.as_slice(), slashes.as_slice(), i) {
            assert(p(i as int));
            return slice_of(chars.as_slice(), 0, i);
        }
        i += 1;
    }
    line.to_string()
}

/// `c` can stand in a package name.
pub open spec fn is_package_char(c: char) -> bool {
    is_letter(c) || is_digit(c) || c == '_' || c == '-'
}

/// `c` can stand in a version.
pub open spec fn is_version_char(c: char) -> bool {
    is_letter(c) || is_digit(c) || c == '.' || c == '-' || c == '_'
}

/// `name` is a package name: not empty, and of ASCII letters and digits, `_` and `-` only.
pub open spec fn is_package_name(name: Seq<char>) -> bool {
    name.len() > 0 && forall|i: int| 0 <= i < name.len() ==> is_package_char(#[trigger] name[i])
}

/// `version` is one that an import can ask for: not empty, and of ASCII letters and
/// digits, `.`, `-` and `_` only.
pub open spec fn is_import_version(version: Seq<char>) -> bool {
    version.len() > 0 && forall|i: int|
        0 <= i < version.len() ==> is_version_char(#[trigger] version[i])
}

/// The import that `statement` makes: `import`, white space, and a name or a name, `@`
/// and a version, each with white space around it or none.
pub open spec fn one_import(statement: Seq<char>) -> Result<Import, LibraryFault> {
    match without_prefix(statement, "import"@) {
        None => Err(LibraryFault::MalformedImport { statement }),
        Some(rest) => if rest.len() > 0 && !is_space(rest[0]) {
            Err(LibraryFault::MalformedImport { statement })
        } else if trim(rest).len() == 0 {
            Err(LibraryFault::EmptyPackageName { statement })
        } else {
            let import = match split_first(trim(rest), '@') {
                Some((name, version)) => Import { name: trim(name), version: Some(trim(version)) },
                None => Import { name: trim(rest), version: None },
            };
            if import.name.len() == 0 {
                Err(LibraryFault::EmptyPackageName { statement })
            } else if !is_package_name(import.name) || (import.version matches Some(v)
                && !is_import_version(v)) {
                Err(LibraryFault::MalformedImport { statement })
            } else {
                Ok(import)
            }
        },
    }
}

/// Parse one statement of a block body as an import.
pub fn parse_one_import(statement: &str) -> (r: Result<ImportStatement, LibraryBlockError>)
    ensures
        deep_result(r) == one_import(statement@),
{
    let rest = match crate::text::strip_prefix(statement, "import") {
        Some(rest) => rest,
        None => {
            return Err(LibraryBlockError::MalformedImport { statement: statement.to_string() });
        },
    };
    // `importgps` only has `import` as the beginning of a longer identifier.
    let rest_chars = chars_of(rest.as_str());
    if rest_chars.len() > 0 && !is_white_space(rest_chars[0]) {
        return Err(LibraryBlockError::MalformedImport { statement: statement.to_string() });
    }
    let rest = trimmed(rest.as_str());
    if rest.as_str().is_empty() {
        return Err(LibraryBlockError::EmptyPackageName { statement: statement.to_string() });
    }
    let (name, version): (String, Option<String>) = match split_at_first(rest.as_str(), '@') {
        Some((name, version)) => (trimmed(name.as_str()), Some(trimmed(version.as_str()))),
        None => (rest, None),
    };
    if name.as_str().is_empty() {
        return Err(LibraryBlockError::EmptyPackageName { statement: statement.to_string() });
    }
    if !is_valid_package_name(name.as_str()) {
        return Err(LibraryBlockError::MalformedImport { statement: statement.to_string() });
    }
    if let Some(version) = &version {
        if !is_valid_version(version.as_str()) {
            return Err(LibraryBlockError::MalformedImport { statement: statement.to_string() });
        }
    }
    Ok(ImportStatement { name, version })
}

/// Whether `name` is a package name.
pub fn is_valid_package_name(name: &str) -> (r: bool)
    ensures
        r == is_package_name(name@),
{
    let chars = chars_of(name);
    let mut i: usize = 0;
    while i < chars.len()
        invariant
            chars@ == name@,
            i <= chars@.len(),
            forall|j: int| 0 <= j < i ==> is_package_char(#[trigger] name@[j]),
        decreases chars@.len() - i,
    {
        let c = chars[i];
        if !(is_ascii_alphanumeric(c) || c == '_' || c == '-') {
            assert(!is_package_char(name@[i as int]));
            return false;
        }
        i += 1;
    }
    chars.len() > 0
}

/// Whether `version` is one that an import can ask for.
pub fn is_valid_version(version: &str) -> (r: bool)
    ensures
        r == is_import_version(version@),
{
    let chars = chars_of(version);
    let mut i: usize = 0;
    while i < chars.len()
        invariant
            chars@ == version@,
            i <= chars@.len(),
            forall|j: int| 0 <= j < i ==> is_version_char(#[trigger] version@[j]),
        decreases chars@.len() - i,
    {
        let c = chars[i];
        if !(is_ascii_alphanumeric(c) || c == '.' || c == '-' || c == '_') {
            assert(!is_version_char(version@[i as int]));
            return false;
        }
        i += 1;
    }
    chars.len() > 0
}

/// Whether `c` is an ASCII letter or digit.
fn is_ascii_alphanumeric(c: char) -> (r: bool)
    ensures
        r == (is_letter(c) || is_digit(c)),
{
    ('a' <= c && c <= 'z') || ('A' <= c && c <= 'Z') || ('0' <= c && c <= '9')
}

} // verus!
