//! Renaming pass and splicing into the `functions { }` block: the step that turns a
//! parsed `.laplace` source plus its resolved packages into final `.stan` text.
use vstd::prelude::*;
use vstd::string::*;

use crate::codegen::calls::{call_edits, edit_calls, span_of};
use crate::codegen::edits::{
    apply_edits, edited, edited_before_splice, edited_from, Edit, SourceEdit,
};
use crate::codegen::functions_block::{find_functions_block, functions_block};
use crate::codegen::imports::{
    check_exports, export_fault, find_unresolved, imported, select_imported, unresolved,
};
use crate::codegen::line_ranges::{
    find_package_lines, lemma_line_feeds_concat, lemma_one_line_feed, line_feeds, package_lines,
    ranges_are_fresh, PackageLines,
};
use crate::codegen::mangling::{claim_fault, claims, mangle_packages, package_codes};
use crate::codegen::rename::{call_sites, find_call_sites, CallSite};
use crate::order::{lemma_ranked_permutes, ranked};
use crate::parser::library_block::{Import, ImportStatement, Library, LibraryBlock};
use crate::parser::signatures::{FunctionSig, Signature};
use crate::text::{
    chars_of, clone_texts, concat2, concat3, concat5, concat7, deep, deep_result, first_from, join,
    joined, position_at_byte, position_of_byte,
};

pub mod calls;
pub mod edits;
pub mod functions_block;
pub mod imports;
pub mod line_ranges;
pub mod mangling;
pub mod rename;

pub use line_ranges::PackageLineRange;

verus! {

/// A resolved, installed package ready for code generation: its raw `.stan` source
/// (every function it defines, exported or private), the signatures extracted from that
/// source, and which of those are actually exported (from the package's own
/// `laplace.toml`).
#[derive(Debug)]
pub struct InstalledPackage {
    pub name: String,
    pub source: String,
    pub signatures: Vec<FunctionSig>,
    pub exported: Vec<String>,
}

/// What an installed package holds.
#[verifier::ext_equal]
pub struct Package {
    pub name: Seq<char>,
    pub source: Seq<char>,
    pub signatures: Seq<Signature>,
    pub exported: Seq<Seq<char>>,
}

impl DeepView for InstalledPackage {
    type V = Package;

    open spec fn deep_view(&self) -> Package {
        Package {
            name: self.name@,
            source: self.source@,
            signatures: deep(self.signatures@),
            exported: deep(self.exported@),
        }
    }
}

impl Clone for InstalledPackage {
    fn clone(&self) -> (r: Self)
        ensures
            r.deep_view() == self.deep_view(),
    {
        let ghost all = deep(self.signatures@);
        let mut signatures: Vec<FunctionSig> = Vec::new();
        let mut i: usize = 0;
        while i < self.signatures.len()
            invariant
                all == deep(self.signatures@),
                i <= self.signatures@.len(),
                deep(signatures@) == all.take(i as int),
            decreases self.signatures@.len() - i,
        {
            let ghost held = signatures@;
            let sig = self.signatures[i].clone();
            assert(all[i as int] == sig.deep_view());
            signatures.push(sig);
            assert(deep(signatures@) =~= deep(held).push(sig.deep_view()));
            i += 1;
        }
        assert(deep(signatures@) =~= all);
        InstalledPackage {
            name: self.name.clone(),
            source: self.source.clone(),
            signatures,
            exported: clone_texts(&self.exported),
        }
    }
}

/// Why a source cannot be compiled.
#[derive(Debug, PartialEq, Eq)]
pub enum CodegenError {
    /// The `library` block imports a package that is not among the installed ones.
    MissingImport { package: String },
    /// A function is called that its package does not export.
    FunctionNotExported { package: String, func: String },
    /// A function of a package is called that the `library` block does not import.
    UnknownPackageReference { package: String, func: String },
    /// A package exports a function that its source does not define.
    ExportedFunctionMissing { package: String, func: String },
    /// Two packages have an export with the same mangled name.
    DuplicateMangledName { mangled: String, first_package: String, second_package: String },
}

/// What a `CodegenError` says.
#[verifier::ext_equal]
pub enum CodegenFault {
    MissingImport { package: Seq<char> },
    FunctionNotExported { package: Seq<char>, func: Seq<char> },
    UnknownPackageReference { package: Seq<char>, func: Seq<char> },
    ExportedFunctionMissing { package: Seq<char>, func: Seq<char> },
    DuplicateMangledName {
        mangled: Seq<char>,
        first_package: Seq<char>,
        second_package: Seq<char>,
    },
}

impl DeepView for CodegenError {
    type V = CodegenFault;

    open spec fn deep_view(&self) -> CodegenFault {
        match self {
            CodegenError::MissingImport { package } => CodegenFault::MissingImport {
                package: package@,
            },
            CodegenError::FunctionNotExported {
                package,
                func,
            } => CodegenFault::FunctionNotExported { package: package@, func: func@ },
            CodegenError::UnknownPackageReference {
                package,
                func,
            } => CodegenFault::UnknownPackageReference { package: package@, func: func@ },
            CodegenError::ExportedFunctionMissing {
                package,
                func,
            } => CodegenFault::ExportedFunctionMissing { package: package@, func: func@ },
            CodegenError::DuplicateMangledName {
                mangled,
                first_package,
                second_package,
            } => CodegenFault::DuplicateMangledName {
                mangled: mangled@,
                first_package: first_package@,
                second_package: second_package@,
            },
        }
    }
}

/// The message of a compilation fault.
pub open spec fn codegen_message(fault: CodegenFault) -> Seq<char> {
    match fault {
        CodegenFault::MissingImport { package } => "`library` imports `"@ + package
            + "`, but no installed package by that name was provided (run `laplace install`?)"@,
        CodegenFault::FunctionNotExported { package, func } => "`"@ + package + "::"@ + func
            + "(` is called, but `"@ + func + "` is not in `"@ + (package + "`'s exports"@),
        CodegenFault::UnknownPackageReference { package, func } => "`"@ + package + "::"@ + func
            + "(` is called, but `"@ + package
            + "` was not imported in the `library { }` block"@,
        CodegenFault::ExportedFunctionMissing { package, func } => "package `"@ + package
            + "` declares export `"@ + func
            + "`, but no such function was found in its source"@,
        CodegenFault::DuplicateMangledName {
            mangled,
            first_package,
            second_package,
        } => "packages `"@ + first_package + "` and `"@ + second_package + "` both mangle to `"@
            + mangled
            + "` -- this should be impossible given the package-name prefix and indicates a naming \
            collision between the two packages"@,
    }
}

impl CodegenError {
    /// The message of the error.
    pub fn message(&self) -> (r: String)
        ensures
            r@ == codegen_message(self.deep_view()),
    {
        match self {
            CodegenError::MissingImport { package } => concat3(
                "`library` imports `",
                package.as_str(),
                "`, but no installed package by that name was provided (run `laplace install`?)",
            ),
            CodegenError::FunctionNotExported { package, func } => {
                let owner = concat2(package.as_str(), "`'s exports");
                concat2(
                    concat7(
                        "`",
                        package.as_str(),
                        "::",
                        func.as_str(),
                        "(` is called, but `",
                        func.as_str(),
                        "` is not in `",
                    ).as_str(),
                    owner.as_str(),
                )
            },
            CodegenError::UnknownPackageReference { package, func } => concat7(
                "`",
                package.as_str(),
                "::",
                func.as_str(),
                "(` is called, but `",
                package.as_str(),
                "` was not imported in the `library { }` block",
            ),
            CodegenError::ExportedFunctionMissing { package, func } => concat5(
                "package `",
                package.as_str(),
                "` declares export `",
                func.as_str(),
                "`, but no such function was found in its source",
            ),
            CodegenError::DuplicateMangledName {
                mangled,
                first_package,
                second_package,
            } => concat7(
                "packages `",
                first_package.as_str(),
                "` and `",
                second_package.as_str(),
                "` both mangle to `",
                mangled.as_str(),
                "` -- this should be impossible given the package-name prefix and indicates a naming \
                collision between the two packages",
            ),
        }
    }
}

/// Final `.stan` text, and which of its lines came from which package.
#[derive(Debug, PartialEq, Eq)]
pub struct GeneratedStan {
    pub source: String,
    /// One range per imported package, in the order of their code.
    pub package_line_ranges: Vec<PackageLineRange>,
}

/// What a `GeneratedStan` holds.
#[verifier::ext_equal]
pub struct Compiled {
    pub source: Seq<char>,
    pub package_lines: Seq<PackageLines>,
}

impl DeepView for GeneratedStan {
    type V = Compiled;

    open spec fn deep_view(&self) -> Compiled {
        Compiled { source: self.source@, package_lines: deep(self.package_line_ranges@) }
    }
}

/// The imports of a block, none where there is no block.
pub open spec fn block_imports(block: Option<Library>) -> Seq<Import> {
    match block {
        Some(b) => b.imports,
        None => seq![],
    }
}

/// The block's byte range begins and ends between characters of `s`.
pub open spec fn block_fits(block: Library, s: Seq<char>) -> bool {
    position_of_byte(s, block.start) is Some && position_of_byte(s, block.end) is Some
}

/// The positions where a block begins and ends.
pub open spec fn block_span(s: Seq<char>, block: Option<Library>) -> Option<(int, int)> {
    match block {
        Some(b) => Some((position_of_byte(s, b.start)->0, position_of_byte(s, b.end)->0)),
        None => None,
    }
}

/// The edit that deletes a span.
pub open spec fn block_edits(span: Option<(int, int)>) -> Seq<Edit> {
    match span {
        Some((start, end)) => seq![Edit { start, end, text: seq![], splice: false }],
        None => seq![],
    }
}

/// What stands in front of the packages' code where that is put in: a line end inside an
/// existing `functions { }` block, else the head of a new one.
pub open spec fn splice_head(s: Seq<char>) -> Seq<char> {
    if functions_block(s) is Some {
        "\n"@
    } else {
        "functions {\n"@
    }
}

/// What stands behind the packages' code where that is put in.
pub open spec fn splice_tail(s: Seq<char>) -> Seq<char> {
    if functions_block(s) is Some {
        "\n"@
    } else {
        "\n}\n"@
    }
}

/// The edit that puts `codes`, joined by line feeds, at the start of the `functions { }`
/// block, or a block that holds them at the start of a source that has none. Without
/// codes there is nothing to put in.
pub open spec fn splice_edits(s: Seq<char>, codes: Seq<Seq<char>>) -> Seq<Edit> {
    let at = match functions_block(s) {
        Some(open) => open + 1,
        None => 0,
    };
    if codes.len() == 0 {
        seq![]
    } else {
        seq![
            Edit {
                start: at,
                end: at,
                text: splice_head(s) + join(codes, "\n"@) + splice_tail(s),
                splice: true,
            },
        ]
    }
}

/// The final text of `s` and the packages' lines in it, with `calls` the edits of its call
/// sites.
pub open spec fn assembled(
    s: Seq<char>,
    block: Option<Library>,
    calls: Seq<Edit>,
    packages: Seq<Package>,
) -> Compiled {
    let codes = package_codes(packages);
    let edits = block_edits(block_span(s, block)) + calls + splice_edits(s, codes);
    Compiled {
        source: edited(s, edits),
        package_lines: match edited_before_splice(s, ranked::<SourceEdit>(edits), 0) {
            Some(before) => package_lines(before + splice_head(s), packages, codes),
            None => seq![],
        },
    }
}

/// The final text of a source, or the fault that comes first: an import that is not
/// installed, then an export without a definition, then a mangled name that two imported
/// packages take, then a call of what no imported package exports.
pub open spec fn compiled(
    s: Seq<char>,
    block: Option<Library>,
    installed: Seq<Package>,
) -> Result<Compiled, CodegenFault> {
    let imports = block_imports(block);
    let packages = imported(installed, imports);
    match first_from(unresolved(imports, installed), 0, imports.len() as int) {
        Some(i) => Err(CodegenFault::MissingImport { package: imports[i].name }),
        None => match export_fault(installed) {
            Some(fault) => Err(fault),
            None => match claim_fault(claims(packages)) {
                Some(fault) => Err(fault),
                None => match call_edits(call_sites(s), block_span(s, block), packages) {
                    Err(fault) => Err(fault),
                    Ok(calls) => Ok(assembled(s, block, calls, packages)),
                },
            },
        },
    }
}

/// Where the packages' code is put in, it stands in the output behind what comes before it.
proof fn lemma_splice_in_output(s: Seq<char>, edits: Seq<Edit>, cursor: int, text: Seq<char>)
    requires
        edited_before_splice(s, edits, cursor) is Some,
        forall|i: int| 0 <= i < edits.len() && (#[trigger] edits[i]).splice ==> edits[i].text == text,
    ensures
        line_feeds(edited_before_splice(s, edits, cursor)->0) + line_feeds(text) <= line_feeds(
            edited_from(s, edits, cursor),
        ),
    decreases edits.len(),
{
    let rest = edits.drop_first();
    assert forall|i: int| 0 <= i < rest.len() && (#[trigger] rest[i]).splice implies rest[i].text
        == text by {
        assert(rest[i] == edits[i + 1]);
    }
    if edits[0].start < cursor {
        lemma_splice_in_output(s, rest, cursor, text);
    } else {
        let kept = s.subrange(cursor, edits[0].start);
        let tail = edited_from(s, rest, edits[0].end);
        lemma_line_feeds_concat(kept + edits[0].text, tail);
        lemma_line_feeds_concat(kept, edits[0].text);
        if !edits[0].splice {
            lemma_splice_in_output(s, rest, edits[0].end, text);
            let before = edited_before_splice(s, rest, edits[0].end)->0;
            lemma_line_feeds_concat(kept + edits[0].text, before);
        }
    }
}

/// Sorting keeps the packages' code.
pub proof fn lemma_ranked_splice(edits: Seq<Edit>, text: Seq<char>)
    requires
        forall|i: int| 0 <= i < edits.len() && (#[trigger] edits[i]).splice ==> edits[i].text == text,
    ensures
        forall|i: int|
            0 <= i < edits.len() && (#[trigger] ranked::<SourceEdit>(edits)[i]).splice ==> ranked::<
                SourceEdit,
            >(edits)[i].text == text,
{
    broadcast use vstd::seq_lib::group_to_multiset_ensures;

    let sorted = ranked::<SourceEdit>(edits);
    lemma_ranked_permutes::<SourceEdit>(edits);
    assert forall|i: int| 0 <= i < sorted.len() && (#[trigger] sorted[i]).splice implies
        sorted[i].text == text by {
        assert(sorted.contains(sorted[i]));
        assert(sorted.to_multiset().contains(sorted[i]));
        assert(edits.to_multiset().contains(sorted[i]));
        assert(edits.contains(sorted[i]));
    }
}

/// Only an edit list with packages' code in it has something before that.
proof fn lemma_no_splice(s: Seq<char>, edits: Seq<Edit>, cursor: int)
    requires
        forall|i: int| 0 <= i < edits.len() ==> !(#[trigger] edits[i]).splice,
    ensures
        edited_before_splice(s, edits, cursor) is None,
    decreases edits.len(),
{
    if edits.len() > 0 {
        let rest = edits.drop_first();
        assert forall|i: int| 0 <= i < rest.len() implies !(#[trigger] rest[i]).splice by {
            assert(rest[i] == edits[i + 1]);
        }
        assert(!edits[0].splice);
        if edits[0].start < cursor {
            lemma_no_splice(s, rest, cursor);
        } else {
            lemma_no_splice(s, rest, edits[0].end);
        }
    }
}

/// The edits of call sites hold no package's code.
pub proof fn lemma_call_edits_plain(
    sites: Seq<CallSite>,
    span: Option<(int, int)>,
    packages: Seq<Package>,
)
    ensures
        call_edits(sites, span, packages) matches Ok(edits) ==> forall|i: int|
            0 <= i < edits.len() ==> !(#[trigger] edits[i]).splice,
    decreases sites.len(),
{
    if sites.len() > 0 {
        lemma_call_edits_plain(sites.drop_last(), span, packages);
    }
}

/// Compile a `.laplace` source's text into final `.stan` text, and say which of its lines
/// came from which package.
///
/// `library_block` is the parsed `library { }` block, if the source has one (its import
/// list and byte range, from `parse_library_block`). `installed` are the resolved packages
/// available for those imports -- code generation does not itself consult the lockfile or
/// the file system, and does not re-parse the library block.
///
/// The renamed imported functions are spliced in the order they appear in `installed`
/// (expected to be lockfile order), not the order they're written in the `library { }`
/// block.
pub fn generate_with_package_lines(
    source: &str,
    library_block: Option<&LibraryBlock>,
    installed: &[InstalledPackage],
) -> (r: Result<GeneratedStan, CodegenError>)
    requires
        library_block matches Some(block) ==> block_fits(block.deep_view(), source@),
    ensures
        deep_result(r) == compiled(source@, library_block.deep_view(), deep(installed@)),
        r matches Ok(generated) ==> ranges_are_fresh(generated.package_line_ranges@),
{
    let ghost block = library_block.deep_view();
    let ghost all = deep(installed@);
    let no_imports: Vec<ImportStatement> = Vec::new();
    let imports: &Vec<ImportStatement> = match library_block {
        Some(block) => &block.imports,
        None => &no_imports,
    };
    assert(deep(imports@) =~= block_imports(block));
    if let Some(i) = find_unresolved(imports, installed) {
        assert(deep(imports@)[i as int].name == imports@[i as int].name@);
        return Err(CodegenError::MissingImport { package: imports[i].name.clone() });
    }
    if let Some(fault) = check_exports(installed) {
        return Err(fault);
    }
    let packages = select_imported(installed, imports);
    let ghost model = deep(packages@);
    let codes = match mangle_packages(&packages) {
        Ok(codes) => codes,
        Err(fault) => {
            return Err(fault);
        },
    };
    let chars = chars_of(source);
    let span: Option<(usize, usize)> = match library_block {
        Some(block) => {
            let start = position_at_byte(source, chars.as_slice(), block.byte_range.start);
            let end = position_at_byte(source, chars.as_slice(), block.byte_range.end);
            Some((start.unwrap(), end.unwrap()))
        },
        None => None,
    };
    assert(span_of(span) == block_span(source@, block));
    let sites = find_call_sites(chars.as_slice());
    let mut calls = match edit_calls(&sites, span, &packages, chars.len()) {
        Ok(calls) => calls,
        Err(fault) => {
            return Err(fault);
        },
    };
    let ghost call_model = deep(calls@);
    proof {
        lemma_call_edits_plain(deep(sites@), span_of(span), model);
    }
    let mut edits: Vec<SourceEdit> = Vec::new();
    if let Some((start, end)) = span {
        edits.push(SourceEdit { start, end, text: String::new(), splice: false });
    }
    assert(deep(edits@) =~= block_edits(span_of(span)));
    edits.append(&mut calls);
    assert(deep(edits@) =~= block_edits(span_of(span)) + call_model);
    let open = find_functions_block(chars.as_slice());
    let (at, head, tail): (usize, &str, &str) = match open {
        Some(open) => (open + 1, "\n", "\n"),
        None => (0, "functions {\n", "\n}\n"),
    };
    let code = joined(&codes, "\n");
    let ghost text = splice_head(source@) + join(package_codes(model), "\n"@) + splice_tail(source@);
    let ghost unspliced = edits@;
    if codes.len() > 0 {
        edits.push(
            SourceEdit {
                start: at,
                end: at,
                text: concat3(head, code.as_str(), tail),
                splice: true,
            },
        );
    }
    let ghost edit_model = deep(edits@);
    proof {
        assert(codes@.len() == package_codes(model).len());
        assert(edit_model =~= block_edits(span_of(span)) + call_model + splice_edits(
            source@,
            package_codes(model),
        ));
        assert forall|i: int| 0 <= i < edit_model.len() && (#[trigger] edit_model[i]).splice implies
            edit_model[i].text == text by {
        }
        lemma_ranked_splice(edit_model, text);
        lemma_ranked_permutes::<SourceEdit>(edit_model);
    }
    let (output, before) = apply_edits(chars.as_slice(), edits);
    let ranges = match before {
        Some(before) => {
            let front = concat2(before.as_str(), head);
            proof {
                lemma_splice_in_output(source@, ranked::<SourceEdit>(edit_model), 0, text);
                lemma_line_feeds_concat(before@, splice_head(source@));
                lemma_line_feeds_concat(
                    splice_head(source@) + join(package_codes(model), "\n"@),
                    splice_tail(source@),
                );
                lemma_line_feeds_concat(
                    splice_head(source@),
                    join(package_codes(model), "\n"@),
                );
                lemma_tail_line_feed(source@);
            }
            find_package_lines(output.as_str(), front.as_str(), &packages, &codes)
        },
        None => Vec::new(),
    };
    assert(before is None ==> deep(ranges@) =~= seq![]);
    Ok(GeneratedStan { source: output, package_line_ranges: ranges })
}

/// A line feed stands behind the packages' code.
proof fn lemma_tail_line_feed(s: Seq<char>)
    ensures
        line_feeds(splice_tail(s)) >= 1,
{
    lemma_one_line_feed();
    reveal_strlit("\n");
    reveal_strlit("\n}\n");
    let tail = "\n}\n"@;
    assert(tail =~= tail.take(2) + "\n"@);
    lemma_line_feeds_concat(tail.take(2), "\n"@);
    lemma_line_feeds_concat(Seq::empty(), tail.take(2));
}

/// Compile a `.laplace` source's text into final `.stan` text.
pub fn generate(
    source: &str,
    library_block: Option<&LibraryBlock>,
    installed: &[InstalledPackage],
) -> (r: Result<String, CodegenError>)
    requires
        library_block matches Some(block) ==> block_fits(block.deep_view(), source@),
    ensures
        match compiled(source@, library_block.deep_view(), deep(installed@)) {
            Ok(output) => deep_result(r) == Ok::<Seq<char>, CodegenFault>(output.source),
            Err(fault) => deep_result(r) == Err::<Seq<char>, CodegenFault>(fault),
        },
{
    match generate_with_package_lines(source, library_block, installed) {
        Ok(generated) => Ok(generated.source),
        Err(fault) => Err(fault),
    }
}

} // verus!
