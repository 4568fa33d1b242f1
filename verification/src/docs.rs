//! Doc comments: the `docs.json` sidecar of an installed package, and `laplace doc
//! <pkg>::<func>`.
//!
//! A package's sidecar lies in its installed directory
//! (`cache_root/<name>/<version>/docs.json`) and is written whenever the package lands in
//! the cache.
use vstd::prelude::*;
use vstd::string::*;
use vstd::utf8::*;

use crate::files::{FileOutcome, FileText};
use crate::order::{
    is_text_less, lemma_text_at_most_transitive, lemma_text_less_total, ranked, sort, text_at_most,
    Ranked,
};
use crate::parser::signatures::{extract_signatures, signatures_of, FunctionSig, Param, Signature};
use crate::paths::two_parts;
use crate::resolve::lockfile::{
    find_pin, lockfile_message, Lockfile, LockfileError, LockfileFault, Pin,
};
use crate::text::{
    chars_of, concat2, concat3, concat4, concat5, concat6, concat7, deep, deep_result, first_from,
    join, joined, lines, lines_of, same, spaces, spaces_of,
};

verus! {

/// The full `docs.json` sidecar for one installed package version: every top-level
/// function that can be extracted, sorted by name for determinism.
#[derive(Debug)]
pub struct PackageDocs {
    pub package: String,
    pub version: String,
    pub functions: Vec<FunctionSig>,
}

/// What a sidecar says.
#[verifier::ext_equal]
pub struct DocsText {
    pub package: Seq<char>,
    pub version: Seq<char>,
    pub functions: Seq<Signature>,
}

impl DeepView for PackageDocs {
    type V = DocsText;

    open spec fn deep_view(&self) -> DocsText {
        DocsText {
            package: self.package@,
            version: self.version@,
            functions: deep(self.functions@),
        }
    }
}

impl Ranked for FunctionSig {
    open spec fn ranks_at_most(a: Signature, b: Signature) -> bool {
        text_at_most(a.name, b.name)
    }

    fn at_most(&self, other: &Self) -> (r: bool) {
        !is_text_less(other.name.as_str(), self.name.as_str())
    }

    proof fn rank_is_total(a: Signature, b: Signature) {
        lemma_text_less_total(a.name, b.name);
    }

    proof fn rank_is_transitive(a: Signature, b: Signature, c: Signature) {
        lemma_text_at_most_transitive(a.name, b.name, c.name);
    }
}

/// Why documentation cannot be written or found.
#[derive(Debug, PartialEq, Eq)]
pub enum DocsError {
    /// The file at `path` cannot be accessed.
    Io { path: String, reason: String },
    /// The file at `path` does not hold a sidecar.
    Parse { path: String, reason: String },
    /// The sidecar for `path` cannot be written as text.
    Serialize { path: String, reason: String },
    /// The lock cannot be read.
    Lockfile(LockfileError),
    /// The lock does not pin the package.
    PackageNotInLockfile { package: String },
    /// The lock pins the package, but nothing is installed at `path`.
    PackageNotInstalled { package: String, path: String },
    /// The package has no such function.
    FunctionNotFound { package: String, func: String },
}

/// What a `DocsError` says.
#[verifier::ext_equal]
pub enum DocsFault {
    Io { path: Seq<char>, reason: Seq<char> },
    Parse { path: Seq<char>, reason: Seq<char> },
    Serialize { path: Seq<char>, reason: Seq<char> },
    Lockfile(LockfileFault),
    PackageNotInLockfile { package: Seq<char> },
    PackageNotInstalled { package: Seq<char>, path: Seq<char> },
    FunctionNotFound { package: Seq<char>, func: Seq<char> },
}

impl DeepView for DocsError {
    type V = DocsFault;

    open spec fn deep_view(&self) -> DocsFault {
        match self {
            DocsError::Io { path, reason } => DocsFault::Io { path: path@, reason: reason@ },
            DocsError::Parse { path, reason } => DocsFault::Parse { path: path@, reason: reason@ },
            DocsError::Serialize { path, reason } => DocsFault::Serialize {
                path: path@,
                reason: reason@,
            },
            DocsError::Lockfile(e) => DocsFault::Lockfile(e.deep_view()),
            DocsError::PackageNotInLockfile { package } => DocsFault::PackageNotInLockfile {
                package: package@,
            },
            DocsError::PackageNotInstalled { package, path } => DocsFault::PackageNotInstalled {
                package: package@,
                path: path@,
            },
            DocsError::FunctionNotFound { package, func } => DocsFault::FunctionNotFound {
                package: package@,
                func: func@,
            },
        }
    }
}

/// The message of a documentation fault.
pub open spec fn docs_message(fault: DocsFault) -> Seq<char> {
    match fault {
        DocsFault::Io { path, reason } => "failed to access "@ + path + ": "@ + reason,
        DocsFault::Parse { path, reason } => "failed to parse "@ + path + ": "@ + reason,
        DocsFault::Serialize { path, reason } => "failed to serialize docs for "@ + path + ": "@
            + reason,
        DocsFault::Lockfile(fault) => lockfile_message(fault),
        DocsFault::PackageNotInLockfile { package } => "`"@ + package
            + "` is not a dependency of this project (not found in laplace.lock)"@,
        DocsFault::PackageNotInstalled { package, path } => "`"@ + package
            + "` is locked but not installed at "@ + path + " -- run `laplace install`?"@,
        DocsFault::FunctionNotFound { package, func } => "package `"@ + package
            + "` has no function named `"@ + func + "`"@,
    }
}

impl DocsError {
    /// The message of the error.
    pub fn message(&self) -> (r: String)
        ensures
            r@ == docs_message(self.deep_view()),
    {
        match self {
            DocsError::Io { path, reason } => concat4(
                "failed to access ",
                path.as_str(),
                ": ",
                reason.as_str(),
            ),
            DocsError::Parse { path, reason } => concat4(
                "failed to parse ",
                path.as_str(),
                ": ",
                reason.as_str(),
            ),
            DocsError::Serialize { path, reason } => concat4(
                "failed to serialize docs for ",
                path.as_str(),
                ": ",
                reason.as_str(),
            ),
            DocsError::Lockfile(e) => e.message(),
            DocsError::PackageNotInLockfile { package } => concat3(
                "`",
                package.as_str(),
                "` is not a dependency of this project (not found in laplace.lock)",
            ),
            DocsError::PackageNotInstalled { package, path } => concat5(
                "`",
                package.as_str(),
                "` is locked but not installed at ",
                path.as_str(),
                " -- run `laplace install`?",
            ),
            DocsError::FunctionNotFound { package, func } => concat5(
                "package `",
                package.as_str(),
                "` has no function named `",
                func.as_str(),
                "`",
            ),
        }
    }
}

// The sidecar -------------------------------------------------------------

/// The sidecar of a package version with the source `source`.
pub open spec fn sidecar_of(source: Seq<char>, name: Seq<char>, version: Seq<char>) -> DocsText {
    DocsText {
        package: name,
        version,
        functions: ranked::<FunctionSig>(signatures_of(source)),
    }
}

/// The sidecar to write for a package version: every function signature of its `.stan`
/// source. It is written when the package is copied into the cache, so that `laplace doc`
/// never has to re-parse Stan source at lookup time.
pub fn write_sidecar(source: &str, name: &str, version: &str) -> (r: PackageDocs)
    ensures
        r.deep_view() == sidecar_of(source@, name@, version@),
{
    PackageDocs {
        package: name.to_string(),
        version: version.to_string(),
        functions: sort(extract_signatures(source)),
    }
}

/// What reading a sidecar comes to.
pub open spec fn sidecar_read(path: Seq<char>, outcome: FileText<DocsText>) -> Result<
    DocsText,
    DocsFault,
> {
    match outcome {
        FileText::Missing { reason } => Err(DocsFault::Io { path, reason }),
        FileText::Unreadable { reason } => Err(DocsFault::Io { path, reason }),
        FileText::Malformed { reason } => Err(DocsFault::Parse { path, reason }),
        FileText::Holds(docs) => Ok(docs),
    }
}

/// Read a sidecar, given what came of it.
pub fn read_docs_json(path: &str, outcome: FileOutcome<PackageDocs>) -> (r: Result<
    PackageDocs,
    DocsError,
>)
    ensures
        deep_result(r) == sidecar_read(path@, outcome.deep_view()),
{
    match outcome {
        FileOutcome::Missing { reason } => Err(DocsError::Io { path: path.to_string(), reason }),
        FileOutcome::Unreadable { reason } => Err(DocsError::Io { path: path.to_string(), reason }),
        FileOutcome::Malformed { reason } => Err(
            DocsError::Parse { path: path.to_string(), reason },
        ),
        FileOutcome::Holds(docs) => Ok(docs),
    }
}

/// The directory in which a pinned package is installed, by its parts below the cache's root.
pub open spec fn installed_dir(pin: Pin) -> Seq<Seq<char>> {
    seq![pin.name, pin.version]
}

/// The directory in which the package that `lock` pins is installed, by its parts below the
/// cache's root.
pub fn package_install_dir(lock: &Lockfile, package: &str) -> (r: Option<Vec<String>>)
    ensures
        match find_pin(lock.deep_view(), package@) {
            Some(pin) => r matches Some(dir) && deep(dir@) == installed_dir(pin),
            None => r is None,
        },
{
    match lock.find(package) {
        Some(locked) => Some(two_parts(locked.name.as_str(), locked.version.as_str())),
        None => None,
    }
}

/// A signature of the function `func`.
pub open spec fn documents(functions: Seq<Signature>, func: Seq<char>) -> spec_fn(int) -> bool {
    |i: int| functions[i].name == func
}

/// What `laplace doc` finds: the first function of that name in the sidecar of the pinned
/// version, or what is missing of the lock, the pin, the sidecar and the function.
pub open spec fn lookup_result(
    lock: Result<Seq<Pin>, LockfileFault>,
    dir: Seq<char>,
    package: Seq<char>,
    func: Seq<char>,
    sidecar: Option<Result<DocsText, DocsFault>>,
) -> Result<Signature, DocsFault> {
    match lock {
        Err(fault) => Err(DocsFault::Lockfile(fault)),
        Ok(pins) => match find_pin(pins, package) {
            None => Err(DocsFault::PackageNotInLockfile { package }),
            Some(pin) => match sidecar {
                None => Err(DocsFault::PackageNotInstalled { package, path: dir }),
                Some(Err(fault)) => Err(fault),
                Some(Ok(docs)) => match first_from(
                    documents(docs.functions, func),
                    0,
                    docs.functions.len() as int,
                ) {
                    Some(i) => Ok(docs.functions[i]),
                    None => Err(DocsFault::FunctionNotFound { package, func }),
                },
            },
        },
    }
}

/// An optional result, by what it holds.
pub open spec fn deep_sidecar(sidecar: Option<Result<PackageDocs, DocsError>>) -> Option<
    Result<DocsText, DocsFault>,
> {
    match sidecar {
        Some(read) => Some(deep_result(read)),
        None => None,
    }
}

/// `laplace doc <pkg>::<func>`: finds `func` in the sidecar of the version of `pkg` that the
/// project's lock pins.
///
/// `dir` is the text of the path that `package_install_dir` gives the parts of, and `sidecar`
/// what reading `docs.json` there gave: none where there is no such file.
pub fn lookup(
    lock: Result<Lockfile, LockfileError>,
    dir: &str,
    package: &str,
    func: &str,
    sidecar: Option<Result<PackageDocs, DocsError>>,
) -> (r: Result<FunctionSig, DocsError>)
    ensures
        deep_result(r) == lookup_result(
            deep_result(lock),
            dir@,
            package@,
            func@,
            deep_sidecar(sidecar),
        ),
{
    let lock = match lock {
        Ok(lock) => lock,
        Err(e) => {
            return Err(DocsError::Lockfile(e));
        },
    };
    if lock.find(package).is_none() {
        return Err(DocsError::PackageNotInLockfile { package: package.to_string() });
    }
    let docs = match sidecar {
        Some(Ok(docs)) => docs,
        Some(Err(e)) => {
            return Err(e);
        },
        None => {
            return Err(
                DocsError::PackageNotInstalled {
                    package: package.to_string(),
                    path: dir.to_string(),
                },
            );
        },
    };
    match find_function(&docs.functions, func) {
        Some(sig) => Ok(sig),
        None => Err(
            DocsError::FunctionNotFound { package: package.to_string(), func: func.to_string() },
        ),
    }
}

/// The first of `functions` with the name `func`.
fn find_function(functions: &Vec<FunctionSig>, func: &str) -> (r: Option<FunctionSig>)
    ensures
        r.deep_view() == match first_from(
            documents(deep(functions@), func@),
            0,
            functions@.len() as int,
        ) {
            Some(i) => Some(deep(functions@)[i]),
            None => None,
        },
{
    let ghost all = deep(functions@);
    let ghost p = documents(all, func@);
    let ghost n = all.len() as int;
    let mut i: usize = 0;
    while i < functions.len()
        invariant
            all == deep(functions@),
            p == documents(all, func@),
            n == all.len(),
            i <= n,
            first_from(p, 0, n) == first_from(p, i as int, n),
        decreases n - i,
    {
        assert(all[i as int] == functions@[i as int].deep_view());
        if same(functions[i].name.as_str(), func) {
            assert(p(i as int));
            return Some(functions[i].clone());
        }
        assert(!p(i as int));
        i += 1;
    }
    None
}

// Plain text --------------------------------------------------------------

/// The parameters of a signature, each as `name: type`.
pub open spec fn param_texts(params: Seq<(Seq<char>, Seq<char>)>) -> Seq<Seq<char>> {
    params.map_values(|p: (Seq<char>, Seq<char>)| p.0 + ": "@ + p.1)
}

/// A signature on one line: `package::name(x: type, ...) -> type`.
pub open spec fn signature_text(package: Seq<char>, sig: Signature) -> Seq<char> {
    package + "::"@ + sig.name + "("@ + join(param_texts(sig.params), ", "@) + ") -> "@
        + sig.return_type
}

/// A signature on one line.
fn signature_line(package: &str, sig: &FunctionSig) -> (r: String)
    ensures
        r@ == signature_text(package@, sig.deep_view()),
{
    let ghost params = deep(sig.params@);
    let mut parts: Vec<String> = Vec::new();
    let mut i: usize = 0;
    while i < sig.params.len()
        invariant
            params == deep(sig.params@),
            i <= sig.params@.len(),
            deep(parts@) == param_texts(params).take(i as int),
        decreases sig.params@.len() - i,
    {
        let ghost held = parts@;
        let text = concat3(sig.params[i].0.as_str(), ": ", sig.params[i].1.as_str());
        assert(params[i as int] == sig.params@[i as int].deep_view());
        assert(text@ == param_texts(params)[i as int]);
        parts.push(text);
        assert(deep(parts@) =~= deep(held).push(text@));
        i += 1;
    }
    assert(param_texts(params).take(i as int) =~= param_texts(params));
    concat7(
        package,
        "::",
        sig.name.as_str(),
        "(",
        joined(&parts, ", ").as_str(),
        ") -> ",
        sig.return_type.as_str(),
    )
}

/// Lines indented by two spaces, each with its line end.
pub open spec fn indented(all: Seq<Seq<char>>) -> Seq<char>
    decreases all.len(),
{
    if all.len() == 0 {
        seq![]
    } else {
        indented(all.drop_last()) + "  "@ + all.last() + "\n"@
    }
}

/// The lines of `text` indented by two spaces.
fn indent(text: &str) -> (r: String)
    ensures
        r@ == indented(lines(text@)),
{
    let all_lines = lines_of(text);
    let ghost all = deep(all_lines@);
    let mut out = String::new();
    assert(out@ =~= indented(all.take(0)));
    let mut i: usize = 0;
    while i < all_lines.len()
        invariant
            all == deep(all_lines@),
            i <= all_lines@.len(),
            out@ == indented(all.take(i as int)),
        decreases all_lines@.len() - i,
    {
        proof {
            assert(all.take(i + 1).drop_last() =~= all.take(i as int));
            assert(all.take(i + 1).last() == all_lines@[i as int]@);
        }
        out = concat4(out.as_str(), "  ", all_lines[i].as_str(), "\n");
        i += 1;
    }
    assert(all.take(i as int) =~= all);
    out
}

/// The length in bytes of the longest of the names.
pub open spec fn name_width(params: Seq<(Seq<char>, Seq<char>)>) -> int
    decreases params.len(),
{
    if params.len() == 0 {
        0
    } else {
        let rest = name_width(params.drop_last());
        let n = encode_utf8(params.last().0).len() as int;
        if n > rest {
            n
        } else {
            rest
        }
    }
}

/// One row per parameter: its name, padded to `width` characters, and its description.
pub open spec fn param_rows(params: Seq<(Seq<char>, Seq<char>)>, width: int) -> Seq<char>
    decreases params.len(),
{
    if params.len() == 0 {
        seq![]
    } else {
        let (name, desc) = params.last();
        param_rows(params.drop_last(), width) + "  "@ + name + spaces(width - name.len()) + "  "@
            + desc + "\n"@
    }
}

/// The length in bytes of the longest of the names.
fn width_of_names(params: &Vec<Param>) -> (r: usize)
    ensures
        r == name_width(deep(params@)),
{
    let ghost all = deep(params@);
    let mut width: usize = 0;
    let mut i: usize = 0;
    while i < params.len()
        invariant
            all == deep(params@),
            i <= params@.len(),
            width == name_width(all.take(i as int)),
        decreases params@.len() - i,
    {
        proof {
            assert(all.take(i + 1).drop_last() =~= all.take(i as int));
            assert(all.take(i + 1).last() == params@[i as int].deep_view());
        }
        let n: usize = params[i].0.as_str().as_bytes().len();
        if n > width {
            width = n;
        }
        i += 1;
    }
    assert(all.take(i as int) =~= all);
    width
}

/// One row per parameter.
fn rows_of(params: &Vec<Param>, width: usize) -> (r: String)
    ensures
        r@ == param_rows(deep(params@), width as int),
{
    let ghost all = deep(params@);
    let mut out = String::new();
    assert(out@ =~= param_rows(all.take(0), width as int));
    let mut i: usize = 0;
    while i < params.len()
        invariant
            all == deep(params@),
            i <= params@.len(),
            out@ == param_rows(all.take(i as int), width as int),
        decreases params@.len() - i,
    {
        proof {
            assert(all.take(i + 1).drop_last() =~= all.take(i as int));
            assert(all.take(i + 1).last() == params@[i as int].deep_view());
        }
        let name = params[i].0.as_str();
        let count: usize = chars_of(name).len();
        let pad = spaces_of(
            if count < width {
                width - count
            } else {
                0
            },
        );
        assert(pad@ =~= spaces(width - name@.len()));
        out = concat7(
            out.as_str(),
            "  ",
            name,
            pad.as_str(),
            "  ",
            params[i].1.as_str(),
            "\n",
        );
        i += 1;
    }
    assert(all.take(i as int) =~= all);
    out
}

/// The text of a section that an optional field makes: `head`, the field and `tail`.
pub open spec fn field_section(field: Option<Seq<char>>, head: Seq<char>, tail: Seq<char>) -> Seq<
    char,
> {
    match field {
        Some(text) => head + text + tail,
        None => seq![],
    }
}

/// The text of a section that an optional field makes of its lines.
pub open spec fn lines_section(field: Option<Seq<char>>, head: Seq<char>) -> Seq<char> {
    match field {
        Some(text) => head + indented(lines(text)),
        None => seq![],
    }
}

/// The text of the section that lists the parameters.
pub open spec fn params_section(params: Seq<(Seq<char>, Seq<char>)>) -> Seq<char> {
    if params.len() == 0 {
        seq![]
    } else {
        "\nParameters:\n"@ + param_rows(params, name_width(params))
    }
}

/// What `laplace doc` prints of a function.
pub open spec fn rendered(package: Seq<char>, sig: Signature) -> Seq<char> {
    let head = signature_text(package, sig) + "\n"@;
    match sig.doc {
        None => head + "\n(no @laplace documentation available for this function)\n"@,
        Some(doc) => head + field_section(doc.brief, "\n"@, "\n"@) + lines_section(
            doc.math,
            "\nMath:\n"@,
        ) + params_section(doc.params) + field_section(doc.return_doc, "\nReturns:\n  "@, "\n"@)
            + lines_section(doc.example, "\nExample:\n"@),
    }
}

/// The text of a section that an optional field makes.
fn field_text(field: &Option<String>, head: &str, tail: &str) -> (r: String)
    ensures
        r@ == field_section(field.deep_view(), head@, tail@),
{
    match field {
        Some(text) => concat3(head, text.as_str(), tail),
        None => String::new(),
    }
}

/// The text of a section that an optional field makes of its lines.
fn lines_text(field: &Option<String>, head: &str) -> (r: String)
    ensures
        r@ == lines_section(field.deep_view(), head@),
{
    match field {
        Some(text) => concat2(head, indent(text.as_str()).as_str()),
        None => String::new(),
    }
}

/// Pretty-print a function's signature and doc comment (if any) for terminal display. A
/// function with no `// @laplace` doc comment still renders its signature, with a note that
/// no docs are available.
pub fn render(package: &str, sig: &FunctionSig) -> (r: String)
    ensures
        r@ == rendered(package@, sig.deep_view()),
{
    let head = concat2(signature_line(package, sig).as_str(), "\n");
    match &sig.doc {
        None => concat2(
            head.as_str(),
            "\n(no @laplace documentation available for this function)\n",
        ),
        Some(doc) => {
            let params = if doc.params.len() == 0 {
                String::new()
            } else {
                concat2(
                    "\nParameters:\n",
                    rows_of(&doc.params, width_of_names(&doc.params)).as_str(),
                )
            };
            assert(params@ == params_section(deep(doc.params@)));
            concat6(
                head.as_str(),
                field_text(&doc.brief, "\n", "\n").as_str(),
                lines_text(&doc.math, "\nMath:\n").as_str(),
                params.as_str(),
                field_text(&doc.return_doc, "\nReturns:\n  ", "\n").as_str(),
                lines_text(&doc.example, "\nExample:\n").as_str(),
            )
        },
    }
}

// HTML --------------------------------------------------------------------

/// A character as it is written in HTML text.
pub open spec fn escaped_char(c: char) -> Seq<char> {
    if c == '&' {
        "&amp;"@
    } else if c == '<' {
        "&lt;"@
    } else if c == '>' {
        "&gt;"@
    } else if c == '"' {
        "&quot;"@
    } else if c == '\'' {
        "&#39;"@
    } else {
        seq![c]
    }
}

/// A text as it is written in HTML.
pub open spec fn escaped(s: Seq<char>) -> Seq<char>
    decreases s.len(),
{
    if s.len() == 0 {
        seq![]
    } else {
        escaped(s.drop_last()) + escaped_char(s.last())
    }
}

/// A text as it is written in HTML.
pub fn html_escape(input: &str) -> (r: String)
    ensures
        r@ == escaped(input@),
{
    let chars = chars_of(input);
    let mut out = String::new();
    let mut i: usize = 0;
    while i < chars.len()
        invariant
            chars@ == input@,
            i <= chars@.len(),
            out@ == escaped(input@.take(i as int)),
        decreases chars@.len() - i,
    {
        assert(input@.take(i + 1).drop_last() =~= input@.take(i as int));
        let ghost before = out@;
        let c = chars[i];
        if c == '&' {
            out.append("&amp;");
        } else if c == '<' {
            out.append("&lt;");
        } else if c == '>' {
            out.append("&gt;");
        } else if c == '"' {
            out.append("&quot;");
        } else if c == '\'' {
            out.append("&#39;");
        } else {
            out.push(c);
        }
        assert(out@ =~= before + escaped_char(c));
        i += 1;
    }
    assert(input@.take(i as int) =~= input@);
    out
}

/// The start of an HTML page, up to its title.
pub const PAGE_HEAD: &'static str = "\
    <!DOCTYPE html>\n\
    <html lang=\"en\">\n\
    <head>\n\
    <meta charset=\"utf-8\">\n\
    <title>";

/// What follows the title of an HTML page, up to its content: the style sheet and the
/// scripts that render formulas.
pub const PAGE_ASSETS: &'static str = "\
    </title>\n\
    <link rel=\"stylesheet\" href=\"https://cdn.jsdelivr.net/npm/katex@0.16.9/dist/katex.min.css\">\n\
    <script src=\"https://cdn.jsdelivr.net/npm/katex@0.16.9/dist/katex.min.js\"></script>\n\
    <script src=\"https://cdn.jsdelivr.net/npm/katex@0.16.9/dist/contrib/auto-render.min.js\"></script>\n\
    </head>\n\
    <body>\n";

/// The end of an HTML page, behind its content: the call that renders the formulas.
pub const PAGE_END: &'static str = "\
    <script>\n\
    document.addEventListener(\"DOMContentLoaded\", function () {\n\
    \x20 renderMathInElement(document.body, {\n\
    \x20   delimiters: [\n\
    \x20     {left: \"\\\\[\", right: \"\\\\]\", display: true},\n\
    \x20     {left: \"\\\\(\", right: \"\\\\)\", display: false}\n\
    \x20   ]\n\
    \x20 });\n\
    });\n\
    </script>\n\
    </body>\n\
    </html>\n";

/// A standalone HTML page with the title `title` and the content `body`.
pub open spec fn html_page(title: Seq<char>, body: Seq<char>) -> Seq<char> {
    PAGE_HEAD@ + escaped(title) + PAGE_ASSETS@ + body + PAGE_END@
}

/// A standalone HTML page.
pub fn wrap_html(title: &str, body: &str) -> (r: String)
    ensures
        r@ == html_page(title@, body@),
{
    concat5(PAGE_HEAD, html_escape(title).as_str(), PAGE_ASSETS, body, PAGE_END)
}

/// The HTML of an optional field: `head`, the escaped field and `tail`.
pub open spec fn html_section(field: Option<Seq<char>>, head: Seq<char>, tail: Seq<char>) -> Seq<
    char,
> {
    match field {
        Some(text) => head + escaped(text) + tail,
        None => seq![],
    }
}

/// The HTML of a list of parameters, one item each.
pub open spec fn html_items(params: Seq<(Seq<char>, Seq<char>)>) -> Seq<char>
    decreases params.len(),
{
    if params.len() == 0 {
        seq![]
    } else {
        html_items(params.drop_last()) + "<li><strong>"@ + escaped(params.last().0)
            + "</strong>: "@ + escaped(params.last().1) + "</li>\n"@
    }
}

/// The HTML of the section that lists the parameters.
pub open spec fn html_params(params: Seq<(Seq<char>, Seq<char>)>) -> Seq<char> {
    if params.len() == 0 {
        seq![]
    } else {
        "<h2>Parameters</h2>\n<ul>\n"@ + html_items(params) + "</ul>\n"@
    }
}

/// The HTML page of a function.
pub open spec fn rendered_html(package: Seq<char>, sig: Signature) -> Seq<char> {
    let title = signature_text(package, sig);
    let head = "<h1>"@ + escaped(title) + "</h1>\n"@;
    html_page(
        title,
        match sig.doc {
            None => head
                + "<p><em>no @laplace documentation available for this function</em></p>\n"@,
            Some(doc) => head + html_section(doc.brief, "<p>"@, "</p>\n"@) + html_section(
                doc.math,
                "<span class=\"math\">\\["@,
                "\\]</span>\n"@,
            ) + html_params(doc.params) + html_section(
                doc.return_doc,
                "<h2>Returns</h2>\n<p>"@,
                "</p>\n"@,
            ) + html_section(
                doc.example,
                "<h2>Example</h2>\n<pre><code>"@,
                "</code></pre>\n"@,
            ),
        },
    )
}

/// The HTML of an optional field.
fn html_text(field: &Option<String>, head: &str, tail: &str) -> (r: String)
    ensures
        r@ == html_section(field.deep_view(), head@, tail@),
{
    match field {
        Some(text) => concat3(head, html_escape(text.as_str()).as_str(), tail),
        None => String::new(),
    }
}

/// The HTML of a list of parameters, one item each.
fn items_of(params: &Vec<Param>) -> (r: String)
    ensures
        r@ == html_items(deep(params@)),
{
    let ghost all = deep(params@);
    let mut out = String::new();
    assert(out@ =~= html_items(all.take(0)));
    let mut i: usize = 0;
    while i < params.len()
        invariant
            all == deep(params@),
            i <= params@.len(),
            out@ == html_items(all.take(i as int)),
        decreases params@.len() - i,
    {
        proof {
            assert(all.take(i + 1).drop_last() =~= all.take(i as int));
            assert(all.take(i + 1).last() == params@[i as int].deep_view());
        }
        out = concat6(
            out.as_str(),
            "<li><strong>",
            html_escape(params[i].0.as_str()).as_str(),
            "</strong>: ",
            html_escape(params[i].1.as_str()).as_str(),
            "</li>\n",
        );
        i += 1;
    }
    assert(all.take(i as int) =~= all);
    out
}

/// Render a function's signature and doc comment as a minimal standalone HTML file:
/// brief/params/return as plain text, the example in a `<pre><code>` block (preserving line
/// breaks and monospacing, since it's Stan code, not prose), and -- if present -- the math
/// field in a KaTeX auto-render span loaded from a CDN script tag, so opening the file in any
/// browser renders both the formula and a correctly formatted example.
pub fn render_html(package: &str, sig: &FunctionSig) -> (r: String)
    ensures
        r@ == rendered_html(package@, sig.deep_view()),
{
    let title = signature_line(package, sig);
    let head = concat3("<h1>", html_escape(title.as_str()).as_str(), "</h1>\n");
    let body = match &sig.doc {
        None => concat2(
            head.as_str(),
            "<p><em>no @laplace documentation available for this function</em></p>\n",
        ),
        Some(doc) => {
            let params = if doc.params.len() == 0 {
                String::new()
            } else {
                concat3(
                    "<h2>Parameters</h2>\n<ul>\n",
                    items_of(&doc.params).as_str(),
                    "</ul>\n",
                )
            };
            assert(params@ == html_params(deep(doc.params@)));
            concat6(
                head.as_str(),
                html_text(&doc.brief, "<p>", "</p>\n").as_str(),
                html_text(&doc.math, "<span class=\"math\">\\[", "\\]</span>\n").as_str(),
                params.as_str(),
                html_text(&doc.return_doc, "<h2>Returns</h2>\n<p>", "</p>\n").as_str(),
                html_text(
                    &doc.example,
                    "<h2>Example</h2>\n<pre><code>",
                    "</code></pre>\n",
                ).as_str(),
            )
        },
    };
    wrap_html(title.as_str(), body.as_str())
}

} // verus!
