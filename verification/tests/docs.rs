use laplace::docs::{
    html_escape, lookup, package_install_dir, read_docs_json, render, render_html, write_sidecar,
    DocsError, PackageDocs,
};
use laplace::files::FileOutcome;
use laplace::parser::signatures::{Doc, FunctionSig};
use laplace::resolve::lockfile::{LockedPackage, Lockfile, LockfileError};

const RBF_COV_SOURCE: &str = r#"// @laplace
// @brief Squared exponential (RBF) covariance matrix.
// @param x Vector of input locations.
// @param alpha Marginal standard deviation of the GP.
// @param rho Length-scale of the GP.
// @return An N x N positive semi-definite covariance matrix.
// @example rbf_cov(x, 1.0, 0.5)
matrix rbf_cov(vector x, real alpha, real rho) {
  return gp_exp_quad_cov(x, alpha, rho);
}

real jitter(real epsilon) {
  return epsilon;
}
"#;

fn gps_docs() -> PackageDocs {
    write_sidecar(RBF_COV_SOURCE, "gps", "1.0.0")
}

fn gps_lock() -> Lockfile {
    Lockfile {
        packages: vec![LockedPackage {
            name: "gps".to_string(),
            version: "1.0.0".to_string(),
            checksum: "sha256:whatever".to_string(),
            source: "registry".to_string(),
        }],
    }
}

#[test]
fn write_sidecar_then_read_docs_json_round_trips() {
    let docs = gps_docs();
    assert_eq!(docs.package, "gps");
    assert_eq!(docs.version, "1.0.0");
    // sorted by name: jitter before rbf_cov
    assert_eq!(
        docs.functions.iter().map(|f| f.name.as_str()).collect::<Vec<_>>(),
        vec!["jitter", "rbf_cov"]
    );

    assert_eq!(docs.functions.len(), 2);
    let rbf = docs.functions.iter().find(|f| f.name == "rbf_cov").unwrap();
    assert_eq!(
        rbf.doc.as_ref().unwrap().brief.as_deref(),
        Some("Squared exponential (RBF) covariance matrix.")
    );
}

/// Where the package of `gps_lock` is installed.
const DIR: &str = "cache/gps/1.0.0";

#[test]
fn lookup_finds_a_documented_function() {
    let sig = lookup(Ok(gps_lock()), DIR, "gps", "rbf_cov", Some(Ok(gps_docs()))).unwrap();
    assert_eq!(sig.name, "rbf_cov");
    assert!(sig.doc.is_some());
}

#[test]
fn lookup_package_not_in_lockfile_errors() {
    let err = lookup(Ok(Lockfile::default()), DIR, "gps", "rbf_cov", None).unwrap_err();
    assert!(matches!(err, DocsError::PackageNotInLockfile { .. }));
    assert_eq!(
        err.message(),
        "`gps` is not a dependency of this project (not found in laplace.lock)"
    );
}

#[test]
fn lookup_locked_but_not_installed_errors() {
    let err = lookup(Ok(gps_lock()), DIR, "gps", "rbf_cov", None).unwrap_err();
    assert!(matches!(err, DocsError::PackageNotInstalled { .. }));
    assert_eq!(
        err.message(),
        "`gps` is locked but not installed at cache/gps/1.0.0 -- run `laplace install`?"
    );
}

#[test]
fn lookup_function_not_found_errors() {
    let err =
        lookup(Ok(gps_lock()), DIR, "gps", "matern_cov", Some(Ok(gps_docs()))).unwrap_err();
    assert!(matches!(err, DocsError::FunctionNotFound { .. }));
    assert_eq!(err.message(), "package `gps` has no function named `matern_cov`");
}

#[test]
fn lookup_hands_on_what_cannot_be_read() {
    let broken = LockfileError::Parse {
        path: "laplace.lock".to_string(),
        reason: "expected `]`".to_string(),
    };
    let err = lookup(Err(broken), DIR, "gps", "rbf_cov", None).unwrap_err();
    assert_eq!(err.message(), "failed to parse laplace.lock: expected `]`");

    let unreadable = DocsError::Io {
        path: "cache/gps/1.0.0/docs.json".to_string(),
        reason: "denied".to_string(),
    };
    let err = lookup(Ok(gps_lock()), DIR, "gps", "rbf_cov", Some(Err(unreadable))).unwrap_err();
    assert_eq!(err.message(), "failed to access cache/gps/1.0.0/docs.json: denied");
}

#[test]
fn install_dir_is_that_of_the_pinned_version() {
    assert_eq!(package_install_dir(&gps_lock(), "gps").unwrap(), vec!["gps", "1.0.0"]);
    assert_eq!(package_install_dir(&gps_lock(), "splines"), None);
}

#[test]
fn render_includes_brief_params_return_and_example() {
    let sig = FunctionSig {
        name: "rbf_cov".to_string(),
        params: vec![
            ("x".to_string(), "vector".to_string()),
            ("alpha".to_string(), "real".to_string()),
        ],
        return_type: "matrix".to_string(),
        doc: Some(Doc {
            brief: Some("Squared exponential covariance.".to_string()),
            params: vec![
                ("x".to_string(), "Input locations.".to_string()),
                ("alpha".to_string(), "Marginal std dev.".to_string()),
            ],
            return_doc: Some("An N x N matrix.".to_string()),
            example: Some("rbf_cov(x, 1.0)".to_string()),
            math: None,
        }),
    };

    let rendered = render("gps", &sig);
    assert!(rendered.starts_with("gps::rbf_cov(x: vector, alpha: real) -> matrix\n"));
    assert!(rendered.contains("Squared exponential covariance."));
    assert!(rendered.contains("Parameters:"));
    assert!(rendered.contains("x      Input locations."));
    assert!(rendered.contains("alpha  Marginal std dev."));
    assert!(rendered.contains("Returns:\n  An N x N matrix."));
    assert!(rendered.contains("Example:\n  rbf_cov(x, 1.0)"));
}

#[test]
fn render_without_doc_notes_no_documentation_available() {
    let sig = FunctionSig {
        name: "jitter".to_string(),
        params: vec![("epsilon".to_string(), "real".to_string())],
        return_type: "real".to_string(),
        doc: None,
    };

    let rendered = render("gps", &sig);
    assert!(rendered.starts_with("gps::jitter(epsilon: real) -> real\n"));
    assert!(rendered.contains("no @laplace documentation available"));
}

const RBF_COV_WITH_MATH_SOURCE: &str = r#"// @laplace
// @brief Squared exponential (RBF) covariance matrix.
// @math k(x, x') = \alpha^2 \exp\left(
//   -\frac{(x - x')^2}{2 \rho^2}
// \right)
// @param x Vector of input locations.
// @return An N x N positive semi-definite covariance matrix.
// @example matrix k = rbf_cov(x, 1.0, 0.5);
//   print(k);
matrix rbf_cov(vector x, real alpha, real rho) {
  return gp_exp_quad_cov(x, alpha, rho);
}

real jitter(real epsilon) {
  return epsilon;
}
"#;

fn math_function() -> FunctionSig {
    let docs = write_sidecar(RBF_COV_WITH_MATH_SOURCE, "gps", "1.0.0");
    docs.functions.into_iter().find(|f| f.name == "rbf_cov").unwrap()
}

#[test]
fn math_round_trips_through_docs_json_verbatim() {
    let rbf = math_function();
    let rbf = &rbf;

    let expected_math = "k(x, x') = \\alpha^2 \\exp\\left(\n-\\frac{(x - x')^2}{2 \\rho^2}\n\\right)";
    assert_eq!(rbf.doc.as_ref().unwrap().math.as_deref(), Some(expected_math));

    let rendered = render("gps", rbf);
    assert!(rendered.contains("Math:\n"));
    for line in expected_math.lines() {
        assert!(rendered.contains(line), "rendered output missing math line: {line}");
    }

    let html = render_html("gps", rbf);
    assert!(html.contains("<span class=\"math\">"));
    // `&` in the LaTeX must be HTML-escaped so the browser hands KaTeX
    // back the original raw string via textContent.
    assert!(html.contains(&html_escape(expected_math)));
    assert!(html.contains("katex"));
}

#[test]
fn no_math_tag_means_no_math_section_anywhere() {
    // RBF_COV_SOURCE is documented (@brief/@param/@return/@example) but has no @math tag.
    let docs = gps_docs();
    let rbf = docs.functions.iter().find(|f| f.name == "rbf_cov").unwrap();
    assert_eq!(rbf.doc.as_ref().unwrap().math, None);

    let rendered = render("gps", rbf);
    assert!(!rendered.contains("Math:"));

    let html = render_html("gps", rbf);
    assert!(!html.contains("class=\"math\""));
}

#[test]
fn multiline_example_preserves_line_breaks_through_json_and_render() {
    let rbf = math_function();
    let rbf = &rbf;

    let expected_example = "matrix k = rbf_cov(x, 1.0, 0.5);\nprint(k);";
    assert_eq!(rbf.doc.as_ref().unwrap().example.as_deref(), Some(expected_example));

    let rendered = render("gps", rbf);
    assert!(rendered.contains("Example:\n  matrix k = rbf_cov(x, 1.0, 0.5);\n  print(k);\n"));

    let html = render_html("gps", rbf);
    assert!(html.contains(&format!(
        "<pre><code>{}</code></pre>",
        html_escape(expected_example)
    )));
}

#[test]
fn rendered_text_is_laid_out_in_sections() {
    let source = "// @laplace\n// @brief Doubles a real value.\n// @param x The value to double.\n\
                  // @return 2 * x.\n// @example mathutils::double(3.0)\nreal double(real x) {\n\
                  \x20 return 2 * x;\n}\n";
    let docs = write_sidecar(source, "mathutils", "1.0.0");
    assert_eq!(
        render("mathutils", &docs.functions[0]),
        "mathutils::double(x: real) -> real\n\nDoubles a real value.\n\nParameters:\n\
         \x20 x  The value to double.\n\nReturns:\n  2 * x.\n\nExample:\n\
         \x20 mathutils::double(3.0)\n"
    );
}

#[test]
fn parameter_names_are_padded_to_the_longest_in_bytes() {
    let sig = FunctionSig {
        name: "f".to_string(),
        params: vec![],
        return_type: "real".to_string(),
        doc: Some(Doc {
            brief: None,
            params: vec![
                ("\u{3b1}\u{3b2}".to_string(), "two letters in four bytes".to_string()),
                ("abc".to_string(), "three letters".to_string()),
            ],
            return_doc: None,
            math: None,
            example: None,
        }),
    };
    assert_eq!(
        render("p", &sig),
        "p::f() -> real\n\nParameters:\n  \u{3b1}\u{3b2}    two letters in four bytes\n  \
         abc   three letters\n"
    );
}

#[test]
fn html_page_is_complete() {
    let sig = FunctionSig {
        name: "f".to_string(),
        params: vec![("x".to_string(), "array[N, M] real".to_string())],
        return_type: "real".to_string(),
        doc: Some(Doc {
            brief: Some("a < b & \"c\"".to_string()),
            params: vec![("x".to_string(), "it's > 0".to_string())],
            return_doc: Some("r".to_string()),
            math: Some("m".to_string()),
            example: Some("e".to_string()),
        }),
    };
    let page = r#"<!DOCTYPE html>
<html lang="en">
<head>
<meta charset="utf-8">
<title>p::f(x: array[N, M] real) -&gt; real</title>
<link rel="stylesheet" href="https://cdn.jsdelivr.net/npm/katex@0.16.9/dist/katex.min.css">
<script src="https://cdn.jsdelivr.net/npm/katex@0.16.9/dist/katex.min.js"></script>
<script src="https://cdn.jsdelivr.net/npm/katex@0.16.9/dist/contrib/auto-render.min.js"></script>
</head>
<body>
<h1>p::f(x: array[N, M] real) -&gt; real</h1>
<p>a &lt; b &amp; &quot;c&quot;</p>
<span class="math">\[m\]</span>
<h2>Parameters</h2>
<ul>
<li><strong>x</strong>: it&#39;s &gt; 0</li>
</ul>
<h2>Returns</h2>
<p>r</p>
<h2>Example</h2>
<pre><code>e</code></pre>
<script>
document.addEventListener("DOMContentLoaded", function () {
  renderMathInElement(document.body, {
    delimiters: [
      {left: "\\[", right: "\\]", display: true},
      {left: "\\(", right: "\\)", display: false}
    ]
  });
});
</script>
</body>
</html>
"#;
    assert_eq!(render_html("p", &sig), page);

    let bare = FunctionSig { doc: None, ..sig };
    assert!(render_html("p", &bare)
        .contains("<p><em>no @laplace documentation available for this function</em></p>\n"));
}

#[test]
fn a_sidecar_that_cannot_be_read_is_an_error() {
    let path = "/c/gps/1.0.0/docs.json";
    let malformed = match serde_json::from_str::<serde_json::Value>("{") {
        Ok(_) => String::new(),
        Err(e) => e.to_string(),
    };
    assert_eq!(
        read_docs_json(path, FileOutcome::Malformed { reason: malformed.clone() }).unwrap_err(),
        DocsError::Parse { path: path.to_string(), reason: malformed }
    );
    assert_eq!(
        read_docs_json(path, FileOutcome::Unreadable { reason: "denied".to_string() }).unwrap_err(),
        DocsError::Io { path: path.to_string(), reason: "denied".to_string() }
    );
    assert_eq!(
        read_docs_json(path, FileOutcome::Missing { reason: "gone".to_string() }).unwrap_err(),
        DocsError::Io { path: path.to_string(), reason: "gone".to_string() }
    );
    let docs = write_sidecar(RBF_COV_SOURCE, "gps", "1.0.0");
    assert_eq!(read_docs_json(path, FileOutcome::Holds(docs)).unwrap().functions.len(), 2);
}

#[test]
fn escaping_goes_over_concatenation_and_can_be_undone() {
    let texts = ["", "a<b", "&lt;", "&", "amp;", "\"'>", "x' & y", "&amp;quot;"];
    for a in texts {
        for b in texts {
            let both = format!("{a}{b}");
            let escaped = html_escape(&both);
            assert_eq!(escaped, html_escape(a) + &html_escape(b));
            let back = escaped
                .replace("&lt;", "<")
                .replace("&gt;", ">")
                .replace("&quot;", "\"")
                .replace("&#39;", "'")
                .replace("&amp;", "&");
            assert_eq!(back, both);
        }
    }
}
