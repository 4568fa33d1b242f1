use laplace::parser::signatures::extract_signatures;

const RBF_COV_PACKAGE: &str = r#"
// @laplace
// @brief Squared exponential (RBF) covariance matrix.
// @param x Vector of input locations.
// @param alpha Marginal standard deviation of the GP.
// @param rho Length-scale of the GP.
// @return An N x N positive semi-definite covariance matrix.
// @example rbf_cov(x, 1.0, 0.5)
matrix rbf_cov(vector x, real alpha, real rho) {
  return gp_exp_quad_cov(x, alpha, rho);
}

// Not a laplace doc comment, just a regular note for maintainers.
real jitter(real epsilon) {
  return epsilon;
}

matrix rbf_cov_jittered(vector x, real alpha, real rho, real epsilon) {
  matrix[rows(x), rows(x)] k = rbf_cov(x, alpha, rho);
  for (i in 1:rows(x)) {
    k[i, i] += jitter(epsilon);
  }
  return k;
}
"#;

#[test]
fn documented_function_extracts_full_doc() {
    let sigs = extract_signatures(RBF_COV_PACKAGE);
    let rbf_cov = sigs.iter().find(|s| s.name == "rbf_cov").unwrap();

    assert_eq!(rbf_cov.return_type, "matrix");
    assert_eq!(
        rbf_cov.params,
        vec![
            ("x".to_string(), "vector".to_string()),
            ("alpha".to_string(), "real".to_string()),
            ("rho".to_string(), "real".to_string()),
        ]
    );

    let doc = rbf_cov.doc.as_ref().expect("rbf_cov should have a doc");
    assert_eq!(
        doc.brief.as_deref(),
        Some("Squared exponential (RBF) covariance matrix.")
    );
    assert_eq!(
        doc.params,
        vec![
            ("x".to_string(), "Vector of input locations.".to_string()),
            (
                "alpha".to_string(),
                "Marginal standard deviation of the GP.".to_string()
            ),
            ("rho".to_string(), "Length-scale of the GP.".to_string()),
        ]
    );
    assert_eq!(
        doc.return_doc.as_deref(),
        Some("An N x N positive semi-definite covariance matrix.")
    );
    assert_eq!(doc.example.as_deref(), Some("rbf_cov(x, 1.0, 0.5)"));
}

#[test]
fn undocumented_function_still_extracts_signature() {
    let sigs = extract_signatures(RBF_COV_PACKAGE);
    let jitter = sigs.iter().find(|s| s.name == "jitter").unwrap();

    assert_eq!(jitter.return_type, "real");
    assert_eq!(jitter.params, vec![("epsilon".to_string(), "real".to_string())]);
    assert_eq!(jitter.doc, None);
}

#[test]
fn plain_comment_above_function_is_not_treated_as_doc() {
    // `jitter` is preceded by a `//` comment that doesn't start with
    // `@laplace` -- it must not be picked up as documentation.
    let sigs = extract_signatures(RBF_COV_PACKAGE);
    let jitter = sigs.iter().find(|s| s.name == "jitter").unwrap();
    assert!(jitter.doc.is_none());
}

#[test]
fn extracts_every_top_level_function_in_order() {
    let sigs = extract_signatures(RBF_COV_PACKAGE);
    let names: Vec<&str> = sigs.iter().map(|s| s.name.as_str()).collect();
    assert_eq!(names, vec!["rbf_cov", "jitter", "rbf_cov_jittered"]);
}

#[test]
fn braces_inside_string_literals_do_not_confuse_body_matching() {
    let source = r#"
real noisy(real x) {
  print("debug: { not a real brace }");
  return x;
}

real after(real y) {
  return y;
}
"#;
    let sigs = extract_signatures(source);
    let names: Vec<&str> = sigs.iter().map(|s| s.name.as_str()).collect();
    assert_eq!(names, vec!["noisy", "after"]);
}

#[test]
fn braces_inside_line_comments_do_not_confuse_body_matching() {
    let source = r#"
real noisy(real x) {
  // unmatched brace in a comment: {
  return x;
}

real after(real y) {
  return y;
}
"#;
    let sigs = extract_signatures(source);
    let names: Vec<&str> = sigs.iter().map(|s| s.name.as_str()).collect();
    assert_eq!(names, vec!["noisy", "after"]);
}

#[test]
fn array_typed_params_split_correctly_on_top_level_commas() {
    let source = r#"
// @laplace
// @brief Sum an array of reals.
// @param xs Values to sum.
// @return The sum.
real array_sum(array[N] real xs) {
  return sum(xs);
}
"#;
    let sigs = extract_signatures(source);
    assert_eq!(sigs.len(), 1);
    assert_eq!(
        sigs[0].params,
        vec![("xs".to_string(), "array[N] real".to_string())]
    );
}

#[test]
fn multiple_params_with_array_dimensions_are_not_split_on_inner_commas() {
    let source = r#"
matrix combine(array[N, M] real xs, matrix[N, N] k) {
  return k;
}
"#;
    let sigs = extract_signatures(source);
    assert_eq!(
        sigs[0].params,
        vec![
            ("xs".to_string(), "array[N, M] real".to_string()),
            ("k".to_string(), "matrix[N, N]".to_string()),
        ]
    );
}

#[test]
fn blank_line_between_comment_and_function_means_no_doc() {
    let source = r#"
// @laplace
// @brief This comment is not attached, there's a blank line below.

real detached(real x) {
  return x;
}
"#;
    let sigs = extract_signatures(source);
    assert_eq!(sigs[0].doc, None);
}

#[test]
fn multiline_tag_descriptions_are_joined() {
    let source = r#"
// @laplace
// @brief A brief that
// wraps onto a second line.
// @param x The input,
//   continued on another line.
// @return Nothing interesting.
real wrapped(real x) {
  return x;
}
"#;
    let sigs = extract_signatures(source);
    let doc = sigs[0].doc.as_ref().unwrap();
    assert_eq!(
        doc.brief.as_deref(),
        Some("A brief that wraps onto a second line.")
    );
    assert_eq!(
        doc.params,
        vec![("x".to_string(), "The input, continued on another line.".to_string())]
    );
}

#[test]
fn empty_source_yields_no_signatures() {
    assert_eq!(extract_signatures(""), vec![]);
}

#[test]
fn zero_argument_function() {
    let source = "real constant_one() {\n  return 1;\n}\n";
    let sigs = extract_signatures(source);
    assert_eq!(sigs.len(), 1);
    assert_eq!(sigs[0].name, "constant_one");
    assert!(sigs[0].params.is_empty());
}

#[test]
fn headers_may_span_lines() {
    let sigs = extract_signatures("array[] real\n  f(real x,\n    int n) {\n}\n");
    assert_eq!(sigs.len(), 1);
    assert_eq!(sigs[0].return_type, "array[] real");
    assert_eq!(
        sigs[0].params,
        vec![("x".to_string(), "real".to_string()), ("n".to_string(), "int".to_string())]
    );
}

#[test]
fn what_is_no_header_is_skipped() {
    let sigs = extract_signatures("data {\n}\nf(real x) {\n}\nreal 1f(real x) {\n}\n\
                                   real g(real x) tail {\n}\nreal h(real x {\n}\nreal k(x) {\n}\n");
    assert_eq!(sigs.len(), 1);
    assert_eq!(sigs[0].name, "k");
    assert!(sigs[0].params.is_empty());
}

#[test]
fn an_unclosed_body_ends_the_scan() {
    let sigs = extract_signatures("real f(real x) {\n}\nreal g(real x) {\n");
    assert_eq!(sigs.len(), 1);
}

#[test]
fn formulas_and_examples_keep_their_lines() {
    let source = "// @laplace\n//@math a\n//\n//   b\n// @example c\n//  d\n// @brief\n// e\n\
                  // f\n// @param x\n// @return\n//   g\nreal f(real x) {\n}\n";
    let sigs = extract_signatures(source);
    let doc = sigs[0].doc.as_ref().unwrap();
    assert_eq!(doc.math.as_deref(), Some("a\nb"));
    assert_eq!(doc.example.as_deref(), Some("c\nd"));
    assert_eq!(doc.brief.as_deref(), Some("e f"));
    assert_eq!(doc.params, vec![("x".to_string(), String::new())]);
    assert_eq!(doc.return_doc.as_deref(), Some("g"));
    assert_eq!(sigs.clone(), sigs);
}

#[test]
fn joined_sources_have_the_functions_of_both() {
    let sources = [
        "",
        " \n\t",
        "real f(real x) { return x; }",
        "// @laplace\n// @brief B.\nreal g(real x) { if (x > 0) { return 1; } return x; }\n  \n",
        "data { int n; }\nreal h(real x) { print(\"}\"); } ",
    ];
    for a in sources {
        for b in [RBF_COV_PACKAGE, "real k(real x) {", "// @laplace\nreal m() {}", "x"] {
            let mut expected = extract_signatures(a);
            expected.extend(extract_signatures(b));
            assert_eq!(extract_signatures(&format!("{a}\n{b}")), expected);
        }
    }
}
