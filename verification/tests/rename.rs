use laplace::codegen::rename::{
    find_qualified_calls, mangle, rename_all_calls, rename_identifier_calls, QualifiedCall,
};

#[test]
fn mangle_joins_with_double_underscore() {
    assert_eq!(mangle("gps", "rbf_cov"), "gps__rbf_cov");
}

#[test]
fn renames_definition_and_internal_call_site() {
    let source = "matrix rbf_cov(vector x) {\n  return rbf_cov(x);\n}\n";
    let renamed = rename_identifier_calls(source, "rbf_cov", "gps__rbf_cov");
    assert_eq!(
        renamed,
        "matrix gps__rbf_cov(vector x) {\n  return gps__rbf_cov(x);\n}\n"
    );
}

#[test]
fn does_not_rename_substring_matches() {
    let source = "real rbf_cov_jittered(real x) {\n  return rbf_cov_jittered_helper(x);\n}\n";
    let renamed = rename_identifier_calls(source, "rbf_cov", "gps__rbf_cov");
    assert_eq!(renamed, source);
}

#[test]
fn does_not_rename_without_trailing_paren() {
    let source = "real x = rbf_cov + 1;\n";
    let renamed = rename_identifier_calls(source, "rbf_cov", "gps__rbf_cov");
    assert_eq!(renamed, source);
}

#[test]
fn ignores_occurrences_in_comments_and_strings() {
    let source = "// calls rbf_cov(x) in a comment\nreal y = 1; // print(\"rbf_cov(x)\")\n";
    let renamed = rename_identifier_calls(source, "rbf_cov", "gps__rbf_cov");
    assert_eq!(renamed, source);
}

#[test]
fn find_qualified_calls_extracts_package_and_func() {
    let source = "matrix K = gps::rbf_cov(x, alpha, rho);\n";
    let calls = find_qualified_calls(source);
    assert_eq!(
        calls,
        vec![QualifiedCall {
            package: "gps".to_string(),
            func: "rbf_cov".to_string(),
            range: 11..23,
        }]
    );
    assert_eq!(&source[calls[0].range.clone()], "gps::rbf_cov");
}

#[test]
fn find_qualified_calls_ignores_non_call_double_colons() {
    // No trailing `(` -- not a call, shouldn't match.
    let source = "gps::rbf_cov;\n";
    assert_eq!(find_qualified_calls(source), vec![]);
}

#[test]
fn find_qualified_calls_ignores_comments_and_strings() {
    let source = "// gps::rbf_cov(x)\nreal y = 1; // \"gps::rbf_cov(x)\"\n";
    assert_eq!(find_qualified_calls(source), vec![]);
}

#[test]
fn find_qualified_calls_finds_multiple_in_order() {
    let source = "gps::rbf_cov(x); splines::basis(x);\n";
    let calls = find_qualified_calls(source);
    assert_eq!(calls.len(), 2);
    assert_eq!(calls[0].package, "gps");
    assert_eq!(calls[1].package, "splines");
}

#[test]
fn renaming_looks_over_white_space_before_the_parenthesis() {
    assert_eq!(rename_identifier_calls("f (x) + f\n\t(y) + f + g(f)", "f", "p__f"),
        "p__f (x) + p__f\n\t(y) + f + g(f)");
    assert_eq!(rename_identifier_calls("f(x)", "", "p"), "f(x)");
    assert_eq!(rename_identifier_calls("f(x)", "f", "f"), "f(x)");
}

#[test]
fn renaming_knows_escaped_quotes() {
    assert_eq!(
        rename_identifier_calls(r#"print("\"f(1)"); f(2) / f(3) // f(4)"#, "f", "g"),
        r#"print("\"f(1)"); g(2) / g(3) // f(4)"#
    );
}

#[test]
fn call_ranges_are_in_bytes() {
    let source = "\u{3b1}\u{1f600} gps::rbf_cov (x) a::b";
    let calls = find_qualified_calls(source);
    assert_eq!(calls.len(), 1);
    assert_eq!(calls[0].range, 7..19);
    assert_eq!(&source[calls[0].range.clone()], "gps::rbf_cov");
    assert_eq!(calls.clone(), calls);
}

#[test]
fn chained_colons_name_the_last_two() {
    let calls = find_qualified_calls("a::b::c(1) ::d(2) e::(3)");
    assert_eq!(
        calls,
        vec![QualifiedCall { package: "b".to_string(), func: "c".to_string(), range: 3..7 }]
    );
}

#[test]
fn several_names_are_replaced_in_one_pass() {
    let texts = |v: &[&str]| v.iter().map(|t| t.to_string()).collect::<Vec<String>>();
    assert_eq!(
        rename_all_calls("f(g(1)) + h(2)", &texts(&["f", "g"]), &texts(&["g", "f"])),
        "g(f(1)) + h(2)"
    );
    assert_eq!(
        rename_all_calls("f(1) // g(2)\n\"f(\" g (3)", &texts(&["f", "g"]), &texts(&["aa", "b"])),
        "aa(1) // g(2)\n\"f(\" b (3)"
    );
    assert_eq!(rename_all_calls("f(1)", &texts(&[""]), &texts(&["x"])), "f(1)");
    assert_eq!(rename_all_calls("f(1)", &Vec::new(), &Vec::new()), "f(1)");
}

#[test]
fn renaming_can_be_undone() {
    let source = "real f(real x) { return f(x) + ff(x); } // f(1)\n\"f(\" f (2)";
    let there = rename_identifier_calls(source, "f", "fresh");
    assert_ne!(there, source);
    assert_eq!(rename_identifier_calls(&there, "fresh", "f"), source);
}

#[test]
fn a_renamed_name_is_not_found_again() {
    let source = "f(1) + g(f (2))";
    let once = rename_identifier_calls(source, "f", "f2");
    assert_eq!(once, "f2(1) + g(f2 (2))");
    assert_eq!(rename_identifier_calls(&once, "f", "other"), once);
}
