use laplace::codegen::{
    generate, generate_with_package_lines, CodegenError, InstalledPackage, PackageLineRange,
};
use laplace::parser::library_block::parse_library_block;
use laplace::parser::signatures::extract_signatures;

const GPS_SOURCE: &str = r#"// @laplace
// @brief Squared exponential (RBF) covariance matrix.
// @param x Vector of input locations.
// @param alpha Marginal standard deviation of the GP.
// @param rho Length-scale of the GP.
// @return An N x N positive semi-definite covariance matrix.
matrix rbf_cov(vector x, real alpha, real rho) {
  return gp_exp_quad_cov(x, alpha, rho);
}
"#;

fn gps_package() -> InstalledPackage {
    InstalledPackage {
        name: "gps".to_string(),
        source: GPS_SOURCE.to_string(),
        signatures: extract_signatures(GPS_SOURCE),
        exported: vec!["rbf_cov".to_string()],
    }
}

#[test]
fn end_to_end_gps_rbf_cov_example_synthesizes_functions_block() {
    let laplace_source = r#"library {
  import gps@1.0.0
}

data {
  int<lower=1> N;
  vector[N] x;
}

parameters {
  real<lower=0> alpha;
  real<lower=0> rho;
}

model {
  matrix[N, N] K = gps::rbf_cov(x, alpha, rho);
  x ~ multi_normal(rep_vector(0, N), K);
}
"#;

    let block = parse_library_block(laplace_source).unwrap();
    let installed = vec![gps_package()];

    let output_1 = generate(laplace_source, block.as_ref(), &installed).unwrap();
    let output_2 = generate(laplace_source, block.as_ref(), &installed).unwrap();
    assert_eq!(output_1, output_2, "codegen must be deterministic");

    assert!(!output_1.contains("library"));
    assert!(!output_1.contains("gps::rbf_cov"));
    assert!(output_1.contains("gps__rbf_cov"));

    // The library block is deleted and replaced by a synthesized
    // `functions { }` block (this .laplace file defines none of its
    // own); everything else is untouched byte-for-byte. Build the
    // expected text from the same byte range the parser reported, so this
    // assertion doesn't depend on hand-counting newlines.
    let byte_range = block.unwrap().byte_range;
    let expected_functions_block = format!(
        "functions {{\n{}\n}}\n",
        GPS_SOURCE.replace("rbf_cov", "gps__rbf_cov")
    );
    let expected_tail = format!(
        "{}{}",
        &laplace_source[..byte_range.start],
        &laplace_source[byte_range.end..]
    )
    .replace("gps::rbf_cov", "gps__rbf_cov");
    assert_eq!(output_1, format!("{expected_functions_block}{expected_tail}"));
}

#[test]
fn prepends_into_an_existing_functions_block_in_installed_order() {
    let laplace_source = r#"library {
  import beta
  import alpha
}

functions {
  real user_fn(real x) {
    return x;
  }
}

model {
}
"#;

    let alpha = InstalledPackage {
        name: "alpha".to_string(),
        source: "real a_fn(real x) {\n  return x;\n}\n".to_string(),
        signatures: extract_signatures("real a_fn(real x) {\n  return x;\n}\n"),
        exported: vec!["a_fn".to_string()],
    };
    let beta = InstalledPackage {
        name: "beta".to_string(),
        source: "real b_fn(real x) {\n  return x;\n}\n".to_string(),
        signatures: extract_signatures("real b_fn(real x) {\n  return x;\n}\n"),
        exported: vec!["b_fn".to_string()],
    };

    // `installed` is given in lockfile (alphabetical) order: alpha, beta
    // -- even though the library block imports beta first.
    let block = parse_library_block(laplace_source).unwrap();
    let output = generate(laplace_source, block.as_ref(), &[alpha, beta]).unwrap();

    let alpha_pos = output.find("alpha__a_fn").unwrap();
    let beta_pos = output.find("beta__b_fn").unwrap();
    let user_pos = output.find("user_fn").unwrap();
    assert!(
        alpha_pos < beta_pos && beta_pos < user_pos,
        "expected alpha before beta before the user's own function, got:\n{output}"
    );
}

#[test]
fn no_library_block_and_no_imports_is_a_pure_passthrough() {
    let source = "data {\n  int n;\n}\nmodel {\n}\n";
    let output = generate(source, None, &[]).unwrap();
    assert_eq!(output, source);
}

#[test]
fn empty_library_block_just_gets_deleted() {
    let source = "library {}\ndata {\n  int n;\n}\n";
    let block = parse_library_block(source).unwrap();
    let output = generate(source, block.as_ref(), &[]).unwrap();
    assert_eq!(output, "\ndata {\n  int n;\n}\n");
}

#[test]
fn missing_import_is_an_error() {
    let source = "library {\n  import gps\n}\n";
    let block = parse_library_block(source).unwrap();
    let err = generate(source, block.as_ref(), &[]).unwrap_err();
    assert_eq!(
        err,
        CodegenError::MissingImport {
            package: "gps".to_string()
        }
    );
}

#[test]
fn calling_a_non_exported_function_is_an_error() {
    let source = r#"library {
  import gps
}
model {
  real y = gps::secret_helper(1.0);
}
"#;
    let block = parse_library_block(source).unwrap();
    let err = generate(source, block.as_ref(), &[gps_package()]).unwrap_err();
    assert_eq!(
        err,
        CodegenError::FunctionNotExported {
            package: "gps".to_string(),
            func: "secret_helper".to_string(),
        }
    );
}

#[test]
fn calling_an_unimported_package_is_an_error() {
    let source = "model {\n  real y = gps::rbf_cov(1.0);\n}\n";
    let err = generate(source, None, &[gps_package()]).unwrap_err();
    assert_eq!(
        err,
        CodegenError::UnknownPackageReference {
            package: "gps".to_string(),
            func: "rbf_cov".to_string(),
        }
    );
}

#[test]
fn declared_export_missing_from_source_is_an_error() {
    let pkg = InstalledPackage {
        name: "gps".to_string(),
        source: "real rbf_cov(real x) {\n  return x;\n}\n".to_string(),
        signatures: extract_signatures("real rbf_cov(real x) {\n  return x;\n}\n"),
        exported: vec!["rbf_cov".to_string(), "matern_cov".to_string()],
    };
    let source = "library {\n  import gps\n}\nmodel {\n}\n";
    let block = parse_library_block(source).unwrap();
    let err = generate(source, block.as_ref(), &[pkg]).unwrap_err();
    assert_eq!(
        err,
        CodegenError::ExportedFunctionMissing {
            package: "gps".to_string(),
            func: "matern_cov".to_string(),
        }
    );
}

#[test]
fn duplicate_mangled_name_across_packages_is_an_error() {
    // "a" exporting "b__c" and "a__b" exporting "c" both mangle to
    // "a__b__c" -- a contrived but real collision the sanity check must
    // catch.
    let pkg_a = InstalledPackage {
        name: "a".to_string(),
        source: "real b__c(real x) {\n  return x;\n}\n".to_string(),
        signatures: extract_signatures("real b__c(real x) {\n  return x;\n}\n"),
        exported: vec!["b__c".to_string()],
    };
    let pkg_a_b = InstalledPackage {
        name: "a__b".to_string(),
        source: "real c(real x) {\n  return x;\n}\n".to_string(),
        signatures: extract_signatures("real c(real x) {\n  return x;\n}\n"),
        exported: vec!["c".to_string()],
    };

    let source = "library {\n  import a\n  import a__b\n}\nmodel {\n}\n";
    let block = parse_library_block(source).unwrap();
    let err = generate(source, block.as_ref(), &[pkg_a, pkg_a_b]).unwrap_err();
    assert!(matches!(err, CodegenError::DuplicateMangledName { .. }));
}

#[test]
fn qualified_calls_inside_the_users_functions_block_are_rewritten_too() {
    let source = r#"library {
  import gps
}
functions {
  real wrapper(vector x, real alpha, real rho) {
    return gps::rbf_cov(x, alpha, rho)[1, 1];
  }
}
model {
}
"#;
    let block = parse_library_block(source).unwrap();
    let output = generate(source, block.as_ref(), &[gps_package()]).unwrap();
    assert!(output.contains("return gps__rbf_cov(x, alpha, rho)[1, 1];"));
}

fn package(name: &str, source: &str, exported: &[&str]) -> InstalledPackage {
    InstalledPackage {
        name: name.to_string(),
        source: source.to_string(),
        signatures: extract_signatures(source),
        exported: exported.iter().map(|e| e.to_string()).collect(),
    }
}

#[test]
fn faults_come_in_a_fixed_order() {
    // Not installed, an undefined export, a clash and an unknown call at once.
    let bad = package("b", "real f(real x) {\n}\n", &["g"]);
    let source = "library {\n  import a\n}\nx::y(1)\n";
    let block = parse_library_block(source).unwrap();
    assert!(matches!(
        generate(source, block.as_ref(), &[bad.clone()]),
        Err(CodegenError::MissingImport { .. })
    ));
    let a = package("a", "real f(real x) {\n}\n", &["f"]);
    assert!(matches!(
        generate(source, block.as_ref(), &[a.clone(), bad]),
        Err(CodegenError::ExportedFunctionMissing { .. })
    ));
    assert_eq!(
        generate(source, block.as_ref(), &[a]).unwrap_err(),
        CodegenError::UnknownPackageReference { package: "x".to_string(), func: "y".to_string() }
    );
}

#[test]
fn unimported_packages_are_not_spliced_but_checked() {
    let source = "model {}\n";
    let good = package("a", "real f(real x) {\n}\n", &["f"]);
    assert_eq!(generate(source, None, &[good]).unwrap(), source);
    let bad = package("b", "real f(real x) {\n}\n", &["g"]);
    assert!(generate(source, None, &[bad]).is_err());
}

#[test]
fn lines_are_reported_per_package() {
    let source = "library { import a; import b; import c }\nfunctions {\n}\nmodel {}\n";
    let block = parse_library_block(source).unwrap();
    let installed = [
        package("a", "real f(real x) {\n  return x;\n}\n", &["f"]),
        package("b", "", &[]),
        package("c", "// only a comment", &[]),
    ];
    let generated = generate_with_package_lines(source, block.as_ref(), &installed).unwrap();
    assert_eq!(
        generated.source,
        "\nfunctions {\nreal a__f(real x) {\n  return x;\n}\n\n\n// only a comment\n\n}\nmodel {}\n"
    );
    assert_eq!(
        generated.package_line_ranges,
        vec![
            PackageLineRange { package: "a".to_string(), lines: 3..=5 },
            PackageLineRange { package: "b".to_string(), lines: 7..=6 },
            PackageLineRange { package: "c".to_string(), lines: 8..=8 },
        ]
    );
    let all: Vec<&str> = generated.source.lines().collect();
    assert_eq!(all[2..5].join("\n"), "real a__f(real x) {\n  return x;\n}");
    assert_eq!(all[7], "// only a comment");
}

#[test]
fn text_beyond_ascii_is_kept() {
    let source = "// \u{3b1} \u{1f600}\nlibrary { import g }\nreal k = g::f(1); // \u{3b2}\n";
    let block = parse_library_block(source).unwrap();
    let range = block.as_ref().unwrap().byte_range.start..block.as_ref().unwrap().byte_range.end;
    assert_eq!(&source[range], "library { import g }");
    let g = package("g", "// \u{3b3}\nreal f(real x) { return f (x); }\n", &["f"]);
    assert_eq!(
        generate(source, block.as_ref(), &[g]).unwrap(),
        "functions {\n// \u{3b3}\nreal g__f(real x) { return g__f (x); }\n\n}\n\
         // \u{3b1} \u{1f600}\n\nreal k = g__f(1); // \u{3b2}\n"
    );
}

#[test]
fn calls_inside_the_library_block_are_not_looked_at() {
    let source = "library {\n  // gps::nothing(1)\n}\nmodel {}\n";
    let block = parse_library_block(source).unwrap();
    assert_eq!(generate(source, block.as_ref(), &[]).unwrap(), "\nmodel {}\n");
}

#[test]
fn a_functions_block_in_a_comment_does_not_count() {
    let source = "// functions { }\nlibrary { import g }\n";
    let block = parse_library_block(source).unwrap();
    let g = package("g", "real f(real x) { }", &[]);
    assert_eq!(
        generate(source, block.as_ref(), &[g]).unwrap(),
        "functions {\nreal f(real x) { }\n}\n// functions { }\n\n"
    );
}

#[test]
fn exports_are_renamed_in_sorted_order() {
    let g = package(
        "g",
        "real b(real x) { return a(x); }\nreal a(real x) { return helper(x); }\n",
        &["b", "a"],
    );
    let source = "library { import g }";
    let block = parse_library_block(source).unwrap();
    assert_eq!(
        generate(source, block.as_ref(), &[g]).unwrap(),
        "functions {\nreal g__b(real x) { return g__a(x); }\nreal g__a(real x) { return \
         helper(x); }\n\n}\n"
    );
}

#[test]
fn messages_name_packages_and_functions() {
    let p = || "p".to_string();
    let f = || "f".to_string();
    assert_eq!(
        CodegenError::MissingImport { package: p() }.message(),
        "`library` imports `p`, but no installed package by that name was provided (run `laplace \
         install`?)"
    );
    assert_eq!(
        CodegenError::FunctionNotExported { package: p(), func: f() }.message(),
        "`p::f(` is called, but `f` is not in `p`'s exports"
    );
    assert_eq!(
        CodegenError::UnknownPackageReference { package: p(), func: f() }.message(),
        "`p::f(` is called, but `p` was not imported in the `library { }` block"
    );
    assert_eq!(
        CodegenError::ExportedFunctionMissing { package: p(), func: f() }.message(),
        "package `p` declares export `f`, but no such function was found in its source"
    );
    assert_eq!(
        CodegenError::DuplicateMangledName {
            mangled: "m".to_string(),
            first_package: p(),
            second_package: "q".to_string(),
        }
        .message(),
        "packages `p` and `q` both mangle to `m` -- this should be impossible given the \
         package-name prefix and indicates a naming collision between the two packages"
    );
}

#[test]
fn exports_that_hold_one_anothers_mangled_names_stay_apart() {
    let stan = "real f(real x) { return x; }\nreal z__f(real x) { return x; }\n";
    let installed = [InstalledPackage {
        name: "z".to_string(),
        source: stan.to_string(),
        signatures: extract_signatures(stan),
        exported: vec!["f".to_string(), "z__f".to_string()],
    }];
    let source = "library { import z }\n";
    let block = parse_library_block(source).unwrap();
    assert_eq!(
        generate(source, block.as_ref(), &installed).unwrap(),
        "functions {\nreal z__f(real x) { return x; }\nreal z__z__f(real x) { return x; }\n\n}\n\n"
    );
}

#[test]
fn exports_are_renamed_at_definitions_and_calls_and_nothing_else_is() {
    let stan = "// a(1) and b(2)\nreal a(real x) { return b(x) + ab(x); }\n\
                real b (real x) { print(\"a(\"); return a(x) * c(x); }\n\
                real c(real x) { return a_(x); }\n";
    let installed = [InstalledPackage {
        name: "p".to_string(),
        source: stan.to_string(),
        signatures: extract_signatures(stan),
        exported: vec!["b".to_string(), "a".to_string()],
    }];
    let source = "library { import p }\nmodel { p::a(1); p::b (2); }\n";
    let block = parse_library_block(source).unwrap();
    assert_eq!(
        generate(source, block.as_ref(), &installed).unwrap(),
        "functions {\n// a(1) and b(2)\nreal p__a(real x) { return p__b(x) + ab(x); }\n\
         real p__b (real x) { print(\"a(\"); return p__a(x) * c(x); }\n\
         real c(real x) { return a_(x); }\n\n}\n\nmodel { p__a(1); p__b (2); }\n"
    );
}
