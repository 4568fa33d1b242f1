use std::path::{Path, PathBuf};

use laplace::cli::{
    add_report, build, build_report, check_add_flags, check_output, continue_build,
    default_cache_root, default_output_path, in_lock_order, install_dir, install_report,
    laplace_home, load_installed_package, locate_import, not_installed, parse_doc_spec,
    parse_package_spec, pluralize, registry_root, update_report, BuildStep, PackageRead,
};
use laplace::codegen::{generate, generate_with_package_lines, InstalledPackage};
use laplace::manifest::{read_package_stan_source, PackageManifest};
use laplace::parser::library_block::{parse_library_block, ImportStatement};
use laplace::resolve::lockfile::{LockedPackage, Lockfile};
use laplace::validate::{validate, StancOutcome};

const GPS_STAN: &str = r#"// @laplace
// @brief Squared exponential covariance matrix.
matrix rbf_cov(vector x, real alpha, real rho) {
  return gp_exp_quad_cov(x, alpha, rho);
}
"#;

const MODEL_LAPLACE: &str = r#"library {
  import gps
}

data {
  int<lower=1> N;
  vector[N] x;
}

parameters {
  real<lower=0> alpha;
  real<lower=0> rho;
}

model {
  matrix[N, N] K = gps::rbf_cov(x, alpha, rho);
  x ~ multi_normal(rep_vector(0, N), K);
}
"#;

fn pin(name: &str, version: &str) -> LockedPackage {
    LockedPackage {
        name: name.to_string(),
        version: version.to_string(),
        checksum: "sha256:whatever".to_string(),
        source: "registry".to_string(),
    }
}

fn load(name: &str, exports: &[&str], stan: &str) -> InstalledPackage {
    let manifest = PackageManifest {
        name: name.to_string(),
        version: "1.0.0".to_string(),
        exports: exports.iter().map(|e| e.to_string()).collect(),
    };
    load_installed_package(name, manifest, read_package_stan_source(&vec![stan.to_string()]))
}

fn read(name: &str, exports: &[&str], stan: &str) -> PackageRead {
    PackageRead::Read {
        manifest: PackageManifest {
            name: name.to_string(),
            version: "1.0.0".to_string(),
            exports: exports.iter().map(|e| e.to_string()).collect(),
        },
        source: read_package_stan_source(&vec![stan.to_string()]),
    }
}

#[test]
fn parses_bare_and_pinned_package_specs() {
    let (name, version) = parse_package_spec("gps");
    assert_eq!((name.as_str(), version.as_deref()), ("gps", None));
    let (name, version) = parse_package_spec("gps@1.0.0");
    assert_eq!(
        (name.as_str(), version.as_deref()),
        ("gps", Some("1.0.0"))
    );
}

/// Where the output for the file at `path` goes, as a path.
fn output_of(path: &str) -> PathBuf {
    let stem = Path::new(path).file_stem().and_then(|stem| stem.to_str());
    default_output_path(stem).iter().collect()
}

#[test]
fn default_output_path_uses_the_input_file_stem() {
    assert_eq!(output_of("model.laplace"), PathBuf::from("build/model.stan"));
    assert_eq!(output_of("models/gp.laplace"), PathBuf::from("build/gp.stan"));
}

#[test]
fn output_paths_of_unusual_files() {
    assert_eq!(output_of("a.b.laplace"), PathBuf::from("build/a.b.stan"));
    assert_eq!(output_of(".laplace"), PathBuf::from("build/.laplace.stan"));
    assert_eq!(output_of("model"), PathBuf::from("build/model.stan"));
    assert_eq!(output_of("dir/gp.laplace/."), PathBuf::from("build/gp.stan"));
    assert_eq!(output_of(".."), PathBuf::from("build/model.stan"));
    assert_eq!(output_of("dir/"), PathBuf::from("build/dir.stan"));
    assert_eq!(default_output_path(Some("a\\b")), vec!["build", "a\\b.stan"]);
    assert_eq!(default_output_path(None), vec!["build", "model.stan"]);
}

#[test]
fn pluralize_picks_singular_only_for_exactly_one() {
    assert_eq!(pluralize(0, "line", "lines"), "lines");
    assert_eq!(pluralize(1, "line", "lines"), "line");
    assert_eq!(pluralize(2, "line", "lines"), "lines");
}

#[test]
fn doc_specs_split_at_the_first_double_colon() {
    assert_eq!(
        parse_doc_spec("gps::rbf_cov"),
        Ok(("gps".to_string(), "rbf_cov".to_string()))
    );
    assert_eq!(parse_doc_spec("a::b::c"), Ok(("a".to_string(), "b::c".to_string())));
    assert_eq!(
        parse_doc_spec("not-a-valid-spec"),
        Err("expected `<package>::<function>`, got `not-a-valid-spec`".to_string())
    );
    assert!(parse_doc_spec("a:").is_err());
}

#[test]
fn tag_and_rev_need_git() {
    assert_eq!(check_add_flags(false, false, false), Ok(()));
    assert_eq!(check_add_flags(true, true, false), Ok(()));
    for (tag, rev) in [(true, false), (false, true), (true, true)] {
        assert_eq!(
            check_add_flags(false, tag, rev),
            Err("--tag/--rev only apply together with --git".to_string())
        );
    }
}

#[test]
fn places_are_below_the_home_directory() {
    assert_eq!(laplace_home(), ".laplace");
    assert_eq!(default_cache_root(), vec![".laplace", "packages"]);
    assert_eq!(registry_root(false).unwrap(), vec![".laplace", "registry"]);
    assert_eq!(registry_root(true), None);
    assert_eq!(install_dir(&pin("gps", "1.0.0")), vec!["gps", "1.0.0"]);
    assert_eq!(install_dir(&pin("/abs", "1.0.0")), vec!["/abs", "1.0.0"]);
}

#[test]
fn build_without_installing_first_fails_with_instructions() {
    let import = ImportStatement { name: "gps".to_string(), version: None };
    assert_eq!(
        locate_import(&Lockfile::default(), &import).unwrap_err(),
        "`gps` is imported but not recorded in laplace.lock -- run `laplace add gps` first"
    );
    let lock = Lockfile { packages: vec![pin("gps", "1.0.0")] };
    let locked = locate_import(&lock, &import).unwrap();
    assert_eq!(
        not_installed(&locked),
        "`gps@1.0.0` is in laplace.lock but not installed -- run `laplace install` first"
    );
}

#[test]
fn add_install_build_end_to_end() {
    let lock = Lockfile { packages: vec![pin("gps", "1.0.0")] };
    assert_eq!(add_report(&lock.packages[0], false), "added gps@1.0.0");
    assert_eq!(install_report(lock.packages.len()), "installed 1 package");

    let block = parse_library_block(MODEL_LAPLACE).unwrap();
    let installed = in_lock_order(&lock, &vec![load("gps", &["rbf_cov"], GPS_STAN)]);
    let compiled = generate(MODEL_LAPLACE, block.as_ref(), &installed).unwrap();
    assert!(!compiled.contains("library"));
    assert!(!compiled.contains("gps::rbf_cov"));
    assert!(compiled.contains("gps__rbf_cov"));
    assert!(build_report("build/model.stan", &compiled, 1).contains("1 dependency"));

    assert_eq!(
        check_output("build/model.stan", &compiled, &compiled),
        Ok("build/model.stan is up to date".to_string())
    );
    assert_eq!(
        check_output("build/model.stan", "stale\n", &compiled),
        Err("build/model.stan is out of date with `laplace build` (run without --check to update \
             it)"
            .to_string())
    );
}

#[test]
fn quick_start_builds_as_shown() {
    let stan = "// @laplace\n// @brief Doubles a real value.\n// @param x The value to double.\n\
                // @return 2 * x.\n// @example mathutils::double(3.0)\nreal double(real x) {\n\
                \x20 return 2 * x;\n}\n";
    let model = "library {\n  import mathutils\n}\n\ndata {\n  real x;\n}\n\n\
                 transformed data {\n  real y = mathutils::double(x);\n}\n";
    let block = parse_library_block(model).unwrap();
    let installed = [load("mathutils", &["double"], stan)];
    let output = generate(model, block.as_ref(), &installed).unwrap();
    assert_eq!(
        output,
        "functions {\n// @laplace\n// @brief Doubles a real value.\n\
         // @param x The value to double.\n// @return 2 * x.\n\
         // @example mathutils::double(3.0)\nreal mathutils__double(real x) {\n\
         \x20 return 2 * x;\n}\n\n\n}\n\n\ndata {\n  real x;\n}\n\ntransformed data {\n\
         \x20 real y = mathutils__double(x);\n}\n"
    );
    assert_eq!(
        build_report("build/model.stan", &output, 1),
        "wrote build/model.stan (21 lines, 1 dependency)"
    );
}

#[test]
fn reports_count_what_was_done() {
    assert_eq!(build_report("o", "", 0), "wrote o (0 lines, 0 dependencies)");
    assert_eq!(build_report("o", "one\n", 2), "wrote o (1 line, 2 dependencies)");
    assert_eq!(install_report(0), "installed 0 packages");
    assert_eq!(add_report(&pin("gps", "1.0.0"), true), "added gps@1.0.0 (git)");
    assert_eq!(update_report(&pin("gps", "1.1.0")), "updated gps to 1.1.0");
}

#[test]
fn packages_are_built_in_lockfile_order_each_once() {
    let lock = Lockfile { packages: vec![pin("alpha", "1"), pin("beta", "1"), pin("alpha", "2")] };
    let alpha = || load("alpha", &[], "real a(real x) {\n}\n");
    let beta = || load("beta", &[], "real b(real x) {\n}\n");
    let stray = || load("stray", &[], "");
    let names = |loaded: Vec<InstalledPackage>| {
        in_lock_order(&lock, &loaded).into_iter().map(|p| p.name).collect::<Vec<_>>()
    };
    assert_eq!(names(vec![beta(), alpha(), beta()]), vec!["alpha", "beta"]);
    assert_eq!(names(vec![alpha(), beta()]), vec!["alpha", "beta"]);
    assert_eq!(names(vec![beta(), stray()]), vec!["beta"]);
}

#[test]
fn build_validate_reports_stanc_errors_annotated_with_the_culprit_package() {
    let block = parse_library_block(MODEL_LAPLACE).unwrap();
    let installed = [load("gps", &["rbf_cov"], GPS_STAN)];
    let generated =
        generate_with_package_lines(MODEL_LAPLACE, block.as_ref(), &installed).unwrap();
    let gps_line = generated
        .source
        .lines()
        .position(|l| l.contains("gps__rbf_cov"))
        .unwrap()
        + 1;

    let failed = StancOutcome::Ended {
        success: false,
        stdout: String::new(),
        stderr: format!("Semantic error at 'model.stan', line {gps_line}, column 1"),
    };
    let err = validate("stanc", "build/model.stan", failed, &generated).unwrap_err().message();
    assert!(err.contains("came from package `gps`"), "{err}");
    assert!(err.contains("Semantic error"), "{err}");

    let passed = StancOutcome::Ended {
        success: true,
        stdout: String::new(),
        stderr: "warning".to_string(),
    };
    assert_eq!(validate("stanc", "build/model.stan", passed, &generated), Ok(()));
}

#[test]
fn build_output_is_byte_identical_across_runs() {
    let lock = Lockfile { packages: vec![pin("gps", "1.0.0")] };
    let reads = vec![read("gps", &["rbf_cov"], GPS_STAN)];
    let first = build(MODEL_LAPLACE, &lock, &reads).unwrap();
    let second = build(MODEL_LAPLACE, &lock, &reads).unwrap();
    assert_eq!(first.source, second.source);
    assert!(first.source.contains("gps__rbf_cov(x, alpha, rho);"));
    assert_eq!(first.package_line_ranges.len(), 1);
}

#[test]
fn calling_a_non_exported_function_fails_the_build() {
    let lock = Lockfile { packages: vec![pin("gps", "1.0.0")] };
    let source = "library {\n  import gps\n}\nmodel {\n  real y = gps::secret(1.0);\n}\n";
    let message = build(source, &lock, &vec![read("gps", &["rbf_cov"], GPS_STAN)]).unwrap_err();
    assert!(message.contains("secret"), "{message}");
}

#[test]
fn build_with_no_library_block_is_a_pure_passthrough() {
    let source = "data {\n  int n;\n}\nmodel {\n}\n";
    let lock = Lockfile { packages: vec![pin("gps", "1.0.0")] };
    let built = build(source, &lock, &Vec::new()).unwrap();
    assert_eq!(built.source, source);
    assert!(built.package_line_ranges.is_empty());
    assert!(build_report("build/model.stan", &built.source, 0).contains("0 dependencies"));
}

#[test]
fn a_build_fails_at_the_first_import_that_cannot_be_loaded() {
    let source = "library { import a; import b }\n";
    let lock = |names: &[&str]| Lockfile {
        packages: names.iter().map(|n| pin(n, "1.0.0")).collect(),
    };
    let a = || read("a", &["f"], "real f(real x) { return x; }\n");
    let failed = || PackageRead::Failed { reason: "unreadable".to_string() };
    let message = |names: &[&str], reads: Vec<PackageRead>| {
        build(source, &lock(names), &reads).unwrap_err()
    };
    assert_eq!(
        message(&["b"], vec![PackageRead::NotInstalled, failed()]),
        "`a` is imported but not recorded in laplace.lock -- run `laplace add a` first"
    );
    assert_eq!(
        message(&["a"], vec![PackageRead::NotInstalled, PackageRead::NotInstalled]),
        "`a@1.0.0` is in laplace.lock but not installed -- run `laplace install` first"
    );
    assert_eq!(
        message(&["a"], vec![a(), PackageRead::NotInstalled]),
        "`b` is imported but not recorded in laplace.lock -- run `laplace add b` first"
    );
    assert_eq!(message(&["a", "b"], vec![a(), failed()]), "unreadable");
    assert_eq!(
        build("library { import a", &lock(&["a"]), &Vec::new()).unwrap_err(),
        "`library {` block opened at byte 0 is never closed with a matching `}`"
    );
}

#[test]
fn import_order_and_repetition_do_not_change_a_build() {
    let lock = Lockfile { packages: vec![pin("a", "1.0.0"), pin("b", "1.0.0")] };
    let a = || read("a", &["f"], "real f(real x) { return x; }\n");
    let b = || read("b", &["g"], "real g(real x) { return x; }\n");
    let one = build("library { import a; import b }\n", &lock, &vec![a(), b()]).unwrap();
    let other = build("library { import b; import a }\n", &lock, &vec![b(), a()]).unwrap();
    let again = build("library { import b; import a; import b }\n", &lock, &vec![b(), a(), b()]);
    let expected = "functions {\nreal a__f(real x) { return x; }\n\n\n\
                    real b__g(real x) { return x; }\n\n\n}\n\n";
    assert_eq!(one.source, expected);
    assert_eq!(other.source, expected);
    assert_eq!(again.unwrap().source, expected);
}

#[test]
fn a_build_takes_its_steps_in_order() {
    let steps = |check: bool, validate: bool| {
        let mut taken = Vec::new();
        let mut step = BuildStep::Compile;
        while step != BuildStep::Done {
            taken.push(step);
            step = continue_build(check, validate, step, true).unwrap();
        }
        taken
    };
    assert_steps(&steps(false, false), &[BuildStep::Compile, BuildStep::Write]);
    assert_steps(&steps(false, true), &[BuildStep::Compile, BuildStep::Write, BuildStep::RunStanc]);
    assert_steps(&steps(true, false), &[BuildStep::Compile, BuildStep::Compare]);
    assert_steps(&steps(true, true), &[BuildStep::Compile, BuildStep::Compare]);
    for step in [BuildStep::Compile, BuildStep::Compare, BuildStep::Write, BuildStep::RunStanc] {
        assert_eq!(continue_build(false, true, step, false), None);
    }
}

fn assert_steps(taken: &[BuildStep], expected: &[BuildStep]) {
    assert_eq!(taken, expected);
}
