use std::path::Path;

use laplace::cli::init_report;
use laplace::init::{guess_package_name, init, InitError};
use laplace::manifest::{read_package_stan_source, stan_files};

const DOCUMENTED_AND_UNDOCUMENTED: &str = r#"
// @laplace
// @brief Squared exponential (RBF) covariance matrix.
// @param x Vector of input locations.
matrix rbf_cov(vector x, real alpha, real rho) {
  return gp_exp_quad_cov(x, alpha, rho);
}

// Not a laplace doc comment, just a maintainer note.
real jitter(real epsilon) {
  return epsilon;
}
"#;

fn package_source(files: &[(&str, &str)]) -> String {
    let names: Vec<String> = files.iter().map(|(name, _)| name.to_string()).collect();
    let texts: Vec<String> = stan_files(&names)
        .iter()
        .map(|name| files.iter().find(|(n, _)| n == name).unwrap().1.to_string())
        .collect();
    read_package_stan_source(&texts)
}

#[test]
fn generates_manifest_with_documented_exports_only() {
    let source = package_source(&[("gps.stan", DOCUMENTED_AND_UNDOCUMENTED)]);
    let (summary, manifest) =
        init(Some("gps"), "/work/gps/laplace.toml", false, Ok(source)).unwrap();
    assert_eq!(summary.name, "gps");
    assert_eq!(summary.included, vec!["rbf_cov".to_string()]);
    assert_eq!(summary.excluded, vec!["jitter".to_string()]);

    assert_eq!(manifest.name, "gps");
    assert_eq!(manifest.version, "0.1.0");
    assert_eq!(manifest.exports, vec!["rbf_cov".to_string()]);
}

#[test]
fn errors_instead_of_overwriting_an_existing_manifest() {
    let err = init(Some("gps"), "/work/gps/laplace.toml", true, Ok(String::new())).unwrap_err();
    assert!(matches!(err, InitError::AlreadyExists(_)));
    assert_eq!(
        err.message(),
        "/work/gps/laplace.toml already exists -- remove it first if you want to regenerate it"
    );
}

#[test]
fn no_stan_files_yields_an_empty_manifest() {
    let source = package_source(&[]);
    let (summary, manifest) =
        init(Some("empty-pkg"), "/work/empty-pkg/laplace.toml", false, Ok(source)).unwrap();
    assert!(summary.included.is_empty());
    assert!(summary.excluded.is_empty());
    assert!(manifest.exports.is_empty());
}

#[test]
fn multiple_stan_files_are_scanned_together_in_filename_order() {
    let source = package_source(&[
        (
            "b_second.stan",
            "// @laplace\n// @brief Second.\nreal second_fn(real x) {\n  return x;\n}\n",
        ),
        ("notes.txt", "real third_fn(real x) {\n  return x;\n}\n"),
        (
            "a_first.stan",
            "// @laplace\n// @brief First.\nreal first_fn(real x) {\n  return x;\n}\n",
        ),
    ]);
    let (summary, _) = init(Some("gps"), "/work/gps/laplace.toml", false, Ok(source)).unwrap();
    assert_eq!(
        summary.included,
        vec!["first_fn".to_string(), "second_fn".to_string()]
    );
}

#[test]
fn an_unreadable_directory_is_an_error() {
    let err = init(Some("gps"), "/work/gps/laplace.toml", false, Err("denied".to_string()))
        .unwrap_err();
    assert_eq!(err, InitError::Io { reason: "denied".to_string() });
    assert_eq!(err.message(), "denied");
}

#[test]
fn package_name_is_that_of_the_directory() {
    let guess = |dir: &str| {
        guess_package_name(Path::new(dir).file_name().and_then(|name| name.to_str()))
    };
    assert_eq!(guess("/home/me/gps"), "gps");
    assert_eq!(guess("/home/me/gps/"), "gps");
    assert_eq!(guess("/"), "package");
    assert_eq!(guess(".."), "package");
    assert_eq!(guess_package_name(Some("a\\b")), "a\\b");
    assert_eq!(guess_package_name(None), "package");
}

#[test]
fn only_stan_files_are_the_source() {
    let names: Vec<String> = ["z.stan", ".stan", "a.STAN", "stan", "b.stan", "b.stan.bak"]
        .iter()
        .map(|n| n.to_string())
        .collect();
    assert_eq!(stan_files(&names), vec!["b.stan", "z.stan"]);
    assert_eq!(
        read_package_stan_source(&vec!["one\n".to_string(), "two".to_string()]),
        "one\n\ntwo\n"
    );
}

#[test]
fn report_lists_what_was_included_and_left_out() {
    let (summary, _) = init(
        Some("mypkg"),
        "/work/mypkg/laplace.toml",
        false,
        Ok("// @laplace\nreal add_one(real x) {\n}\nreal helper(real x) {\n}\n".to_string()),
    )
    .unwrap();
    assert_eq!(
        init_report(&summary),
        "wrote laplace.toml for `mypkg`\nincluded 1 exported function: add_one\n\
         note: 1 undocumented function left out of exports (add manually if this guess is wrong): \
         helper\n"
    );

    let (empty, _) = init(Some("p"), "/work/p/laplace.toml", false, Ok(String::new())).unwrap();
    assert_eq!(
        init_report(&empty),
        "wrote laplace.toml for `p`\n\
         no @laplace-documented functions found -- exports is empty, add entries by hand\n"
    );
}
