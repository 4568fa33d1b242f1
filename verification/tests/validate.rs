use laplace::codegen::{GeneratedStan, PackageLineRange};
use laplace::validate::{
    annotate_with_packages, extract_line_numbers, validate, StancOutcome, ValidateError,
};

#[test]
fn extract_line_numbers_finds_all_occurrences() {
    let text = "Syntax error in 'model.stan', line 12, column 4\nsomething at line 30 too";
    assert_eq!(extract_line_numbers(text), vec![12, 30]);
}

#[test]
fn extract_line_numbers_ignores_non_numeric_trailing_text() {
    assert_eq!(
        extract_line_numbers("no numbers here, just line noise"),
        Vec::<usize>::new()
    );
}

#[test]
fn annotate_adds_a_note_when_an_error_line_falls_in_a_package_range() {
    let raw = "error: something wrong, line 5, column 1";
    let ranges = vec![PackageLineRange {
        package: "gps".to_string(),
        lines: 3..=7,
    }];
    let annotated = annotate_with_packages(raw, &ranges);
    assert!(annotated.starts_with("note: lines 3-7 of the compiled output came from package `gps`"));
    assert!(annotated.ends_with(raw));
}

#[test]
fn annotate_is_a_no_op_when_no_range_matches() {
    let raw = "error: something wrong, line 100";
    let ranges = vec![PackageLineRange {
        package: "gps".to_string(),
        lines: 3..=7,
    }];
    assert_eq!(annotate_with_packages(raw, &ranges), raw);
}

#[test]
fn annotate_with_no_package_ranges_is_a_no_op() {
    let raw = "error: line 5";
    assert_eq!(annotate_with_packages(raw, &[]), raw);
}

#[test]
fn validate_reports_a_clear_error_when_the_command_is_missing() {
    let generated = GeneratedStan {
        source: String::new(),
        package_line_ranges: vec![],
    };
    let err = validate(
        "laplace-test-definitely-not-a-real-command",
        "model.stan",
        StancOutcome::NotStarted {
            reason: "No such file or directory (os error 2)".to_string(),
        },
        &generated,
    )
    .unwrap_err();
    assert!(matches!(err, ValidateError::CommandNotFound { .. }));
}

#[test]
fn line_numbers_that_do_not_fit_are_left_out() {
    assert_eq!(
        extract_line_numbers("line 99999999999999999999999 line 007 line 18446744073709551615x"),
        vec![7, usize::MAX]
    );
    assert_eq!(extract_line_numbers("line line 5"), Vec::<usize>::new());
    assert_eq!(extract_line_numbers("at line "), Vec::<usize>::new());
    assert_eq!(extract_line_numbers("line \u{e9} line 3"), vec![3]);
}

#[test]
fn every_culprit_is_noted_in_order() {
    let ranges = vec![
        PackageLineRange { package: "a".to_string(), lines: 2..=4 },
        PackageLineRange { package: "b".to_string(), lines: 6..=5 },
        PackageLineRange { package: "c".to_string(), lines: 6..=9 },
    ];
    assert_eq!(
        annotate_with_packages("line 6 and line 4", &ranges),
        "note: lines 2-4 of the compiled output came from package `a`\n\
         note: lines 6-9 of the compiled output came from package `c`\nline 6 and line 4"
    );
}

#[test]
fn stdout_stands_in_for_a_blank_stderr() {
    let generated = GeneratedStan { source: String::new(), package_line_ranges: vec![] };
    let ended = |stdout: &str, stderr: &str| StancOutcome::Ended {
        success: false,
        stdout: stdout.to_string(),
        stderr: stderr.to_string(),
    };
    let err = validate("stanc", "o.stan", ended("out", " \n"), &generated).unwrap_err();
    assert_eq!(err.message(), "stanc reported errors in o.stan:\nout");
    let err = validate("stanc", "o.stan", ended("out", "err"), &generated).unwrap_err();
    assert_eq!(err.message(), "stanc reported errors in o.stan:\nerr");
    let err = validate(
        "stanc",
        "o.stan",
        StancOutcome::NotStarted { reason: "why".to_string() },
        &generated,
    )
    .unwrap_err();
    assert_eq!(
        err.message(),
        "`stanc` was not found on PATH -- install cmdstan/stanc, or omit --validate: why"
    );
}
