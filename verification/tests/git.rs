use laplace::resolve::git::{
    fetch, fetch_args, git_source, parse_git_source, run, CommandOutcome, FetchStep, GitError,
};

#[test]
fn git_source_round_trips_through_parse() {
    let source = git_source("https://github.com/user/repo", "0.1.0");
    assert_eq!(source, "git+https://github.com/user/repo@0.1.0");
    assert_eq!(
        parse_git_source(&source).as_ref().map(|(url, git_ref)| (url.as_str(), git_ref.as_str())),
        Some(("https://github.com/user/repo", "0.1.0"))
    );
}

#[test]
fn parse_git_source_handles_scp_style_urls_with_embedded_at() {
    let source = git_source("git@github.com:user/repo", "abc123");
    assert_eq!(
        parse_git_source(&source).as_ref().map(|(url, git_ref)| (url.as_str(), git_ref.as_str())),
        Some(("git@github.com:user/repo", "abc123"))
    );
}

#[test]
fn parse_git_source_rejects_non_git_sources() {
    assert_eq!(parse_git_source("registry"), None);
}

#[test]
fn git_sources_split_at_the_last_at() {
    assert_eq!(
        parse_git_source("git+a@b@c"),
        Some(("a@b".to_string(), "c".to_string()))
    );
    assert_eq!(parse_git_source("git+a"), None);
    assert_eq!(parse_git_source("git+@"), Some((String::new(), String::new())));
}

#[test]
fn a_fetch_goes_on_after_a_failed_shallow_clone_only() {
    let steps = |success: &[bool]| {
        let mut step = FetchStep::ShallowClone;
        for s in success {
            match fetch(step, *s) {
                Some(next) => step = next,
                None => return None,
            }
        }
        Some(step)
    };
    assert_eq!(steps(&[true, true]), Some(FetchStep::Fetched));
    assert_eq!(steps(&[false, true, true]), Some(FetchStep::Checkout));
    assert_eq!(steps(&[false, true, true, true, true]), Some(FetchStep::Fetched));
    assert_eq!(steps(&[true, false]), None);
    assert_eq!(steps(&[false, false]), None);
    assert_eq!(steps(&[false, true, false]), None);
    assert_eq!(steps(&[false, true, true, false]), None);
}

#[test]
fn each_step_has_its_command() {
    let args = |step| fetch_args(step, "url", "v1", "/tmp/d").map(|args| args.join(" "));
    assert_eq!(
        args(FetchStep::ShallowClone),
        Some("clone --quiet --depth 1 --branch v1 url /tmp/d".to_string())
    );
    assert_eq!(args(FetchStep::FullClone), Some("clone --quiet url /tmp/d".to_string()));
    assert_eq!(args(FetchStep::Checkout), Some("checkout --quiet v1".to_string()));
    assert_eq!(args(FetchStep::ClearDirectory), None);
    assert_eq!(args(FetchStep::StripMetadata), None);
}

#[test]
fn a_failed_command_is_reported_with_its_arguments() {
    let args = vec!["clone".to_string(), "url".to_string()];
    assert_eq!(
        run(&args, CommandOutcome::Ended { success: true, stderr: "warning".to_string() }),
        Ok(())
    );
    let err = run(&args, CommandOutcome::Ended { success: false, stderr: " no\n".to_string() })
        .unwrap_err();
    assert_eq!(
        err,
        GitError::CommandFailed { args: "clone url".to_string(), stderr: "no".to_string() }
    );
    assert_eq!(err.message(), "`git clone url` failed: no");
    let err = run(&args, CommandOutcome::NotStarted { reason: "missing".to_string() }).unwrap_err();
    assert_eq!(err.message(), "failed to run `git clone url`: missing");
    let err = GitError::Io { path: "d".to_string(), reason: "busy".to_string() };
    assert_eq!(err.message(), "failed to prepare git checkout at d: busy");
}
