//! How the program updates itself.

use org_core::update::{
    check_line, cli_package_dir, install_from_git, install_from_path, is_local, latest_args,
    latest_commit, manifest_path, outcome, plan, resolve_source, source_candidate,
    workspace_root, Step, REPO_URL,
};

#[test]
fn path_install_targets_the_cli_package() {
    let pkg = cli_package_dir("/tmp/org");
    let args = install_from_path(&pkg);
    assert!(args.contains(&"--path".to_string()));
    assert!(args.contains(&"/tmp/org/cli".to_string()));
    assert!(args.contains(&"--force".to_string()));
}

#[test]
fn git_install_names_repo_and_package() {
    let args = install_from_git(REPO_URL);
    assert!(args.contains(&"--git".to_string()));
    assert!(args.contains(&REPO_URL.to_string()));
    assert!(!args.contains(&"-p".to_string()));
    assert!(args.contains(&"org".to_string()));
    assert!(args.contains(&"--force".to_string()));
}

#[test]
fn resolve_source_rejects_a_non_checkout() {
    assert_eq!(manifest_path("/"), "/cli/Cargo.toml");
    let err = resolve_source(Some("/".to_string()), None, ".".to_string(), false).unwrap_err();
    assert!(err.contains("no org checkout"));
}

#[test]
fn a_missing_checkout_is_explained() {
    assert_eq!(
        resolve_source(None, Some("/src/org".to_string()), "/built".to_string(), false),
        Err(
            "no org checkout at /src/org (expected /src/org/cli/Cargo.toml). Pass --source <path> \
             or set $ORG_SRC, or drop --local to update from GitHub."
                .to_string()
        )
    );
}

#[test]
fn the_flag_goes_before_the_environment_goes_before_the_build() {
    let flag = || Some("/flag".to_string());
    let env = || Some("/env".to_string());
    let built = || "/built".to_string();
    assert_eq!(source_candidate(flag(), env(), built()), "/flag");
    assert_eq!(source_candidate(None, env(), built()), "/env");
    assert_eq!(source_candidate(None, None, built()), "/built");
    assert_eq!(
        resolve_source(flag(), env(), built(), true),
        Ok("/flag".to_string())
    );
}

#[test]
fn a_source_path_implies_a_local_install() {
    assert!(is_local(true, &None));
    assert!(is_local(false, &Some("/x".to_string())));
    assert!(!is_local(false, &None));
}

#[test]
fn dry_runs_only_print_the_command() {
    match plan(None, true) {
        Step::Print(line) => assert_eq!(
            line,
            "cargo install --git https://github.com/trush081/org.git org --bin org --force"
        ),
        other => panic!("expected a line, got {other:?}"),
    }
    match plan(Some("/tmp/org/".to_string()), true) {
        Step::Print(line) => {
            assert_eq!(line, "cargo install --path /tmp/org/cli --bin org --force")
        }
        other => panic!("expected a line, got {other:?}"),
    }
}

#[test]
fn installs_are_announced() {
    match plan(Some("/tmp/org".to_string()), false) {
        Step::Run { args, announce } => {
            assert_eq!(args, install_from_path("/tmp/org/cli"));
            assert_eq!(announce, "Updating org from local checkout /tmp/org...");
        }
        other => panic!("expected a run, got {other:?}"),
    }
    match plan(None, false) {
        Step::Run { args, announce } => {
            assert_eq!(args, install_from_git(REPO_URL));
            assert_eq!(
                announce,
                "Updating org from https://github.com/trush081/org.git..."
            );
        }
        other => panic!("expected a run, got {other:?}"),
    }
}

#[test]
fn the_end_of_an_install_is_told() {
    assert_eq!(
        outcome(true, "exit status: 0"),
        Ok("org updated. Run `org --version` to confirm.".to_string())
    );
    assert_eq!(
        outcome(false, "exit status: 101"),
        Err("update failed: `cargo` exited with exit status: 101".to_string())
    );
}

#[test]
fn the_latest_commit_is_the_first_word() {
    assert_eq!(
        latest_args(),
        vec!["ls-remote", "https://github.com/trush081/org.git", "HEAD"]
    );
    assert_eq!(latest_commit("abc123\tHEAD\n").as_deref(), Some("abc123"));
    assert_eq!(latest_commit("  abc123").as_deref(), Some("abc123"));
    assert_eq!(latest_commit(" \n"), None);
}

#[test]
fn an_update_is_available_where_the_commits_differ() {
    assert_eq!(check_line("abc", "abc"), "org is up to date.");
    for latest in ["abc", "unknown"] {
        assert_eq!(
            check_line("unknown", latest),
            "Cannot tell whether an update is available: this org does not know its commit."
        );
    }
    for built in ["abd", ""] {
        assert_eq!(
            check_line(built, "abc"),
            "An update is available. Run `org update` to install it."
        );
    }
}

#[test]
fn the_workspace_is_above_the_package() {
    let root = workspace_root("/src/org/cli");
    assert_eq!(root, "/src/org");
    assert_eq!(cli_package_dir(&root), "/src/org/cli");
    assert_eq!(workspace_root("cli"), "");
    assert_eq!(workspace_root("/"), ".");
    assert_eq!(workspace_root(""), ".");
}
