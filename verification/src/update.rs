//! How the program updates itself: which source to install from, with which command,
//! and what to tell the user.
//!
//! By default the latest state of the repository is installed; a local checkout can
//! be installed instead. Looking at the file system and running the command is the
//! caller's part.

use crate::paths::{self, join, parent_of};
use crate::tables;
use crate::text::{self, chars_of, same_text, string_of, trim, white, WordClass};
use vstd::prelude::*;
use vstd::string::*;

verus! {

/// The repository that an update installs from by default.
pub const REPO_URL: &'static str = "https://github.com/trush081/org.git";

/// Whether a local checkout is to be installed. A path to one implies it.
pub fn is_local(local: bool, source: &Option<String>) -> (r: bool)
    ensures
        r == (local || source is Some),
{
    local || source.is_some()
}

/// Where to look for a checkout: where the flag says, else where the environment
/// says, else where the program was built.
pub fn source_candidate(flag: Option<String>, env_src: Option<String>, built_at: String) -> (r:
    String)
    ensures
        r@ == match (flag, env_src) {
            (Some(path), _) => path@,
            (None, Some(path)) => path@,
            (None, None) => built_at@,
        },
{
    if let Some(path) = flag {
        return path;
    }
    if let Some(path) = env_src {
        return path;
    }
    built_at
}

/// The parent of a path, or the current directory where it has none.
pub open spec fn parent_or_dot(path: Seq<char>) -> Seq<char> {
    match paths::parent(path) {
        Some(p) => p,
        None => "."@,
    }
}

/// The root of the workspace that a package directory belongs to.
pub fn workspace_root(manifest_dir: &str) -> (r: String)
    ensures
        r@ == parent_or_dot(manifest_dir@),
{
    match parent_of(manifest_dir) {
        Some(p) => p,
        None => ".".to_owned(),
    }
}

/// The directory of the `cli` package in a checkout, which is what gets installed;
/// the root of the workspace is not a package.
pub fn cli_package_dir(source: &str) -> (r: String)
    ensures
        r@ == paths::joined(source@, "cli"@),
{
    join(source, "cli")
}

/// The file that tells a checkout from any other directory.
pub fn manifest_path(source: &str) -> (r: String)
    ensures
        r@ == paths::joined(paths::joined(source@, "cli"@), "Cargo.toml"@),
{
    join(cli_package_dir(source).as_str(), "Cargo.toml")
}

/// What is said of a directory that is not a checkout.
pub open spec fn no_checkout_text(source: Seq<char>) -> Seq<char> {
    "no org checkout at "@ + source + " (expected "@ + source
        + "/cli/Cargo.toml). Pass --source <path> or set $ORG_SRC, or drop --local to update from GitHub."@
}

/// The checkout to install from, in the order of [`source_candidate`]. `has_manifest`
/// says whether there is a file at the candidate's [`manifest_path`]; where there is
/// none, the answer is what to tell the user.
pub fn resolve_source(
    flag: Option<String>,
    env_src: Option<String>,
    built_at: String,
    has_manifest: bool,
) -> (r: Result<String, String>)
    ensures
        ({
            let candidate = match (flag, env_src) {
                (Some(path), _) => path@,
                (None, Some(path)) => path@,
                (None, None) => built_at@,
            };
            if has_manifest {
                r matches Ok(path) && path@ == candidate
            } else {
                r matches Err(m) && m@ == no_checkout_text(candidate)
            }
        }),
{
    let candidate = source_candidate(flag, env_src, built_at);
    if has_manifest {
        return Ok(candidate);
    }
    let mut m: String = String::new();
    m.append("no org checkout at ");
    m.append(candidate.as_str());
    m.append(" (expected ");
    m.append(candidate.as_str());
    m.append(
        "/cli/Cargo.toml). Pass --source <path> or set $ORG_SRC, or drop --local to update from GitHub.",
    );
    assert(m@ =~= no_checkout_text(candidate@));
    Err(m)
}

/// The arguments of `cargo` to install from a package directory.
pub open spec fn path_args(package: Seq<char>) -> Seq<Seq<char>> {
    seq!["install"@, "--path"@, package, "--bin"@, "org"@, "--force"@]
}

/// The arguments of `cargo` to install from a repository. The package is named by
/// itself, since there are several in the repository.
pub open spec fn git_args(url: Seq<char>) -> Seq<Seq<char>> {
    seq!["install"@, "--git"@, url, "org"@, "--bin"@, "org"@, "--force"@]
}

/// The arguments of `cargo` to install from a package directory.
pub fn install_from_path(package: &str) -> (r: Vec<String>)
    ensures
        tables::rows(r@) == path_args(package@),
{
    let mut args: Vec<String> = Vec::new();
    args.push("install".to_owned());
    args.push("--path".to_owned());
    args.push(package.to_owned());
    args.push("--bin".to_owned());
    args.push("org".to_owned());
    args.push("--force".to_owned());
    assert(tables::rows(args@) =~= path_args(package@));
    args
}

/// The arguments of `cargo` to install from a repository.
pub fn install_from_git(url: &str) -> (r: Vec<String>)
    ensures
        tables::rows(r@) == git_args(url@),
{
    let mut args: Vec<String> = Vec::new();
    args.push("install".to_owned());
    args.push("--git".to_owned());
    args.push(url.to_owned());
    args.push("org".to_owned());
    args.push("--bin".to_owned());
    args.push("org".to_owned());
    args.push("--force".to_owned());
    assert(tables::rows(args@) =~= git_args(url@));
    args
}

/// What to do next.
#[derive(Debug)]
pub enum Step {
    /// Only print this line.
    Print(String),
    /// Print `announce`, then run `cargo` with these arguments.
    Run { args: Vec<String>, announce: String },
}

/// Words with a space between each two.
pub open spec fn spaced(words: Seq<Seq<char>>) -> Seq<char>
    decreases words.len(),
{
    if words.len() == 0 {
        Seq::empty()
    } else if words.len() == 1 {
        words[0]
    } else {
        spaced(words.drop_last()) + " "@ + words.last()
    }
}

/// The command line with the given arguments.
fn command_line(args: &Vec<String>) -> (r: String)
    ensures
        r@ == "cargo "@ + spaced(tables::rows(args@)),
{
    let ghost s = tables::rows(args@);
    let mut out: String = String::new();
    out.append("cargo ");
    let mut k: usize = 0;
    assert(out@ =~= "cargo "@ + spaced(s.take(0)));
    while k < args.len()
        invariant
            s == tables::rows(args@),
            k <= args@.len(),
            out@ == "cargo "@ + spaced(s.take(k as int)),
        decreases args@.len() - k,
    {
        if k > 0 {
            out.append(" ");
        }
        out.append(args[k].as_str());
        assert(s.take(k + 1).drop_last() =~= s.take(k as int));
        assert(out@ =~= "cargo "@ + spaced(s.take(k + 1)));
        k = k + 1;
    }
    assert(s.take(k as int) =~= s);
    out
}

/// What to do once the checkout is known, where one is to be installed: run the
/// command that installs from it or, without one, from the repository; or only print
/// that command.
pub fn plan(checkout: Option<String>, dry_run: bool) -> (r: Step)
    ensures
        ({
            let (args, what) = match checkout {
                Some(path) => (
                    path_args(paths::joined(path@, "cli"@)),
                    "local checkout "@ + path@,
                ),
                None => (git_args(REPO_URL@), REPO_URL@),
            };
            match r {
                Step::Print(line) => dry_run && line@ == "cargo "@ + spaced(args),
                Step::Run { args: given, announce } => !dry_run && tables::rows(given@) == args
                    && announce@ == "Updating org from "@ + what + "..."@,
            }
        }),
{
    let mut announce: String = String::new();
    announce.append("Updating org from ");
    let args: Vec<String> = match &checkout {
        Some(path) => {
            announce.append("local checkout ");
            announce.append(path.as_str());
            install_from_path(cli_package_dir(path.as_str()).as_str())
        },
        None => {
            announce.append(REPO_URL);
            install_from_git(REPO_URL)
        },
    };
    if dry_run {
        return Step::Print(command_line(&args));
    }
    announce.append("...");
    proof {
        let what = match checkout {
            Some(path) => "local checkout "@ + path@,
            None => REPO_URL@,
        };
        assert(announce@ =~= "Updating org from "@ + what + "..."@);
    }
    Step::Run { args, announce }
}

/// The arguments of `git` to ask the repository for its latest commit.
pub fn latest_args() -> (r: Vec<String>)
    ensures
        tables::rows(r@) == seq!["ls-remote"@, REPO_URL@, "HEAD"@],
{
    let mut args: Vec<String> = Vec::new();
    args.push("ls-remote".to_owned());
    args.push(REPO_URL.to_owned());
    args.push("HEAD".to_owned());
    assert(tables::rows(args@) =~= seq!["ls-remote"@, REPO_URL@, "HEAD"@]);
    args
}

/// The commit in what `git` answers: its first word, if there is one.
pub fn latest_commit(output: &str) -> (r: Option<String>)
    ensures
        match r {
            Some(w) => exists|k: int| #[trigger]
                text::is_word_at(text::trimmed(output@), WordClass::NonWhite, 0, k) && w@
                    == text::trimmed(output@).take(k),
            None => text::trimmed(output@).len() == 0,
        },
{
    let cs = chars_of(trim(output).as_str());
    let mut k: usize = 0;
    while k < cs.len() && !white(cs[k])
        invariant
            k <= cs@.len(),
            forall|i: int| 0 <= i < k ==> !text::is_white(#[trigger] cs@[i]),
        decreases cs@.len() - k,
    {
        k = k + 1;
    }
    if cs.len() == 0 {
        return None;
    }
    let word = string_of(&cs, 0, k);
    proof {
        text::trimmed_begins(output@);
        assert(text::is_word_at(cs@, WordClass::NonWhite, 0, k as int));
        assert(word@ =~= cs@.take(k as int));
    }
    Some(word)
}

/// What stands for the commit of a build that does not know its own.
pub const UNKNOWN_COMMIT: &'static str = "unknown";

/// What to tell the user about the commit that the program was built from and the
/// latest one.
pub fn check_line(built: &str, latest: &str) -> (r: String)
    ensures
        r@ == if built@ == UNKNOWN_COMMIT@ {
            "Cannot tell whether an update is available: this org does not know its commit."@
        } else if built@ == latest@ {
            "org is up to date."@
        } else {
            "An update is available. Run `org update` to install it."@
        },
{
    if same_text(built, UNKNOWN_COMMIT) {
        "Cannot tell whether an update is available: this org does not know its commit.".to_owned()
    } else if same_text(built, latest) {
        "org is up to date.".to_owned()
    } else {
        "An update is available. Run `org update` to install it.".to_owned()
    }
}

/// What to tell the user once the command has ended; `status` is how its end reads.
pub fn outcome(success: bool, status: &str) -> (r: Result<String, String>)
    ensures
        if success {
            r matches Ok(m) && m@ == "org updated. Run `org --version` to confirm."@
        } else {
            r matches Err(m) && m@ == "update failed: `cargo` exited with "@ + status@
        },
{
    if success {
        return Ok("org updated. Run `org --version` to confirm.".to_owned());
    }
    let mut m: String = String::new();
    m.append("update failed: `cargo` exited with ");
    m.append(status);
    assert(m@ =~= "update failed: `cargo` exited with "@ + status@);
    Err(m)
}

} // verus!
