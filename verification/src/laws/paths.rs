//! Laws of paths and of the commands that use them.

use crate::db;
use crate::paths;
use crate::update;
use vstd::prelude::*;

verus! {

/// Joining puts one separator between two parts, unless there is one already; nothing comes
/// before a part that starts at the root.
pub proof fn joining_puts_one_separator(base: Seq<char>, leaf: Seq<char>)
    requires
        leaf.len() > 0,
    ensures
        leaf[0] == '/' ==> paths::joined(base, leaf) == leaf,
        base.len() == 0 ==> paths::joined(base, leaf) == leaf,
        base.len() > 0 && base.last() != '/' && leaf[0] != '/' ==> paths::joined(base, leaf) == base
            + "/"@ + leaf,
        base.len() > 0 && base.last() == '/' && leaf[0] != '/' ==> paths::joined(base, leaf) == base
            + leaf,
{
    reveal_strlit("/");
    assert(base.push('/') + leaf =~= base + "/"@ + leaf);
}

/// What stands after the last separator falls away.
proof fn leaf_falls_away(base: Seq<char>, leaf: Seq<char>)
    requires
        base.len() > 0 ==> base.last() == '/',
        forall|i: int| 0 <= i < leaf.len() ==> #[trigger] leaf[i] != '/',
    ensures
        paths::through_separator(base + leaf) == base,
    decreases leaf.len(),
{
    if leaf.len() == 0 {
        assert(base + leaf =~= base);
    } else {
        let rest = leaf.drop_last();
        assert((base + leaf).drop_last() =~= base + rest);
        assert(leaf[leaf.len() - 1] != '/');
        assert((base + leaf).last() == leaf[leaf.len() - 1]);
        assert forall|i: int| 0 <= i < rest.len() implies #[trigger] rest[i] != '/' by {
            assert(rest[i] == leaf[i]);
        }
        leaf_falls_away(base, rest);
    }
}

/// The parent of something in a directory is that directory; of something without a
/// directory it is nothing, and of something at the root it is the root.
pub proof fn parent_holds_the_leaf(base: Seq<char>, leaf: Seq<char>)
    requires
        leaf.len() > 0,
        leaf != "."@,
        forall|i: int| 0 <= i < leaf.len() ==> #[trigger] leaf[i] != '/',
    ensures
        base.len() > 0 && base.last() != '/' && !(base.len() > 1 && base.last() == '.'
            && base[base.len() - 2] == '/') ==> paths::parent(base + "/"@ + leaf) == Some(base),
        paths::parent(leaf) == Some(Seq::<char>::empty()),
        paths::parent("/"@ + leaf) == Some("/"@),
{
    reveal_strlit("/");
    reveal_strlit(".");
    let n = leaf.len() - 1;
    assert(leaf[n] != '/');
    assert(leaf.len() == 1 ==> leaf[n] != '.') by {
        if leaf.len() == 1 && leaf[n] == '.' {
            assert(leaf =~= "."@);
        }
    }
    if base.len() > 0 && base.last() != '/' && !(base.len() > 1 && base.last() == '.'
        && base[base.len() - 2] == '/') {
        let up = base + "/"@;
        let all = base + "/"@ + leaf;
        assert(all.last() == leaf[n]);
        assert(all.len() >= 3);
        if leaf.len() > 1 {
            assert(all[all.len() - 2] == leaf[n - 1]);
        }
        assert(paths::tidy(all) == all);
        leaf_falls_away(up, leaf);
        assert(all =~= up + leaf);
        assert(up.drop_last() =~= base);
        assert(paths::tidy(base) == base);
        assert(paths::tidy(up) == paths::tidy(base));
    }
    let none = Seq::<char>::empty();
    if leaf.len() > 1 {
        assert(leaf[leaf.len() - 2] == leaf[n - 1]);
    }
    assert(paths::tidy(leaf) == leaf);
    leaf_falls_away(none, leaf);
    assert(none + leaf =~= leaf);
    assert(leaf != seq!['/']) by {
        assert(leaf[0] != '/');
    }
    let top = "/"@ + leaf;
    assert(top.last() == leaf[n]);
    if leaf.len() > 1 {
        assert(top[top.len() - 2] == leaf[n - 1]);
    }
    assert(paths::tidy(top) == top);
    leaf_falls_away("/"@, leaf);
    assert(paths::tidy("/"@) == "/"@);
    assert(top != seq!['/']) by {
        assert(top.len() > 1);
    }
}

/// Separators and dots at the end say nothing, and neither the root nor nothing has a parent.
pub proof fn trailing_separators_say_nothing(path: Seq<char>)
    requires
        path.len() > 0,
    ensures
        paths::parent(path + "/"@) == paths::parent(path),
        paths::parent(path + "/."@) == paths::parent(path),
        paths::parent("/"@) is None,
        paths::parent(""@) is None,
{
    reveal_strlit("/");
    reveal_strlit("/.");
    reveal_strlit("");
    let a = path + "/"@;
    let b = path + "/."@;
    assert(a.drop_last() =~= path);
    assert(b.drop_last() =~= a);
    assert(paths::tidy(a) == paths::tidy(path));
    assert(paths::tidy(b) == paths::tidy(a));
    assert("/"@ =~= seq!['/']);
    assert(paths::tidy("/"@) == "/"@);
}

/// A separator more, or a dot between two of them, changes no parent.
pub proof fn repeated_separators_say_nothing(base: Seq<char>, leaf: Seq<char>)
    requires
        leaf.len() > 0,
        leaf != "."@,
        forall|i: int| 0 <= i < leaf.len() ==> #[trigger] leaf[i] != '/',
    ensures
        paths::parent(base + "//"@ + leaf) == paths::parent(base + "/"@ + leaf),
        paths::parent(base + "/./"@ + leaf) == paths::parent(base + "/"@ + leaf),
        paths::parent("."@) == Some(Seq::<char>::empty()),
{
    reveal_strlit("/");
    reveal_strlit("//");
    reveal_strlit("/./");
    reveal_strlit(".");
    let one = base + "/"@;
    let two = base + "//"@;
    let dot = base + "/./"@;
    stem_of(one, leaf);
    stem_of(two, leaf);
    stem_of(dot, leaf);
    assert(two.drop_last() =~= one);
    assert(dot.drop_last().drop_last() =~= one);
    assert(dot.drop_last().last() == '.');
    assert(paths::tidy(two) == paths::tidy(one));
    assert(paths::tidy(dot) == paths::tidy(dot.drop_last()));
    assert(paths::tidy(dot.drop_last()) == paths::tidy(one));
    assert(paths::tidy("."@) == "."@);
    let none = Seq::<char>::empty();
    leaf_falls_away(none, "."@);
    assert(none + "."@ =~= "."@);
    assert("."@ != seq!['/']) by {
        assert("."@[0] != '/');
    }
}

/// The parent of a leaf is what stands before it, without what says nothing.
proof fn stem_of(up: Seq<char>, leaf: Seq<char>)
    requires
        up.len() > 0,
        up.last() == '/',
        leaf.len() > 0,
        leaf != "."@,
        forall|i: int| 0 <= i < leaf.len() ==> #[trigger] leaf[i] != '/',
    ensures
        paths::parent(up + leaf) == Some(paths::tidy(up)),
{
    reveal_strlit(".");
    let n = leaf.len() - 1;
    let all = up + leaf;
    assert(leaf[n] != '/');
    assert(all.last() == leaf[n]);
    if leaf.len() > 1 {
        assert(all[all.len() - 2] == leaf[n - 1]);
    } else if leaf[n] == '.' {
        assert(leaf =~= "."@);
    }
    assert(paths::tidy(all) == all);
    leaf_falls_away(up, leaf);
    assert(all != seq!['/']) by {
        assert(all.len() > 1);
    }
}

/// The workspace of a package is the parent of its directory, and the place where the program
/// runs where there is none.
pub proof fn without_parent_it_is_here(path: Seq<char>)
    ensures
        paths::parent(path) matches Some(p) ==> update::parent_or_dot(path) == p,
        paths::parent(path) is None ==> update::parent_or_dot(path) == "."@,
{
}

/// Words are put side by side with one space between any two.
pub proof fn words_stand_one_space_apart(a: Seq<Seq<char>>, b: Seq<Seq<char>>, w: Seq<char>)
    ensures
        a.len() > 0 && b.len() > 0 ==> update::spaced(a + b) == update::spaced(a) + " "@
            + update::spaced(b),
        update::spaced(seq![w]) == w,
        update::spaced(Seq::empty()) == Seq::<char>::empty(),
    decreases b.len(),
{
    if a.len() > 0 && b.len() > 0 {
        let rest = b.drop_last();
        assert((a + b).drop_last() =~= a + rest);
        assert((a + b).last() == b.last());
        if b.len() == 1 {
            assert(a + rest =~= a);
            assert(update::spaced(b) == b[0]);
        } else {
            words_stand_one_space_apart(a, rest, w);
            assert(update::spaced(a + b) =~= update::spaced(a) + " "@ + (update::spaced(rest)
                + " "@ + b.last()));
        }
    }
}

/// What is installed is the package at the path or at the address, whichever it is, and
/// nothing else varies.
pub proof fn only_the_source_varies(package: Seq<char>, url: Seq<char>)
    ensures
        update::path_args(package).len() == 6,
        update::path_args(package)[2] == package,
        update::spaced(update::path_args(package)) == "install --path "@ + package
            + " --bin org --force"@,
        update::git_args(url).len() == 7,
        update::git_args(url)[2] == url,
        update::spaced(update::git_args(url)) == "install --git "@ + url
            + " org --bin org --force"@,
        update::no_checkout_text(package) == "no org checkout at "@ + package + " (expected "@
            + package
            + "/cli/Cargo.toml). Pass --source <path> or set $ORG_SRC, or drop --local to update from GitHub."@,
{
    reveal_strlit("install");
    reveal_strlit("--path");
    reveal_strlit("--git");
    reveal_strlit("--bin");
    reveal_strlit("org");
    reveal_strlit("--force");
    reveal_strlit(" ");
    reveal_strlit("install --path ");
    reveal_strlit(" --bin org --force");
    reveal_strlit("install --git ");
    reveal_strlit(" org --bin org --force");
    reveal_with_fuel(update::spaced, 8);
    let p = update::path_args(package);
    assert(p.drop_last() =~= seq!["install"@, "--path"@, package, "--bin"@, "org"@]);
    assert(p.drop_last().drop_last() =~= seq!["install"@, "--path"@, package, "--bin"@]);
    assert(p.drop_last().drop_last().drop_last() =~= seq!["install"@, "--path"@, package]);
    assert(p.drop_last().drop_last().drop_last().drop_last() =~= seq!["install"@, "--path"@]);
    assert(p.drop_last().drop_last().drop_last().drop_last().drop_last() =~= seq!["install"@]);
    assert(update::spaced(p) =~= "install"@ + " "@ + "--path"@ + " "@ + package + " "@ + "--bin"@
        + " "@ + "org"@ + " "@ + "--force"@);
    assert("install"@ + " "@ + "--path"@ + " "@ =~= "install --path "@);
    assert(" "@ + "--bin"@ + " "@ + "org"@ + " "@ + "--force"@ =~= " --bin org --force"@);
    assert(update::spaced(p) =~= "install --path "@ + package + " --bin org --force"@);
    let g = update::git_args(url);
    assert(g.drop_last() =~= seq!["install"@, "--git"@, url, "org"@, "--bin"@, "org"@]);
    assert(g.drop_last().drop_last() =~= seq!["install"@, "--git"@, url, "org"@, "--bin"@]);
    assert(g.drop_last().drop_last().drop_last() =~= seq!["install"@, "--git"@, url, "org"@]);
    assert(g.drop_last().drop_last().drop_last().drop_last() =~= seq!["install"@, "--git"@, url]);
    assert(g.drop_last().drop_last().drop_last().drop_last().drop_last() =~= seq![
        "install"@,
        "--git"@,
    ]);
    assert(g.drop_last().drop_last().drop_last().drop_last().drop_last().drop_last() =~= seq![
        "install"@,
    ]);
    assert(update::spaced(g) =~= "install"@ + " "@ + "--git"@ + " "@ + url + " "@ + "org"@ + " "@
        + "--bin"@ + " "@ + "org"@ + " "@ + "--force"@);
    assert("install"@ + " "@ + "--git"@ + " "@ =~= "install --git "@);
    assert(" "@ + "org"@ + " "@ + "--bin"@ + " "@ + "org"@ + " "@ + "--force"@
        =~= " org --bin org --force"@);
    assert(update::spaced(g) =~= "install --git "@ + url + " org --bin org --force"@);
}

/// Without anything said the directory lies in `.org` below the home, or below the place
/// where the program runs.
pub proof fn directory_lies_below_the_home(home: Seq<char>)
    ensures
        home.len() > 0 && home.last() != '/' ==> db::default_path(Some(home)) == home
            + "/.org/org.db"@,
        home.len() > 0 && home.last() == '/' ==> db::default_path(Some(home)) == home
            + ".org/org.db"@,
        home.len() == 0 ==> db::default_path(Some(home)) == ".org/org.db"@,
        db::default_path(None) == "./.org/org.db"@,
{
    reveal_strlit("/");
    reveal_strlit(".");
    reveal_strlit(".org");
    reveal_strlit("org.db");
    reveal_strlit("/.org/org.db");
    reveal_strlit(".org/org.db");
    reveal_strlit("./.org/org.db");
    assert(paths::joined(".org"@, "org.db"@) =~= ".org/org.db"@);
    let base = paths::joined(home, ".org"@);
    assert(base.last() == ".org"@[3]);
    if home.len() > 0 && home.last() != '/' {
        assert(paths::joined(base, "org.db"@) =~= home + "/.org/org.db"@);
    } else if home.len() > 0 {
        assert(paths::joined(base, "org.db"@) =~= home + ".org/org.db"@);
    }
    let here = paths::joined("."@, ".org"@);
    assert(here =~= "./.org"@) by {
        reveal_strlit("./.org");
    }
    assert(here.last() == ".org"@[3]);
    assert(paths::joined(here, "org.db"@) =~= "./.org/org.db"@);
}

} // verus!
