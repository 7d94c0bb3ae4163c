//! What the compiled package script does on a target.

use crate::compile::packages::{
    all_local_lines, feed_text, install_block, installed_cmd, installs, local_package_lines,
    package_script, probe_program, quoted_all, removal_block, removals,
};
use crate::config::models::{backend_named, package_request, PackageRequest, PkgBackend, Sources};
use crate::utils::helpers::{escaped, name_len, package_name, version_at};
use crate::utils::path::base_name;
use crate::utils::split::join;
use crate::utils::text::{before, lemma_find_is};
use crate::utils::within::{behind, lemma_flat_last};
use vstd::prelude::*;

verus! {

// ---- loops that probe packages ----

/// A loop over packages that is left at the first for which a test holds, and then has something
/// done once.
pub open spec fn probe_loop(
    flag: Seq<char>,
    packages: Seq<char>,
    test: Seq<char>,
    action: Seq<char>,
) -> Seq<char> {
    "\n"@ + flag + "=false\nfor pkg in "@ + packages + "; do\n    if "@ + test + "; then "@ + flag
        + "=true; break; fi\ndone\nif [ \"$"@ + flag + "\" = true ]; then "@ + action + "; fi\n"@
}

/// The test that succeeds where the package `$pkg` is installed.
pub open spec fn installed_test(b: PkgBackend) -> Seq<char> {
    match b {
        PkgBackend::Opkg => "opkg status \"$pkg\" 2>/dev/null | grep -q 'Status:.*installed'"@,
        PkgBackend::Apk => "apk info -e \"$pkg\" >/dev/null 2>&1"@,
    }
}

/// What a shell makes of a test on a package, given which packages are installed: an exclamation
/// mark turns it round.
pub open spec fn test_holds(
    test: Seq<char>,
    b: PkgBackend,
    installed: Set<Seq<char>>,
    pkg: Seq<char>,
) -> bool {
    if test == installed_test(b) {
        installed.contains(pkg)
    } else {
        test == "! "@ + installed_test(b) && !installed.contains(pkg)
    }
}

/// Whether a block is a probing loop over the names, and the action is performed on a target with
/// these packages if and only if `performed`.
pub open spec fn performs(
    block: Seq<char>,
    b: PkgBackend,
    names: Seq<Seq<char>>,
    installed: Set<Seq<char>>,
    action: Seq<char>,
    performed: bool,
) -> bool {
    exists|flag: Seq<char>, test: Seq<char>|
        block == #[trigger] probe_loop(flag, join(quoted_all(names), " "@), test, action)
            && performed == exists|i: int|
            0 <= i < names.len() && test_holds(test, b, installed, #[trigger] names[i])
}

proof fn lemma_tests_differ(b: PkgBackend)
    ensures
        "! "@ + installed_test(b) != installed_test(b),
{
    reveal_strlit("! ");
    assert(("! "@ + installed_test(b)).len() == installed_test(b).len() + 2);
}

/// The command that installs packages.
pub open spec fn installer(b: PkgBackend) -> Seq<char> {
    match b {
        PkgBackend::Opkg => "opkg update && opkg install "@,
        PkgBackend::Apk => "apk add "@,
    }
}

/// The command that removes packages.
pub open spec fn remover(b: PkgBackend) -> Seq<char> {
    match b {
        PkgBackend::Opkg => "opkg remove "@,
        PkgBackend::Apk => "apk del "@,
    }
}

/// All the packages are installed, by one command of the target's package manager, if and only if
/// one of them is missing.
pub proof fn missing_packages_are_installed(
    b: PkgBackend,
    names: Seq<Seq<char>>,
    installed: Set<Seq<char>>,
)
    ensures
        performs(
            install_block(b, names),
            b,
            names,
            installed,
            installer(b) + join(names, " "@),
            exists|i: int| 0 <= i < names.len() && !installed.contains(#[trigger] names[i]),
        ),
{
    reveal_strlit("\nNEED_INSTALL=false\nfor pkg in ");
    reveal_strlit("\n");
    reveal_strlit("=false\nfor pkg in ");
    reveal_strlit("NEED_INSTALL");
    reveal_strlit("; do\n");
    reveal_strlit("; do\n    if ");
    reveal_strlit("! ");
    reveal_strlit("done\n");
    reveal_strlit("; then ");
    reveal_strlit("=true; break; fi\ndone\nif [ \"$");
    reveal_strlit("\" = true ]; then ");
    reveal_strlit("; fi\n");
    reveal_strlit("; fi");
    reveal_strlit("opkg update && opkg install ");
    reveal_strlit("apk add ");
    reveal_strlit("opkg status \"$pkg\" 2>/dev/null | grep -q 'Status:.*installed'");
    reveal_strlit("apk info -e \"$pkg\" >/dev/null 2>&1");
    reveal_strlit(
        "    if ! opkg status \"$pkg\" 2>/dev/null | grep -q 'Status:.*installed'; then NEED_INSTALL=true; break; fi\n",
    );
    reveal_strlit("    if ! apk info -e \"$pkg\" >/dev/null 2>&1; then NEED_INSTALL=true; break; fi\n");
    reveal_strlit("if [ \"$NEED_INSTALL\" = true ]; then opkg update && opkg install ");
    reveal_strlit("if [ \"$NEED_INSTALL\" = true ]; then apk add ");
    let flag = "NEED_INSTALL"@;
    let test = "! "@ + installed_test(b);
    let action = installer(b) + join(names, " "@);
    assert(install_block(b, names) =~= probe_loop(flag, join(quoted_all(names), " "@), test, action));
    lemma_tests_differ(b);
    assert(forall|i: int|
        0 <= i < names.len() ==> (test_holds(test, b, installed, #[trigger] names[i])
            == !installed.contains(names[i])));
}

/// All the packages are removed, by one command of the target's package manager, if and only if
/// one of them is installed; the script ends where that fails.
pub proof fn unwanted_packages_are_removed(
    b: PkgBackend,
    names: Seq<Seq<char>>,
    installed: Set<Seq<char>>,
)
    ensures
        performs(
            removal_block(b, names),
            b,
            names,
            installed,
            remover(b) + join(quoted_all(names), " "@) + "; if [ $? -ne 0 ]; then exit 1; fi"@,
            exists|i: int| 0 <= i < names.len() && installed.contains(#[trigger] names[i]),
        ),
{
    reveal_strlit("\nNEED_REMOVE=false\nfor pkg in ");
    reveal_strlit("\n");
    reveal_strlit("=false\nfor pkg in ");
    reveal_strlit("NEED_REMOVE");
    reveal_strlit("; do\n");
    reveal_strlit("; do\n    if ");
    reveal_strlit("done\n");
    reveal_strlit("; then ");
    reveal_strlit("=true; break; fi\ndone\nif [ \"$");
    reveal_strlit("\" = true ]; then ");
    reveal_strlit("; fi\n");
    reveal_strlit("; if [ $? -ne 0 ]; then exit 1; fi");
    reveal_strlit("; if [ $? -ne 0 ]; then exit 1; fi; fi");
    reveal_strlit("opkg remove ");
    reveal_strlit("apk del ");
    reveal_strlit("opkg status \"$pkg\" 2>/dev/null | grep -q 'Status:.*installed'");
    reveal_strlit("apk info -e \"$pkg\" >/dev/null 2>&1");
    reveal_strlit(
        "    if opkg status \"$pkg\" 2>/dev/null | grep -q 'Status:.*installed'; then NEED_REMOVE=true; break; fi\n",
    );
    reveal_strlit("    if apk info -e \"$pkg\" >/dev/null 2>&1; then NEED_REMOVE=true; break; fi\n");
    reveal_strlit("if [ \"$NEED_REMOVE\" = true ]; then opkg remove ");
    reveal_strlit("if [ \"$NEED_REMOVE\" = true ]; then apk del ");
    let flag = "NEED_REMOVE"@;
    let test = installed_test(b);
    let action = remover(b) + join(quoted_all(names), " "@) + "; if [ $? -ne 0 ]; then exit 1; fi"@;
    assert(removal_block(b, names) =~= probe_loop(flag, join(quoted_all(names), " "@), test, action));
    assert(forall|i: int|
        0 <= i < names.len() ==> (test_holds(test, b, installed, #[trigger] names[i])
            == installed.contains(names[i])));
}

/// A package is asked after in the same words wherever that is done: the loops ask after `$pkg` as
/// a package file's block asks after its package.
pub proof fn packages_are_asked_after_alike(b: PkgBackend)
    ensures
        installed_cmd(b, "\"$pkg\""@) == installed_test(b),
{
    reveal_strlit("\"$pkg\"");
    reveal_strlit("opkg status ");
    reveal_strlit(" 2>/dev/null | grep -q 'Status:.*installed'");
    reveal_strlit("apk info -e ");
    reveal_strlit(" >/dev/null 2>&1");
    reveal_strlit("opkg status \"$pkg\" 2>/dev/null | grep -q 'Status:.*installed'");
    reveal_strlit("apk info -e \"$pkg\" >/dev/null 2>&1");
    assert(installed_cmd(b, "\"$pkg\""@) =~= installed_test(b));
}

// ---- which packages ----

/// The entries that ask for a removal: a dash and the name.
pub open spec fn removed_name(entry: Seq<char>) -> Option<Seq<char>> {
    if entry.len() > 0 && entry[0] == '-' {
        Some(entry.skip(1))
    } else {
        None
    }
}

proof fn lemma_request(entry: Seq<char>)
    ensures
        package_request(entry) == match removed_name(entry) {
            Some(name) => PackageRequest::Remove(name),
            None => PackageRequest::Install(entry),
        },
{
    reveal_strlit("-");
    if entry.len() > 0 && entry[0] == '-' {
        assert(entry.subrange(0, 1) =~= "-"@);
    } else if "-"@.is_prefix_of(entry) {
        assert(entry.subrange(0, 1)[0] == "-"@[0]);
    }
}

/// Every entry is taken up once: one that starts with a dash among the removals, under the name
/// behind the dash, and any other among the installs, as it stands; both keep their order.
pub proof fn every_entry_is_taken_up(pkgs: Seq<Seq<char>>)
    ensures
        removals(pkgs) == Seq::new(
            pkgs.len(),
            |i: int|
                match removed_name(pkgs[i]) {
                    Some(name) => seq![name],
                    None => Seq::empty(),
                },
        ).flatten(),
        installs(pkgs) == Seq::new(
            pkgs.len(),
            |i: int|
                match removed_name(pkgs[i]) {
                    Some(_) => Seq::empty(),
                    None => seq![pkgs[i]],
                },
        ).flatten(),
    decreases pkgs.len(),
{
    let r = Seq::new(
        pkgs.len(),
        |i: int|
            match removed_name(pkgs[i]) {
                Some(name) => seq![name],
                None => Seq::<Seq<char>>::empty(),
            },
    );
    let n = Seq::new(
        pkgs.len(),
        |i: int|
            match removed_name(pkgs[i]) {
                Some(_) => Seq::<Seq<char>>::empty(),
                None => seq![pkgs[i]],
            },
    );
    if pkgs.len() > 0 {
        let q = pkgs.drop_last();
        every_entry_is_taken_up(q);
        lemma_request(pkgs.last());
        r.lemma_flatten_and_flatten_alt_are_equivalent();
        r.drop_last().lemma_flatten_and_flatten_alt_are_equivalent();
        n.lemma_flatten_and_flatten_alt_are_equivalent();
        n.drop_last().lemma_flatten_and_flatten_alt_are_equivalent();
        assert(r.drop_last() =~= Seq::new(
            q.len(),
            |i: int|
                match removed_name(q[i]) {
                    Some(name) => seq![name],
                    None => Seq::<Seq<char>>::empty(),
                },
        ));
        assert(n.drop_last() =~= Seq::new(
            q.len(),
            |i: int|
                match removed_name(q[i]) {
                    Some(_) => Seq::<Seq<char>>::empty(),
                    None => seq![q[i]],
                },
        ));
        assert(removals(pkgs) =~= r.drop_last().flatten() + r.last());
        assert(installs(pkgs) =~= n.drop_last().flatten() + n.last());
    }
}

// ---- feeds and package files ----

/// The file that the custom feeds are written to.
pub open spec fn feeds_path(b: PkgBackend) -> Seq<char> {
    match b {
        PkgBackend::Opkg => "/etc/opkg/customfeeds.conf"@,
        PkgBackend::Apk => "/etc/apk/repositories.d/customfeeds.list"@,
    }
}

/// The feed file is emptied, and then every feed is appended to it, in the declared order.
pub proof fn every_feed_is_written(b: PkgBackend, feeds: Seq<Seq<char>>)
    ensures
        feed_text(b, feeds) == (match b {
            PkgBackend::Opkg => Seq::empty(),
            PkgBackend::Apk => "\nmkdir -p /etc/apk/repositories.d"@,
        }) + "\nprintf '' > "@ + feeds_path(b) + Seq::new(
            feeds.len(),
            |i: int| "\nprintf '%s\\n' '"@ + escaped(feeds[i]) + "' >> "@ + feeds_path(b),
        ).flatten(),
    decreases feeds.len(),
{
    let p = Seq::new(
        feeds.len(),
        |i: int| "\nprintf '%s\\n' '"@ + escaped(feeds[i]) + "' >> "@ + feeds_path(b),
    );
    let head = (match b {
        PkgBackend::Opkg => Seq::empty(),
        PkgBackend::Apk => "\nmkdir -p /etc/apk/repositories.d"@,
    }) + "\nprintf '' > "@ + feeds_path(b);
    if feeds.len() == 0 {
        reveal_strlit("\nmkdir -p /etc/apk/repositories.d");
        reveal_strlit("\nprintf '' > ");
        reveal_strlit("\nmkdir -p /etc/apk/repositories.d\nprintf '' > ");
        assert(feed_text(b, feeds) =~= head + p.flatten());
    } else {
        let q = feeds.drop_last();
        every_feed_is_written(b, q);
        lemma_flat_last(p);
        assert(p.drop_last() =~= Seq::new(
            q.len(),
            |i: int| "\nprintf '%s\\n' '"@ + escaped(q[i]) + "' >> "@ + feeds_path(b),
        ));
        assert(feed_text(b, feeds) =~= head + p.flatten());
    }
}

/// What installs a package file that arrived in `/tmp`, unless its package is there.
pub open spec fn package_file_text(b: PkgBackend, path: Seq<char>) -> Seq<char> {
    match base_name(path) {
        Some(file) => "\nif ! "@ + (match b {
            PkgBackend::Opkg => "opkg status "@ + package_name(file)
                + " 2>/dev/null | grep -q 'Status:.*installed'; then\n    opkg install /tmp/"@,
            PkgBackend::Apk => "apk info -e "@ + package_name(file)
                + " >/dev/null 2>&1; then\n    apk add --allow-untrusted /tmp/"@,
        }) + file + "\nfi\n"@,
        None => Seq::empty(),
    }
}

proof fn lemma_package_file(b: PkgBackend, path: Seq<char>)
    ensures
        local_package_lines(b, path) == package_file_text(b, path),
{
    reveal_strlit("\nif ! ");
    reveal_strlit("opkg status ");
    reveal_strlit(" 2>/dev/null | grep -q 'Status:.*installed'");
    reveal_strlit("; then\n    opkg install /tmp/");
    reveal_strlit(" 2>/dev/null | grep -q 'Status:.*installed'; then\n    opkg install /tmp/");
    reveal_strlit("apk info -e ");
    reveal_strlit(" >/dev/null 2>&1");
    reveal_strlit("; then\n    apk add --allow-untrusted /tmp/");
    reveal_strlit(" >/dev/null 2>&1; then\n    apk add --allow-untrusted /tmp/");
    reveal_strlit("\nfi");
    reveal_strlit("\n");
    reveal_strlit("\nfi\n");
    assert(local_package_lines(b, path) =~= package_file_text(b, path));
}

/// Every package file is installed, in the declared order, unless its package is there.
pub proof fn every_package_file_is_installed(b: PkgBackend, paths: Seq<Seq<char>>)
    ensures
        all_local_lines(b, paths) == Seq::new(
            paths.len(),
            |i: int| package_file_text(b, paths[i]),
        ).flatten(),
    decreases paths.len(),
{
    let p = Seq::new(paths.len(), |i: int| package_file_text(b, paths[i]));
    if paths.len() > 0 {
        let q = paths.drop_last();
        every_package_file_is_installed(b, q);
        lemma_package_file(b, paths.last());
        lemma_flat_last(p);
        assert(p.drop_last() =~= Seq::new(q.len(), |i: int| package_file_text(b, q[i])));
    }
}

/// What there is to say of a list that may be missing.
pub open spec fn listed(list: Option<Seq<Seq<char>>>) -> Seq<Seq<char>> {
    match list {
        Some(l) => l,
        None => Seq::empty(),
    }
}

pub open spec fn listed_feeds(sources: Option<Sources>) -> Seq<Seq<char>> {
    match sources {
        Some(s) => listed(s.feeds),
        None => Seq::empty(),
    }
}

pub open spec fn listed_files(sources: Option<Sources>) -> Seq<Seq<char>> {
    match sources {
        Some(s) => listed(s.local_packages),
        None => Seq::empty(),
    }
}

/// Everything about packages, in its order: feeds, removals, installs, package files. A part is
/// left out only where there is nothing to it.
pub proof fn packages_are_complete(
    b: PkgBackend,
    sources: Option<Sources>,
    packages: Option<Seq<Seq<char>>>,
)
    ensures
        ({
            let feeds = listed_feeds(sources);
            let gone = removals(listed(packages));
            let wanted = installs(listed(packages));
            let none = Seq::<char>::empty();
            package_script(b, sources, packages) == (if feeds.len() == 0 {
                none
            } else {
                feed_text(b, feeds) + "\n"@
            }) + (if gone.len() == 0 {
                none
            } else {
                removal_block(b, gone)
            }) + (if wanted.len() == 0 {
                none
            } else {
                install_block(b, wanted)
            }) + all_local_lines(b, listed_files(sources))
        }),
{
    let feeds = listed_feeds(sources);
    let gone = removals(listed(packages));
    let wanted = installs(listed(packages));
    let none = Seq::<char>::empty();
    assert(package_script(b, sources, packages) =~= (if feeds.len() == 0 {
        none
    } else {
        feed_text(b, feeds) + "\n"@
    }) + (if gone.len() == 0 {
        none
    } else {
        removal_block(b, gone)
    }) + (if wanted.len() == 0 {
        none
    } else {
        install_block(b, wanted)
    }) + all_local_lines(b, listed_files(sources)));
}

/// The program that a preview asks after packages.
pub proof fn previews_ask_the_package_manager(b: PkgBackend)
    ensures
        probe_program(b) == match b {
            PkgBackend::Opkg => "opkg list-installed"@,
            PkgBackend::Apk => "apk info -e"@,
        },
{
}

/// Only the name `apk` selects `apk`; any other name, and no name, selects `opkg`.
pub proof fn package_managers_are_named(name: Seq<char>)
    ensures
        backend_named(name) == PkgBackend::Apk <==> name == "apk"@,
        backend_named(name) == PkgBackend::Opkg <==> name != "apk"@,
{
}

// ---- names of package files ----

/// The name of an `.ipk` is what stands before its first underscore.
pub proof fn ipk_files_carry_their_names(name: Seq<char>, rest: Seq<char>)
    requires
        !name.contains('_'),
    ensures
        package_name(name + "_"@ + rest + ".ipk"@) == name,
        package_name(name + ".ipk"@) == name,
{
    reveal_strlit("_");
    reveal_strlit(".ipk");
    let long = name + "_"@ + rest + ".ipk"@;
    let short = name + ".ipk"@;
    let stem = name + "_"@ + rest;
    assert(long.subrange(long.len() - 4, long.len() as int) =~= ".ipk"@);
    assert(short.subrange(short.len() - 4, short.len() as int) =~= ".ipk"@);
    assert(long.take(long.len() - 4) =~= stem);
    assert(short.take(short.len() - 4) =~= name);
    assert forall|j: int| 0 <= j < name.len() implies name[j] != '_' by {
        assert(name.contains(name[j]));
    }
    assert forall|j: int| 0 <= j < name.len() implies stem[j] != '_' by {
        assert(stem[j] == name[j]);
    }
    assert(stem[name.len() as int] == '_');
    lemma_find_is(stem, '_', name.len() as int);
    lemma_find_is(name, '_', name.len() as int);
    assert(before(stem, '_') =~= name);
    assert(before(name, '_') =~= name);
}

proof fn lemma_name_len(s: Seq<char>, i: int, n: int)
    requires
        0 <= i <= n <= s.len(),
        forall|j: int| i <= j < n ==> !version_at(s, j),
        n == s.len() || version_at(s, n),
    ensures
        name_len(s, i) == n,
    decreases n - i,
{
    if i < n {
        lemma_name_len(s, i + 1, n);
    }
}

/// The name of an `.apk` without underscores is what stands before the first dash with a digit
/// behind it.
pub proof fn apk_files_carry_their_names(name: Seq<char>, d: char, rest: Seq<char>)
    requires
        '0' <= d <= '9',
        !(name + seq!['-', d] + rest).contains('_'),
        forall|j: int|
            0 <= j < name.len() ==> !version_at(name + seq!['-', d] + rest, j),
    ensures
        package_name(name + seq!['-', d] + rest + ".apk"@) == name,
{
    reveal_strlit(".ipk");
    reveal_strlit(".apk");
    let stem = name + seq!['-', d] + rest;
    let file = stem + ".apk"@;
    assert(file.subrange(file.len() - 4, file.len() as int) =~= ".apk"@);
    assert(!".ipk"@.is_suffix_of(file)) by {
        assert(file.last() == 'k');
        assert(file[file.len() - 3] == 'a');
        if ".ipk"@.is_suffix_of(file) {
            assert(file.subrange(file.len() - 4, file.len() as int)[1] == ".ipk"@[1]);
        }
    }
    assert(file.take(file.len() - 4) =~= stem);
    assert(version_at(stem, name.len() as int));
    lemma_name_len(stem, 0, name.len() as int);
    assert(stem.take(name.len() as int) =~= name);
}

} // verus!
