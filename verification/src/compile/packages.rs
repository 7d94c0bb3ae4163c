//! Installing and removing packages.

use crate::config::models::{
    package_request, PackageAction, PackageRequest, PackageSources, PkgBackend, Sources,
};
use crate::utils::error::ConfigError;
use crate::utils::helpers::{
    escaped, extract_package_name, package_name, push_escaped_single_quotes, quoted, shell_quote,
};
use crate::utils::path::{base_name, file_name};
use crate::utils::split::{join, joined};
use crate::utils::text::texts;
use vstd::prelude::*;

verus! {

// ---- one package manager ----

/// The command that tells whether a package is installed.
pub open spec fn installed_cmd(b: PkgBackend, pkg: Seq<char>) -> Seq<char> {
    match b {
        PkgBackend::Opkg => "opkg status "@ + pkg
            + " 2>/dev/null | grep -q 'Status:.*installed'"@,
        PkgBackend::Apk => "apk info -e "@ + pkg + " >/dev/null 2>&1"@,
    }
}

/// The program that a package's name is handed to, to tell by its exit code whether the package is
/// installed.
pub open spec fn probe_program(b: PkgBackend) -> Seq<char> {
    match b {
        PkgBackend::Opkg => "opkg list-installed"@,
        PkgBackend::Apk => "apk info -e"@,
    }
}

/// The command that installs packages where one is missing.
pub open spec fn install_text(b: PkgBackend, pkgs: Seq<Seq<char>>) -> Seq<char> {
    match b {
        PkgBackend::Opkg =>
        "if [ \"$NEED_INSTALL\" = true ]; then opkg update && opkg install "@ + join(pkgs, " "@)
            + "; fi"@,
        PkgBackend::Apk => "if [ \"$NEED_INSTALL\" = true ]; then apk add "@ + join(pkgs, " "@)
            + "; fi"@,
    }
}

/// Each text as one shell word.
pub open spec fn quoted_all(names: Seq<Seq<char>>) -> Seq<Seq<char>> {
    Seq::new(names.len(), |i: int| quoted(names[i]))
}

/// The command that removes packages where one is there; the script ends if that fails.
pub open spec fn remove_text(b: PkgBackend, pkgs: Seq<Seq<char>>) -> Seq<char> {
    let names = join(quoted_all(pkgs), " "@);
    match b {
        PkgBackend::Opkg => "if [ \"$NEED_REMOVE\" = true ]; then opkg remove "@ + names
            + "; if [ $? -ne 0 ]; then exit 1; fi; fi"@,
        PkgBackend::Apk => "if [ \"$NEED_REMOVE\" = true ]; then apk del "@ + names
            + "; if [ $? -ne 0 ]; then exit 1; fi; fi"@,
    }
}

/// The lines that install a package file from `/tmp` where its package is missing.
pub open spec fn local_install_text(b: PkgBackend, pkg: Seq<char>, file: Seq<char>) -> Seq<char> {
    match b {
        PkgBackend::Opkg => "\nif ! "@ + installed_cmd(b, pkg)
            + "; then\n    opkg install /tmp/"@ + file + "\nfi"@,
        PkgBackend::Apk => "\nif ! "@ + installed_cmd(b, pkg)
            + "; then\n    apk add --allow-untrusted /tmp/"@ + file + "\nfi"@,
    }
}

/// The file that lists the custom feeds.
pub open spec fn feed_file(b: PkgBackend) -> Seq<char> {
    match b {
        PkgBackend::Opkg => "/etc/opkg/customfeeds.conf"@,
        PkgBackend::Apk => "/etc/apk/repositories.d/customfeeds.list"@,
    }
}

/// The line that adds one feed.
pub open spec fn feed_line(b: PkgBackend, feed: Seq<char>) -> Seq<char> {
    "\nprintf '%s\\n' '"@ + escaped(feed) + "' >> "@ + feed_file(b)
}

/// The lines that empty the feed file.
pub open spec fn feed_head(b: PkgBackend) -> Seq<char> {
    match b {
        PkgBackend::Opkg => "\nprintf '' > "@ + feed_file(b),
        PkgBackend::Apk => "\nmkdir -p /etc/apk/repositories.d\nprintf '' > "@ + feed_file(b),
    }
}

/// The lines that write the feed file anew.
pub open spec fn feed_text(b: PkgBackend, feeds: Seq<Seq<char>>) -> Seq<char>
    decreases feeds.len(),
{
    if feeds.len() == 0 {
        feed_head(b)
    } else {
        feed_text(b, feeds.drop_last()) + feed_line(b, feeds.last())
    }
}

fn quote_all(pkgs: &Vec<String>) -> (r: Vec<String>)
    ensures
        texts(r@) == quoted_all(texts(pkgs@)),
{
    let mut out: Vec<String> = Vec::new();
    let mut i: usize = 0;
    while i < pkgs.len()
        invariant
            i <= pkgs@.len(),
            out@.len() == i,
            forall|j: int| 0 <= j < i ==> (#[trigger] out@[j])@ == quoted(pkgs@[j]@),
        decreases pkgs@.len() - i,
    {
        out.push(shell_quote(pkgs[i].as_str()));
        i += 1;
    }
    assert(texts(out@) =~= quoted_all(texts(pkgs@)));
    out
}

impl PkgBackend {
    pub fn is_installed_cmd(&self, pkg: &str) -> (r: String)
        ensures
            r@ == installed_cmd(*self, pkg@),
    {
        match self {
            PkgBackend::Opkg => {
                let mut s = "opkg status ".to_owned();
                s.append(pkg);
                s.append(" 2>/dev/null | grep -q 'Status:.*installed'");
                s
            },
            PkgBackend::Apk => {
                let mut s = "apk info -e ".to_owned();
                s.append(pkg);
                s.append(" >/dev/null 2>&1");
                s
            },
        }
    }

    pub fn installed_probe(&self) -> (r: &'static str)
        ensures
            r@ == probe_program(*self),
    {
        match self {
            PkgBackend::Opkg => "opkg list-installed",
            PkgBackend::Apk => "apk info -e",
        }
    }

    pub fn install_expr(&self, pkgs: &Vec<String>) -> (r: String)
        ensures
            r@ == install_text(*self, texts(pkgs@)),
    {
        let mut s = match self {
            PkgBackend::Opkg =>
            "if [ \"$NEED_INSTALL\" = true ]; then opkg update && opkg install ".to_owned(),
            PkgBackend::Apk => "if [ \"$NEED_INSTALL\" = true ]; then apk add ".to_owned(),
        };
        s.append(joined(pkgs, " ").as_str());
        s.append("; fi");
        s
    }

    pub fn remove_expr(&self, pkgs: &Vec<String>) -> (r: String)
        ensures
            r@ == remove_text(*self, texts(pkgs@)),
    {
        let names = quote_all(pkgs);
        let mut s = match self {
            PkgBackend::Opkg => "if [ \"$NEED_REMOVE\" = true ]; then opkg remove ".to_owned(),
            PkgBackend::Apk => "if [ \"$NEED_REMOVE\" = true ]; then apk del ".to_owned(),
        };
        s.append(joined(&names, " ").as_str());
        s.append("; if [ $? -ne 0 ]; then exit 1; fi; fi");
        s
    }

    pub fn local_install_block(&self, pkg_name: &str, file_name: &str) -> (r: String)
        ensures
            r@ == local_install_text(*self, pkg_name@, file_name@),
    {
        let mut s = "\nif ! ".to_owned();
        s.append(self.is_installed_cmd(pkg_name).as_str());
        match self {
            PkgBackend::Opkg => s.append("; then\n    opkg install /tmp/"),
            PkgBackend::Apk => s.append("; then\n    apk add --allow-untrusted /tmp/"),
        }
        s.append(file_name);
        s.append("\nfi");
        s
    }

    pub fn feed_lines(&self, feeds: &Vec<String>) -> (r: String)
        ensures
            r@ == feed_text(*self, texts(feeds@)),
    {
        let file = match self {
            PkgBackend::Opkg => "/etc/opkg/customfeeds.conf",
            PkgBackend::Apk => "/etc/apk/repositories.d/customfeeds.list",
        };
        let mut out = match self {
            PkgBackend::Opkg => "\nprintf '' > ".to_owned(),
            PkgBackend::Apk => "\nmkdir -p /etc/apk/repositories.d\nprintf '' > ".to_owned(),
        };
        out.append(file);
        let ghost all = texts(feeds@);
        let mut i: usize = 0;
        assert(all.take(0) =~= Seq::empty());
        while i < feeds.len()
            invariant
                i <= feeds@.len() == all.len(),
                all == texts(feeds@),
                file@ == feed_file(*self),
                out@ == feed_text(*self, all.take(i as int)),
            decreases feeds@.len() - i,
        {
            let mut line = "\nprintf '%s\\n' '".to_owned();
            push_escaped_single_quotes(&mut line, feeds[i].as_str());
            line.append("' >> ");
            line.append(file);
            out.append(line.as_str());
            proof {
                assert(all.take(i + 1).drop_last() =~= all.take(i as int));
                assert(all.take(i + 1).last() == feeds@[i as int]@);
            }
            i += 1;
        }
        assert(all.take(i as int) =~= all);
        out
    }
}

// ---- packages by name ----

/// The names that the entries ask to remove, in their order.
pub open spec fn removals(pkgs: Seq<Seq<char>>) -> Seq<Seq<char>>
    decreases pkgs.len(),
{
    if pkgs.len() == 0 {
        Seq::empty()
    } else {
        match package_request(pkgs.last()) {
            PackageRequest::Remove(name) => removals(pkgs.drop_last()).push(name),
            PackageRequest::Install(_) => removals(pkgs.drop_last()),
        }
    }
}

/// The names that the entries ask to install, in their order.
pub open spec fn installs(pkgs: Seq<Seq<char>>) -> Seq<Seq<char>>
    decreases pkgs.len(),
{
    if pkgs.len() == 0 {
        Seq::empty()
    } else {
        match package_request(pkgs.last()) {
            PackageRequest::Install(name) => installs(pkgs.drop_last()).push(name),
            PackageRequest::Remove(_) => installs(pkgs.drop_last()),
        }
    }
}

/// The lines that find out whether one of the packages is there, and remove them all if so.
pub open spec fn removal_block(b: PkgBackend, names: Seq<Seq<char>>) -> Seq<char> {
    let probe = match b {
        PkgBackend::Opkg =>
        "    if opkg status \"$pkg\" 2>/dev/null | grep -q 'Status:.*installed'; then NEED_REMOVE=true; break; fi\n"@,
        PkgBackend::Apk =>
        "    if apk info -e \"$pkg\" >/dev/null 2>&1; then NEED_REMOVE=true; break; fi\n"@,
    };
    "\nNEED_REMOVE=false\nfor pkg in "@ + join(quoted_all(names), " "@) + "; do\n"@ + probe
        + "done\n"@ + remove_text(b, names) + "\n"@
}

/// The lines that find out whether one of the packages is missing, and install them all if so.
pub open spec fn install_block(b: PkgBackend, names: Seq<Seq<char>>) -> Seq<char> {
    let probe = match b {
        PkgBackend::Opkg =>
        "    if ! opkg status \"$pkg\" 2>/dev/null | grep -q 'Status:.*installed'; then NEED_INSTALL=true; break; fi\n"@,
        PkgBackend::Apk =>
        "    if ! apk info -e \"$pkg\" >/dev/null 2>&1; then NEED_INSTALL=true; break; fi\n"@,
    };
    "\nNEED_INSTALL=false\nfor pkg in "@ + join(quoted_all(names), " "@) + "; do\n"@ + probe
        + "done\n"@ + install_text(b, names) + "\n"@
}

/// The lines for packages by name: what is removed comes before what is installed, and a block
/// without packages is left out.
pub open spec fn named_package_lines(b: PkgBackend, packages: Option<Seq<Seq<char>>>) -> Seq<char> {
    match packages {
        Some(pkgs) => {
            let removal = if removals(pkgs).len() > 0 {
                removal_block(b, removals(pkgs))
            } else {
                Seq::empty()
            };
            let install = if installs(pkgs).len() > 0 {
                install_block(b, installs(pkgs))
            } else {
                Seq::empty()
            };
            removal + install
        },
        None => Seq::empty(),
    }
}

// ---- package files ----

/// The lines for one package file. A path without a file name has none.
pub open spec fn local_package_lines(b: PkgBackend, path: Seq<char>) -> Seq<char> {
    match base_name(path) {
        Some(file) => local_install_text(b, package_name(file), file) + "\n"@,
        None => Seq::empty(),
    }
}

/// The lines for all package files.
pub open spec fn all_local_lines(b: PkgBackend, paths: Seq<Seq<char>>) -> Seq<char>
    decreases paths.len(),
{
    if paths.len() == 0 {
        Seq::empty()
    } else {
        all_local_lines(b, paths.drop_last()) + local_package_lines(b, paths.last())
    }
}

pub open spec fn local_lines(b: PkgBackend, sources: Option<Sources>) -> Seq<char> {
    match sources {
        Some(s) => match s.local_packages {
            Some(paths) => all_local_lines(b, paths),
            None => Seq::empty(),
        },
        None => Seq::empty(),
    }
}

pub open spec fn custom_feed_lines(b: PkgBackend, sources: Option<Sources>) -> Seq<char> {
    match sources {
        Some(s) => match s.feeds {
            Some(feeds) => if feeds.len() > 0 {
                feed_text(b, feeds) + "\n"@
            } else {
                Seq::empty()
            },
            None => Seq::empty(),
        },
        None => Seq::empty(),
    }
}

/// Everything about packages: the custom feeds, then packages by name, then package files. The
/// feeds come first, so that a package that stands in one of them is found; what package files
/// depend on is there before them.
pub open spec fn package_script(
    b: PkgBackend,
    sources: Option<Sources>,
    packages: Option<Seq<Seq<char>>>,
) -> Seq<char> {
    custom_feed_lines(b, sources) + named_package_lines(b, packages) + local_lines(b, sources)
}

fn removal_text(backend: PkgBackend, names: &Vec<String>) -> (r: String)
    ensures
        r@ == removal_block(backend, texts(names@)),
{
    let mut s = "\nNEED_REMOVE=false\nfor pkg in ".to_owned();
    s.append(joined(&quote_all(names), " ").as_str());
    s.append("; do\n");
    match backend {
        PkgBackend::Opkg => s.append(
            "    if opkg status \"$pkg\" 2>/dev/null | grep -q 'Status:.*installed'; then NEED_REMOVE=true; break; fi\n",
        ),
        PkgBackend::Apk => s.append(
            "    if apk info -e \"$pkg\" >/dev/null 2>&1; then NEED_REMOVE=true; break; fi\n",
        ),
    }
    s.append("done\n");
    s.append(backend.remove_expr(names).as_str());
    s.append("\n");
    s
}

fn installation_text(backend: PkgBackend, names: &Vec<String>) -> (r: String)
    ensures
        r@ == install_block(backend, texts(names@)),
{
    let mut s = "\nNEED_INSTALL=false\nfor pkg in ".to_owned();
    s.append(joined(&quote_all(names), " ").as_str());
    s.append("; do\n");
    match backend {
        PkgBackend::Opkg => s.append(
            "    if ! opkg status \"$pkg\" 2>/dev/null | grep -q 'Status:.*installed'; then NEED_INSTALL=true; break; fi\n",
        ),
        PkgBackend::Apk => s.append(
            "    if ! apk info -e \"$pkg\" >/dev/null 2>&1; then NEED_INSTALL=true; break; fi\n",
        ),
    }
    s.append("done\n");
    s.append(backend.install_expr(names).as_str());
    s.append("\n");
    s
}

fn serialize_named_packages(backend: PkgBackend, pkgs: &Vec<String>) -> (r: String)
    ensures
        r@ == named_package_lines(backend, Some(texts(pkgs@))),
{
    let ghost all = texts(pkgs@);
    let mut removed: Vec<String> = Vec::new();
    let mut installed: Vec<String> = Vec::new();
    let mut i: usize = 0;
    proof {
        assert(texts(removed@) =~= removals(all.take(0)));
        assert(texts(installed@) =~= installs(all.take(0)));
    }
    while i < pkgs.len()
        invariant
            i <= pkgs@.len() == all.len(),
            all == texts(pkgs@),
            texts(removed@) == removals(all.take(i as int)),
            texts(installed@) == installs(all.take(i as int)),
        decreases pkgs@.len() - i,
    {
        let ghost r0 = texts(removed@);
        let ghost i0 = texts(installed@);
        let action = PackageAction::parse(pkgs[i].as_str());
        let name = action.name().to_owned();
        proof {
            assert(all.take(i + 1).drop_last() =~= all.take(i as int));
            assert(all.take(i + 1).last() == pkgs@[i as int]@);
        }
        if action.is_remove() {
            removed.push(name);
            assert(texts(removed@) =~= r0.push(name@));
        } else {
            installed.push(name);
            assert(texts(installed@) =~= i0.push(name@));
        }
        i += 1;
    }
    assert(all.take(i as int) =~= all);
    let mut s = String::new();
    if removed.len() > 0 {
        s.append(removal_text(backend, &removed).as_str());
    }
    proof {
        assert(s@ =~= if removals(all).len() > 0 {
            removal_block(backend, removals(all))
        } else {
            Seq::empty()
        });
    }
    if installed.len() > 0 {
        s.append(installation_text(backend, &installed).as_str());
    }
    assert(s@ =~= named_package_lines(backend, Some(all)));
    s
}

fn serialize_local_packages(backend: PkgBackend, paths: &Vec<String>) -> (r: String)
    ensures
        r@ == all_local_lines(backend, texts(paths@)),
{
    let ghost all = texts(paths@);
    let mut s = String::new();
    let mut i: usize = 0;
    assert(s@ =~= all_local_lines(backend, all.take(0)));
    while i < paths.len()
        invariant
            i <= paths@.len() == all.len(),
            all == texts(paths@),
            s@ == all_local_lines(backend, all.take(i as int)),
        decreases paths@.len() - i,
    {
        let ghost before = s@;
        proof {
            assert(all.take(i + 1).drop_last() =~= all.take(i as int));
            assert(all.take(i + 1).last() == paths@[i as int]@);
        }
        if let Some(file) = file_name(paths[i].as_str()) {
            let pkg = extract_package_name(file.as_str());
            let mut block = backend.local_install_block(pkg.as_str(), file.as_str());
            block.append("\n");
            s.append(block.as_str());
        } else {
            assert(s@ =~= before + Seq::<char>::empty());
        }
        i += 1;
    }
    assert(all.take(i as int) =~= all);
    s
}

/// Writes everything about packages. It always succeeds.
pub fn serialize_package_management(
    writer: &mut String,
    backend: PkgBackend,
    sources: Option<&PackageSources>,
    packages: Option<&Vec<String>>,
) -> (r: Result<(), ConfigError>)
    ensures
        r is Ok,
        final(writer)@ == old(writer)@ + package_script(
            backend,
            match sources {
                Some(s) => Some(s@),
                None => None,
            },
            match packages {
                Some(p) => Some(texts(p@)),
                None => None,
            },
        ),
{
    let mut s = String::new();
    if let Some(src) = sources {
        if let Some(feeds) = &src.feeds {
            if feeds.len() > 0 {
                s.append(backend.feed_lines(feeds).as_str());
                s.append("\n");
            }
        }
    }
    if let Some(pkgs) = packages {
        s.append(serialize_named_packages(backend, pkgs).as_str());
    }
    if let Some(src) = sources {
        if let Some(paths) = &src.local_packages {
            s.append(serialize_local_packages(backend, paths).as_str());
        }
    }
    proof {
        let src = match sources {
            Some(s) => Some(s@),
            None => None,
        };
        let pk = match packages {
            Some(p) => Some(texts(p@)),
            None => None,
        };
        assert(s@ =~= package_script(backend, src, pk));
    }
    writer.append(s.as_str());
    Ok(())
}

// ---- laws ----

proof fn lemma_requests_split(pkgs: Seq<Seq<char>>)
    ensures
        removals(pkgs).len() + installs(pkgs).len() == pkgs.len(),
    decreases pkgs.len(),
{
    if pkgs.len() > 0 {
        lemma_requests_split(pkgs.drop_last());
    }
}

/// Whatever the entries, in whatever order they stand: every removal is written before the first
/// install, and no entry is left out.
pub proof fn removals_precede_installs(b: PkgBackend, pkgs: Seq<Seq<char>>)
    requires
        removals(pkgs).len() > 0,
        installs(pkgs).len() > 0,
    ensures
        named_package_lines(b, Some(pkgs)) == removal_block(b, removals(pkgs)) + install_block(
            b,
            installs(pkgs),
        ),
        removals(pkgs).len() + installs(pkgs).len() == pkgs.len(),
{
    lemma_requests_split(pkgs);
}

/// Custom feeds are written before anything is installed, and packages are installed by name
/// before package files are.
pub proof fn feeds_precede_installs(
    b: PkgBackend,
    feeds: Seq<Seq<char>>,
    paths: Seq<Seq<char>>,
    pkgs: Seq<Seq<char>>,
)
    requires
        feeds.len() > 0,
        installs(pkgs).len() > 0,
    ensures
        ({
            let sources = Sources { feeds: Some(feeds), local_packages: Some(paths) };
            let before = feed_text(b, feeds) + "\n"@ + if removals(pkgs).len() > 0 {
                removal_block(b, removals(pkgs))
            } else {
                Seq::empty()
            };
            package_script(b, Some(sources), Some(pkgs)) == before + install_block(b, installs(pkgs))
                + all_local_lines(b, paths)
        }),
{
    lemma_requests_split(pkgs);
    let sources = Sources { feeds: Some(feeds), local_packages: Some(paths) };
    let before = feed_text(b, feeds) + "\n"@ + if removals(pkgs).len() > 0 {
        removal_block(b, removals(pkgs))
    } else {
        Seq::empty()
    };
    assert(package_script(b, Some(sources), Some(pkgs)) =~= before + install_block(
        b,
        installs(pkgs),
    ) + all_local_lines(b, paths));
}

/// Entries that only install leave no trace of a removal, and the other way round.
pub proof fn blocks_without_packages_are_left_out(b: PkgBackend, pkgs: Seq<Seq<char>>)
    ensures
        removals(pkgs).len() == 0 && pkgs.len() > 0 ==> named_package_lines(b, Some(pkgs))
            == install_block(b, installs(pkgs)),
        installs(pkgs).len() == 0 && pkgs.len() > 0 ==> named_package_lines(b, Some(pkgs))
            == removal_block(b, removals(pkgs)),
        pkgs.len() == 0 ==> named_package_lines(b, Some(pkgs)) == Seq::<char>::empty(),
{
    lemma_requests_split(pkgs);
    if removals(pkgs).len() == 0 && pkgs.len() > 0 {
        assert(named_package_lines(b, Some(pkgs)) =~= install_block(b, installs(pkgs)));
    }
    if installs(pkgs).len() == 0 && pkgs.len() > 0 {
        assert(named_package_lines(b, Some(pkgs)) =~= removal_block(b, removals(pkgs)));
    }
}

} // verus!
