//! What reading the entries of a `pnpm-lock.yaml` gives, field by field.
use vstd::prelude::*;
use crate::graph::{DepType, DirectDepView, LockedPackageView, LockfileGraphView};
use crate::laws::pnpm::{is_name, law_dep_path_parts, lemma_separator};
use crate::laws::specifier::{
    law_other_paths_are_no_shorthand, law_plain_ranges_are_of_the_registry,
};
use crate::pnpm::dep_path::{
    alias_remap, dep_path, dep_path_parts, resolved_tail, without_slash, AliasRemapView,
};
use crate::pnpm::document::{
    PatchedDependencyView, PnpmDepSpecView, PnpmImporterView, PnpmLockfileView, PnpmPackageInfoView,
    PnpmResolutionView, PnpmSettingsView, PnpmSnapshotView,
};
use crate::pnpm::read::{
    alias_target, canonical_keys, direct_dep_path, direct_source, first_peerless, graph_aliases,
    graph_locals, graph_of, graph_settings, importer_deps, is_absorbed, is_peerless, local_snapshot,
    locked_package, or_empty, other_packages, package_info, package_keys, resolution_source,
    section_deps, section_entries, with_aliases, with_prior, ReadErrorView,
};
use crate::source::{
    is_http_url, is_tarball_path, GitSourceView, LocalSourceView, RemoteTarballView,
};
use crate::strmap::{lemma_listing, lookup, sorted_keys};
use crate::text::{find_char, lemma_find_char, lemma_find_char_none, until};

verus! {

/// A package is told by its entry in `packages:` and by its snapshot: each field of the
/// two is the field of the package with that meaning.
pub proof fn law_package_fields(
    doc: PnpmLockfileView,
    name: Seq<char>,
    v: Seq<char>,
    info: PnpmPackageInfoView,
    s: PnpmSnapshotView,
)
    requires
        is_name(name),
        !is_http_url(until(v, '(')),
        lookup(doc.packages, name + "@"@ + until(v, '(')) == Some(info),
        lookup(doc.snapshots, name + "@"@ + v) == Some(s),
    ensures
        ({
            let p = locked_package(doc, name + "@"@ + v);
            &&& p.name == name
            &&& p.version == until(v, '(')
            &&& p.dep_path == name + "@"@ + v
            &&& p.os == info.os
            &&& p.cpu == info.cpu
            &&& p.libc == info.libc
            &&& p.engines == info.engines
            &&& p.alias_of == info.alias_of
            &&& info.has_bin <==> p.bin != Map::<Seq<char>, Seq<char>>::empty()
            &&& info.peer_dependencies matches Some(m) ==> p.peer_dependencies == m
            &&& info.peer_dependencies is None ==> p.peer_dependencies == Map::<
                Seq<char>,
                Seq<char>,
            >::empty()
            &&& info.peer_dependencies_meta matches Some(m) ==> p.peer_dependencies_meta == m
            &&& info.peer_dependencies_meta is None ==> p.peer_dependencies_meta.dom().is_empty()
            &&& info.resolution matches Some(r) ==> p.integrity == r.integrity
            &&& info.resolution is None ==> p.integrity is None && p.local_source is None
                && p.tarball_url is None
            &&& s.optional == Some(true) <==> p.optional
            &&& s.transitive_peer_dependencies matches Some(l) ==> p.transitive_peer_dependencies
                == l
            &&& s.transitive_peer_dependencies is None ==> p.transitive_peer_dependencies.len() == 0
            &&& s.bundled_dependencies matches Some(l) ==> p.bundled_dependencies == l
            &&& s.bundled_dependencies is None ==> p.bundled_dependencies.len() == 0
            &&& p.yarn_checksum is None
        }),
{
    law_dep_path_parts(name, v);
    let p = locked_package(doc, dep_path(name, v));
    if info.has_bin {
        assert(p.bin.dom().contains(Seq::<char>::empty()));
    }
}

/// The dependencies of a package are those of its snapshot, optional ones among them.
pub proof fn law_package_dependencies(
    doc: PnpmLockfileView,
    name: Seq<char>,
    v: Seq<char>,
    s: PnpmSnapshotView,
    n: Seq<char>,
)
    requires
        lookup(doc.snapshots, name + "@"@ + v) == Some(s),
    ensures
        ({
            let p = locked_package(doc, name + "@"@ + v);
            let (a, b) = (or_empty(s.dependencies), or_empty(s.optional_dependencies));
            &&& p.dependencies.dom().contains(n) <==> a.dom().contains(n) || b.dom().contains(n)
            &&& p.optional_dependencies.dom().contains(n) <==> b.dom().contains(n)
            &&& b.dom().contains(n) ==> p.optional_dependencies[n] == resolved_tail(n, b[n])
                && p.dependencies[n] == resolved_tail(n, b[n])
            &&& a.dom().contains(n) && !b.dom().contains(n) ==> p.dependencies[n] == resolved_tail(
                n,
                a[n],
            )
        }),
{
}

/// A section that may be left out.
pub proof fn law_sections<V>(m: Option<Map<Seq<char>, V>>, k: Seq<char>)
    ensures
        m matches Some(m) ==> or_empty(Some(m)) == m,
        m is None ==> !or_empty(m).dom().contains(k),
{
}

/// A version without `@` is what a dependency on it says, whatever its name.
pub proof fn law_plain_versions(n: Seq<char>, w: Seq<char>)
    requires
        !until(w, '(').contains('@'),
    ensures
        resolved_tail(n, w) == w,
        alias_remap(n, w) is None,
{
    let bare = until(w, '(');
    let t = without_slash(bare);
    assert forall|i: int| 0 <= i < t.len() implies t[i] != '@' by {
        if bare[0] == '/' {
            assert(bare.contains(bare[i + 1]));
        } else {
            assert(bare.contains(bare[i]));
        }
    }
    assert(!t.contains('@'));
    lemma_find_char_none(t, '@');
}

/// `name@version` under another name is an alias of that package. Its own version is
/// what stands behind the name.
pub proof fn law_aliases(n: Seq<char>, name: Seq<char>, version: Seq<char>)
    requires
        is_name(name),
        n != name,
        forall|i: int|
            0 <= i < name.len() ==> (#[trigger] name[i]) != '(' && name[i] != ':' && name[i] != '#'
                && name[i] != '+',
        forall|i: int|
            0 <= i < version.len() ==> (#[trigger] version[i]) != '(' && version[i] != ':'
                && version[i] != '#' && version[i] != '/',
        name[0] != '@' ==> !name.contains('/'),
    ensures
        resolved_tail(n, name + "@"@ + version) == version,
        alias_remap(n, name + "@"@ + version) == Some(
            AliasRemapView {
                alias_dep_path: n + "@"@ + version,
                real_dep_path: name + "@"@ + version,
                alias_name: n,
                real_name: name,
            },
        ),
{
    reveal_strlit("@");
    reveal_strlit("/");
    reveal_strlit("git+");
    let s = name + "@"@ + version;
    assert forall|i: int| 0 <= i < s.len() implies s[i] != '(' && s[i] != ':' && s[i] != '#' by {
        if i < name.len() {
            assert(s[i] == name[i]);
        } else if i > name.len() {
            assert(s[i] == version[i - name.len() - 1]);
        }
    }
    assert(!s.contains('(') && !s.contains(':') && !s.contains('#'));
    lemma_find_char_none(s, '(');
    law_dep_path_parts(name, version);
    assert(!version.contains('('));
    lemma_find_char_none(version, '(');
    assert(dep_path_parts(s) == Some((name, version)));
    assert(!name.contains(':'));
    if name[0] == '@' {
        lemma_find_char(name, '/');
        let k = find_char(name, '/')->0;
        let (a, b) = (name.take(k), name.skip(k + 1) + "@"@ + version);
        assert(s =~= a + "/"@ + b);
        assert forall|i: int| 0 <= i < a.len() implies a[i] != '/' && a[i] != ':' && a[i] != '#'
            && a[i] != '+' by {
            assert(a[i] == name[i]);
        }
        assert forall|i: int| 0 <= i < b.len() implies b[i] != ':' && b[i] != '#' by {
            assert(b[i] == s[k + 1 + i]);
        }
        assert(!crate::laws::specifier::is_repository_name(a)) by {
            assert(k > 0);
            assert(a[0] == '@');
        }
        law_other_paths_are_no_shorthand(a, b, false);
    } else {
        assert forall|i: int| 0 <= i < s.len() implies s[i] != '/' by {
            if i < name.len() {
                assert(name.contains(s[i]));
            } else if i > name.len() {
                assert(s[i] == version[i - name.len() - 1]);
            }
        }
        assert(!s.contains('/'));
        assert(!"git+"@.is_prefix_of(s)) by {
            if "git+"@.is_prefix_of(s) {
                let g = "git+"@;
                assert(s[0] == g[0] && s[1] == g[1] && s[2] == g[2] && s[3] == g[3]);
                if name.len() > 3 {
                    assert(s[3] == name[3]);
                } else {
                    assert(s[name.len() as int] == '@');
                }
            }
        }
        law_plain_ranges_are_of_the_registry(s, false);
    }
    assert(version + Seq::<char>::empty() =~= version);
}

/// The key under which a snapshot is read is its own, where no workspace package depends
/// on its source.
pub proof fn law_snapshots_are_packages(doc: PnpmLockfileView, g: LockfileGraphView, k: Seq<char>)
    requires
        graph_of(doc) == Ok::<LockfileGraphView, ReadErrorView>(g),
        doc.snapshots.dom().contains(k),
        !is_absorbed(canonical_keys(graph_locals(doc)), k),
        !graph_locals(doc).dom().contains(k),
    ensures
        g.packages.dom().contains(k),
        g.packages[k] == locked_package(doc, k),
{
    let own = other_packages(doc, canonical_keys(graph_locals(doc)));
    assert(doc.snapshots != Map::<Seq<char>, PnpmSnapshotView>::empty());
    assert(package_keys(doc).contains(k));
    assert(own.dom().contains(k));
    lemma_kept(own, graph_aliases(doc), k);
}

proof fn lemma_kept(
    packages: Map<Seq<char>, LockedPackageView>,
    remaps: Seq<AliasRemapView>,
    k: Seq<char>,
)
    requires
        packages.dom().contains(k),
    ensures
        with_aliases(packages, remaps) matches Ok(m) ==> m.dom().contains(k) && m[k] == packages[k],
    decreases remaps.len(),
{
    if remaps.len() > 0 {
        lemma_kept(packages, remaps.drop_last(), k);
    }
}

/// The settings, with the default of each.
pub proof fn law_settings(s: PnpmSettingsView)
    ensures
        ({
            let r = graph_settings(Some(s));
            &&& r.auto_install_peers <==> s.auto_install_peers != Some(false)
            &&& r.exclude_links_from_lockfile <==> s.exclude_links_from_lockfile == Some(true)
            &&& r.lockfile_include_tarball_url <==> s.lockfile_include_tarball_url == Some(true)
        }),
        graph_settings(None).auto_install_peers,
        !graph_settings(None).exclude_links_from_lockfile,
        !graph_settings(None).lockfile_include_tarball_url,
{
}

/// The head of a lockfile is read field by field.
pub proof fn law_head_fields(doc: PnpmLockfileView, g: LockfileGraphView)
    requires
        graph_of(doc) == Ok::<LockfileGraphView, ReadErrorView>(g),
    ensures
        doc.overrides matches Some(m) ==> g.overrides == m,
        doc.overrides is None ==> g.overrides == Map::<Seq<char>, Seq<char>>::empty(),
        doc.time matches Some(m) ==> g.times == m,
        doc.time is None ==> g.times == Map::<Seq<char>, Seq<char>>::empty(),
        doc.catalogs matches Some(m) ==> g.catalogs == m,
        doc.catalogs is None ==> g.catalogs.dom().is_empty(),
        doc.ignored_optional_dependencies matches Some(l) ==> forall|n: Seq<char>| #[trigger]
            g.ignored_optional_dependencies.contains(n) <==> l.contains(n),
        doc.ignored_optional_dependencies is None ==> forall|n: Seq<char>|
            !(#[trigger] g.ignored_optional_dependencies.contains(n)),
        doc.patched_dependencies matches Some(m) ==> forall|n: Seq<char>| #[trigger]
            m.dom().contains(n) ==> g.patched_dependencies.dom().contains(n)
                && g.patched_dependencies[n] == match m[n] {
                PatchedDependencyView::Path(p) => p,
                PatchedDependencyView::Object { path, .. } => path,
            },
        doc.patched_dependencies matches Some(m) ==> forall|n: Seq<char>| #[trigger]
            g.patched_dependencies.dom().contains(n) ==> m.dom().contains(n),
        doc.settings matches Some(s) ==> g.settings == graph_settings(Some(s)),
        doc.settings is None ==> g.settings == graph_settings(None),
{
    if let Some(l) = doc.ignored_optional_dependencies {
        assert forall|n: Seq<char>| #[trigger] g.ignored_optional_dependencies.contains(n)
            <==> l.contains(n) by {}
    }
}

/// The optional dependencies that a workspace package skipped are read with the ranges
/// that were asked for.
pub proof fn law_skipped_dependencies(
    doc: PnpmLockfileView,
    g: LockfileGraphView,
    path: Seq<char>,
    m: Map<Seq<char>, PnpmDepSpecView>,
    n: Seq<char>,
)
    requires
        graph_of(doc) == Ok::<LockfileGraphView, ReadErrorView>(g),
        path.len() > 0 && path != "."@,
        doc.importers.dom().contains(path),
        doc.importers[path].skipped_optional_dependencies == Some(m),
        m.dom().contains(n),
    ensures
        g.skipped_optional_dependencies.dom().contains(path),
        g.skipped_optional_dependencies[path].dom().contains(n),
        g.skipped_optional_dependencies[path][n] == m[n].specifier,
{
    assert(m != Map::<Seq<char>, PnpmDepSpecView>::empty());
}

/// The section of a workspace package with the dependencies of a type.
pub open spec fn section_of(i: PnpmImporterView, t: DepType) -> Option<
    Map<Seq<char>, PnpmDepSpecView>,
> {
    match t {
        DepType::Production => i.dependencies,
        DepType::Dev => i.dev_dependencies,
        DepType::Optional => i.optional_dependencies,
    }
}

proof fn lemma_section_deps(
    section: Option<Map<Seq<char>, PnpmDepSpecView>>,
    t: DepType,
    d: DirectDepView,
)
    requires
        section matches Some(m) ==> m.dom().finite(),
    ensures
        section_deps(section, t).contains(d) <==> section is Some && section->0.dom().contains(
            d.name,
        ) && d.dep_type == t && d.specifier == Some(section->0[d.name].specifier) && d.dep_path
            == direct_dep_path(d.name, section->0[d.name].version),
{
    let all = section_deps(section, t);
    let e = section_entries(section);
    if let Some(m) = section {
        let q = sorted_keys(m.dom());
        lemma_listing(m.dom());
        if all.contains(d) {
            let i = choose|i: int| 0 <= i < all.len() && all[i] == d;
            assert(e[i] == (q[i], m[q[i]]));
            assert(q.contains(q[i]));
        }
        if m.dom().contains(d.name) && d.dep_type == t && d.specifier == Some(m[d.name].specifier)
            && d.dep_path == direct_dep_path(d.name, m[d.name].version) {
            assert(q.contains(d.name));
            let i = choose|i: int| 0 <= i < q.len() && q[i] == d.name;
            assert(all[i] == d);
        }
    } else {
        assert(!all.contains(d));
    }
}

/// The direct dependencies of a workspace package are those of its three sections, each
/// with the range that was asked for and of the type of its section.
pub proof fn law_direct_dependencies(i: PnpmImporterView, d: DirectDepView)
    requires
        i.dependencies matches Some(m) ==> m.dom().finite(),
        i.dev_dependencies matches Some(m) ==> m.dom().finite(),
        i.optional_dependencies matches Some(m) ==> m.dom().finite(),
    ensures
        importer_deps(i).contains(d) <==> {
            let section = section_of(i, d.dep_type);
            &&& section is Some && section->0.dom().contains(d.name)
            &&& d.specifier == Some(section->0[d.name].specifier)
            &&& d.dep_path == direct_dep_path(d.name, section->0[d.name].version)
        },
{
    let (a, b, c) = (
        section_deps(i.dependencies, DepType::Production),
        section_deps(i.dev_dependencies, DepType::Dev),
        section_deps(i.optional_dependencies, DepType::Optional),
    );
    lemma_section_deps(i.dependencies, DepType::Production, d);
    lemma_section_deps(i.dev_dependencies, DepType::Dev, d);
    lemma_section_deps(i.optional_dependencies, DepType::Optional, d);
    crate::laws::yarn_read::lemma_joined(a, b, c, d);
}

/// A plain version leads to `name@version`, and `link:` to the package of the link.
pub proof fn law_direct_paths(n: Seq<char>, w: Seq<char>, p: Seq<char>)
    requires
        forall|i: int|
            0 <= i < w.len() ==> (#[trigger] w[i]) != '@' && w[i] != ':' && w[i] != '/' && w[i]
                != '#' && w[i] != '(',
        !"git+"@.is_prefix_of(w),
        !p.contains('(') && !"//"@.is_prefix_of(p),
    ensures
        direct_dep_path(n, w) == n + "@"@ + w,
        direct_dep_path(n, "link:"@ + p) == LocalSourceView::Link(p).dep_path(n),
        direct_source("link:"@ + p) == Some(LocalSourceView::Link(p)),
{
    assert(!w.contains('(') && !w.contains('@') && !w.contains(':') && !w.contains('/'));
    lemma_find_char_none(w, '(');
    law_plain_ranges_are_of_the_registry(w, false);
    law_plain_versions(n, w);
    reveal_strlit("link:");
    let s = "link:"@ + p;
    assert forall|i: int| 0 <= i < s.len() implies s[i] != '(' by {
        if i >= 5 {
            assert(p.contains(s[i]));
        }
    }
    assert(!s.contains('('));
    lemma_find_char_none(s, '(');
    crate::laws::specifier::law_path_protocols(p, false);
}

/// A resolution with a directory is that of a directory, one with a repository and a
/// commit that of a git source. A tarball is one on disk behind `file:`, and else one
/// at its URL.
pub proof fn law_resolutions(res: PnpmResolutionView, x: Seq<char>)
    ensures
        res.tarball is None && res.directory == Some(x) ==> resolution_source(res) == Some(
            LocalSourceView::Directory(x),
        ),
        res.tarball == Some("file:"@ + x) ==> resolution_source(res) == Some(
            LocalSourceView::Tarball(x),
        ),
        res.tarball == Some("https://"@ + x) && res.integrity is Some ==> resolution_source(res)
            == Some(
            LocalSourceView::RemoteTarball(
                RemoteTarballView { url: "https://"@ + x, integrity: res.integrity->0 },
            ),
        ),
        res.tarball == Some("http://"@ + x) && res.integrity is None ==> resolution_source(res)
            == Some(
            LocalSourceView::RemoteTarball(
                RemoteTarballView { url: "http://"@ + x, integrity: Seq::empty() },
            ),
        ),
        res.tarball is None && res.directory is None && res.commit == Some(x) && res.path is None
            ==> (res.repo matches Some(repo) ==> resolution_source(res) == Some(
            LocalSourceView::Git(
                GitSourceView { url: repo, committish: None, resolved: x, subpath: None },
            ),
        )),
        res.tarball is None && res.directory is None && (res.commit is None || res.repo is None)
            ==> resolution_source(res) is None,
{
    reveal_strlit("file:");
    reveal_strlit("https://");
    reveal_strlit("http://");
    let (a, b, c) = ("file:"@ + x, "https://"@ + x, "http://"@ + x);
    assert(a.take(5) =~= "file:"@ && a.skip(5) =~= x);
    assert(b.take(8) =~= "https://"@);
    assert(c.take(7) =~= "http://"@);
    assert(b[0] == 'h' && c[0] == 'h');
    if "file:"@.is_prefix_of(b) {
        assert(b[0] == "file:"@[0]);
    }
    if "file:"@.is_prefix_of(c) {
        assert(c[0] == "file:"@[0]);
    }
}

/// The slash that old lockfiles put in front of a key does not belong to it.
pub proof fn law_old_keys(name: Seq<char>, version: Seq<char>)
    requires
        is_name(name),
    ensures
        dep_path_parts("/"@ + (name + "@"@ + version)) == dep_path_parts(name + "@"@ + version),
        dep_path_parts(name + "@"@ + version) == Some((name, until(version, '('))),
{
    reveal_strlit("/");
    let s = "/"@ + (name + "@"@ + version);
    law_dep_path_parts(name, version);
    lemma_separator(name, version);
    assert(s.drop_first() =~= name + "@"@ + version);
}

/// Where a lockfile has no snapshots, the packages are those of `packages:`.
pub proof fn law_packages_without_snapshots(
    doc: PnpmLockfileView,
    g: LockfileGraphView,
    k: Seq<char>,
)
    requires
        graph_of(doc) == Ok::<LockfileGraphView, ReadErrorView>(g),
        doc.snapshots == Map::<Seq<char>, PnpmSnapshotView>::empty(),
        doc.packages.dom().contains(k),
        !is_absorbed(canonical_keys(graph_locals(doc)), k),
        !graph_locals(doc).dom().contains(k),
    ensures
        g.packages.dom().contains(k),
        g.packages[k] == locked_package(doc, k),
{
    let own = other_packages(doc, canonical_keys(graph_locals(doc)));
    assert(own.dom().contains(k));
    lemma_kept(own, graph_aliases(doc), k);
}

/// What `packages:` tells of a key stands under its name and version, or else under the key
/// itself.
pub proof fn law_entries_of_keys(doc: PnpmLockfileView, name: Seq<char>, v: Seq<char>)
    requires
        is_name(name),
    ensures
        ({
            let (key, bare) = (name + "@"@ + v, name + "@"@ + until(v, '('));
            package_info(doc, key) == match lookup(doc.packages, bare) {
                Some(info) => Some(info),
                None => lookup(doc.packages, key),
            }
        }),
{
    law_dep_path_parts(name, v);
}

/// An alias stands for the package under its key, or else for the one with its name and
/// version alone.
pub proof fn law_alias_targets(
    packages: Map<Seq<char>, LockedPackageView>,
    a: AliasRemapView,
    name: Seq<char>,
    v: Seq<char>,
)
    requires
        is_name(name),
        a.real_dep_path == name + "@"@ + v,
    ensures
        packages.dom().contains(name + "@"@ + v) ==> alias_target(packages, a) == Some(
            packages[name + "@"@ + v],
        ),
        !packages.dom().contains(name + "@"@ + v) ==> alias_target(packages, a) == lookup(
            packages,
            name + "@"@ + until(v, '('),
        ),
{
    law_dep_path_parts(name, v);
}

/// The snapshot of a package from a source stands under its key, or else under one that is
/// the key with peers behind it.
pub proof fn law_snapshots_of_sources(
    snapshots: Map<Seq<char>, PnpmSnapshotView>,
    name: Seq<char>,
    v: Seq<char>,
    peers: Seq<char>,
)
    requires
        is_name(name),
        !v.contains('('),
        snapshots.dom().finite(),
    ensures
        snapshots.dom().contains(name + "@"@ + v) ==> local_snapshot(snapshots, name + "@"@ + v)
            == Some(snapshots[name + "@"@ + v]),
        snapshots.dom().contains(name + "@"@ + (v + seq!['('] + peers)) ==> local_snapshot(
            snapshots,
            name + "@"@ + v,
        ) is Some,
{
    let key = name + "@"@ + v;
    let long = name + "@"@ + (v + seq!['('] + peers);
    crate::laws::text::law_parts(v, peers, '(');
    law_dep_path_parts(name, v + seq!['('] + peers);
    lemma_listing(snapshots.dom());
    let keys = sorted_keys(snapshots.dom());
    if snapshots.dom().contains(long) {
        assert(keys.contains(long));
        assert(is_peerless(long, key));
        lemma_some_peerless(keys, key, long);
    }
}

proof fn lemma_some_peerless(keys: Seq<Seq<char>>, canonical: Seq<char>, k: Seq<char>)
    requires
        keys.contains(k),
        is_peerless(k, canonical),
    ensures
        first_peerless(keys, canonical) is Some,
    decreases keys.len(),
{
    let i = choose|i: int| 0 <= i < keys.len() && keys[i] == k;
    if i < keys.len() - 1 {
        assert(keys.drop_last()[i] == k);
        lemma_some_peerless(keys.drop_last(), canonical, k);
    }
}

/// The entries of a package from a source are those under its key, and those under its key
/// with peers behind it.
pub proof fn law_entries_of_sources(
    canonical: Set<Seq<char>>,
    name: Seq<char>,
    v: Seq<char>,
    peers: Seq<char>,
)
    requires
        is_name(name),
        !v.contains('('),
    ensures
        ({
            let (key, long) = (name + "@"@ + v, name + "@"@ + (v + seq!['('] + peers));
            &&& is_absorbed(canonical, key) <==> canonical.contains(key)
            &&& is_absorbed(canonical, long) <==> canonical.contains(key) || canonical.contains(
                long,
            )
        }),
{
    crate::laws::text::law_parts(v, peers, '(');
    law_dep_path_parts(name, v);
    law_dep_path_parts(name, v + seq!['('] + peers);
}

/// What a resolution says of a source counts more than what the dependency says. Of a git
/// source the subdirectory of the dependency stays, where the resolution names none.
pub proof fn law_recorded_sources(
    recorded: Option<LocalSourceView>,
    prior: LocalSourceView,
    g: GitSourceView,
    h: GitSourceView,
)
    ensures
        with_prior(None, prior) == prior,
        recorded is Some && !(recorded->0 is Git) ==> with_prior(recorded, prior) == recorded->0,
        g.subpath is Some ==> with_prior(Some(LocalSourceView::Git(g)), prior)
            == LocalSourceView::Git(g),
        g.subpath is None ==> with_prior(
            Some(LocalSourceView::Git(g)),
            LocalSourceView::Git(h),
        ) == LocalSourceView::Git(
            GitSourceView {
                url: g.url,
                committish: g.committish,
                resolved: g.resolved,
                subpath: h.subpath,
            },
        ),
{
}

/// A direct dependency on a path is one on a tarball there where the path has the name of
/// one, and else on a directory. One on a commit of a git repository is pinned to it.
pub proof fn law_direct_sources(p: Seq<char>, x: Seq<char>, sha: Seq<char>)
    requires
        !p.contains('(') && !"//"@.is_prefix_of(p),
        !x.contains('#') && !x.contains('('),
        crate::laws::berry_block::is_commit(sha),
    ensures
        direct_source("file:"@ + p) == Some(
            if is_tarball_path(p) {
                LocalSourceView::Tarball(p)
            } else {
                LocalSourceView::Directory(p)
            },
        ),
        direct_source("https://"@ + x + "#"@ + sha) == Some(
            LocalSourceView::Git(
                GitSourceView {
                    url: "https://"@ + x,
                    committish: None,
                    resolved: sha,
                    subpath: None,
                },
            ),
        ),
{
    reveal_strlit("file:");
    reveal_strlit("https://");
    reveal_strlit("#");
    let (a, b) = ("file:"@ + p, "https://"@ + x + "#"@ + sha);
    assert forall|i: int| 0 <= i < a.len() implies a[i] != '(' by {
        if i >= 5 {
            assert(p.contains(a[i]));
        }
    }
    assert forall|i: int| 0 <= i < b.len() implies b[i] != '(' by {
        if 8 <= i < 8 + x.len() {
            assert(x.contains(b[i]));
        } else if i > 8 + x.len() {
            assert(b[i] == sha[i - 9 - x.len()]);
        }
    }
    assert(!a.contains('(') && !b.contains('('));
    lemma_find_char_none(a, '(');
    lemma_find_char_none(b, '(');
    crate::laws::specifier::law_path_protocols(p, false);
    crate::laws::specifier::law_pinned_urls("https://"@, x, sha);
}

/// A value whose name would hold a colon is no alias, nor is one that names a source.
pub proof fn law_no_aliases(n: Seq<char>, a: Seq<char>, b: Seq<char>)
    requires
        !a.contains('@') && !a.contains('(') && a.len() > 0 && a[0] != '/',
        !b.contains('('),
        a.contains(':'),
    ensures
        alias_remap(n, a + "@"@ + b) is None,
        resolved_tail(n, a + "@"@ + b) == a + "@"@ + b,
{
    reveal_strlit("@");
    let s = a + "@"@ + b;
    assert forall|i: int| 0 <= i < s.len() implies s[i] != '(' by {
        if i < a.len() {
            assert(a.contains(s[i]));
        } else if i > a.len() {
            assert(b.contains(s[i]));
        }
    }
    assert(!s.contains('('));
    lemma_find_char_none(s, '(');
    assert(is_name(a)) by {
        assert(a.contains(a[0]));
    }
    law_dep_path_parts(a, b);
    lemma_find_char_none(b, '(');
}

} // verus!
