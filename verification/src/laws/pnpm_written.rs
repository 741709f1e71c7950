//! What a `pnpm-lock.yaml` tells of a graph, entry by entry.
use vstd::prelude::*;
use crate::graph::{DepType, DirectDepView, LockedPackageView};
use crate::laws::pnpm::is_name;
use crate::pnpm::dep_path::{dep_path, peerless_target, tail};
use crate::pnpm::write::{
    info_key, is_left_out, is_link, local_resolution, registry_resolution, snapshot_key,
    written_dep, written_deps, written_info, written_snapshot, written_value, Input,
};
use crate::source::{GitSourceView, LocalSourceView, RemoteTarballView};
use crate::strmap::lookup;
use crate::yarn::canonical::{child_key, dep_version};

verus! {

/// The section of the manifest of the workspace root for a type.
pub open spec fn root_section(input: Input, t: DepType) -> Map<Seq<char>, Seq<char>> {
    match t {
        DepType::Production => input.ranges.dependencies,
        DepType::Dev => input.ranges.dev_dependencies,
        DepType::Optional => input.ranges.optional_dependencies,
    }
}

/// A direct dependency is written with the range that was asked for. Where that is not
/// known, the root is written with the range in its manifest, and all else with `*`.
pub proof fn law_written_ranges(input: Input, path: Seq<char>, d: DirectDepView)
    ensures
        d.specifier matches Some(s) ==> written_dep(input, path, d).specifier == s,
        d.specifier is None && path == "."@ && root_section(input, d.dep_type).dom().contains(d.name)
            ==> written_dep(input, path, d).specifier == root_section(input, d.dep_type)[d.name],
        d.specifier is None && !(path == "."@ && root_section(input, d.dep_type).dom().contains(
            d.name,
        )) ==> written_dep(input, path, d).specifier == "*"@,
{
}

/// A direct dependency on a package of the registry is written with its version and peers,
/// one on a source with the specifier of the source, and an alias with the name of the
/// package that it stands for in front, where the file is pnpm's own.
pub proof fn law_written_versions(
    input: Input,
    path: Seq<char>,
    d: DirectDepView,
    p: LockedPackageView,
    v: Seq<char>,
)
    requires
        d.dep_path == d.name + "@"@ + v,
        lookup(input.graph.packages, d.dep_path) == Some(p),
    ensures
        ({
            let w = written_dep(input, path, d).version;
            &&& p.local_source matches Some(source) ==> w == source.specifier()
            &&& p.local_source is None && p.alias_of is None ==> w == v
            &&& p.local_source is None && p.alias_of is Some && input.native ==> w == p.alias_of->0
                + "@"@ + v
            &&& p.local_source is None && p.alias_of is Some && !input.native ==> w == v
        }),
{
    lemma_tail(d.name, v);
}

proof fn lemma_tail(n: Seq<char>, v: Seq<char>)
    ensures
        tail(n + "@"@ + v, n) == v,
{
    let s = n + "@"@ + v;
    let p = n + "@"@;
    assert(s.take(p.len() as int) =~= p);
    assert(s.skip(p.len() as int) =~= v);
}

/// The resolution of a package of the registry tells its integrity, and the URL of its
/// tarball where the settings ask for it or where the package is from JSR.
pub proof fn law_registry_resolutions(with_url: bool, p: LockedPackageView)
    ensures
        p.integrity is None ==> registry_resolution(with_url, p) is None,
        p.integrity is Some ==> {
            let r = registry_resolution(with_url, p);
            &&& r is Some && r->0.integrity == p.integrity
            &&& r->0.directory is None && r->0.commit is None && r->0.repo is None && r->0.type_
                is None && r->0.path is None
            &&& with_url ==> r->0.tarball == p.tarball_url
            &&& !with_url && p.alias_of is None && "@jsr/"@.is_prefix_of(p.name) ==> r->0.tarball
                == p.tarball_url
            &&& !with_url && p.alias_of is None && !"@jsr/"@.is_prefix_of(p.name) ==> r->0.tarball
                is None
        },
{
}

/// The resolution of a package from a source names the source.
pub proof fn law_source_resolutions(p: Seq<char>, g: GitSourceView, t: RemoteTarballView)
    requires
        !p.contains('\\'),
    ensures
        local_resolution(LocalSourceView::Link(p)) is None,
        local_resolution(LocalSourceView::Directory(p)) matches Some(r) && r.directory == Some(p)
            && r.type_ == Some("directory"@) && r.tarball is None,
        local_resolution(LocalSourceView::Tarball(p)) matches Some(r) && r.tarball == Some(
            "file:"@ + p,
        ) && r.directory is None,
        local_resolution(LocalSourceView::Git(g)) matches Some(r) && r.repo == Some(g.url)
            && r.commit == Some(g.resolved) && r.type_ == Some("git"@) && (g.subpath is None
            ==> r.path is None) && (g.subpath matches Some(sub) ==> r.path == Some("/"@ + sub)),
        local_resolution(LocalSourceView::RemoteTarball(t)) matches Some(r) && r.tarball == Some(
            t.url,
        ) && (t.integrity.len() > 0 ==> r.integrity == Some(t.integrity)) && (t.integrity.len()
            == 0 ==> r.integrity is None),
{
    let q = LocalSourceView::Directory(p).posix();
    assert(q =~= p) by {
        assert forall|i: int| 0 <= i < p.len() implies q[i] == p[i] by {
            assert(p.contains(p[i]));
        }
    }
    assert(LocalSourceView::Tarball(p).posix() =~= q);
}

/// What is known of a package is written field by field.
pub proof fn law_written_fields(input: Input, p: LockedPackageView)
    ensures
        ({
            let w = written_info(input, p);
            &&& w.os == p.os
            &&& w.cpu == p.cpu
            &&& w.libc == p.libc
            &&& w.engines == p.engines
            &&& w.has_bin <==> p.bin != Map::<Seq<char>, Seq<char>>::empty()
            &&& p.peer_dependencies != Map::<Seq<char>, Seq<char>>::empty()
                ==> w.peer_dependencies == Some(p.peer_dependencies)
            &&& p.peer_dependencies == Map::<Seq<char>, Seq<char>>::empty()
                ==> w.peer_dependencies is None
            &&& p.peer_dependencies_meta.dom().is_empty() || w.peer_dependencies_meta == Some(
                p.peer_dependencies_meta,
            )
            &&& input.native ==> w.alias_of is None
            &&& !input.native ==> w.alias_of == p.alias_of
        }),
        ({
            let s = written_snapshot(input, p);
            &&& p.optional <==> s.optional == Some(true)
            &&& !p.optional ==> s.optional is None
            &&& p.transitive_peer_dependencies.len() > 0 ==> s.transitive_peer_dependencies == Some(
                p.transitive_peer_dependencies,
            )
            &&& p.bundled_dependencies.len() > 0 ==> s.bundled_dependencies == Some(
                p.bundled_dependencies,
            )
        }),
{
    if p.peer_dependencies_meta == Map::<Seq<char>, crate::graph::PeerDepMetaView>::empty() {
        assert(p.peer_dependencies_meta.dom() =~= Set::empty());
    }
}

/// A package of the registry has its entry in `packages:` under its name and version, and
/// its snapshot under its key.
pub proof fn law_written_keys(input: Input, p: LockedPackageView, k: Seq<char>)
    requires
        p.local_source is None,
        p.alias_of is None,
        p.tarball_url is None,
    ensures
        info_key(input, p) == p.name + "@"@ + p.version,
        snapshot_key(input, k, p) == k,
        !is_link(p),
{
}

/// A package from a source has both entries under its name and the specifier of the source.
pub proof fn law_source_keys(
    input: Input,
    p: LockedPackageView,
    k: Seq<char>,
    source: LocalSourceView,
)
    requires
        p.local_source == Some(source),
    ensures
        info_key(input, p) == p.name + "@"@ + source.specifier(),
        snapshot_key(input, k, p) == p.name + "@"@ + source.specifier(),
        is_link(p) <==> source is Link,
{
}

/// The version that a dependency names: it may be a dep path or a version, with or without
/// peers.
pub proof fn law_named_versions(n: Seq<char>, v: Seq<char>, peers: Seq<char>)
    requires
        !v.contains('('),
        !(n + "@"@).is_prefix_of(v),
        !(n + "@"@).is_prefix_of(v + seq!['('] + peers),
    ensures
        dep_version(n, v) == v,
        dep_version(n, n + "@"@ + v) == v,
        dep_version(n, v + seq!['('] + peers) == v,
        dep_version(n, n + "@"@ + (v + seq!['('] + peers)) == v,
        child_key(n, v) == n + "@"@ + v,
{
    lemma_tail(n, v);
    lemma_tail(n, v + seq!['('] + peers);
    crate::laws::text::law_parts(v, peers, '(');
}

/// A lookup without peers finds the package under the name and version alone.
pub proof fn law_peerless_lookup(
    packages: Map<Seq<char>, LockedPackageView>,
    n: Seq<char>,
    v: Seq<char>,
    peers: Seq<char>,
)
    requires
        is_name(n),
        !v.contains('('),
    ensures
        peerless_target(packages, n + "@"@ + (v + seq!['('] + peers)) == lookup(
            packages,
            n + "@"@ + v,
        ),
        peerless_target(packages, n + "@"@ + v) == lookup(packages, n + "@"@ + v),
{
    crate::laws::pnpm::law_dep_path_parts(n, v + seq!['('] + peers);
    crate::laws::pnpm::law_dep_path_parts(n, v);
    crate::laws::text::law_parts(v, peers, '(');
}

/// The dependencies of a package are written in two sections: the optional ones, and all
/// others.
pub proof fn law_written_sections(input: Input, p: LockedPackageView, n: Seq<char>)
    ensures
        ({
            let s = written_snapshot(input, p);
            let (a, b) = (p.dependencies, p.optional_dependencies);
            &&& b.dom().contains(n) ==> s.optional_dependencies is Some
                && s.optional_dependencies->0.dom().contains(n)
                && s.optional_dependencies->0[n] == written_value(input, n, b[n])
            &&& a.dom().contains(n) && !b.dom().contains(n) ==> s.dependencies is Some
                && s.dependencies->0.dom().contains(n) && s.dependencies->0[n] == written_value(
                input,
                n,
                a[n],
            )
            &&& s.dependencies is Some && s.dependencies->0.dom().contains(n) ==> a.dom().contains(
                n,
            ) && !b.dom().contains(n)
            &&& s.optional_dependencies is Some && s.optional_dependencies->0.dom().contains(n)
                ==> b.dom().contains(n)
        }),
{
    let x = written_deps(input, p.dependencies).remove_keys(p.optional_dependencies.dom());
    let y = written_deps(input, p.optional_dependencies);
    if x.dom().contains(n) {
        assert(x != Map::<Seq<char>, Seq<char>>::empty());
    }
    if y.dom().contains(n) {
        assert(y != Map::<Seq<char>, Seq<char>>::empty());
    }
}

/// A dependency on a package under its own key is written as it is for a package of the
/// registry, with the specifier for one from a source, and with the name of the package
/// that it stands for in front for an alias, where the file is pnpm's own.
pub proof fn law_written_values(
    input: Input,
    n: Seq<char>,
    v: Seq<char>,
    p: LockedPackageView,
)
    requires
        lookup(input.graph.packages, n + "@"@ + v) == Some(p),
    ensures
        p.local_source is None && p.alias_of is None ==> written_value(input, n, v) == v,
        p.local_source is None && p.alias_of is Some && input.native ==> written_value(input, n, v)
            == p.alias_of->0 + "@"@ + v,
        p.local_source is None && !input.native ==> written_value(input, n, v) == v,
        p.local_source matches Some(source) ==> !(source is Link) ==> written_value(input, n, v)
            == source.specifier(),
{
}

/// The key that a dependency with peers leads to is that of its name and version alone.
pub proof fn law_keys_without_peers(n: Seq<char>, v: Seq<char>, peers: Seq<char>)
    requires
        !v.contains('('),
    ensures
        child_key(n, n + "@"@ + (v + seq!['('] + peers)) == n + "@"@ + v,
        child_key(n, n + "@"@ + v) == n + "@"@ + v,
{
    lemma_tail(n, v);
    lemma_tail(n, v + seq!['('] + peers);
    crate::laws::text::law_parts(v, peers, '(');
}

/// What stands behind the name in a dep path.
pub proof fn law_tails(n: Seq<char>, v: Seq<char>)
    ensures
        tail(n + "@"@ + v, n) == v,
        !(n + "@"@).is_prefix_of(v) ==> tail(v, n) == v,
{
    lemma_tail(n, v);
}

/// A package whose key holds the URL of its tarball is written under that key, with its
/// version beside it.
pub proof fn law_packages_by_url(input: Input, p: LockedPackageView, url: Seq<char>)
    requires
        is_name(p.name),
        p.local_source is None && p.alias_of is None,
        !url.contains('('),
        p.tarball_url == Some(url),
        p.dep_path == p.name + "@"@ + url,
    ensures
        info_key(input, p) == p.name + "@"@ + url,
        written_info(input, p).version == Some(p.version),
        written_info(input, p).resolution matches Some(r) && r.tarball == Some(url) && r.integrity
            == p.integrity,
{
    crate::laws::pnpm::law_dep_path_parts(p.name, url);
    crate::laws::text::law_parts(url, Seq::empty(), '(');
}

/// Only links are left out, and only where the settings say so.
pub proof fn law_links_left_out(input: Input, d: DirectDepView)
    ensures
        is_left_out(input.graph, d) <==> input.graph.settings.exclude_links_from_lockfile && (lookup(
            input.graph.packages,
            d.dep_path,
        ) matches Some(p) && (p.local_source matches Some(source) && source is Link)),
{
}

} // verus!
