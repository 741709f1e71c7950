//! What writing and reading a `pnpm-lock.yaml` guarantee together.
use vstd::prelude::*;
use vstd::utf8::encode_utf8;
use crate::graph::{default_package, DepType, DirectDepView, LockedPackageView, LockfileGraphView};
use crate::pnpm::dep_path::{
    alias_remap, aliases, aliases_among, dep_path, dep_path_parts, resolved_deps, resolved_tail,
    tail, version_separator, without_slash, AliasRemapView,
};
use crate::pnpm::document::{PnpmDepSpecView, PnpmImporterView, PnpmLockfileView, PnpmSnapshotView};
use crate::pnpm::read::{
    add_locals, all_entries, canonical_keys, direct_dep, direct_local_package, direct_source,
    entries_of, entry_aliases, first_invalid, first_peerless, graph_aliases, graph_importers,
    graph_locals, graph_of, graph_packages, graph_settings, graph_skipped, harvested,
    harvested_aliases, http_tarball, importer_deps, importer_entries, is_absorbed, is_invalid,
    is_peerless, local_aliases, local_canonical, local_packages, local_snapshot, locked_package,
    opaque_bin, opt_aliases, or_empty, or_nothing, other_packages, package_info, package_keys,
    patch_paths, recorded_source, resolution_source, section_deps, section_entries,
    section_specifiers, snapshot_aliases, snapshot_at, with_aliases, with_prior, Entry,
    ReadErrorView,
};
use crate::pnpm::write::{
    document_of, info_key, is_left_out, is_link, is_url_keyed, local_resolution, skipped_section,
    snapshot_key, unless_empty, unless_nothing, written_dep, written_deps, written_importers,
    written_info, written_packages, written_patches, written_section, written_snapshot,
    written_snapshots, written_value, Input,
};
use crate::laws::source::{
    is_plain_clone_url, law_git_specifier_round_trip, law_subpath_stays_inside,
};
use crate::source::{
    component, git_spec, hex, is_full_sha, is_http_url, is_safe_subpath, is_tarball_path,
    local_source, sha256, GitSourceView, LocalSourceView, RemoteTarballView,
};
use crate::strmap::{
    ascending, before, is_listing, lemma_before_irreflexive, lemma_listing, lemma_sorted_keys,
    lookup, sorted_keys,
};
use crate::text::{
    find_char, find_char_from, lemma_find_char, lemma_find_char_at, lemma_find_char_from,
    lemma_find_char_none, replace_char, trim_start_char, until,
};

verus! {

/// A package name as it stands in front of the `@` of a dep path.
pub open spec fn is_name(n: Seq<char>) -> bool {
    n.len() > 0 && n[0] != '/' && if n[0] == '@' {
        match find_char(n, '/') {
            Some(slash) => !n.skip(slash + 1).contains('@'),
            None => false,
        }
    } else {
        !n.contains('@')
    }
}

pub proof fn lemma_find_char_from_at(s: Seq<char>, c: char, from: int, k: int)
    requires
        0 <= from <= k < s.len(),
        s[k] == c,
        forall|j: int| from <= j < k ==> s[j] != c,
    ensures
        find_char_from(s, c, from) == Some(k),
{
    lemma_find_char_from(s, c, from);
    match find_char_from(s, c, from) {
        Some(i) => {
            if i > k {
                assert(s[k] != c);
            }
        },
        None => {
            assert(s[k] != c);
        },
    }
}

pub proof fn lemma_separator(n: Seq<char>, v: Seq<char>)
    requires
        is_name(n),
    ensures
        without_slash(dep_path(n, v)) == dep_path(n, v),
        version_separator(dep_path(n, v)) == Some(n.len() as int),
{
    let s = dep_path(n, v);
    reveal_strlit("@");
    assert(s[n.len() as int] == '@');
    assert(s.take(n.len() as int) =~= n);
    assert(s[0] == n[0]);
    if n[0] == '@' {
        let slash = find_char(n, '/')->0;
        lemma_find_char(n, '/');
        assert forall|j: int| 0 <= j < slash implies s[j] != '/' by {
            assert(s[j] == n[j]);
        }
        assert(s[slash] == n[slash]);
        lemma_find_char_at(s, '/', slash);
        assert forall|j: int| slash + 1 <= j < n.len() implies s[j] != '@' by {
            assert(n.skip(slash + 1)[j - slash - 1] == n[j]);
            assert(s[j] == n[j]);
        }
        lemma_find_char_from_at(s, '@', slash + 1, n.len() as int);
    } else {
        assert forall|j: int| 0 <= j < n.len() implies s[j] != '@' by {
            assert(s[j] == n[j]);
        }
        lemma_find_char_at(s, '@', n.len() as int);
    }
}

/// A dep path is taken apart into the name and the version that it was put
/// together from, without the peer suffix; and what stands behind the name is
/// the version with it.
pub proof fn law_dep_path_parts(name: Seq<char>, version: Seq<char>)
    requires
        is_name(name),
    ensures
        dep_path_parts(dep_path(name, version)) == Some((name, until(version, '('))),
        tail(dep_path(name, version), name) == version,
{
    let s = dep_path(name, version);
    lemma_separator(name, version);
    reveal_strlit("@");
    assert(s.take(name.len() as int) =~= name);
    assert(s.skip(name.len() as int + 1) =~= version);
    assert((name + "@"@).is_prefix_of(s)) by {
        assert(s.take((name + "@"@).len() as int) =~= name + "@"@);
    }
    assert(s.skip((name + "@"@).len() as int) =~= version);
}

/// Two packages with one dep path have one name and one version.
pub proof fn law_dep_path_is_injective(
    name: Seq<char>,
    version: Seq<char>,
    other: Seq<char>,
    other_version: Seq<char>,
)
    requires
        is_name(name),
        is_name(other),
        dep_path(name, version) == dep_path(other, other_version),
    ensures
        name == other,
        version == other_version,
{
    lemma_separator(name, version);
    lemma_separator(other, other_version);
    let s = dep_path(name, version);
    reveal_strlit("@");
    assert(s.take(name.len() as int) =~= name);
    assert(s.take(other.len() as int) =~= other);
    law_dep_path_parts(name, version);
    law_dep_path_parts(other, other_version);
}

proof fn lemma_until(v: Seq<char>)
    ensures
        until(until(v, '('), '(') == until(v, '('),
{
    let u = until(v, '(');
    lemma_find_char(v, '(');
    lemma_find_char(u, '(');
    if find_char(u, '(') is Some {
        let i = find_char(u, '(')->0;
        assert(u[i] == v[i]);
    }
}

/// The dependencies of one type, in their order.
pub open spec fn of_type(deps: Seq<DirectDepView>, t: DepType) -> Seq<DirectDepView>
    decreases deps.len(),
{
    if deps.len() == 0 {
        Seq::empty()
    } else if deps.last().dep_type == t {
        of_type(deps.drop_last(), t).push(deps.last())
    } else {
        of_type(deps.drop_last(), t)
    }
}

/// The names of some dependencies.
pub open spec fn names(deps: Seq<DirectDepView>) -> Seq<Seq<char>> {
    deps.map_values(|d: DirectDepView| d.name)
}

/// Direct dependencies in the order of a lockfile: by type, and by name within
/// a type, each name once.
pub open spec fn in_order(deps: Seq<DirectDepView>) -> bool {
    &&& deps == of_type(deps, DepType::Production) + of_type(deps, DepType::Dev) + of_type(
        deps,
        DepType::Optional,
    )
    &&& ascending(names(of_type(deps, DepType::Production)))
    &&& ascending(names(of_type(deps, DepType::Dev)))
    &&& ascending(names(of_type(deps, DepType::Optional)))
}

/// The source that a specifier and the recorded resolution of a source give
/// back.
pub open spec fn reread(source: LocalSourceView) -> LocalSourceView {
    let prior = direct_source(source.specifier())->0;
    with_prior(
        match local_resolution(source) {
            Some(res) => resolution_source(res),
            None => None,
        },
        prior,
    )
}

/// A source that a lockfile can tell: its specifier leads back to its key, and
/// with its resolution to the source itself.
pub open spec fn is_storable_source(source: LocalSourceView) -> bool {
    &&& until(source.specifier(), '(') == source.specifier()
    &&& direct_source(source.specifier()) matches Some(prior) && prior.specifier()
        == source.specifier() && prior.identity() == source.identity() && prior.kind()
        == source.kind()
    &&& reread(source) == source
}

/// Whether a package is an alias that is written the way pnpm itself does.
pub open spec fn is_native_alias(input: Input, p: LockedPackageView) -> bool {
    input.native && p.local_source is None && p.alias_of is Some
}

/// The key of the package that an alias stands for.
pub open spec fn target_key(key: Seq<char>, p: LockedPackageView) -> Seq<char> {
    dep_path(p.alias_of->0, tail(key, p.name))
}

/// Whether a package from a local source is a direct dependency, and not one
/// of packages alone.
pub open spec fn is_direct_source(key: Seq<char>, p: LockedPackageView) -> bool {
    p.local_source matches Some(source) && key == source.dep_path(p.name)
}

/// A dependency that a lockfile can tell: it is written as it is and reads as
/// no alias, or it leads to an alias.
pub open spec fn is_storable_value(input: Input, n: Seq<char>, value: Seq<char>) -> bool {
    ||| alias_remap(n, value) is None && written_value(input, n, value) == value
    ||| (lookup(input.graph.packages, dep_path(n, value)) matches Some(p) && p.name == n
        && is_native_alias(input, p))
}

/// Dependencies that a lockfile can tell.
pub open spec fn are_storable_deps(input: Input, deps: Map<Seq<char>, Seq<char>>) -> bool {
    forall|n: Seq<char>|
        #![trigger deps.dom().contains(n)]
        #![trigger deps[n]]
        deps.dom().contains(n) ==> is_storable_value(input, n, deps[n])
}

/// What a lockfile can tell of a package beside its source, its version and its
/// dependencies.
pub open spec fn has_storable_rest(p: LockedPackageView) -> bool {
    &&& p.bin == opaque_bin(p.bin != Map::<Seq<char>, Seq<char>>::empty())
    &&& p.yarn_checksum is None
    &&& p.declared_dependencies == Map::<Seq<char>, Seq<char>>::empty()
}

/// A package from a registry that a lockfile can tell.
pub open spec fn is_storable_registry_package(
    input: Input,
    key: Seq<char>,
    p: LockedPackageView,
) -> bool {
    &&& key == dep_path(p.name, tail(key, p.name))
    &&& until(tail(key, p.name), '(') == p.version
    &&& !is_http_url(p.version)
    &&& p.tarball_url matches Some(url) ==> is_http_url(url) && p.integrity is Some && (
    input.graph.settings.lockfile_include_tarball_url || "@jsr/"@.is_prefix_of(p.registry_name()))
    &&& has_storable_rest(p)
}

/// An alias that a lockfile can tell: its target is in the graph, and a
/// workspace package or a package depends on it.
pub open spec fn is_storable_alias(input: Input, key: Seq<char>, p: LockedPackageView) -> bool {
    let target = p.alias_of->0;
    &&& is_name(target)
    &&& !target.contains('(')
    &&& !target.contains(':')
    &&& local_source(dep_path(target, p.version), false) is None
    &&& target != p.name
    &&& lookup(input.graph.packages, target_key(key, p)) == Some(
        LockedPackageView {
            name: target,
            dep_path: target_key(key, p),
            alias_of: None,
            ..p
        },
    )
    &&& is_direct(input.graph, key) || is_indirect(input.graph, key)
}

/// A package from a local source that a lockfile can tell and that is a direct
/// dependency: all that is known of it is its source and its dependencies.
pub open spec fn is_storable_direct_source(
    input: Input,
    key: Seq<char>,
    p: LockedPackageView,
    source: LocalSourceView,
) -> bool {
    &&& is_storable_source(source)
    &&& p == LockedPackageView {
        name: p.name,
        version: "0.0.0"@,
        dep_path: key,
        local_source: Some(source),
        dependencies: p.dependencies,
        optional_dependencies: p.optional_dependencies,
        ..default_package()
    }
    &&& source is Link ==> !input.graph.settings.exclude_links_from_lockfile && p.dependencies
        == Map::<Seq<char>, Seq<char>>::empty()
    &&& is_direct(input.graph, key)
}

/// A package from a local source that a lockfile can tell and that only
/// packages depend on: its key is its specifier, and its version too, unless
/// the specifier is the URL of its tarball.
pub open spec fn is_storable_indirect_source(
    input: Input,
    key: Seq<char>,
    p: LockedPackageView,
    source: LocalSourceView,
) -> bool {
    &&& key == dep_path(p.name, source.specifier())
    &&& until(source.specifier(), '(') == source.specifier()
    &&& source is RemoteTarball ==> is_http_url(source.specifier())
    &&& local_resolution(source) matches Some(res) && resolution_source(res) == Some(source)
        && p.integrity == res.integrity && p.tarball_url == http_tarball(Some(res))
    &&& is_url_keyed(p) || p.version == source.specifier()
    &&& input.native ==> p.alias_of is None
    &&& has_storable_rest(p)
}

/// A package that a lockfile can tell.
pub open spec fn is_storable_package(input: Input, key: Seq<char>, p: LockedPackageView) -> bool {
    &&& is_name(p.name)
    &&& p.dep_path == key
    &&& are_storable_deps(input, p.dependencies)
    &&& p.dependencies.dom().finite()
    &&& p.optional_dependencies.submap_of(p.dependencies)
    &&& match p.local_source {
        None => is_storable_registry_package(input, key, p) && (is_native_alias(input, p)
            ==> is_storable_alias(input, key, p)),
        Some(source) => if is_direct_source(key, p) {
            is_storable_direct_source(input, key, p, source)
        } else {
            is_storable_indirect_source(input, key, p, source)
        },
    }
}

/// A direct dependency that a lockfile can tell: it has a range, and leads to a
/// package with its name.
pub open spec fn is_storable_dep(input: Input, dep: DirectDepView) -> bool {
    &&& dep.specifier is Some
    &&& lookup(input.graph.packages, dep.dep_path) matches Some(p) && p.name == dep.name && if
        p.local_source is Some {
        is_direct_source(dep.dep_path, p)
    } else if is_native_alias(input, p) {
        direct_source(target_key(dep.dep_path, p)) is None
    } else {
        direct_source(p.version) is None && alias_remap(dep.name, tail(dep.dep_path, dep.name))
            is None
    }
}

/// Direct dependencies that a lockfile can tell.
pub open spec fn are_storable_direct_deps(input: Input, deps: Seq<DirectDepView>) -> bool {
    in_order(deps) && forall|i: int|
        0 <= i < deps.len() ==> is_storable_dep(input, #[trigger] deps[i])
}

/// Whether a workspace package depends on the package under a key.
pub open spec fn is_direct(graph: LockfileGraphView, key: Seq<char>) -> bool {
    exists|path: Seq<char>, i: int|
        #![trigger graph.importers[path][i]]
        graph.importers.dom().contains(path) && 0 <= i < graph.importers[path].len()
            && graph.importers[path][i].dep_path == key
}

/// Whether a package depends on the package under a key.
pub open spec fn is_indirect(graph: LockfileGraphView, key: Seq<char>) -> bool {
    exists|k: Seq<char>, n: Seq<char>|
        #![trigger graph.packages[k].dependencies.dom().contains(n)]
        graph.packages.dom().contains(k) && graph.packages[k].dependencies.dom().contains(n)
            && dep_path(n, graph.packages[k].dependencies[n]) == key && n
            == graph.packages[key].name
}

/// A graph that a lockfile can tell.
pub open spec fn is_storable(input: Input) -> bool {
    let g = input.graph;
    &&& g.packages.dom().finite()
    &&& g.importers.dom().finite()
    &&& g.ignored_optional_dependencies.finite()
    &&& forall|k: Seq<char>| #[trigger]
        g.packages.dom().contains(k) ==> is_storable_package(input, k, g.packages[k])
    &&& forall|a: Seq<char>, b: Seq<char>| #[trigger]
        g.packages.dom().contains(a) && #[trigger] g.packages.dom().contains(b)
            && is_direct_source(a, g.packages[a]) && !is_direct_source(b, g.packages[b])
            ==> local_canonical(g.packages[a]) != dep_path(
            g.packages[b].name,
            until(tail(b, g.packages[b].name), '('),
        )
    &&& forall|a: Seq<char>, b: Seq<char>| #[trigger]
        g.packages.dom().contains(a) && #[trigger] g.packages.dom().contains(b) && info_key(
            input,
            g.packages[a],
        ) == info_key(input, g.packages[b]) ==> written_info(input, g.packages[a]) == written_info(
            input,
            g.packages[b],
        )
    &&& forall|path: Seq<char>| #[trigger]
        g.importers.dom().contains(path) ==> path.len() > 0 && are_storable_direct_deps(
            input,
            g.importers[path],
        )
    &&& forall|path: Seq<char>| #[trigger]
        g.skipped_optional_dependencies.dom().contains(path) ==> g.importers.dom().contains(path)
            && g.skipped_optional_dependencies[path] != Map::<Seq<char>, Seq<char>>::empty()
}

/// The section that the dependencies of one type are written to.
spec fn section_map(
    input: Input,
    importer: Seq<char>,
    deps: Seq<DirectDepView>,
) -> Map<Seq<char>, PnpmDepSpecView> {
    Map::new(
        |n: Seq<char>| names(deps).contains(n),
        |n: Seq<char>| written_dep(input, importer, deps[names(deps).index_of(n)]),
    )
}

pub proof fn lemma_ascending_index(q: Seq<Seq<char>>, i: int)
    requires
        ascending(q),
        0 <= i < q.len(),
    ensures
        q.index_of(q[i]) == i,
{
    let j = q.index_of(q[i]);
    assert(q.contains(q[i]));
    if j < i {
        assert(before(q[j], q[i]));
        lemma_before_irreflexive(q[i]);
    } else if i < j {
        assert(before(q[i], q[j]));
        lemma_before_irreflexive(q[i]);
    }
}

proof fn lemma_section(input: Input, importer: Seq<char>, deps: Seq<DirectDepView>, t: DepType)
    requires
        ascending(names(of_type(deps, t))),
        forall|i: int| 0 <= i < deps.len() ==> !is_left_out(input.graph, #[trigger] deps[i]),
    ensures
        written_section(input, importer, deps, t) == (if of_type(deps, t).len() == 0 {
            None
        } else {
            Some(section_map(input, importer, of_type(deps, t)))
        }),
    decreases deps.len(),
{
    if deps.len() > 0 {
        let front = deps.drop_last();
        let old_part = of_type(front, t);
        let part = of_type(deps, t);
        assert(deps[deps.len() - 1] == deps.last());
        assert forall|i: int| 0 <= i < front.len() implies !is_left_out(
            input.graph,
            #[trigger] front[i],
        ) by {
            assert(front[i] == deps[i]);
        }
        if deps.last().dep_type == t {
            let d = deps.last();
            assert(names(part) =~= names(old_part).push(d.name));
            assert(ascending(names(old_part))) by {
                assert forall|i: int, j: int| 0 <= i < j < old_part.len() implies before(
                    #[trigger] names(old_part)[i],
                    #[trigger] names(old_part)[j],
                ) by {
                    assert(before(names(part)[i], names(part)[j]));
                }
            }
            lemma_section(input, importer, front, t);
            let m = if old_part.len() == 0 {
                Map::<Seq<char>, PnpmDepSpecView>::empty()
            } else {
                section_map(input, importer, old_part)
            };
            let want = section_map(input, importer, part);
            let n = old_part.len() as int;
            assert(m.insert(d.name, written_dep(input, importer, d)) =~= want) by {
                lemma_ascending_index(names(part), n);
                assert(names(part)[n] == d.name);
                assert forall|k: Seq<char>| names(old_part).contains(k) implies names(
                    part,
                ).contains(k) && k != d.name && part[names(part).index_of(k)]
                    == old_part[names(old_part).index_of(k)] by {
                    let i = names(old_part).index_of(k);
                    assert(names(part)[i] == k);
                    assert(names(part).contains(k));
                    lemma_ascending_index(names(part), i);
                    assert(before(names(part)[i], names(part)[n]));
                    lemma_before_irreflexive(k);
                }
                assert forall|k: Seq<char>| names(part).contains(k) implies k == d.name || names(
                    old_part,
                ).contains(k) by {
                    let i = names(part).index_of(k);
                    assert(names(part)[i] == k);
                    if i < n {
                        assert(names(old_part)[i] == k);
                    }
                }
            }
        } else {
            lemma_section(input, importer, front, t);
        }
    }
}

proof fn lemma_section_entries(input: Input, importer: Seq<char>, part: Seq<DirectDepView>)
    requires
        ascending(names(part)),
    ensures
        ({
            let m = section_map(input, importer, part);
            &&& section_entries(Some(m)) == part.map_values(
                |d: DirectDepView| (d.name, written_dep(input, importer, d)),
            )
        }),
{
    let m = section_map(input, importer, part);
    let want = part.map_values(|d: DirectDepView| (d.name, written_dep(input, importer, d)));
    assert(is_listing(names(part), m.dom()));
    lemma_sorted_keys(names(part), m.dom());
    let got = section_entries(Some(m));
    assert forall|i: int| 0 <= i < part.len() implies got[i] == want[i] by {
        lemma_ascending_index(names(part), i);
        assert(names(part).contains(names(part)[i]));
    }
    assert(got =~= want);
}

pub proof fn lemma_of_type(deps: Seq<DirectDepView>, t: DepType, i: int)
    requires
        0 <= i < of_type(deps, t).len(),
    ensures
        of_type(deps, t)[i].dep_type == t,
        exists|j: int| 0 <= j < deps.len() && deps[j] == of_type(deps, t)[i],
    decreases deps.len(),
{
    let front = deps.drop_last();
    if deps.last().dep_type == t && i == of_type(deps, t).len() - 1 {
        assert(deps[deps.len() - 1] == of_type(deps, t)[i]);
    } else {
        lemma_of_type(front, t, i);
        let j = choose|j: int| 0 <= j < front.len() && front[j] == of_type(front, t)[i];
        assert(deps[j] == of_type(deps, t)[i]);
    }
}

/// What is read for an alias.
spec fn remap_of(input: Input, k: Seq<char>) -> AliasRemapView {
    let p = input.graph.packages[k];
    AliasRemapView {
        alias_dep_path: k,
        real_dep_path: target_key(k, p),
        alias_name: p.name,
        real_name: p.alias_of->0,
    }
}

/// Whether what is read is an alias of the graph.
spec fn is_alias_of(input: Input, a: AliasRemapView) -> bool {
    &&& input.graph.packages.dom().contains(a.alias_dep_path)
    &&& is_native_alias(input, input.graph.packages[a.alias_dep_path])
    &&& a == remap_of(input, a.alias_dep_path)
}

/// Whether a list holds aliases of the graph alone.
spec fn are_aliases_of(input: Input, q: Seq<AliasRemapView>) -> bool {
    forall|i: int| 0 <= i < q.len() ==> is_alias_of(input, #[trigger] q[i])
}

proof fn lemma_aliases_concat(input: Input, a: Seq<AliasRemapView>, b: Seq<AliasRemapView>)
    requires
        are_aliases_of(input, a),
        are_aliases_of(input, b),
    ensures
        are_aliases_of(input, a + b),
        forall|x: AliasRemapView|
            a.contains(x) || b.contains(x) ==> #[trigger] (a + b).contains(x),
{
    let c = a + b;
    assert forall|i: int| 0 <= i < c.len() implies is_alias_of(input, #[trigger] c[i]) by {
        if i < a.len() {
            assert(c[i] == a[i]);
        } else {
            assert(c[i] == b[i - a.len()]);
        }
    }
    assert forall|x: AliasRemapView| a.contains(x) || b.contains(x) implies #[trigger] c.contains(
        x,
    ) by {
        if a.contains(x) {
            let i = choose|i: int| 0 <= i < a.len() && a[i] == x;
            assert(c[i] == x);
        } else {
            let i = choose|i: int| 0 <= i < b.len() && b[i] == x;
            assert(c[a.len() + i] == x);
        }
    }
}

/// What the dep path of an alias's target reads as.
proof fn lemma_alias_value(input: Input, k: Seq<char>)
    requires
        is_storable(input),
        input.graph.packages.dom().contains(k),
        is_native_alias(input, input.graph.packages[k]),
    ensures
        ({
            let p = input.graph.packages[k];
            let value = target_key(k, p);
            &&& k == dep_path(p.name, tail(k, p.name))
            &&& resolved_tail(p.name, value) == tail(k, p.name)
            &&& alias_remap(p.name, value) == Some(remap_of(input, k))
            &&& is_alias_of(input, remap_of(input, k))
        }),
{
    let p = input.graph.packages[k];
    assert(is_storable_package(input, k, p));
    law_native_alias_reads_back(p.name, p.alias_of->0, tail(k, p.name));
}

/// What a direct dependency is written as reads as the dependency.
proof fn lemma_dep(input: Input, importer: Seq<char>, dep: DirectDepView)
    requires
        is_storable(input),
        is_storable_dep(input, dep),
    ensures
        !is_left_out(input.graph, dep),
        direct_dep(dep.name, written_dep(input, importer, dep), dep.dep_type) == dep,
        ({
            let p = input.graph.packages[dep.dep_path];
            let version = written_dep(input, importer, dep).version;
            match p.local_source {
                Some(source) => version == source.specifier() && direct_source(version) is Some,
                None => direct_source(version) is None && alias_remap(dep.name, version) == (
                if is_native_alias(input, p) {
                    Some(remap_of(input, dep.dep_path))
                } else {
                    None
                }),
            }
        }),
{
    let p = input.graph.packages[dep.dep_path];
    assert(is_storable_package(input, dep.dep_path, p));
    match p.local_source {
        Some(source) => {
            let prior = direct_source(source.specifier())->0;
            assert(prior.dep_path(dep.name) == source.dep_path(dep.name));
        },
        None => {
            lemma_until(tail(dep.dep_path, dep.name));
            if is_native_alias(input, p) {
                lemma_alias_value(input, dep.dep_path);
            }
        },
    }
}

/// The dependencies of one type read back.
proof fn lemma_section_deps(
    input: Input,
    importer: Seq<char>,
    deps: Seq<DirectDepView>,
    t: DepType,
)
    requires
        is_storable(input),
        ascending(names(of_type(deps, t))),
        forall|i: int| 0 <= i < deps.len() ==> is_storable_dep(input, #[trigger] deps[i]),
    ensures
        section_deps(written_section(input, importer, deps, t), t) == of_type(deps, t),
        section_entries(written_section(input, importer, deps, t)) == of_type(
            deps,
            t,
        ).map_values(|d: DirectDepView| (d.name, written_dep(input, importer, d))),
{
    let part = of_type(deps, t);
    assert forall|i: int| 0 <= i < deps.len() implies !is_left_out(
        input.graph,
        #[trigger] deps[i],
    ) by {
        lemma_dep(input, importer, deps[i]);
    }
    lemma_section(input, importer, deps, t);
    let want = part.map_values(|d: DirectDepView| (d.name, written_dep(input, importer, d)));
    if part.len() == 0 {
        assert(want =~= Seq::<Entry>::empty());
    } else {
        lemma_section_entries(input, importer, part);
    }
    let got = section_deps(written_section(input, importer, deps, t), t);
    assert forall|i: int| 0 <= i < part.len() implies got[i] == part[i] by {
        lemma_of_type(deps, t, i);
        let j = choose|j: int| 0 <= j < deps.len() && deps[j] == part[i];
        lemma_dep(input, importer, deps[j]);
    }
    assert(got =~= part);
}

/// The importers read back.
proof fn lemma_importers(input: Input)
    requires
        is_storable(input),
    ensures
        graph_importers(written_importers(input)) == input.graph.importers,
        graph_skipped(written_importers(input)) == input.graph.skipped_optional_dependencies,
{
    let g = input.graph;
    let w = written_importers(input);
    let none = Seq::<char>::empty();
    assert(!w.dom().contains(none)) by {
        if w.dom().contains(none) {
            assert(g.importers.dom().contains(none));
        }
    }
    assert forall|path: Seq<char>| g.importers.dom().contains(path) implies importer_deps(
        #[trigger] w[path],
    ) == g.importers[path] by {
        let deps = g.importers[path];
        assert(are_storable_direct_deps(input, deps));
        lemma_section_deps(input, path, deps, DepType::Production);
        lemma_section_deps(input, path, deps, DepType::Dev);
        lemma_section_deps(input, path, deps, DepType::Optional);
    }
    assert(graph_importers(w) =~= g.importers);
    assert(are_storable_skips(g)) by {
        if g.importers.dom().contains(Seq::empty()) {
            assert(g.importers.dom().contains(none));
        }
    }
    lemma_skips(input);
}

/// Whether an entry of an importer is written for the package under a key.
spec fn is_entry_of(input: Input, k: Seq<char>, e: Entry) -> bool {
    let p = input.graph.packages[k];
    &&& input.graph.packages.dom().contains(k)
    &&& p.name == e.0
    &&& match p.local_source {
        Some(source) => is_direct_source(k, p) && e.1.version == source.specifier(),
        None => direct_source(e.1.version) is None && alias_remap(e.0, e.1.version) == (
        if is_native_alias(input, p) {
            Some(remap_of(input, k))
        } else {
            None
        }),
    }
}

/// Whether an entry of an importer is written for a package.
spec fn fits(input: Input, e: Entry) -> bool {
    exists|k: Seq<char>| is_entry_of(input, k, e)
}

proof fn lemma_importer_entries(input: Input, path: Seq<char>)
    requires
        is_storable(input),
        input.graph.importers.dom().contains(path),
    ensures
        has_entries(input, path),
{
    let deps = input.graph.importers[path];
    assert(are_storable_direct_deps(input, deps));
    lemma_section_deps(input, path, deps, DepType::Production);
    lemma_section_deps(input, path, deps, DepType::Dev);
    lemma_section_deps(input, path, deps, DepType::Optional);
    let f = |d: DirectDepView| (d.name, written_dep(input, path, d));
    let (a, b, c) = (
        of_type(deps, DepType::Production),
        of_type(deps, DepType::Dev),
        of_type(deps, DepType::Optional),
    );
    assert(deps.map_values(f) =~= a.map_values(f) + b.map_values(f) + c.map_values(f)) by {
        assert((a + b + c).map_values(f) =~= a.map_values(f) + b.map_values(f) + c.map_values(f));
    }
    let all = importer_entries(written_importers(input)[path]);
    assert forall|i: int| 0 <= i < all.len() implies fits(input, #[trigger] all[i]) by {
        let d = deps[i];
        lemma_dep(input, path, d);
        assert(all[i] == (d.name, written_dep(input, path, d)));
        assert(is_entry_of(input, d.dep_path, all[i]));
    }
}

/// Whether the entries of an importer are those that are written for its
/// dependencies.
spec fn has_entries(input: Input, path: Seq<char>) -> bool {
    let all = importer_entries(written_importers(input)[path]);
    &&& all == input.graph.importers[path].map_values(
        |d: DirectDepView| (d.name, written_dep(input, path, d)),
    )
    &&& forall|i: int| 0 <= i < all.len() ==> fits(input, #[trigger] all[i])
}

proof fn lemma_entries(input: Input, keys: Seq<Seq<char>>)
    requires
        !written_importers(input).dom().contains(Seq::<char>::empty()),
        forall|i: int| 0 <= i < keys.len() ==> has_entries(input, #[trigger] keys[i]),
    ensures
        ({
            let all = entries_of(written_importers(input), keys);
            &&& forall|i: int| 0 <= i < all.len() ==> fits(input, #[trigger] all[i])
            &&& forall|i: int, j: int|
                #![trigger input.graph.importers[keys[i]][j]]
                0 <= i < keys.len() && 0 <= j < input.graph.importers[keys[i]].len()
                    ==> all.contains(
                    (
                        input.graph.importers[keys[i]][j].name,
                        written_dep(input, keys[i], input.graph.importers[keys[i]][j]),
                    ),
                )
        }),
    decreases keys.len(),
{
    let w = written_importers(input);
    let all = entries_of(w, keys);
    if keys.len() > 0 {
        let front = keys.drop_last();
        let last = keys.last();
        assert(has_entries(input, keys[keys.len() - 1]));
        assert forall|i: int| 0 <= i < front.len() implies has_entries(
            input,
            #[trigger] front[i],
        ) by {
            assert(front[i] == keys[i]);
        }
        lemma_entries(input, front);
        let a = entries_of(w, front);
        let b = importer_entries(w[last]);
        assert(all == a + b);
        assert forall|i: int| 0 <= i < all.len() implies fits(input, #[trigger] all[i]) by {
            if i < a.len() {
                assert(all[i] == a[i]);
            } else {
                assert(all[i] == b[i - a.len()]);
            }
        }
        assert forall|i: int, j: int|
            #![trigger input.graph.importers[keys[i]][j]]
            0 <= i < keys.len() && 0 <= j
                < input.graph.importers[keys[i]].len() implies all.contains(
            (
                input.graph.importers[keys[i]][j].name,
                written_dep(input, keys[i], input.graph.importers[keys[i]][j]),
            ),
        ) by {
            let e = (
                input.graph.importers[keys[i]][j].name,
                written_dep(input, keys[i], input.graph.importers[keys[i]][j]),
            );
            if i < front.len() {
                assert(front[i] == keys[i]);
                assert(input.graph.importers[front[i]][j] == input.graph.importers[keys[i]][j]);
                assert(a.contains(e));
                let m = choose|m: int| 0 <= m < a.len() && a[m] == e;
                assert(all[m] == e);
            } else {
                assert(b[j] == e);
                assert(all[a.len() + j] == e);
            }
        }
    }
}

proof fn lemma_importer_keys(input: Input)
    requires
        is_storable(input),
    ensures
        ({
            let w = written_importers(input);
            &&& w.dom() == input.graph.importers.dom()
            &&& !w.dom().contains(Seq::<char>::empty())
            &&& is_listing(sorted_keys(w.dom()), w.dom())
            &&& forall|i: int|
                0 <= i < sorted_keys(w.dom()).len() ==> has_entries(
                    input,
                    #[trigger] sorted_keys(w.dom())[i],
                )
        }),
{
    let w = written_importers(input);
    assert(w.dom() =~= input.graph.importers.dom());
    let keys = sorted_keys(w.dom());
    lemma_listing(w.dom());
    if w.dom().contains(Seq::<char>::empty()) {
        assert(input.graph.importers.dom().contains(Seq::<char>::empty()));
    }
    assert forall|i: int| 0 <= i < keys.len() implies has_entries(input, #[trigger] keys[i]) by {
        assert(keys.contains(keys[i]));
        assert(w.dom().contains(keys[i]));
        lemma_importer_entries(input, keys[i]);
    }
}

/// A package from a local source as its direct dependency alone tells it.
spec fn prior_package(p: LockedPackageView) -> LockedPackageView {
    direct_local_package(p.name, direct_source(p.local_source->0.specifier())->0)
}

/// The packages from local sources that are direct dependencies.
spec fn locals(graph: LockfileGraphView) -> Map<Seq<char>, LockedPackageView> {
    Map::new(
        |k: Seq<char>|
            graph.packages.dom().contains(k) && is_direct_source(k, graph.packages[k]),
        |k: Seq<char>| graph.packages[k],
    )
}

/// What the reader makes of an entry of an importer.
spec fn is_clean(input: Input, e: Entry) -> bool {
    match direct_source(e.1.version) {
        Some(prior) => {
            let k = prior.dep_path(e.0);
            locals(input.graph).dom().contains(k) && prior_package(input.graph.packages[k])
                == direct_local_package(e.0, prior)
        },
        None => match alias_remap(e.0, e.1.version) {
            Some(a) => is_alias_of(input, a),
            None => true,
        },
    }
}

proof fn lemma_fits(input: Input, e: Entry)
    requires
        is_storable(input),
        fits(input, e),
    ensures
        is_clean(input, e),
{
    let k = choose|k: Seq<char>| is_entry_of(input, k, e);
    let p = input.graph.packages[k];
    assert(input.graph.packages.dom().contains(k));
    assert(is_storable_package(input, k, p));
    if let Some(source) = p.local_source {
        let prior = direct_source(source.specifier())->0;
        assert(prior.dep_path(p.name) == k);
        assert(locals(input.graph).dom().contains(k));
    } else if is_native_alias(input, p) {
        lemma_alias_value(input, k);
    }
}

proof fn lemma_add_locals(input: Input, entries: Seq<Entry>)
    requires
        forall|i: int| 0 <= i < entries.len() ==> is_clean(input, #[trigger] entries[i]),
    ensures
        are_aliases_of(input, entry_aliases(entries)),
        forall|i: int|
            0 <= i < entries.len() && direct_source((#[trigger] entries[i]).1.version) is None
                && alias_remap(entries[i].0, entries[i].1.version) is Some ==> entry_aliases(
                entries,
            ).contains(alias_remap(entries[i].0, entries[i].1.version)->0),
        ({
            let m = add_locals(Map::empty(), entries);
            &&& forall|k: Seq<char>| #[trigger]
                m.dom().contains(k) ==> locals(input.graph).dom().contains(k) && m[k]
                    == prior_package(input.graph.packages[k])
            &&& forall|i: int|
                0 <= i < entries.len() && direct_source((#[trigger] entries[i]).1.version) is Some
                    ==> m.dom().contains(
                    direct_source(entries[i].1.version)->0.dep_path(entries[i].0),
                )
        }),
    decreases entries.len(),
{
    if entries.len() > 0 {
        let front = entries.drop_last();
        assert forall|i: int| 0 <= i < front.len() implies is_clean(input, #[trigger] front[i]) by {
            assert(front[i] == entries[i]);
        }
        lemma_add_locals(input, front);
        let last = entries[entries.len() - 1];
        assert(is_clean(input, last));
        let m = add_locals(Map::empty(), entries);
        assert forall|i: int|
            0 <= i < entries.len() && direct_source(
                (#[trigger] entries[i]).1.version,
            ) is Some implies m.dom().contains(
            direct_source(entries[i].1.version)->0.dep_path(entries[i].0),
        ) by {
            if i < front.len() {
                assert(front[i] == entries[i]);
            }
        }
        let was = entry_aliases(front);
        let now = entry_aliases(entries);
        let step = match (direct_source(last.1.version), alias_remap(last.0, last.1.version)) {
            (None, Some(a)) => seq![a],
            _ => Seq::empty(),
        };
        assert(now =~= was + step);
        assert(are_aliases_of(input, step));
        lemma_aliases_concat(input, was, step);
        assert forall|i: int|
            0 <= i < entries.len() && direct_source((#[trigger] entries[i]).1.version) is None
                && alias_remap(entries[i].0, entries[i].1.version) is Some implies now.contains(
            alias_remap(entries[i].0, entries[i].1.version)->0,
        ) by {
            let a = alias_remap(entries[i].0, entries[i].1.version)->0;
            if i < front.len() {
                assert(front[i] == entries[i]);
                assert(was.contains(a));
            } else {
                assert(step[0] == a);
                assert(step.contains(a));
            }
        }
    }
}

/// The packages from local sources that are found are all that are direct
/// dependencies, and so are the aliases.
proof fn lemma_found(input: Input)
    requires
        is_storable(input),
    ensures
        ({
            let entries = all_entries(written_importers(input));
            let m = add_locals(Map::empty(), entries);
            &&& are_aliases_of(input, entry_aliases(entries))
            &&& forall|k: Seq<char>| #[trigger]
                input.graph.packages.dom().contains(k) && is_native_alias(
                    input,
                    input.graph.packages[k],
                ) && is_direct(input.graph, k) ==> entry_aliases(entries).contains(
                    remap_of(input, k),
                )
            &&& m.dom() == locals(input.graph).dom()
            &&& forall|k: Seq<char>| #[trigger]
                m.dom().contains(k) ==> m[k] == prior_package(input.graph.packages[k])
        }),
{
    let g = input.graph;
    let w = written_importers(input);
    let keys = sorted_keys(w.dom());
    lemma_importer_keys(input);
    lemma_entries(input, keys);
    let entries = all_entries(w);
    assert forall|i: int| 0 <= i < entries.len() implies is_clean(input, #[trigger] entries[i]) by {
        lemma_fits(input, entries[i]);
    }
    lemma_add_locals(input, entries);
    let m = add_locals(Map::empty(), entries);
    assert forall|k: Seq<char>| locals(g).dom().contains(k) implies m.dom().contains(k) by {
        assert(g.packages.dom().contains(k));
        assert(is_storable_package(input, k, g.packages[k]));
        let n = lemma_direct_entry(input, k);
        let source = g.packages[k].local_source->0;
        let prior = direct_source(source.specifier())->0;
        assert(prior.dep_path(g.packages[k].name) == k);
        assert(direct_source(entries[n].1.version) is Some);
    }
    assert(m.dom() =~= locals(g).dom());
    assert forall|k: Seq<char>| #[trigger] g.packages.dom().contains(k) && is_native_alias(
        input,
        g.packages[k],
    ) && is_direct(g, k) implies entry_aliases(entries).contains(remap_of(input, k)) by {
        let n = lemma_direct_entry(input, k);
        assert(direct_source(entries[n].1.version) is None);
    }
}

/// The entry of a direct dependency.
proof fn lemma_direct_entry(input: Input, k: Seq<char>) -> (n: int)
    requires
        is_storable(input),
        input.graph.packages.dom().contains(k),
        is_direct(input.graph, k),
    ensures
        0 <= n < all_entries(written_importers(input)).len(),
        ({
            let e = all_entries(written_importers(input))[n];
            let p = input.graph.packages[k];
            &&& e.0 == p.name
            &&& match p.local_source {
                Some(source) => e.1.version == source.specifier() && direct_source(e.1.version)
                    is Some,
                None => direct_source(e.1.version) is None && alias_remap(e.0, e.1.version) == (
                if is_native_alias(input, p) {
                    Some(remap_of(input, k))
                } else {
                    None
                }),
            }
        }),
{
    let g = input.graph;
    let w = written_importers(input);
    let keys = sorted_keys(w.dom());
    lemma_importer_keys(input);
    lemma_entries(input, keys);
    let entries = all_entries(w);
    let (path, j) = choose|path: Seq<char>, j: int|
        #![trigger g.importers[path][j]]
        g.importers.dom().contains(path) && 0 <= j < g.importers[path].len()
            && g.importers[path][j].dep_path == k;
    let d = g.importers[path][j];
    assert(are_storable_direct_deps(input, g.importers[path]));
    assert(is_storable_dep(input, d));
    lemma_dep(input, path, d);
    assert(w.dom().contains(path));
    assert(keys.contains(path));
    let i = choose|i: int| 0 <= i < keys.len() && keys[i] == path;
    assert(g.importers[keys[i]][j] == d);
    let e = (d.name, written_dep(input, path, d));
    assert(entries.contains(e));
    choose|n: int| 0 <= n < entries.len() && entries[n] == e
}

/// The key of a package without its peer suffix.
spec fn bare_key(k: Seq<char>, p: LockedPackageView) -> Seq<char> {
    dep_path(p.name, until(tail(k, p.name), '('))
}

/// A package that is no direct dependency from a local source is recorded under
/// no key of one that is.
proof fn lemma_no_clash(input: Input, a: Seq<char>, b: Seq<char>)
    requires
        is_storable(input),
        input.graph.packages.dom().contains(a),
        !is_direct_source(a, input.graph.packages[a]),
        locals(input.graph).dom().contains(b),
    ensures
        a != local_canonical(input.graph.packages[b]),
        bare_key(a, input.graph.packages[a]) != local_canonical(input.graph.packages[b]),
{
    let p = input.graph.packages[a];
    let q = input.graph.packages[b];
    assert(is_storable_package(input, a, p));
    assert(input.graph.packages.dom().contains(b));
    assert(is_storable_package(input, b, q));
    lemma_tail(input, a);
    let t = tail(a, p.name);
    let source = q.local_source->0;
    if a == local_canonical(q) {
        law_dep_path_is_injective(p.name, t, q.name, source.specifier());
    }
}

/// What stands behind the name in the key of a package.
proof fn lemma_tail(input: Input, k: Seq<char>)
    requires
        is_storable(input),
        input.graph.packages.dom().contains(k),
        !is_direct_source(k, input.graph.packages[k]),
    ensures
        ({
            let p = input.graph.packages[k];
            &&& k == dep_path(p.name, tail(k, p.name))
            &&& p.local_source matches Some(source) ==> tail(k, p.name) == source.specifier()
        }),
{
    let p = input.graph.packages[k];
    assert(is_storable_package(input, k, p));
    if let Some(source) = p.local_source {
        law_dep_path_parts(p.name, source.specifier());
    }
}

/// Two packages from local sources are recorded under two keys.
proof fn lemma_locals_apart(input: Input, a: Seq<char>, b: Seq<char>)
    requires
        is_storable(input),
        locals(input.graph).dom().contains(a),
        locals(input.graph).dom().contains(b),
        local_canonical(input.graph.packages[a]) == local_canonical(input.graph.packages[b]),
    ensures
        a == b,
{
    let p = input.graph.packages[a];
    let q = input.graph.packages[b];
    assert(input.graph.packages.dom().contains(a));
    assert(input.graph.packages.dom().contains(b));
    assert(is_storable_package(input, a, p));
    assert(is_storable_package(input, b, q));
    let s = p.local_source->0;
    let t = q.local_source->0;
    law_dep_path_is_injective(p.name, s.specifier(), q.name, t.specifier());
    let prior = direct_source(s.specifier())->0;
    assert(prior.dep_path(p.name) == a);
    assert(prior.dep_path(q.name) == b);
}

/// The key of the package that is recorded for the package under a key: that of
/// its target for an alias, else its own.
spec fn home(input: Input, k: Seq<char>) -> Seq<char> {
    let p = input.graph.packages[k];
    if is_native_alias(input, p) {
        target_key(k, p)
    } else {
        k
    }
}

/// An alias is recorded as its target.
proof fn lemma_home(input: Input, k: Seq<char>)
    requires
        is_storable(input),
        input.graph.packages.dom().contains(k),
    ensures
        ({
            let h = home(input, k);
            let p = input.graph.packages[k];
            let q = input.graph.packages[h];
            &&& input.graph.packages.dom().contains(h)
            &&& !is_native_alias(input, q)
            &&& is_link(p) == is_link(q)
            &&& snapshot_key(input, k, p) == snapshot_key(input, h, q)
            &&& info_key(input, p) == info_key(input, q)
            &&& written_snapshot(input, p) == written_snapshot(input, q)
            &&& written_info(input, p) == written_info(input, q)
            &&& p.dependencies == q.dependencies
            &&& is_direct_source(k, p) == is_direct_source(h, q)
        }),
{
    let p = input.graph.packages[k];
    assert(is_storable_package(input, k, p));
    if is_native_alias(input, p) {
        let h = target_key(k, p);
        let q = input.graph.packages[h];
        assert(input.graph.packages.dom().contains(h));
        assert(is_storable_package(input, h, q));
        law_dep_path_parts(p.alias_of->0, tail(k, p.name));
        lemma_keys(input, h);
        assert(info_key(input, q) == dep_path(q.name, q.version));
        assert(info_key(input, p) == info_key(input, q));
    }
}

/// The two keys that a package is recorded under.
proof fn lemma_keys(input: Input, k: Seq<char>)
    requires
        is_storable(input),
        input.graph.packages.dom().contains(k),
        !is_native_alias(input, input.graph.packages[k]),
    ensures
        ({
            let p = input.graph.packages[k];
            if is_direct_source(k, p) {
                info_key(input, p) == local_canonical(p) && snapshot_key(input, k, p)
                    == local_canonical(p) && dep_path_parts(local_canonical(p)) == Some(
                    (p.name, p.local_source->0.specifier()),
                )
            } else {
                info_key(input, p) == bare_key(k, p) && snapshot_key(input, k, p) == k
                    && dep_path_parts(k) == Some((p.name, until(tail(k, p.name), '('))) && (
                p.local_source is None ==> !is_url_keyed(p) && p.version == until(
                    tail(k, p.name),
                    '(',
                ))
            }
        }),
{
    let p = input.graph.packages[k];
    assert(is_storable_package(input, k, p));
    if is_direct_source(k, p) {
        law_dep_path_parts(p.name, p.local_source->0.specifier());
    } else {
        lemma_tail(input, k);
        law_dep_path_parts(p.name, tail(k, p.name));
        lemma_until(tail(k, p.name));
    }
}

proof fn lemma_snapshot_keys_apart(input: Input, a: Seq<char>, b: Seq<char>)
    requires
        is_storable(input),
        input.graph.packages.dom().contains(a),
        input.graph.packages.dom().contains(b),
        snapshot_key(input, a, input.graph.packages[a]) == snapshot_key(
            input,
            b,
            input.graph.packages[b],
        ),
    ensures
        home(input, a) == home(input, b),
{
    lemma_home(input, a);
    lemma_home(input, b);
    let a = home(input, a);
    let b = home(input, b);
    lemma_keys(input, a);
    lemma_keys(input, b);
    let p = input.graph.packages[a];
    let q = input.graph.packages[b];
    if !is_direct_source(a, p) && is_direct_source(b, q) {
        lemma_no_clash(input, a, b);
    } else if is_direct_source(a, p) && !is_direct_source(b, q) {
        lemma_no_clash(input, b, a);
    } else if is_direct_source(a, p) && is_direct_source(b, q) {
        lemma_locals_apart(input, a, b);
    }
}

/// The `packages:` key of the package under a key of the graph.
pub open spec fn info_at(input: Input, k: Seq<char>) -> Seq<char> {
    info_key(input, input.graph.packages[k])
}

/// The `snapshots:` key of the package under a key of the graph.
pub open spec fn snapshot_under(input: Input, k: Seq<char>) -> Seq<char> {
    snapshot_key(input, k, input.graph.packages[k])
}

/// Whether the package under a key of the graph has entries of its own.
pub open spec fn is_recorded(input: Input, k: Seq<char>) -> bool {
    !is_link(input.graph.packages[k])
}

pub proof fn lemma_written_infos(input: Input, keys: Seq<Seq<char>>)
    requires
        forall|i: int, j: int|
            #![trigger keys[i], keys[j]]
            0 <= i < keys.len() && 0 <= j < keys.len() && is_recorded(input, keys[i])
                && is_recorded(input, keys[j]) && info_at(input, keys[i]) == info_at(
                input,
                keys[j],
            ) ==> written_info(input, input.graph.packages[keys[i]]) == written_info(
                input,
                input.graph.packages[keys[j]],
            ),
    ensures
        forall|i: int|
            0 <= i < keys.len() && is_recorded(input, #[trigger] keys[i]) ==> lookup(
                written_packages(input, keys),
                info_at(input, keys[i]),
            ) == Some(written_info(input, input.graph.packages[keys[i]])),
        forall|q: Seq<char>| #[trigger]
            written_packages(input, keys).dom().contains(q) ==> exists|i: int|
                0 <= i < keys.len() && is_recorded(input, #[trigger] keys[i]) && q == info_at(
                    input,
                    keys[i],
                ),
    decreases keys.len(),
{
    if keys.len() > 0 {
        let front = keys.drop_last();
        let n = keys.len() - 1;
        assert forall|i: int, j: int|
            #![trigger front[i], front[j]]
            0 <= i < front.len() && 0 <= j < front.len() && is_recorded(input, front[i])
                && is_recorded(input, front[j]) && info_at(input, front[i]) == info_at(
                input,
                front[j],
            ) implies written_info(input, input.graph.packages[front[i]]) == written_info(
            input,
            input.graph.packages[front[j]],
        ) by {
            assert(front[i] == keys[i] && front[j] == keys[j]);
        }
        lemma_written_infos(input, front);
        let was = written_packages(input, front);
        let now = written_packages(input, keys);
        assert forall|i: int| 0 <= i < keys.len() && is_recorded(input, #[trigger] keys[i]) implies lookup(
            now,
            info_at(input, keys[i]),
        ) == Some(written_info(input, input.graph.packages[keys[i]])) by {
            assert(keys[n] == keys.last());
            if i < n {
                assert(front[i] == keys[i]);
            }
        }
        assert forall|q: Seq<char>| #[trigger] now.dom().contains(q) implies exists|i: int|
            0 <= i < keys.len() && is_recorded(input, #[trigger] keys[i]) && q == info_at(
                input,
                keys[i],
            ) by {
            if was.dom().contains(q) {
                let i = choose|i: int|
                    0 <= i < front.len() && is_recorded(input, #[trigger] front[i]) && q
                        == info_at(input, front[i]);
                assert(keys[i] == front[i]);
            } else {
                assert(q == info_at(input, keys[n]));
            }
        }
    }
}

pub proof fn lemma_written_snapshots(input: Input, keys: Seq<Seq<char>>)
    requires
        forall|i: int, j: int|
            #![trigger keys[i], keys[j]]
            0 <= i < keys.len() && 0 <= j < keys.len() && is_recorded(input, keys[i])
                && is_recorded(input, keys[j]) && snapshot_under(input, keys[i])
                == snapshot_under(input, keys[j]) ==> written_snapshot(
                input,
                input.graph.packages[keys[i]],
            ) == written_snapshot(input, input.graph.packages[keys[j]]),
    ensures
        forall|i: int|
            0 <= i < keys.len() && is_recorded(input, #[trigger] keys[i]) ==> lookup(
                written_snapshots(input, keys),
                snapshot_under(input, keys[i]),
            ) == Some(written_snapshot(input, input.graph.packages[keys[i]])),
        forall|q: Seq<char>| #[trigger]
            written_snapshots(input, keys).dom().contains(q) ==> exists|i: int|
                0 <= i < keys.len() && is_recorded(input, #[trigger] keys[i]) && q
                    == snapshot_under(input, keys[i]),
    decreases keys.len(),
{
    if keys.len() > 0 {
        let front = keys.drop_last();
        let n = keys.len() - 1;
        assert forall|i: int, j: int|
            #![trigger front[i], front[j]]
            0 <= i < front.len() && 0 <= j < front.len() && is_recorded(input, front[i])
                && is_recorded(input, front[j]) && snapshot_under(input, front[i])
                == snapshot_under(input, front[j]) implies written_snapshot(
            input,
            input.graph.packages[front[i]],
        ) == written_snapshot(input, input.graph.packages[front[j]]) by {
            assert(front[i] == keys[i] && front[j] == keys[j]);
        }
        lemma_written_snapshots(input, front);
        let was = written_snapshots(input, front);
        let now = written_snapshots(input, keys);
        assert forall|i: int| 0 <= i < keys.len() && is_recorded(input, #[trigger] keys[i]) implies lookup(
            now,
            snapshot_under(input, keys[i]),
        ) == Some(written_snapshot(input, input.graph.packages[keys[i]])) by {
            assert(keys[n] == keys.last());
            if i < n {
                assert(front[i] == keys[i]);
            }
        }
        assert forall|q: Seq<char>| #[trigger] now.dom().contains(q) implies exists|i: int|
            0 <= i < keys.len() && is_recorded(input, #[trigger] keys[i]) && q == snapshot_under(
                input,
                keys[i],
            ) by {
            if was.dom().contains(q) {
                let i = choose|i: int|
                    0 <= i < front.len() && is_recorded(input, #[trigger] front[i]) && q
                        == snapshot_under(input, front[i]);
                assert(keys[i] == front[i]);
            } else {
                assert(q == snapshot_under(input, keys[n]));
            }
        }
    }
}

proof fn lemma_written(input: Input)
    requires
        is_storable(input),
    ensures
        ({
            let keys = sorted_keys(input.graph.packages.dom());
            &&& forall|i: int|
                0 <= i < keys.len() && is_recorded(input, #[trigger] keys[i]) ==> lookup(
                    written_packages(input, keys),
                    info_at(input, keys[i]),
                ) == Some(written_info(input, input.graph.packages[keys[i]])) && lookup(
                    written_snapshots(input, keys),
                    snapshot_under(input, keys[i]),
                ) == Some(written_snapshot(input, input.graph.packages[keys[i]]))
            &&& forall|q: Seq<char>| #[trigger]
                written_packages(input, keys).dom().contains(q) ==> exists|i: int|
                    0 <= i < keys.len() && is_recorded(input, #[trigger] keys[i]) && q == info_at(
                        input,
                        keys[i],
                    )
            &&& forall|q: Seq<char>| #[trigger]
                written_snapshots(input, keys).dom().contains(q) ==> exists|i: int|
                    0 <= i < keys.len() && is_recorded(input, #[trigger] keys[i]) && q
                        == snapshot_under(input, keys[i])
        }),
{
    let keys = sorted_keys(input.graph.packages.dom());
    lemma_all_in(input);
    assert forall|i: int, j: int|
        #![trigger keys[i], keys[j]]
        0 <= i < keys.len() && 0 <= j < keys.len() && info_at(input, keys[i]) == info_at(
            input,
            keys[j],
        ) implies written_info(input, input.graph.packages[keys[i]]) == written_info(
        input,
        input.graph.packages[keys[j]],
    ) by {
        assert(input.graph.packages.dom().contains(keys[i]));
        assert(input.graph.packages.dom().contains(keys[j]));
    }
    assert forall|i: int, j: int|
        #![trigger keys[i], keys[j]]
        0 <= i < keys.len() && 0 <= j < keys.len() && snapshot_under(input, keys[i])
            == snapshot_under(input, keys[j]) implies written_snapshot(
        input,
        input.graph.packages[keys[i]],
    ) == written_snapshot(input, input.graph.packages[keys[j]]) by {
        assert(input.graph.packages.dom().contains(keys[i]));
        assert(input.graph.packages.dom().contains(keys[j]));
        lemma_snapshot_keys_apart(input, keys[i], keys[j]);
        lemma_home(input, keys[i]);
        lemma_home(input, keys[j]);
    }
    lemma_written_infos(input, keys);
    lemma_written_snapshots(input, keys);
}

/// Whether the dependencies of a snapshot are those of a package, as they are
/// written.
spec fn reads_as(input: Input, n: Seq<char>, written: Seq<char>, value: Seq<char>) -> bool {
    &&& resolved_tail(n, written) == value
    &&& alias_remap(n, written) matches Some(a) ==> is_alias_of(input, a)
}

/// What a dependency is written as reads as the dependency.
proof fn lemma_value(input: Input, n: Seq<char>, value: Seq<char>)
    requires
        is_storable(input),
        is_storable_value(input, n, value),
    ensures
        reads_as(input, n, written_value(input, n, value), value),
        ({
            let k = dep_path(n, value);
            input.graph.packages.dom().contains(k) && input.graph.packages[k].name == n
                && is_native_alias(input, input.graph.packages[k]) ==> alias_remap(
                n,
                written_value(input, n, value),
            ) == Some(remap_of(input, k))
        }),
{
    let k = dep_path(n, value);
    if input.graph.packages.dom().contains(k) && input.graph.packages[k].name == n
        && is_native_alias(input, input.graph.packages[k]) {
        assert(is_storable_package(input, k, input.graph.packages[k]));
        lemma_alias_value(input, k);
        law_dep_path_parts(n, value);
    }
}

proof fn lemma_aliases_among(
    input: Input,
    q: Seq<Seq<char>>,
    written: Map<Seq<char>, Seq<char>>,
    deps: Map<Seq<char>, Seq<char>>,
)
    requires
        forall|i: int|
            0 <= i < q.len() ==> reads_as(input, #[trigger] q[i], written[q[i]], deps[q[i]]),
    ensures
        are_aliases_of(input, aliases_among(q, written)),
        forall|i: int|
            0 <= i < q.len() && alias_remap(#[trigger] q[i], written[q[i]]) is Some
                ==> aliases_among(q, written).contains(alias_remap(q[i], written[q[i]])->0),
    decreases q.len(),
{
    if q.len() > 0 {
        let front = q.drop_last();
        assert forall|i: int| 0 <= i < front.len() implies reads_as(
            input,
            #[trigger] front[i],
            written[front[i]],
            deps[front[i]],
        ) by {
            assert(front[i] == q[i]);
        }
        lemma_aliases_among(input, front, written, deps);
        let last = q[q.len() - 1];
        assert(reads_as(input, last, written[last], deps[last]));
        let was = aliases_among(front, written);
        let now = aliases_among(q, written);
        let step = match alias_remap(last, written[last]) {
            Some(a) => seq![a],
            None => Seq::empty(),
        };
        assert(now =~= was + step);
        lemma_aliases_concat(input, was, step);
        assert forall|i: int|
            0 <= i < q.len() && alias_remap(#[trigger] q[i], written[q[i]])
                is Some implies now.contains(alias_remap(q[i], written[q[i]])->0) by {
            let a = alias_remap(q[i], written[q[i]])->0;
            if i < front.len() {
                assert(front[i] == q[i]);
                assert(was.contains(a));
            } else {
                assert(step[0] == a);
                assert(step.contains(a));
            }
        }
    }
}

/// Written dependencies read back.
proof fn lemma_deps(
    input: Input,
    written: Map<Seq<char>, Seq<char>>,
    deps: Map<Seq<char>, Seq<char>>,
)
    requires
        written.dom() == deps.dom(),
        deps.dom().finite(),
        forall|n: Seq<char>| #[trigger]
            deps.dom().contains(n) ==> reads_as(input, n, written[n], deps[n]),
    ensures
        resolved_deps(written) == deps,
        are_aliases_of(input, aliases(written)),
        forall|n: Seq<char>| #[trigger]
            deps.dom().contains(n) && alias_remap(n, written[n]) is Some ==> aliases(
                written,
            ).contains(alias_remap(n, written[n])->0),
{
    lemma_listing(deps.dom());
    let q = sorted_keys(deps.dom());
    assert forall|i: int| 0 <= i < q.len() implies reads_as(
        input,
        #[trigger] q[i],
        written[q[i]],
        deps[q[i]],
    ) by {
        assert(q.contains(q[i]));
        assert(deps.dom().contains(q[i]));
    }
    lemma_aliases_among(input, q, written, deps);
    assert(resolved_deps(written) =~= deps);
    assert forall|n: Seq<char>| #[trigger] deps.dom().contains(n) && alias_remap(n, written[n])
        is Some implies aliases(written).contains(alias_remap(n, written[n])->0) by {
        assert(q.contains(n));
        let i = choose|i: int| 0 <= i < q.len() && q[i] == n;
        assert(alias_remap(q[i], written[q[i]]) is Some);
    }
}

/// The aliases in a snapshot.
spec fn aliases_in(s: PnpmSnapshotView) -> Seq<AliasRemapView> {
    opt_aliases(s.dependencies) + opt_aliases(s.optional_dependencies)
}

/// Whether a list of aliases holds all that a package depends on.
spec fn covers(input: Input, k: Seq<char>, q: Seq<AliasRemapView>) -> bool {
    let deps = input.graph.packages[k].dependencies;
    forall|n: Seq<char>| #[trigger]
        deps.dom().contains(n) && is_alias_dep(input, n, deps[n]) ==> q.contains(
            remap_of(input, dep_path(n, deps[n])),
        )
}

/// Whether a dependency leads to an alias.
spec fn is_alias_dep(input: Input, n: Seq<char>, value: Seq<char>) -> bool {
    let k = dep_path(n, value);
    input.graph.packages.dom().contains(k) && input.graph.packages[k].name == n
        && is_native_alias(input, input.graph.packages[k])
}

/// The dependencies in a snapshot read back.
proof fn lemma_snapshot_deps(input: Input, k: Seq<char>)
    requires
        is_storable(input),
        input.graph.packages.dom().contains(k),
    ensures
        ({
            let p = input.graph.packages[k];
            let s = written_snapshot(input, p);
            &&& resolved_deps(or_empty(s.optional_dependencies)) == p.optional_dependencies
            &&& resolved_deps(or_empty(s.dependencies)).union_prefer_right(
                p.optional_dependencies,
            ) == p.dependencies
            &&& are_aliases_of(input, aliases_in(s))
            &&& covers(input, k, aliases_in(s))
        }),
{
    let p = input.graph.packages[k];
    assert(is_storable_package(input, k, p));
    let deps = p.dependencies;
    let opt = p.optional_dependencies;
    let s = written_snapshot(input, p);
    assert forall|n: Seq<char>| opt.dom().contains(n) implies deps.dom().contains(n) && opt[n]
        == deps[n] by {
    }
    let rest = deps.remove_keys(opt.dom());
    let written_rest = written_deps(input, deps).remove_keys(opt.dom());
    let written_opt = written_deps(input, opt);
    assert(written_rest.dom() =~= rest.dom());
    assert(written_opt.dom() =~= opt.dom());
    assert(opt.dom().subset_of(deps.dom()));
    assert(rest.dom().subset_of(deps.dom()));
    vstd::set_lib::lemma_set_subset_finite(deps.dom(), opt.dom());
    vstd::set_lib::lemma_set_subset_finite(deps.dom(), rest.dom());
    assert forall|n: Seq<char>| #[trigger] rest.dom().contains(n) implies reads_as(
        input,
        n,
        written_rest[n],
        rest[n],
    ) by {
        assert(deps.dom().contains(n));
        lemma_value(input, n, deps[n]);
    }
    assert forall|n: Seq<char>| #[trigger] opt.dom().contains(n) implies reads_as(
        input,
        n,
        written_opt[n],
        opt[n],
    ) by {
        assert(deps.dom().contains(n));
        lemma_value(input, n, deps[n]);
    }
    lemma_deps(input, written_rest, rest);
    lemma_deps(input, written_opt, opt);
    assert(rest.union_prefer_right(opt) =~= deps);
    let none = Map::<Seq<char>, Seq<char>>::empty();
    lemma_deps(input, none, none);
    assert(opt_aliases(s.dependencies) == aliases(or_empty(s.dependencies))
        || s.dependencies is None);
    lemma_aliases_concat(input, opt_aliases(s.dependencies), opt_aliases(s.optional_dependencies));
    assert forall|n: Seq<char>| #[trigger] deps.dom().contains(n) && is_alias_dep(
        input,
        n,
        deps[n],
    ) implies aliases_in(s).contains(remap_of(input, dep_path(n, deps[n]))) by {
        lemma_value(input, n, deps[n]);
        let a = remap_of(input, dep_path(n, deps[n]));
        if opt.dom().contains(n) {
            assert(aliases(written_opt).contains(a));
            assert(written_opt.dom().contains(n));
            assert(s.optional_dependencies == Some(written_opt));
        } else {
            assert(rest.dom().contains(n));
            assert(aliases(written_rest).contains(a));
            assert(written_rest.dom().contains(n));
            assert(s.dependencies == Some(written_rest));
        }
    }
}

/// The lockfile of a graph that a lockfile can tell.
spec fn recorded(input: Input) -> PnpmLockfileView {
    document_of(input)
}

/// What is recorded of a package.
proof fn lemma_recorded(input: Input, k: Seq<char>)
    requires
        is_storable(input),
        input.graph.packages.dom().contains(k),
        !is_link(input.graph.packages[k]),
    ensures
        lookup(recorded(input).packages, info_key(input, input.graph.packages[k])) == Some(
            written_info(input, input.graph.packages[k]),
        ),
        lookup(
            recorded(input).snapshots,
            snapshot_key(input, k, input.graph.packages[k]),
        ) == Some(written_snapshot(input, input.graph.packages[k])),
{
    let g = input.graph;
    let keys = sorted_keys(g.packages.dom());
    lemma_listing(g.packages.dom());
    lemma_written(input);
    assert(keys.contains(k));
    let i = choose|i: int| 0 <= i < keys.len() && keys[i] == k;
    assert(is_recorded(input, keys[i]));
}

proof fn lemma_all_in(input: Input)
    requires
        is_storable(input),
    ensures
        forall|i: int|
            0 <= i < sorted_keys(input.graph.packages.dom()).len()
                ==> input.graph.packages.dom().contains(
                #[trigger] sorted_keys(input.graph.packages.dom())[i],
            ),
{
    let keys = sorted_keys(input.graph.packages.dom());
    lemma_listing(input.graph.packages.dom());
    assert forall|i: int| 0 <= i < keys.len() implies input.graph.packages.dom().contains(
        #[trigger] keys[i],
    ) by {
        assert(keys.contains(keys[i]));
    }
}

/// Which package a `packages:` key is recorded for.
proof fn lemma_info_origin(input: Input, q: Seq<char>) -> (k: Seq<char>)
    requires
        is_storable(input),
        recorded(input).packages.dom().contains(q),
    ensures
        input.graph.packages.dom().contains(k),
        !is_native_alias(input, input.graph.packages[k]),
        !is_link(input.graph.packages[k]),
        q == info_key(input, input.graph.packages[k]),
{
    let g = input.graph;
    let keys = sorted_keys(g.packages.dom());
    lemma_all_in(input);
    lemma_written(input);
    let i = choose|i: int|
        0 <= i < keys.len() && is_recorded(input, #[trigger] keys[i]) && q == info_at(
            input,
            keys[i],
        );
    lemma_home(input, keys[i]);
    home(input, keys[i])
}

/// Which package a `snapshots:` key is recorded for.
proof fn lemma_snapshot_origin(input: Input, q: Seq<char>) -> (k: Seq<char>)
    requires
        is_storable(input),
        recorded(input).snapshots.dom().contains(q),
    ensures
        input.graph.packages.dom().contains(k),
        !is_native_alias(input, input.graph.packages[k]),
        !is_link(input.graph.packages[k]),
        q == snapshot_key(input, k, input.graph.packages[k]),
{
    let g = input.graph;
    let keys = sorted_keys(g.packages.dom());
    lemma_all_in(input);
    lemma_written(input);
    let i = choose|i: int|
        0 <= i < keys.len() && is_recorded(input, #[trigger] keys[i]) && q == snapshot_under(
            input,
            keys[i],
        );
    lemma_home(input, keys[i]);
    home(input, keys[i])
}

proof fn lemma_no_peerless(keys: Seq<Seq<char>>, canonical: Seq<char>)
    requires
        forall|i: int| 0 <= i < keys.len() ==> !is_peerless(#[trigger] keys[i], canonical),
    ensures
        first_peerless(keys, canonical) is None,
    decreases keys.len(),
{
    if keys.len() > 0 {
        let front = keys.drop_last();
        assert forall|i: int| 0 <= i < front.len() implies !is_peerless(
            #[trigger] front[i],
            canonical,
        ) by {
            assert(front[i] == keys[i]);
        }
        lemma_no_peerless(front, canonical);
        assert(!is_peerless(keys[keys.len() - 1], canonical));
    }
}

/// Nothing is recorded of a link.
proof fn lemma_link_unrecorded(input: Input, k: Seq<char>)
    requires
        is_storable(input),
        input.graph.packages.dom().contains(k),
        is_link(input.graph.packages[k]),
    ensures
        ({
            let canonical = local_canonical(input.graph.packages[k]);
            lookup(recorded(input).packages, canonical) is None && local_snapshot(
                recorded(input).snapshots,
                canonical,
            ) is None
        }),
{
    let g = input.graph;
    let p = g.packages[k];
    let canonical = local_canonical(p);
    let doc = recorded(input);
    assert(is_storable_package(input, k, p));
    assert(locals(g).dom().contains(k));
    if doc.packages.dom().contains(canonical) {
        let o = lemma_info_origin(input, canonical);
        lemma_keys(input, o);
        if !is_direct_source(o, g.packages[o]) {
            lemma_no_clash(input, o, k);
        } else {
            assert(locals(g).dom().contains(o));
            lemma_locals_apart(input, o, k);
        }
    }
    if doc.snapshots.dom().contains(canonical) {
        let o = lemma_snapshot_origin(input, canonical);
        lemma_keys(input, o);
        if !is_direct_source(o, g.packages[o]) {
            lemma_no_clash(input, o, k);
        } else {
            assert(locals(g).dom().contains(o));
            lemma_locals_apart(input, o, k);
        }
    }
    let keys = sorted_keys(doc.snapshots.dom());
    lemma_snapshots_finite(input);
    lemma_listing(doc.snapshots.dom());
    assert forall|i: int| 0 <= i < keys.len() implies !is_peerless(
        #[trigger] keys[i],
        canonical,
    ) by {
        assert(keys.contains(keys[i]));
        let o = lemma_snapshot_origin(input, keys[i]);
        lemma_keys(input, o);
        if !is_direct_source(o, g.packages[o]) {
            lemma_no_clash(input, o, k);
        } else {
            assert(locals(g).dom().contains(o));
            if is_peerless(keys[i], canonical) {
                lemma_locals_apart(input, o, k);
            }
        }
    }
    lemma_no_peerless(keys, canonical);
}

proof fn lemma_snapshots_finite_of(input: Input, keys: Seq<Seq<char>>)
    ensures
        written_snapshots(input, keys).dom().finite(),
        written_packages(input, keys).dom().finite(),
    decreases keys.len(),
{
    if keys.len() > 0 {
        lemma_snapshots_finite_of(input, keys.drop_last());
    }
}

proof fn lemma_snapshots_finite(input: Input)
    ensures
        recorded(input).snapshots.dom().finite(),
        recorded(input).packages.dom().finite(),
{
    lemma_snapshots_finite_of(input, sorted_keys(input.graph.packages.dom()));
}

/// A package from a local source reads back.
proof fn lemma_harvest(input: Input, k: Seq<char>)
    requires
        is_storable(input),
        locals(input.graph).dom().contains(k),
    ensures
        ({
            let p = input.graph.packages[k];
            &&& harvested(recorded(input), prior_package(p)) == p
            &&& are_aliases_of(input, harvested_aliases(recorded(input), prior_package(p)))
            &&& covers(input, k, harvested_aliases(recorded(input), prior_package(p)))
        }),
{
    let p = input.graph.packages[k];
    let doc = recorded(input);
    assert(input.graph.packages.dom().contains(k));
    assert(is_storable_package(input, k, p));
    let source = p.local_source->0;
    let prior = prior_package(p);
    let canonical = local_canonical(p);
    assert(local_canonical(prior) == canonical);
    lemma_keys(input, k);
    lemma_snapshot_deps(input, k);
    let none = Map::<Seq<char>, Seq<char>>::empty();
    if is_link(p) {
        lemma_link_unrecorded(input, k);
        assert(p.optional_dependencies =~= none);
    } else {
        lemma_recorded(input, k);
        let s = written_snapshot(input, p);
        assert(local_snapshot(doc.snapshots, canonical) == Some(s));
        assert(recorded_source(doc.packages, canonical, prior.local_source->0) == reread(source));
        assert(resolved_deps(none) =~= none);
        assert(none.union_prefer_right(none) =~= none);
        if s.optional_dependencies is None {
            assert(p.optional_dependencies =~= none);
            assert(p.dependencies.union_prefer_right(none) =~= p.dependencies);
            assert(resolved_deps(or_empty(s.dependencies)).union_prefer_right(none)
                =~= resolved_deps(or_empty(s.dependencies)));
        }
    }
}

/// Whether a package from a local source, found under a key, reads back.
spec fn rereads(
    doc: PnpmLockfileView,
    input: Input,
    found: Map<Seq<char>, LockedPackageView>,
    k: Seq<char>,
) -> bool {
    &&& harvested(doc, found[k]) == input.graph.packages[k]
    &&& input.graph.packages[k].dep_path == k
    &&& are_aliases_of(input, harvested_aliases(doc, found[k]))
    &&& covers(input, k, harvested_aliases(doc, found[k]))
}

proof fn lemma_local_packages(
    doc: PnpmLockfileView,
    input: Input,
    found: Map<Seq<char>, LockedPackageView>,
    keys: Seq<Seq<char>>,
)
    requires
        forall|i: int| 0 <= i < keys.len() ==> rereads(doc, input, found, #[trigger] keys[i]),
    ensures
        are_aliases_of(input, local_aliases(doc, found, keys)),
        forall|i: int|
            0 <= i < keys.len() ==> covers(
                input,
                #[trigger] keys[i],
                local_aliases(doc, found, keys),
            ),
        forall|k: Seq<char>| #[trigger]
            local_packages(doc, found, keys).dom().contains(k) <==> keys.contains(k),
        forall|k: Seq<char>| #[trigger]
            local_packages(doc, found, keys).dom().contains(k) ==> local_packages(
                doc,
                found,
                keys,
            )[k] == input.graph.packages[k],
    decreases keys.len(),
{
    let m = local_packages(doc, found, keys);
    if keys.len() > 0 {
        let front = keys.drop_last();
        let last = keys.last();
        assert forall|i: int| 0 <= i < front.len() implies rereads(
            doc,
            input,
            found,
            #[trigger] front[i],
        ) by {
            assert(front[i] == keys[i]);
        }
        lemma_local_packages(doc, input, found, front);
        assert(rereads(doc, input, found, keys[keys.len() - 1]));
        assert(m == local_packages(doc, found, front).insert(last, input.graph.packages[last]));
        assert forall|k: Seq<char>| #[trigger] m.dom().contains(k) <==> keys.contains(k) by {
            if front.contains(k) {
                let i = choose|i: int| 0 <= i < front.len() && front[i] == k;
                assert(keys[i] == k);
            }
            if keys.contains(k) && k != last {
                let i = choose|i: int| 0 <= i < keys.len() && keys[i] == k;
                assert(front[i] == k);
            }
        }
        let was = local_aliases(doc, found, front);
        let step = harvested_aliases(doc, found[last]);
        lemma_aliases_concat(input, was, step);
        assert forall|i: int| 0 <= i < keys.len() implies covers(
            input,
            #[trigger] keys[i],
            was + step,
        ) by {
            if i < front.len() {
                assert(front[i] == keys[i]);
                assert(covers(input, front[i], was));
            }
        }
    }
}

/// The packages from local sources read back.
proof fn lemma_graph_locals(input: Input)
    requires
        is_storable(input),
    ensures
        graph_locals(recorded(input)) == locals(input.graph),
        ({
            let found = add_locals(Map::empty(), all_entries(recorded(input).importers));
            let q = local_aliases(recorded(input), found, sorted_keys(found.dom()));
            are_aliases_of(input, q) && forall|k: Seq<char>| #[trigger]
                locals(input.graph).dom().contains(k) ==> covers(input, k, q)
        }),
{
    let doc = recorded(input);
    lemma_found(input);
    let found = add_locals(Map::empty(), all_entries(doc.importers));
    let keys = sorted_keys(found.dom());
    assert(locals(input.graph).dom().subset_of(input.graph.packages.dom()));
    vstd::set_lib::lemma_set_subset_finite(
        input.graph.packages.dom(),
        locals(input.graph).dom(),
    );
    lemma_listing(found.dom());
    assert forall|i: int| 0 <= i < keys.len() implies rereads(
        doc,
        input,
        found,
        #[trigger] keys[i],
    ) by {
        assert(keys.contains(keys[i]));
        assert(found.dom().contains(keys[i]));
        assert(input.graph.packages.dom().contains(keys[i]));
        assert(is_storable_package(input, keys[i], input.graph.packages[keys[i]]));
        lemma_harvest(input, keys[i]);
    }
    lemma_local_packages(doc, input, found, keys);
    let q = local_aliases(doc, found, keys);
    assert forall|k: Seq<char>| #[trigger] locals(input.graph).dom().contains(k) implies covers(
        input,
        k,
        q,
    ) by {
        assert(keys.contains(k));
        let i = choose|i: int| 0 <= i < keys.len() && keys[i] == k;
        assert(covers(input, keys[i], q));
    }
    let m = graph_locals(doc);
    assert(m =~= locals(input.graph)) by {
        assert forall|k: Seq<char>| m.dom().contains(k) <==> locals(input.graph).dom().contains(
            k,
        ) by {
            assert(found.dom().contains(k) <==> keys.contains(k));
        }
        assert(m.dom() =~= locals(input.graph).dom());
    }
}

/// The keys of packages from local sources.
spec fn canonicals(input: Input) -> Set<Seq<char>> {
    canonical_keys(locals(input.graph))
}

proof fn lemma_absorbed(input: Input, k: Seq<char>)
    requires
        is_storable(input),
        input.graph.packages.dom().contains(k),
        !is_native_alias(input, input.graph.packages[k]),
    ensures
        ({
            let p = input.graph.packages[k];
            let key = snapshot_key(input, k, p);
            is_absorbed(canonicals(input), key) == is_direct_source(k, p)
        }),
{
    let p = input.graph.packages[k];
    lemma_keys(input, k);
    let set = canonicals(input);
    if is_direct_source(k, p) {
        assert(locals(input.graph).dom().contains(k));
        assert(set.contains(local_canonical(p)));
    } else {
        if set.contains(k) {
            let o = choose|o: Seq<char>| #[trigger]
                locals(input.graph).dom().contains(o) && local_canonical(locals(input.graph)[o])
                    == k;
            lemma_no_clash(input, k, o);
        }
        if set.contains(bare_key(k, p)) {
            let o = choose|o: Seq<char>| #[trigger]
                locals(input.graph).dom().contains(o) && local_canonical(locals(input.graph)[o])
                    == bare_key(k, p);
            lemma_no_clash(input, k, o);
        }
    }
}

/// A package that is neither a direct dependency from a local source nor an
/// alias reads back.
proof fn lemma_locked(input: Input, k: Seq<char>)
    requires
        is_storable(input),
        input.graph.packages.dom().contains(k),
        !is_native_alias(input, input.graph.packages[k]),
        !is_direct_source(k, input.graph.packages[k]),
    ensures
        locked_package(recorded(input), k) == input.graph.packages[k],
{
    let p = input.graph.packages[k];
    let doc = recorded(input);
    assert(is_storable_package(input, k, p));
    lemma_keys(input, k);
    lemma_recorded(input, k);
    lemma_snapshot_deps(input, k);
    let info = written_info(input, p);
    assert(package_info(doc, k) == Some(info));
    assert(snapshot_at(doc, k) == written_snapshot(input, p));
    let got = locked_package(doc, k);
    assert(or_empty(info.peer_dependencies) =~= p.peer_dependencies);
    assert(or_empty(info.peer_dependencies_meta) =~= p.peer_dependencies_meta);
    assert(or_nothing(unless_nothing(p.bundled_dependencies)) =~= p.bundled_dependencies);
    assert(or_nothing(unless_nothing(p.transitive_peer_dependencies))
        =~= p.transitive_peer_dependencies);
    assert(info.resolution matches Some(r) ==> r.integrity == p.integrity);
    lemma_tarball(input, k);
    assert(got.dependencies == p.dependencies);
    assert(got.bin == p.bin);
    assert(got =~= p);
}

proof fn lemma_tarball(input: Input, k: Seq<char>)
    requires
        is_storable(input),
        input.graph.packages.dom().contains(k),
        !is_native_alias(input, input.graph.packages[k]),
        !is_direct_source(k, input.graph.packages[k]),
    ensures
        ({
            let p = input.graph.packages[k];
            let got = locked_package(recorded(input), k);
            got.tarball_url == p.tarball_url && got.local_source == p.local_source
                && got.integrity == p.integrity && got.version == p.version
        }),
{
    let p = input.graph.packages[k];
    assert(is_storable_package(input, k, p));
    lemma_keys(input, k);
    lemma_recorded(input, k);
    lemma_tail(input, k);
    if p.local_source is None {
        if let Some(url) = p.tarball_url {
            reveal_strlit("https://");
            reveal_strlit("http://");
            reveal_strlit("file:");
            assert(!"file:"@.is_prefix_of(url)) by {
                if "https://"@.is_prefix_of(url) {
                    assert(url[1] == "https://"@[1]);
                } else {
                    assert(url[1] == "http://"@[1]);
                }
                if "file:"@.is_prefix_of(url) {
                    assert("file:"@[1] == url[1]);
                }
            }
        }
    }
}

/// Whether the package under a key has a snapshot under that key.
spec fn is_plain(input: Input, k: Seq<char>) -> bool {
    &&& input.graph.packages.dom().contains(k)
    &&& !is_native_alias(input, input.graph.packages[k])
    &&& !is_direct_source(k, input.graph.packages[k])
}

/// What the reader finds under a key of a snapshot.
spec fn is_clean_snapshot(
    input: Input,
    doc: PnpmLockfileView,
    set: Set<Seq<char>>,
    key: Seq<char>,
) -> bool {
    let found = aliases_in(snapshot_at(doc, key));
    &&& !is_invalid(set, key)
    &&& !is_absorbed(set, key) ==> are_aliases_of(input, found)
    &&& is_plain(input, key) ==> !is_absorbed(set, key) && covers(input, key, found)
}

proof fn lemma_clean_snapshot(input: Input, key: Seq<char>)
    requires
        is_storable(input),
        recorded(input).snapshots.dom().contains(key),
    ensures
        is_clean_snapshot(input, recorded(input), canonicals(input), key),
{
    let o = lemma_snapshot_origin(input, key);
    lemma_keys(input, o);
    lemma_absorbed(input, o);
    lemma_recorded(input, o);
    lemma_snapshot_deps(input, o);
    assert(snapshot_at(recorded(input), key) == written_snapshot(input, input.graph.packages[o]));
    if is_plain(input, key) {
        lemma_keys(input, key);
        lemma_snapshot_keys_apart(input, key, o);
        assert(o == key);
    }
}

proof fn lemma_snapshot_aliases(
    input: Input,
    doc: PnpmLockfileView,
    set: Set<Seq<char>>,
    keys: Seq<Seq<char>>,
)
    requires
        forall|i: int|
            0 <= i < keys.len() ==> is_clean_snapshot(input, doc, set, #[trigger] keys[i]),
    ensures
        ({
            let q = snapshot_aliases(doc, set, keys);
            &&& are_aliases_of(input, q)
            &&& forall|i: int|
                0 <= i < keys.len() && is_plain(input, #[trigger] keys[i]) ==> covers(
                    input,
                    keys[i],
                    q,
                )
        }),
        first_invalid(set, keys) is None,
    decreases keys.len(),
{
    if keys.len() > 0 {
        let front = keys.drop_last();
        assert forall|i: int| 0 <= i < front.len() implies is_clean_snapshot(
            input,
            doc,
            set,
            #[trigger] front[i],
        ) by {
            assert(front[i] == keys[i]);
        }
        lemma_snapshot_aliases(input, doc, set, front);
        let last = keys[keys.len() - 1];
        assert(is_clean_snapshot(input, doc, set, last));
        let was = snapshot_aliases(doc, set, front);
        let now = snapshot_aliases(doc, set, keys);
        let step = if is_absorbed(set, last) {
            Seq::empty()
        } else {
            aliases_in(snapshot_at(doc, last))
        };
        assert(now =~= was + step);
        lemma_aliases_concat(input, was, step);
        assert forall|i: int| 0 <= i < keys.len() && is_plain(
            input,
            #[trigger] keys[i],
        ) implies covers(input, keys[i], now) by {
            if i < front.len() {
                assert(front[i] == keys[i]);
                assert(covers(input, front[i], was));
            } else {
                assert(covers(input, last, step));
            }
        }
    }
}

/// Aliases are put back.
proof fn lemma_with_aliases(
    input: Input,
    other: Map<Seq<char>, LockedPackageView>,
    q: Seq<AliasRemapView>,
)
    requires
        forall|k: Seq<char>| #[trigger]
            other.dom().contains(k) ==> other[k] == input.graph.packages[k] && !is_native_alias(
                input,
                other[k],
            ),
        forall|k: Seq<char>| #[trigger]
            input.graph.packages.dom().contains(k) && is_native_alias(
                input,
                input.graph.packages[k],
            ) ==> is_restored(input, other, k),
        are_aliases_of(input, q),
    ensures
        with_aliases(other, q) is Ok,
        ({
            let m = with_aliases(other, q)->Ok_0;
            &&& forall|k: Seq<char>| #[trigger]
                m.dom().contains(k) <==> other.dom().contains(k) || (
                input.graph.packages.dom().contains(k) && is_native_alias(
                    input,
                    input.graph.packages[k],
                ) && q.contains(remap_of(input, k)))
            &&& forall|k: Seq<char>| #[trigger]
                m.dom().contains(k) ==> m[k] == input.graph.packages[k]
        }),
    decreases q.len(),
{
    if q.len() > 0 {
        let front = q.drop_last();
        let last = q[q.len() - 1];
        assert forall|i: int| 0 <= i < front.len() implies is_alias_of(
            input,
            #[trigger] front[i],
        ) by {
            assert(front[i] == q[i]);
        }
        lemma_with_aliases(input, other, front);
        assert(is_alias_of(input, last));
        let key = last.alias_dep_path;
        assert(is_restored(input, other, key));
        let was = with_aliases(other, front)->Ok_0;
        let m = with_aliases(other, q)->Ok_0;
        assert(other.dom().contains(last.real_dep_path));
        assert(was.dom().contains(last.real_dep_path));
        assert forall|k: Seq<char>| #[trigger] m.dom().contains(k) <==> other.dom().contains(k) || (
        input.graph.packages.dom().contains(k) && is_native_alias(input, input.graph.packages[k])
            && q.contains(remap_of(input, k))) by {
            let a = remap_of(input, k);
            if front.contains(a) {
                let i = choose|i: int| 0 <= i < front.len() && front[i] == a;
                assert(q[i] == a);
            }
            if q.contains(a) && a != last {
                let i = choose|i: int| 0 <= i < q.len() && q[i] == a;
                assert(front[i] == a);
            }
            if k == key {
                assert(a == last);
                assert(q.contains(last));
            } else {
                assert(a != last);
            }
        }
    }
}

/// Whether an alias is its target, which is among the packages, under another
/// name.
spec fn is_restored(
    input: Input,
    other: Map<Seq<char>, LockedPackageView>,
    k: Seq<char>,
) -> bool {
    let a = remap_of(input, k);
    other.dom().contains(a.real_dep_path) && input.graph.packages[k] == (LockedPackageView {
        name: a.alias_name,
        dep_path: a.alias_dep_path,
        alias_of: Some(a.real_name),
        ..other[a.real_dep_path]
    })
}

/// All aliases of the graph are read.
proof fn lemma_all_aliases(input: Input, k: Seq<char>)
    requires
        is_storable(input),
        package_keys(recorded(input)) == recorded(input).snapshots.dom(),
    ensures
        are_aliases_of(input, graph_aliases(recorded(input))),
        input.graph.packages.dom().contains(k) && is_native_alias(input, input.graph.packages[k])
            ==> graph_aliases(recorded(input)).contains(remap_of(input, k)),
{
    let g = input.graph;
    let doc = recorded(input);
    lemma_graph_locals(input);
    lemma_found(input);
    lemma_snapshots_finite(input);
    let keys = sorted_keys(doc.snapshots.dom());
    lemma_listing(doc.snapshots.dom());
    assert forall|i: int| 0 <= i < keys.len() implies is_clean_snapshot(
        input,
        doc,
        canonicals(input),
        #[trigger] keys[i],
    ) by {
        assert(keys.contains(keys[i]));
        lemma_clean_snapshot(input, keys[i]);
    }
    lemma_snapshot_aliases(input, doc, canonicals(input), keys);
    let entries = all_entries(doc.importers);
    let found = add_locals(Map::empty(), entries);
    let x = entry_aliases(entries);
    let y = local_aliases(doc, found, sorted_keys(found.dom()));
    let z = snapshot_aliases(doc, canonicals(input), keys);
    assert(graph_aliases(doc) == x + y + z);
    lemma_aliases_concat(input, x, y);
    lemma_aliases_concat(input, x + y, z);
    if g.packages.dom().contains(k) && is_native_alias(input, g.packages[k]) {
        let a = remap_of(input, k);
        assert(is_storable_package(input, k, g.packages[k]));
        if is_direct(g, k) {
            assert(x.contains(a));
            assert((x + y).contains(a));
        } else {
            let (o, n) = choose|o: Seq<char>, n: Seq<char>|
                #![trigger g.packages[o].dependencies.dom().contains(n)]
                g.packages.dom().contains(o) && g.packages[o].dependencies.dom().contains(n)
                    && dep_path(n, g.packages[o].dependencies[n]) == k && n
                    == g.packages[k].name;
            lemma_home(input, o);
            let h = home(input, o);
            let deps = g.packages[h].dependencies;
            assert(deps.dom().contains(n) && is_alias_dep(input, n, deps[n]));
            if is_direct_source(h, g.packages[h]) {
                assert(locals(g).dom().contains(h));
                assert(covers(input, h, y));
                assert(y.contains(a));
                assert((x + y).contains(a));
            } else {
                lemma_keys(input, h);
                lemma_not_link(input, h);
                lemma_recorded(input, h);
                assert(keys.contains(h));
                let i = choose|i: int| 0 <= i < keys.len() && keys[i] == h;
                assert(is_plain(input, keys[i]));
                assert(z.contains(a));
            }
        }
    }
}

/// A link is a direct dependency.
proof fn lemma_not_link(input: Input, k: Seq<char>)
    requires
        is_storable(input),
        input.graph.packages.dom().contains(k),
        !is_direct_source(k, input.graph.packages[k]),
    ensures
        !is_link(input.graph.packages[k]),
{
    assert(is_storable_package(input, k, input.graph.packages[k]));
}

/// The packages read back.
proof fn lemma_packages(input: Input)
    requires
        is_storable(input),
    ensures
        graph_packages(recorded(input)) == Ok::<
            Map<Seq<char>, LockedPackageView>,
            ReadErrorView,
        >(input.graph.packages),
{
    let g = input.graph;
    let doc = recorded(input);
    lemma_graph_locals(input);
    lemma_found(input);
    lemma_snapshots_finite(input);
    let set = canonicals(input);
    assert(package_keys(doc) =~= doc.snapshots.dom()) by {
        if doc.snapshots == Map::<Seq<char>, PnpmSnapshotView>::empty() {
            assert forall|q: Seq<char>| !doc.packages.dom().contains(q) by {
                if doc.packages.dom().contains(q) {
                    let o = lemma_info_origin(input, q);
                    lemma_recorded(input, o);
                }
            }
        }
    }
    let keys = sorted_keys(package_keys(doc));
    lemma_listing(doc.snapshots.dom());
    assert forall|i: int| 0 <= i < keys.len() implies is_clean_snapshot(
        input,
        doc,
        canonicals(input),
        #[trigger] keys[i],
    ) by {
        assert(keys.contains(keys[i]));
        lemma_clean_snapshot(input, keys[i]);
    }
    lemma_snapshot_aliases(input, doc, canonicals(input), keys);
    let other = other_packages(doc, set);
    assert forall|k: Seq<char>| #[trigger] other.dom().contains(k) <==> g.packages.dom().contains(
        k,
    ) && !is_direct_source(k, g.packages[k]) && !is_native_alias(input, g.packages[k]) by {
        if other.dom().contains(k) {
            let o = lemma_snapshot_origin(input, k);
            lemma_keys(input, o);
            lemma_absorbed(input, o);
        }
        if g.packages.dom().contains(k) && !is_direct_source(k, g.packages[k])
            && !is_native_alias(input, g.packages[k]) {
            lemma_keys(input, k);
            lemma_absorbed(input, k);
            lemma_not_link(input, k);
            lemma_recorded(input, k);
        }
    }
    assert forall|k: Seq<char>| #[trigger] other.dom().contains(k) implies other[k]
        == g.packages[k] && !is_native_alias(input, other[k]) by {
        lemma_locked(input, k);
    }
    assert forall|k: Seq<char>| #[trigger] g.packages.dom().contains(k) && is_native_alias(
        input,
        g.packages[k],
    ) implies is_restored(input, other, k) by {
        assert(is_storable_package(input, k, g.packages[k]));
        lemma_home(input, k);
        assert(other.dom().contains(home(input, k)));
    }
    let q = graph_aliases(doc);
    lemma_all_aliases(input, Seq::empty());
    lemma_with_aliases(input, other, q);
    let m = with_aliases(other, q)->Ok_0;
    assert(m.union_prefer_right(locals(g)) =~= g.packages) by {
        assert forall|k: Seq<char>| g.packages.dom().contains(k) implies m.dom().contains(k)
            || locals(g).dom().contains(k) by {
            lemma_all_aliases(input, k);
        }
        assert forall|k: Seq<char>| m.dom().contains(k) implies g.packages.dom().contains(k) by {
        }
    }
}

/// Skipped optional dependencies that a lockfile can tell: each stands with a
/// workspace package that is recorded under its own path, and none is empty.
pub open spec fn are_storable_skips(graph: LockfileGraphView) -> bool {
    &&& forall|path: Seq<char>| #[trigger]
        graph.skipped_optional_dependencies.dom().contains(path) ==> path.len() > 0
            && graph.importers.dom().contains(path) && graph.skipped_optional_dependencies[path]
            != Map::<Seq<char>, Seq<char>>::empty()
    &&& graph.skipped_optional_dependencies.dom().contains("."@)
        ==> !graph.importers.dom().contains(Seq::empty())
}

/// Skipped optional dependencies read back.
proof fn lemma_skips(input: Input)
    requires
        are_storable_skips(input.graph),
    ensures
        graph_skipped(written_importers(input)) == input.graph.skipped_optional_dependencies,
{
    let g = input.graph;
    let w = written_importers(input);
    let none = Seq::<char>::empty();
    reveal_strlit(".");
    assert forall|path: Seq<char>| #[trigger]
        g.skipped_optional_dependencies.dom().contains(path) implies section_specifiers(
        w[path].skipped_optional_dependencies->0,
    ) == g.skipped_optional_dependencies[path] && w[path].skipped_optional_dependencies
        is Some && w[path].skipped_optional_dependencies->0 != Map::<
        Seq<char>,
        PnpmDepSpecView,
    >::empty() by {
        let ranges = g.skipped_optional_dependencies[path];
        let sec = skipped_section(ranges);
        assert(sec != Map::<Seq<char>, PnpmDepSpecView>::empty()) by {
            assert(!(ranges =~= Map::<Seq<char>, Seq<char>>::empty()));
            let k = choose|k: Seq<char>| ranges.dom().contains(k);
            assert(exists|k: Seq<char>| ranges.dom().contains(k));
            assert(sec.dom().contains(k));
        }
        assert(section_specifiers(sec) =~= ranges);
    }
    assert forall|path: Seq<char>| g.importers.dom().contains(path)
        && !g.skipped_optional_dependencies.dom().contains(
        path,
    ) implies #[trigger] w[path].skipped_optional_dependencies is None by {
    }
    assert(!g.skipped_optional_dependencies.dom().contains(none));
    assert(graph_skipped(w) =~= g.skipped_optional_dependencies);
}

/// What a lockfile says beside direct dependencies and packages reads back,
/// whatever the graph: the settings, the overrides, the publication times, the
/// catalogs, the patches, and the ignored and the skipped optional dependencies.
pub proof fn law_header_round_trip(input: Input)
    requires
        input.graph.ignored_optional_dependencies.finite(),
    ensures
        are_storable_skips(input.graph) ==> graph_skipped(document_of(input).importers)
            == input.graph.skipped_optional_dependencies,
        graph_of(document_of(input)) matches Ok(h) ==> {
            let g = input.graph;
            &&& h.settings == g.settings
            &&& h.overrides == g.overrides
            &&& h.times == g.times
            &&& h.catalogs == g.catalogs
            &&& h.patched_dependencies == g.patched_dependencies
            &&& h.ignored_optional_dependencies == g.ignored_optional_dependencies
            &&& are_storable_skips(g) ==> h.skipped_optional_dependencies
                == g.skipped_optional_dependencies
        },
        ({
            let g = input.graph;
            let doc = document_of(input);
            &&& graph_settings(doc.settings) == g.settings
            &&& or_empty(doc.overrides) == g.overrides
            &&& or_empty(doc.time) == g.times
            &&& or_empty(doc.catalogs) == g.catalogs
            &&& patch_paths(or_empty(doc.patched_dependencies)) == g.patched_dependencies
            &&& or_nothing(doc.ignored_optional_dependencies).to_set()
                == g.ignored_optional_dependencies
        }),
{
    let g = input.graph;
    let doc = document_of(input);
    let w = written_patches(g.patched_dependencies);
    assert(patch_paths(w) =~= g.patched_dependencies);
    assert(patch_paths(or_empty(unless_empty(w))) =~= g.patched_dependencies);
    let set = g.ignored_optional_dependencies;
    lemma_listing(set);
    let q = sorted_keys(set);
    assert(q.to_set() =~= set);
    assert(or_nothing(unless_nothing(q)) =~= q);
    if are_storable_skips(g) {
        lemma_skips(input);
    }
}

/// A graph that a lockfile can tell is read back as it was written.
pub proof fn law_round_trip(input: Input)
    requires
        is_storable(input),
    ensures
        graph_of(document_of(input)) == Ok::<
            LockfileGraphView,
            ReadErrorView,
        >(input.graph),
{
    lemma_packages(input);
    lemma_importers(input);
    law_header_round_trip(input);
}

/// A lockfile that has been read is written again as it was.
pub proof fn law_rewriting_changes_nothing(input: Input)
    requires
        is_storable(input),
    ensures
        graph_of(document_of(input)) matches Ok(graph) && document_of(
            Input { graph, ..input },
        ) == document_of(input),
{
    law_round_trip(input);
}

proof fn lemma_no_bracket(s: Seq<char>)
    requires
        !s.contains('('),
    ensures
        until(s, '(') == s,
{
    lemma_find_char_none(s, '(');
}

/// A directory, tarball or link that a lockfile can tell: a path with forward
/// slashes and without round brackets, whose name says whether it is a tarball,
/// and which is no git URL.
pub proof fn law_path_sources_are_storable(source: LocalSourceView)
    requires
        source.path() matches Some(p) && !p.contains('\\') && !p.contains('('),
        source matches LocalSourceView::Directory(p) ==> !is_tarball_path(p),
        source matches LocalSourceView::Tarball(p) ==> is_tarball_path(p),
        git_spec(source.specifier()) is None,
    ensures
        is_storable_source(source),
{
    let p = source.path()->0;
    let spec = source.specifier();
    assert(source.posix() =~= p) by {
        assert forall|i: int| 0 <= i < p.len() implies replace_char(p, '\\', '/')[i] == p[i] by {
            assert(p.contains(p[i]));
        }
    }
    reveal_strlit("file:");
    reveal_strlit("link:");
    reveal_strlit("file");
    reveal_strlit("link");
    reveal_strlit(":");
    reveal_strlit("https://");
    reveal_strlit("http://");
    let prefix = if source is Link {
        "link:"@
    } else {
        "file:"@
    };
    assert(spec =~= prefix + p);
    assert(spec.take(5) =~= prefix);
    assert(spec.skip(5) =~= p);
    assert(spec[0] == prefix[0]);
    assert(!is_http_url(spec)) by {
        if "https://"@.is_prefix_of(spec) {
            assert(spec[0] == "https://"@[0]);
        }
        if "http://"@.is_prefix_of(spec) {
            assert(spec[0] == "http://"@[0]);
        }
    }
    if source is Link {
        if "file:"@.is_prefix_of(spec) {
            assert(spec[0] == "file:"@[0]);
        }
    }
    assert(!spec.contains('(')) by {
        assert forall|i: int| 0 <= i < spec.len() implies spec[i] != '(' by {
            if i >= 5 {
                assert(p.contains(p[i - 5]));
            }
        }
    }
    lemma_no_bracket(spec);
    if source is Tarball {
        let tarball = "file:"@ + p;
        assert("file:"@.is_prefix_of(tarball)) by {
            assert(tarball.take(5) =~= "file:"@);
        }
        assert(tarball.skip(5) =~= p);
    }
}

/// A remote tarball that a lockfile can tell: an HTTP URL without round
/// brackets that is no git URL.
pub proof fn law_remote_tarballs_are_storable(t: RemoteTarballView)
    requires
        is_http_url(t.url),
        !t.url.contains('('),
        git_spec(t.url) is None,
    ensures
        is_storable_source(LocalSourceView::RemoteTarball(t)),
{
    lemma_no_bracket(t.url);
    reveal_strlit("file:");
    reveal_strlit("https://");
    reveal_strlit("http://");
    if "file:"@.is_prefix_of(t.url) {
        assert(t.url[0] == "file:"@[0]);
        if "https://"@.is_prefix_of(t.url) {
            assert(t.url[0] == "https://"@[0]);
        } else {
            assert(t.url[0] == "http://"@[0]);
        }
    }
    if t.integrity.len() == 0 {
        assert(t.integrity =~= Seq::<char>::empty());
    }
}

/// A git source that a lockfile can tell: pinned to a commit, with a URL that
/// has a scheme and no fragment, and without the signs that end a fragment's
/// part or a version.
pub proof fn law_git_sources_are_storable(g: GitSourceView)
    requires
        is_plain_clone_url(g.url),
        is_full_sha(g.resolved),
        g.committish is None,
        !g.url.contains('('),
        g.subpath matches Some(sub) ==> is_safe_subpath(sub) && !sub.contains('&')
            && !sub.contains('=') && !sub.contains('('),
    ensures
        is_storable_source(LocalSourceView::Git(g)),
{
    law_git_specifier_round_trip(g);
    let source = LocalSourceView::Git(g);
    let spec = source.specifier();
    reveal_strlit("#");
    reveal_strlit("&path:/");
    reveal_strlit("/");
    assert forall|i: int| 0 <= i < g.url.len() implies g.url[i] != '(' by {
        assert(g.url.contains(g.url[i]));
    }
    if let Some(sub) = g.subpath {
        assert forall|i: int| 0 <= i < sub.len() implies sub[i] != '(' by {
            assert(sub.contains(sub[i]));
        }
        let path = "/"@ + sub;
        law_subpath_stays_inside(spec);
        assert(path.drop_first() =~= sub);
        assert(trim_start_char(sub, '/') == sub);
        assert(trim_start_char(path, '/') == trim_start_char(sub, '/'));
    }
    assert(!spec.contains('('));
    lemma_no_bracket(spec);
}

/// An alias that is written the way pnpm itself does, as the dep path of the
/// package that it stands for, leads back to its own key and its own version,
/// and to that package.
pub proof fn law_native_alias_reads_back(name: Seq<char>, target: Seq<char>, version: Seq<char>)
    requires
        is_name(target),
        !target.contains('('),
        !target.contains(':'),
        local_source(dep_path(target, until(version, '(')), false) is None,
        name != target,
    ensures
        resolved_tail(name, dep_path(target, version)) == version,
        alias_remap(name, dep_path(target, version)) == Some(
            AliasRemapView {
                alias_dep_path: dep_path(name, version),
                real_dep_path: dep_path(target, version),
                alias_name: name,
                real_name: target,
            },
        ),
{
    let value = dep_path(target, version);
    let bare = until(version, '(');
    let n = target.len() as int + 1;
    reveal_strlit("@");
    lemma_find_char(version, '(');
    lemma_until(version);
    law_dep_path_parts(target, bare);
    assert forall|i: int| 0 <= i < n implies value[i] != '(' by {
        if i < n - 1 {
            assert(value[i] == target[i]);
            assert(target.contains(target[i]));
        }
    }
    match find_char(version, '(') {
        Some(i) => {
            assert(value[n + i] == version[i]);
            assert forall|j: int| 0 <= j < n + i implies value[j] != '(' by {
                if j >= n {
                    assert(value[j] == version[j - n]);
                }
            }
            lemma_find_char_at(value, '(', n + i);
            assert(value.take(n + i) =~= dep_path(target, bare));
            assert(value.skip(n + i) =~= version.skip(i));
            assert(bare + version.skip(i) =~= version);
        },
        None => {
            assert(!value.contains('(')) by {
                assert forall|j: int| 0 <= j < value.len() implies value[j] != '(' by {
                    if j >= n {
                        assert(value[j] == version[j - n]);
                        assert(version[j - n] != '(');
                    }
                }
            }
            lemma_find_char_none(value, '(');
            assert(bare + Seq::<char>::empty() =~= version);
        },
    }
}

/// The package of an alias is that of its target under another name.
pub proof fn law_alias_is_restored(
    packages: Map<Seq<char>, LockedPackageView>,
    alias: AliasRemapView,
)
    requires
        packages.dom().contains(alias.real_dep_path),
        !packages.dom().contains(alias.alias_dep_path),
    ensures
        with_aliases(packages, seq![alias]) == Ok::<
            Map<Seq<char>, LockedPackageView>,
            AliasRemapView,
        >(
            packages.insert(
                alias.alias_dep_path,
                LockedPackageView {
                    name: alias.alias_name,
                    dep_path: alias.alias_dep_path,
                    alias_of: Some(alias.real_name),
                    ..packages[alias.real_dep_path]
                },
            ),
        ),
{
    assert(seq![alias].drop_last() =~= Seq::<AliasRemapView>::empty());
    reveal_with_fuel(with_aliases, 2);
}

/// Where links are left out, nothing but links is: every other direct
/// dependency of a type is in its section, and no link is.
pub proof fn law_only_links_are_left_out(
    input: Input,
    importer: Seq<char>,
    deps: Seq<DirectDepView>,
    t: DepType,
    name: Seq<char>,
)
    ensures
        or_empty(written_section(input, importer, deps, t)).dom().contains(name) <==> exists|i: int|
            0 <= i < deps.len() && (#[trigger] deps[i]).name == name && deps[i].dep_type == t
                && !is_left_out(input.graph, deps[i]),
        !input.graph.settings.exclude_links_from_lockfile ==> forall|i: int|
            0 <= i < deps.len() ==> !is_left_out(input.graph, #[trigger] deps[i]),
    decreases deps.len(),
{
    let section = or_empty(written_section(input, importer, deps, t));
    if deps.len() > 0 {
        let front = deps.drop_last();
        let n = deps.len() - 1;
        law_only_links_are_left_out(input, importer, front, t, name);
        assert(deps[n] == deps.last());
        let before_section = or_empty(written_section(input, importer, front, t));
        if before_section.dom().contains(name) {
            let i = choose|i: int|
                0 <= i < front.len() && (#[trigger] front[i]).name == name && front[i].dep_type == t
                    && !is_left_out(input.graph, front[i]);
            assert(deps[i] == front[i]);
        }
        if exists|i: int|
            0 <= i < deps.len() && (#[trigger] deps[i]).name == name && deps[i].dep_type == t
                && !is_left_out(input.graph, deps[i]) {
            let i = choose|i: int|
                0 <= i < deps.len() && (#[trigger] deps[i]).name == name && deps[i].dep_type == t
                    && !is_left_out(input.graph, deps[i]);
            if i < n {
                assert(front[i] == deps[i]);
            }
        }
    }
}

/// The root may be recorded under the empty key or under `.`. It is read under
/// `.` either way, and the empty key counts where both are there. Any other
/// package is read under its own key.
pub proof fn law_root_importer(importers: Map<Seq<char>, PnpmImporterView>, path: Seq<char>)
    ensures
        ({
            let got = graph_importers(importers);
            let root = Seq::<char>::empty();
            &&& !got.dom().contains(root)
            &&& lookup(got, "."@) == match lookup(importers, root) {
                Some(i) => Some(importer_deps(i)),
                None => match lookup(importers, "."@) {
                    Some(i) => Some(importer_deps(i)),
                    None => None,
                },
            }
            &&& path.len() > 0 && path != "."@ ==> lookup(got, path) == match lookup(
                importers,
                path,
            ) {
                Some(i) => Some(importer_deps(i)),
                None => None,
            }
        }),
{
    reveal_strlit(".");
}

/// What stands behind the name in the key of a package from a local source.
pub open spec fn source_tail(source: LocalSourceView) -> Seq<char> {
    source.kind() + "+"@ + hex(sha256(encode_utf8(source.identity())).take(8))
}

proof fn lemma_source_tail(source: LocalSourceView)
    ensures
        until(source_tail(source), '(') == source_tail(source),
{
    reveal_strlit("+");
    reveal_strlit("file");
    reveal_strlit("link");
    reveal_strlit("git");
    reveal_strlit("url");
    let bytes = sha256(encode_utf8(source.identity())).take(8);
    let h = hex(bytes);
    assert forall|i: int| 0 <= i < h.len() implies #[trigger] h[i] != '(' by {
        let b = bytes[i / 2];
        assert(0 <= b as int / 16 < 16);
    }
    let t = source_tail(source);
    let n = source.kind().len() as int;
    lemma_find_char(t, '(');
    if let Some(i) = find_char(t, '(') {
        if i > n {
            assert(t[i] == h[i - n - 1]);
        } else if i < n {
            assert(t[i] == source.kind()[i]);
        }
    }
}

/// A dependency that names a local source by the end of its key is written with
/// the specifier of that source, whatever its name.
pub proof fn law_local_dependency_is_written(input: Input, name: Seq<char>, source: LocalSourceView)
    requires
        lookup(input.graph.packages, source.dep_path(name)) matches Some(p) && p.local_source
            == Some(source),
        !(source is Link),
        component(name) != name ==> !input.graph.packages.dom().contains(
            dep_path(name, source_tail(source)),
        ),
    ensures
        written_value(input, name, source_tail(source)) == source.specifier(),
{
    let t = source_tail(source);
    lemma_source_tail(source);
    assert(source.dep_path(name) =~= dep_path(component(name), t)) by {
        reveal_strlit("@");
        reveal_strlit("+");
    }
}

} // verus!
