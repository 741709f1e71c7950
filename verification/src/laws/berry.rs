//! What writing and reading a berry `yarn.lock` guarantee together.
use vstd::prelude::*;
use crate::graph::{
    default_graph, default_package, DepType, DirectDepView, LockedPackageView, LockfileGraphView,
    PeerDepMetaView,
};
use crate::laws::classic::{is_line, lemma_first_line, lemma_listed_finite, lemma_path_keys};
use crate::laws::pnpm::{
    is_name, lemma_ascending_index, lemma_of_type, lemma_separator, names, of_type,
};
use crate::manifest::Ranges;
use crate::pnpm::dep_path::{dep_path, version_separator};
use crate::source::LocalSourceView;
use crate::strmap::{lemma_listing, lookup, sorted_keys};
use crate::text::{
    find, is_white, join, lemma_find_char_at, lemma_find_from, lines, occurs_at, split_once,
    split_text, trim, trim_start,
};
use crate::yaml::{
    find_key, find_key_from, get, lemma_find_key_from, text, yaml_document, YamlEntries,
    YamlFailureView, YamlView,
};
use crate::yarn::berry::{
    berry_deps, berry_entry, berry_header, berry_kind, berry_root_deps, berry_spec, berry_table,
    dep_section, direct_path, first_wrong_entry, header_list, meta_map, meta_section,
    metadata_version, raw_package, raw_packages, resolved_package, resolved_packages, scalar_map,
    tree_graph, BerryBlock, BerryErrorView, BerryKind,
};
use crate::yarn::berry_write::{
    berry_all_declared_pairs, berry_blocks_text, berry_declared_pairs, berry_extra_specs,
    berry_header_specs, berry_root_pairs, berry_text, dep_body, edge_pairs, escaped, exact_spec,
    link_type, quoted, ranged_spec, spec_pair,
};
use crate::yarn::canonical::{
    canonical, canonical_among, direct_key, edge_key, grouped, listed_for, manifest_range,
    path_index, path_keys,
};
use crate::yarn::classic::{all_to, resolved_by};
use crate::yarn::classic_write::{root_importer, Pair};
use crate::yarn::skipped::skipped_entry;
use crate::yarn::{is_berry_text, is_metadata_line, yarn_graph, YarnErrorView};

verus! {

spec fn notice() -> Seq<char> {
    "# This file is generated by running \"yarn install\" inside your project."@
}

spec fn caution() -> Seq<char> {
    "# Manual changes might be lost - proceed with caution!"@
}

proof fn lemma_notice()
    ensures
        is_line(notice()),
        "# This file is generated by running \"yarn install\" inside your project.\n"@ == notice()
            + "\n"@,
{
    reveal_strlit("# This file is generated by running \"yarn install\" inside your project.");
    reveal_strlit("# This file is generated by running \"yarn install\" inside your project.\n");
    reveal_strlit("\n");
    assert("# This file is generated by running \"yarn install\" inside your project.\n"@
        =~= notice() + "\n"@);
}

proof fn lemma_caution()
    ensures
        is_line(caution()),
        "# Manual changes might be lost - proceed with caution!\n\n"@ == caution() + "\n"@ + "\n"@,
{
    reveal_strlit("# Manual changes might be lost - proceed with caution!");
    reveal_strlit("# Manual changes might be lost - proceed with caution!\n\n");
    reveal_strlit("\n");
    assert("# Manual changes might be lost - proceed with caution!\n\n"@ =~= caution() + "\n"@
        + "\n"@);
}

proof fn lemma_metadata()
    ensures
        is_line("__metadata:"@),
        is_metadata_line("__metadata:"@),
        "__metadata:\n  version: 8\n  cacheKey: 10c0\n\n"@ == "__metadata:"@ + "\n"@
            + "  version: 8\n  cacheKey: 10c0\n\n"@,
{
    reveal_strlit("__metadata:");
    reveal_strlit("__metadata:\n  version: 8\n  cacheKey: 10c0\n\n");
    reveal_strlit("  version: 8\n  cacheKey: 10c0\n\n");
    reveal_strlit("\n");
    assert(trim_start("__metadata:"@) == "__metadata:"@);
    assert("__metadata:\n  version: 8\n  cacheKey: 10c0\n\n"@ =~= "__metadata:"@ + "\n"@
        + "  version: 8\n  cacheKey: 10c0\n\n"@);
}

/// A written berry lockfile is taken for one when it is read.
pub proof fn law_berry_is_told_apart(graph: LockfileGraphView, ranges: Ranges)
    ensures
        is_berry_text(berry_text(graph, ranges)),
{
    lemma_notice();
    lemma_caution();
    lemma_metadata();
    let packages = canonical(graph);
    let body = berry_blocks_text(
        packages,
        berry_extra_specs(graph, ranges),
        crate::strmap::sorted_keys(packages.dom()),
    );
    let n = "\n"@;
    let (a, b, m) = (notice(), caution(), "__metadata:"@);
    let v = "  version: 8\n  cacheKey: 10c0\n\n"@;
    let none = Seq::<char>::empty();
    let t3 = v + body;
    let t2 = m + n + t3;
    let t1 = none + n + t2;
    let t0 = b + n + t1;
    let text = berry_text(graph, ranges);
    assert(text =~= a + n + t0) by {
        assert(text == a + n + (b + n + n) + (m + n + v) + body);
        assert(a + n + (b + n + n) + (m + n + v) + body =~= a + n + (b + n + (none + n + (m + n + (v
            + body)))));
    }
    lemma_first_line(a, t0);
    lemma_first_line(b, t1);
    lemma_first_line(none, t2);
    lemma_first_line(m, t3);
    let all = lines(text);
    assert(all[3] == m);
    assert(is_metadata_line(all[3]));
}

proof fn lemma_escaped_injective(a: Seq<char>, b: Seq<char>)
    requires
        escaped(a) == escaped(b),
    ensures
        a == b,
    decreases a.len(),
{
    if a.len() == 0 {
        if b.len() > 0 {
            assert(escaped(b).len() > 0);
        }
        assert(a =~= b);
    } else if b.len() == 0 {
        assert(escaped(a).len() > 0);
    } else {
        let (x, y) = (escaped(a.drop_last()), escaped(b.drop_last()));
        assert(escaped(a).last() == a.last());
        assert(escaped(b).last() == b.last());
        if a.last() == '\\' || a.last() == '"' {
            assert(x =~= escaped(a).drop_last().drop_last());
            assert(y =~= escaped(b).drop_last().drop_last());
        } else {
            assert(x =~= escaped(a).drop_last());
            assert(y =~= escaped(b).drop_last());
        }
        lemma_escaped_injective(a.drop_last(), b.drop_last());
        assert(a =~= a.drop_last().push(a.last()));
        assert(b =~= b.drop_last().push(b.last()));
    }
}

/// Two texts that are written as one scalar are one text: quoting loses
/// nothing.
pub proof fn law_quoting_is_injective(a: Seq<char>, b: Seq<char>)
    requires
        quoted(a) == quoted(b),
    ensures
        a == b,
{
    reveal_strlit("\"");
    let (x, y) = (escaped(a), escaped(b));
    assert(quoted(a).subrange(1, quoted(a).len() - 1) =~= x);
    assert(quoted(b).subrange(1, quoted(b).len() - 1) =~= y);
    lemma_escaped_injective(a, b);
}

/// The packages of a graph, by key.
pub type Packages = Map<Seq<char>, LockedPackageView>;

/// An entry of a mapping.
pub open spec fn entry(key: Seq<char>, value: YamlView) -> (YamlView, YamlView) {
    (YamlView::String(key), value)
}

/// The entries of the dependencies with the given names that are in the graph.
pub open spec fn dep_entries(
    packages: Packages,
    declared: Map<Seq<char>, Seq<char>>,
    deps: Map<Seq<char>, Seq<char>>,
    names: Seq<Seq<char>>,
) -> YamlEntries
    decreases names.len(),
{
    if names.len() == 0 {
        Seq::empty()
    } else {
        let before = dep_entries(packages, declared, deps, names.drop_last());
        let name = names.last();
        match edge_key(packages, name, deps[name]) {
            Some(key) => before.push(
                entry(
                    name,
                    YamlView::String(dep_body(declared, packages[key], name, deps[name])),
                ),
            ),
            None => before,
        }
    }
}

/// Texts under the given names.
pub open spec fn text_entries(names: Seq<Seq<char>>, m: Map<Seq<char>, Seq<char>>) -> YamlEntries {
    names.map_values(|n: Seq<char>| entry(n, YamlView::String(m[n])))
}

/// The entries of peer dependencies.
pub open spec fn peer_entries(peers: Map<Seq<char>, Seq<char>>) -> YamlEntries {
    text_entries(sorted_keys(peers.dom()), peers)
}

/// What is said about one peer.
pub open spec fn meta_value(meta: PeerDepMetaView) -> YamlView {
    YamlView::Mapping(seq![entry("optional"@, YamlView::Bool(meta.optional))])
}

/// What is said about the peers with the given names.
pub open spec fn meta_entries_of(
    names: Seq<Seq<char>>,
    meta: Map<Seq<char>, PeerDepMetaView>,
) -> YamlEntries {
    names.map_values(|n: Seq<char>| entry(n, meta_value(meta[n])))
}

/// The entries about peers.
pub open spec fn meta_entries(meta: Map<Seq<char>, PeerDepMetaView>) -> YamlEntries {
    meta_entries_of(sorted_keys(meta.dom()), meta)
}

/// A field with a mapping; left out where that is empty.
pub open spec fn section_field(name: Seq<char>, entries: YamlEntries) -> YamlEntries {
    if entries.len() == 0 {
        Seq::empty()
    } else {
        seq![entry(name, YamlView::Mapping(entries))]
    }
}

/// A field with a text that may be left out.
pub open spec fn text_field(name: Seq<char>, value: Option<Seq<char>>) -> YamlEntries {
    match value {
        Some(s) => seq![entry(name, YamlView::String(s))],
        None => Seq::empty(),
    }
}

/// The fields of the block of a package.
pub open spec fn block_fields(packages: Packages, pkg: LockedPackageView) -> YamlEntries {
    text_field("version"@, Some(pkg.version)) + text_field("resolution"@, Some(exact_spec(pkg)))
        + section_field(
        "dependencies"@,
        dep_entries(
            packages,
            pkg.declared_dependencies,
            pkg.dependencies,
            sorted_keys(pkg.dependencies.dom()),
        ),
    ) + section_field(
        "optionalDependencies"@,
        dep_entries(
            packages,
            pkg.declared_dependencies,
            pkg.optional_dependencies,
            sorted_keys(pkg.optional_dependencies.dom()),
        ),
    ) + section_field("peerDependencies"@, peer_entries(pkg.peer_dependencies)) + section_field(
        "peerDependenciesMeta"@,
        meta_entries(pkg.peer_dependencies_meta),
    ) + text_field("checksum"@, pkg.yarn_checksum) + text_field("languageName"@, Some("node"@))
        + text_field("linkType"@, Some(link_type(pkg)))
}

/// The block of the package under a canonical key.
pub open spec fn block_entry(
    packages: Packages,
    extras: Map<Seq<char>, Set<Seq<char>>>,
    key: Seq<char>,
) -> (YamlView, YamlView) {
    entry(
        join(berry_header_specs(key, packages[key], extras), ", "@),
        YamlView::Mapping(block_fields(packages, packages[key])),
    )
}

/// The metadata of a berry lockfile.
pub open spec fn metadata_entry() -> (YamlView, YamlView) {
    entry(
        "__metadata"@,
        YamlView::Mapping(
            seq![
                entry("version"@, YamlView::Number("8"@, Some(8u64))),
                entry("cacheKey"@, YamlView::String("10c0"@)),
            ],
        ),
    )
}

/// The entries that the berry lockfile of a graph spells out, one for each
/// block of its text.
pub open spec fn berry_entries(graph: LockfileGraphView, ranges: Ranges) -> YamlEntries {
    let packages = canonical(graph);
    let extras = berry_extra_specs(graph, ranges);
    seq![metadata_entry()] + sorted_keys(packages.dom()).map_values(
        |k: Seq<char>| block_entry(packages, extras, k),
    )
}

/// `name@version` of a package.
pub open spec fn canonical_key(p: LockedPackageView) -> Seq<char> {
    dep_path(p.name, p.version)
}

/// The specifiers that resolve to a package.
pub open spec fn berry_specs(graph: LockfileGraphView, ranges: Ranges, p: LockedPackageView) -> Seq<
    Seq<char>,
> {
    berry_header_specs(canonical_key(p), p, berry_extra_specs(graph, ranges))
}

/// A specifier as it can stand in a list of them.
pub open spec fn is_listable(s: Seq<char>) -> bool {
    s.len() > 0 && find(s, ", "@) is None && !is_white(s[0]) && !is_white(s.last())
}

/// A source that a berry resolution names.
pub open spec fn is_berry_source(source: LocalSourceView) -> bool {
    split_once(source.specifier(), ':') matches Some((protocol, body)) && berry_kind(protocol, body)
        == BerryKind::Local(source)
}

/// What the line of a dependency says.
pub open spec fn edge_body(
    graph: LockfileGraphView,
    p: LockedPackageView,
    n: Seq<char>,
    value: Seq<char>,
) -> Seq<char> {
    dep_body(p.declared_dependencies, graph.packages[value], n, value)
}

/// A dependency as a berry lockfile tells it: it leads to a package of the graph,
/// and its line says the range that is declared.
pub open spec fn is_berry_dep(
    graph: LockfileGraphView,
    p: LockedPackageView,
    n: Seq<char>,
    value: Seq<char>,
) -> bool {
    &&& graph.packages.dom().contains(value)
    &&& p.declared_dependencies.dom().contains(n)
    &&& edge_body(graph, p, n, value) == p.declared_dependencies[n]
}

/// A name that stands in front of the first `@` that can end one.
pub open spec fn is_separable(name: Seq<char>) -> bool {
    forall|v: Seq<char>| #[trigger]
        version_separator(dep_path(name, v)) == Some(name.len() as int)
}

/// A dependency that a berry lockfile can tell: it leads to a package of the
/// graph, by a range that is declared.
pub open spec fn is_recordable_dep(
    graph: LockfileGraphView,
    p: LockedPackageView,
    n: Seq<char>,
    value: Seq<char>,
) -> bool {
    graph.packages.dom().contains(value) && p.declared_dependencies.dom().contains(n)
}

/// A package that a berry lockfile can tell.
pub open spec fn is_recordable(
    graph: LockfileGraphView,
    ranges: Ranges,
    key: Seq<char>,
    p: LockedPackageView,
) -> bool {
    &&& is_separable(p.name)
    &&& p.dep_path == key
    &&& !"__"@.is_prefix_of(exact_spec(p))
    &&& match p.local_source {
        None => key == canonical_key(p),
        Some(source) => key == source.dep_path(p.name) && is_berry_source(source),
    }
    &&& forall|i: int|
        0 <= i < berry_specs(graph, ranges, p).len() ==> is_listable(
            #[trigger] berry_specs(graph, ranges, p)[i],
        )
    &&& p.dependencies.dom().finite()
    &&& p.optional_dependencies.dom().finite()
    &&& p.peer_dependencies.dom().finite()
    &&& p.peer_dependencies_meta.dom().finite()
    &&& p.declared_dependencies.dom().finite()
    &&& forall|n: Seq<char>| #[trigger]
        p.dependencies.dom().contains(n) ==> is_recordable_dep(graph, p, n, p.dependencies[n])
    &&& forall|n: Seq<char>| #[trigger]
        p.optional_dependencies.dom().contains(n) ==> is_recordable_dep(
            graph,
            p,
            n,
            p.optional_dependencies[n],
        )
}

/// Whether no specifier is listed for two packages.
pub open spec fn are_told_apart(graph: LockfileGraphView, ranges: Ranges) -> bool {
    forall|a: Seq<char>, b: Seq<char>, s: Seq<char>|
        #![trigger
            berry_specs(graph, ranges, graph.packages[a]).contains(s),
            berry_specs(graph, ranges, graph.packages[b]).contains(s)]
        graph.packages.dom().contains(a) && graph.packages.dom().contains(b) && berry_specs(
            graph,
            ranges,
            graph.packages[a],
        ).contains(s) && berry_specs(graph, ranges, graph.packages[b]).contains(s) ==> a == b
}

/// A graph whose packages a berry lockfile can tell.
pub open spec fn are_recordable(graph: LockfileGraphView, ranges: Ranges) -> bool {
    &&& graph.packages.dom().finite()
    &&& forall|k: Seq<char>| #[trigger]
        graph.packages.dom().contains(k) ==> is_recordable(graph, ranges, k, graph.packages[k])
    &&& forall|a: Seq<char>, b: Seq<char>| #[trigger]
        graph.packages.dom().contains(a) && #[trigger] graph.packages.dom().contains(b)
            && canonical_key(graph.packages[a]) == canonical_key(graph.packages[b]) ==> a == b
    &&& are_told_apart(graph, ranges)
}

/// What the lines of some dependencies of a package say.
pub open spec fn bodies_of(
    graph: LockfileGraphView,
    p: LockedPackageView,
    deps: Map<Seq<char>, Seq<char>>,
) -> Map<Seq<char>, Seq<char>> {
    Map::new(
        |n: Seq<char>| deps.dom().contains(n),
        |n: Seq<char>| edge_body(graph, p, n, deps[n]),
    )
}

/// What a block tells of a package.
pub open spec fn recorded_package(
    graph: LockfileGraphView,
    p: LockedPackageView,
) -> LockedPackageView {
    LockedPackageView {
        name: p.name,
        version: p.version,
        yarn_checksum: p.yarn_checksum,
        dependencies: p.dependencies,
        optional_dependencies: p.optional_dependencies,
        peer_dependencies: p.peer_dependencies,
        peer_dependencies_meta: p.peer_dependencies_meta,
        dep_path: p.dep_path,
        local_source: p.local_source,
        declared_dependencies: bodies_of(graph, p, p.dependencies).union_prefer_right(
            bodies_of(graph, p, p.optional_dependencies),
        ),
        ..default_package()
    }
}

/// A package as a berry lockfile tells it.
pub open spec fn is_berry_package(
    graph: LockfileGraphView,
    ranges: Ranges,
    key: Seq<char>,
    p: LockedPackageView,
) -> bool {
    &&& is_name(p.name)
    &&& !"__"@.is_prefix_of(exact_spec(p))
    &&& match p.local_source {
        None => key == canonical_key(p),
        Some(source) => key == source.dep_path(p.name) && is_berry_source(source),
    }
    &&& forall|i: int|
        0 <= i < berry_specs(graph, ranges, p).len() ==> is_listable(
            #[trigger] berry_specs(graph, ranges, p)[i],
        )
    &&& p.dependencies.dom().finite()
    &&& p.optional_dependencies.dom().finite()
    &&& p.peer_dependencies.dom().finite()
    &&& p.peer_dependencies_meta.dom().finite()
    &&& p.declared_dependencies.dom() == p.dependencies.dom().union(p.optional_dependencies.dom())
    &&& forall|n: Seq<char>| #[trigger]
        p.dependencies.dom().contains(n) ==> is_berry_dep(graph, p, n, p.dependencies[n])
    &&& forall|n: Seq<char>| #[trigger]
        p.optional_dependencies.dom().contains(n) ==> is_berry_dep(
            graph,
            p,
            n,
            p.optional_dependencies[n],
        )
    &&& p == LockedPackageView {
        name: p.name,
        version: p.version,
        yarn_checksum: p.yarn_checksum,
        dependencies: p.dependencies,
        optional_dependencies: p.optional_dependencies,
        peer_dependencies: p.peer_dependencies,
        peer_dependencies_meta: p.peer_dependencies_meta,
        dep_path: key,
        local_source: p.local_source,
        declared_dependencies: p.declared_dependencies,
        ..default_package()
    }
}

/// The direct dependencies of one type, as a manifest and a berry lockfile tell
/// them: one for each range.
pub open spec fn are_berry_deps(
    graph: LockfileGraphView,
    ranges: Ranges,
    deps: Seq<DirectDepView>,
    section: Map<Seq<char>, Seq<char>>,
    t: DepType,
) -> bool {
    &&& section.dom().finite()
    &&& names(of_type(deps, t)) == sorted_keys(section.dom())
    &&& forall|i: int|
        0 <= i < of_type(deps, t).len() ==> is_berry_direct(
            graph,
            ranges,
            #[trigger] of_type(deps, t)[i],
            section,
        )
}

/// A direct dependency as a manifest and a berry lockfile tell it: its range
/// resolves to no other package.
pub open spec fn is_berry_direct(
    graph: LockfileGraphView,
    ranges: Ranges,
    d: DirectDepView,
    section: Map<Seq<char>, Seq<char>>,
) -> bool {
    let range = section[d.name];
    &&& d.specifier is None
    &&& graph.packages.dom().contains(d.dep_path)
    &&& manifest_range(ranges, d.name) == Some(range)
    &&& forall|k: Seq<char>| #[trigger]
        graph.packages.dom().contains(k) && berry_specs(graph, ranges, graph.packages[k]).contains(
            dep_path(d.name, range),
        ) ==> k == d.dep_path
}

/// A graph as a berry lockfile tells it, beside the manifest with the given
/// ranges.
pub open spec fn is_berry_graph(graph: LockfileGraphView, ranges: Ranges) -> bool {
    let deps = graph.importers["."@];
    &&& graph == LockfileGraphView {
        importers: Map::empty().insert("."@, deps),
        packages: graph.packages,
        ..default_graph()
    }
    &&& graph.packages.dom().finite()
    &&& forall|k: Seq<char>| #[trigger]
        graph.packages.dom().contains(k) ==> is_berry_package(graph, ranges, k, graph.packages[k])
    &&& forall|a: Seq<char>, b: Seq<char>| #[trigger]
        graph.packages.dom().contains(a) && #[trigger] graph.packages.dom().contains(b)
            && canonical_key(graph.packages[a]) == canonical_key(graph.packages[b]) ==> a == b
    &&& are_told_apart(graph, ranges)
    &&& deps == of_type(deps, DepType::Production) + of_type(deps, DepType::Dev) + of_type(
        deps,
        DepType::Optional,
    )
    &&& are_berry_deps(graph, ranges, deps, ranges.dependencies, DepType::Production)
    &&& are_berry_deps(graph, ranges, deps, ranges.dev_dependencies, DepType::Dev)
    &&& are_berry_deps(graph, ranges, deps, ranges.optional_dependencies, DepType::Optional)
}

proof fn lemma_canonical_among(packages: Packages, keys: Seq<Seq<char>>)
    requires
        forall|i: int, j: int|
            #![trigger keys[i], keys[j]]
            0 <= i < keys.len() && 0 <= j < keys.len() && canonical_key(packages[keys[i]])
                == canonical_key(packages[keys[j]]) ==> keys[i] == keys[j],
    ensures
        forall|i: int|
            0 <= i < keys.len() ==> lookup(
                canonical_among(packages, keys),
                canonical_key(packages[#[trigger] keys[i]]),
            ) == Some(packages[keys[i]]),
        forall|c: Seq<char>| #[trigger]
            canonical_among(packages, keys).dom().contains(c) ==> exists|i: int|
                0 <= i < keys.len() && canonical_key(packages[#[trigger] keys[i]]) == c,
        canonical_among(packages, keys).dom().finite(),
    decreases keys.len(),
{
    if keys.len() > 0 {
        let front = keys.drop_last();
        let n = keys.len() - 1;
        assert forall|i: int, j: int|
            #![trigger front[i], front[j]]
            0 <= i < front.len() && 0 <= j < front.len() && canonical_key(packages[front[i]])
                == canonical_key(packages[front[j]]) implies front[i] == front[j] by {
            assert(front[i] == keys[i] && front[j] == keys[j]);
        }
        lemma_canonical_among(packages, front);
        let was = canonical_among(packages, front);
        let now = canonical_among(packages, keys);
        assert(keys[n] == keys.last());
        let c = canonical_key(packages[keys[n]]);
        if was.dom().contains(c) {
            let j = choose|j: int|
                0 <= j < front.len() && canonical_key(packages[#[trigger] front[j]]) == c;
            assert(keys[j] == front[j]);
            assert(keys[j] == keys[n]);
        }
        assert forall|i: int| 0 <= i < keys.len() implies lookup(
            now,
            canonical_key(packages[#[trigger] keys[i]]),
        ) == Some(packages[keys[i]]) by {
            if i < n {
                assert(front[i] == keys[i]);
                assert(lookup(was, canonical_key(packages[front[i]])) == Some(packages[front[i]]));
            }
        }
        assert forall|q: Seq<char>| #[trigger] now.dom().contains(q) implies exists|i: int|
            0 <= i < keys.len() && canonical_key(packages[#[trigger] keys[i]]) == q by {
            if was.dom().contains(q) {
                let i = choose|i: int|
                    0 <= i < front.len() && canonical_key(packages[#[trigger] front[i]]) == q;
                assert(keys[i] == front[i]);
            } else {
                assert(canonical_key(packages[keys[n]]) == q);
            }
        }
    }
}

/// The packages of the graph by `name@version`.
proof fn lemma_canonical(graph: LockfileGraphView, ranges: Ranges)
    requires
        are_recordable(graph, ranges),
    ensures
        canonical(graph).dom().finite(),
        forall|k: Seq<char>| #[trigger]
            graph.packages.dom().contains(k) ==> lookup(
                canonical(graph),
                canonical_key(graph.packages[k]),
            ) == Some(graph.packages[k]),
        forall|c: Seq<char>| #[trigger]
            canonical(graph).dom().contains(c) ==> graph.packages.dom().contains(
                canonical(graph)[c].dep_path,
            ) && graph.packages[canonical(graph)[c].dep_path] == canonical(graph)[c]
                && canonical_key(canonical(graph)[c]) == c,
{
    let keys = sorted_keys(graph.packages.dom());
    lemma_listing(graph.packages.dom());
    assert forall|i: int, j: int|
        #![trigger keys[i], keys[j]]
        0 <= i < keys.len() && 0 <= j < keys.len() && canonical_key(graph.packages[keys[i]])
            == canonical_key(graph.packages[keys[j]]) implies keys[i] == keys[j] by {
        assert(keys.contains(keys[i]) && keys.contains(keys[j]));
        assert(graph.packages.dom().contains(keys[i]));
        assert(graph.packages.dom().contains(keys[j]));
    }
    lemma_canonical_among(graph.packages, keys);
    assert forall|k: Seq<char>| #[trigger] graph.packages.dom().contains(k) implies lookup(
        canonical(graph),
        canonical_key(graph.packages[k]),
    ) == Some(graph.packages[k]) by {
        assert(keys.contains(k));
        let i = choose|i: int| 0 <= i < keys.len() && keys[i] == k;
        assert(lookup(canonical(graph), canonical_key(graph.packages[keys[i]])) == Some(
            graph.packages[keys[i]],
        ));
    }
    assert forall|c: Seq<char>| #[trigger] canonical(graph).dom().contains(
        c,
    ) implies graph.packages.dom().contains(canonical(graph)[c].dep_path)
        && graph.packages[canonical(graph)[c].dep_path] == canonical(graph)[c] && canonical_key(
        canonical(graph)[c],
    ) == c by {
        let i = choose|i: int|
            0 <= i < keys.len() && canonical_key(graph.packages[#[trigger] keys[i]]) == c;
        assert(keys.contains(keys[i]));
        assert(graph.packages.dom().contains(keys[i]));
        assert(is_recordable(graph, ranges, keys[i], graph.packages[keys[i]]));
        assert(lookup(canonical(graph), canonical_key(graph.packages[keys[i]])) == Some(
            graph.packages[keys[i]],
        ));
    }
}

proof fn lemma_get_concat(a: YamlEntries, b: YamlEntries, key: Seq<char>)
    ensures
        get(a + b, key) == (match get(a, key) {
            Some(v) => Some(v),
            None => get(b, key),
        }),
{
    let c = a + b;
    lemma_find_key_from(a, key, 0);
    lemma_find_key_from(b, key, 0);
    lemma_find_key_first(c, key, 0);
    lemma_find_key_first(a, key, 0);
    lemma_find_key_first(b, key, 0);
    assert forall|j: int| 0 <= j < a.len() implies c[j] == a[j] by {
    }
    assert forall|j: int| 0 <= j < b.len() implies c[a.len() + j] == b[j] by {
    }
    match find_key(a, key) {
        Some(i) => {
            assert(c[i].0 == YamlView::String(key));
            let m = find_key(c, key)->0;
            if m < i {
                assert(a[m].0 == YamlView::String(key));
            }
        },
        None => match find_key(b, key) {
            Some(i) => {
                assert(c[a.len() + i].0 == YamlView::String(key));
                let m = find_key(c, key)->0;
                if m < a.len() {
                    assert(a[m].0 == YamlView::String(key));
                } else if m < a.len() + i {
                    assert(b[m - a.len()].0 == YamlView::String(key));
                }
            },
            None => {
                if let Some(m) = find_key(c, key) {
                    if m < a.len() {
                        assert(a[m].0 == YamlView::String(key));
                    } else {
                        assert(b[m - a.len()].0 == YamlView::String(key));
                    }
                }
            },
        },
    }
}

/// What is found under a key is its first entry.
proof fn lemma_find_key_first(entries: YamlEntries, key: Seq<char>, from: int)
    requires
        0 <= from,
    ensures
        match find_key_from(entries, key, from) {
            Some(i) => from <= i < entries.len() && entries[i].0 == YamlView::String(key)
                && forall|j: int|
                from <= j < i ==> (#[trigger] entries[j]).0 != YamlView::String(key),
            None => forall|j: int|
                from <= j < entries.len() ==> (#[trigger] entries[j]).0 != YamlView::String(key),
        },
    decreases entries.len() - from,
{
    if from < entries.len() && entries[from].0 != YamlView::String(key) {
        lemma_find_key_first(entries, key, from + 1);
    }
}

proof fn lemma_get_one(name: Seq<char>, value: YamlView, key: Seq<char>)
    ensures
        get(seq![entry(name, value)], key) == (if name == key {
            Some(value)
        } else {
            None
        }),
        get(Seq::<(YamlView, YamlView)>::empty(), key) is None,
{
    let one = seq![entry(name, value)];
    assert(one[0] == entry(name, value));
    lemma_find_key_first(one, key, 0);
}

proof fn lemma_get_fields(
    name: Seq<char>,
    entries: YamlEntries,
    value: Option<Seq<char>>,
    key: Seq<char>,
)
    ensures
        get(section_field(name, entries), key) == (if name == key && entries.len() > 0 {
            Some(YamlView::Mapping(entries))
        } else {
            None
        }),
        get(text_field(name, value), key) == (if name == key && value is Some {
            Some(YamlView::String(value->0))
        } else {
            None
        }),
{
    lemma_get_one(name, YamlView::Mapping(entries), key);
    if let Some(s) = value {
        lemma_get_one(name, YamlView::String(s), key);
    }
}

/// The names of the fields are told apart.
proof fn lemma_field_names()
    ensures
        "version"@ != "resolution"@,
        "dependencies"@ != "version"@,
        "dependencies"@ != "resolution"@,
        "optionalDependencies"@ != "version"@,
        "optionalDependencies"@ != "resolution"@,
        "optionalDependencies"@ != "dependencies"@,
        "peerDependencies"@ != "version"@,
        "peerDependencies"@ != "resolution"@,
        "peerDependencies"@ != "dependencies"@,
        "peerDependencies"@ != "optionalDependencies"@,
        "peerDependenciesMeta"@ != "version"@,
        "peerDependenciesMeta"@ != "resolution"@,
        "peerDependenciesMeta"@ != "dependencies"@,
        "peerDependenciesMeta"@ != "optionalDependencies"@,
        "peerDependenciesMeta"@ != "peerDependencies"@,
        "checksum"@ != "version"@,
        "checksum"@ != "resolution"@,
        "checksum"@ != "dependencies"@,
        "checksum"@ != "optionalDependencies"@,
        "checksum"@ != "peerDependencies"@,
        "checksum"@ != "peerDependenciesMeta"@,
        "languageName"@ != "dependencies"@,
        "languageName"@ != "optionalDependencies"@,
        "languageName"@ != "peerDependencies"@,
        "languageName"@ != "peerDependenciesMeta"@,
        "languageName"@ != "checksum"@,
        "linkType"@ != "dependencies"@,
        "linkType"@ != "optionalDependencies"@,
        "linkType"@ != "peerDependencies"@,
        "linkType"@ != "peerDependenciesMeta"@,
        "linkType"@ != "checksum"@,
{
    reveal_strlit("version");
    reveal_strlit("resolution");
    reveal_strlit("dependencies");
    reveal_strlit("optionalDependencies");
    reveal_strlit("peerDependencies");
    reveal_strlit("peerDependenciesMeta");
    reveal_strlit("checksum");
    reveal_strlit("languageName");
    reveal_strlit("linkType");
    assert("version"@.len() == 7 && "resolution"@.len() == 10);
    assert("dependencies"@.len() == 12 && "optionalDependencies"@.len() == 20);
    assert("peerDependencies"@.len() == 16 && "peerDependenciesMeta"@.len() == 20);
    assert("checksum"@.len() == 8 && "languageName"@.len() == 12 && "linkType"@.len() == 8);
    assert("optionalDependencies"@[0] != "peerDependenciesMeta"@[0]);
    assert("dependencies"@[0] != "languageName"@[0]);
    assert("checksum"@[0] != "linkType"@[0]);
}

/// The fields of a block are found under their names.
proof fn lemma_block_fields(packages: Packages, p: LockedPackageView)
    ensures
        ({
            let block = block_fields(packages, p);
            let deps = dep_entries(
                packages,
                p.declared_dependencies,
                p.dependencies,
                sorted_keys(p.dependencies.dom()),
            );
            let optional = dep_entries(
                packages,
                p.declared_dependencies,
                p.optional_dependencies,
                sorted_keys(p.optional_dependencies.dom()),
            );
            &&& get(block, "version"@) == Some(YamlView::String(p.version))
            &&& get(block, "resolution"@) == Some(YamlView::String(exact_spec(p)))
            &&& get(block, "dependencies"@) == filled(deps)
            &&& get(block, "optionalDependencies"@) == filled(optional)
            &&& get(block, "peerDependencies"@) == filled(peer_entries(p.peer_dependencies))
            &&& get(block, "peerDependenciesMeta"@) == filled(
                meta_entries(p.peer_dependencies_meta),
            )
            &&& get(block, "checksum"@) == (match p.yarn_checksum {
                Some(c) => Some(YamlView::String(c)),
                None => None,
            })
        }),
{
    lemma_field_names();
    lemma_field(packages, p, "version"@);
    lemma_field(packages, p, "resolution"@);
    lemma_field(packages, p, "dependencies"@);
    lemma_field(packages, p, "optionalDependencies"@);
    lemma_field(packages, p, "peerDependencies"@);
    lemma_field(packages, p, "peerDependenciesMeta"@);
    lemma_field(packages, p, "checksum"@);
}

/// A mapping that is left out where it is empty.
spec fn filled(entries: YamlEntries) -> Option<YamlView> {
    if entries.len() == 0 {
        None
    } else {
        Some(YamlView::Mapping(entries))
    }
}

/// The first of two values that is there.
spec fn first_of(a: Option<YamlView>, b: Option<YamlView>) -> Option<YamlView> {
    match a {
        Some(v) => Some(v),
        None => b,
    }
}

/// The value of a key, where a field has that name.
spec fn under(name: Seq<char>, key: Seq<char>, value: Option<YamlView>) -> Option<YamlView> {
    if name == key {
        value
    } else {
        None
    }
}

/// A text that may be left out, as a value.
spec fn text_value(s: Option<Seq<char>>) -> Option<YamlView> {
    match s {
        Some(s) => Some(YamlView::String(s)),
        None => None,
    }
}

proof fn lemma_field(packages: Packages, p: LockedPackageView, key: Seq<char>)
    ensures
        ({
            let deps = dep_entries(
                packages,
                p.declared_dependencies,
                p.dependencies,
                sorted_keys(p.dependencies.dom()),
            );
            let optional = dep_entries(
                packages,
                p.declared_dependencies,
                p.optional_dependencies,
                sorted_keys(p.optional_dependencies.dom()),
            );
            let v = under("version"@, key, text_value(Some(p.version)));
            let r = under("resolution"@, key, text_value(Some(exact_spec(p))));
            let d = under("dependencies"@, key, filled(deps));
            let o = under("optionalDependencies"@, key, filled(optional));
            let q = under("peerDependencies"@, key, filled(peer_entries(p.peer_dependencies)));
            let m = under(
                "peerDependenciesMeta"@,
                key,
                filled(meta_entries(p.peer_dependencies_meta)),
            );
            let c = under("checksum"@, key, text_value(p.yarn_checksum));
            let l = under("languageName"@, key, text_value(Some("node"@)));
            let t = under("linkType"@, key, text_value(Some(link_type(p))));
            get(block_fields(packages, p), key) == first_of(
                first_of(
                    first_of(first_of(first_of(first_of(first_of(first_of(v, r), d), o), q), m), c),
                    l,
                ),
                t,
            )
        }),
{
    let none = Seq::<(YamlView, YamlView)>::empty();
    let deps = dep_entries(
        packages,
        p.declared_dependencies,
        p.dependencies,
        sorted_keys(p.dependencies.dom()),
    );
    let optional = dep_entries(
        packages,
        p.declared_dependencies,
        p.optional_dependencies,
        sorted_keys(p.optional_dependencies.dom()),
    );
    let peers = peer_entries(p.peer_dependencies);
    let meta = meta_entries(p.peer_dependencies_meta);
    lemma_get_fields("version"@, none, Some(p.version), key);
    lemma_get_fields("resolution"@, none, Some(exact_spec(p)), key);
    lemma_get_fields("dependencies"@, deps, None, key);
    lemma_get_fields("optionalDependencies"@, optional, None, key);
    lemma_get_fields("peerDependencies"@, peers, None, key);
    lemma_get_fields("peerDependenciesMeta"@, meta, None, key);
    lemma_get_fields("checksum"@, none, p.yarn_checksum, key);
    lemma_get_fields("languageName"@, none, Some("node"@), key);
    lemma_get_fields("linkType"@, none, Some(link_type(p)), key);
    let f1 = text_field("version"@, Some(p.version));
    let f2 = f1 + text_field("resolution"@, Some(exact_spec(p)));
    let f3 = f2 + section_field("dependencies"@, deps);
    let f4 = f3 + section_field("optionalDependencies"@, optional);
    let f5 = f4 + section_field("peerDependencies"@, peers);
    let f6 = f5 + section_field("peerDependenciesMeta"@, meta);
    let f7 = f6 + text_field("checksum"@, p.yarn_checksum);
    let f8 = f7 + text_field("languageName"@, Some("node"@));
    lemma_get_concat(f1, text_field("resolution"@, Some(exact_spec(p))), key);
    lemma_get_concat(f2, section_field("dependencies"@, deps), key);
    lemma_get_concat(f3, section_field("optionalDependencies"@, optional), key);
    lemma_get_concat(f4, section_field("peerDependencies"@, peers), key);
    lemma_get_concat(f5, section_field("peerDependenciesMeta"@, meta), key);
    lemma_get_concat(f6, text_field("checksum"@, p.yarn_checksum), key);
    lemma_get_concat(f7, text_field("languageName"@, Some("node"@)), key);
    lemma_get_concat(f8, text_field("linkType"@, Some(link_type(p))), key);
}

/// Texts under distinct names read as a map.
proof fn lemma_scalar_map(q: Seq<Seq<char>>, m: Map<Seq<char>, Seq<char>>, n: int)
    requires
        0 <= n <= q.len(),
    ensures
        ({
            let entries = text_entries(q, m);
            let got = scalar_map(entries, n);
            &&& forall|k: Seq<char>| #[trigger] got.dom().contains(k) <==> q.take(n).contains(k)
            &&& forall|k: Seq<char>| #[trigger] got.dom().contains(k) ==> got[k] == m[k]
        }),
    decreases n,
{
    let entries = text_entries(q, m);
    if n > 0 {
        lemma_scalar_map(q, m, n - 1);
        lemma_take(q, n);
        let k = q[n - 1];
        assert(entries[n - 1] == entry(k, YamlView::String(m[k])));
        assert(scalar_map(entries, n) == scalar_map(entries, n - 1).insert(k, m[k]));
    } else {
        assert(q.take(n) =~= Seq::empty());
    }
}

proof fn lemma_take(q: Seq<Seq<char>>, n: int)
    requires
        0 < n <= q.len(),
    ensures
        forall|k: Seq<char>| #[trigger]
            q.take(n).contains(k) <==> q.take(n - 1).contains(k) || k == q[n - 1],
{
    let (a, b) = (q.take(n - 1), q.take(n));
    assert(b[n - 1] == q[n - 1]);
    assert forall|k: Seq<char>| #[trigger] b.contains(k) <==> a.contains(k) || k == q[n - 1] by {
        if a.contains(k) {
            let i = choose|i: int| 0 <= i < a.len() && a[i] == k;
            assert(b[i] == k);
        }
        if b.contains(k) && k != q[n - 1] {
            let i = choose|i: int| 0 <= i < b.len() && b[i] == k;
            assert(a[i] == k);
        }
    }
}

proof fn lemma_meta_map(q: Seq<Seq<char>>, m: Map<Seq<char>, PeerDepMetaView>, n: int)
    requires
        0 <= n <= q.len(),
    ensures
        ({
            let entries = meta_entries_of(q, m);
            let got = meta_map(entries, n);
            &&& forall|k: Seq<char>| #[trigger] got.dom().contains(k) <==> q.take(n).contains(k)
            &&& forall|k: Seq<char>| #[trigger] got.dom().contains(k) ==> got[k] == m[k]
        }),
    decreases n,
{
    let entries = meta_entries_of(q, m);
    if n > 0 {
        lemma_meta_map(q, m, n - 1);
        lemma_take(q, n);
        let k = q[n - 1];
        assert(entries[n - 1] == entry(k, meta_value(m[k])));
        lemma_get_one("optional"@, YamlView::Bool(m[k].optional), "optional"@);
        assert(meta_map(entries, n) == meta_map(entries, n - 1).insert(k, m[k]));
    } else {
        assert(q.take(n) =~= Seq::empty());
    }
}

/// The peers in a block read back.
proof fn lemma_peers(p: LockedPackageView)
    requires
        p.peer_dependencies.dom().finite(),
        p.peer_dependencies_meta.dom().finite(),
    ensures
        ({
            let a = peer_entries(p.peer_dependencies);
            let b = meta_entries(p.peer_dependencies_meta);
            &&& scalar_map(a, a.len() as int) == p.peer_dependencies
            &&& meta_map(b, b.len() as int) == p.peer_dependencies_meta
        }),
{
    let q = sorted_keys(p.peer_dependencies.dom());
    lemma_listing(p.peer_dependencies.dom());
    lemma_scalar_map(q, p.peer_dependencies, q.len() as int);
    assert(q.take(q.len() as int) =~= q);
    let a = peer_entries(p.peer_dependencies);
    assert(scalar_map(a, a.len() as int) =~= p.peer_dependencies);
    let r = sorted_keys(p.peer_dependencies_meta.dom());
    lemma_listing(p.peer_dependencies_meta.dom());
    lemma_meta_map(r, p.peer_dependencies_meta, r.len() as int);
    assert(r.take(r.len() as int) =~= r);
    let b = meta_entries(p.peer_dependencies_meta);
    assert(meta_map(b, b.len() as int) =~= p.peer_dependencies_meta);
}

/// Whether the line of a dependency says a text.
spec fn is_said(
    packages: Packages,
    p: LockedPackageView,
    deps: Map<Seq<char>, Seq<char>>,
    bodies: Map<Seq<char>, Seq<char>>,
    n: Seq<char>,
) -> bool {
    match edge_key(packages, n, deps[n]) {
        Some(key) => dep_body(p.declared_dependencies, packages[key], n, deps[n]) == bodies[n],
        None => false,
    }
}

proof fn lemma_dep_entries(
    packages: Packages,
    p: LockedPackageView,
    deps: Map<Seq<char>, Seq<char>>,
    bodies: Map<Seq<char>, Seq<char>>,
    q: Seq<Seq<char>>,
)
    requires
        forall|i: int| 0 <= i < q.len() ==> is_said(packages, p, deps, bodies, #[trigger] q[i]),
    ensures
        dep_entries(packages, p.declared_dependencies, deps, q) == text_entries(q, bodies),
    decreases q.len(),
{
    if q.len() > 0 {
        let front = q.drop_last();
        assert forall|i: int| 0 <= i < front.len() implies is_said(
            packages,
            p,
            deps,
            bodies,
            #[trigger] front[i],
        ) by {
            assert(front[i] == q[i]);
        }
        lemma_dep_entries(packages, p, deps, bodies, front);
        assert(is_said(packages, p, deps, bodies, q[q.len() - 1]));
        let last = entry(q.last(), YamlView::String(bodies[q.last()]));
        assert(text_entries(front, bodies).push(last) =~= text_entries(q, bodies));
    } else {
        assert(text_entries(q, bodies) =~= Seq::empty());
    }
}

/// The dependencies in a block read as what their lines say.
proof fn lemma_deps_read(
    packages: Packages,
    p: LockedPackageView,
    deps: Map<Seq<char>, Seq<char>>,
    bodies: Map<Seq<char>, Seq<char>>,
)
    requires
        deps.dom().finite(),
        bodies.dom() == deps.dom(),
        forall|n: Seq<char>| #[trigger]
            deps.dom().contains(n) ==> is_said(packages, p, deps, bodies, n),
    ensures
        ({
            let e = dep_entries(
                packages,
                p.declared_dependencies,
                deps,
                sorted_keys(deps.dom()),
            );
            scalar_map(e, e.len() as int) == bodies
        }),
{
    let q = sorted_keys(deps.dom());
    lemma_listing(deps.dom());
    assert forall|i: int| 0 <= i < q.len() implies is_said(
        packages,
        p,
        deps,
        bodies,
        #[trigger] q[i],
    ) by {
        assert(q.contains(q[i]));
        assert(deps.dom().contains(q[i]));
    }
    lemma_dep_entries(packages, p, deps, bodies, q);
    lemma_scalar_map(q, bodies, q.len() as int);
    assert(q.take(q.len() as int) =~= q);
    let e = dep_entries(packages, p.declared_dependencies, deps, q);
    assert(scalar_map(e, e.len() as int) =~= bodies);
}

/// A package with what the lines of its dependencies say, as its block tells it.
spec fn ranged(graph: LockfileGraphView, p: LockedPackageView) -> LockedPackageView {
    LockedPackageView {
        dependencies: bodies_of(graph, p, p.dependencies),
        optional_dependencies: bodies_of(graph, p, p.optional_dependencies),
        ..recorded_package(graph, p)
    }
}

/// A dep path leads to its package.
proof fn lemma_path_index(graph: LockfileGraphView, ranges: Ranges, k: Seq<char>)
    requires
        are_recordable(graph, ranges),
        graph.packages.dom().contains(k),
    ensures
        lookup(path_index(canonical(graph)), k) == Some(canonical_key(graph.packages[k])),
        canonical(graph).dom().contains(canonical_key(graph.packages[k])),
        canonical(graph)[canonical_key(graph.packages[k])] == graph.packages[k],
{
    let packages = canonical(graph);
    let keys = sorted_keys(packages.dom());
    lemma_canonical(graph, ranges);
    lemma_listing(packages.dom());
    assert forall|i: int, j: int|
        #![trigger keys[i], keys[j]]
        0 <= i < keys.len() && 0 <= j < keys.len() && packages[keys[i]].dep_path
            == packages[keys[j]].dep_path implies keys[i] == keys[j] by {
        assert(keys.contains(keys[i]) && keys.contains(keys[j]));
        assert(packages.dom().contains(keys[i]) && packages.dom().contains(keys[j]));
    }
    lemma_path_keys(packages, keys);
    let c = canonical_key(graph.packages[k]);
    assert(lookup(packages, canonical_key(graph.packages[k])) == Some(graph.packages[k]));
    assert(keys.contains(c));
    let i = choose|i: int| 0 <= i < keys.len() && keys[i] == c;
    assert(is_recordable(graph, ranges, k, graph.packages[k]));
    assert(lookup(path_keys(packages, keys), packages[keys[i]].dep_path) == Some(keys[i]));
}

/// The dependencies of a package are written as they are told.
proof fn lemma_said(
    graph: LockfileGraphView,
    ranges: Ranges,
    p: LockedPackageView,
    deps: Map<Seq<char>, Seq<char>>,
)
    requires
        are_recordable(graph, ranges),
        forall|n: Seq<char>| #[trigger]
            deps.dom().contains(n) ==> is_recordable_dep(graph, p, n, deps[n]),
    ensures
        forall|n: Seq<char>| #[trigger]
            deps.dom().contains(n) ==> is_said(
                canonical(graph),
                p,
                deps,
                bodies_of(graph, p, deps),
                n,
            ),
{
    assert forall|n: Seq<char>| #[trigger] deps.dom().contains(n) implies is_said(
        canonical(graph),
        p,
        deps,
        bodies_of(graph, p, deps),
        n,
    ) by {
        lemma_path_index(graph, ranges, deps[n]);
    }
}

/// What the block of a package says of it.
proof fn lemma_raw_package(graph: LockfileGraphView, ranges: Ranges, k: Seq<char>)
    requires
        are_recordable(graph, ranges),
        graph.packages.dom().contains(k),
    ensures
        ({
            let p = graph.packages[k];
            raw_package(
                block_fields(canonical(graph), p),
                p.name,
                p.version,
                k,
                p.local_source,
            ) == ranged(graph, p)
        }),
{
    let p = graph.packages[k];
    let packages = canonical(graph);
    assert(is_recordable(graph, ranges, k, p));
    lemma_block_fields(packages, p);
    lemma_peers(p);
    let (x, y) = (
        bodies_of(graph, p, p.dependencies),
        bodies_of(graph, p, p.optional_dependencies),
    );
    lemma_said(graph, ranges, p, p.dependencies);
    lemma_said(graph, ranges, p, p.optional_dependencies);
    assert(x.dom() =~= p.dependencies.dom());
    assert(y.dom() =~= p.optional_dependencies.dom());
    lemma_deps_read(packages, p, p.dependencies, x);
    lemma_deps_read(packages, p, p.optional_dependencies, y);
    let block = block_fields(packages, p);
    let a = dep_section(block, "dependencies"@);
    let b = dep_section(block, "optionalDependencies"@);
    assert(a =~= x);
    assert(b =~= y);
    assert(dep_section(block, "peerDependencies"@) =~= p.peer_dependencies);
    assert(meta_section(block) =~= p.peer_dependencies_meta);
    assert(raw_package(block, p.name, p.version, k, p.local_source) =~= ranged(graph, p));
}

/// The separator stands where a list of specifiers is joined.
proof fn lemma_split_snoc(a: Seq<char>, b: Seq<char>)
    requires
        find(b, ", "@) is None,
    ensures
        split_text(a + ", "@ + b, ", "@) == split_text(a, ", "@).push(b),
    decreases a.len(),
{
    reveal_strlit(", ");
    let sep = ", "@;
    let s = a + sep + b;
    let n = a.len() as int;
    lemma_find_from(a, sep, 0);
    lemma_find_from(s, sep, 0);
    assert(s.subrange(n, n + 2) =~= sep);
    assert(occurs_at(s, sep, n));
    assert forall|j: int| 0 <= j < n && occurs_at(s, sep, j) implies occurs_at(a, sep, j) by {
        assert(s.subrange(j, j + 2)[0] == ',' && s.subrange(j, j + 2)[1] == ' ');
        assert(s[j] == ',' && s[j + 1] == ' ');
        if j == n - 1 {
            assert(s[n] == ',');
        }
        assert(a.subrange(j, j + 2) =~= sep);
    }
    assert forall|j: int| 0 <= j && occurs_at(a, sep, j) implies occurs_at(s, sep, j) by {
        assert(a.subrange(j, j + 2) == sep);
        assert(s.subrange(j, j + 2) =~= a.subrange(j, j + 2));
    }
    match find(a, sep) {
        Some(i) => {
            assert(find(s, sep) == Some(i)) by {
                let m = find(s, sep)->0;
                if m < i {
                    assert(occurs_at(a, sep, m));
                }
                assert(occurs_at(s, sep, i));
            }
            let rest = a.skip(i + 2);
            assert(s.take(i) =~= a.take(i));
            assert(s.skip(i + 2) =~= rest + sep + b);
            lemma_split_snoc(rest, b);
            assert(seq![a.take(i)] + split_text(rest, sep).push(b) =~= (seq![a.take(i)]
                + split_text(rest, sep)).push(b));
        },
        None => {
            assert(find(s, sep) == Some(n)) by {
                let m = find(s, sep)->0;
                if m < n {
                    assert(occurs_at(a, sep, m));
                }
            }
            assert(s.take(n) =~= a);
            assert(s.skip(n + 2) =~= b);
            lemma_unsplit(b);
            assert(seq![a] + seq![b] =~= seq![a].push(b));
        },
    }
}

proof fn lemma_unsplit(b: Seq<char>)
    requires
        find(b, ", "@) is None,
    ensures
        split_text(b, ", "@) == seq![b],
{
    reveal_strlit(", ");
}

/// A list of specifiers is read as it is joined.
proof fn lemma_header(specs: Seq<Seq<char>>)
    requires
        specs.len() > 0,
        forall|i: int| 0 <= i < specs.len() ==> is_listable(#[trigger] specs[i]),
    ensures
        split_text(join(specs, ", "@), ", "@) == specs,
        berry_header(join(specs, ", "@)) == specs,
        specs[0].is_prefix_of(join(specs, ", "@)),
    decreases specs.len(),
{
    let front = specs.drop_last();
    assert forall|i: int| 0 <= i < front.len() implies is_listable(#[trigger] front[i]) by {
        assert(front[i] == specs[i]);
    }
    let last = specs[specs.len() - 1];
    assert(is_listable(last));
    if specs.len() == 1 {
        lemma_unsplit(last);
        assert(seq![last] =~= specs);
        assert(specs[0].take(specs[0].len() as int) =~= specs[0]);
    } else {
        lemma_header(front);
        lemma_split_snoc(join(front, ", "@), last);
        assert(front.push(last) =~= specs);
        let j = join(front, ", "@);
        let all = join(specs, ", "@);
        assert(front[0] == specs[0]);
        assert(all.take(specs[0].len() as int) =~= j.take(specs[0].len() as int));
    }
    lemma_header_list(specs);
}

proof fn lemma_header_list(specs: Seq<Seq<char>>)
    requires
        forall|i: int| 0 <= i < specs.len() ==> is_listable(#[trigger] specs[i]),
    ensures
        header_list(specs) == specs,
    decreases specs.len(),
{
    if specs.len() > 0 {
        let front = specs.drop_last();
        assert forall|i: int| 0 <= i < front.len() implies is_listable(#[trigger] front[i]) by {
            assert(front[i] == specs[i]);
        }
        lemma_header_list(front);
        let last = specs[specs.len() - 1];
        assert(is_listable(last));
        assert(trim(last) == last);
        assert(front.push(last) =~= specs);
    } else {
        assert(header_list(specs) =~= specs);
    }
}

/// What the block of a package is read as.
spec fn block_of(graph: LockfileGraphView, ranges: Ranges, p: LockedPackageView) -> BerryBlock {
    BerryBlock {
        specs: berry_specs(graph, ranges, p),
        path: p.dep_path,
        package: Some(ranged(graph, p)),
    }
}

/// The resolution of a package leads back to its name and its source.
proof fn lemma_resolution(graph: LockfileGraphView, ranges: Ranges, k: Seq<char>)
    requires
        are_recordable(graph, ranges),
        graph.packages.dom().contains(k),
    ensures
        ({
            let p = graph.packages[k];
            match berry_spec(exact_spec(p)) {
                Some((name, protocol, body)) => name == p.name && berry_kind(protocol, body) == (
                match p.local_source {
                    None => BerryKind::Registry,
                    Some(source) => BerryKind::Local(source),
                }),
                None => false,
            }
        }),
{
    let p = graph.packages[k];
    assert(is_recordable(graph, ranges, k, p));
    let spec = match p.local_source {
        None => "npm:"@ + p.version,
        Some(source) => source.specifier(),
    };
    reveal_strlit("@");
    assert(exact_spec(p) =~= dep_path(p.name, spec)) by {
        reveal_strlit("@npm:");
        reveal_strlit("npm:");
        assert("@npm:"@ =~= "@"@ + "npm:"@);
    }
    assert(version_separator(dep_path(p.name, spec)) == Some(p.name.len() as int));
    let n = p.name.len() as int;
    assert(exact_spec(p).take(n) =~= p.name);
    assert(exact_spec(p).skip(n + 1) =~= spec);
    if p.local_source is None {
        reveal_strlit("npm:");
        reveal_strlit("npm");
        lemma_find_char_at(spec, ':', 3);
        assert(spec.take(3) =~= "npm"@);
    }
}

/// The block of a package reads as the package with its ranges.
proof fn lemma_block(graph: LockfileGraphView, ranges: Ranges, c: Seq<char>)
    requires
        are_recordable(graph, ranges),
        canonical(graph).dom().contains(c),
    ensures
        berry_entry(block_entry(canonical(graph), berry_extra_specs(graph, ranges), c)) == Ok::<
            Option<BerryBlock>,
            BerryErrorView,
        >(Some(block_of(graph, ranges, canonical(graph)[c]))),
{
    lemma_canonical(graph, ranges);
    let p = canonical(graph)[c];
    let k = p.dep_path;
    assert(graph.packages.dom().contains(k) && graph.packages[k] == p);
    assert(is_recordable(graph, ranges, k, p));
    let extras = berry_extra_specs(graph, ranges);
    let specs = berry_header_specs(c, p, extras);
    assert(specs == berry_specs(graph, ranges, p));
    let header = join(specs, ", "@);
    lemma_header(specs);
    assert(specs[0] == exact_spec(p));
    assert(!"__"@.is_prefix_of(header)) by {
        reveal_strlit("__");
        reveal_strlit("@");
        if "__"@.is_prefix_of(header) {
            assert(exact_spec(p).len() >= 2) by {
                reveal_strlit("@npm:");
            }
            assert(exact_spec(p).take(2) =~= header.take(2));
            assert("__"@ =~= header.take(2));
        }
    }
    lemma_block_fields(canonical(graph), p);
    lemma_raw_package(graph, ranges, k);
    lemma_resolution(graph, ranges, k);
}

/// Blocks that are told apart by their specifiers and their packages.
spec fn are_apart(blocks: Seq<BerryBlock>) -> bool {
    &&& forall|i: int| 0 <= i < blocks.len() ==> (#[trigger] blocks[i]).package is Some
    &&& forall|i: int, j: int|
        #![trigger blocks[i].path, blocks[j].path]
        0 <= i < blocks.len() && 0 <= j < blocks.len() && blocks[i].path == blocks[j].path ==> i
            == j
    &&& forall|i: int, j: int, s: Seq<char>|
        #![trigger blocks[i].specs.contains(s), blocks[j].specs.contains(s)]
        0 <= i < blocks.len() && 0 <= j < blocks.len() && blocks[i].specs.contains(s)
            && blocks[j].specs.contains(s) ==> i == j
}

/// Whether an entry is read as a block.
spec fn is_read_as(entry: (YamlView, YamlView), block: BerryBlock) -> bool {
    berry_entry(entry) == Ok::<Option<BerryBlock>, BerryErrorView>(Some(block))
}

proof fn lemma_read_blocks(entries: YamlEntries, blocks: Seq<BerryBlock>, n: int)
    requires
        0 <= n <= blocks.len(),
        entries.len() == blocks.len() + 1,
        berry_entry(entries[0]) == Ok::<Option<BerryBlock>, BerryErrorView>(None),
        forall|i: int| 0 <= i < blocks.len() ==> is_read_as(entries[i + 1], #[trigger] blocks[i]),
        are_apart(blocks),
    ensures
        first_wrong_entry(entries, n + 1) is None,
        ({
            let table = berry_table(entries, n + 1);
            let raw = raw_packages(entries, n + 1);
            &&& forall|i: int, s: Seq<char>|
                #![trigger blocks[i].specs.contains(s)]
                0 <= i < n && blocks[i].specs.contains(s) ==> lookup(table, s) == Some(
                    blocks[i].path,
                )
            &&& forall|s: Seq<char>| #[trigger]
                table.dom().contains(s) ==> exists|i: int|
                    0 <= i < n && (#[trigger] blocks[i]).specs.contains(s)
            &&& forall|i: int|
                0 <= i < n ==> lookup(raw, (#[trigger] blocks[i]).path) == blocks[i].package
            &&& forall|k: Seq<char>| #[trigger]
                raw.dom().contains(k) ==> exists|i: int|
                    0 <= i < n && (#[trigger] blocks[i]).path == k
        }),
    decreases n,
{
    if n > 0 {
        lemma_read_blocks(entries, blocks, n - 1);
        let b = blocks[n - 1];
        assert(is_read_as(entries[n - 1 + 1], b));
        let was = berry_table(entries, n);
        let table = berry_table(entries, n + 1);
        assert(table == was.union_prefer_right(all_to(b.specs, b.path)));
        assert forall|i: int, s: Seq<char>|
            #![trigger blocks[i].specs.contains(s)]
            0 <= i < n && blocks[i].specs.contains(s) implies lookup(table, s) == Some(
            blocks[i].path,
        ) by {
            if i < n - 1 {
                assert(lookup(was, s) == Some(blocks[i].path));
                if b.specs.contains(s) {
                    assert(blocks[n - 1].specs.contains(s));
                    assert(i == n - 1);
                }
            }
        }
        assert forall|s: Seq<char>| #[trigger] table.dom().contains(s) implies exists|i: int|
            0 <= i < n && (#[trigger] blocks[i]).specs.contains(s) by {
            if b.specs.contains(s) {
                assert(blocks[n - 1].specs.contains(s));
            } else {
                assert(was.dom().contains(s));
            }
        }
        let before = raw_packages(entries, n);
        let raw = raw_packages(entries, n + 1);
        assert(!before.dom().contains(b.path)) by {
            if before.dom().contains(b.path) {
                let i = choose|i: int| 0 <= i < n - 1 && (#[trigger] blocks[i]).path == b.path;
                assert(blocks[i].path == blocks[n - 1].path);
            }
        }
        assert(raw == before.insert(b.path, b.package->0));
        assert forall|i: int| 0 <= i < n implies lookup(raw, (#[trigger] blocks[i]).path)
            == blocks[i].package by {
            if i < n - 1 {
                assert(lookup(before, blocks[i].path) == blocks[i].package);
            }
        }
        assert forall|k: Seq<char>| #[trigger] raw.dom().contains(k) implies exists|i: int|
            0 <= i < n && (#[trigger] blocks[i]).path == k by {
            if before.dom().contains(k) {
                let i = choose|i: int| 0 <= i < n - 1 && (#[trigger] blocks[i]).path == k;
                assert(0 <= i < n && blocks[i].path == k);
            } else {
                assert(blocks[n - 1].path == k);
            }
        }
    } else {
        reveal_with_fuel(first_wrong_entry, 2);
        reveal_with_fuel(berry_table, 2);
        reveal_with_fuel(raw_packages, 2);
    }
}

proof fn lemma_metadata_entry(rest: YamlEntries)
    ensures
        berry_entry(metadata_entry()) == Ok::<Option<BerryBlock>, BerryErrorView>(None),
        metadata_version(seq![metadata_entry()] + rest) == 8,
{
    reveal_strlit("__metadata");
    reveal_strlit("__");
    assert("__metadata"@.take(2) =~= "__"@);
    let meta = seq![
        entry("version"@, YamlView::Number("8"@, Some(8u64))),
        entry("cacheKey"@, YamlView::String("10c0"@)),
    ];
    lemma_get_concat(seq![metadata_entry()], rest, "__metadata"@);
    lemma_get_one("__metadata"@, YamlView::Mapping(meta), "__metadata"@);
    lemma_find_key_first(meta, "version"@, 0);
    assert(meta[0].0 == YamlView::String("version"@));
}

proof fn lemma_declared_pairs(
    packages: Packages,
    pkg: LockedPackageView,
    list: Seq<Seq<char>>,
    n: Seq<char>,
    pair: Pair,
)
    requires
        list.contains(n),
        edge_pairs(packages, pkg.declared_dependencies, pkg.dependencies, n).contains(pair)
            || edge_pairs(
            packages,
            pkg.declared_dependencies,
            pkg.optional_dependencies,
            n,
        ).contains(pair),
    ensures
        berry_declared_pairs(packages, pkg, list).contains(pair),
    decreases list.len(),
{
    let all = berry_declared_pairs(packages, pkg, list);
    let front = list.drop_last();
    let last = list.last();
    let declared = pkg.declared_dependencies;
    let before = berry_declared_pairs(packages, pkg, front);
    let a = edge_pairs(packages, declared, pkg.dependencies, last);
    let b = edge_pairs(packages, declared, pkg.optional_dependencies, last);
    assert(all == before + a + b);
    if last == n {
        if a.contains(pair) {
            let j = choose|j: int| 0 <= j < a.len() && a[j] == pair;
            assert(all[before.len() + j] == pair);
        } else {
            let j = choose|j: int| 0 <= j < b.len() && b[j] == pair;
            assert(all[before.len() + a.len() + j] == pair);
        }
    } else {
        let i = choose|i: int| 0 <= i < list.len() && list[i] == n;
        assert(front[i] == n);
        lemma_declared_pairs(packages, pkg, front, n, pair);
        let j = choose|j: int| 0 <= j < before.len() && before[j] == pair;
        assert(all[j] == pair);
    }
}

proof fn lemma_all_declared_pairs(
    packages: Packages,
    keys: Seq<Seq<char>>,
    k: Seq<char>,
    pair: Pair,
)
    requires
        keys.contains(k),
        berry_declared_pairs(
            packages,
            packages[k],
            sorted_keys(packages[k].declared_dependencies.dom()),
        ).contains(pair),
    ensures
        berry_all_declared_pairs(packages, keys).contains(pair),
    decreases keys.len(),
{
    let front = keys.drop_last();
    let a = berry_all_declared_pairs(packages, front);
    let last = packages[keys.last()];
    let b = berry_declared_pairs(packages, last, sorted_keys(last.declared_dependencies.dom()));
    let all = berry_all_declared_pairs(packages, keys);
    assert(all == a + b);
    if keys.last() == k {
        let j = choose|j: int| 0 <= j < b.len() && b[j] == pair;
        assert(all[a.len() + j] == pair);
    } else {
        let i = choose|i: int| 0 <= i < keys.len() && keys[i] == k;
        assert(front[i] == k);
        lemma_all_declared_pairs(packages, front, k, pair);
        let j = choose|j: int| 0 <= j < a.len() && a[j] == pair;
        assert(all[j] == pair);
    }
}

proof fn lemma_root_pairs(
    packages: Packages,
    ranges: Ranges,
    deps: Seq<DirectDepView>,
    d: DirectDepView,
    key: Seq<char>,
    range: Seq<char>,
)
    requires
        deps.contains(d),
        manifest_range(ranges, d.name) == Some(range),
        direct_key(packages, d.dep_path) == Some(key),
        ranged_spec(d.name, range) != exact_spec(packages[key]),
    ensures
        berry_root_pairs(packages, ranges, deps).contains((key, ranged_spec(d.name, range))),
    decreases deps.len(),
{
    let pair = (key, ranged_spec(d.name, range));
    let all = berry_root_pairs(packages, ranges, deps);
    let front = deps.drop_last();
    let before = berry_root_pairs(packages, ranges, front);
    if deps.last() == d {
        assert(spec_pair(packages, key, ranged_spec(d.name, range))[0] == pair);
        assert(all[before.len() as int] == pair);
    } else {
        let i = choose|i: int| 0 <= i < deps.len() && deps[i] == d;
        assert(front[i] == d);
        lemma_root_pairs(packages, ranges, front, d, key, range);
        let j = choose|j: int| 0 <= j < before.len() && before[j] == pair;
        assert(all[j] == pair);
    }
}

/// A listed specifier is one of its package.
proof fn lemma_listed(
    graph: LockfileGraphView,
    ranges: Ranges,
    p: LockedPackageView,
    spec: Seq<char>,
)
    requires
        spec == exact_spec(p) || (berry_root_pairs(
            canonical(graph),
            ranges,
            root_importer(graph),
        ) + berry_all_declared_pairs(
            canonical(graph),
            sorted_keys(canonical(graph).dom()),
        )).contains((canonical_key(p), spec)),
    ensures
        berry_specs(graph, ranges, p).contains(spec),
{
    let specs = berry_specs(graph, ranges, p);
    let key = canonical_key(p);
    if spec == exact_spec(p) {
        assert(specs[0] == spec);
    } else {
        let packages = canonical(graph);
        let pairs = berry_root_pairs(packages, ranges, root_importer(graph))
            + berry_all_declared_pairs(packages, sorted_keys(packages.dom()));
        let extras = berry_extra_specs(graph, ranges);
        assert(extras == grouped(pairs));
        assert(extras.dom().contains(key));
        let set = listed_for(pairs, key);
        lemma_listed_finite(pairs, key);
        lemma_listing(set);
        assert(set.contains(spec));
        let q = sorted_keys(set);
        assert(q.contains(spec));
        let j = choose|j: int| 0 <= j < q.len() && q[j] == spec;
        assert(specs[j + 1] == spec);
    }
}

/// Whether a table sends each specifier of a graph to its package, and holds no
/// other.
spec fn is_table(
    graph: LockfileGraphView,
    ranges: Ranges,
    table: Map<Seq<char>, Seq<char>>,
) -> bool {
    &&& forall|k: Seq<char>, s: Seq<char>|
        #![trigger berry_specs(graph, ranges, graph.packages[k]).contains(s)]
        graph.packages.dom().contains(k) && berry_specs(
            graph,
            ranges,
            graph.packages[k],
        ).contains(s) ==> lookup(table, s) == Some(k)
    &&& forall|s: Seq<char>| #[trigger]
        table.dom().contains(s) ==> exists|k: Seq<char>|
            #![trigger graph.packages.dom().contains(k)]
            graph.packages.dom().contains(k) && berry_specs(
                graph,
                ranges,
                graph.packages[k],
            ).contains(s)
}

/// What the line of a dependency says is a specifier of its package.
proof fn lemma_dep_listed(
    graph: LockfileGraphView,
    ranges: Ranges,
    k: Seq<char>,
    deps: Map<Seq<char>, Seq<char>>,
    n: Seq<char>,
)
    requires
        are_recordable(graph, ranges),
        graph.packages.dom().contains(k),
        deps == graph.packages[k].dependencies || deps
            == graph.packages[k].optional_dependencies,
        deps.dom().contains(n),
    ensures
        graph.packages.dom().contains(deps[n]),
        berry_specs(graph, ranges, graph.packages[deps[n]]).contains(
            dep_path(n, edge_body(graph, graph.packages[k], n, deps[n])),
        ),
{
    let p = graph.packages[k];
    let packages = canonical(graph);
    assert(is_recordable(graph, ranges, k, p));
    lemma_canonical(graph, ranges);
    assert(is_recordable_dep(graph, p, n, deps[n]));
    let v = deps[n];
    let t = canonical_key(graph.packages[v]);
    lemma_path_index(graph, ranges, v);
    lemma_path_index(graph, ranges, k);
    let declared = p.declared_dependencies;
    let spec = dep_path(n, edge_body(graph, p, n, v));
    let keys = sorted_keys(packages.dom());
    lemma_listing(packages.dom());
    if spec != exact_spec(packages[t]) {
        let list = sorted_keys(declared.dom());
        lemma_listing(declared.dom());
        assert(list.contains(n));
        let first = spec_pair(packages, t, ranged_spec(n, declared[n]));
        let both = edge_pairs(packages, declared, deps, n);
        assert(both == first + seq![(t, spec)]);
        assert(both[first.len() as int] == (t, spec));
        assert(both.contains((t, spec)));
        lemma_declared_pairs(packages, p, list, n, (t, spec));
        let c = canonical_key(p);
        assert(keys.contains(c));
        lemma_all_declared_pairs(packages, keys, c, (t, spec));
        let a = berry_root_pairs(packages, ranges, root_importer(graph));
        let b = berry_all_declared_pairs(packages, keys);
        let j = choose|j: int| 0 <= j < b.len() && b[j] == (t, spec);
        assert((a + b)[a.len() + j] == (t, spec));
    }
    lemma_listed(graph, ranges, graph.packages[v], spec);
}

/// A package reads back.
proof fn lemma_resolved(
    graph: LockfileGraphView,
    ranges: Ranges,
    k: Seq<char>,
    table: Map<Seq<char>, Seq<char>>,
)
    requires
        are_recordable(graph, ranges),
        is_table(graph, ranges, table),
        graph.packages.dom().contains(k),
    ensures
        resolved_package(ranged(graph, graph.packages[k]), table) == recorded_package(
            graph,
            graph.packages[k],
        ),
{
    let p = graph.packages[k];
    assert(is_recordable(graph, ranges, k, p));
    assert forall|n: Seq<char>| #[trigger] p.dependencies.dom().contains(n) implies lookup(
        table,
        dep_path(n, edge_body(graph, p, n, p.dependencies[n])),
    ) == Some(p.dependencies[n]) by {
        lemma_dep_listed(graph, ranges, k, p.dependencies, n);
        assert(graph.packages.dom().contains(p.dependencies[n]));
    }
    assert forall|n: Seq<char>| #[trigger] p.optional_dependencies.dom().contains(n) implies lookup(
        table,
        dep_path(n, edge_body(graph, p, n, p.optional_dependencies[n])),
    ) == Some(p.optional_dependencies[n]) by {
        lemma_dep_listed(graph, ranges, k, p.optional_dependencies, n);
        assert(graph.packages.dom().contains(p.optional_dependencies[n]));
    }
    assert(resolved_by(bodies_of(graph, p, p.dependencies), table) =~= p.dependencies);
    assert(resolved_by(bodies_of(graph, p, p.optional_dependencies), table)
        =~= p.optional_dependencies);
}

/// A direct dependency reads back.
proof fn lemma_direct(
    graph: LockfileGraphView,
    ranges: Ranges,
    d: DirectDepView,
    section: Map<Seq<char>, Seq<char>>,
    table: Map<Seq<char>, Seq<char>>,
)
    requires
        are_recordable(graph, ranges),
        is_table(graph, ranges, table),
        graph.importers.dom().contains("."@),
        graph.importers["."@].contains(d),
        is_berry_direct(graph, ranges, d, section),
    ensures
        direct_path(d.name, section[d.name], table) == Some(d.dep_path),
{
    let packages = canonical(graph);
    let k = d.dep_path;
    let p = graph.packages[k];
    let range = section[d.name];
    let deps = graph.importers["."@];
    assert(root_importer(graph) == deps);
    assert(graph.packages.dom().contains(k));
    assert(is_recordable(graph, ranges, k, p));
    lemma_canonical(graph, ranges);
    assert(lookup(packages, canonical_key(graph.packages[k])) == Some(graph.packages[k]));
    let spec = ranged_spec(d.name, range);
    let c = canonical_key(p);
    lemma_path_index(graph, ranges, k);
    if spec != exact_spec(p) {
        lemma_root_pairs(packages, ranges, deps, d, c, range);
        let a = berry_root_pairs(packages, ranges, deps);
        let b = berry_all_declared_pairs(packages, sorted_keys(packages.dom()));
        let j = choose|j: int| 0 <= j < a.len() && a[j] == (c, spec);
        assert((a + b)[j] == (c, spec));
    }
    lemma_listed(graph, ranges, p, spec);
    assert(lookup(table, spec) == Some(k));
    let plain = dep_path(d.name, range);
    if table.dom().contains(plain) {
        let o = choose|o: Seq<char>|
            #![trigger graph.packages.dom().contains(o)]
            graph.packages.dom().contains(o) && berry_specs(
                graph,
                ranges,
                graph.packages[o],
            ).contains(plain);
        assert(o == k);
        assert(lookup(table, plain) == Some(k));
    }
}

/// The direct dependencies of one type read back.
proof fn lemma_berry_deps(
    part: Seq<DirectDepView>,
    section: Map<Seq<char>, Seq<char>>,
    table: Map<Seq<char>, Seq<char>>,
    t: DepType,
)
    requires
        forall|i: int| 0 <= i < part.len() ==> reads_direct(#[trigger] part[i], section, table, t),
    ensures
        berry_deps(names(part), section, table, t) == part,
    decreases part.len(),
{
    if part.len() > 0 {
        let front = part.drop_last();
        let d = part[part.len() - 1];
        assert(names(part).drop_last() =~= names(front));
        assert(names(part).last() == d.name);
        assert forall|i: int| 0 <= i < front.len() implies reads_direct(
            #[trigger] front[i],
            section,
            table,
            t,
        ) by {
            assert(front[i] == part[i]);
        }
        lemma_berry_deps(front, section, table, t);
        assert(reads_direct(d, section, table, t));
        assert(front.push(d) =~= part);
    } else {
        assert(berry_deps(names(part), section, table, t) =~= part);
    }
}

/// Whether a direct dependency is what its range is read as.
spec fn reads_direct(
    d: DirectDepView,
    section: Map<Seq<char>, Seq<char>>,
    table: Map<Seq<char>, Seq<char>>,
    t: DepType,
) -> bool {
    d.dep_type == t && d.specifier is None && direct_path(d.name, section[d.name], table) == Some(
        d.dep_path,
    )
}

proof fn lemma_section(
    graph: LockfileGraphView,
    ranges: Ranges,
    section: Map<Seq<char>, Seq<char>>,
    t: DepType,
    table: Map<Seq<char>, Seq<char>>,
)
    requires
        are_recordable(graph, ranges),
        is_table(graph, ranges, table),
        graph.importers.dom().contains("."@),
        are_berry_deps(graph, ranges, graph.importers["."@], section, t),
    ensures
        berry_deps(sorted_keys(section.dom()), section, table, t) == of_type(
            graph.importers["."@],
            t,
        ),
{
    let deps = graph.importers["."@];
    let part = of_type(deps, t);
    assert forall|i: int| 0 <= i < part.len() implies reads_direct(
        #[trigger] part[i],
        section,
        table,
        t,
    ) by {
        lemma_of_type(deps, t, i);
        assert(deps.contains(part[i]));
        lemma_direct(graph, ranges, part[i], section, table);
    }
    lemma_berry_deps(part, section, table, t);
}

/// The blocks that the entries of a graph are read as.
spec fn blocks_of(graph: LockfileGraphView, ranges: Ranges) -> Seq<BerryBlock> {
    sorted_keys(canonical(graph).dom()).map_values(
        |c: Seq<char>| block_of(graph, ranges, canonical(graph)[c]),
    )
}

/// The blocks are those of the packages.
proof fn lemma_blocks(graph: LockfileGraphView, ranges: Ranges)
    requires
        are_recordable(graph, ranges),
    ensures
        ({
            let entries = berry_entries(graph, ranges);
            let blocks = blocks_of(graph, ranges);
            &&& entries.len() == blocks.len() + 1
            &&& forall|i: int|
                0 <= i < blocks.len() ==> is_read_as(entries[i + 1], #[trigger] blocks[i])
            &&& forall|i: int|
                0 <= i < blocks.len() ==> is_block_of(graph, ranges, #[trigger] blocks[i])
            &&& are_apart(blocks)
            &&& forall|k: Seq<char>| #[trigger]
                graph.packages.dom().contains(k) ==> blocks.contains(
                    block_of(graph, ranges, graph.packages[k]),
                )
        }),
{
    let packages = canonical(graph);
    let entries = berry_entries(graph, ranges);
    let blocks = blocks_of(graph, ranges);
    let cs = sorted_keys(packages.dom());
    lemma_canonical(graph, ranges);
    lemma_listing(packages.dom());
    assert forall|i: int| 0 <= i < blocks.len() implies is_read_as(
        entries[i + 1],
        #[trigger] blocks[i],
    ) && is_block_of(graph, ranges, blocks[i]) by {
        assert(cs.contains(cs[i]));
        assert(packages.dom().contains(cs[i]));
        lemma_block(graph, ranges, cs[i]);
    }
    assert forall|i: int, j: int|
        #![trigger blocks[i].path, blocks[j].path]
        0 <= i < blocks.len() && 0 <= j < blocks.len() && blocks[i].path
            == blocks[j].path implies i == j by {
        assert(cs.contains(cs[i]) && cs.contains(cs[j]));
        assert(packages.dom().contains(cs[i]) && packages.dom().contains(cs[j]));
        assert(cs[i] == cs[j]);
        lemma_ascending_index(cs, i);
        lemma_ascending_index(cs, j);
    }
    assert forall|i: int, j: int, s: Seq<char>|
        #![trigger blocks[i].specs.contains(s), blocks[j].specs.contains(s)]
        0 <= i < blocks.len() && 0 <= j < blocks.len() && blocks[i].specs.contains(s)
            && blocks[j].specs.contains(s) implies i == j by {
        let (a, b) = (blocks[i].path, blocks[j].path);
        assert(is_block_of(graph, ranges, blocks[i]) && is_block_of(graph, ranges, blocks[j]));
        assert(berry_specs(graph, ranges, graph.packages[a]).contains(s));
        assert(berry_specs(graph, ranges, graph.packages[b]).contains(s));
        assert(a == b);
    }
    assert forall|k: Seq<char>| #[trigger] graph.packages.dom().contains(k) implies blocks.contains(
        block_of(graph, ranges, graph.packages[k]),
    ) by {
        let c = canonical_key(graph.packages[k]);
        assert(lookup(packages, canonical_key(graph.packages[k])) == Some(graph.packages[k]));
        assert(cs.contains(c));
        let i = choose|i: int| 0 <= i < cs.len() && cs[i] == c;
        assert(blocks[i] == block_of(graph, ranges, graph.packages[k]));
    }
}

/// Whether a block is that of the package under its path.
spec fn is_block_of(graph: LockfileGraphView, ranges: Ranges, b: BerryBlock) -> bool {
    graph.packages.dom().contains(b.path) && b == block_of(graph, ranges, graph.packages[b.path])
        && graph.packages[b.path].dep_path == b.path
}

/// What the specifiers of a written file resolve to.
pub open spec fn written_table(graph: LockfileGraphView, ranges: Ranges) -> Map<
    Seq<char>,
    Seq<char>,
> {
    let entries = berry_entries(graph, ranges);
    berry_table(entries, entries.len() as int)
}

/// What is read of a written file: each package as its block tells it.
pub open spec fn recorded_graph(graph: LockfileGraphView, ranges: Ranges) -> LockfileGraphView {
    LockfileGraphView {
        importers: Map::empty().insert(
            "."@,
            berry_root_deps(ranges, written_table(graph, ranges)),
        ),
        packages: Map::new(
            |k: Seq<char>| graph.packages.dom().contains(k),
            |k: Seq<char>| recorded_package(graph, graph.packages[k]),
        ),
        ..default_graph()
    }
}

/// The document of a graph is read back with the packages that it had, each as
/// its block tells it; so is the text, where the YAML parser reads it as that
/// document. That the parser does so is not stated here.
pub proof fn law_packages_read_back(graph: LockfileGraphView, ranges: Ranges)
    requires
        are_recordable(graph, ranges),
    ensures
        tree_graph(YamlView::Mapping(berry_entries(graph, ranges)), ranges) == Ok::<
            LockfileGraphView,
            BerryErrorView,
        >(recorded_graph(graph, ranges)),
        yaml_document(berry_text(graph, ranges)) == Ok::<YamlView, YamlFailureView>(
            YamlView::Mapping(berry_entries(graph, ranges)),
        ) ==> yarn_graph(berry_text(graph, ranges), ranges) == Ok::<
            LockfileGraphView,
            YarnErrorView,
        >(recorded_graph(graph, ranges)),
{
    let entries = berry_entries(graph, ranges);
    let blocks = blocks_of(graph, ranges);
    let n = blocks.len() as int;
    lemma_blocks(graph, ranges);
    lemma_metadata_entry(
        sorted_keys(canonical(graph).dom()).map_values(
            |k: Seq<char>| block_entry(canonical(graph), berry_extra_specs(graph, ranges), k),
        ),
    );
    assert(entries[0] == metadata_entry());
    lemma_read_blocks(entries, blocks, n);
    let table = berry_table(entries, n + 1);
    let raw = raw_packages(entries, n + 1);
    lemma_is_table(graph, ranges);
    let resolved = resolved_packages(raw, table);
    let packages = recorded_graph(graph, ranges).packages;
    assert(resolved =~= packages) by {
        assert forall|k: Seq<char>| #[trigger] resolved.dom().contains(
            k,
        ) implies packages.dom().contains(k) && resolved[k] == packages[k] by {
            let i = choose|i: int| 0 <= i < n && (#[trigger] blocks[i]).path == k;
            assert(is_block_of(graph, ranges, blocks[i]));
            assert(lookup(raw, blocks[i].path) == blocks[i].package);
            lemma_resolved(graph, ranges, k, table);
        }
        assert forall|k: Seq<char>| packages.dom().contains(k) implies #[trigger]
            resolved.dom().contains(k) by {
            let b = block_of(graph, ranges, graph.packages[k]);
            assert(graph.packages.dom().contains(k));
            let i = choose|i: int| 0 <= i < blocks.len() && blocks[i] == b;
            assert(lookup(raw, blocks[i].path) == blocks[i].package);
            assert(is_recordable(graph, ranges, k, graph.packages[k]));
        }
    }
    law_berry_is_told_apart(graph, ranges);
}

/// The specifiers of a written file resolve to their packages, and there are no
/// others.
proof fn lemma_is_table(graph: LockfileGraphView, ranges: Ranges)
    requires
        are_recordable(graph, ranges),
    ensures
        is_table(graph, ranges, written_table(graph, ranges)),
{
    let entries = berry_entries(graph, ranges);
    let blocks = blocks_of(graph, ranges);
    let n = blocks.len() as int;
    lemma_blocks(graph, ranges);
    lemma_metadata_entry(
        sorted_keys(canonical(graph).dom()).map_values(
            |k: Seq<char>| block_entry(canonical(graph), berry_extra_specs(graph, ranges), k),
        ),
    );
    assert(entries[0] == metadata_entry());
    lemma_read_blocks(entries, blocks, n);
    let table = written_table(graph, ranges);
    assert forall|k: Seq<char>, s: Seq<char>|
        #![trigger berry_specs(graph, ranges, graph.packages[k]).contains(s)]
        graph.packages.dom().contains(k) && berry_specs(
            graph,
            ranges,
            graph.packages[k],
        ).contains(s) implies lookup(table, s) == Some(k) by {
        let b = block_of(graph, ranges, graph.packages[k]);
        let i = choose|i: int| 0 <= i < blocks.len() && blocks[i] == b;
        assert(blocks[i].specs.contains(s));
        assert(is_recordable(graph, ranges, k, graph.packages[k]));
    }
    assert forall|s: Seq<char>| #[trigger] table.dom().contains(s) implies exists|k: Seq<char>|
        #![trigger graph.packages.dom().contains(k)]
        graph.packages.dom().contains(k) && berry_specs(
            graph,
            ranges,
            graph.packages[k],
        ).contains(s) by {
        let i = choose|i: int| 0 <= i < n && (#[trigger] blocks[i]).specs.contains(s);
        assert(is_block_of(graph, ranges, blocks[i]));
        assert(graph.packages.dom().contains(blocks[i].path));
    }
}

/// A graph as a berry lockfile tells it is one that it can tell, and it tells all
/// of it.
proof fn lemma_berry_graph(graph: LockfileGraphView, ranges: Ranges)
    requires
        is_berry_graph(graph, ranges),
    ensures
        are_recordable(graph, ranges),
        forall|k: Seq<char>| #[trigger]
            graph.packages.dom().contains(k) ==> recorded_package(graph, graph.packages[k])
                == graph.packages[k],
{
    assert forall|k: Seq<char>| #[trigger] graph.packages.dom().contains(k) implies is_recordable(
        graph,
        ranges,
        k,
        graph.packages[k],
    ) && recorded_package(graph, graph.packages[k]) == graph.packages[k] by {
        let p = graph.packages[k];
        assert(is_berry_package(graph, ranges, k, p));
        assert forall|v: Seq<char>| #[trigger]
            version_separator(dep_path(p.name, v)) == Some(p.name.len() as int) by {
            lemma_separator(p.name, v);
        }
        let declared = bodies_of(graph, p, p.dependencies).union_prefer_right(
            bodies_of(graph, p, p.optional_dependencies),
        );
        assert(declared =~= p.declared_dependencies) by {
            assert forall|n: Seq<char>| #[trigger] declared.dom().contains(n) implies declared[n]
                == p.declared_dependencies[n] by {
                if p.optional_dependencies.dom().contains(n) {
                    assert(is_berry_dep(graph, p, n, p.optional_dependencies[n]));
                } else {
                    assert(is_berry_dep(graph, p, n, p.dependencies[n]));
                }
            }
        }
    }
}

/// The document of a graph as a berry lockfile tells it is read back as the
/// graph; so is the text, where the YAML parser reads it as that document. That
/// the parser does so is not stated here.
pub proof fn law_round_trip(graph: LockfileGraphView, ranges: Ranges)
    requires
        is_berry_graph(graph, ranges),
    ensures
        tree_graph(YamlView::Mapping(berry_entries(graph, ranges)), ranges) == Ok::<
            LockfileGraphView,
            BerryErrorView,
        >(graph),
        yaml_document(berry_text(graph, ranges)) == Ok::<YamlView, YamlFailureView>(
            YamlView::Mapping(berry_entries(graph, ranges)),
        ) ==> yarn_graph(berry_text(graph, ranges), ranges) == Ok::<
            LockfileGraphView,
            YarnErrorView,
        >(graph),
{
    lemma_berry_graph(graph, ranges);
    law_packages_read_back(graph, ranges);
    lemma_is_table(graph, ranges);
    let table = written_table(graph, ranges);
    assert(recorded_graph(graph, ranges).packages =~= graph.packages);
    lemma_section(graph, ranges, ranges.dependencies, DepType::Production, table);
    lemma_section(graph, ranges, ranges.dev_dependencies, DepType::Dev, table);
    lemma_section(graph, ranges, ranges.optional_dependencies, DepType::Optional, table);
}

/// Nothing is dropped unseen: a block that records nothing is one of those that
/// are skipped for their protocol, unless its header is one of the file's own or
/// names no specifier.
pub proof fn law_skipped_blocks_are_listed(entry: (YamlView, YamlView))
    ensures
        skipped_entry(entry) is Some <==> {
            &&& berry_entry(entry) == Ok::<Option<BerryBlock>, BerryErrorView>(None)
            &&& text(entry.0) matches Some(header) && !"__"@.is_prefix_of(header) && berry_header(
                header,
            ).len() > 0
        },
{
}

} // verus!
