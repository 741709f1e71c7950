//! What writing a graph that was read from a berry `yarn.lock` gives back.
use vstd::prelude::*;
use crate::graph::{LockedPackageView, LockfileGraphView};
use crate::laws::berry::{
    are_recordable, are_told_apart, berry_entries, berry_specs, canonical_key, is_berry_source,
    is_listable, is_recordable, is_recordable_dep, is_separable, law_packages_read_back, Packages,
};
use crate::laws::classic_read::lemma_key_name;
use crate::manifest::Ranges;
use crate::pnpm::dep_path::{dep_path, version_separator};
use crate::yaml::{get, mapping, text, yaml_document, YamlEntries, YamlFailureView, YamlView};
use crate::yarn::berry::{
    berry_entry, berry_table, dep_section, meta_map, meta_section, raw_packages, resolved_package,
    scalar_map, tree_graph, BerryBlock, BerryErrorView,
};
use crate::yarn::berry_write::{berry_text, exact_spec};
use crate::yarn::classic::spec_name;
use crate::yarn::yarn_graph;

verus! {

/// A package that a berry lockfile keeps: each of its specifiers can stand in a
/// list of them, its source is one that a resolution names, and it depends on
/// packages of the graph, not on the workspace.
pub open spec fn is_kept_package(
    g: LockfileGraphView,
    ranges: Ranges,
    p: LockedPackageView,
) -> bool {
    &&& !"__"@.is_prefix_of(exact_spec(p))
    &&& p.local_source matches Some(source) ==> is_berry_source(source)
    &&& forall|i: int|
        0 <= i < berry_specs(g, ranges, p).len() ==> is_listable(
            #[trigger] berry_specs(g, ranges, p)[i],
        )
    &&& forall|n: Seq<char>| #[trigger]
        p.dependencies.dom().contains(n) ==> g.packages.dom().contains(p.dependencies[n])
    &&& forall|n: Seq<char>| #[trigger]
        p.optional_dependencies.dom().contains(n) ==> g.packages.dom().contains(
            p.optional_dependencies[n],
        )
}

/// Whether a berry lockfile can keep a graph that was read from one: it keeps
/// each package, no two packages have one name and one version, and no
/// specifier leads to two packages.
pub open spec fn is_kept(g: LockfileGraphView, ranges: Ranges) -> bool {
    &&& forall|k: Seq<char>| #[trigger]
        g.packages.dom().contains(k) ==> is_kept_package(g, ranges, g.packages[k])
    &&& forall|a: Seq<char>, b: Seq<char>| #[trigger]
        g.packages.dom().contains(a) && #[trigger] g.packages.dom().contains(b) && canonical_key(
            g.packages[a],
        ) == canonical_key(g.packages[b]) ==> a == b
    &&& are_told_apart(g, ranges)
}

proof fn lemma_scalar_finite(entries: YamlEntries, n: int)
    ensures
        scalar_map(entries, n).dom().finite(),
    decreases n,
{
    if n > 0 {
        lemma_scalar_finite(entries, n - 1);
    }
}

proof fn lemma_meta_finite(entries: YamlEntries, n: int)
    ensures
        meta_map(entries, n).dom().finite(),
    decreases n,
{
    if n > 0 {
        lemma_meta_finite(entries, n - 1);
    }
}

proof fn lemma_section_finite(block: YamlEntries, key: Seq<char>)
    ensures
        dep_section(block, key).dom().finite(),
        meta_section(block).dom().finite(),
{
    if let Some(section) = get(block, key) {
        if let Some(entries) = mapping(section) {
            lemma_scalar_finite(entries, entries.len() as int);
        }
    }
    if let Some(section) = get(block, "peerDependenciesMeta"@) {
        if let Some(entries) = mapping(section) {
            lemma_meta_finite(entries, entries.len() as int);
        }
    }
}

/// A package as a block gives it, with the ranges that it declares.
spec fn is_raw(key: Seq<char>, p: LockedPackageView) -> bool {
    &&& is_separable(p.name)
    &&& p.dep_path == key
    &&& match p.local_source {
        None => key == canonical_key(p),
        Some(source) => key == source.dep_path(p.name),
    }
    &&& p.dependencies.dom().finite()
    &&& p.optional_dependencies.dom().finite()
    &&& p.peer_dependencies.dom().finite()
    &&& p.peer_dependencies_meta.dom().finite()
    &&& p.declared_dependencies == p.dependencies.union_prefer_right(p.optional_dependencies)
}

proof fn lemma_raw(entry: (YamlView, YamlView), b: BerryBlock)
    requires
        berry_entry(entry) == Ok::<Option<BerryBlock>, BerryErrorView>(Some(b)),
        b.package is Some,
    ensures
        is_raw(b.path, b.package->0),
{
    let p = b.package->0;
    let block = mapping(entry.1)->0;
    lemma_section_finite(block, "dependencies"@);
    lemma_section_finite(block, "optionalDependencies"@);
    lemma_section_finite(block, "peerDependencies"@);
    let spec = text(get(block, "resolution"@)->0)->0;
    assert(spec_name(spec) == Some(p.name));
    assert forall|v: Seq<char>| #[trigger]
        version_separator(dep_path(p.name, v)) == Some(p.name.len() as int) by {
        lemma_key_name(spec, v);
    }
}

proof fn lemma_raw_packages(entries: YamlEntries, n: int)
    requires
        0 <= n <= entries.len(),
    ensures
        raw_packages(entries, n).dom().finite(),
        forall|k: Seq<char>| #[trigger]
            raw_packages(entries, n).dom().contains(k) ==> is_raw(k, raw_packages(entries, n)[k]),
    decreases n,
{
    if n > 0 {
        lemma_raw_packages(entries, n - 1);
        if let Ok(Some(b)) = berry_entry(entries[n - 1]) {
            if b.package is Some {
                lemma_raw(entries[n - 1], b);
            }
        }
    }
}

/// A package that was read is one that a berry lockfile can tell.
proof fn lemma_recordable(
    g: LockfileGraphView,
    ranges: Ranges,
    raw: Packages,
    table: Map<Seq<char>, Seq<char>>,
    k: Seq<char>,
)
    requires
        is_kept(g, ranges),
        g.packages.dom().contains(k),
        is_raw(k, raw[k]),
        g.packages[k] == resolved_package(raw[k], table),
    ensures
        is_recordable(g, ranges, k, g.packages[k]),
{
    let p = g.packages[k];
    let q = raw[k];
    assert(is_kept_package(g, ranges, p));
    vstd::set_lib::lemma_set_subset_finite(q.dependencies.dom(), p.dependencies.dom());
    vstd::set_lib::lemma_set_subset_finite(
        q.optional_dependencies.dom(),
        p.optional_dependencies.dom(),
    );
    assert(p.declared_dependencies.dom() =~= q.dependencies.dom().union(
        q.optional_dependencies.dom(),
    ));
    assert(canonical_key(p) == canonical_key(q));
    assert forall|n: Seq<char>| #[trigger] p.dependencies.dom().contains(
        n,
    ) implies is_recordable_dep(g, p, n, p.dependencies[n]) by {
        assert(q.dependencies.dom().contains(n));
    }
    assert forall|n: Seq<char>| #[trigger] p.optional_dependencies.dom().contains(
        n,
    ) implies is_recordable_dep(g, p, n, p.optional_dependencies[n]) by {
        assert(q.optional_dependencies.dom().contains(n));
    }
}

/// Whether one graph has the packages of another, each with the same name,
/// version, source, checksum, peers and resolved dependencies.
pub open spec fn has_packages_of(h: LockfileGraphView, g: LockfileGraphView) -> bool {
    &&& h.packages.dom() == g.packages.dom()
    &&& forall|k: Seq<char>| #[trigger]
        g.packages.dom().contains(k) ==> {
            let (p, q) = (g.packages[k], h.packages[k]);
            &&& q.name == p.name
            &&& q.version == p.version
            &&& q.dep_path == p.dep_path
            &&& q.local_source == p.local_source
            &&& q.yarn_checksum == p.yarn_checksum
            &&& q.dependencies == p.dependencies
            &&& q.optional_dependencies == p.optional_dependencies
            &&& q.peer_dependencies == p.peer_dependencies
            &&& q.peer_dependencies_meta == p.peer_dependencies_meta
        }
}

/// What was read from a berry document comes back from the document that is
/// written of it: the same packages, each with all that it had but the spelling
/// of the ranges that it declares. So it does from the text, where the YAML
/// parser reads it as that document. That the parser does so is not stated here.
pub proof fn law_read_graph_reads_back(doc: YamlView, ranges: Ranges, g: LockfileGraphView)
    requires
        tree_graph(doc, ranges) == Ok::<LockfileGraphView, BerryErrorView>(g),
        is_kept(g, ranges),
    ensures
        tree_graph(YamlView::Mapping(berry_entries(g, ranges)), ranges) matches Ok(h)
            && has_packages_of(h, g),
        yaml_document(berry_text(g, ranges)) == Ok::<YamlView, YamlFailureView>(
            YamlView::Mapping(berry_entries(g, ranges)),
        ) ==> (yarn_graph(berry_text(g, ranges), ranges) matches Ok(h) && has_packages_of(h, g)),
{
    let entries = mapping(doc)->0;
    let n = entries.len() as int;
    let table = berry_table(entries, n);
    let raw = raw_packages(entries, n);
    lemma_raw_packages(entries, n);
    assert(g.packages.dom() =~= raw.dom());
    assert forall|k: Seq<char>| #[trigger] g.packages.dom().contains(k) implies is_recordable(
        g,
        ranges,
        k,
        g.packages[k],
    ) by {
        lemma_recordable(g, ranges, raw, table, k);
    }
    assert(are_recordable(g, ranges));
    law_packages_read_back(g, ranges);
    let h = tree_graph(YamlView::Mapping(berry_entries(g, ranges)), ranges)->Ok_0;
    assert(h.packages.dom() =~= g.packages.dom());
}

} // verus!
