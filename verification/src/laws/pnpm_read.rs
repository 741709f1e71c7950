//! What writing a `pnpm-lock.yaml` that was read gives back.
use vstd::prelude::*;
use crate::graph::{DepType, DirectDepView, LockedPackageView, LockfileGraphView};
use crate::laws::pnpm::{
    info_at, is_name, is_recorded, law_dep_path_parts, lemma_find_char_from_at, lemma_written_infos,
    lemma_written_snapshots, snapshot_under,
};
use crate::laws::pnpm_order::{by_name, lemma_by_name, lemma_section};
use crate::manifest::Ranges;
use crate::pnpm::dep_path::{
    alias_remap, aliases_among, dep_path, dep_path_parts, peer_suffix, resolved_deps, resolved_tail,
    tail, version_separator, without_slash, AliasRemapView,
};
use crate::pnpm::document::{
    PnpmDepSpecView, PnpmImporterView, PnpmLockfileView, PnpmPackageInfoView, PnpmSnapshotView,
};
use crate::pnpm::read::{
    add_locals, all_entries, canonical_keys, direct_dep, direct_local_package, direct_source,
    empty_info, entries_of, entry_aliases, first_invalid, first_peerless, graph_aliases,
    graph_importers, graph_locals, graph_of, graph_settings, graph_skipped, harvested,
    harvested_aliases, http_tarball, importer_deps, importer_entries, is_absorbed, is_invalid,
    is_peerless, local_aliases, local_canonical, local_packages, local_snapshot, locked_package,
    opt_aliases, or_empty, or_nothing, other_packages, package_info, package_keys, patch_paths,
    section_deps, section_entries, section_specifiers, snapshot_aliases, snapshot_at, with_aliases,
    Entry, ReadErrorView,
};
use crate::pnpm::write::{
    document_of, info_key, is_left_out, is_link, is_url_keyed, local_resolution,
    registry_resolution, skipped_section, snapshot_key, unless_false, written_dep, written_deps,
    written_importers, written_info, written_packages, written_patches, written_section,
    written_snapshot, written_snapshots, written_value, Input,
};
use crate::source::{component, is_http_url};
use crate::strmap::{ascending, is_listing, lemma_listing, lemma_sorted_keys, lookup, sorted_keys};
use crate::text::{find_char, lemma_find_char, lemma_find_char_at, lemma_find_char_from, until};

verus! {

/// A map that is left out where it is empty.
pub open spec fn is_terse<V>(m: Option<Map<Seq<char>, V>>) -> bool {
    m matches Some(m) ==> m != Map::<Seq<char>, V>::empty() && m.dom().finite()
}

/// A list that is left out where it is empty.
pub open spec fn is_terse_list(v: Option<Seq<Seq<char>>>) -> bool {
    v matches Some(v) ==> v.len() > 0
}

/// Whether a name stands in a section with a value.
pub open spec fn holds<V>(m: Option<Map<Seq<char>, V>>, n: Seq<char>, v: V) -> bool {
    m matches Some(m) && m.dom().contains(n) && m[n] == v
}

/// Whether a workspace package has a direct dependency.
pub open spec fn is_entry(doc: PnpmLockfileView, n: Seq<char>, spec: PnpmDepSpecView) -> bool {
    exists|path: Seq<char>|
        #![trigger doc.importers.dom().contains(path)]
        doc.importers.dom().contains(path) && {
            let i = doc.importers[path];
            holds(i.dependencies, n, spec) || holds(i.dev_dependencies, n, spec) || holds(
                i.optional_dependencies,
                n,
                spec,
            )
        }
}

/// Whether a snapshot has a dependency.
pub open spec fn is_edge(doc: PnpmLockfileView, n: Seq<char>, w: Seq<char>) -> bool {
    exists|k: Seq<char>|
        #![trigger doc.snapshots.dom().contains(k)]
        doc.snapshots.dom().contains(k) && (holds(doc.snapshots[k].dependencies, n, w) || holds(
            doc.snapshots[k].optional_dependencies,
            n,
            w,
        ))
}

/// Whether a dependency is recorded somewhere.
pub open spec fn is_mentioned(doc: PnpmLockfileView, n: Seq<char>, w: Seq<char>) -> bool {
    is_edge(doc, n, w) || exists|spec: PnpmDepSpecView| #[trigger]
        is_entry(doc, n, spec) && spec.version == w
}

/// Whether a dependency that is recorded is an alias under a key.
pub open spec fn is_alias(
    doc: PnpmLockfileView,
    n: Seq<char>,
    w: Seq<char>,
    key: Seq<char>,
) -> bool {
    &&& is_mentioned(doc, n, w)
    &&& alias_remap(n, w) matches Some(a) && a.alias_dep_path == key
}

/// Whether a workspace package depends on a source outside the registry.
pub open spec fn is_local(doc: PnpmLockfileView, n: Seq<char>, w: Seq<char>) -> bool {
    &&& direct_source(w) is Some
    &&& exists|spec: PnpmDepSpecView| #[trigger] is_entry(doc, n, spec) && spec.version == w
}

/// The key in a graph of a package that is depended on by a source.
pub open spec fn local_key(n: Seq<char>, w: Seq<char>) -> Seq<char> {
    direct_source(w)->0.dep_path(n)
}

/// The package of a graph that is depended on by a source.
pub open spec fn local_package(
    doc: PnpmLockfileView,
    n: Seq<char>,
    w: Seq<char>,
) -> LockedPackageView {
    harvested(doc, direct_local_package(n, direct_source(w)->0))
}

/// Whether the entries under a key are those of a package that is depended on
/// by a source.
pub open spec fn is_local_key(doc: PnpmLockfileView, key: Seq<char>) -> bool {
    exists|n: Seq<char>, w: Seq<char>| #[trigger] is_local(doc, n, w) && key == dep_path(n, w)
}

/// A dependency on a source as it is written: by its specifier, with entries
/// that tell of the source and what it depends on, or with none for a link.
pub open spec fn is_written_local(doc: PnpmLockfileView, n: Seq<char>, w: Seq<char>) -> bool {
    let source = direct_source(w)->0;
    let p = local_package(doc, n, w);
    let key = dep_path(n, w);
    let s = doc.snapshots[key];
    &&& alias_remap(n, w) is None
    &&& source.specifier() == w
    &&& p.local_source->0.specifier() == w
    &&& p.dep_path == source.dep_path(n)
    &&& !doc.snapshots.dom().contains(p.dep_path)
    &&& forall|m: Seq<char>, x: Seq<char>| !(#[trigger] is_alias(doc, m, x, p.dep_path))
    &&& forall|k: Seq<char>| #[trigger]
        doc.snapshots.dom().contains(k) && is_peerless(k, key) ==> k == key
    &&& if is_link(p) {
        &&& !graph_settings(doc.settings).exclude_links_from_lockfile
        &&& !doc.snapshots.dom().contains(key)
    } else {
        &&& doc.packages.dom().contains(key)
        &&& doc.packages[key] == (PnpmPackageInfoView {
            resolution: local_resolution(p.local_source->0),
            ..empty_info()
        })
        &&& doc.snapshots.dom().contains(key)
        &&& s.transitive_peer_dependencies is None
        &&& s.optional is None
        &&& s.bundled_dependencies is None
    }
}

/// A dependency as it is written: an alias of a package that has a snapshot, or
/// what leads to no alias and, if to a source, by its specifier.
pub open spec fn is_written_dep(doc: PnpmLockfileView, n: Seq<char>, w: Seq<char>) -> bool {
    match alias_remap(n, w) {
        Some(a) => {
            &&& is_name(n)
            &&& w == dep_path(a.real_name, tail(a.alias_dep_path, n))
            &&& doc.snapshots.dom().contains(w)
            &&& !is_local_key(doc, w)
            &&& !doc.snapshots.dom().contains(a.alias_dep_path)
            &&& locked_package(doc, w).local_source is None
        },
        None => leads_plainly(doc, dep_path(n, w), w) && leads_plainly(
            doc,
            dep_path(n, until(w, '(')),
            w,
        ) && leads_plainly(doc, dep_path(component(n), until(w, '(')), w),
    }
}

/// Whether a key is that of no alias, and that of a package from a source only
/// where a dependency is recorded by the specifier of the source.
pub open spec fn leads_plainly(doc: PnpmLockfileView, key: Seq<char>, w: Seq<char>) -> bool {
    &&& forall|m: Seq<char>, x: Seq<char>| !(#[trigger] is_alias(doc, m, x, key))
    &&& forall|m: Seq<char>, x: Seq<char>| #[trigger]
        is_local(doc, m, x) && local_key(m, x) == key ==> x == w
    &&& doc.snapshots.dom().contains(key) && !is_local_key(doc, key) ==> {
        &&& locked_package(doc, key).alias_of is None
        &&& locked_package(doc, key).local_source matches Some(s) ==> s.specifier() == w
    }
}

/// A snapshot as it is written.
pub open spec fn is_written_snapshot(s: PnpmSnapshotView) -> bool {
    &&& is_terse(s.dependencies)
    &&& is_terse(s.optional_dependencies)
    &&& is_terse_list(s.transitive_peer_dependencies)
    &&& is_terse_list(s.bundled_dependencies)
    &&& s.optional != Some(false)
    &&& or_empty(s.dependencies).dom().disjoint(or_empty(s.optional_dependencies).dom())
}

/// A package as it is written: under its name and version, with a resolution
/// that tells what is known of it and no more.
pub open spec fn is_written_package(doc: PnpmLockfileView, key: Seq<char>) -> bool {
    let p = locked_package(doc, key);
    let (name, version) = dep_path_parts(key)->0;
    let info = doc.packages[dep_path(name, version)];
    &&& dep_path_parts(key) is Some
    &&& key == dep_path(name, tail(key, name))
    &&& doc.packages.dom().contains(dep_path(name, version))
    &&& is_terse(info.peer_dependencies)
    &&& is_terse(info.peer_dependencies_meta)
    &&& info.alias_of is None
    &&& info.version == (if is_url_keyed(p) {
        Some(p.version)
    } else {
        None
    })
    &&& match p.local_source {
        Some(source) => {
            &&& key == dep_path(name, source.specifier())
            &&& key == dep_path(name, version)
            &&& info.resolution == local_resolution(source)
        },
        None => info.resolution == registry_resolution(
            graph_settings(doc.settings).lockfile_include_tarball_url,
            p,
        ),
    }
}

/// A workspace package as it is written.
pub open spec fn is_written_importer(i: PnpmImporterView) -> bool {
    &&& is_terse(i.dependencies)
    &&& is_terse(i.dev_dependencies)
    &&& is_terse(i.optional_dependencies)
    &&& is_terse(i.skipped_optional_dependencies)
    &&& i.skipped_optional_dependencies matches Some(m) ==> forall|n: Seq<char>| #[trigger]
        m.dom().contains(n) ==> m[n].version == "0.0.0"@
}

/// A head as it is written: what says nothing is left out.
pub open spec fn is_written_head(doc: PnpmLockfileView) -> bool {
    &&& doc.settings matches Some(s) && s.auto_install_peers is Some
        && s.exclude_links_from_lockfile is Some && s.lockfile_include_tarball_url != Some(false)
    &&& is_terse(doc.overrides)
    &&& is_terse(doc.catalogs)
    &&& is_terse(doc.time)
    &&& is_terse(doc.patched_dependencies)
    &&& doc.patched_dependencies matches Some(m) ==> forall|n: Seq<char>| #[trigger]
        m.dom().contains(n) ==> m[n] is Path
    &&& is_terse_list(doc.ignored_optional_dependencies)
    &&& doc.ignored_optional_dependencies matches Some(v) ==> ascending(v)
}

/// A lockfile in the form in which lockfiles are written.
pub open spec fn is_written(doc: PnpmLockfileView) -> bool {
    &&& is_written_head(doc)
    &&& doc.importers.dom().finite()
    &&& !doc.importers.dom().contains(Seq::empty())
    &&& forall|path: Seq<char>| #[trigger]
        doc.importers.dom().contains(path) ==> is_written_importer(doc.importers[path])
    &&& forall|n: Seq<char>, spec: PnpmDepSpecView| #[trigger]
        is_entry(doc, n, spec) ==> if direct_source(spec.version) is Some {
            is_written_local(doc, n, spec.version)
        } else {
            is_written_dep(doc, n, spec.version)
        }
    &&& forall|n: Seq<char>, w: Seq<char>, m: Seq<char>, x: Seq<char>|
        #![trigger is_local(doc, n, w), is_local(doc, m, x)]
        is_local(doc, n, w) && is_local(doc, m, x) && local_key(n, w) == local_key(m, x) ==> n == m
            && w == x
    &&& forall|n: Seq<char>, w: Seq<char>| #[trigger]
        is_edge(doc, n, w) ==> is_written_dep(doc, n, w)
    &&& forall|n: Seq<char>, w: Seq<char>, m: Seq<char>, x: Seq<char>, key: Seq<char>| #[trigger]
        is_alias(doc, n, w, key) && #[trigger] is_alias(doc, m, x, key) ==> n == m && w == x
    &&& doc.snapshots.dom().finite()
    &&& forall|k: Seq<char>| #[trigger]
        doc.snapshots.dom().contains(k) ==> is_written_snapshot(doc.snapshots[k]) && (is_local_key(
            doc,
            k,
        ) || is_written_package(doc, k))
    &&& forall|q: Seq<char>| #[trigger]
        doc.packages.dom().contains(q) ==> exists|k: Seq<char>| #[trigger]
            doc.snapshots.dom().contains(k) && is_record_of(doc, q, k)
}

/// Whether the entry under a key of `packages:` is that of a snapshot.
pub open spec fn is_record_of(doc: PnpmLockfileView, q: Seq<char>, k: Seq<char>) -> bool {
    if is_local_key(doc, k) {
        q == k
    } else {
        is_peerless(k, q)
    }
}

proof fn lemma_section_entries(section: Option<Map<Seq<char>, PnpmDepSpecView>>)
    requires
        is_terse(section),
    ensures
        forall|n: Seq<char>, spec: PnpmDepSpecView|
            section_entries(section).contains((n, spec)) <==> #[trigger] holds(section, n, spec),
{
    if let Some(m) = section {
        let q = sorted_keys(m.dom());
        let e = section_entries(section);
        lemma_listing(m.dom());
        assert forall|n: Seq<char>, spec: PnpmDepSpecView| e.contains((n, spec))
            <==> #[trigger] holds(section, n, spec) by {
            if e.contains((n, spec)) {
                let i = choose|i: int| 0 <= i < e.len() && e[i] == (n, spec);
                assert(q.contains(q[i]));
                assert(m.dom().contains(q[i]));
            }
            if holds(section, n, spec) {
                assert(q.contains(n));
                let i = choose|i: int| 0 <= i < q.len() && q[i] == n;
                assert(e[i] == (n, spec));
            }
        }
    }
}

proof fn lemma_concat_contains<T>(a: Seq<T>, b: Seq<T>)
    ensures
        forall|x: T| #[trigger] (a + b).contains(x) <==> a.contains(x) || b.contains(x),
{
    assert forall|x: T| #[trigger] (a + b).contains(x) <==> a.contains(x) || b.contains(x) by {
        if (a + b).contains(x) {
            let i = choose|i: int| 0 <= i < (a + b).len() && (a + b)[i] == x;
            if i < a.len() {
                assert(a[i] == x);
            } else {
                assert(b[i - a.len()] == x);
            }
        }
        if a.contains(x) {
            let i = choose|i: int| 0 <= i < a.len() && a[i] == x;
            assert((a + b)[i] == x);
        }
        if b.contains(x) {
            let i = choose|i: int| 0 <= i < b.len() && b[i] == x;
            assert((a + b)[a.len() + i] == x);
        }
    }
}

/// Whether an importer has an entry.
spec fn has_entry(i: PnpmImporterView, n: Seq<char>, spec: PnpmDepSpecView) -> bool {
    holds(i.dependencies, n, spec) || holds(i.dev_dependencies, n, spec) || holds(
        i.optional_dependencies,
        n,
        spec,
    )
}

proof fn lemma_importer_entries(i: PnpmImporterView)
    requires
        is_written_importer(i),
    ensures
        forall|n: Seq<char>, spec: PnpmDepSpecView|
            importer_entries(i).contains((n, spec)) <==> #[trigger] has_entry(i, n, spec),
{
    let (a, b, c) = (
        section_entries(i.dependencies),
        section_entries(i.dev_dependencies),
        section_entries(i.optional_dependencies),
    );
    lemma_section_entries(i.dependencies);
    lemma_section_entries(i.dev_dependencies);
    lemma_section_entries(i.optional_dependencies);
    lemma_concat_contains(a, b);
    lemma_concat_contains(a + b, c);
    assert forall|n: Seq<char>, spec: PnpmDepSpecView| importer_entries(i).contains((n, spec))
        <==> #[trigger] has_entry(i, n, spec) by {
        assert((a + b + c).contains((n, spec)) <==> (a + b).contains((n, spec)) || c.contains(
            (n, spec),
        ));
        assert((a + b).contains((n, spec)) <==> a.contains((n, spec)) || b.contains((n, spec)));
        assert(holds(i.dependencies, n, spec) <==> a.contains((n, spec)));
        assert(holds(i.dev_dependencies, n, spec) <==> b.contains((n, spec)));
        assert(holds(i.optional_dependencies, n, spec) <==> c.contains((n, spec)));
    }
}

proof fn lemma_entries_of(doc: PnpmLockfileView, keys: Seq<Seq<char>>)
    requires
        is_written(doc),
        forall|i: int| 0 <= i < keys.len() ==> doc.importers.dom().contains(#[trigger] keys[i]),
    ensures
        forall|n: Seq<char>, spec: PnpmDepSpecView| #[trigger]
            entries_of(doc.importers, keys).contains((n, spec)) <==> exists|i: int|
                0 <= i < keys.len() && has_entry(doc.importers[#[trigger] keys[i]], n, spec),
    decreases keys.len(),
{
    let all = entries_of(doc.importers, keys);
    if keys.len() > 0 {
        let front = keys.drop_last();
        let last = keys[keys.len() - 1];
        assert forall|i: int| 0 <= i < front.len() implies doc.importers.dom().contains(
            #[trigger] front[i],
        ) by {
            assert(front[i] == keys[i]);
        }
        lemma_entries_of(doc, front);
        assert(doc.importers.dom().contains(last));
        assert(is_written_importer(doc.importers[last]));
        lemma_importer_entries(doc.importers[last]);
        let (a, b) = (entries_of(doc.importers, front), importer_entries(doc.importers[last]));
        assert(all == a + b);
        lemma_concat_contains(a, b);
        assert forall|n: Seq<char>, spec: PnpmDepSpecView| #[trigger]
            all.contains((n, spec)) <==> exists|i: int|
                0 <= i < keys.len() && has_entry(doc.importers[#[trigger] keys[i]], n, spec) by {
            assert((a + b).contains((n, spec)) <==> a.contains((n, spec)) || b.contains((n, spec)));
            assert(has_entry(doc.importers[last], n, spec) <==> b.contains((n, spec)));
            if a.contains((n, spec)) {
                let i = choose|i: int|
                    0 <= i < front.len() && has_entry(doc.importers[#[trigger] front[i]], n, spec);
                assert(keys[i] == front[i]);
            }
            if exists|i: int|
                0 <= i < keys.len() && has_entry(doc.importers[#[trigger] keys[i]], n, spec) {
                let i = choose|i: int|
                    0 <= i < keys.len() && has_entry(doc.importers[#[trigger] keys[i]], n, spec);
                if i < front.len() {
                    assert(front[i] == keys[i]);
                }
            }
        }
    } else {
        assert forall|n: Seq<char>, spec: PnpmDepSpecView| !(#[trigger] all.contains((n, spec))) by {
        }
    }
}

/// The entries of all importers are the direct dependencies.
proof fn lemma_entries(doc: PnpmLockfileView)
    requires
        is_written(doc),
    ensures
        forall|n: Seq<char>, spec: PnpmDepSpecView|
            all_entries(doc.importers).contains((n, spec)) <==> #[trigger] is_entry(doc, n, spec),
{
    let keys = sorted_keys(doc.importers.dom());
    lemma_listing(doc.importers.dom());
    assert forall|i: int| 0 <= i < keys.len() implies doc.importers.dom().contains(
        #[trigger] keys[i],
    ) by {
        assert(keys.contains(keys[i]));
    }
    lemma_entries_of(doc, keys);
    assert forall|n: Seq<char>, spec: PnpmDepSpecView| all_entries(doc.importers).contains(
        (n, spec),
    ) <==> #[trigger] is_entry(doc, n, spec) by {
        if all_entries(doc.importers).contains((n, spec)) {
            let i = choose|i: int|
                0 <= i < keys.len() && has_entry(doc.importers[#[trigger] keys[i]], n, spec);
            assert(doc.importers.dom().contains(keys[i]));
        }
        if is_entry(doc, n, spec) {
            let path = choose|path: Seq<char>|
                #![trigger doc.importers.dom().contains(path)]
                doc.importers.dom().contains(path) && has_entry(doc.importers[path], n, spec);
            assert(keys.contains(path));
            let i = choose|i: int| 0 <= i < keys.len() && keys[i] == path;
            assert(has_entry(doc.importers[keys[i]], n, spec));
        }
    }
}

/// Whether a key is that of a direct dependency on a source.
spec fn is_key_of(entries: Seq<Entry>, q: Seq<char>, n: Seq<char>, w: Seq<char>) -> bool {
    &&& direct_source(w) is Some
    &&& local_key(n, w) == q
    &&& exists|i: int| 0 <= i < entries.len() && (#[trigger] entries[i]).0 == n
        && entries[i].1.version == w
}

/// The packages that a list of entries depends on by their sources.
proof fn lemma_add_locals(entries: Seq<Entry>)
    ensures
        ({
            let m = add_locals(Map::empty(), entries);
            &&& m.dom().finite()
            &&& forall|q: Seq<char>| #[trigger]
                m.dom().contains(q) ==> exists|n: Seq<char>, w: Seq<char>| #[trigger]
                    is_key_of(entries, q, n, w) && m[q] == direct_local_package(
                        n,
                        direct_source(w)->0,
                    )
            &&& forall|q: Seq<char>, n: Seq<char>, w: Seq<char>| #[trigger]
                is_key_of(entries, q, n, w) ==> m.dom().contains(q)
        }),
    decreases entries.len(),
{
    if entries.len() > 0 {
        let front = entries.drop_last();
        let last = entries.len() - 1;
        let (was, now) = (add_locals(Map::empty(), front), add_locals(Map::empty(), entries));
        lemma_add_locals(front);
        let (name, spec) = entries[last];
        assert forall|q: Seq<char>| #[trigger] now.dom().contains(q) implies exists|
            n: Seq<char>,
            w: Seq<char>,
        | #[trigger]
            is_key_of(entries, q, n, w) && now[q] == direct_local_package(
                n,
                direct_source(w)->0,
            ) by {
            if was.dom().contains(q) {
                let (n, w) = choose|n: Seq<char>, w: Seq<char>| #[trigger]
                    is_key_of(front, q, n, w) && was[q] == direct_local_package(
                        n,
                        direct_source(w)->0,
                    );
                let i = choose|i: int| 0 <= i < front.len() && (#[trigger] front[i]).0 == n
                    && front[i].1.version == w;
                assert(entries[i] == front[i]);
                assert(is_key_of(entries, q, n, w));
            } else {
                assert(entries[last].0 == name && entries[last].1.version == spec.version);
                assert(is_key_of(entries, q, name, spec.version));
            }
        }
        assert forall|q: Seq<char>, n: Seq<char>, w: Seq<char>| #[trigger]
            is_key_of(entries, q, n, w) implies now.dom().contains(q) by {
            let i = choose|i: int| 0 <= i < entries.len() && (#[trigger] entries[i]).0 == n
                && entries[i].1.version == w;
            if i < last {
                assert(front[i] == entries[i]);
                assert(is_key_of(front, q, n, w));
            }
        }
    }
}

proof fn lemma_first_peerless(keys: Seq<Seq<char>>, canonical: Seq<char>)
    ensures
        first_peerless(keys, canonical) matches Some(k) ==> keys.contains(k) && is_peerless(
            k,
            canonical,
        ),
    decreases keys.len(),
{
    if keys.len() > 0 {
        let front = keys.drop_last();
        lemma_first_peerless(front, canonical);
        if let Some(k) = first_peerless(front, canonical) {
            let i = choose|i: int| 0 <= i < front.len() && front[i] == k;
            assert(keys[i] == k);
        } else {
            assert(keys[keys.len() - 1] == keys.last());
        }
    }
}

/// The snapshot of a package that is depended on by a source.
proof fn lemma_local_snapshot(doc: PnpmLockfileView, n: Seq<char>, w: Seq<char>)
    requires
        is_written(doc),
        is_local(doc, n, w),
    ensures
        is_written_local(doc, n, w),
        local_snapshot(doc.snapshots, dep_path(n, w)) == lookup(doc.snapshots, dep_path(n, w)),
        local_canonical(local_package(doc, n, w)) == dep_path(n, w),
        local_canonical(direct_local_package(n, direct_source(w)->0)) == dep_path(n, w),
        local_package(doc, n, w).dep_path == local_key(n, w),
        is_link(local_package(doc, n, w)) <==> !doc.snapshots.dom().contains(dep_path(n, w)),
{
    let spec = choose|spec: PnpmDepSpecView| #[trigger]
        is_entry(doc, n, spec) && spec.version == w;
    assert(is_entry(doc, n, spec));
    let keys = sorted_keys(doc.snapshots.dom());
    let key = dep_path(n, w);
    lemma_listing(doc.snapshots.dom());
    lemma_first_peerless(keys, key);
    if let Some(k) = first_peerless(keys, key) {
        assert(keys.contains(k));
        assert(doc.snapshots.dom().contains(k));
        assert(k == key);
    }
}

proof fn lemma_local_packages(
    doc: PnpmLockfileView,
    locals: Map<Seq<char>, LockedPackageView>,
    keys: Seq<Seq<char>>,
)
    requires
        forall|i: int|
            0 <= i < keys.len() ==> harvested(doc, locals[#[trigger] keys[i]]).dep_path == keys[i],
    ensures
        ({
            let m = local_packages(doc, locals, keys);
            &&& m.dom().finite()
            &&& forall|q: Seq<char>| #[trigger] m.dom().contains(q) <==> keys.contains(q)
            &&& forall|q: Seq<char>| #[trigger]
                m.dom().contains(q) ==> m[q] == harvested(doc, locals[q])
        }),
    decreases keys.len(),
{
    if keys.len() > 0 {
        let front = keys.drop_last();
        let last = keys.len() - 1;
        assert forall|i: int| 0 <= i < front.len() implies harvested(
            doc,
            locals[#[trigger] front[i]],
        ).dep_path == front[i] by {
            assert(front[i] == keys[i]);
        }
        lemma_local_packages(doc, locals, front);
        let m = local_packages(doc, locals, keys);
        let was = local_packages(doc, locals, front);
        assert(keys[last] == keys.last());
        assert forall|q: Seq<char>| #[trigger] m.dom().contains(q) <==> keys.contains(q) by {
            assert(was.dom().contains(q) <==> front.contains(q));
            if front.contains(q) {
                let i = choose|i: int| 0 <= i < front.len() && front[i] == q;
                assert(keys[i] == q);
            }
            if keys.contains(q) && q != keys[last] {
                let i = choose|i: int| 0 <= i < keys.len() && keys[i] == q;
                assert(front[i] == q);
            }
        }
    } else {
        assert forall|q: Seq<char>| !(#[trigger] keys.contains(q)) by {}
    }
}

/// The packages that are depended on by their sources, under their keys.
proof fn lemma_locals(doc: PnpmLockfileView)
    requires
        is_written(doc),
    ensures
        ({
            let found = add_locals(Map::empty(), all_entries(doc.importers));
            let keys = sorted_keys(found.dom());
            let locals = graph_locals(doc);
            &&& is_listing(keys, found.dom())
            &&& locals.dom().finite()
            &&& locals.dom() == found.dom()
            &&& forall|q: Seq<char>| #[trigger]
                locals.dom().contains(q) ==> exists|n: Seq<char>, w: Seq<char>| #[trigger]
                    is_local(doc, n, w) && q == local_key(n, w)
            &&& forall|n: Seq<char>, w: Seq<char>| #[trigger]
                is_local(doc, n, w) ==> locals.dom().contains(local_key(n, w))
                    && locals[local_key(n, w)] == local_package(doc, n, w)
                    && found[local_key(n, w)] == direct_local_package(n, direct_source(w)->0)
            &&& forall|k: Seq<char>| #[trigger]
                doc.snapshots.dom().contains(k) ==> (is_absorbed(canonical_keys(locals), k)
                    <==> is_local_key(doc, k))
        }),
{
    let entries = all_entries(doc.importers);
    let found = add_locals(Map::empty(), entries);
    let keys = sorted_keys(found.dom());
    lemma_entries(doc);
    lemma_add_locals(entries);
    lemma_listing(found.dom());
    assert forall|q: Seq<char>, n: Seq<char>, w: Seq<char>| #[trigger]
        is_key_of(entries, q, n, w) implies is_local(doc, n, w) && q == local_key(n, w) by {
        let i = choose|i: int| 0 <= i < entries.len() && (#[trigger] entries[i]).0 == n
            && entries[i].1.version == w;
        assert(entries.contains((n, entries[i].1)));
        assert(is_entry(doc, n, entries[i].1));
    }
    assert forall|n: Seq<char>, w: Seq<char>| #[trigger] is_local(doc, n, w) implies is_key_of(
        entries,
        local_key(n, w),
        n,
        w,
    ) by {
        let spec = choose|spec: PnpmDepSpecView| #[trigger]
            is_entry(doc, n, spec) && spec.version == w;
        assert(entries.contains((n, spec)));
        let i = choose|i: int| 0 <= i < entries.len() && entries[i] == (n, spec);
        assert(entries[i].0 == n);
    }
    assert forall|n: Seq<char>, w: Seq<char>| #[trigger] is_local(doc, n, w) implies
        found.dom().contains(local_key(n, w)) && found[local_key(n, w)] == direct_local_package(
        n,
        direct_source(w)->0,
    ) by {
        let q = local_key(n, w);
        assert(is_key_of(entries, q, n, w));
        let (m, x) = choose|m: Seq<char>, x: Seq<char>| #[trigger]
            is_key_of(entries, q, m, x) && found[q] == direct_local_package(
                m,
                direct_source(x)->0,
            );
        assert(is_local(doc, m, x));
        assert(local_key(n, w) == local_key(m, x));
    }
    assert forall|i: int| 0 <= i < keys.len() implies harvested(
        doc,
        found[#[trigger] keys[i]],
    ).dep_path == keys[i] by {
        let q = keys[i];
        assert(keys.contains(q));
        assert(found.dom().contains(q));
        let (m, x) = choose|m: Seq<char>, x: Seq<char>| #[trigger]
            is_key_of(entries, q, m, x) && found[q] == direct_local_package(
                m,
                direct_source(x)->0,
            );
        assert(is_local(doc, m, x));
        lemma_local_snapshot(doc, m, x);
    }
    lemma_local_packages(doc, found, keys);
    let locals = graph_locals(doc);
    assert forall|q: Seq<char>| #[trigger] locals.dom().contains(q) <==> found.dom().contains(q) by {
        assert(keys.contains(q) <==> found.dom().contains(q));
    }
    assert(locals.dom() =~= found.dom());
    assert forall|q: Seq<char>| #[trigger] locals.dom().contains(q) implies exists|
        n: Seq<char>,
        w: Seq<char>,
    | #[trigger] is_local(doc, n, w) && q == local_key(n, w) by {
        assert(found.dom().contains(q));
        let (m, x) = choose|m: Seq<char>, x: Seq<char>| #[trigger] is_key_of(entries, q, m, x);
        assert(is_local(doc, m, x));
    }
    let canonical = canonical_keys(locals);
    assert forall|k: Seq<char>| #[trigger] canonical.contains(k) <==> is_local_key(doc, k) by {
        if canonical.contains(k) {
            let q = choose|q: Seq<char>| #[trigger]
                locals.dom().contains(q) && local_canonical(locals[q]) == k;
            let (n, w) = choose|n: Seq<char>, w: Seq<char>| #[trigger]
                is_local(doc, n, w) && q == local_key(n, w);
            lemma_local_snapshot(doc, n, w);
            assert(locals[q] == local_package(doc, n, w));
        }
        if is_local_key(doc, k) {
            let (n, w) = choose|n: Seq<char>, w: Seq<char>| #[trigger]
                is_local(doc, n, w) && k == dep_path(n, w);
            lemma_local_snapshot(doc, n, w);
            assert(locals.dom().contains(local_key(n, w)));
            assert(local_canonical(locals[local_key(n, w)]) == k);
        }
    }
    assert forall|k: Seq<char>| #[trigger] doc.snapshots.dom().contains(k) implies (is_absorbed(
        canonical,
        k,
    ) <==> is_local_key(doc, k)) by {
        if is_absorbed(canonical, k) && !canonical.contains(k) {
            let (name, version) = dep_path_parts(k)->0;
            let key = dep_path(name, version);
            assert(canonical.contains(key));
            let (n, w) = choose|n: Seq<char>, w: Seq<char>| #[trigger]
                is_local(doc, n, w) && key == dep_path(n, w);
            lemma_local_snapshot(doc, n, w);
            assert(is_peerless(k, key));
        }
    }
}

proof fn lemma_aliases_among(names: Seq<Seq<char>>, deps: Map<Seq<char>, Seq<char>>)
    ensures
        forall|a: AliasRemapView| #[trigger]
            aliases_among(names, deps).contains(a) <==> exists|i: int|
                0 <= i < names.len() && alias_remap(#[trigger] names[i], deps[names[i]]) == Some(a),
    decreases names.len(),
{
    let all = aliases_among(names, deps);
    if names.len() > 0 {
        let front = names.drop_last();
        lemma_aliases_among(front, deps);
        let before = aliases_among(front, deps);
        let n = names.len() - 1;
        let here = match alias_remap(names[n], deps[names[n]]) {
            Some(a) => seq![a],
            None => Seq::empty(),
        };
        assert(all =~= before + here);
        lemma_concat_contains(before, here);
        assert forall|a: AliasRemapView| #[trigger] all.contains(a) <==> exists|i: int|
            0 <= i < names.len() && alias_remap(#[trigger] names[i], deps[names[i]]) == Some(a) by {
            assert((before + here).contains(a) <==> before.contains(a) || here.contains(a));
            if before.contains(a) {
                let i = choose|i: int|
                    0 <= i < front.len() && alias_remap(#[trigger] front[i], deps[front[i]])
                        == Some(a);
                assert(names[i] == front[i]);
            }
            if here.contains(a) {
                assert(here[0] == a);
                assert(alias_remap(names[n], deps[names[n]]) == Some(a));
            }
            if exists|i: int|
                0 <= i < names.len() && alias_remap(#[trigger] names[i], deps[names[i]]) == Some(
                    a,
                ) {
                let i = choose|i: int|
                    0 <= i < names.len() && alias_remap(#[trigger] names[i], deps[names[i]])
                        == Some(a);
                if i < n {
                    assert(front[i] == names[i]);
                } else {
                    assert(here[0] == a);
                }
            }
        }
    }
}

/// Whether an alias is that of a name and a value in a section.
spec fn is_alias_in(deps: Option<Map<Seq<char>, Seq<char>>>, a: AliasRemapView) -> bool {
    exists|n: Seq<char>, w: Seq<char>| #[trigger]
        holds(deps, n, w) && alias_remap(n, w) == Some(a)
}

proof fn lemma_opt_aliases(deps: Option<Map<Seq<char>, Seq<char>>>)
    requires
        is_terse(deps),
    ensures
        forall|a: AliasRemapView|
            opt_aliases(deps).contains(a) <==> #[trigger] is_alias_in(deps, a),
{
    if let Some(d) = deps {
        let q = sorted_keys(d.dom());
        lemma_listing(d.dom());
        lemma_aliases_among(q, d);
        assert forall|a: AliasRemapView| opt_aliases(deps).contains(a) <==> #[trigger] is_alias_in(
            deps,
            a,
        ) by {
            if opt_aliases(deps).contains(a) {
                let i = choose|i: int|
                    0 <= i < q.len() && alias_remap(#[trigger] q[i], d[q[i]]) == Some(a);
                assert(q.contains(q[i]));
                assert(d.dom().contains(q[i]));
                assert(holds(deps, q[i], d[q[i]]));
            }
            if is_alias_in(deps, a) {
                let (n, w) = choose|n: Seq<char>, w: Seq<char>| #[trigger]
                    holds(deps, n, w) && alias_remap(n, w) == Some(a);
                assert(q.contains(n));
                let i = choose|i: int| 0 <= i < q.len() && q[i] == n;
                assert(alias_remap(q[i], d[q[i]]) == Some(a));
            }
        }
    }
}

/// Whether an alias is that of a dependency of a snapshot.
spec fn is_alias_at(doc: PnpmLockfileView, k: Seq<char>, a: AliasRemapView) -> bool {
    is_alias_in(snapshot_at(doc, k).dependencies, a) || is_alias_in(
        snapshot_at(doc, k).optional_dependencies,
        a,
    )
}

/// Whether an alias is that of a dependency of a snapshot that is not absorbed.
spec fn is_alias_of(
    doc: PnpmLockfileView,
    canonical: Set<Seq<char>>,
    k: Seq<char>,
    a: AliasRemapView,
) -> bool {
    !is_absorbed(canonical, k) && is_alias_at(doc, k, a)
}

proof fn lemma_snapshot_aliases(
    doc: PnpmLockfileView,
    canonical: Set<Seq<char>>,
    keys: Seq<Seq<char>>,
)
    requires
        forall|i: int|
            0 <= i < keys.len() ==> is_written_snapshot(snapshot_at(doc, #[trigger] keys[i])),
    ensures
        forall|a: AliasRemapView| #[trigger]
            snapshot_aliases(doc, canonical, keys).contains(a) <==> exists|i: int|
                0 <= i < keys.len() && is_alias_of(doc, canonical, #[trigger] keys[i], a),
    decreases keys.len(),
{
    let all = snapshot_aliases(doc, canonical, keys);
    if keys.len() > 0 {
        let front = keys.drop_last();
        let n = keys.len() - 1;
        assert forall|i: int| 0 <= i < front.len() implies is_written_snapshot(
            snapshot_at(doc, #[trigger] front[i]),
        ) by {
            assert(front[i] == keys[i]);
        }
        lemma_snapshot_aliases(doc, canonical, front);
        let before = snapshot_aliases(doc, canonical, front);
        assert(is_written_snapshot(snapshot_at(doc, keys[n])));
        let s = snapshot_at(doc, keys[n]);
        let (x, y) = (opt_aliases(s.dependencies), opt_aliases(s.optional_dependencies));
        lemma_opt_aliases(s.dependencies);
        lemma_opt_aliases(s.optional_dependencies);
        let here = if is_absorbed(canonical, keys[n]) {
            Seq::empty()
        } else {
            x + y
        };
        assert(all =~= before + here);
        lemma_concat_contains(before, here);
        lemma_concat_contains(x, y);
        assert forall|a: AliasRemapView| #[trigger] all.contains(a) <==> exists|i: int|
            0 <= i < keys.len() && is_alias_of(doc, canonical, #[trigger] keys[i], a) by {
            assert((before + here).contains(a) <==> before.contains(a) || here.contains(a));
            assert((x + y).contains(a) <==> x.contains(a) || y.contains(a));
            assert(is_alias_in(s.dependencies, a) <==> x.contains(a));
            assert(is_alias_in(s.optional_dependencies, a) <==> y.contains(a));
            if before.contains(a) {
                let i = choose|i: int|
                    0 <= i < front.len() && is_alias_of(doc, canonical, #[trigger] front[i], a);
                assert(keys[i] == front[i]);
            }
            if here.contains(a) {
                assert(is_alias_of(doc, canonical, keys[n], a));
            }
            if exists|i: int|
                0 <= i < keys.len() && is_alias_of(doc, canonical, #[trigger] keys[i], a) {
                let i = choose|i: int|
                    0 <= i < keys.len() && is_alias_of(doc, canonical, #[trigger] keys[i], a);
                if i < n {
                    assert(front[i] == keys[i]);
                }
            }
        }
    }
}

/// Whether an alias is that of an entry.
spec fn is_alias_by(e: Entry, a: AliasRemapView) -> bool {
    direct_source(e.1.version) is None && alias_remap(e.0, e.1.version) == Some(a)
}

proof fn lemma_entry_aliases(entries: Seq<Entry>)
    ensures
        forall|a: AliasRemapView| #[trigger]
            entry_aliases(entries).contains(a) <==> exists|i: int|
                0 <= i < entries.len() && is_alias_by(#[trigger] entries[i], a),
    decreases entries.len(),
{
    let all = entry_aliases(entries);
    if entries.len() > 0 {
        let front = entries.drop_last();
        let n = entries.len() - 1;
        lemma_entry_aliases(front);
        let before = entry_aliases(front);
        let e = entries[n];
        let here = match (direct_source(e.1.version), alias_remap(e.0, e.1.version)) {
            (None, Some(a)) => seq![a],
            _ => Seq::empty(),
        };
        assert(all =~= before + here);
        lemma_concat_contains(before, here);
        assert forall|a: AliasRemapView| #[trigger] all.contains(a) <==> exists|i: int|
            0 <= i < entries.len() && is_alias_by(#[trigger] entries[i], a) by {
            assert((before + here).contains(a) <==> before.contains(a) || here.contains(a));
            if before.contains(a) {
                let i = choose|i: int| 0 <= i < front.len() && is_alias_by(#[trigger] front[i], a);
                assert(entries[i] == front[i]);
            }
            if here.contains(a) {
                assert(here[0] == a);
                assert(is_alias_by(entries[n], a));
            }
            if exists|i: int| 0 <= i < entries.len() && is_alias_by(#[trigger] entries[i], a) {
                let i = choose|i: int|
                    0 <= i < entries.len() && is_alias_by(#[trigger] entries[i], a);
                if i < n {
                    assert(front[i] == entries[i]);
                } else {
                    assert(here[0] == a);
                }
            }
        }
    }
}

proof fn lemma_local_aliases(
    doc: PnpmLockfileView,
    locals: Map<Seq<char>, LockedPackageView>,
    keys: Seq<Seq<char>>,
)
    ensures
        forall|a: AliasRemapView| #[trigger]
            local_aliases(doc, locals, keys).contains(a) <==> exists|i: int|
                0 <= i < keys.len() && harvested_aliases(
                    doc,
                    locals[#[trigger] keys[i]],
                ).contains(a),
    decreases keys.len(),
{
    let all = local_aliases(doc, locals, keys);
    if keys.len() > 0 {
        let front = keys.drop_last();
        let n = keys.len() - 1;
        lemma_local_aliases(doc, locals, front);
        let before = local_aliases(doc, locals, front);
        let here = harvested_aliases(doc, locals[keys[n]]);
        assert(all == before + here);
        lemma_concat_contains(before, here);
        assert forall|a: AliasRemapView| #[trigger] all.contains(a) <==> exists|i: int|
            0 <= i < keys.len() && harvested_aliases(doc, locals[#[trigger] keys[i]]).contains(
                a,
            ) by {
            assert((before + here).contains(a) <==> before.contains(a) || here.contains(a));
            if before.contains(a) {
                let i = choose|i: int|
                    0 <= i < front.len() && harvested_aliases(
                        doc,
                        locals[#[trigger] front[i]],
                    ).contains(a);
                assert(keys[i] == front[i]);
            }
            if here.contains(a) {
                assert(harvested_aliases(doc, locals[keys[n]]).contains(a));
            }
            if exists|i: int|
                0 <= i < keys.len() && harvested_aliases(
                    doc,
                    locals[#[trigger] keys[i]],
                ).contains(a) {
                let i = choose|i: int|
                    0 <= i < keys.len() && harvested_aliases(
                        doc,
                        locals[#[trigger] keys[i]],
                    ).contains(a);
                if i < n {
                    assert(front[i] == keys[i]);
                }
            }
        }
    }
}

/// The aliases in the snapshot of a package that is depended on by a source.
proof fn lemma_harvested_aliases(doc: PnpmLockfileView, n: Seq<char>, w: Seq<char>)
    requires
        is_written(doc),
        is_local(doc, n, w),
    ensures
        forall|a: AliasRemapView| #[trigger]
            harvested_aliases(
                doc,
                direct_local_package(n, direct_source(w)->0),
            ).contains(a) <==> is_alias_at(doc, dep_path(n, w), a),
{
    let key = dep_path(n, w);
    let all = harvested_aliases(doc, direct_local_package(n, direct_source(w)->0));
    lemma_local_snapshot(doc, n, w);
    if doc.snapshots.dom().contains(key) {
        let s = doc.snapshots[key];
        assert(is_written_snapshot(s));
        let (x, y) = (opt_aliases(s.dependencies), opt_aliases(s.optional_dependencies));
        lemma_opt_aliases(s.dependencies);
        lemma_opt_aliases(s.optional_dependencies);
        lemma_concat_contains(x, y);
        assert forall|a: AliasRemapView| #[trigger] all.contains(a) <==> is_alias_at(
            doc,
            key,
            a,
        ) by {
            assert((x + y).contains(a) <==> x.contains(a) || y.contains(a));
            assert(is_alias_in(s.dependencies, a) <==> x.contains(a));
            assert(is_alias_in(s.optional_dependencies, a) <==> y.contains(a));
        }
    } else {
        assert forall|a: AliasRemapView| !(#[trigger] all.contains(a)) && !is_alias_at(
            doc,
            key,
            a,
        ) by {}
    }
}

proof fn lemma_alias_is_named(doc: PnpmLockfileView, k: Seq<char>, a: AliasRemapView)
    requires
        doc.snapshots.dom().contains(k),
        is_alias_at(doc, k, a),
    ensures
        is_named(doc, a),
{
    let s = doc.snapshots[k];
    if is_alias_in(s.dependencies, a) {
        let (n, w) = choose|n: Seq<char>, w: Seq<char>| #[trigger]
            holds(s.dependencies, n, w) && alias_remap(n, w) == Some(a);
        assert(is_edge(doc, n, w));
        assert(is_mentioned(doc, n, w));
    } else {
        let (n, w) = choose|n: Seq<char>, w: Seq<char>| #[trigger]
            holds(s.optional_dependencies, n, w) && alias_remap(n, w) == Some(a);
        assert(is_edge(doc, n, w));
        assert(is_mentioned(doc, n, w));
    }
}

/// Whether an alias is that of a dependency that is recorded.
spec fn is_named(doc: PnpmLockfileView, a: AliasRemapView) -> bool {
    exists|n: Seq<char>, w: Seq<char>| #[trigger]
        is_mentioned(doc, n, w) && alias_remap(n, w) == Some(a)
}

/// The aliases are those of the dependencies that are recorded.
proof fn lemma_graph_aliases(doc: PnpmLockfileView)
    requires
        is_written(doc),
    ensures
        forall|a: AliasRemapView| graph_aliases(doc).contains(a) <==> #[trigger] is_named(doc, a),
{
    let entries = all_entries(doc.importers);
    let found = add_locals(Map::empty(), entries);
    let local_keys = sorted_keys(found.dom());
    let canonical = canonical_keys(graph_locals(doc));
    let keys = sorted_keys(package_keys(doc));
    lemma_locals(doc);
    lemma_entries(doc);
    lemma_package_keys(doc);
    lemma_listing(package_keys(doc));
    lemma_entry_aliases(entries);
    lemma_local_aliases(doc, found, local_keys);
    assert forall|i: int| 0 <= i < keys.len() implies is_written_snapshot(
        snapshot_at(doc, #[trigger] keys[i]),
    ) && doc.snapshots.dom().contains(keys[i]) by {
        assert(keys.contains(keys[i]));
        assert(doc.snapshots.dom().contains(keys[i]));
    }
    lemma_snapshot_aliases(doc, canonical, keys);
    let (x, y, z) = (
        entry_aliases(entries),
        local_aliases(doc, found, local_keys),
        snapshot_aliases(doc, canonical, keys),
    );
    lemma_concat_contains(x, y);
    lemma_concat_contains(x + y, z);
    assert forall|a: AliasRemapView| graph_aliases(doc).contains(a) <==> #[trigger] is_named(
        doc,
        a,
    ) by {
        assert((x + y + z).contains(a) <==> (x + y).contains(a) || z.contains(a));
        assert((x + y).contains(a) <==> x.contains(a) || y.contains(a));
        if x.contains(a) {
            let i = choose|i: int| 0 <= i < entries.len() && is_alias_by(#[trigger] entries[i], a);
            assert(entries.contains((entries[i].0, entries[i].1)));
            assert(is_entry(doc, entries[i].0, entries[i].1));
            assert(is_mentioned(doc, entries[i].0, entries[i].1.version));
        }
        if y.contains(a) {
            let i = choose|i: int|
                0 <= i < local_keys.len() && harvested_aliases(
                    doc,
                    found[#[trigger] local_keys[i]],
                ).contains(a);
            let q = local_keys[i];
            assert(local_keys.contains(q));
            assert(graph_locals(doc).dom().contains(q));
            let (n, w) = choose|n: Seq<char>, w: Seq<char>| #[trigger]
                is_local(doc, n, w) && q == local_key(n, w);
            lemma_harvested_aliases(doc, n, w);
            assert(is_alias_at(doc, dep_path(n, w), a));
            lemma_alias_is_named(doc, dep_path(n, w), a);
        }
        if z.contains(a) {
            let i = choose|i: int|
                0 <= i < keys.len() && is_alias_of(doc, canonical, #[trigger] keys[i], a);
            lemma_alias_is_named(doc, keys[i], a);
        }
        if is_named(doc, a) {
            let (n, w) = choose|n: Seq<char>, w: Seq<char>| #[trigger]
                is_mentioned(doc, n, w) && alias_remap(n, w) == Some(a);
            if is_edge(doc, n, w) {
                let k = choose|k: Seq<char>|
                    #![trigger doc.snapshots.dom().contains(k)]
                    doc.snapshots.dom().contains(k) && (holds(
                        doc.snapshots[k].dependencies,
                        n,
                        w,
                    ) || holds(doc.snapshots[k].optional_dependencies, n, w));
                assert(is_alias_at(doc, k, a));
                if is_local_key(doc, k) {
                    let (m, x) = choose|m: Seq<char>, x: Seq<char>| #[trigger]
                        is_local(doc, m, x) && k == dep_path(m, x);
                    lemma_harvested_aliases(doc, m, x);
                    let q = local_key(m, x);
                    assert(graph_locals(doc).dom().contains(q));
                    assert(local_keys.contains(q));
                    let i = choose|i: int| 0 <= i < local_keys.len() && local_keys[i] == q;
                    assert(harvested_aliases(doc, found[local_keys[i]]).contains(a));
                } else {
                    assert(keys.contains(k));
                    let i = choose|i: int| 0 <= i < keys.len() && keys[i] == k;
                    assert(is_alias_of(doc, canonical, keys[i], a));
                }
            } else {
                let spec = choose|spec: PnpmDepSpecView| #[trigger]
                    is_entry(doc, n, spec) && spec.version == w;
                assert(entries.contains((n, spec)));
                let i = choose|i: int| 0 <= i < entries.len() && entries[i] == (n, spec);
                assert(is_alias_by(entries[i], a));
            }
        }
    }
}

proof fn lemma_package_keys(doc: PnpmLockfileView)
    requires
        is_written(doc),
    ensures
        package_keys(doc) == doc.snapshots.dom(),
{
    if doc.snapshots == Map::<Seq<char>, PnpmSnapshotView>::empty() {
        assert forall|q: Seq<char>| !(#[trigger] doc.packages.dom().contains(q)) by {
            if doc.packages.dom().contains(q) {
                let k = choose|k: Seq<char>| #[trigger]
                    doc.snapshots.dom().contains(k) && is_record_of(doc, q, k);
                assert(false);
            }
        }
        assert(doc.packages.dom() =~= doc.snapshots.dom());
    }
}

/// A package under an alias.
spec fn aliased(p: LockedPackageView, a: AliasRemapView) -> LockedPackageView {
    LockedPackageView {
        name: a.alias_name,
        dep_path: a.alias_dep_path,
        alias_of: Some(a.real_name),
        ..p
    }
}

/// Whether a package is one under an alias of a list.
spec fn is_aliased(
    packages: Map<Seq<char>, LockedPackageView>,
    remaps: Seq<AliasRemapView>,
    q: Seq<char>,
    p: LockedPackageView,
) -> bool {
    exists|a: AliasRemapView| #[trigger]
        remaps.contains(a) && a.alias_dep_path == q && p == aliased(packages[a.real_dep_path], a)
}

proof fn lemma_with_aliases(
    packages: Map<Seq<char>, LockedPackageView>,
    remaps: Seq<AliasRemapView>,
)
    requires
        forall|a: AliasRemapView| #[trigger]
            remaps.contains(a) ==> packages.dom().contains(a.real_dep_path),
    ensures
        with_aliases(packages, remaps) matches Ok(m) && {
            &&& packages.submap_of(m)
            &&& m.dom().finite() <== packages.dom().finite()
            &&& forall|q: Seq<char>| #[trigger]
                m.dom().contains(q) ==> packages.dom().contains(q) || is_aliased(
                    packages,
                    remaps,
                    q,
                    m[q],
                )
            &&& forall|a: AliasRemapView| #[trigger]
                remaps.contains(a) ==> m.dom().contains(a.alias_dep_path)
        },
    decreases remaps.len(),
{
    if remaps.len() > 0 {
        let front = remaps.drop_last();
        let last = remaps[remaps.len() - 1];
        assert forall|a: AliasRemapView| #[trigger] front.contains(a) implies packages.dom().contains(
            a.real_dep_path,
        ) && remaps.contains(a) by {
            let i = choose|i: int| 0 <= i < front.len() && front[i] == a;
            assert(remaps[i] == a);
            assert(remaps.contains(a));
        }
        lemma_with_aliases(packages, front);
        let was = with_aliases(packages, front)->Ok_0;
        assert(remaps.contains(last));
        assert(packages.dom().contains(last.real_dep_path));
        assert(was.dom().contains(last.real_dep_path));
        let m = with_aliases(packages, remaps)->Ok_0;
        assert forall|q: Seq<char>| #[trigger] m.dom().contains(q) implies packages.dom().contains(q)
            || is_aliased(packages, remaps, q, m[q]) by {
            if was.dom().contains(q) && !packages.dom().contains(q) {
                assert(m[q] == was[q]);
                let a = choose|a: AliasRemapView| #[trigger]
                    front.contains(a) && a.alias_dep_path == q && was[q] == aliased(
                        packages[a.real_dep_path],
                        a,
                    );
                assert(remaps.contains(a));
            } else if !was.dom().contains(q) {
                assert(m[q] == aliased(packages[last.real_dep_path], last));
            }
        }
        assert forall|a: AliasRemapView| #[trigger] remaps.contains(a) implies m.dom().contains(
            a.alias_dep_path,
        ) by {
            let i = choose|i: int| 0 <= i < remaps.len() && remaps[i] == a;
            if i < front.len() {
                assert(front[i] == a);
                assert(front.contains(a));
            }
        }
    } else {
        assert forall|a: AliasRemapView| !(#[trigger] remaps.contains(a)) by {}
    }
}

proof fn lemma_tail(n: Seq<char>, v: Seq<char>)
    ensures
        tail(dep_path(n, v), n) == v,
{
    let s = dep_path(n, v);
    let lead = n + "@"@;
    assert(s.take(lead.len() as int) =~= lead);
    assert(s.skip(lead.len() as int) =~= v);
    assert(lead.is_prefix_of(s));
}

/// The peer suffix tells nothing about the name and the version of a dep path.
proof fn lemma_bare_parts(w: Seq<char>)
    ensures
        dep_path_parts(until(w, '(')) is Some ==> dep_path_parts(w) == dep_path_parts(
            until(w, '('),
        ),
{
    let b = until(w, '(');
    lemma_find_char(w, '(');
    if dep_path_parts(b) is Some && find_char(w, '(') is Some {
        let end = find_char(w, '(')->0;
        assert(b == w.take(end));
        let (s, t) = (without_slash(b), without_slash(w));
        let m = s.len() as int;
        assert(s =~= t.take(m));
        assert(t[m] == '(') by {
            if w[0] == '/' {
                assert(t[m] == w[end]);
            }
        }
        assert forall|j: int| 0 <= j < m implies s[j] != '(' && s[j] == t[j] by {
            if w[0] == '/' {
                assert(s[j] == w[j + 1]);
            } else {
                assert(s[j] == w[j]);
            }
        }
        lemma_find_char(s, '@');
        lemma_find_char(s, '/');
        let at = version_separator(s)->0;
        if s[0] == '@' {
            let slash = find_char(s, '/')->0;
            lemma_find_char_from(s, '@', slash + 1);
            lemma_find_char_at(t, '/', slash);
            lemma_find_char_from_at(t, '@', slash + 1, at);
        } else {
            lemma_find_char_at(t, '@', at);
        }
        assert(version_separator(t) == Some(at));
        assert(t.take(at) =~= s.take(at));
        let (x, y) = (s.skip(at + 1), t.skip(at + 1));
        lemma_find_char_none_at(x, '(');
        assert(until(x, '(') == x);
        lemma_find_char_at(y, '(', m - at - 1);
        assert(until(y, '(') =~= x);
    }
}

proof fn lemma_find_char_none_at(s: Seq<char>, c: char)
    requires
        forall|j: int| 0 <= j < s.len() ==> s[j] != c,
    ensures
        find_char(s, c) is None,
{
    lemma_find_char(s, c);
}

/// What an alias of a dependency that is recorded tells.
proof fn lemma_alias(doc: PnpmLockfileView, n: Seq<char>, w: Seq<char>)
    requires
        alias_remap(n, w) is Some,
        is_written_dep(doc, n, w),
        is_written_package(doc, w),
    ensures
        ({
            let a = alias_remap(n, w)->0;
            let p = locked_package(doc, w);
            &&& a.alias_name == n
            &&& a.real_dep_path == w
            &&& a.alias_dep_path == dep_path(n, resolved_tail(n, w))
            &&& tail(a.alias_dep_path, n) == resolved_tail(n, w)
            &&& p.name == a.real_name
            &&& dep_path(p.name, p.version) == dep_path(
                (dep_path_parts(w)->0).0,
                (dep_path_parts(w)->0).1,
            )
            &&& dep_path_parts(a.alias_dep_path) == Some((n, p.version))
            &&& !is_url_keyed(p)
            &&& !is_url_keyed(aliased(p, a))
        }),
{
    let a = alias_remap(n, w)->0;
    let p = locked_package(doc, w);
    let bare = until(w, '(');
    lemma_bare_parts(w);
    lemma_tail(n, resolved_tail(n, w));
    let (name, version) = dep_path_parts(bare)->0;
    assert(dep_path_parts(w) == Some((name, version)));
    let info = package_info(doc, w)->0;
    assert(p.name == name && p.version == version) by {
        if is_http_url(version) && http_tarball(info.resolution) is Some {
            assert(p.local_source is Some);
        }
    }
    law_dep_path_parts(n, resolved_tail(n, w));
    lemma_resolved_version(n, w);
    if p.tarball_url == Some(version) {
        assert(is_http_url(version));
        assert(p.local_source is Some);
    }
}

/// The version in front of a peer suffix.
proof fn lemma_resolved_version(n: Seq<char>, w: Seq<char>)
    requires
        alias_remap(n, w) is Some,
    ensures
        until(resolved_tail(n, w), '(') == (dep_path_parts(until(w, '('))->0).1,
{
    let bare = until(w, '(');
    let (name, version) = dep_path_parts(bare)->0;
    let t = without_slash(bare);
    let at = version_separator(t)->0;
    lemma_find_char(bare, '(');
    lemma_find_char(w, '(');
    lemma_find_char(t, '@');
    lemma_find_char(t, '/');
    if t[0] == '@' {
        lemma_find_char_from(t, '@', find_char(t, '/')->0 + 1);
    }
    let rest = t.skip(at + 1);
    assert forall|j: int| 0 <= j < rest.len() implies rest[j] != '(' by {
        assert(rest[j] == t[at + 1 + j]);
        if bare[0] == '/' {
            assert(t[at + 1 + j] == bare[at + 2 + j]);
        }
    }
    lemma_find_char_none_at(rest, '(');
    assert(version == rest);
    let v = resolved_tail(n, w);
    let suffix = peer_suffix(w);
    assert(v == version + suffix);
    if let Some(i) = find_char(w, '(') {
        assert(suffix[0] == '(');
        assert(v[version.len() as int] == '(');
        lemma_find_char_at(v, '(', version.len() as int);
        assert(until(v, '(') =~= version);
    } else {
        assert(v =~= version);
        assert(until(v, '(') == v);
    }
}

/// Whether a package of the graph is one under an alias that is recorded.
spec fn is_under_alias(doc: PnpmLockfileView, q: Seq<char>, p: LockedPackageView) -> bool {
    exists|n: Seq<char>, w: Seq<char>| #[trigger]
        is_alias(doc, n, w, q) && p == aliased(locked_package(doc, w), alias_remap(n, w)->0)
}

/// Whether a package of the graph is one that is depended on by a source.
spec fn is_under_source(doc: PnpmLockfileView, q: Seq<char>, p: LockedPackageView) -> bool {
    exists|n: Seq<char>, w: Seq<char>| #[trigger]
        is_local(doc, n, w) && q == local_key(n, w) && p == local_package(doc, n, w)
}

/// A graph with the packages of a lockfile: one for each snapshot, one for each
/// alias, and one for each source.
spec fn has_packages(doc: PnpmLockfileView, g: LockfileGraphView) -> bool {
    &&& g.packages.dom().finite()
    &&& forall|k: Seq<char>| #[trigger]
        doc.snapshots.dom().contains(k) && !is_local_key(doc, k) ==> g.packages.dom().contains(k)
            && g.packages[k] == locked_package(doc, k)
    &&& forall|q: Seq<char>| #[trigger]
        g.packages.dom().contains(q) ==> (doc.snapshots.dom().contains(q) && !is_local_key(doc, q))
            || is_under_alias(doc, q, g.packages[q]) || is_under_source(doc, q, g.packages[q])
    &&& forall|n: Seq<char>, w: Seq<char>| #[trigger]
        is_local(doc, n, w) ==> g.packages.dom().contains(local_key(n, w)) && g.packages[local_key(
            n,
            w,
        )] == local_package(doc, n, w)
    &&& forall|n: Seq<char>, w: Seq<char>, q: Seq<char>| #[trigger]
        is_alias(doc, n, w, q) ==> g.packages.dom().contains(q)
}

proof fn lemma_mentioned(doc: PnpmLockfileView, n: Seq<char>, w: Seq<char>)
    requires
        is_written(doc),
        is_edge(doc, n, w) || (is_mentioned(doc, n, w) && alias_remap(n, w) is Some),
    ensures
        is_written_dep(doc, n, w),
{
    if !is_edge(doc, n, w) {
        let spec = choose|spec: PnpmDepSpecView| #[trigger]
            is_entry(doc, n, spec) && spec.version == w;
        assert(is_entry(doc, n, spec));
    }
}

proof fn lemma_has_packages(doc: PnpmLockfileView, g: LockfileGraphView)
    requires
        is_written(doc),
        graph_of(doc) == Ok::<LockfileGraphView, ReadErrorView>(g),
    ensures
        has_packages(doc, g),
{
    let locals = graph_locals(doc);
    let canonical = canonical_keys(locals);
    let own = other_packages(doc, canonical);
    let remaps = graph_aliases(doc);
    lemma_locals(doc);
    lemma_package_keys(doc);
    lemma_graph_aliases(doc);
    assert forall|k: Seq<char>| #[trigger] own.dom().contains(k) <==> (doc.snapshots.dom().contains(k)
        && !is_local_key(doc, k)) by {}
    assert(own.dom().subset_of(doc.snapshots.dom()));
    assert forall|a: AliasRemapView| #[trigger] remaps.contains(a) implies own.dom().contains(
        a.real_dep_path,
    ) by {
        assert(is_named(doc, a));
        let (n, w) = choose|n: Seq<char>, w: Seq<char>| #[trigger]
            is_mentioned(doc, n, w) && alias_remap(n, w) == Some(a);
        lemma_mentioned(doc, n, w);
    }
    lemma_with_aliases(own, remaps);
    let m = with_aliases(own, remaps)->Ok_0;
    assert(g.packages == m.union_prefer_right(locals));
    assert(g.packages.dom() =~= m.dom().union(locals.dom()));
    assert forall|q: Seq<char>| #[trigger] locals.dom().contains(q) implies is_under_source(
        doc,
        q,
        g.packages[q],
    ) && !doc.snapshots.dom().contains(q) && (forall|n: Seq<char>, w: Seq<char>|
        !(#[trigger] is_alias(doc, n, w, q))) by {
        let (n, w) = choose|n: Seq<char>, w: Seq<char>| #[trigger]
            is_local(doc, n, w) && q == local_key(n, w);
        lemma_local_snapshot(doc, n, w);
        assert(g.packages[q] == local_package(doc, n, w));
    }
    assert forall|k: Seq<char>| #[trigger]
        doc.snapshots.dom().contains(k) && !is_local_key(doc, k) implies g.packages.dom().contains(k)
        && g.packages[k] == locked_package(doc, k) by {
        assert(own.dom().contains(k));
    }
    assert forall|q: Seq<char>| #[trigger] g.packages.dom().contains(q) implies (
    doc.snapshots.dom().contains(q) && !is_local_key(doc, q)) || is_under_alias(
        doc,
        q,
        g.packages[q],
    ) || is_under_source(doc, q, g.packages[q]) by {
        if !locals.dom().contains(q) && !own.dom().contains(q) {
            let a = choose|a: AliasRemapView| #[trigger]
                remaps.contains(a) && a.alias_dep_path == q && m[q] == aliased(
                    own[a.real_dep_path],
                    a,
                );
            assert(is_named(doc, a));
            let (n, w) = choose|n: Seq<char>, w: Seq<char>| #[trigger]
                is_mentioned(doc, n, w) && alias_remap(n, w) == Some(a);
            assert(is_alias(doc, n, w, q));
            lemma_mentioned(doc, n, w);
            assert(own.dom().contains(w));
            assert(own[w] == locked_package(doc, w));
        }
    }
    assert forall|n: Seq<char>, w: Seq<char>| #[trigger] is_local(doc, n, w) implies
        g.packages.dom().contains(local_key(n, w)) && g.packages[local_key(n, w)] == local_package(
        doc,
        n,
        w,
    ) by {
        assert(locals.dom().contains(local_key(n, w)));
    }
    assert forall|n: Seq<char>, w: Seq<char>, q: Seq<char>| #[trigger]
        is_alias(doc, n, w, q) implies g.packages.dom().contains(q) by {
        let a = alias_remap(n, w)->0;
        assert(is_named(doc, a));
        assert(remaps.contains(a));
    }
}

/// The package under the key of an alias.
proof fn lemma_at_alias(
    doc: PnpmLockfileView,
    g: LockfileGraphView,
    n: Seq<char>,
    w: Seq<char>,
    q: Seq<char>,
)
    requires
        is_written(doc),
        has_packages(doc, g),
        is_alias(doc, n, w, q),
    ensures
        !doc.snapshots.dom().contains(q),
        lookup(g.packages, q) == Some(aliased(locked_package(doc, w), alias_remap(n, w)->0)),
        is_written_dep(doc, n, w),
        doc.snapshots.dom().contains(w),
        !is_local_key(doc, w),
        is_written_package(doc, w),
{
    lemma_mentioned(doc, n, w);
    if is_under_source(doc, q, g.packages[q]) {
        let (m, x) = choose|m: Seq<char>, x: Seq<char>| #[trigger]
            is_local(doc, m, x) && q == local_key(m, x);
        lemma_local_snapshot(doc, m, x);
        assert(!is_alias(doc, n, w, q));
    }
    assert(is_under_alias(doc, q, g.packages[q]));
    let (m, x) = choose|m: Seq<char>, x: Seq<char>| #[trigger]
        is_alias(doc, m, x, q) && g.packages[q] == aliased(
            locked_package(doc, x),
            alias_remap(m, x)->0,
        );
    assert(is_alias(doc, n, w, q) && is_alias(doc, m, x, q));
    assert(m == n && x == w);
}

/// What a key leads to where it is that of no alias.
proof fn lemma_plain(doc: PnpmLockfileView, g: LockfileGraphView, key: Seq<char>, w: Seq<char>)
    requires
        is_written(doc),
        has_packages(doc, g),
        leads_plainly(doc, key, w),
    ensures
        lookup(g.packages, key) matches Some(p) ==> p.alias_of is None && (
        p.local_source matches Some(s) ==> s.specifier() == w),
{
    if !g.packages.dom().contains(key) || (doc.snapshots.dom().contains(key) && !is_local_key(
        doc,
        key,
    )) {
    } else if is_under_source(doc, key, g.packages[key]) {
        let (m, x) = choose|m: Seq<char>, x: Seq<char>| #[trigger]
            is_local(doc, m, x) && key == local_key(m, x) && g.packages[key] == local_package(
                doc,
                m,
                x,
            );
        lemma_local_snapshot(doc, m, x);
        assert(x == w);
    } else {
        assert(is_under_alias(doc, key, g.packages[key]));
        let (m, x) = choose|m: Seq<char>, x: Seq<char>| #[trigger]
            is_alias(doc, m, x, key) && g.packages[key] == aliased(
                locked_package(doc, x),
                alias_remap(m, x)->0,
            );
        assert(!is_alias(doc, m, x, key));
    }
}

/// A dependency is written as it was recorded.
proof fn lemma_value(doc: PnpmLockfileView, input: Input, n: Seq<char>, w: Seq<char>)
    requires
        is_written(doc),
        has_packages(doc, input.graph),
        input.native,
        is_edge(doc, n, w),
    ensures
        written_value(input, n, resolved_tail(n, w)) == w,
{
    let g = input.graph;
    lemma_mentioned(doc, n, w);
    match alias_remap(n, w) {
        Some(a) => {
            let q = a.alias_dep_path;
            assert(is_alias(doc, n, w, q));
            lemma_at_alias(doc, g, n, w, q);
            lemma_alias(doc, n, w);
        },
        None => {
            assert(resolved_tail(n, w) == w);
            lemma_plain(doc, g, dep_path(n, w), w);
            lemma_plain(doc, g, dep_path(n, until(w, '(')), w);
            lemma_plain(doc, g, dep_path(component(n), until(w, '(')), w);
        },
    }
}

/// A direct dependency is written as it was recorded.
proof fn lemma_direct(
    doc: PnpmLockfileView,
    input: Input,
    path: Seq<char>,
    n: Seq<char>,
    spec: PnpmDepSpecView,
    t: DepType,
)
    requires
        is_written(doc),
        has_packages(doc, input.graph),
        input.native,
        input.graph.settings == graph_settings(doc.settings),
        is_entry(doc, n, spec),
    ensures
        written_dep(input, path, direct_dep(n, spec, t)) == spec,
        !is_left_out(input.graph, direct_dep(n, spec, t)),
{
    let g = input.graph;
    let w = spec.version;
    assert(is_mentioned(doc, n, w));
    match alias_remap(n, w) {
        _ if direct_source(w) is Some => {
            assert(is_local(doc, n, w));
            lemma_local_snapshot(doc, n, w);
        },
        Some(a) => {
            let q = a.alias_dep_path;
            assert(is_alias(doc, n, w, q));
            lemma_at_alias(doc, g, n, w, q);
            lemma_alias(doc, n, w);
        },
        None => {
            lemma_plain(doc, g, dep_path(n, w), w);
            lemma_tail(n, w);
        },
    }
}

/// The section of a type.
spec fn section_of(i: PnpmImporterView, t: DepType) -> Option<Map<Seq<char>, PnpmDepSpecView>> {
    match t {
        DepType::Production => i.dependencies,
        DepType::Dev => i.dev_dependencies,
        DepType::Optional => i.optional_dependencies,
    }
}

proof fn lemma_importer_deps(i: PnpmImporterView, d: DirectDepView)
    requires
        is_written_importer(i),
    ensures
        importer_deps(i).contains(d) <==> exists|spec: PnpmDepSpecView| #[trigger]
            holds(section_of(i, d.dep_type), d.name, spec) && d == direct_dep(
                d.name,
                spec,
                d.dep_type,
            ),
{
    let (a, b, c) = (
        section_deps(i.dependencies, DepType::Production),
        section_deps(i.dev_dependencies, DepType::Dev),
        section_deps(i.optional_dependencies, DepType::Optional),
    );
    lemma_section_deps(i.dependencies, DepType::Production, d);
    lemma_section_deps(i.dev_dependencies, DepType::Dev, d);
    lemma_section_deps(i.optional_dependencies, DepType::Optional, d);
    lemma_concat_contains(a, b);
    lemma_concat_contains(a + b, c);
    assert((a + b + c).contains(d) <==> (a + b).contains(d) || c.contains(d));
    assert((a + b).contains(d) <==> a.contains(d) || b.contains(d));
}

proof fn lemma_section_deps(
    section: Option<Map<Seq<char>, PnpmDepSpecView>>,
    t: DepType,
    d: DirectDepView,
)
    requires
        is_terse(section),
    ensures
        section_deps(section, t).contains(d) <==> d.dep_type == t && exists|
            spec: PnpmDepSpecView,
        | #[trigger]
            holds(section, d.name, spec) && d == direct_dep(d.name, spec, t),
{
    let e = section_entries(section);
    let all = section_deps(section, t);
    lemma_section_entries(section);
    if all.contains(d) {
        let i = choose|i: int| 0 <= i < all.len() && all[i] == d;
        assert(e.contains((e[i].0, e[i].1)));
        assert(holds(section, e[i].0, e[i].1));
        assert(d == direct_dep(e[i].0, e[i].1, t));
    }
    if d.dep_type == t && exists|spec: PnpmDepSpecView| #[trigger]
        holds(section, d.name, spec) && d == direct_dep(d.name, spec, t) {
        let spec = choose|spec: PnpmDepSpecView| #[trigger]
            holds(section, d.name, spec) && d == direct_dep(d.name, spec, t);
        assert(e.contains((d.name, spec)));
        let i = choose|i: int| 0 <= i < e.len() && e[i] == (d.name, spec);
        assert(all[i] == d);
    }
}

/// A section is written as it was read.
proof fn lemma_kept_section(doc: PnpmLockfileView, input: Input, path: Seq<char>, t: DepType)
    requires
        is_written(doc),
        has_packages(doc, input.graph),
        input.native,
        input.graph.settings == graph_settings(doc.settings),
        doc.importers.dom().contains(path),
    ensures
        written_section(input, path, importer_deps(doc.importers[path]), t) == section_of(
            doc.importers[path],
            t,
        ),
{
    let i = doc.importers[path];
    let g = input.graph;
    let deps = importer_deps(i);
    let section = section_of(i, t);
    let m = by_name(g, deps, t);
    let entries = or_empty(section);
    assert(is_written_importer(i));
    lemma_section(input, path, deps, t);
    lemma_by_name(g, deps, t);
    assert forall|n: Seq<char>| #[trigger] m.dom().contains(n) implies entries.dom().contains(n)
        && m[n] == direct_dep(n, entries[n], t) by {
        let d = m[n];
        lemma_importer_deps(i, d);
        let spec = choose|spec: PnpmDepSpecView| #[trigger]
            holds(section_of(i, d.dep_type), d.name, spec) && d == direct_dep(
                d.name,
                spec,
                d.dep_type,
            );
        assert(holds(section, n, spec));
    }
    assert forall|n: Seq<char>| #[trigger] entries.dom().contains(n) implies m.dom().contains(n) by {
        let spec = entries[n];
        assert(holds(section, n, spec));
        assert(is_entry(doc, n, spec));
        lemma_direct(doc, input, path, n, spec, t);
        let d = direct_dep(n, spec, t);
        lemma_importer_deps(i, d);
        let j = choose|j: int| 0 <= j < deps.len() && deps[j] == d;
        assert(deps[j].dep_type == t);
    }
    assert(m.dom() =~= entries.dom());
    let w = written_section(input, path, deps, t);
    if let Some(map) = section {
        assert(map != Map::<Seq<char>, PnpmDepSpecView>::empty());
        assert(exists|n: Seq<char>| map.dom().contains(n)) by {
            if forall|n: Seq<char>| !map.dom().contains(n) {
                assert(map =~= Map::<Seq<char>, PnpmDepSpecView>::empty());
            }
        }
        let some = choose|n: Seq<char>| map.dom().contains(n);
        assert(m.dom().contains(some));
        assert(m != Map::<Seq<char>, DirectDepView>::empty());
        assert forall|n: Seq<char>| map.dom().contains(n) implies #[trigger] w->0[n] == map[n] by {
            assert(m.dom().contains(n));
            assert(holds(section, n, map[n]));
            assert(is_entry(doc, n, map[n]));
            lemma_direct(doc, input, path, n, map[n], t);
        }
        assert(w->0 =~= map);
    } else {
        assert(m =~= Map::<Seq<char>, DirectDepView>::empty());
    }
}

/// The workspace packages are written as they were read.
proof fn lemma_importers(doc: PnpmLockfileView, input: Input)
    requires
        is_written(doc),
        has_packages(doc, input.graph),
        input.native,
        input.graph.settings == graph_settings(doc.settings),
        input.graph.importers == graph_importers(doc.importers),
        input.graph.skipped_optional_dependencies == graph_skipped(doc.importers),
    ensures
        written_importers(input) == doc.importers,
{
    let w = written_importers(input);
    assert forall|path: Seq<char>| #[trigger] w.dom().contains(path)
        <==> doc.importers.dom().contains(path) by {
        assert(path.len() == 0 ==> path =~= Seq::<char>::empty());
    }
    assert forall|path: Seq<char>| #[trigger] doc.importers.dom().contains(path) implies w[path]
        == doc.importers[path] by {
        let i = doc.importers[path];
        assert(w.dom().contains(path));
        assert(input.graph.importers[path] == importer_deps(i));
        lemma_kept_section(doc, input, path, DepType::Production);
        lemma_kept_section(doc, input, path, DepType::Dev);
        lemma_kept_section(doc, input, path, DepType::Optional);
        assert(is_written_importer(i));
        if let Some(m) = i.skipped_optional_dependencies {
            assert(skipped_section(section_specifiers(m)) =~= m);
        }
    }
    assert(w =~= doc.importers);
}

/// The dependencies of a snapshot are written as they were read.
proof fn lemma_deps(
    doc: PnpmLockfileView,
    input: Input,
    deps: Option<Map<Seq<char>, Seq<char>>>,
)
    requires
        is_written(doc),
        has_packages(doc, input.graph),
        input.native,
        forall|n: Seq<char>, w: Seq<char>| #[trigger] holds(deps, n, w) ==> is_edge(doc, n, w),
    ensures
        written_deps(input, resolved_deps(or_empty(deps))) == or_empty(deps),
{
    let m = or_empty(deps);
    let w = written_deps(input, resolved_deps(m));
    assert forall|n: Seq<char>| #[trigger] m.dom().contains(n) implies w[n] == m[n] by {
        assert(holds(deps, n, m[n]));
        assert(is_edge(doc, n, m[n]));
        lemma_value(doc, input, n, m[n]);
    }
    assert(w =~= m);
}

/// A flag that is left out where it is not set.
proof fn lemma_flag(flag: Option<bool>)
    requires
        flag != Some(false),
    ensures
        unless_false(flag == Some(true)) == flag,
{
    if let Some(b) = flag {
        if !b {
            assert(flag == Some(false));
        }
    }
}

/// A snapshot is written as it was read.
proof fn lemma_snapshot(
    doc: PnpmLockfileView,
    input: Input,
    k: Seq<char>,
    p: LockedPackageView,
)
    requires
        is_written(doc),
        has_packages(doc, input.graph),
        input.native,
        doc.snapshots.dom().contains(k),
        ({
            let s = doc.snapshots[k];
            let optional = resolved_deps(or_empty(s.optional_dependencies));
            &&& p.dependencies == resolved_deps(or_empty(s.dependencies)).union_prefer_right(
                optional,
            )
            &&& p.optional_dependencies == optional
            &&& p.transitive_peer_dependencies == or_nothing(s.transitive_peer_dependencies)
            &&& p.bundled_dependencies == or_nothing(s.bundled_dependencies)
            &&& p.optional == (s.optional == Some(true))
        }),
    ensures
        written_snapshot(input, p) == doc.snapshots[k],
{
    let s = doc.snapshots[k];
    assert(is_written_snapshot(s));
    assert forall|n: Seq<char>, w: Seq<char>| #[trigger] holds(s.dependencies, n, w) implies is_edge(
        doc,
        n,
        w,
    ) by {
        assert(doc.snapshots.dom().contains(k));
    }
    assert forall|n: Seq<char>, w: Seq<char>| #[trigger]
        holds(s.optional_dependencies, n, w) implies is_edge(doc, n, w) by {
        assert(doc.snapshots.dom().contains(k));
    }
    lemma_deps(doc, input, s.dependencies);
    lemma_deps(doc, input, s.optional_dependencies);
    let plain = resolved_deps(or_empty(s.dependencies));
    assert(p.optional_dependencies.dom() =~= or_empty(s.optional_dependencies).dom());
    assert(plain.dom() =~= or_empty(s.dependencies).dom());
    let written = written_deps(input, p.dependencies).remove_keys(p.optional_dependencies.dom());
    assert(written =~= written_deps(input, plain)) by {
        assert forall|n: Seq<char>| #[trigger] written.dom().contains(n)
            <==> written_deps(input, plain).dom().contains(n) by {
            assert(!(or_empty(s.dependencies).dom().contains(n) && or_empty(
                s.optional_dependencies,
            ).dom().contains(n)));
        }
    }
    assert(or_nothing(s.transitive_peer_dependencies).len() == 0
        ==> s.transitive_peer_dependencies is None);
    assert(or_nothing(s.bundled_dependencies).len() == 0 ==> s.bundled_dependencies is None);
    let now = written_snapshot(input, p);
    assert(now.dependencies == s.dependencies);
    assert(now.optional_dependencies == s.optional_dependencies);
    assert(now.transitive_peer_dependencies == s.transitive_peer_dependencies);
    assert(now.bundled_dependencies == s.bundled_dependencies);
    lemma_flag(s.optional);
}

/// What `packages:` tells of a snapshot is written as it was read.
proof fn lemma_info(doc: PnpmLockfileView, input: Input, k: Seq<char>)
    requires
        is_written(doc),
        input.native,
        input.graph.settings == graph_settings(doc.settings),
        doc.snapshots.dom().contains(k),
        !is_local_key(doc, k),
    ensures
        ({
            let p = locked_package(doc, k);
            let (name, version) = dep_path_parts(k)->0;
            &&& dep_path_parts(k) is Some
            &&& p.alias_of is None
            &&& !is_link(p)
            &&& info_key(input, p) == dep_path(name, version)
            &&& written_info(input, p) == doc.packages[dep_path(name, version)]
            &&& snapshot_key(input, k, p) == k
            &&& doc.packages.dom().contains(dep_path(name, version))
        }),
{
    let p = locked_package(doc, k);
    let (name, version) = dep_path_parts(k)->0;
    assert(is_written_package(doc, k));
    let info = package_info(doc, k)->0;
    assert(info == doc.packages[dep_path(name, version)]);
    assert(info.has_bin == (p.bin != Map::<Seq<char>, Seq<char>>::empty())) by {
        if info.has_bin {
            assert(p.bin.dom().contains(Seq::<char>::empty()));
        }
    }
    if p.local_source is None {
        if is_url_keyed(p) {
            assert(is_http_url(version));
        }
        if is_http_url(version) && http_tarball(info.resolution) is Some {
            assert(p.local_source is Some);
        }
    }
}

/// What is recorded of a package that is depended on by a source is written as it
/// was read.
proof fn lemma_local(doc: PnpmLockfileView, input: Input, n: Seq<char>, w: Seq<char>)
    requires
        is_written(doc),
        has_packages(doc, input.graph),
        input.native,
        is_local(doc, n, w),
        doc.snapshots.dom().contains(dep_path(n, w)),
    ensures
        ({
            let p = local_package(doc, n, w);
            let key = dep_path(n, w);
            &&& !is_link(p)
            &&& info_key(input, p) == key
            &&& snapshot_key(input, local_key(n, w), p) == key
            &&& doc.packages.dom().contains(key)
            &&& written_info(input, p) == doc.packages[key]
            &&& written_snapshot(input, p) == doc.snapshots[key]
        }),
{
    let p = local_package(doc, n, w);
    let key = dep_path(n, w);
    let s = doc.snapshots[key];
    lemma_local_snapshot(doc, n, w);
    let none = Map::<Seq<char>, Seq<char>>::empty();
    assert(resolved_deps(none) =~= none);
    let required = resolved_deps(or_empty(s.dependencies));
    assert(required.union_prefer_right(none) =~= required);
    lemma_snapshot(doc, input, key, p);
}

/// Each package of the graph that is no link has the entries of a snapshot.
proof fn lemma_entries_at(doc: PnpmLockfileView, input: Input, q: Seq<char>) -> (k: Seq<char>)
    requires
        is_written(doc),
        has_packages(doc, input.graph),
        input.native,
        input.graph.settings == graph_settings(doc.settings),
        input.graph.packages.dom().contains(q),
    ensures
        doc.snapshots.dom().contains(q) ==> k == q && is_recorded(input, q),
        is_recorded(input, q) ==> {
            &&& doc.snapshots.dom().contains(k)
            &&& is_record_of(doc, info_at(input, q), k)
            &&& doc.packages.dom().contains(info_at(input, q))
            &&& written_info(input, input.graph.packages[q]) == doc.packages[info_at(input, q)]
            &&& snapshot_under(input, q) == k
            &&& written_snapshot(input, input.graph.packages[q]) == doc.snapshots[k]
        },
{
    let p = input.graph.packages[q];
    if is_under_source(doc, q, p) {
        let (n, w) = choose|n: Seq<char>, w: Seq<char>| #[trigger]
            is_local(doc, n, w) && q == local_key(n, w) && p == local_package(doc, n, w);
        lemma_local_snapshot(doc, n, w);
        if !is_link(p) {
            lemma_local(doc, input, n, w);
            assert(is_local_key(doc, dep_path(n, w)));
        }
        dep_path(n, w)
    } else if doc.snapshots.dom().contains(q) && !is_local_key(doc, q) {
        lemma_info(doc, input, q);
        lemma_snapshot(doc, input, q, p);
        q
    } else {
        let (n, w) = choose|n: Seq<char>, w: Seq<char>| #[trigger]
            is_alias(doc, n, w, q) && p == aliased(locked_package(doc, w), alias_remap(n, w)->0);
        lemma_at_alias(doc, input.graph, n, w, q);
        lemma_alias(doc, n, w);
        lemma_info(doc, input, w);
        let target = locked_package(doc, w);
        lemma_snapshot(doc, input, w, target);
        assert(written_snapshot(input, p) == written_snapshot(input, target));
        assert(written_info(input, p) == written_info(input, target));
        w
    }
}

/// The package of the graph that a snapshot is that of.
proof fn lemma_path_of(doc: PnpmLockfileView, input: Input, k: Seq<char>) -> (path: Seq<char>)
    requires
        is_written(doc),
        has_packages(doc, input.graph),
        input.native,
        input.graph.settings == graph_settings(doc.settings),
        doc.snapshots.dom().contains(k),
    ensures
        input.graph.packages.dom().contains(path),
        is_recorded(input, path),
        snapshot_under(input, path) == k,
{
    if is_local_key(doc, k) {
        let (n, w) = choose|n: Seq<char>, w: Seq<char>| #[trigger]
            is_local(doc, n, w) && k == dep_path(n, w);
        lemma_local(doc, input, n, w);
        local_key(n, w)
    } else {
        lemma_info(doc, input, k);
        k
    }
}

/// `packages:` and `snapshots:` are written as they were read.
proof fn lemma_records(doc: PnpmLockfileView, input: Input)
    requires
        is_written(doc),
        has_packages(doc, input.graph),
        input.native,
        input.graph.settings == graph_settings(doc.settings),
    ensures
        ({
            let keys = sorted_keys(input.graph.packages.dom());
            &&& written_packages(input, keys) == doc.packages
            &&& written_snapshots(input, keys) == doc.snapshots
        }),
{
    let g = input.graph;
    let keys = sorted_keys(g.packages.dom());
    lemma_listing(g.packages.dom());
    assert forall|i: int| 0 <= i < keys.len() implies g.packages.dom().contains(
        #[trigger] keys[i],
    ) by {
        assert(keys.contains(keys[i]));
    }
    assert forall|i: int, j: int|
        #![trigger keys[i], keys[j]]
        0 <= i < keys.len() && 0 <= j < keys.len() && is_recorded(input, keys[i]) && is_recorded(
            input,
            keys[j],
        ) implies (info_at(input, keys[i]) == info_at(
        input,
        keys[j],
    ) ==> written_info(input, g.packages[keys[i]]) == written_info(input, g.packages[keys[j]]))
        && (snapshot_under(input, keys[i]) == snapshot_under(input, keys[j]) ==> written_snapshot(
        input,
        g.packages[keys[i]],
    ) == written_snapshot(input, g.packages[keys[j]])) by {
        let k = lemma_entries_at(doc, input, keys[i]);
        let l = lemma_entries_at(doc, input, keys[j]);
    }
    lemma_written_infos(input, keys);
    lemma_written_snapshots(input, keys);
    let infos = written_packages(input, keys);
    let snapshots = written_snapshots(input, keys);
    assert forall|q: Seq<char>| #[trigger] infos.dom().contains(q) implies doc.packages.dom().contains(
        q,
    ) && infos[q] == doc.packages[q] by {
        let i = choose|i: int|
            0 <= i < keys.len() && is_recorded(input, #[trigger] keys[i]) && q == info_at(
                input,
                keys[i],
            );
        let k = lemma_entries_at(doc, input, keys[i]);
        assert(lookup(infos, q) == Some(written_info(input, g.packages[keys[i]])));
    }
    assert forall|q: Seq<char>| #[trigger] snapshots.dom().contains(q) implies
        doc.snapshots.dom().contains(q) && snapshots[q] == doc.snapshots[q] by {
        let i = choose|i: int|
            0 <= i < keys.len() && is_recorded(input, #[trigger] keys[i]) && q == snapshot_under(
                input,
                keys[i],
            );
        let k = lemma_entries_at(doc, input, keys[i]);
        assert(lookup(snapshots, q) == Some(written_snapshot(input, g.packages[keys[i]])));
    }
    assert forall|k: Seq<char>| #[trigger] doc.snapshots.dom().contains(k) implies
        snapshots.dom().contains(k) && forall|q: Seq<char>| #[trigger]
        is_record_of(doc, q, k) ==> infos.dom().contains(q) by {
        let path = lemma_path_of(doc, input, k);
        assert(keys.contains(path));
        let i = choose|i: int| 0 <= i < keys.len() && keys[i] == path;
        let l = lemma_entries_at(doc, input, keys[i]);
        assert(is_recorded(input, keys[i]));
        assert(lookup(snapshots, snapshot_under(input, keys[i])) is Some);
        assert(lookup(infos, info_at(input, keys[i])) is Some);
    }
    assert forall|q: Seq<char>| #[trigger] doc.packages.dom().contains(q) implies infos.dom().contains(
        q,
    ) by {
        let k = choose|k: Seq<char>| #[trigger]
            doc.snapshots.dom().contains(k) && is_record_of(doc, q, k);
        assert(snapshots.dom().contains(k));
    }
    assert(infos =~= doc.packages);
    assert(snapshots =~= doc.snapshots);
}

/// A lockfile in the form in which lockfiles are written is, once it has been
/// read, written as it was.
pub proof fn law_read_documents_are_kept(
    doc: PnpmLockfileView,
    graph: LockfileGraphView,
    ranges: Ranges,
)
    requires
        is_written(doc),
        graph_of(doc) == Ok::<LockfileGraphView, ReadErrorView>(graph),
    ensures
        document_of(Input { graph, ranges, native: true }) == doc,
{
    let input = Input { graph, ranges, native: true };
    lemma_has_packages(doc, graph);
    lemma_importers(doc, input);
    lemma_records(doc, input);
    if let Some(m) = doc.patched_dependencies {
        assert(written_patches(patch_paths(m)) =~= m) by {
            assert forall|n: Seq<char>| #[trigger] m.dom().contains(n) implies written_patches(
                patch_paths(m),
            )[n] == m[n] by {
                assert(m[n] is Path);
            }
        }
    } else {
        assert(written_patches(patch_paths(Map::empty())) =~= Map::empty());
    }
    let ignored = or_nothing(doc.ignored_optional_dependencies);
    assert(is_listing(ignored, ignored.to_set()));
    lemma_sorted_keys(ignored, ignored.to_set());
    let written = document_of(input);
    let (was, now) = (doc.settings->0, written.settings->0);
    assert(now.auto_install_peers == was.auto_install_peers);
    assert(now.exclude_links_from_lockfile == was.exclude_links_from_lockfile);
    lemma_flag(was.lockfile_include_tarball_url);
    assert(written.overrides == doc.overrides);
    assert(written.patched_dependencies == doc.patched_dependencies);
    assert(written.catalogs == doc.catalogs);
    assert(written.time == doc.time);
    assert(written.ignored_optional_dependencies == doc.ignored_optional_dependencies);
}

proof fn lemma_none_invalid(canonical: Set<Seq<char>>, keys: Seq<Seq<char>>)
    requires
        forall|i: int| 0 <= i < keys.len() ==> !is_invalid(canonical, #[trigger] keys[i]),
    ensures
        first_invalid(canonical, keys) is None,
    decreases keys.len(),
{
    if keys.len() > 0 {
        let front = keys.drop_last();
        assert forall|i: int| 0 <= i < front.len() implies !is_invalid(
            canonical,
            #[trigger] front[i],
        ) by {
            assert(front[i] == keys[i]);
        }
        lemma_none_invalid(canonical, front);
        assert(!is_invalid(canonical, keys[keys.len() - 1]));
    }
}

/// A lockfile in the form in which lockfiles are written can be read.
pub proof fn law_written_documents_are_read(doc: PnpmLockfileView)
    requires
        is_written(doc),
    ensures
        graph_of(doc) is Ok,
{
    let locals = graph_locals(doc);
    let canonical = canonical_keys(locals);
    let own = other_packages(doc, canonical);
    let remaps = graph_aliases(doc);
    let keys = sorted_keys(package_keys(doc));
    lemma_locals(doc);
    lemma_package_keys(doc);
    lemma_graph_aliases(doc);
    lemma_listing(package_keys(doc));
    assert forall|i: int| 0 <= i < keys.len() implies !is_invalid(canonical, #[trigger] keys[i]) by {
        assert(keys.contains(keys[i]));
        assert(doc.snapshots.dom().contains(keys[i]));
        if !is_local_key(doc, keys[i]) {
            assert(is_written_package(doc, keys[i]));
        }
    }
    lemma_none_invalid(canonical, keys);
    assert forall|k: Seq<char>| #[trigger] own.dom().contains(k) <==> (doc.snapshots.dom().contains(k)
        && !is_local_key(doc, k)) by {}
    assert forall|a: AliasRemapView| #[trigger] remaps.contains(a) implies own.dom().contains(
        a.real_dep_path,
    ) by {
        assert(is_named(doc, a));
        let (n, w) = choose|n: Seq<char>, w: Seq<char>| #[trigger]
            is_mentioned(doc, n, w) && alias_remap(n, w) == Some(a);
        lemma_mentioned(doc, n, w);
    }
    lemma_with_aliases(own, remaps);
}

} // verus!
