//! Reading a `pnpm-lock.yaml` into a graph.
use vstd::prelude::*;
use crate::graph::{
    default_package, default_settings, DepType, DirectDep, DirectDepView, LockedPackage,
    LockedPackageView, LockfileGraph, LockfileGraphView, LockfileSettings, LockfileSettingsView,
};
use crate::pnpm::dep_path::{
    alias_remap, aliases, dep_path, dep_path_parts, parse_dep_path, peerless_alias_target,
    peerless_target, resolve_alias, resolved_deps, rewrite_snapshot_alias_deps, version_to_dep_path,
    AliasRemap, AliasRemapView,
};
use crate::pnpm::document::{
    PatchedDependency, PatchedDependencyView, PnpmDepSpec, PnpmDepSpecView, PnpmImporter,
    PnpmImporterView, PnpmLockfile, PnpmLockfileView, PnpmPackageInfo, PnpmPackageInfoView,
    PnpmResolution, PnpmResolutionView, PnpmSettings, PnpmSettingsView, PnpmSnapshot,
    PnpmSnapshotView,
};
use crate::source::{
    is_http_url, is_safe_subpath, is_tarball_path, local_source, safe_subpath, GitSource,
    GitSourceView, LocalSource, LocalSourceView, RemoteTarballSource, RemoteTarballView,
};
use crate::strmap::{is_listing, lookup, prefix_set, sorted_keys, Dup, StrMap, StrSet};
use crate::text::{
    after_prefix, chars, same, string, trim_start_char, until, up_to, without_leading,
};

verus! {

/// The source outside the registry that the `version:` of a direct dependency
/// names. The peer suffix does not belong to it, a `file:` path with a
/// tarball's name is a tarball, and the commit of a git URL is the pinned one.
pub open spec fn direct_source(version: Seq<char>) -> Option<LocalSourceView> {
    match local_source(until(version, '('), false) {
        Some(LocalSourceView::Directory(p)) => if is_tarball_path(p) {
            Some(LocalSourceView::Tarball(p))
        } else {
            Some(LocalSourceView::Directory(p))
        },
        Some(LocalSourceView::Git(g)) => match g.committish {
            Some(c) => Some(
                LocalSourceView::Git(GitSourceView { committish: None, resolved: c, ..g }),
            ),
            None => Some(LocalSourceView::Git(g)),
        },
        other => other,
    }
}

/// The key of the package that a direct dependency resolves to.
pub open spec fn direct_dep_path(name: Seq<char>, version: Seq<char>) -> Seq<char> {
    match direct_source(version) {
        Some(source) => source.dep_path(name),
        None => match alias_remap(name, version) {
            Some(a) => a.alias_dep_path,
            None => dep_path(name, version),
        },
    }
}

/// The direct dependency that an importer entry stands for.
pub open spec fn direct_dep(
    name: Seq<char>,
    spec: PnpmDepSpecView,
    dep_type: DepType,
) -> DirectDepView {
    DirectDepView {
        name,
        dep_path: direct_dep_path(name, spec.version),
        dep_type,
        specifier: Some(spec.specifier),
    }
}

/// A named entry of an importer.
pub type Entry = (Seq<char>, PnpmDepSpecView);

/// The entries of a section, by name.
pub open spec fn section_entries(section: Option<Map<Seq<char>, PnpmDepSpecView>>) -> Seq<Entry> {
    match section {
        Some(m) => sorted_keys(m.dom()).map_values(|k: Seq<char>| (k, m[k])),
        None => Seq::empty(),
    }
}

/// The direct dependencies of a section, by name.
pub open spec fn section_deps(
    section: Option<Map<Seq<char>, PnpmDepSpecView>>,
    dep_type: DepType,
) -> Seq<DirectDepView> {
    section_entries(section).map_values(|e: Entry| direct_dep(e.0, e.1, dep_type))
}

/// The direct dependencies of an importer.
pub open spec fn importer_deps(importer: PnpmImporterView) -> Seq<DirectDepView> {
    section_deps(importer.dependencies, DepType::Production) + section_deps(
        importer.dev_dependencies,
        DepType::Dev,
    ) + section_deps(importer.optional_dependencies, DepType::Optional)
}

/// The entries of an importer that are installed.
pub open spec fn importer_entries(importer: PnpmImporterView) -> Seq<Entry> {
    section_entries(importer.dependencies) + section_entries(importer.dev_dependencies)
        + section_entries(importer.optional_dependencies)
}

/// The package that a direct dependency on a local source stands for, before
/// its snapshot is read.
pub open spec fn direct_local_package(
    name: Seq<char>,
    source: LocalSourceView,
) -> LockedPackageView {
    LockedPackageView {
        name,
        version: "0.0.0"@,
        dep_path: source.dep_path(name),
        local_source: Some(source),
        ..default_package()
    }
}

/// The packages from local sources in `before` and in a list of entries; of
/// two with one key the first counts.
pub open spec fn add_locals(
    before: Map<Seq<char>, LockedPackageView>,
    entries: Seq<Entry>,
) -> Map<Seq<char>, LockedPackageView>
    decreases entries.len(),
{
    if entries.len() == 0 {
        before
    } else {
        let m = add_locals(before, entries.drop_last());
        let (name, spec) = entries.last();
        match direct_source(spec.version) {
            Some(source) => if m.dom().contains(source.dep_path(name)) {
                m
            } else {
                m.insert(source.dep_path(name), direct_local_package(name, source))
            },
            None => m,
        }
    }
}

/// The aliases in a list of entries.
pub open spec fn entry_aliases(entries: Seq<Entry>) -> Seq<AliasRemapView>
    decreases entries.len(),
{
    if entries.len() == 0 {
        Seq::empty()
    } else {
        let before = entry_aliases(entries.drop_last());
        let (name, spec) = entries.last();
        match (direct_source(spec.version), alias_remap(name, spec.version)) {
            (None, Some(a)) => before.push(a),
            _ => before,
        }
    }
}

proof fn lemma_add_locals_concat(
    before: Map<Seq<char>, LockedPackageView>,
    a: Seq<Entry>,
    b: Seq<Entry>,
)
    ensures
        add_locals(before, a + b) == add_locals(add_locals(before, a), b),
    decreases b.len(),
{
    if b.len() == 0 {
        assert(a + b == a);
    } else {
        assert((a + b).drop_last() == a + b.drop_last());
        lemma_add_locals_concat(before, a, b.drop_last());
    }
}

proof fn lemma_entry_aliases_concat(a: Seq<Entry>, b: Seq<Entry>)
    ensures
        entry_aliases(a + b) == entry_aliases(a) + entry_aliases(b),
    decreases b.len(),
{
    if b.len() == 0 {
        assert(a + b == a);
        assert(entry_aliases(a) + entry_aliases(b) == entry_aliases(a));
    } else {
        assert((a + b).drop_last() == a + b.drop_last());
        lemma_entry_aliases_concat(a, b.drop_last());
        assert(entry_aliases(a + b) == entry_aliases(a) + entry_aliases(b));
    }
}

/// The source outside the registry that a `version:` names.
fn classify_direct(version: &str) -> (r: Option<LocalSource>)
    ensures
        r.deep_view() == direct_source(version@),
{
    let bare = string(up_to(&chars(version), '('));
    match LocalSource::parse(bare.as_str(), false) {
        Some(LocalSource::Directory(p)) => {
            if LocalSource::path_looks_like_tarball(p.as_str()) {
                Some(LocalSource::Tarball(p))
            } else {
                Some(LocalSource::Directory(p))
            }
        },
        Some(LocalSource::Git(g)) => match g.committish {
            Some(c) => Some(
                LocalSource::Git(
                    GitSource { url: g.url, committish: None, resolved: c, subpath: g.subpath },
                ),
            ),
            None => Some(
                LocalSource::Git(
                    GitSource {
                        url: g.url,
                        committish: None,
                        resolved: g.resolved,
                        subpath: g.subpath,
                    },
                ),
            ),
        },
        other => other,
    }
}

/// Read one importer entry.
fn push_direct(
    name: &str,
    info: &PnpmDepSpec,
    dep_type: DepType,
    deps: &mut Vec<DirectDep>,
    locals: &mut StrMap<LockedPackage>,
    remaps: &mut Vec<AliasRemap>,
)
    ensures
        final(deps).deep_view() == old(deps).deep_view().push(
            direct_dep(name@, info.deep_view(), dep_type),
        ),
        final(locals)@ == add_locals(old(locals)@, seq![(name@, info.deep_view())]),
        final(remaps).deep_view() == old(remaps).deep_view() + entry_aliases(
            seq![(name@, info.deep_view())],
        ),
{
    let ghost deps0 = deps.deep_view();
    let ghost remaps0 = remaps.deep_view();
    let ghost entry = (name@, info.deep_view());
    proof {
        assert(seq![entry].drop_last() == Seq::<Entry>::empty());
        reveal_with_fuel(add_locals, 2);
        reveal_with_fuel(entry_aliases, 2);
    }
    let key: String;
    match classify_direct(info.version.as_str()) {
        Some(source) => {
            key = source.dep_path(name);
            if !locals.contains_key(key.as_str()) {
                let mut pkg = LockedPackage::default();
                pkg.name = name.to_owned();
                pkg.version = "0.0.0".to_owned();
                pkg.dep_path = key.clone();
                pkg.local_source = Some(source);
                locals.insert(key.clone(), pkg);
            }
            proof {
                assert(remaps.deep_view() == remaps0 + entry_aliases(seq![entry]));
            }
        },
        None => {
            let (alias, _) = resolve_alias(name, info.version.as_str());
            match alias {
                Some(a) => {
                    key = a.alias_dep_path.clone();
                    remaps.push(a);
                    proof {
                        assert(remaps.deep_view() == remaps0.push(a.deep_view()));
                        assert(remaps.deep_view() == remaps0 + entry_aliases(seq![entry]));
                    }
                },
                None => {
                    key = version_to_dep_path(name, info.version.as_str());
                    proof {
                        assert(remaps.deep_view() == remaps0 + entry_aliases(seq![entry]));
                    }
                },
            }
        },
    }
    let dep = DirectDep {
        name: name.to_owned(),
        dep_path: key,
        dep_type,
        specifier: Some(info.specifier.clone()),
    };
    deps.push(dep);
    proof {
        assert(deps.deep_view() == deps0.push(dep.deep_view()));
    }
}

/// Read one section of an importer.
fn read_section(
    section: &Option<StrMap<PnpmDepSpec>>,
    dep_type: DepType,
    deps: &mut Vec<DirectDep>,
    locals: &mut StrMap<LockedPackage>,
    remaps: &mut Vec<AliasRemap>,
)
    ensures
        final(deps).deep_view() == old(deps).deep_view() + section_deps(
            section.deep_view(),
            dep_type,
        ),
        final(locals)@ == add_locals(old(locals)@, section_entries(section.deep_view())),
        final(remaps).deep_view() == old(remaps).deep_view() + entry_aliases(
            section_entries(section.deep_view()),
        ),
{
    let ghost deps0 = deps.deep_view();
    let ghost locals0 = locals@;
    let ghost remaps0 = remaps.deep_view();
    match section {
        None => {
            proof {
                assert(deps0 + section_deps(section.deep_view(), dep_type) == deps0);
                assert(remaps0 + entry_aliases(section_entries(section.deep_view())) == remaps0);
            }
        },
        Some(m) => {
            let n: usize = m.len();
            let mut i: usize = 0;
            let ghost entries = section_entries(Some(m@));
            let ghost all = section_deps(Some(m@), dep_type);
            proof {
                assert(deps0 + all.take(0) == deps0);
                assert(entries.take(0) == Seq::<Entry>::empty());
                assert(remaps0 + entry_aliases(entries.take(0)) == remaps0);
            }
            while i < n
                invariant
                    n == sorted_keys(m@.dom()).len(),
                    entries == section_entries(Some(m@)),
                    all == section_deps(Some(m@), dep_type),
                    i <= n,
                    deps.deep_view() == deps0 + all.take(i as int),
                    locals@ == add_locals(locals0, entries.take(i as int)),
                    remaps.deep_view() == remaps0 + entry_aliases(entries.take(i as int)),
                decreases n - i,
            {
                let name = m.key_at(i);
                let info = m.value_at(i);
                let ghost entry = (name@, info.deep_view());
                push_direct(name.as_str(), info, dep_type, deps, locals, remaps);
                proof {
                    assert(entries[i as int] == entry);
                    assert(entries.take(i + 1) == entries.take(i as int) + seq![entry]);
                    assert(all.take(i + 1) == all.take(i as int).push(
                        direct_dep(name@, info.deep_view(), dep_type),
                    ));
                    assert(deps.deep_view() == deps0 + all.take(i + 1));
                    lemma_add_locals_concat(locals0, entries.take(i as int), seq![entry]);
                    lemma_entry_aliases_concat(entries.take(i as int), seq![entry]);
                    assert(remaps.deep_view() == remaps0 + entry_aliases(entries.take(i + 1)));
                }
                i = i + 1;
            }
            proof {
                assert(all.take(n as int) == all);
                assert(entries.take(n as int) == entries);
            }
        },
    }
}

/// Read one importer.
fn read_importer(
    importer: &PnpmImporter,
    locals: &mut StrMap<LockedPackage>,
    remaps: &mut Vec<AliasRemap>,
) -> (r: Vec<DirectDep>)
    ensures
        r.deep_view() == importer_deps(importer.deep_view()),
        final(locals)@ == add_locals(old(locals)@, importer_entries(importer.deep_view())),
        final(remaps).deep_view() == old(remaps).deep_view() + entry_aliases(
            importer_entries(importer.deep_view()),
        ),
{
    let ghost locals0 = locals@;
    let ghost remaps0 = remaps.deep_view();
    let mut deps: Vec<DirectDep> = Vec::new();
    read_section(&importer.dependencies, DepType::Production, &mut deps, locals, remaps);
    read_section(&importer.dev_dependencies, DepType::Dev, &mut deps, locals, remaps);
    read_section(&importer.optional_dependencies, DepType::Optional, &mut deps, locals, remaps);
    proof {
        let v = importer.deep_view();
        let a = section_entries(v.dependencies);
        let b = section_entries(v.dev_dependencies);
        let c = section_entries(v.optional_dependencies);
        lemma_add_locals_concat(locals0, a, b);
        lemma_add_locals_concat(locals0, a + b, c);
        lemma_entry_aliases_concat(a, b);
        lemma_entry_aliases_concat(a + b, c);
        assert(remaps.deep_view() == remaps0 + entry_aliases(a + b + c));
        assert(deps.deep_view() == importer_deps(v));
    }
    deps
}

/// The key of the workspace package whose path is `path`: the root may be
/// recorded as `.` or as the empty string, and the empty string counts if both
/// are there.
pub open spec fn importer_key(
    importers: Map<Seq<char>, PnpmImporterView>,
    path: Seq<char>,
) -> Seq<char> {
    if path == "."@ && importers.dom().contains(Seq::empty()) {
        Seq::empty()
    } else {
        path
    }
}

/// The path of the workspace package under a key.
pub open spec fn importer_path(key: Seq<char>) -> Seq<char> {
    if key.len() == 0 {
        "."@
    } else {
        key
    }
}

/// Whether a workspace package is recorded.
pub open spec fn has_importer(
    importers: Map<Seq<char>, PnpmImporterView>,
    path: Seq<char>,
) -> bool {
    path.len() > 0 && importers.dom().contains(importer_key(importers, path))
}

/// The direct dependencies of each workspace package.
pub open spec fn graph_importers(importers: Map<Seq<char>, PnpmImporterView>) -> Map<
    Seq<char>,
    Seq<DirectDepView>,
> {
    Map::new(
        |path: Seq<char>| has_importer(importers, path),
        |path: Seq<char>| importer_deps(importers[importer_key(importers, path)]),
    )
}

/// The ranges of a section.
pub open spec fn section_specifiers(section: Map<Seq<char>, PnpmDepSpecView>) -> Map<
    Seq<char>,
    Seq<char>,
> {
    Map::new(|k: Seq<char>| section.dom().contains(k), |k: Seq<char>| section[k].specifier)
}

/// Whether an importer skipped optional dependencies.
pub open spec fn has_skipped(importer: PnpmImporterView) -> bool {
    importer.skipped_optional_dependencies is Some
        && importer.skipped_optional_dependencies->0 != Map::<Seq<char>, PnpmDepSpecView>::empty()
}

/// The optional dependencies that each workspace package skipped.
pub open spec fn graph_skipped(importers: Map<Seq<char>, PnpmImporterView>) -> Map<
    Seq<char>,
    Map<Seq<char>, Seq<char>>,
> {
    Map::new(
        |path: Seq<char>|
            has_importer(importers, path) && has_skipped(importers[importer_key(importers, path)]),
        |path: Seq<char>|
            section_specifiers(
                importers[importer_key(importers, path)].skipped_optional_dependencies->0,
            ),
    )
}

/// Whether the importer under a key is read.
pub open spec fn counts(importers: Map<Seq<char>, PnpmImporterView>, key: Seq<char>) -> bool {
    !(key == "."@ && importers.dom().contains(Seq::empty()))
}

/// The entries of the importers under the given keys that are read.
pub open spec fn entries_of(
    importers: Map<Seq<char>, PnpmImporterView>,
    keys: Seq<Seq<char>>,
) -> Seq<Entry>
    decreases keys.len(),
{
    if keys.len() == 0 {
        Seq::empty()
    } else if counts(importers, keys.last()) {
        entries_of(importers, keys.drop_last()) + importer_entries(importers[keys.last()])
    } else {
        entries_of(importers, keys.drop_last())
    }
}

/// The entries of all importers, in the order of their keys.
pub open spec fn all_entries(importers: Map<Seq<char>, PnpmImporterView>) -> Seq<Entry> {
    entries_of(importers, sorted_keys(importers.dom()))
}

/// The ranges of a section.
fn read_specifiers(section: &StrMap<PnpmDepSpec>) -> (r: StrMap<String>)
    ensures
        r@ == section_specifiers(section@),
{
    let mut r: StrMap<String> = StrMap::new();
    let n: usize = section.len();
    let mut i: usize = 0;
    let ghost keys = sorted_keys(section@.dom());
    let ghost all = section_specifiers(section@);
    proof {
        assert(r@ =~= all.restrict(prefix_set(keys, 0)));
    }
    while i < n
        invariant
            keys == sorted_keys(section@.dom()),
            n == keys.len(),
            all == section_specifiers(section@),
            i <= n,
            r@ == all.restrict(prefix_set(keys, i as int)),
        decreases n - i,
    {
        let name = section.key_at(i);
        let info = section.value_at(i);
        r.insert(name.clone(), info.specifier.clone());
        proof {
            assert(all.restrict(prefix_set(keys, i as int + 1)) =~= all.restrict(
                prefix_set(keys, i as int),
            ).insert(name@, info.specifier@));
        }
        i = i + 1;
    }
    proof {
        assert(all.restrict(prefix_set(keys, n as int)) =~= all);
    }
    r
}

/// The importers with the first `n` keys.
spec fn importers_prefix(
    importers: Map<Seq<char>, PnpmImporterView>,
    n: int,
) -> Map<Seq<char>, PnpmImporterView> {
    importers.restrict(prefix_set(sorted_keys(importers.dom()), n))
}

proof fn lemma_importers_step(importers: Map<Seq<char>, PnpmImporterView>, i: int)
    requires
        is_listing(sorted_keys(importers.dom()), importers.dom()),
        0 <= i < sorted_keys(importers.dom()).len(),
    ensures
        ({
            let keys = sorted_keys(importers.dom());
            let a = importers_prefix(importers, i);
            let b = importers_prefix(importers, i + 1);
            let key = keys[i];
            let path = importer_path(key);
            &&& b == a.insert(key, importers[key])
            &&& graph_importers(a).dom().contains(path) <==> !counts(importers, key)
            &&& counts(importers, key) ==> graph_importers(b) == graph_importers(a).insert(
                path,
                importer_deps(importers[key]),
            )
            &&& counts(importers, key) && has_skipped(importers[key]) ==> graph_skipped(b)
                == graph_skipped(a).insert(
                path,
                section_specifiers(importers[key].skipped_optional_dependencies->0),
            )
            &&& counts(importers, key) && !has_skipped(importers[key]) ==> graph_skipped(b)
                == graph_skipped(a)
            &&& !counts(importers, key) ==> graph_importers(b) == graph_importers(a)
                && graph_skipped(b) == graph_skipped(a)
        }),
{
    let keys = sorted_keys(importers.dom());
    let a = importers_prefix(importers, i);
    let b = importers_prefix(importers, i + 1);
    let key = keys[i];
    let path = importer_path(key);
    let root = Seq::<char>::empty();
    reveal_strlit(".");
    assert("."@.len() == 1);
    assert(keys.contains(key));
    assert(importers.dom().contains(key));
    assert(b =~= a.insert(key, importers[key]));
    // The empty key comes first.
    assert(importers.dom().contains(root) ==> keys[0] == root) by {
        if importers.dom().contains(root) {
            assert(keys.contains(root));
            let j = choose|j: int| 0 <= j < keys.len() && keys[j] == root;
            if j > 0 {
                assert(crate::strmap::before(keys[0], keys[j]));
            }
        }
    }
    // Each key is listed once.
    assert(!a.dom().contains(key)) by {
        if prefix_set(keys, i).contains(key) {
            let j = choose|j: int| 0 <= j < i && j < keys.len() && keys[j] == key;
            assert(crate::strmap::before(keys[j], keys[i]));
            crate::strmap::lemma_before_irreflexive(key);
        }
    }
    assert(a.dom().contains(root) <==> importers.dom().contains(root) && i > 0) by {
        if importers.dom().contains(root) && i > 0 {
            assert(prefix_set(keys, i).contains(keys[0]));
        }
    }
    assert(key.len() == 0 <==> key == root) by {
        if key.len() == 0 {
            assert(key =~= root);
        }
    }
    assert(key == root ==> i == 0) by {
        if key == root && i > 0 {
            assert(crate::strmap::before(keys[0], keys[i]));
            crate::strmap::lemma_before_irreflexive(root);
        }
    }
    assert(i == 0 ==> a =~= Map::<Seq<char>, PnpmImporterView>::empty());
    let ga = graph_importers(a);
    let gb = graph_importers(b);
    let sa = graph_skipped(a);
    let sb = graph_skipped(b);
    if counts(importers, key) {
        assert(gb =~= ga.insert(path, importer_deps(importers[key]))) by {
            assert forall|q: Seq<char>| has_importer(b, q) <==> (q == path || has_importer(a, q)) by {
                if q.len() > 0 {
                    assert(q != root);
                    if key == root {
                        assert(!a.dom().contains(q));
                        assert(b.dom().contains(root));
                    } else if key == "."@ {
                        assert(!b.dom().contains(root));
                    } else {
                        assert(b.dom().contains(root) <==> a.dom().contains(root));
                    }
                }
            }
            assert forall|q: Seq<char>| has_importer(b, q) && q != path implies importer_key(b, q)
                == importer_key(a, q) && importer_key(b, q) != key by {
            }
        }
        if has_skipped(importers[key]) {
            assert(sb =~= sa.insert(
                path,
                section_specifiers(importers[key].skipped_optional_dependencies->0),
            ));
        } else {
            assert(sb =~= sa);
        }
    } else {
        assert(gb =~= ga);
        assert(sb =~= sa);
    }
}

/// Read the importers.
fn read_importers(
    raw: &StrMap<PnpmImporter>,
    locals: &mut StrMap<LockedPackage>,
    remaps: &mut Vec<AliasRemap>,
) -> (r: (StrMap<Vec<DirectDep>>, StrMap<StrMap<String>>))
    requires
        old(locals)@ == Map::<Seq<char>, LockedPackageView>::empty(),
        old(remaps)@.len() == 0,
    ensures
        r.0@ == graph_importers(raw@),
        r.1@ == graph_skipped(raw@),
        final(locals)@ == add_locals(Map::empty(), all_entries(raw@)),
        final(remaps).deep_view() == entry_aliases(all_entries(raw@)),
{
    let mut importers: StrMap<Vec<DirectDep>> = StrMap::new();
    let mut skipped: StrMap<StrMap<String>> = StrMap::new();
    let n: usize = raw.len();
    let ghost keys = sorted_keys(raw@.dom());
    let ghost none = Map::<Seq<char>, LockedPackageView>::empty();
    let mut i: usize = 0;
    proof {
        assert(importers_prefix(raw@, 0) =~= Map::<Seq<char>, PnpmImporterView>::empty());
        assert(importers@ =~= graph_importers(importers_prefix(raw@, 0)));
        assert(skipped@ =~= graph_skipped(importers_prefix(raw@, 0)));
        assert(remaps.deep_view() =~= entry_aliases(entries_of(raw@, keys.take(0))));
    }
    while i < n
        invariant
            keys == sorted_keys(raw@.dom()),
            is_listing(keys, raw@.dom()),
            none == Map::<Seq<char>, LockedPackageView>::empty(),
            n == keys.len(),
            i <= n,
            importers@ == graph_importers(importers_prefix(raw@, i as int)),
            skipped@ == graph_skipped(importers_prefix(raw@, i as int)),
            locals@ == add_locals(none, entries_of(raw@, keys.take(i as int))),
            remaps.deep_view() == entry_aliases(entries_of(raw@, keys.take(i as int))),
        decreases n - i,
    {
        let key = raw.key_at(i);
        let importer = raw.value_at(i);
        let path: String = if key.as_str().is_empty() {
            ".".to_owned()
        } else {
            key.clone()
        };
        proof {
            lemma_importers_step(raw@, i as int);
            assert(keys.take(i + 1).drop_last() == keys.take(i as int));
            assert(keys.take(i + 1).last() == key@);
            assert(path@ == importer_path(key@));
        }
        if !importers.contains_key(path.as_str()) {
            let ghost before = entries_of(raw@, keys.take(i as int));
            let deps = read_importer(importer, locals, remaps);
            proof {
                lemma_add_locals_concat(none, before, importer_entries(importer.deep_view()));
                lemma_entry_aliases_concat(before, importer_entries(importer.deep_view()));
            }
            if let Some(d) = &importer.skipped_optional_dependencies {
                if !d.is_empty() {
                    skipped.insert(path.clone(), read_specifiers(d));
                }
            }
            importers.insert(path, deps);
        }
        i = i + 1;
    }
    proof {
        assert(keys.take(n as int) == keys);
        assert(importers_prefix(raw@, n as int) =~= raw@);
    }
    (importers, skipped)
}

/// The subdirectory that the `path:` of a resolution names.
pub open spec fn resolution_subpath(path: Seq<char>) -> Option<Seq<char>> {
    let rest = trim_start_char(path, '/');
    if is_safe_subpath(rest) {
        Some(rest)
    } else {
        None
    }
}

/// The source outside the registry that a resolution names.
pub open spec fn resolution_source(res: PnpmResolutionView) -> Option<LocalSourceView> {
    match (res.tarball, res.directory, res.repo, res.commit) {
        (Some(tarball), _, _, _) => if "file:"@.is_prefix_of(tarball) {
            Some(LocalSourceView::Tarball(tarball.skip("file:"@.len() as int)))
        } else if is_http_url(tarball) {
            Some(
                LocalSourceView::RemoteTarball(
                    RemoteTarballView {
                        url: tarball,
                        integrity: match res.integrity {
                            Some(i) => i,
                            None => Seq::empty(),
                        },
                    },
                ),
            )
        } else {
            None
        },
        (None, Some(directory), _, _) => Some(LocalSourceView::Directory(directory)),
        (None, None, Some(repo), Some(commit)) => Some(
            LocalSourceView::Git(
                GitSourceView {
                    url: repo,
                    committish: None,
                    resolved: commit,
                    subpath: match res.path {
                        Some(p) => resolution_subpath(p),
                        None => None,
                    },
                },
            ),
        ),
        _ => None,
    }
}

/// The subdirectory that the `path:` of a resolution names.
fn parse_resolution_subpath(path: &str) -> (r: Option<String>)
    ensures
        r.deep_view() == resolution_subpath(path@),
{
    let text = chars(path);
    let rest = without_leading(&text, '/');
    if safe_subpath(rest) {
        Some(string(rest))
    } else {
        None
    }
}

/// The source outside the registry that a resolution names; `None` for a
/// registry package.
pub fn local_source_from_resolution(res: &PnpmResolution) -> (r: Option<LocalSource>)
    ensures
        r.deep_view() == resolution_source(res.deep_view()),
{
    if let Some(tarball) = &res.tarball {
        if let Some(rel) = after_prefix(&chars(tarball.as_str()), "file:") {
            return Some(LocalSource::Tarball(string(rel)));
        }
        if LocalSource::looks_like_remote_tarball_url(tarball.as_str()) {
            let integrity = match &res.integrity {
                Some(i) => i.clone(),
                None => String::new(),
            };
            return Some(
                LocalSource::RemoteTarball(
                    RemoteTarballSource { url: tarball.clone(), integrity },
                ),
            );
        }
        return None;
    }
    if let Some(directory) = &res.directory {
        return Some(LocalSource::Directory(directory.clone()));
    }
    match (&res.repo, &res.commit) {
        (Some(repo), Some(commit)) => {
            let subpath = match &res.path {
                Some(p) => parse_resolution_subpath(p.as_str()),
                None => None,
            };
            Some(
                LocalSource::Git(
                    GitSource {
                        url: repo.clone(),
                        committish: None,
                        resolved: commit.clone(),
                        subpath,
                    },
                ),
            )
        },
        _ => None,
    }
}

/// Whether a dep path is `canonical` but for its peer suffix.
pub open spec fn is_peerless(key: Seq<char>, canonical: Seq<char>) -> bool {
    match dep_path_parts(key) {
        Some((name, version)) => dep_path(name, version) == canonical,
        None => false,
    }
}

/// The first of some keys that is `canonical` but for its peer suffix.
pub open spec fn first_peerless(keys: Seq<Seq<char>>, canonical: Seq<char>) -> Option<Seq<char>>
    decreases keys.len(),
{
    if keys.len() == 0 {
        None
    } else {
        match first_peerless(keys.drop_last(), canonical) {
            Some(k) => Some(k),
            None => if is_peerless(keys.last(), canonical) {
                Some(keys.last())
            } else {
                None
            },
        }
    }
}

/// The snapshot of a package from a local source.
pub open spec fn local_snapshot(
    snapshots: Map<Seq<char>, PnpmSnapshotView>,
    canonical: Seq<char>,
) -> Option<PnpmSnapshotView> {
    match lookup(snapshots, canonical) {
        Some(s) => Some(s),
        None => match first_peerless(sorted_keys(snapshots.dom()), canonical) {
            Some(k) => Some(snapshots[k]),
            None => None,
        },
    }
}

/// The source of a package: what its resolution says, or else `prior`. A git
/// resolution without subdirectory keeps the one that `prior` selects.
pub open spec fn with_prior(
    recorded: Option<LocalSourceView>,
    prior: LocalSourceView,
) -> LocalSourceView {
    match recorded {
        Some(LocalSourceView::Git(g)) => match prior {
            LocalSourceView::Git(p) => if g.subpath is None {
                LocalSourceView::Git(GitSourceView { subpath: p.subpath, ..g })
            } else {
                LocalSourceView::Git(g)
            },
            _ => LocalSourceView::Git(g),
        },
        Some(other) => other,
        None => prior,
    }
}

/// The source of a package, with what its `packages:` entry says.
pub open spec fn recorded_source(
    packages: Map<Seq<char>, PnpmPackageInfoView>,
    canonical: Seq<char>,
    prior: LocalSourceView,
) -> LocalSourceView {
    with_prior(
        match lookup(packages, canonical) {
            Some(info) => match info.resolution {
                Some(res) => resolution_source(res),
                None => None,
            },
            None => None,
        },
        prior,
    )
}

/// The `packages:` and `snapshots:` key of a package from a local source.
pub open spec fn local_canonical(pkg: LockedPackageView) -> Seq<char> {
    dep_path(pkg.name, pkg.local_source->0.specifier())
}

/// A package from a local source with what its snapshot and its resolution
/// say.
pub open spec fn harvested(doc: PnpmLockfileView, pkg: LockedPackageView) -> LockedPackageView {
    let canonical = local_canonical(pkg);
    let (deps, optional) = match local_snapshot(doc.snapshots, canonical) {
        Some(s) => (s.dependencies, s.optional_dependencies),
        None => (None, None),
    };
    let required = match deps {
        Some(d) => resolved_deps(d),
        None => pkg.dependencies,
    };
    let source = recorded_source(doc.packages, canonical, pkg.local_source->0);
    LockedPackageView {
        dependencies: match optional {
            Some(o) => required.union_prefer_right(resolved_deps(o)),
            None => required,
        },
        optional_dependencies: match optional {
            Some(o) => resolved_deps(o),
            None => pkg.optional_dependencies,
        },
        local_source: Some(source),
        dep_path: source.dep_path(pkg.name),
        ..pkg
    }
}

/// The aliases among optional dependencies.
pub open spec fn opt_aliases(deps: Option<Map<Seq<char>, Seq<char>>>) -> Seq<AliasRemapView> {
    match deps {
        Some(d) => aliases(d),
        None => Seq::empty(),
    }
}

/// The aliases in the snapshot of a package from a local source.
pub open spec fn harvested_aliases(
    doc: PnpmLockfileView,
    pkg: LockedPackageView,
) -> Seq<AliasRemapView> {
    match local_snapshot(doc.snapshots, local_canonical(pkg)) {
        Some(s) => opt_aliases(s.dependencies) + opt_aliases(s.optional_dependencies),
        None => Seq::empty(),
    }
}

/// The packages from local sources under their final keys; of two with one
/// key the last counts.
pub open spec fn local_packages(
    doc: PnpmLockfileView,
    locals: Map<Seq<char>, LockedPackageView>,
    keys: Seq<Seq<char>>,
) -> Map<Seq<char>, LockedPackageView>
    decreases keys.len(),
{
    if keys.len() == 0 {
        Map::empty()
    } else {
        let pkg = harvested(doc, locals[keys.last()]);
        local_packages(doc, locals, keys.drop_last()).insert(pkg.dep_path, pkg)
    }
}

/// The aliases in the snapshots of packages from local sources.
pub open spec fn local_aliases(
    doc: PnpmLockfileView,
    locals: Map<Seq<char>, LockedPackageView>,
    keys: Seq<Seq<char>>,
) -> Seq<AliasRemapView>
    decreases keys.len(),
{
    if keys.len() == 0 {
        Seq::empty()
    } else {
        local_aliases(doc, locals, keys.drop_last()) + harvested_aliases(doc, locals[keys.last()])
    }
}

/// The snapshot of a package from a local source.
fn find_local_snapshot<'a>(snapshots: &'a StrMap<PnpmSnapshot>, canonical: &str) -> (r: Option<
    &'a PnpmSnapshot,
>)
    ensures
        match r {
            Some(s) => local_snapshot(snapshots@, canonical@) == Some(s.deep_view()),
            None => local_snapshot(snapshots@, canonical@) is None,
        },
{
    if let Some(s) = snapshots.get(canonical) {
        return Some(s);
    }
    let n: usize = snapshots.len();
    let ghost keys = sorted_keys(snapshots@.dom());
    let mut i: usize = 0;
    while i < n
        invariant
            keys == sorted_keys(snapshots@.dom()),
            n == keys.len(),
            i <= n,
            lookup(snapshots@, canonical@) is None,
            first_peerless(keys.take(i as int), canonical@) is None,
        decreases n - i,
    {
        let key = snapshots.key_at(i);
        proof {
            assert(keys.take(i + 1).drop_last() == keys.take(i as int));
            assert(keys.take(i + 1).last() == key@);
        }
        if let Some((name, version)) = parse_dep_path(key.as_str()) {
            if same(version_to_dep_path(name.as_str(), version.as_str()).as_str(), canonical) {
                proof {
                    lemma_first_peerless_take(keys, i + 1, canonical@);
                }
                return Some(snapshots.value_at(i));
            }
        }
        i = i + 1;
    }
    proof {
        assert(keys.take(n as int) == keys);
    }
    None
}

proof fn lemma_first_peerless_take(keys: Seq<Seq<char>>, n: int, canonical: Seq<char>)
    requires
        0 <= n <= keys.len(),
        first_peerless(keys.take(n), canonical) is Some,
    ensures
        first_peerless(keys, canonical) == first_peerless(keys.take(n), canonical),
    decreases keys.len() - n,
{
    if n == keys.len() {
        assert(keys.take(n) == keys);
    } else {
        assert(keys.take(n + 1).drop_last() == keys.take(n));
        lemma_first_peerless_take(keys, n + 1, canonical);
    }
}

/// Read the snapshot and the resolution of a package from a local source.
fn harvest(doc: &PnpmLockfile, pkg: &LockedPackage, remaps: &mut Vec<AliasRemap>) -> (r:
    LockedPackage)
    requires
        pkg.local_source is Some,
    ensures
        r.deep_view() == harvested(doc.deep_view(), pkg.deep_view()),
        final(remaps).deep_view() == old(remaps).deep_view() + harvested_aliases(
            doc.deep_view(),
            pkg.deep_view(),
        ),
{
    let ghost remaps0 = remaps.deep_view();
    let mut out = pkg.dup();
    let source: LocalSource = match &pkg.local_source {
        Some(s) => s.dup(),
        None => LocalSource::Directory(String::new()),
    };
    let canonical = version_to_dep_path(pkg.name.as_str(), source.specifier().as_str());
    match find_local_snapshot(&doc.snapshots, canonical.as_str()) {
        Some(snap) => {
            if let Some(d) = &snap.dependencies {
                let mut deps = d.dup();
                rewrite_snapshot_alias_deps(&mut deps, remaps);
                out.dependencies = deps;
            }
            proof {
                assert(remaps.deep_view() =~= remaps0 + opt_aliases(
                    snap.dependencies.deep_view(),
                ));
            }
            if let Some(o) = &snap.optional_dependencies {
                let mut opt = o.dup();
                rewrite_snapshot_alias_deps(&mut opt, remaps);
                out.dependencies.extend(&opt);
                out.optional_dependencies = opt;
            }
            proof {
                assert(remaps.deep_view() =~= remaps0 + (opt_aliases(
                    snap.dependencies.deep_view(),
                ) + opt_aliases(snap.optional_dependencies.deep_view())));
            }
        },
        None => {
            proof {
                assert(remaps.deep_view() =~= remaps0 + Seq::<AliasRemapView>::empty());
            }
        },
    }
    let final_source = read_source(&doc.packages, canonical.as_str(), source);
    out.dep_path = final_source.dep_path(out.name.as_str());
    out.local_source = Some(final_source);
    out
}

/// The source of a package: what its resolution says, or else `prior`.
fn read_source(packages: &StrMap<PnpmPackageInfo>, canonical: &str, prior: LocalSource) -> (r:
    LocalSource)
    ensures
        r.deep_view() == recorded_source(packages@, canonical@, prior.deep_view()),
{
    let recorded = match packages.get(canonical) {
        Some(info) => match &info.resolution {
            Some(res) => local_source_from_resolution(res),
            None => None,
        },
        None => None,
    };
    match recorded {
        Some(LocalSource::Git(g)) => match prior {
            LocalSource::Git(p) => {
                if g.subpath.is_none() {
                    LocalSource::Git(
                        GitSource {
                            url: g.url,
                            committish: g.committish,
                            resolved: g.resolved,
                            subpath: p.subpath,
                        },
                    )
                } else {
                    LocalSource::Git(g)
                }
            },
            _ => LocalSource::Git(g),
        },
        Some(other) => other,
        None => prior,
    }
}

/// Whether every package has a source.
pub open spec fn all_local(pkgs: Map<Seq<char>, LockedPackageView>) -> bool {
    forall|k: Seq<char>| #[trigger] pkgs.dom().contains(k) ==> pkgs[k].local_source is Some
}

proof fn lemma_add_locals_local(before: Map<Seq<char>, LockedPackageView>, entries: Seq<Entry>)
    requires
        all_local(before),
    ensures
        all_local(add_locals(before, entries)),
    decreases entries.len(),
{
    if entries.len() > 0 {
        lemma_add_locals_local(before, entries.drop_last());
    }
}

proof fn lemma_local_packages_local(
    doc: PnpmLockfileView,
    locals: Map<Seq<char>, LockedPackageView>,
    keys: Seq<Seq<char>>,
)
    ensures
        all_local(local_packages(doc, locals, keys)),
    decreases keys.len(),
{
    if keys.len() > 0 {
        lemma_local_packages_local(doc, locals, keys.drop_last());
    }
}

/// Read the snapshots and resolutions of the packages from local sources.
fn harvest_all(
    doc: &PnpmLockfile,
    locals: &StrMap<LockedPackage>,
    remaps: &mut Vec<AliasRemap>,
) -> (r: StrMap<LockedPackage>)
    requires
        all_local(locals@),
    ensures
        r@ == local_packages(doc.deep_view(), locals@, sorted_keys(locals@.dom())),
        final(remaps).deep_view() == old(remaps).deep_view() + local_aliases(
            doc.deep_view(),
            locals@,
            sorted_keys(locals@.dom()),
        ),
{
    let ghost remaps0 = remaps.deep_view();
    let ghost d = doc.deep_view();
    let ghost keys = sorted_keys(locals@.dom());
    let mut r: StrMap<LockedPackage> = StrMap::new();
    let n: usize = locals.len();
    let mut i: usize = 0;
    proof {
        assert(remaps0 + local_aliases(d, locals@, keys.take(0)) == remaps0);
    }
    while i < n
        invariant
            d == doc.deep_view(),
            all_local(locals@),
            keys == sorted_keys(locals@.dom()),
            is_listing(keys, locals@.dom()),
            n == keys.len(),
            i <= n,
            r@ == local_packages(d, locals@, keys.take(i as int)),
            remaps.deep_view() == remaps0 + local_aliases(d, locals@, keys.take(i as int)),
        decreases n - i,
    {
        let pkg = locals.value_at(i);
        proof {
            let k = keys[i as int];
            assert(keys.contains(k));
            assert(locals@.dom().contains(k));
            assert(locals@[k].local_source is Some);
            assert(keys.take(i + 1).drop_last() == keys.take(i as int));
            assert(keys.take(i + 1).last() == k);
        }
        let out = harvest(doc, pkg, remaps);
        proof {
            assert(remaps.deep_view() == remaps0 + local_aliases(d, locals@, keys.take(i + 1)));
        }
        r.insert(out.dep_path.clone(), out);
        i = i + 1;
    }
    proof {
        assert(keys.take(n as int) == keys);
    }
    r
}

/// The keys under which the packages from local sources are recorded.
pub open spec fn canonical_keys(locals: Map<Seq<char>, LockedPackageView>) -> Set<Seq<char>> {
    Set::new(
        |k: Seq<char>|
            exists|q: Seq<char>| #[trigger]
                locals.dom().contains(q) && local_canonical(locals[q]) == k,
    )
}

/// Whether an entry is that of a package from a local source, up to its peer
/// suffix.
pub open spec fn is_absorbed(canonical: Set<Seq<char>>, key: Seq<char>) -> bool {
    canonical.contains(key) || match dep_path_parts(key) {
        Some((name, version)) => canonical.contains(dep_path(name, version)),
        None => false,
    }
}

/// The keys of the packages: those of `snapshots:`, or those of `packages:`
/// where there are no snapshots.
pub open spec fn package_keys(doc: PnpmLockfileView) -> Set<Seq<char>> {
    if doc.snapshots == Map::<Seq<char>, PnpmSnapshotView>::empty() {
        doc.packages.dom()
    } else {
        doc.snapshots.dom()
    }
}

/// Whether a key is neither absorbed nor a dep path.
pub open spec fn is_invalid(canonical: Set<Seq<char>>, key: Seq<char>) -> bool {
    !canonical.contains(key) && dep_path_parts(key) is None
}

/// The first invalid key.
pub open spec fn first_invalid(canonical: Set<Seq<char>>, keys: Seq<Seq<char>>) -> Option<
    Seq<char>,
>
    decreases keys.len(),
{
    if keys.len() == 0 {
        None
    } else {
        match first_invalid(canonical, keys.drop_last()) {
            Some(k) => Some(k),
            None => if is_invalid(canonical, keys.last()) {
                Some(keys.last())
            } else {
                None
            },
        }
    }
}

/// The `packages:` entry for a snapshot.
pub open spec fn package_info(doc: PnpmLockfileView, key: Seq<char>) -> Option<
    PnpmPackageInfoView,
> {
    let (name, version) = dep_path_parts(key)->0;
    match lookup(doc.packages, dep_path(name, version)) {
        Some(info) => Some(info),
        None => lookup(doc.packages, key),
    }
}

/// A map that may be left out.
pub open spec fn or_empty<V>(m: Option<Map<Seq<char>, V>>) -> Map<Seq<char>, V> {
    match m {
        Some(m) => m,
        None => Map::empty(),
    }
}

/// A list that may be left out.
pub open spec fn or_nothing(v: Option<Seq<Seq<char>>>) -> Seq<Seq<char>> {
    match v {
        Some(v) => v,
        None => Seq::empty(),
    }
}

/// The HTTP tarball of a resolution.
pub open spec fn http_tarball(res: Option<PnpmResolutionView>) -> Option<Seq<char>> {
    match res {
        Some(r) => match r.tarball {
            Some(t) => if is_http_url(t) {
                Some(t)
            } else {
                None
            },
            None => None,
        },
        None => None,
    }
}

/// The `bin` of a package of which only is known whether it has one.
pub open spec fn opaque_bin(has_bin: bool) -> Map<Seq<char>, Seq<char>> {
    if has_bin {
        Map::empty().insert(Seq::empty(), Seq::empty())
    } else {
        Map::empty()
    }
}

/// An entry that says nothing.
pub open spec fn empty_info() -> PnpmPackageInfoView {
    PnpmPackageInfoView {
        resolution: None,
        version: None,
        engines: Map::empty(),
        os: Seq::empty(),
        cpu: Seq::empty(),
        libc: Seq::empty(),
        has_bin: false,
        peer_dependencies: None,
        peer_dependencies_meta: None,
        alias_of: None,
    }
}

/// A snapshot that says nothing.
pub open spec fn empty_snapshot() -> PnpmSnapshotView {
    PnpmSnapshotView {
        dependencies: None,
        optional_dependencies: None,
        transitive_peer_dependencies: None,
        optional: None,
        bundled_dependencies: None,
    }
}

/// The package under a key, from its `packages:` entry and its snapshot.
pub open spec fn package_from(
    key: Seq<char>,
    info: PnpmPackageInfoView,
    snapshot: PnpmSnapshotView,
) -> LockedPackageView {
    let (name, key_version) = dep_path_parts(key)->0;
    let tarball = http_tarball(info.resolution);
    let optional = resolved_deps(or_empty(snapshot.optional_dependencies));
    LockedPackageView {
        name,
        version: if is_http_url(key_version) && tarball is Some && info.version is Some {
            info.version->0
        } else {
            key_version
        },
        integrity: match info.resolution {
            Some(r) => r.integrity,
            None => None,
        },
        dependencies: resolved_deps(or_empty(snapshot.dependencies)).union_prefer_right(optional),
        optional_dependencies: optional,
        peer_dependencies: or_empty(info.peer_dependencies),
        peer_dependencies_meta: or_empty(info.peer_dependencies_meta),
        dep_path: key,
        local_source: match info.resolution {
            Some(r) => match resolution_source(r) {
                Some(LocalSourceView::RemoteTarball(t)) => if is_http_url(key_version) {
                    Some(LocalSourceView::RemoteTarball(t))
                } else {
                    None
                },
                other => other,
            },
            None => None,
        },
        os: info.os,
        cpu: info.cpu,
        libc: info.libc,
        bundled_dependencies: or_nothing(snapshot.bundled_dependencies),
        optional: snapshot.optional == Some(true),
        transitive_peer_dependencies: or_nothing(snapshot.transitive_peer_dependencies),
        tarball_url: tarball,
        alias_of: info.alias_of,
        yarn_checksum: None,
        engines: info.engines,
        bin: opaque_bin(info.has_bin),
        declared_dependencies: Map::empty(),
    }
}

/// The snapshot under a key, or one that says nothing.
pub open spec fn snapshot_at(doc: PnpmLockfileView, key: Seq<char>) -> PnpmSnapshotView {
    match lookup(doc.snapshots, key) {
        Some(s) => s,
        None => empty_snapshot(),
    }
}

/// The package under a key.
pub open spec fn locked_package(doc: PnpmLockfileView, key: Seq<char>) -> LockedPackageView {
    package_from(
        key,
        match package_info(doc, key) {
            Some(info) => info,
            None => empty_info(),
        },
        snapshot_at(doc, key),
    )
}

/// The packages that are not from local sources of the importers.
pub open spec fn other_packages(doc: PnpmLockfileView, canonical: Set<Seq<char>>) -> Map<
    Seq<char>,
    LockedPackageView,
> {
    Map::new(
        |k: Seq<char>| package_keys(doc).contains(k) && !is_absorbed(canonical, k),
        |k: Seq<char>| locked_package(doc, k),
    )
}

/// The aliases in the snapshots under the given keys.
pub open spec fn snapshot_aliases(
    doc: PnpmLockfileView,
    canonical: Set<Seq<char>>,
    keys: Seq<Seq<char>>,
) -> Seq<AliasRemapView>
    decreases keys.len(),
{
    if keys.len() == 0 {
        Seq::empty()
    } else {
        let before = snapshot_aliases(doc, canonical, keys.drop_last());
        let snapshot = snapshot_at(doc, keys.last());
        if is_absorbed(canonical, keys.last()) {
            before
        } else {
            before + (opt_aliases(snapshot.dependencies) + opt_aliases(
                snapshot.optional_dependencies,
            ))
        }
    }
}

/// The package that an alias stands for.
pub open spec fn alias_target(
    packages: Map<Seq<char>, LockedPackageView>,
    alias: AliasRemapView,
) -> Option<LockedPackageView> {
    match lookup(packages, alias.real_dep_path) {
        Some(p) => Some(p),
        None => peerless_target(packages, alias.real_dep_path),
    }
}

/// The packages with those that aliases stand for added under their aliases.
/// Fails with the first alias whose package is missing.
pub open spec fn with_aliases(
    packages: Map<Seq<char>, LockedPackageView>,
    remaps: Seq<AliasRemapView>,
) -> Result<Map<Seq<char>, LockedPackageView>, AliasRemapView>
    decreases remaps.len(),
{
    if remaps.len() == 0 {
        Ok(packages)
    } else {
        match with_aliases(packages, remaps.drop_last()) {
            Err(a) => Err(a),
            Ok(m) => {
                let alias = remaps.last();
                if m.dom().contains(alias.alias_dep_path) {
                    Ok(m)
                } else {
                    match alias_target(m, alias) {
                        Some(p) => Ok(
                            m.insert(
                                alias.alias_dep_path,
                                LockedPackageView {
                                    name: alias.alias_name,
                                    dep_path: alias.alias_dep_path,
                                    alias_of: Some(alias.real_name),
                                    ..p
                                },
                            ),
                        ),
                        None => Err(alias),
                    }
                }
            },
        }
    }
}

/// Why a lockfile cannot be read.
#[derive(Debug, PartialEq)]
pub enum ReadError {
    /// A key that is not a dep path.
    InvalidDepPath(String),
    /// An alias of a package that is not in the lockfile.
    MissingAliasTarget { real_dep_path: String, alias_dep_path: String },
}

/// Model of [`ReadError`].
pub enum ReadErrorView {
    InvalidDepPath(Seq<char>),
    MissingAliasTarget { real_dep_path: Seq<char>, alias_dep_path: Seq<char> },
}

impl DeepView for ReadError {
    type V = ReadErrorView;

    open spec fn deep_view(&self) -> ReadErrorView {
        match self {
            ReadError::InvalidDepPath(k) => ReadErrorView::InvalidDepPath(k@),
            ReadError::MissingAliasTarget { real_dep_path, alias_dep_path } => {
                ReadErrorView::MissingAliasTarget {
                    real_dep_path: real_dep_path@,
                    alias_dep_path: alias_dep_path@,
                }
            },
        }
    }
}

impl ReadErrorView {
    /// The message for the user.
    pub open spec fn message(self) -> Seq<char> {
        match self {
            ReadErrorView::InvalidDepPath(k) => "invalid dep path: "@ + k,
            ReadErrorView::MissingAliasTarget { real_dep_path, alias_dep_path } => {
                "npm-alias references missing package "@ + real_dep_path + " (alias dep_path: "@
                    + alias_dep_path + ")"@
            },
        }
    }
}

impl ReadError {
    /// The message for the user.
    pub fn message(&self) -> (r: String)
        ensures
            r@ == self.deep_view().message(),
    {
        match self {
            ReadError::InvalidDepPath(k) => crate::text::concat("invalid dep path: ", k.as_str()),
            ReadError::MissingAliasTarget { real_dep_path, alias_dep_path } => {
                let mut r = crate::text::concat3(
                    "npm-alias references missing package ",
                    real_dep_path.as_str(),
                    " (alias dep_path: ",
                );
                r.append(alias_dep_path.as_str());
                r.append(")");
                r
            },
        }
    }
}

/// The packages from local sources of the importers.
pub open spec fn graph_locals(doc: PnpmLockfileView) -> Map<Seq<char>, LockedPackageView> {
    let found = add_locals(Map::empty(), all_entries(doc.importers));
    local_packages(doc, found, sorted_keys(found.dom()))
}

/// All aliases, in the order in which they are read.
pub open spec fn graph_aliases(doc: PnpmLockfileView) -> Seq<AliasRemapView> {
    let entries = all_entries(doc.importers);
    let found = add_locals(Map::empty(), entries);
    entry_aliases(entries) + local_aliases(doc, found, sorted_keys(found.dom()))
        + snapshot_aliases(
        doc,
        canonical_keys(graph_locals(doc)),
        sorted_keys(package_keys(doc)),
    )
}

/// The packages of the graph, or the reason why there are none.
pub open spec fn graph_packages(doc: PnpmLockfileView) -> Result<
    Map<Seq<char>, LockedPackageView>,
    ReadErrorView,
> {
    let canonical = canonical_keys(graph_locals(doc));
    match first_invalid(canonical, sorted_keys(package_keys(doc))) {
        Some(k) => Err(ReadErrorView::InvalidDepPath(k)),
        None => match with_aliases(other_packages(doc, canonical), graph_aliases(doc)) {
            Ok(m) => Ok(m.union_prefer_right(graph_locals(doc))),
            Err(a) => Err(
                ReadErrorView::MissingAliasTarget {
                    real_dep_path: a.real_dep_path,
                    alias_dep_path: a.alias_dep_path,
                },
            ),
        },
    }
}

/// The settings, with the defaults of those that are left out.
pub open spec fn graph_settings(settings: Option<PnpmSettingsView>) -> LockfileSettingsView {
    match settings {
        Some(s) => LockfileSettingsView {
            auto_install_peers: s.auto_install_peers != Some(false),
            exclude_links_from_lockfile: s.exclude_links_from_lockfile == Some(true),
            lockfile_include_tarball_url: s.lockfile_include_tarball_url == Some(true),
        },
        None => default_settings(),
    }
}

/// The patch files.
pub open spec fn patch_paths(m: Map<Seq<char>, PatchedDependencyView>) -> Map<
    Seq<char>,
    Seq<char>,
> {
    Map::new(|k: Seq<char>| m.dom().contains(k), |k: Seq<char>| m[k].path())
}

/// The graph that a lockfile records, or the reason why it cannot be read.
pub open spec fn graph_of(doc: PnpmLockfileView) -> Result<LockfileGraphView, ReadErrorView> {
    match graph_packages(doc) {
        Err(e) => Err(e),
        Ok(packages) => Ok(
            LockfileGraphView {
                importers: graph_importers(doc.importers),
                packages,
                settings: graph_settings(doc.settings),
                overrides: or_empty(doc.overrides),
                ignored_optional_dependencies: or_nothing(
                    doc.ignored_optional_dependencies,
                ).to_set(),
                times: or_empty(doc.time),
                skipped_optional_dependencies: graph_skipped(doc.importers),
                catalogs: or_empty(doc.catalogs),
                patched_dependencies: patch_paths(or_empty(doc.patched_dependencies)),
            },
        ),
    }
}

fn dup_or_empty<V: Dup>(m: &Option<StrMap<V>>) -> (r: StrMap<V>)
    ensures
        r@ == or_empty(m.deep_view()),
{
    match m {
        Some(m) => m.dup(),
        None => StrMap::new(),
    }
}

fn dup_or_nothing(v: &Option<Vec<String>>) -> (r: Vec<String>)
    ensures
        r.deep_view() == or_nothing(v.deep_view()),
{
    match v {
        Some(v) => v.dup(),
        None => {
            let r: Vec<String> = Vec::new();
            proof {
                assert(r.deep_view() == Seq::<Seq<char>>::empty());
            }
            r
        },
    }
}

fn read_canonical_keys(locals: &StrMap<LockedPackage>) -> (r: StrSet)
    requires
        all_local(locals@),
    ensures
        r@ == canonical_keys(locals@),
{
    let mut r = StrSet::new();
    let n: usize = locals.len();
    let ghost keys = sorted_keys(locals@.dom());
    let mut i: usize = 0;
    while i < n
        invariant
            all_local(locals@),
            keys == sorted_keys(locals@.dom()),
            is_listing(keys, locals@.dom()),
            n == keys.len(),
            i <= n,
            forall|k: Seq<char>|
                r@.contains(k) <==> exists|j: int|
                    0 <= j < i && k == local_canonical(locals@[#[trigger] keys[j]]),
        decreases n - i,
    {
        let pkg = locals.value_at(i);
        let ghost before = r@;
        proof {
            let k = keys[i as int];
            assert(keys.contains(k));
            assert(locals@.dom().contains(k));
        }
        if let Some(source) = &pkg.local_source {
            r.insert(version_to_dep_path(pkg.name.as_str(), source.specifier().as_str()));
        }
        proof {
            assert(r@ == before.insert(local_canonical(locals@[keys[i as int]])));
            assert forall|k: Seq<char>|
                r@.contains(k) <==> exists|j: int|
                    0 <= j < i + 1 && k == local_canonical(locals@[#[trigger] keys[j]]) by {
                if r@.contains(k) {
                    if before.contains(k) {
                        let j = choose|j: int|
                            0 <= j < i && k == local_canonical(locals@[#[trigger] keys[j]]);
                        assert(k == local_canonical(locals@[keys[j]]));
                    } else {
                        assert(k == local_canonical(locals@[keys[i as int]]));
                    }
                }
            }
        }
        i = i + 1;
    }
    proof {
        assert forall|k: Seq<char>| r@.contains(k) <==> canonical_keys(locals@).contains(k) by {
            if r@.contains(k) {
                let j = choose|j: int|
                    0 <= j < n && k == local_canonical(locals@[#[trigger] keys[j]]);
                assert(keys.contains(keys[j]));
                assert(locals@.dom().contains(keys[j]));
            }
            if canonical_keys(locals@).contains(k) {
                let q = choose|q: Seq<char>| #[trigger]
                    locals@.dom().contains(q) && local_canonical(locals@[q]) == k;
                assert(keys.contains(q));
                let j = choose|j: int| 0 <= j < keys.len() && keys[j] == q;
                assert(k == local_canonical(locals@[keys[j]]));
            }
        }
        assert(r@ =~= canonical_keys(locals@));
    }
    r
}

/// Read the package under a key.
fn read_package(
    doc: &PnpmLockfile,
    key: &str,
    name: String,
    key_version: String,
    remaps: &mut Vec<AliasRemap>,
) -> (r: LockedPackage)
    requires
        dep_path_parts(key@) == Some((name@, key_version@)),
    ensures
        r.deep_view() == locked_package(doc.deep_view(), key@),
        final(remaps).deep_view() == old(remaps).deep_view() + (opt_aliases(
            snapshot_at(doc.deep_view(), key@).dependencies,
        ) + opt_aliases(snapshot_at(doc.deep_view(), key@).optional_dependencies)),
{
    let ghost remaps0 = remaps.deep_view();
    let empty_package = PnpmPackageInfo {
        resolution: None,
        version: None,
        engines: StrMap::new(),
        os: Vec::new(),
        cpu: Vec::new(),
        libc: Vec::new(),
        has_bin: false,
        peer_dependencies: None,
        peer_dependencies_meta: None,
        alias_of: None,
    };
    let empty_snap = PnpmSnapshot {
        dependencies: None,
        optional_dependencies: None,
        transitive_peer_dependencies: None,
        optional: None,
        bundled_dependencies: None,
    };
    proof {
        assert(empty_package.deep_view() =~~= empty_info());
        assert(empty_snap.deep_view() =~~= empty_snapshot());
    }
    let canonical = version_to_dep_path(name.as_str(), key_version.as_str());
    let info: &PnpmPackageInfo = match doc.packages.get(canonical.as_str()) {
        Some(info) => info,
        None => match doc.packages.get(key) {
            Some(info) => info,
            None => &empty_package,
        },
    };
    let snapshot: &PnpmSnapshot = match doc.snapshots.get(key) {
        Some(s) => s,
        None => &empty_snap,
    };
    let ghost info_view = info.deep_view();
    let ghost snap_view = snapshot.deep_view();
    proof {
        assert(snap_view == snapshot_at(doc.deep_view(), key@));
        assert(locked_package(doc.deep_view(), key@) == package_from(key@, info_view, snap_view));
    }
    let mut dependencies = dup_or_empty(&snapshot.dependencies);
    let mut optional_dependencies = dup_or_empty(&snapshot.optional_dependencies);
    rewrite_snapshot_alias_deps(&mut dependencies, remaps);
    rewrite_snapshot_alias_deps(&mut optional_dependencies, remaps);
    dependencies.extend(&optional_dependencies);
    proof {
        lemma_no_aliases();
        assert(remaps.deep_view() =~= remaps0 + (opt_aliases(snap_view.dependencies) + opt_aliases(
            snap_view.optional_dependencies,
        )));
    }
    let url_keyed = LocalSource::looks_like_remote_tarball_url(key_version.as_str());
    let mut integrity: Option<String> = None;
    let mut tarball_url: Option<String> = None;
    let mut local_source: Option<LocalSource> = None;
    if let Some(res) = &info.resolution {
        integrity = res.integrity.dup();
        if let Some(t) = &res.tarball {
            if LocalSource::looks_like_remote_tarball_url(t.as_str()) {
                tarball_url = Some(t.clone());
            }
        }
        local_source = match local_source_from_resolution(res) {
            Some(LocalSource::RemoteTarball(t)) => {
                if url_keyed {
                    Some(LocalSource::RemoteTarball(t))
                } else {
                    None
                }
            },
            other => other,
        };
    }
    let version = match &info.version {
        Some(v) => if url_keyed && tarball_url.is_some() {
            v.clone()
        } else {
            key_version
        },
        None => key_version,
    };
    let mut bin: StrMap<String> = StrMap::new();
    if info.has_bin {
        bin.insert(String::new(), String::new());
    }
    let optional = match snapshot.optional {
        Some(b) => b,
        None => false,
    };
    let r = LockedPackage {
        name,
        version,
        integrity,
        dependencies,
        optional_dependencies,
        peer_dependencies: dup_or_empty(&info.peer_dependencies),
        peer_dependencies_meta: dup_or_empty(&info.peer_dependencies_meta),
        dep_path: key.to_owned(),
        local_source,
        os: info.os.dup(),
        cpu: info.cpu.dup(),
        libc: info.libc.dup(),
        bundled_dependencies: dup_or_nothing(&snapshot.bundled_dependencies),
        optional,
        transitive_peer_dependencies: dup_or_nothing(&snapshot.transitive_peer_dependencies),
        tarball_url,
        alias_of: info.alias_of.dup(),
        yarn_checksum: None,
        engines: info.engines.dup(),
        bin,
        declared_dependencies: StrMap::new(),
    };
    proof {
        assert(r.deep_view() =~= package_from(key@, info_view, snap_view));
    }
    r
}

proof fn lemma_no_aliases()
    ensures
        aliases(Map::<Seq<char>, Seq<char>>::empty()) == Seq::<AliasRemapView>::empty(),
{
    let keys = Seq::<Seq<char>>::empty();
    let m = Map::<Seq<char>, Seq<char>>::empty();
    assert(is_listing(keys, m.dom()));
    crate::strmap::lemma_sorted_keys(keys, m.dom());
}

/// The keys of the packages, in order.
fn read_package_keys(doc: &PnpmLockfile) -> (r: Vec<String>)
    ensures
        r.deep_view() == sorted_keys(package_keys(doc.deep_view())),
{
    let mut r: Vec<String> = Vec::new();
    let from_packages = doc.snapshots.is_empty();
    let n: usize = if from_packages {
        doc.packages.len()
    } else {
        doc.snapshots.len()
    };
    let ghost keys = sorted_keys(package_keys(doc.deep_view()));
    let mut i: usize = 0;
    proof {
        assert(r.deep_view() =~= keys.take(0));
    }
    while i < n
        invariant
            keys == sorted_keys(package_keys(doc.deep_view())),
            from_packages == (doc.snapshots@ == Map::<Seq<char>, PnpmSnapshotView>::empty()),
            n == keys.len(),
            i <= n,
            r.deep_view() == keys.take(i as int),
        decreases n - i,
    {
        let ghost before = r.deep_view();
        let k = if from_packages {
            doc.packages.key_at(i).clone()
        } else {
            doc.snapshots.key_at(i).clone()
        };
        r.push(k);
        proof {
            assert(r.deep_view() =~= before.push(k@));
            assert(keys.take(i + 1) =~= keys.take(i as int).push(k@));
        }
        i = i + 1;
    }
    proof {
        assert(keys.take(n as int) =~= keys);
    }
    r
}

proof fn lemma_first_invalid_take(canonical: Set<Seq<char>>, keys: Seq<Seq<char>>, n: int)
    requires
        0 <= n <= keys.len(),
        first_invalid(canonical, keys.take(n)) is Some,
    ensures
        first_invalid(canonical, keys) == first_invalid(canonical, keys.take(n)),
    decreases keys.len() - n,
{
    if n == keys.len() {
        assert(keys.take(n) == keys);
    } else {
        assert(keys.take(n + 1).drop_last() == keys.take(n));
        lemma_first_invalid_take(canonical, keys, n + 1);
    }
}

/// Read the packages that are not from local sources of the importers.
fn read_packages(doc: &PnpmLockfile, canonical: &StrSet, remaps: &mut Vec<AliasRemap>) -> (r:
    Result<StrMap<LockedPackage>, ReadError>)
    ensures
        match r {
            Ok(m) => {
                let keys = sorted_keys(package_keys(doc.deep_view()));
                &&& first_invalid(canonical@, keys) is None
                &&& m@ == other_packages(doc.deep_view(), canonical@)
                &&& final(remaps).deep_view() == old(remaps).deep_view() + snapshot_aliases(
                    doc.deep_view(),
                    canonical@,
                    keys,
                )
            },
            Err(e) => match first_invalid(
                canonical@,
                sorted_keys(package_keys(doc.deep_view())),
            ) {
                Some(k) => e.deep_view() == ReadErrorView::InvalidDepPath(k),
                None => false,
            },
        },
{
    let ghost d = doc.deep_view();
    let ghost remaps0 = remaps.deep_view();
    let ghost keys = sorted_keys(package_keys(d));
    let listing = read_package_keys(doc);
    let a: usize = doc.packages.len();
    let b: usize = doc.snapshots.len();
    let _ = doc.snapshots.is_empty();
    let ghost all = other_packages(d, canonical@);
    let mut r: StrMap<LockedPackage> = StrMap::new();
    let mut i: usize = 0;
    proof {
        assert(is_listing(keys, package_keys(d)));
        assert(r@ =~= all.restrict(prefix_set(keys, 0)));
        assert(remaps0 =~= remaps0 + snapshot_aliases(d, canonical@, keys.take(0)));
    }
    while i < listing.len()
        invariant
            d == doc.deep_view(),
            keys == sorted_keys(package_keys(d)),
            is_listing(keys, package_keys(d)),
            all == other_packages(d, canonical@),
            listing.deep_view() == keys,
            i <= listing.len(),
            first_invalid(canonical@, keys.take(i as int)) is None,
            r@ == all.restrict(prefix_set(keys, i as int)),
            remaps.deep_view() == remaps0 + snapshot_aliases(d, canonical@, keys.take(i as int)),
        decreases listing.len() - i,
    {
        let key = &listing[i];
        proof {
            assert(keys[i as int] == listing.deep_view()[i as int]);
            assert(key@ == keys[i as int]);
            assert(keys.take(i + 1).drop_last() == keys.take(i as int));
            assert(keys.take(i + 1).last() == key@);
            assert(keys.contains(key@));
            assert(package_keys(d).contains(key@));
        }
        if canonical.contains(key.as_str()) {
            proof {
                assert(all.restrict(prefix_set(keys, i as int + 1)) =~= all.restrict(
                    prefix_set(keys, i as int),
                ));
            }
            i = i + 1;
            continue;
        }
        match parse_dep_path(key.as_str()) {
            None => {
                proof {
                    lemma_first_invalid_take(canonical@, keys, i + 1);
                }
                return Err(ReadError::InvalidDepPath(key.clone()));
            },
            Some((name, version)) => {
                if canonical.contains(
                    version_to_dep_path(name.as_str(), version.as_str()).as_str(),
                ) {
                    proof {
                        assert(all.restrict(prefix_set(keys, i as int + 1)) =~= all.restrict(
                            prefix_set(keys, i as int),
                        ));
                    }
                } else {
                    let pkg = read_package(doc, key.as_str(), name, version, remaps);
                    proof {
                        assert(remaps.deep_view() =~= remaps0 + snapshot_aliases(
                            d,
                            canonical@,
                            keys.take(i + 1),
                        ));
                        assert(all.restrict(prefix_set(keys, i as int + 1)) =~= all.restrict(
                            prefix_set(keys, i as int),
                        ).insert(key@, pkg.deep_view()));
                    }
                    r.insert(key.clone(), pkg);
                }
            },
        }
        i = i + 1;
    }
    proof {
        assert(keys.take(keys.len() as int) == keys);
        assert(all.restrict(prefix_set(keys, keys.len() as int)) =~= all);
    }
    Ok(r)
}

proof fn lemma_with_aliases_err(
    packages: Map<Seq<char>, LockedPackageView>,
    remaps: Seq<AliasRemapView>,
    n: int,
)
    requires
        0 <= n <= remaps.len(),
        with_aliases(packages, remaps.take(n)) is Err,
    ensures
        with_aliases(packages, remaps) == with_aliases(packages, remaps.take(n)),
    decreases remaps.len() - n,
{
    if n == remaps.len() {
        assert(remaps.take(n) == remaps);
    } else {
        assert(remaps.take(n + 1).drop_last() == remaps.take(n));
        lemma_with_aliases_err(packages, remaps, n + 1);
    }
}

/// Add the aliased packages.
fn add_aliases(packages: StrMap<LockedPackage>, remaps: &Vec<AliasRemap>) -> (r: Result<
    StrMap<LockedPackage>,
    ReadError,
>)
    ensures
        match r {
            Ok(m) => with_aliases(packages@, remaps.deep_view()) == Ok::<
                Map<Seq<char>, LockedPackageView>,
                AliasRemapView,
            >(m@),
            Err(e) => match with_aliases(packages@, remaps.deep_view()) {
                Ok(_) => false,
                Err(a) => e.deep_view() == (ReadErrorView::MissingAliasTarget {
                    real_dep_path: a.real_dep_path,
                    alias_dep_path: a.alias_dep_path,
                }),
            },
        },
{
    let ghost packages0 = packages@;
    let ghost all = remaps.deep_view();
    let mut m = packages;
    let mut i: usize = 0;
    while i < remaps.len()
        invariant
            packages0 == packages@,
            all == remaps.deep_view(),
            i <= remaps.len(),
            with_aliases(packages0, all.take(i as int)) == Ok::<
                Map<Seq<char>, LockedPackageView>,
                AliasRemapView,
            >(m@),
        decreases remaps.len() - i,
    {
        let alias = &remaps[i];
        proof {
            assert(all[i as int] == alias.deep_view());
            assert(all.take(i + 1).drop_last() == all.take(i as int));
            assert(all.take(i + 1).last() == alias.deep_view());
        }
        if !m.contains_key(alias.alias_dep_path.as_str()) {
            let target = match m.get(alias.real_dep_path.as_str()) {
                Some(p) => Some(p),
                None => peerless_alias_target(&m, alias.real_dep_path.as_str()),
            };
            match target {
                None => {
                    proof {
                        lemma_with_aliases_err(packages0, all, i + 1);
                    }
                    return Err(
                        ReadError::MissingAliasTarget {
                            real_dep_path: alias.real_dep_path.clone(),
                            alias_dep_path: alias.alias_dep_path.clone(),
                        },
                    );
                },
                Some(p) => {
                    let mut aliased = p.dup();
                    aliased.name = alias.alias_name.clone();
                    aliased.dep_path = alias.alias_dep_path.clone();
                    aliased.alias_of = Some(alias.real_name.clone());
                    m.insert(alias.alias_dep_path.clone(), aliased);
                },
            }
        }
        i = i + 1;
    }
    proof {
        assert(all.take(all.len() as int) == all);
    }
    Ok(m)
}

fn read_patch_paths(m: &StrMap<PatchedDependency>) -> (r: StrMap<String>)
    ensures
        r@ == patch_paths(m@),
{
    let mut r: StrMap<String> = StrMap::new();
    let n: usize = m.len();
    let mut i: usize = 0;
    let ghost keys = sorted_keys(m@.dom());
    let ghost all = patch_paths(m@);
    proof {
        assert(r@ =~= all.restrict(prefix_set(keys, 0)));
    }
    while i < n
        invariant
            keys == sorted_keys(m@.dom()),
            n == keys.len(),
            all == patch_paths(m@),
            i <= n,
            r@ == all.restrict(prefix_set(keys, i as int)),
        decreases n - i,
    {
        let k = m.key_at(i);
        let v = m.value_at(i);
        r.insert(k.clone(), v.path().clone());
        proof {
            assert(all.restrict(prefix_set(keys, i as int + 1)) =~= all.restrict(
                prefix_set(keys, i as int),
            ).insert(k@, v.deep_view().path()));
        }
        i = i + 1;
    }
    proof {
        assert(all.restrict(prefix_set(keys, n as int)) =~= all);
    }
    r
}

fn read_settings(settings: &Option<PnpmSettings>) -> (r: LockfileSettings)
    ensures
        r.deep_view() == graph_settings(settings.deep_view()),
{
    match settings {
        Some(s) => LockfileSettings {
            auto_install_peers: match s.auto_install_peers {
                Some(b) => b,
                None => true,
            },
            exclude_links_from_lockfile: match s.exclude_links_from_lockfile {
                Some(b) => b,
                None => false,
            },
            lockfile_include_tarball_url: match s.lockfile_include_tarball_url {
                Some(b) => b,
                None => false,
            },
        },
        None => LockfileSettings::default(),
    }
}

/// The members of a list.
fn read_set(v: &Option<Vec<String>>) -> (r: StrSet)
    ensures
        r@ == or_nothing(v.deep_view()).to_set(),
{
    let mut r = StrSet::new();
    match v {
        None => {
            proof {
                assert(r@ =~= Seq::<Seq<char>>::empty().to_set());
            }
        },
        Some(v) => {
            let ghost all = v.deep_view();
            let mut i: usize = 0;
            proof {
                assert(r@ =~= all.take(0).to_set());
            }
            while i < v.len()
                invariant
                    all == v.deep_view(),
                    i <= v.len(),
                    r@ == all.take(i as int).to_set(),
                decreases v.len() - i,
            {
                r.insert(v[i].clone());
                proof {
                    let k = all[i as int];
                    let a = all.take(i as int);
                    let b = all.take(i + 1);
                    assert(b =~= a.push(k));
                    assert forall|x: Seq<char>| b.contains(x) <==> a.contains(x) || x == k by {
                        if a.contains(x) {
                            let j = choose|j: int| 0 <= j < a.len() && a[j] == x;
                            assert(b[j] == x);
                        }
                        assert(b[i as int] == k);
                        if b.contains(x) && x != k {
                            let j = choose|j: int| 0 <= j < b.len() && b[j] == x;
                            assert(a[j] == x);
                        }
                    }
                    assert(b.to_set() =~= a.to_set().insert(k));
                }
                i = i + 1;
            }
            proof {
                assert(all.take(all.len() as int) == all);
            }
        },
    }
    r
}

/// Read a lockfile into a graph.
pub fn parse(doc: &PnpmLockfile) -> (r: Result<LockfileGraph, ReadError>)
    ensures
        match r {
            Ok(g) => graph_of(doc.deep_view()) == Ok::<LockfileGraphView, ReadErrorView>(
                g.deep_view(),
            ),
            Err(e) => graph_of(doc.deep_view()) == Err::<LockfileGraphView, ReadErrorView>(
                e.deep_view(),
            ),
        },
{
    let ghost d = doc.deep_view();
    let mut found: StrMap<LockedPackage> = StrMap::new();
    let mut remaps: Vec<AliasRemap> = Vec::new();
    let (importers, skipped_optional_dependencies) = read_importers(
        &doc.importers,
        &mut found,
        &mut remaps,
    );
    proof {
        lemma_add_locals_local(Map::empty(), all_entries(d.importers));
    }
    let locals = harvest_all(doc, &found, &mut remaps);
    proof {
        lemma_local_packages_local(d, found@, sorted_keys(found@.dom()));
        assert(locals@ == graph_locals(d));
    }
    let canonical = read_canonical_keys(&locals);
    let others = match read_packages(doc, &canonical, &mut remaps) {
        Ok(m) => m,
        Err(e) => {
            return Err(e);
        },
    };
    proof {
        assert(remaps.deep_view() == graph_aliases(d));
    }
    let mut packages = match add_aliases(others, &remaps) {
        Ok(m) => m,
        Err(e) => {
            return Err(e);
        },
    };
    packages.extend(&locals);
    let patched_dependencies = match &doc.patched_dependencies {
        Some(m) => read_patch_paths(m),
        None => {
            let m: StrMap<String> = StrMap::new();
            proof {
                assert(m@ =~= patch_paths(Map::empty()));
            }
            m
        },
    };
    let g = LockfileGraph {
        importers,
        packages,
        settings: read_settings(&doc.settings),
        overrides: dup_or_empty(&doc.overrides),
        ignored_optional_dependencies: read_set(&doc.ignored_optional_dependencies),
        times: dup_or_empty(&doc.time),
        skipped_optional_dependencies,
        catalogs: dup_or_empty(&doc.catalogs),
        patched_dependencies,
    };
    Ok(g)
}

} // verus!
