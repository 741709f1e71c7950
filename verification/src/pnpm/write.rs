//! Writing a graph as a `pnpm-lock.yaml`.
use vstd::prelude::*;
use crate::graph::{
    DepType, DirectDep, DirectDepView, LockedPackage, LockedPackageView, LockfileGraph,
    LockfileGraphView,
};
use crate::manifest::{PackageJson, Ranges};
use crate::pnpm::dep_path::{
    dep_path, dep_path_parts, dep_path_tail, parse_dep_path, peerless_dep_path, tail,
    version_to_dep_path,
};
use crate::pnpm::document::{
    PatchedDependency, PatchedDependencyView, PnpmDepSpec, PnpmDepSpecView, PnpmImporter,
    PnpmImporterView, PnpmLockfile, PnpmLockfileView, PnpmPackageInfo, PnpmPackageInfoView,
    PnpmResolution, PnpmResolutionView, PnpmSettings, PnpmSettingsView, PnpmSnapshot,
    PnpmSnapshotView,
};
use crate::source::{
    component, file_name, path_component, path_file_name, LocalSource, LocalSourceView,
};
use crate::strmap::{lookup, prefix_set, sorted_keys, Dup, StrMap};
use crate::text::{chars, concat, same, starts_with, until};

verus! {

/// What a lockfile is written from.
pub struct Input {
    pub graph: LockfileGraphView,
    /// The ranges in the manifest of the workspace root.
    pub ranges: Ranges,
    /// Whether aliases are written the way pnpm itself does.
    pub native: bool,
}

/// Whether the file at `path` is pnpm's own lockfile.
pub open spec fn is_native(path: Seq<char>) -> bool {
    file_name(path) == Some("pnpm-lock.yaml"@)
}

/// The range of a dependency in the manifest of the workspace root.
pub open spec fn root_range(ranges: Ranges, dep: DirectDepView) -> Option<Seq<char>> {
    match dep.dep_type {
        DepType::Production => lookup(ranges.dependencies, dep.name),
        DepType::Dev => lookup(ranges.dev_dependencies, dep.name),
        DepType::Optional => lookup(ranges.optional_dependencies, dep.name),
    }
}

/// The source of the package under a dep path.
pub open spec fn source_at(graph: LockfileGraphView, path: Seq<char>) -> Option<LocalSourceView> {
    match lookup(graph.packages, path) {
        Some(p) => p.local_source,
        None => None,
    }
}

/// The name that the package under a dep path is an alias of.
pub open spec fn alias_at(graph: LockfileGraphView, path: Seq<char>) -> Option<Seq<char>> {
    match lookup(graph.packages, path) {
        Some(p) => p.alias_of,
        None => None,
    }
}

/// Whether a direct dependency is left out: it is a link, and links are
/// excluded.
pub open spec fn is_left_out(graph: LockfileGraphView, dep: DirectDepView) -> bool {
    graph.settings.exclude_links_from_lockfile && source_at(graph, dep.dep_path) matches Some(
        LocalSourceView::Link(_),
    )
}

/// The entry of a direct dependency: the range that was asked for, with the
/// root manifest and `*` to fall back on, and what it resolved to.
pub open spec fn written_dep(
    input: Input,
    importer: Seq<char>,
    dep: DirectDepView,
) -> PnpmDepSpecView {
    PnpmDepSpecView {
        specifier: match dep.specifier {
            Some(s) => s,
            None => match root_range(input.ranges, dep) {
                Some(s) => if importer == "."@ {
                    s
                } else {
                    "*"@
                },
                None => "*"@,
            },
        },
        version: match source_at(input.graph, dep.dep_path) {
            Some(source) => source.specifier(),
            None => match alias_at(input.graph, dep.dep_path) {
                Some(name) => if input.native {
                    dep_path(name, tail(dep.dep_path, dep.name))
                } else {
                    tail(dep.dep_path, dep.name)
                },
                None => tail(dep.dep_path, dep.name),
            },
        },
    }
}

/// The section of an importer that holds the dependencies of one type. Of two
/// with one name the last counts.
pub open spec fn written_section(
    input: Input,
    importer: Seq<char>,
    deps: Seq<DirectDepView>,
    dep_type: DepType,
) -> Option<Map<Seq<char>, PnpmDepSpecView>>
    decreases deps.len(),
{
    if deps.len() == 0 {
        None
    } else {
        let before = written_section(input, importer, deps.drop_last(), dep_type);
        let dep = deps.last();
        if dep.dep_type == dep_type && !is_left_out(input.graph, dep) {
            Some(
                (match before {
                    Some(m) => m,
                    None => Map::empty(),
                }).insert(dep.name, written_dep(input, importer, dep)),
            )
        } else {
            before
        }
    }
}

/// Skipped dependencies: their ranges, and a version that stands for none.
pub open spec fn skipped_section(ranges: Map<Seq<char>, Seq<char>>) -> Map<
    Seq<char>,
    PnpmDepSpecView,
> {
    Map::new(
        |k: Seq<char>| ranges.dom().contains(k),
        |k: Seq<char>| PnpmDepSpecView { specifier: ranges[k], version: "0.0.0"@ },
    )
}

/// A map that is left out where it is empty.
pub open spec fn unless_empty<V>(m: Map<Seq<char>, V>) -> Option<Map<Seq<char>, V>> {
    if m == Map::<Seq<char>, V>::empty() {
        None
    } else {
        Some(m)
    }
}

/// A list that is left out where it is empty.
pub open spec fn unless_nothing(v: Seq<Seq<char>>) -> Option<Seq<Seq<char>>> {
    if v.len() == 0 {
        None
    } else {
        Some(v)
    }
}

/// A flag that is left out where it is not set.
pub open spec fn unless_false(b: bool) -> Option<bool> {
    if b {
        Some(true)
    } else {
        None
    }
}

/// An importer.
pub open spec fn written_importer(
    input: Input,
    path: Seq<char>,
    deps: Seq<DirectDepView>,
) -> PnpmImporterView {
    PnpmImporterView {
        dependencies: written_section(input, path, deps, DepType::Production),
        dev_dependencies: written_section(input, path, deps, DepType::Dev),
        optional_dependencies: written_section(input, path, deps, DepType::Optional),
        skipped_optional_dependencies: match lookup(
            input.graph.skipped_optional_dependencies,
            path,
        ) {
            Some(ranges) => unless_empty(skipped_section(ranges)),
            None => None,
        },
    }
}

/// The importers.
pub open spec fn written_importers(input: Input) -> Map<Seq<char>, PnpmImporterView> {
    Map::new(
        |k: Seq<char>| input.graph.importers.dom().contains(k),
        |k: Seq<char>| written_importer(input, k, input.graph.importers[k]),
    )
}

/// Whether the version in the key of a package is the URL of its tarball.
pub open spec fn is_url_keyed(pkg: LockedPackageView) -> bool {
    match (pkg.tarball_url, dep_path_parts(pkg.dep_path)) {
        (Some(url), Some((_, version))) => version == url,
        _ => false,
    }
}

/// The `packages:` key of a package.
pub open spec fn info_key(input: Input, pkg: LockedPackageView) -> Seq<char> {
    match pkg.local_source {
        Some(source) => dep_path(pkg.name, source.specifier()),
        None => if input.native && pkg.alias_of is Some {
            dep_path(pkg.alias_of->0, pkg.version)
        } else if is_url_keyed(pkg) {
            let (name, version) = dep_path_parts(pkg.dep_path)->0;
            dep_path(name, version)
        } else {
            dep_path(pkg.name, pkg.version)
        },
    }
}

/// The `snapshots:` key of a package.
pub open spec fn snapshot_key(input: Input, path: Seq<char>, pkg: LockedPackageView) -> Seq<char> {
    match pkg.local_source {
        Some(source) => dep_path(pkg.name, source.specifier()),
        None => if input.native && pkg.alias_of is Some {
            dep_path(pkg.alias_of->0, tail(path, pkg.name))
        } else {
            path
        },
    }
}

/// A resolution that says nothing.
pub open spec fn empty_resolution() -> PnpmResolutionView {
    PnpmResolutionView {
        integrity: None,
        directory: None,
        tarball: None,
        commit: None,
        repo: None,
        type_: None,
        path: None,
    }
}

/// Where a package from a local source is fetched from.
pub open spec fn local_resolution(source: LocalSourceView) -> Option<PnpmResolutionView> {
    match source {
        LocalSourceView::Directory(_) => Some(
            PnpmResolutionView {
                directory: Some(source.posix()),
                type_: Some("directory"@),
                ..empty_resolution()
            },
        ),
        LocalSourceView::Tarball(_) => Some(
            PnpmResolutionView { tarball: Some("file:"@ + source.posix()), ..empty_resolution() },
        ),
        LocalSourceView::Link(_) => None,
        LocalSourceView::Git(g) => Some(
            PnpmResolutionView {
                commit: Some(g.resolved),
                repo: Some(g.url),
                type_: Some("git"@),
                path: match g.subpath {
                    Some(sub) => Some("/"@ + sub),
                    None => None,
                },
                ..empty_resolution()
            },
        ),
        LocalSourceView::RemoteTarball(t) => Some(
            PnpmResolutionView {
                integrity: if t.integrity.len() == 0 {
                    None
                } else {
                    Some(t.integrity)
                },
                tarball: Some(t.url),
                ..empty_resolution()
            },
        ),
    }
}

/// Where a package from a registry is fetched from. The URL of its tarball is told
/// where that is asked for, and where the name does not tell it.
pub open spec fn registry_resolution(include_tarball_url: bool, pkg: LockedPackageView) -> Option<
    PnpmResolutionView,
> {
    match pkg.integrity {
        Some(i) => Some(
            PnpmResolutionView {
                integrity: Some(i),
                tarball: if include_tarball_url || "@jsr/"@.is_prefix_of(pkg.registry_name()) {
                    pkg.tarball_url
                } else {
                    None
                },
                ..empty_resolution()
            },
        ),
        None => None,
    }
}

/// Where a package is fetched from.
pub open spec fn written_resolution(input: Input, pkg: LockedPackageView) -> Option<
    PnpmResolutionView,
> {
    match pkg.local_source {
        Some(source) => local_resolution(source),
        None => if is_url_keyed(pkg) {
            Some(
                PnpmResolutionView {
                    integrity: pkg.integrity,
                    tarball: pkg.tarball_url,
                    ..empty_resolution()
                },
            )
        } else {
            registry_resolution(input.graph.settings.lockfile_include_tarball_url, pkg)
        },
    }
}

/// The `packages:` entry of a package.
pub open spec fn written_info(input: Input, pkg: LockedPackageView) -> PnpmPackageInfoView {
    PnpmPackageInfoView {
        resolution: written_resolution(input, pkg),
        version: if is_url_keyed(pkg) {
            Some(pkg.version)
        } else {
            None
        },
        engines: pkg.engines,
        os: pkg.os,
        cpu: pkg.cpu,
        libc: pkg.libc,
        has_bin: pkg.bin != Map::<Seq<char>, Seq<char>>::empty(),
        peer_dependencies: unless_empty(pkg.peer_dependencies),
        peer_dependencies_meta: unless_empty(pkg.peer_dependencies_meta),
        alias_of: if input.native {
            None
        } else {
            pkg.alias_of
        },
    }
}

/// Whether a package is a link; links have no entries of their own.
pub open spec fn is_link(pkg: LockedPackageView) -> bool {
    pkg.local_source matches Some(LocalSourceView::Link(_))
}

/// The `packages:` entries of the packages under the given keys. The peer
/// contexts of a package share one entry, which the last of them writes.
pub open spec fn written_packages(input: Input, keys: Seq<Seq<char>>) -> Map<
    Seq<char>,
    PnpmPackageInfoView,
>
    decreases keys.len(),
{
    if keys.len() == 0 {
        Map::empty()
    } else {
        let before = written_packages(input, keys.drop_last());
        let pkg = input.graph.packages[keys.last()];
        if is_link(pkg) {
            before
        } else {
            before.insert(info_key(input, pkg), written_info(input, pkg))
        }
    }
}

/// The package that a dependency with a version tail refers to; the key of a
/// local source holds the name as a path component.
pub open spec fn dep_target(
    graph: LockfileGraphView,
    name: Seq<char>,
    value: Seq<char>,
) -> Option<LockedPackageView> {
    match lookup(graph.packages, dep_path(name, value)) {
        Some(p) => Some(p),
        None => match lookup(graph.packages, dep_path(name, until(value, '('))) {
            Some(p) => Some(p),
            None => lookup(graph.packages, dep_path(component(name), until(value, '('))),
        },
    }
}

/// A dependency of a snapshot: the specifier of a local source, the dep path
/// of an alias where those are written so, or else the version tail.
pub open spec fn written_value(input: Input, name: Seq<char>, value: Seq<char>) -> Seq<char> {
    match dep_target(input.graph, name, value) {
        Some(target) => if target.local_source is Some && !is_link(target) {
            target.local_source->0.specifier()
        } else if input.native && target.alias_of is Some {
            dep_path(target.alias_of->0, value)
        } else {
            value
        },
        None => value,
    }
}

/// The dependencies of a snapshot.
pub open spec fn written_deps(input: Input, deps: Map<Seq<char>, Seq<char>>) -> Map<
    Seq<char>,
    Seq<char>,
> {
    Map::new(
        |k: Seq<char>| deps.dom().contains(k),
        |k: Seq<char>| written_value(input, k, deps[k]),
    )
}

/// The `snapshots:` entry of a package.
pub open spec fn written_snapshot(input: Input, pkg: LockedPackageView) -> PnpmSnapshotView {
    PnpmSnapshotView {
        dependencies: unless_empty(
            written_deps(input, pkg.dependencies).remove_keys(pkg.optional_dependencies.dom()),
        ),
        optional_dependencies: unless_empty(written_deps(input, pkg.optional_dependencies)),
        transitive_peer_dependencies: unless_nothing(pkg.transitive_peer_dependencies),
        optional: unless_false(pkg.optional),
        bundled_dependencies: unless_nothing(pkg.bundled_dependencies),
    }
}

/// The `snapshots:` entries of the packages under the given keys.
pub open spec fn written_snapshots(input: Input, keys: Seq<Seq<char>>) -> Map<
    Seq<char>,
    PnpmSnapshotView,
>
    decreases keys.len(),
{
    if keys.len() == 0 {
        Map::empty()
    } else {
        let before = written_snapshots(input, keys.drop_last());
        let path = keys.last();
        let pkg = input.graph.packages[path];
        if is_link(pkg) {
            before
        } else {
            before.insert(snapshot_key(input, path, pkg), written_snapshot(input, pkg))
        }
    }
}

/// Patch files as bare paths.
pub open spec fn written_patches(m: Map<Seq<char>, Seq<char>>) -> Map<
    Seq<char>,
    PatchedDependencyView,
> {
    Map::new(
        |k: Seq<char>| m.dom().contains(k),
        |k: Seq<char>| PatchedDependencyView::Path(m[k]),
    )
}

/// The lockfile of a graph.
pub open spec fn document_of(input: Input) -> PnpmLockfileView {
    let graph = input.graph;
    let keys = sorted_keys(graph.packages.dom());
    PnpmLockfileView {
        settings: Some(
            PnpmSettingsView {
                auto_install_peers: Some(graph.settings.auto_install_peers),
                exclude_links_from_lockfile: Some(graph.settings.exclude_links_from_lockfile),
                lockfile_include_tarball_url: unless_false(
                    graph.settings.lockfile_include_tarball_url,
                ),
            },
        ),
        overrides: unless_empty(graph.overrides),
        patched_dependencies: unless_empty(written_patches(graph.patched_dependencies)),
        catalogs: unless_empty(graph.catalogs),
        time: unless_empty(graph.times),
        importers: written_importers(input),
        packages: written_packages(input, keys),
        ignored_optional_dependencies: unless_nothing(
            sorted_keys(graph.ignored_optional_dependencies),
        ),
        snapshots: written_snapshots(input, keys),
    }
}

/// What a lockfile is written from.
pub open spec fn input_of(path: Seq<char>, graph: &LockfileGraph, manifest: &PackageJson) -> Input {
    Input { graph: graph.deep_view(), ranges: manifest.ranges(), native: is_native(path) }
}

fn root_specifier<'a>(manifest: &'a PackageJson, dep: &DirectDep) -> (r: Option<&'a String>)
    ensures
        (match r {
            Some(s) => Some(s@),
            None => None,
        }) == root_range(manifest.ranges(), dep.deep_view()),
{
    match dep.dep_type {
        DepType::Production => manifest.dependencies.get(dep.name.as_str()),
        DepType::Dev => manifest.dev_dependencies.get(dep.name.as_str()),
        DepType::Optional => manifest.optional_dependencies.get(dep.name.as_str()),
    }
}

/// The entry of a direct dependency.
fn write_dep(
    graph: &LockfileGraph,
    manifest: &PackageJson,
    native: bool,
    importer: &str,
    dep: &DirectDep,
) -> (r: PnpmDepSpec)
    ensures
        r.deep_view() == written_dep(
            Input { graph: graph.deep_view(), ranges: manifest.ranges(), native },
            importer@,
            dep.deep_view(),
        ),
{
    let specifier = match &dep.specifier {
        Some(s) => s.clone(),
        None => match root_specifier(manifest, dep) {
            Some(s) => if same(importer, ".") {
                s.clone()
            } else {
                "*".to_owned()
            },
            None => "*".to_owned(),
        },
    };
    let rest = dep_path_tail(dep.dep_path.as_str(), dep.name.as_str());
    let version = match graph.packages.get(dep.dep_path.as_str()) {
        Some(p) => match &p.local_source {
            Some(source) => source.specifier(),
            None => match &p.alias_of {
                Some(name) => if native {
                    version_to_dep_path(name.as_str(), rest.as_str())
                } else {
                    rest
                },
                None => rest,
            },
        },
        None => rest,
    };
    PnpmDepSpec { specifier, version }
}

fn left_out(graph: &LockfileGraph, dep: &DirectDep) -> (r: bool)
    ensures
        r == is_left_out(graph.deep_view(), dep.deep_view()),
{
    if !graph.settings.exclude_links_from_lockfile {
        return false;
    }
    match graph.packages.get(dep.dep_path.as_str()) {
        Some(p) => match &p.local_source {
            Some(LocalSource::Link(_)) => true,
            _ => false,
        },
        None => false,
    }
}

fn insert_dep(section: Option<StrMap<PnpmDepSpec>>, name: String, spec: PnpmDepSpec) -> (r: Option<
    StrMap<PnpmDepSpec>,
>)
    ensures
        r.deep_view() == Some(
            (match section.deep_view() {
                Some(m) => m,
                None => Map::empty(),
            }).insert(name@, spec.deep_view()),
        ),
{
    let mut m = match section {
        Some(m) => m,
        None => StrMap::new(),
    };
    m.insert(name, spec);
    Some(m)
}

/// The entries of skipped dependencies.
fn write_skipped(ranges: &StrMap<String>) -> (r: StrMap<PnpmDepSpec>)
    ensures
        r@ == skipped_section(ranges@),
{
    let mut r: StrMap<PnpmDepSpec> = StrMap::new();
    let n: usize = ranges.len();
    let mut i: usize = 0;
    let ghost keys = sorted_keys(ranges@.dom());
    let ghost all = skipped_section(ranges@);
    proof {
        assert(r@ =~= all.restrict(prefix_set(keys, 0)));
    }
    while i < n
        invariant
            keys == sorted_keys(ranges@.dom()),
            n == keys.len(),
            all == skipped_section(ranges@),
            i <= n,
            r@ == all.restrict(prefix_set(keys, i as int)),
        decreases n - i,
    {
        let k = ranges.key_at(i);
        let spec = PnpmDepSpec {
            specifier: ranges.value_at(i).clone(),
            version: "0.0.0".to_owned(),
        };
        proof {
            assert(all.restrict(prefix_set(keys, i as int + 1)) =~= all.restrict(
                prefix_set(keys, i as int),
            ).insert(k@, spec.deep_view()));
        }
        r.insert(k.clone(), spec);
        i = i + 1;
    }
    proof {
        assert(all.restrict(prefix_set(keys, n as int)) =~= all);
    }
    r
}

/// An importer.
fn write_importer(
    graph: &LockfileGraph,
    manifest: &PackageJson,
    native: bool,
    path: &str,
    deps: &Vec<DirectDep>,
) -> (r: PnpmImporter)
    ensures
        r.deep_view() == written_importer(
            Input { graph: graph.deep_view(), ranges: manifest.ranges(), native },
            path@,
            deps.deep_view(),
        ),
{
    let ghost input = Input { graph: graph.deep_view(), ranges: manifest.ranges(), native };
    let ghost all = deps.deep_view();
    let mut dependencies: Option<StrMap<PnpmDepSpec>> = None;
    let mut dev_dependencies: Option<StrMap<PnpmDepSpec>> = None;
    let mut optional_dependencies: Option<StrMap<PnpmDepSpec>> = None;
    let mut i: usize = 0;
    while i < deps.len()
        invariant
            input == (Input { graph: graph.deep_view(), ranges: manifest.ranges(), native }),
            all == deps.deep_view(),
            i <= deps.len(),
            dependencies.deep_view() == written_section(
                input,
                path@,
                all.take(i as int),
                DepType::Production,
            ),
            dev_dependencies.deep_view() == written_section(
                input,
                path@,
                all.take(i as int),
                DepType::Dev,
            ),
            optional_dependencies.deep_view() == written_section(
                input,
                path@,
                all.take(i as int),
                DepType::Optional,
            ),
        decreases deps.len() - i,
    {
        let dep = &deps[i];
        proof {
            assert(all[i as int] == dep.deep_view());
            assert(all.take(i + 1).drop_last() == all.take(i as int));
            assert(all.take(i + 1).last() == dep.deep_view());
        }
        if !left_out(graph, dep) {
            let spec = write_dep(graph, manifest, native, path, dep);
            match dep.dep_type {
                DepType::Production => {
                    dependencies = insert_dep(dependencies, dep.name.clone(), spec);
                },
                DepType::Dev => {
                    dev_dependencies = insert_dep(dev_dependencies, dep.name.clone(), spec);
                },
                DepType::Optional => {
                    optional_dependencies = insert_dep(
                        optional_dependencies,
                        dep.name.clone(),
                        spec,
                    );
                },
            }
        }
        i = i + 1;
    }
    proof {
        assert(all.take(all.len() as int) == all);
    }
    let skipped_optional_dependencies = match graph.skipped_optional_dependencies.get(path) {
        Some(ranges) => keep_unless_empty(write_skipped(ranges)),
        None => None,
    };
    PnpmImporter {
        dependencies,
        dev_dependencies,
        optional_dependencies,
        skipped_optional_dependencies,
    }
}

fn keep_unless_empty<V: DeepView>(m: StrMap<V>) -> (r: Option<StrMap<V>>)
    ensures
        r.deep_view() == unless_empty(m@),
{
    if m.is_empty() {
        None
    } else {
        Some(m)
    }
}

fn keep_unless_nothing(v: Vec<String>) -> (r: Option<Vec<String>>)
    ensures
        r.deep_view() == unless_nothing(v.deep_view()),
{
    if v.len() == 0 {
        None
    } else {
        Some(v)
    }
}

/// The importers.
fn write_importers(graph: &LockfileGraph, manifest: &PackageJson, native: bool) -> (r: StrMap<
    PnpmImporter,
>)
    ensures
        r@ == written_importers(
            Input { graph: graph.deep_view(), ranges: manifest.ranges(), native },
        ),
{
    let ghost input = Input { graph: graph.deep_view(), ranges: manifest.ranges(), native };
    let mut r: StrMap<PnpmImporter> = StrMap::new();
    let n: usize = graph.importers.len();
    let mut i: usize = 0;
    let ghost keys = sorted_keys(graph.importers@.dom());
    let ghost all = written_importers(input);
    proof {
        assert(r@ =~= all.restrict(prefix_set(keys, 0)));
    }
    while i < n
        invariant
            input == (Input { graph: graph.deep_view(), ranges: manifest.ranges(), native }),
            keys == sorted_keys(graph.importers@.dom()),
            n == keys.len(),
            all == written_importers(input),
            i <= n,
            r@ == all.restrict(prefix_set(keys, i as int)),
        decreases n - i,
    {
        let path = graph.importers.key_at(i);
        let deps = graph.importers.value_at(i);
        let importer = write_importer(graph, manifest, native, path.as_str(), deps);
        proof {
            assert(all.restrict(prefix_set(keys, i as int + 1)) =~= all.restrict(
                prefix_set(keys, i as int),
            ).insert(path@, importer.deep_view()));
        }
        r.insert(path.clone(), importer);
        i = i + 1;
    }
    proof {
        assert(all.restrict(prefix_set(keys, n as int)) =~= all);
    }
    r
}

/// Whether the version in the key of a package is the URL of its tarball.
fn url_keyed(pkg: &LockedPackage) -> (r: bool)
    ensures
        r == is_url_keyed(pkg.deep_view()),
{
    match &pkg.tarball_url {
        Some(url) => match parse_dep_path(pkg.dep_path.as_str()) {
            Some((_, version)) => same(version.as_str(), url.as_str()),
            None => false,
        },
        None => false,
    }
}

/// The `packages:` key of a package.
fn write_info_key(native: bool, pkg: &LockedPackage, Ghost(input): Ghost<Input>) -> (r: String)
    requires
        input.native == native,
    ensures
        r@ == info_key(input, pkg.deep_view()),
{
    if let Some(source) = &pkg.local_source {
        return version_to_dep_path(pkg.name.as_str(), source.specifier().as_str());
    }
    if native {
        if let Some(name) = &pkg.alias_of {
            return version_to_dep_path(name.as_str(), pkg.version.as_str());
        }
    }
    if url_keyed(pkg) {
        if let Some((name, version)) = parse_dep_path(pkg.dep_path.as_str()) {
            return version_to_dep_path(name.as_str(), version.as_str());
        }
    }
    version_to_dep_path(pkg.name.as_str(), pkg.version.as_str())
}

fn no_resolution() -> (r: PnpmResolution)
    ensures
        r.deep_view() == empty_resolution(),
{
    PnpmResolution {
        integrity: None,
        directory: None,
        tarball: None,
        commit: None,
        repo: None,
        type_: None,
        path: None,
    }
}

/// Where a package is fetched from.
fn write_resolution(include_tarball_url: bool, pkg: &LockedPackage, Ghost(input): Ghost<Input>) -> (r:
    Option<PnpmResolution>)
    requires
        input.graph.settings.lockfile_include_tarball_url == include_tarball_url,
    ensures
        r.deep_view() == written_resolution(input, pkg.deep_view()),
{
    let mut res = no_resolution();
    match &pkg.local_source {
        Some(source) => match source {
            LocalSource::Directory(_) => {
                res.directory = Some(source.path_posix());
                res.type_ = Some("directory".to_owned());
                Some(res)
            },
            LocalSource::Tarball(_) => {
                res.tarball = Some(concat("file:", source.path_posix().as_str()));
                Some(res)
            },
            LocalSource::Link(_) => None,
            LocalSource::Git(g) => {
                res.commit = Some(g.resolved.clone());
                res.repo = Some(g.url.clone());
                res.type_ = Some("git".to_owned());
                res.path = match &g.subpath {
                    Some(sub) => Some(concat("/", sub.as_str())),
                    None => None,
                };
                Some(res)
            },
            LocalSource::RemoteTarball(t) => {
                if !t.integrity.as_str().is_empty() {
                    res.integrity = Some(t.integrity.clone());
                }
                res.tarball = Some(t.url.clone());
                Some(res)
            },
        },
        None => {
            if url_keyed(pkg) {
                res.integrity = pkg.integrity.dup();
                res.tarball = pkg.tarball_url.dup();
                Some(res)
            } else {
                match &pkg.integrity {
                    Some(i) => {
                        res.integrity = Some(i.clone());
                        if include_tarball_url || starts_with(
                            &chars(pkg.registry_name()),
                            "@jsr/",
                        ) {
                            res.tarball = pkg.tarball_url.dup();
                        }
                        Some(res)
                    },
                    None => None,
                }
            }
        },
    }
}

/// The `packages:` entry of a package.
fn write_info(
    include_tarball_url: bool,
    native: bool,
    pkg: &LockedPackage,
    Ghost(input): Ghost<Input>,
) -> (r: PnpmPackageInfo)
    requires
        input.graph.settings.lockfile_include_tarball_url == include_tarball_url,
        input.native == native,
    ensures
        r.deep_view() == written_info(input, pkg.deep_view()),
{
    PnpmPackageInfo {
        resolution: write_resolution(include_tarball_url, pkg, Ghost(input)),
        version: if url_keyed(pkg) {
            Some(pkg.version.clone())
        } else {
            None
        },
        engines: pkg.engines.dup(),
        os: pkg.os.dup(),
        cpu: pkg.cpu.dup(),
        libc: pkg.libc.dup(),
        has_bin: !pkg.bin.is_empty(),
        peer_dependencies: keep_unless_empty(pkg.peer_dependencies.dup()),
        peer_dependencies_meta: keep_unless_empty(pkg.peer_dependencies_meta.dup()),
        alias_of: if native {
            None
        } else {
            pkg.alias_of.dup()
        },
    }
}

/// Whether a package is a link.
fn link(pkg: &LockedPackage) -> (r: bool)
    ensures
        r == is_link(pkg.deep_view()),
{
    match &pkg.local_source {
        Some(LocalSource::Link(_)) => true,
        _ => false,
    }
}

/// A dependency of a snapshot.
fn write_value(
    graph: &LockfileGraph,
    native: bool,
    name: &str,
    value: &str,
    Ghost(input): Ghost<Input>,
) -> (r: String)
    requires
        input.graph == graph.deep_view(),
        input.native == native,
    ensures
        r@ == written_value(input, name@, value@),
{
    let target = match graph.packages.get(version_to_dep_path(name, value).as_str()) {
        Some(p) => Some(p),
        None => match graph.packages.get(peerless_dep_path(name, value).as_str()) {
            Some(p) => Some(p),
            None => graph.packages.get(
                peerless_dep_path(path_component(name).as_str(), value).as_str(),
            ),
        },
    };
    match target {
        Some(p) => {
            if !link(p) {
                if let Some(source) = &p.local_source {
                    return source.specifier();
                }
            }
            if native {
                if let Some(real_name) = &p.alias_of {
                    return version_to_dep_path(real_name.as_str(), value);
                }
            }
            value.to_owned()
        },
        None => value.to_owned(),
    }
}

/// The dependencies of a snapshot.
fn write_deps(
    graph: &LockfileGraph,
    native: bool,
    deps: &StrMap<String>,
    Ghost(input): Ghost<Input>,
) -> (r: StrMap<String>)
    requires
        input.graph == graph.deep_view(),
        input.native == native,
    ensures
        r@ == written_deps(input, deps@),
{
    let mut r: StrMap<String> = StrMap::new();
    let n: usize = deps.len();
    let mut i: usize = 0;
    let ghost keys = sorted_keys(deps@.dom());
    let ghost all = written_deps(input, deps@);
    proof {
        assert(r@ =~= all.restrict(prefix_set(keys, 0)));
    }
    while i < n
        invariant
            input.graph == graph.deep_view(),
            input.native == native,
            keys == sorted_keys(deps@.dom()),
            n == keys.len(),
            all == written_deps(input, deps@),
            i <= n,
            r@ == all.restrict(prefix_set(keys, i as int)),
        decreases n - i,
    {
        let k = deps.key_at(i);
        let value = write_value(
            graph,
            native,
            k.as_str(),
            deps.value_at(i).as_str(),
            Ghost(input),
        );
        proof {
            assert(all.restrict(prefix_set(keys, i as int + 1)) =~= all.restrict(
                prefix_set(keys, i as int),
            ).insert(k@, value@));
        }
        r.insert(k.clone(), value);
        i = i + 1;
    }
    proof {
        assert(all.restrict(prefix_set(keys, n as int)) =~= all);
    }
    r
}

/// Take the keys of `other` out of `m`.
fn remove_keys(m: &mut StrMap<String>, other: &StrMap<String>)
    ensures
        final(m)@ == old(m)@.remove_keys(other@.dom()),
{
    let ghost m0 = m@;
    let n: usize = other.len();
    let mut i: usize = 0;
    let ghost keys = sorted_keys(other@.dom());
    proof {
        assert(m0.remove_keys(prefix_set(keys, 0)) =~= m0);
    }
    while i < n
        invariant
            keys == sorted_keys(other@.dom()),
            n == keys.len(),
            i <= n,
            m@ == m0.remove_keys(prefix_set(keys, i as int)),
        decreases n - i,
    {
        let k = other.key_at(i);
        let _ = m.remove(k.as_str());
        proof {
            assert(m0.remove_keys(prefix_set(keys, i as int + 1)) =~= m0.remove_keys(
                prefix_set(keys, i as int),
            ).remove(k@));
        }
        i = i + 1;
    }
    proof {
        assert(prefix_set(keys, n as int) =~= other@.dom());
    }
}

/// The `snapshots:` entry of a package.
fn write_snapshot(
    graph: &LockfileGraph,
    native: bool,
    pkg: &LockedPackage,
    Ghost(input): Ghost<Input>,
) -> (r: PnpmSnapshot)
    requires
        input.graph == graph.deep_view(),
        input.native == native,
    ensures
        r.deep_view() == written_snapshot(input, pkg.deep_view()),
{
    let mut deps = write_deps(graph, native, &pkg.dependencies, Ghost(input));
    let optional_deps = write_deps(graph, native, &pkg.optional_dependencies, Ghost(input));
    remove_keys(&mut deps, &optional_deps);
    proof {
        assert(written_deps(input, pkg.optional_dependencies@).dom()
            =~= pkg.optional_dependencies@.dom());
    }
    PnpmSnapshot {
        dependencies: keep_unless_empty(deps),
        optional_dependencies: keep_unless_empty(optional_deps),
        transitive_peer_dependencies: keep_unless_nothing(pkg.transitive_peer_dependencies.dup()),
        optional: if pkg.optional {
            Some(true)
        } else {
            None
        },
        bundled_dependencies: keep_unless_nothing(pkg.bundled_dependencies.dup()),
    }
}

fn write_snapshot_key(
    native: bool,
    path: &str,
    pkg: &LockedPackage,
    Ghost(input): Ghost<Input>,
) -> (r: String)
    requires
        input.native == native,
    ensures
        r@ == snapshot_key(input, path@, pkg.deep_view()),
{
    if let Some(source) = &pkg.local_source {
        return version_to_dep_path(pkg.name.as_str(), source.specifier().as_str());
    }
    if native {
        if let Some(name) = &pkg.alias_of {
            return version_to_dep_path(
                name.as_str(),
                dep_path_tail(path, pkg.name.as_str()).as_str(),
            );
        }
    }
    path.to_owned()
}

/// The `packages:` and `snapshots:` entries.
fn write_packages(graph: &LockfileGraph, native: bool, Ghost(input): Ghost<Input>) -> (r: (
    StrMap<PnpmPackageInfo>,
    StrMap<PnpmSnapshot>,
))
    requires
        input.graph == graph.deep_view(),
        input.native == native,
    ensures
        r.0@ == written_packages(input, sorted_keys(graph.packages@.dom())),
        r.1@ == written_snapshots(input, sorted_keys(graph.packages@.dom())),
{
    let mut packages: StrMap<PnpmPackageInfo> = StrMap::new();
    let mut snapshots: StrMap<PnpmSnapshot> = StrMap::new();
    let include_tarball_url = graph.settings.lockfile_include_tarball_url;
    let n: usize = graph.packages.len();
    let mut i: usize = 0;
    let ghost keys = sorted_keys(graph.packages@.dom());
    while i < n
        invariant
            input.graph == graph.deep_view(),
            input.native == native,
            include_tarball_url == graph.settings.lockfile_include_tarball_url,
            keys == sorted_keys(graph.packages@.dom()),
            n == keys.len(),
            i <= n,
            packages@ == written_packages(input, keys.take(i as int)),
            snapshots@ == written_snapshots(input, keys.take(i as int)),
        decreases n - i,
    {
        let path = graph.packages.key_at(i);
        let pkg = graph.packages.value_at(i);
        proof {
            assert(keys.take(i + 1).drop_last() == keys.take(i as int));
            assert(keys.take(i + 1).last() == path@);
            assert(input.graph.packages[path@] == pkg.deep_view());
        }
        if !link(pkg) {
            let key = write_info_key(native, pkg, Ghost(input));
            let info = write_info(include_tarball_url, native, pkg, Ghost(input));
            packages.insert(key, info);
            let key = write_snapshot_key(native, path.as_str(), pkg, Ghost(input));
            let snapshot = write_snapshot(graph, native, pkg, Ghost(input));
            snapshots.insert(key, snapshot);
        }
        i = i + 1;
    }
    proof {
        assert(keys.take(n as int) == keys);
    }
    (packages, snapshots)
}

fn write_patches(m: &StrMap<String>) -> (r: StrMap<PatchedDependency>)
    ensures
        r@ == written_patches(m@),
{
    let mut r: StrMap<PatchedDependency> = StrMap::new();
    let n: usize = m.len();
    let mut i: usize = 0;
    let ghost keys = sorted_keys(m@.dom());
    let ghost all = written_patches(m@);
    proof {
        assert(r@ =~= all.restrict(prefix_set(keys, 0)));
    }
    while i < n
        invariant
            keys == sorted_keys(m@.dom()),
            n == keys.len(),
            all == written_patches(m@),
            i <= n,
            r@ == all.restrict(prefix_set(keys, i as int)),
        decreases n - i,
    {
        let k = m.key_at(i);
        let v = PatchedDependency::Path(m.value_at(i).clone());
        proof {
            assert(all.restrict(prefix_set(keys, i as int + 1)) =~= all.restrict(
                prefix_set(keys, i as int),
            ).insert(k@, v.deep_view()));
        }
        r.insert(k.clone(), v);
        i = i + 1;
    }
    proof {
        assert(all.restrict(prefix_set(keys, n as int)) =~= all);
    }
    r
}

/// The members of a set in order.
fn write_set(set: &crate::strmap::StrSet) -> (r: Vec<String>)
    ensures
        r.deep_view() == sorted_keys(set@),
{
    let mut r: Vec<String> = Vec::new();
    let n: usize = set.len();
    let mut i: usize = 0;
    let ghost keys = sorted_keys(set@);
    proof {
        assert(r.deep_view() =~= keys.take(0));
    }
    while i < n
        invariant
            keys == sorted_keys(set@),
            n == keys.len(),
            i <= n,
            r.deep_view() == keys.take(i as int),
        decreases n - i,
    {
        let ghost before = r.deep_view();
        let k = set.at(i).clone();
        r.push(k);
        proof {
            assert(r.deep_view() =~= before.push(k@));
            assert(keys.take(i + 1) =~= keys.take(i as int).push(k@));
        }
        i = i + 1;
    }
    proof {
        assert(keys.take(n as int) =~= keys);
    }
    r
}

/// The lockfile of a graph, as it is written to `path`. The manifest is that
/// of the workspace root.
pub fn write(path: &str, graph: &LockfileGraph, manifest: &PackageJson) -> (r: PnpmLockfile)
    ensures
        r.deep_view() == document_of(input_of(path@, graph, manifest)),
{
    let native = match path_file_name(path) {
        Some(name) => same(name.as_str(), "pnpm-lock.yaml"),
        None => false,
    };
    let ghost input = input_of(path@, graph, manifest);
    let (packages, snapshots) = write_packages(graph, native, Ghost(input));
    PnpmLockfile {
        settings: Some(
            PnpmSettings {
                auto_install_peers: Some(graph.settings.auto_install_peers),
                exclude_links_from_lockfile: Some(graph.settings.exclude_links_from_lockfile),
                lockfile_include_tarball_url: if graph.settings.lockfile_include_tarball_url {
                    Some(true)
                } else {
                    None
                },
            },
        ),
        overrides: keep_unless_empty(graph.overrides.dup()),
        patched_dependencies: keep_unless_empty(write_patches(&graph.patched_dependencies)),
        catalogs: keep_unless_empty(graph.catalogs.dup()),
        time: keep_unless_empty(graph.times.dup()),
        importers: write_importers(graph, manifest, native),
        packages,
        ignored_optional_dependencies: keep_unless_nothing(
            write_set(&graph.ignored_optional_dependencies),
        ),
        snapshots,
    }
}

} // verus!
