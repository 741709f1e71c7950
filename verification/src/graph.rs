//! The resolved dependency graph that every lockfile format is read into and
//! written from.
use vstd::prelude::*;
use crate::source::{LocalSource, LocalSourceView};
use crate::strmap::{Dup, StrMap, StrSet};

verus! {

/// The manifest section that a direct dependency stands in.
#[derive(Debug, Clone, Copy, PartialEq, Eq, Structural)]
pub enum DepType {
    Production,
    Dev,
    Optional,
}

impl DeepView for DepType {
    type V = DepType;

    open spec fn deep_view(&self) -> DepType {
        *self
    }
}

/// A dependency that a workspace package declares.
#[derive(Debug, PartialEq)]
pub struct DirectDep {
    /// The name it is imported by.
    pub name: String,
    /// Its key in [`LockfileGraph::packages`].
    pub dep_path: String,
    pub dep_type: DepType,
    /// The range in the manifest, where it is recorded.
    pub specifier: Option<String>,
}

/// Model of [`DirectDep`].
#[verifier::ext_equal]
pub struct DirectDepView {
    pub name: Seq<char>,
    pub dep_path: Seq<char>,
    pub dep_type: DepType,
    pub specifier: Option<Seq<char>>,
}

impl DeepView for DirectDep {
    type V = DirectDepView;

    open spec fn deep_view(&self) -> DirectDepView {
        DirectDepView {
            name: self.name.deep_view(),
            dep_path: self.dep_path.deep_view(),
            dep_type: self.dep_type,
            specifier: self.specifier.deep_view(),
        }
    }
}

impl Dup for DirectDep {
    fn dup(&self) -> (r: Self) {
        DirectDep {
            name: self.name.dup(),
            dep_path: self.dep_path.dup(),
            dep_type: self.dep_type,
            specifier: self.specifier.dup(),
        }
    }
}
/// What a package says about one of its peer dependencies.
#[derive(Debug, PartialEq)]
pub struct PeerDepMeta {
    pub optional: bool,
}

/// Model of [`PeerDepMeta`].
#[verifier::ext_equal]
pub struct PeerDepMetaView {
    pub optional: bool,
}

impl DeepView for PeerDepMeta {
    type V = PeerDepMetaView;

    open spec fn deep_view(&self) -> PeerDepMetaView {
        PeerDepMetaView {
            optional: self.optional,
        }
    }
}

impl Dup for PeerDepMeta {
    fn dup(&self) -> (r: Self) {
        PeerDepMeta {
            optional: self.optional,
        }
    }
}
/// A resolved entry of a catalog.
#[derive(Debug, PartialEq)]
pub struct CatalogEntry {
    pub specifier: String,
    pub version: String,
}

/// Model of [`CatalogEntry`].
#[verifier::ext_equal]
pub struct CatalogEntryView {
    pub specifier: Seq<char>,
    pub version: Seq<char>,
}

impl DeepView for CatalogEntry {
    type V = CatalogEntryView;

    open spec fn deep_view(&self) -> CatalogEntryView {
        CatalogEntryView {
            specifier: self.specifier.deep_view(),
            version: self.version.deep_view(),
        }
    }
}

impl Dup for CatalogEntry {
    fn dup(&self) -> (r: Self) {
        CatalogEntry {
            specifier: self.specifier.dup(),
            version: self.version.dup(),
        }
    }
}
/// Settings that are recorded in the lockfile.
#[derive(Debug, PartialEq)]
pub struct LockfileSettings {
    pub auto_install_peers: bool,
    pub exclude_links_from_lockfile: bool,
    pub lockfile_include_tarball_url: bool,
}

/// Model of [`LockfileSettings`].
#[verifier::ext_equal]
pub struct LockfileSettingsView {
    pub auto_install_peers: bool,
    pub exclude_links_from_lockfile: bool,
    pub lockfile_include_tarball_url: bool,
}

impl DeepView for LockfileSettings {
    type V = LockfileSettingsView;

    open spec fn deep_view(&self) -> LockfileSettingsView {
        LockfileSettingsView {
            auto_install_peers: self.auto_install_peers,
            exclude_links_from_lockfile: self.exclude_links_from_lockfile,
            lockfile_include_tarball_url: self.lockfile_include_tarball_url,
        }
    }
}

impl Dup for LockfileSettings {
    fn dup(&self) -> (r: Self) {
        LockfileSettings {
            auto_install_peers: self.auto_install_peers,
            exclude_links_from_lockfile: self.exclude_links_from_lockfile,
            lockfile_include_tarball_url: self.lockfile_include_tarball_url,
        }
    }
}
impl Default for LockfileSettings {
    fn default() -> (r: Self)
        ensures
            r.deep_view() == default_settings(),
    {
        LockfileSettings {
            auto_install_peers: true,
            exclude_links_from_lockfile: false,
            lockfile_include_tarball_url: false,
        }
    }
}

/// The settings of a lockfile that records none.
pub open spec fn default_settings() -> LockfileSettingsView {
    LockfileSettingsView {
        auto_install_peers: true,
        exclude_links_from_lockfile: false,
        lockfile_include_tarball_url: false,
    }
}

/// One package of the graph, in one peer context.
#[derive(Debug, PartialEq)]
pub struct LockedPackage {
    /// The name it is installed under.
    pub name: String,
    pub version: String,
    pub integrity: Option<String>,
    /// Name and version tail of each dependency, the optional ones included.
    pub dependencies: StrMap<String>,
    pub optional_dependencies: StrMap<String>,
    pub peer_dependencies: StrMap<String>,
    pub peer_dependencies_meta: StrMap<PeerDepMeta>,
    /// Its key in the graph.
    pub dep_path: String,
    /// Where it comes from, if not from a registry.
    pub local_source: Option<LocalSource>,
    pub os: Vec<String>,
    pub cpu: Vec<String>,
    pub libc: Vec<String>,
    pub bundled_dependencies: Vec<String>,
    pub optional: bool,
    pub transitive_peer_dependencies: Vec<String>,
    pub tarball_url: Option<String>,
    /// The registry name of a package that is installed under another name.
    pub alias_of: Option<String>,
    pub yarn_checksum: Option<String>,
    pub engines: StrMap<String>,
    pub bin: StrMap<String>,
    /// The ranges that the package declares for its dependencies.
    pub declared_dependencies: StrMap<String>,
}

/// Model of [`LockedPackage`].
#[verifier::ext_equal]
pub struct LockedPackageView {
    pub name: Seq<char>,
    pub version: Seq<char>,
    pub integrity: Option<Seq<char>>,
    pub dependencies: Map<Seq<char>, Seq<char>>,
    pub optional_dependencies: Map<Seq<char>, Seq<char>>,
    pub peer_dependencies: Map<Seq<char>, Seq<char>>,
    pub peer_dependencies_meta: Map<Seq<char>, PeerDepMetaView>,
    pub dep_path: Seq<char>,
    pub local_source: Option<LocalSourceView>,
    pub os: Seq<Seq<char>>,
    pub cpu: Seq<Seq<char>>,
    pub libc: Seq<Seq<char>>,
    pub bundled_dependencies: Seq<Seq<char>>,
    pub optional: bool,
    pub transitive_peer_dependencies: Seq<Seq<char>>,
    pub tarball_url: Option<Seq<char>>,
    pub alias_of: Option<Seq<char>>,
    pub yarn_checksum: Option<Seq<char>>,
    pub engines: Map<Seq<char>, Seq<char>>,
    pub bin: Map<Seq<char>, Seq<char>>,
    pub declared_dependencies: Map<Seq<char>, Seq<char>>,
}

impl DeepView for LockedPackage {
    type V = LockedPackageView;

    open spec fn deep_view(&self) -> LockedPackageView {
        LockedPackageView {
            name: self.name.deep_view(),
            version: self.version.deep_view(),
            integrity: self.integrity.deep_view(),
            dependencies: self.dependencies.deep_view(),
            optional_dependencies: self.optional_dependencies.deep_view(),
            peer_dependencies: self.peer_dependencies.deep_view(),
            peer_dependencies_meta: self.peer_dependencies_meta.deep_view(),
            dep_path: self.dep_path.deep_view(),
            local_source: self.local_source.deep_view(),
            os: self.os.deep_view(),
            cpu: self.cpu.deep_view(),
            libc: self.libc.deep_view(),
            bundled_dependencies: self.bundled_dependencies.deep_view(),
            optional: self.optional,
            transitive_peer_dependencies: self.transitive_peer_dependencies.deep_view(),
            tarball_url: self.tarball_url.deep_view(),
            alias_of: self.alias_of.deep_view(),
            yarn_checksum: self.yarn_checksum.deep_view(),
            engines: self.engines.deep_view(),
            bin: self.bin.deep_view(),
            declared_dependencies: self.declared_dependencies.deep_view(),
        }
    }
}

impl Dup for LockedPackage {
    fn dup(&self) -> (r: Self) {
        LockedPackage {
            name: self.name.dup(),
            version: self.version.dup(),
            integrity: self.integrity.dup(),
            dependencies: self.dependencies.dup(),
            optional_dependencies: self.optional_dependencies.dup(),
            peer_dependencies: self.peer_dependencies.dup(),
            peer_dependencies_meta: self.peer_dependencies_meta.dup(),
            dep_path: self.dep_path.dup(),
            local_source: self.local_source.dup(),
            os: self.os.dup(),
            cpu: self.cpu.dup(),
            libc: self.libc.dup(),
            bundled_dependencies: self.bundled_dependencies.dup(),
            optional: self.optional,
            transitive_peer_dependencies: self.transitive_peer_dependencies.dup(),
            tarball_url: self.tarball_url.dup(),
            alias_of: self.alias_of.dup(),
            yarn_checksum: self.yarn_checksum.dup(),
            engines: self.engines.dup(),
            bin: self.bin.dup(),
            declared_dependencies: self.declared_dependencies.dup(),
        }
    }
}
impl Default for LockedPackage {
    fn default() -> (r: Self)
        ensures
            r.deep_view() == default_package(),
    {
        let r = LockedPackage {
            name: String::new(),
            version: String::new(),
            integrity: None,
            dependencies: StrMap::new(),
            optional_dependencies: StrMap::new(),
            peer_dependencies: StrMap::new(),
            peer_dependencies_meta: StrMap::new(),
            dep_path: String::new(),
            local_source: None,
            os: Vec::new(),
            cpu: Vec::new(),
            libc: Vec::new(),
            bundled_dependencies: Vec::new(),
            optional: false,
            transitive_peer_dependencies: Vec::new(),
            tarball_url: None,
            alias_of: None,
            yarn_checksum: None,
            engines: StrMap::new(),
            bin: StrMap::new(),
            declared_dependencies: StrMap::new(),
        };
        proof {
            assert(r.deep_view() =~~= default_package());
        }
        r
    }
}

/// A package of which nothing is recorded.
pub open spec fn default_package() -> LockedPackageView {
    LockedPackageView {
        name: Seq::empty(),
        version: Seq::empty(),
        integrity: None,
        dependencies: Map::empty(),
        optional_dependencies: Map::empty(),
        peer_dependencies: Map::empty(),
        peer_dependencies_meta: Map::empty(),
        dep_path: Seq::empty(),
        local_source: None,
        os: Seq::empty(),
        cpu: Seq::empty(),
        libc: Seq::empty(),
        bundled_dependencies: Seq::empty(),
        optional: false,
        transitive_peer_dependencies: Seq::empty(),
        tarball_url: None,
        alias_of: None,
        yarn_checksum: None,
        engines: Map::empty(),
        bin: Map::empty(),
        declared_dependencies: Map::empty(),
    }
}

impl LockedPackageView {
    /// The name that the registry knows the package by.
    pub open spec fn registry_name(self) -> Seq<char> {
        match self.alias_of {
            Some(name) => name,
            None => self.name,
        }
    }
}

impl LockedPackage {
    /// The name that the registry knows the package by.
    pub fn registry_name(&self) -> (r: &str)
        ensures
            r@ == self.deep_view().registry_name(),
    {
        match &self.alias_of {
            Some(name) => name.as_str(),
            None => self.name.as_str(),
        }
    }
}

/// A lockfile.
#[derive(Debug, PartialEq)]
pub struct LockfileGraph {
    /// The direct dependencies of each workspace package, by its path.
    pub importers: StrMap<Vec<DirectDep>>,
    /// The packages, by dep path.
    pub packages: StrMap<LockedPackage>,
    pub settings: LockfileSettings,
    pub overrides: StrMap<String>,
    /// The names of the ignored optional dependencies.
    pub ignored_optional_dependencies: StrSet,
    /// Publish times.
    pub times: StrMap<String>,
    /// The ranges of the optional dependencies that a workspace package skipped.
    pub skipped_optional_dependencies: StrMap<StrMap<String>>,
    pub catalogs: StrMap<StrMap<CatalogEntry>>,
    /// The patch file of each patched package.
    pub patched_dependencies: StrMap<String>,
}

/// Model of [`LockfileGraph`].
#[verifier::ext_equal]
pub struct LockfileGraphView {
    pub importers: Map<Seq<char>, Seq<DirectDepView>>,
    pub packages: Map<Seq<char>, LockedPackageView>,
    pub settings: LockfileSettingsView,
    pub overrides: Map<Seq<char>, Seq<char>>,
    pub ignored_optional_dependencies: Set<Seq<char>>,
    pub times: Map<Seq<char>, Seq<char>>,
    pub skipped_optional_dependencies: Map<Seq<char>, Map<Seq<char>, Seq<char>>>,
    pub catalogs: Map<Seq<char>, Map<Seq<char>, CatalogEntryView>>,
    pub patched_dependencies: Map<Seq<char>, Seq<char>>,
}

impl DeepView for LockfileGraph {
    type V = LockfileGraphView;

    open spec fn deep_view(&self) -> LockfileGraphView {
        LockfileGraphView {
            importers: self.importers.deep_view(),
            packages: self.packages.deep_view(),
            settings: self.settings.deep_view(),
            overrides: self.overrides.deep_view(),
            ignored_optional_dependencies: self.ignored_optional_dependencies.deep_view(),
            times: self.times.deep_view(),
            skipped_optional_dependencies: self.skipped_optional_dependencies.deep_view(),
            catalogs: self.catalogs.deep_view(),
            patched_dependencies: self.patched_dependencies.deep_view(),
        }
    }
}

impl Dup for LockfileGraph {
    fn dup(&self) -> (r: Self) {
        LockfileGraph {
            importers: self.importers.dup(),
            packages: self.packages.dup(),
            settings: self.settings.dup(),
            overrides: self.overrides.dup(),
            ignored_optional_dependencies: self.ignored_optional_dependencies.dup(),
            times: self.times.dup(),
            skipped_optional_dependencies: self.skipped_optional_dependencies.dup(),
            catalogs: self.catalogs.dup(),
            patched_dependencies: self.patched_dependencies.dup(),
        }
    }
}
impl Default for LockfileGraph {
    fn default() -> (r: Self)
        ensures
            r.deep_view() == default_graph(),
    {
        LockfileGraph {
            importers: StrMap::new(),
            packages: StrMap::new(),
            settings: LockfileSettings::default(),
            overrides: StrMap::new(),
            ignored_optional_dependencies: StrSet::new(),
            times: StrMap::new(),
            skipped_optional_dependencies: StrMap::new(),
            catalogs: StrMap::new(),
            patched_dependencies: StrMap::new(),
        }
    }
}

/// The graph without packages.
pub open spec fn default_graph() -> LockfileGraphView {
    LockfileGraphView {
        importers: Map::empty(),
        packages: Map::empty(),
        settings: default_settings(),
        overrides: Map::empty(),
        ignored_optional_dependencies: Set::empty(),
        times: Map::empty(),
        skipped_optional_dependencies: Map::empty(),
        catalogs: Map::empty(),
        patched_dependencies: Map::empty(),
    }
}

} // verus!
