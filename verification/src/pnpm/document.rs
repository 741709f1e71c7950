//! The contents of a `pnpm-lock.yaml` file, version 9.
use vstd::prelude::*;
use crate::graph::{CatalogEntry, CatalogEntryView, PeerDepMeta, PeerDepMetaView};
use crate::strmap::StrMap;

verus! {

/// A patched package: the patch file, with or without its hash.
#[derive(Debug, PartialEq)]
pub enum PatchedDependency {
    Path(String),
    Object { path: String, hash: Option<String> },
}

/// Model of [`PatchedDependency`].
pub enum PatchedDependencyView {
    Path(Seq<char>),
    Object { path: Seq<char>, hash: Option<Seq<char>> },
}

impl DeepView for PatchedDependency {
    type V = PatchedDependencyView;

    open spec fn deep_view(&self) -> PatchedDependencyView {
        match self {
            PatchedDependency::Path(path) => PatchedDependencyView::Path(path@),
            PatchedDependency::Object { path, hash } => PatchedDependencyView::Object {
                path: path@,
                hash: hash.deep_view(),
            },
        }
    }
}

impl PatchedDependencyView {
    /// The patch file.
    pub open spec fn path(self) -> Seq<char> {
        match self {
            PatchedDependencyView::Path(path) => path,
            PatchedDependencyView::Object { path, hash: _ } => path,
        }
    }
}

impl PatchedDependency {
    /// The patch file.
    pub fn path(&self) -> (r: &String)
        ensures
            r@ == self.deep_view().path(),
    {
        match self {
            PatchedDependency::Path(path) => path,
            PatchedDependency::Object { path, hash: _ } => path,
        }
    }
}

/// The `settings:` block.
#[derive(Debug, PartialEq)]
pub struct PnpmSettings {
    pub auto_install_peers: Option<bool>,
    pub exclude_links_from_lockfile: Option<bool>,
    pub lockfile_include_tarball_url: Option<bool>,
}

/// Model of [`PnpmSettings`].
#[verifier::ext_equal]
pub struct PnpmSettingsView {
    pub auto_install_peers: Option<bool>,
    pub exclude_links_from_lockfile: Option<bool>,
    pub lockfile_include_tarball_url: Option<bool>,
}

impl DeepView for PnpmSettings {
    type V = PnpmSettingsView;

    open spec fn deep_view(&self) -> PnpmSettingsView {
        PnpmSettingsView {
            auto_install_peers: self.auto_install_peers.deep_view(),
            exclude_links_from_lockfile: self.exclude_links_from_lockfile.deep_view(),
            lockfile_include_tarball_url: self.lockfile_include_tarball_url.deep_view(),
        }
    }
}
/// A direct dependency: what was asked for, and what it resolved to.
#[derive(Debug, PartialEq)]
pub struct PnpmDepSpec {
    pub specifier: String,
    pub version: String,
}

/// Model of [`PnpmDepSpec`].
#[verifier::ext_equal]
pub struct PnpmDepSpecView {
    pub specifier: Seq<char>,
    pub version: Seq<char>,
}

impl DeepView for PnpmDepSpec {
    type V = PnpmDepSpecView;

    open spec fn deep_view(&self) -> PnpmDepSpecView {
        PnpmDepSpecView {
            specifier: self.specifier.deep_view(),
            version: self.version.deep_view(),
        }
    }
}
/// The direct dependencies of a workspace package.
#[derive(Debug, PartialEq)]
pub struct PnpmImporter {
    pub dependencies: Option<StrMap<PnpmDepSpec>>,
    pub dev_dependencies: Option<StrMap<PnpmDepSpec>>,
    pub optional_dependencies: Option<StrMap<PnpmDepSpec>>,
    /// Optional dependencies that were not installed on this platform.
    pub skipped_optional_dependencies: Option<StrMap<PnpmDepSpec>>,
}

/// Model of [`PnpmImporter`].
#[verifier::ext_equal]
pub struct PnpmImporterView {
    pub dependencies: Option<Map<Seq<char>, PnpmDepSpecView>>,
    pub dev_dependencies: Option<Map<Seq<char>, PnpmDepSpecView>>,
    pub optional_dependencies: Option<Map<Seq<char>, PnpmDepSpecView>>,
    pub skipped_optional_dependencies: Option<Map<Seq<char>, PnpmDepSpecView>>,
}

impl DeepView for PnpmImporter {
    type V = PnpmImporterView;

    open spec fn deep_view(&self) -> PnpmImporterView {
        PnpmImporterView {
            dependencies: self.dependencies.deep_view(),
            dev_dependencies: self.dev_dependencies.deep_view(),
            optional_dependencies: self.optional_dependencies.deep_view(),
            skipped_optional_dependencies: self.skipped_optional_dependencies.deep_view(),
        }
    }
}
/// Where a package is fetched from.
#[derive(Debug, PartialEq)]
pub struct PnpmResolution {
    pub integrity: Option<String>,
    pub directory: Option<String>,
    pub tarball: Option<String>,
    pub commit: Option<String>,
    pub repo: Option<String>,
    /// `directory` or `git`.
    pub type_: Option<String>,
    /// The subdirectory of a git repository, with a leading slash.
    pub path: Option<String>,
}

/// Model of [`PnpmResolution`].
#[verifier::ext_equal]
pub struct PnpmResolutionView {
    pub integrity: Option<Seq<char>>,
    pub directory: Option<Seq<char>>,
    pub tarball: Option<Seq<char>>,
    pub commit: Option<Seq<char>>,
    pub repo: Option<Seq<char>>,
    pub type_: Option<Seq<char>>,
    pub path: Option<Seq<char>>,
}

impl DeepView for PnpmResolution {
    type V = PnpmResolutionView;

    open spec fn deep_view(&self) -> PnpmResolutionView {
        PnpmResolutionView {
            integrity: self.integrity.deep_view(),
            directory: self.directory.deep_view(),
            tarball: self.tarball.deep_view(),
            commit: self.commit.deep_view(),
            repo: self.repo.deep_view(),
            type_: self.type_.deep_view(),
            path: self.path.deep_view(),
        }
    }
}
/// A `packages:` entry: what holds of a package in every peer context.
#[derive(Debug, PartialEq)]
pub struct PnpmPackageInfo {
    pub resolution: Option<PnpmResolution>,
    /// The version of a package whose key holds a URL in its place.
    pub version: Option<String>,
    pub engines: StrMap<String>,
    pub os: Vec<String>,
    pub cpu: Vec<String>,
    pub libc: Vec<String>,
    pub has_bin: bool,
    pub peer_dependencies: Option<StrMap<String>>,
    pub peer_dependencies_meta: Option<StrMap<PeerDepMeta>>,
    /// The registry name of an aliased package.
    pub alias_of: Option<String>,
}

/// Model of [`PnpmPackageInfo`].
#[verifier::ext_equal]
pub struct PnpmPackageInfoView {
    pub resolution: Option<PnpmResolutionView>,
    pub version: Option<Seq<char>>,
    pub engines: Map<Seq<char>, Seq<char>>,
    pub os: Seq<Seq<char>>,
    pub cpu: Seq<Seq<char>>,
    pub libc: Seq<Seq<char>>,
    pub has_bin: bool,
    pub peer_dependencies: Option<Map<Seq<char>, Seq<char>>>,
    pub peer_dependencies_meta: Option<Map<Seq<char>, PeerDepMetaView>>,
    pub alias_of: Option<Seq<char>>,
}

impl DeepView for PnpmPackageInfo {
    type V = PnpmPackageInfoView;

    open spec fn deep_view(&self) -> PnpmPackageInfoView {
        PnpmPackageInfoView {
            resolution: self.resolution.deep_view(),
            version: self.version.deep_view(),
            engines: self.engines.deep_view(),
            os: self.os.deep_view(),
            cpu: self.cpu.deep_view(),
            libc: self.libc.deep_view(),
            has_bin: self.has_bin,
            peer_dependencies: self.peer_dependencies.deep_view(),
            peer_dependencies_meta: self.peer_dependencies_meta.deep_view(),
            alias_of: self.alias_of.deep_view(),
        }
    }
}
/// A `snapshots:` entry: a package in one peer context.
#[derive(Debug, PartialEq)]
pub struct PnpmSnapshot {
    pub dependencies: Option<StrMap<String>>,
    pub optional_dependencies: Option<StrMap<String>>,
    pub transitive_peer_dependencies: Option<Vec<String>>,
    pub optional: Option<bool>,
    pub bundled_dependencies: Option<Vec<String>>,
}

/// Model of [`PnpmSnapshot`].
#[verifier::ext_equal]
pub struct PnpmSnapshotView {
    pub dependencies: Option<Map<Seq<char>, Seq<char>>>,
    pub optional_dependencies: Option<Map<Seq<char>, Seq<char>>>,
    pub transitive_peer_dependencies: Option<Seq<Seq<char>>>,
    pub optional: Option<bool>,
    pub bundled_dependencies: Option<Seq<Seq<char>>>,
}

impl DeepView for PnpmSnapshot {
    type V = PnpmSnapshotView;

    open spec fn deep_view(&self) -> PnpmSnapshotView {
        PnpmSnapshotView {
            dependencies: self.dependencies.deep_view(),
            optional_dependencies: self.optional_dependencies.deep_view(),
            transitive_peer_dependencies: self.transitive_peer_dependencies.deep_view(),
            optional: self.optional.deep_view(),
            bundled_dependencies: self.bundled_dependencies.deep_view(),
        }
    }
}
/// The lockfile.
#[derive(Debug, PartialEq)]
pub struct PnpmLockfile {
    pub settings: Option<PnpmSettings>,
    pub overrides: Option<StrMap<String>>,
    pub patched_dependencies: Option<StrMap<PatchedDependency>>,
    pub catalogs: Option<StrMap<StrMap<CatalogEntry>>>,
    pub time: Option<StrMap<String>>,
    pub importers: StrMap<PnpmImporter>,
    pub packages: StrMap<PnpmPackageInfo>,
    pub ignored_optional_dependencies: Option<Vec<String>>,
    pub snapshots: StrMap<PnpmSnapshot>,
}

/// Model of [`PnpmLockfile`].
#[verifier::ext_equal]
pub struct PnpmLockfileView {
    pub settings: Option<PnpmSettingsView>,
    pub overrides: Option<Map<Seq<char>, Seq<char>>>,
    pub patched_dependencies: Option<Map<Seq<char>, PatchedDependencyView>>,
    pub catalogs: Option<Map<Seq<char>, Map<Seq<char>, CatalogEntryView>>>,
    pub time: Option<Map<Seq<char>, Seq<char>>>,
    pub importers: Map<Seq<char>, PnpmImporterView>,
    pub packages: Map<Seq<char>, PnpmPackageInfoView>,
    pub ignored_optional_dependencies: Option<Seq<Seq<char>>>,
    pub snapshots: Map<Seq<char>, PnpmSnapshotView>,
}

impl DeepView for PnpmLockfile {
    type V = PnpmLockfileView;

    open spec fn deep_view(&self) -> PnpmLockfileView {
        PnpmLockfileView {
            settings: self.settings.deep_view(),
            overrides: self.overrides.deep_view(),
            patched_dependencies: self.patched_dependencies.deep_view(),
            catalogs: self.catalogs.deep_view(),
            time: self.time.deep_view(),
            importers: self.importers.deep_view(),
            packages: self.packages.deep_view(),
            ignored_optional_dependencies: self.ignored_optional_dependencies.deep_view(),
            snapshots: self.snapshots.deep_view(),
        }
    }
}

} // verus!
