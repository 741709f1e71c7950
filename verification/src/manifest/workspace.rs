//! The workspace file, `aube-workspace.yaml` or `pnpm-workspace.yaml`.
use vstd::prelude::*;
use crate::manifest::settings::{insert_all, string_set, AllowBuildRaw, AllowBuildView};
use crate::manifest::{architectures, items_of, namespace, PackageJson, UpdateConfig};
use crate::strmap::{prefix_set, sorted_keys, StrMap, StrSet};
use crate::text::{chars, string, trim, trimmed};
use crate::yaml::{document_text, is_valid, tree, yaml_text, Yaml, YamlView};

verus! {

/// What the packages under one pattern of `jailBuilds` may do.
#[derive(Debug, Default, PartialEq)]
pub struct JailBuildPermission {
    pub env: Vec<String>,
    pub read: Vec<String>,
    pub write: Vec<String>,
    pub network: bool,
}

/// Model of [`JailBuildPermission`].
pub struct JailBuildPermissionView {
    pub env: Seq<Seq<char>>,
    pub read: Seq<Seq<char>>,
    pub write: Seq<Seq<char>>,
    pub network: bool,
}

impl DeepView for JailBuildPermission {
    type V = JailBuildPermissionView;

    open spec fn deep_view(&self) -> JailBuildPermissionView {
        JailBuildPermissionView {
            env: self.env.deep_view(),
            read: self.read.deep_view(),
            write: self.write.deep_view(),
            network: self.network,
        }
    }
}

/// The settings of the workspace file.
#[derive(Debug)]
pub struct WorkspaceConfig {
    /// The patterns of the workspace packages.
    pub packages: Vec<String>,
    pub include_workspace_root: Option<bool>,
    pub catalog: StrMap<String>,
    pub catalogs: StrMap<StrMap<String>>,
    pub node_linker: Option<String>,
    pub enable_global_virtual_store: Option<bool>,
    pub disable_global_virtual_store_for_packages: Option<Vec<String>>,
    pub package_import_method: Option<String>,
    pub virtual_store_dir: Option<String>,
    pub modules_dir: Option<String>,
    pub shamefully_hoist: Option<bool>,
    pub hoist: Option<bool>,
    pub hoist_pattern: Option<Vec<String>>,
    pub hoist_workspace_packages: Option<bool>,
    pub dedupe_direct_deps: Option<bool>,
    pub deploy_all_files: Option<bool>,
    pub public_hoist_pattern: Option<Vec<String>>,
    pub store_dir: Option<String>,
    pub lockfile: Option<bool>,
    pub lockfile_dir: Option<String>,
    pub prefer_frozen_lockfile: Option<bool>,
    pub git_branch_lockfile: Option<bool>,
    pub merge_git_branch_lockfiles_branch_pattern: Option<Vec<String>>,
    pub shared_workspace_lockfile: Option<bool>,
    pub peers_suffix_max_length: Option<u64>,
    pub overrides: StrMap<String>,
    pub patched_dependencies: StrMap<String>,
    pub supported_architectures: Option<SupportedArchitectures>,
    pub ignored_optional_dependencies: Vec<String>,
    pub pnpmfile_path: Option<String>,
    pub package_extensions: StrMap<Yaml>,
    pub allowed_deprecated_versions: StrMap<String>,
    pub deprecation_warnings: Option<String>,
    pub update_config: Option<UpdateConfig>,
    pub trust_policy: Option<String>,
    pub trust_policy_exclude: Vec<String>,
    pub trust_policy_ignore_after: Option<u64>,
    pub block_exotic_subdeps: Option<bool>,
    pub ignore_scripts: Option<bool>,
    pub aube_no_auto_install: Option<bool>,
    pub aube_no_lock: Option<bool>,
    /// The packages whose build scripts may run, with the values as they
    /// stand.
    pub allow_builds: StrMap<Yaml>,
    pub only_built_dependencies: Vec<String>,
    pub never_built_dependencies: Vec<String>,
    pub child_concurrency: Option<u64>,
    pub network_concurrency: Option<u64>,
    pub link_concurrency: Option<u64>,
    pub verify_store_integrity: Option<bool>,
    pub strict_store_integrity: Option<bool>,
    pub side_effects_cache: Option<bool>,
    pub jail_builds: Option<bool>,
    pub paranoid: Option<bool>,
    pub jail_build_exclusions: Vec<String>,
    pub jail_build_permissions: StrMap<JailBuildPermission>,
    pub cleanup_unused_catalogs: Option<bool>,
    pub link_workspace_packages: Option<bool>,
    pub save_workspace_protocol: Option<Yaml>,
    pub auto_install_peers: Option<bool>,
    pub strict_peer_dependencies: Option<bool>,
    pub exclude_links_from_lockfile: Option<bool>,
    pub dedupe_peer_dependents: Option<bool>,
    pub dedupe_peers: Option<bool>,
    pub resolve_peers_from_workspace_root: Option<bool>,
    pub lockfile_include_tarball_url: Option<bool>,
    pub minimum_release_age: Option<u64>,
    pub minimum_release_age_exclude: Option<Vec<String>>,
    pub minimum_release_age_strict: Option<bool>,
    pub advisory_check: Option<String>,
    pub low_download_threshold: Option<u64>,
    pub security_scanner: Option<String>,
    pub peer_dependency_rules: Option<Yaml>,
    /// The keys that are none of the above.
    pub extra: StrMap<Yaml>,
}

impl Default for WorkspaceConfig {
    /// A workspace file that says nothing.
    fn default() -> (r: Self)
        ensures
            r.packages@.len() == 0,
            r.include_workspace_root is None,
            r.catalog@ == Map::<Seq<char>, Seq<char>>::empty(),
            r.catalogs@ == Map::<Seq<char>, Map<Seq<char>, Seq<char>>>::empty(),
            r.node_linker is None,
            r.enable_global_virtual_store is None,
            r.disable_global_virtual_store_for_packages is None,
            r.package_import_method is None,
            r.virtual_store_dir is None,
            r.modules_dir is None,
            r.shamefully_hoist is None,
            r.hoist is None,
            r.hoist_pattern is None,
            r.hoist_workspace_packages is None,
            r.dedupe_direct_deps is None,
            r.deploy_all_files is None,
            r.public_hoist_pattern is None,
            r.store_dir is None,
            r.lockfile is None,
            r.lockfile_dir is None,
            r.prefer_frozen_lockfile is None,
            r.git_branch_lockfile is None,
            r.merge_git_branch_lockfiles_branch_pattern is None,
            r.shared_workspace_lockfile is None,
            r.peers_suffix_max_length is None,
            r.overrides@ == Map::<Seq<char>, Seq<char>>::empty(),
            r.patched_dependencies@ == Map::<Seq<char>, Seq<char>>::empty(),
            r.supported_architectures is None,
            r.ignored_optional_dependencies@.len() == 0,
            r.pnpmfile_path is None,
            r.package_extensions@ == Map::<Seq<char>, YamlView>::empty(),
            r.allowed_deprecated_versions@ == Map::<Seq<char>, Seq<char>>::empty(),
            r.deprecation_warnings is None,
            r.update_config is None,
            r.trust_policy is None,
            r.trust_policy_exclude@.len() == 0,
            r.trust_policy_ignore_after is None,
            r.block_exotic_subdeps is None,
            r.ignore_scripts is None,
            r.aube_no_auto_install is None,
            r.aube_no_lock is None,
            r.allow_builds@ == Map::<Seq<char>, YamlView>::empty(),
            r.only_built_dependencies@.len() == 0,
            r.never_built_dependencies@.len() == 0,
            r.child_concurrency is None,
            r.network_concurrency is None,
            r.link_concurrency is None,
            r.verify_store_integrity is None,
            r.strict_store_integrity is None,
            r.side_effects_cache is None,
            r.jail_builds is None,
            r.paranoid is None,
            r.jail_build_exclusions@.len() == 0,
            r.jail_build_permissions@ == Map::<Seq<char>, JailBuildPermissionView>::empty(),
            r.cleanup_unused_catalogs is None,
            r.link_workspace_packages is None,
            r.save_workspace_protocol is None,
            r.auto_install_peers is None,
            r.strict_peer_dependencies is None,
            r.exclude_links_from_lockfile is None,
            r.dedupe_peer_dependents is None,
            r.dedupe_peers is None,
            r.resolve_peers_from_workspace_root is None,
            r.lockfile_include_tarball_url is None,
            r.minimum_release_age is None,
            r.minimum_release_age_exclude is None,
            r.minimum_release_age_strict is None,
            r.advisory_check is None,
            r.low_download_threshold is None,
            r.security_scanner is None,
            r.peer_dependency_rules is None,
            r.extra@ == Map::<Seq<char>, YamlView>::empty(),
    {
        WorkspaceConfig {
            packages: Vec::new(),
            include_workspace_root: None,
            catalog: StrMap::new(),
            catalogs: StrMap::new(),
            node_linker: None,
            enable_global_virtual_store: None,
            disable_global_virtual_store_for_packages: None,
            package_import_method: None,
            virtual_store_dir: None,
            modules_dir: None,
            shamefully_hoist: None,
            hoist: None,
            hoist_pattern: None,
            hoist_workspace_packages: None,
            dedupe_direct_deps: None,
            deploy_all_files: None,
            public_hoist_pattern: None,
            store_dir: None,
            lockfile: None,
            lockfile_dir: None,
            prefer_frozen_lockfile: None,
            git_branch_lockfile: None,
            merge_git_branch_lockfiles_branch_pattern: None,
            shared_workspace_lockfile: None,
            peers_suffix_max_length: None,
            overrides: StrMap::new(),
            patched_dependencies: StrMap::new(),
            supported_architectures: None,
            ignored_optional_dependencies: Vec::new(),
            pnpmfile_path: None,
            package_extensions: StrMap::new(),
            allowed_deprecated_versions: StrMap::new(),
            deprecation_warnings: None,
            update_config: None,
            trust_policy: None,
            trust_policy_exclude: Vec::new(),
            trust_policy_ignore_after: None,
            block_exotic_subdeps: None,
            ignore_scripts: None,
            aube_no_auto_install: None,
            aube_no_lock: None,
            allow_builds: StrMap::new(),
            only_built_dependencies: Vec::new(),
            never_built_dependencies: Vec::new(),
            child_concurrency: None,
            network_concurrency: None,
            link_concurrency: None,
            verify_store_integrity: None,
            strict_store_integrity: None,
            side_effects_cache: None,
            jail_builds: None,
            paranoid: None,
            jail_build_exclusions: Vec::new(),
            jail_build_permissions: StrMap::new(),
            cleanup_unused_catalogs: None,
            link_workspace_packages: None,
            save_workspace_protocol: None,
            auto_install_peers: None,
            strict_peer_dependencies: None,
            exclude_links_from_lockfile: None,
            dedupe_peer_dependents: None,
            dedupe_peers: None,
            resolve_peers_from_workspace_root: None,
            lockfile_include_tarball_url: None,
            minimum_release_age: None,
            minimum_release_age_exclude: None,
            minimum_release_age_strict: None,
            advisory_check: None,
            low_download_threshold: None,
            security_scanner: None,
            peer_dependency_rules: None,
            extra: StrMap::new(),
        }
    }
}

/// The platforms that are supported besides the current one.
#[derive(Debug, Default, PartialEq)]
pub struct SupportedArchitectures {
    pub os: Vec<String>,
    pub cpu: Vec<String>,
    pub libc: Vec<String>,
}

impl SupportedArchitectures {
    pub fn is_empty(&self) -> (r: bool)
        ensures
            r == (self.os@.len() == 0 && self.cpu@.len() == 0 && self.libc@.len() == 0),
    {
        self.os.len() == 0 && self.cpu.len() == 0 && self.libc.len() == 0
    }
}

/// The text that stands for an unreviewed `allowBuilds` entry.
pub const ALLOW_BUILDS_REVIEW_PLACEHOLDER: &'static str = "set this to true or false";

/// An `allowBuilds` value in YAML: a boolean, a string as it is, or the text of
/// any other value without white space around it.
pub open spec fn yaml_allow_build(v: YamlView) -> AllowBuildView {
    match v {
        YamlView::Bool(b) => AllowBuildView::Bool(b),
        YamlView::String(s) => AllowBuildView::Other(s),
        other => AllowBuildView::Other(
            match yaml_text(other) {
                Ok(s) => trim(s),
                Err(_) => Seq::empty(),
            },
        ),
    }
}

/// The `allowBuilds` entries of the workspace file.
pub open spec fn yaml_allow_builds(m: Map<Seq<char>, YamlView>) -> Map<Seq<char>, AllowBuildView> {
    Map::new(|k: Seq<char>| m.dom().contains(k), |k: Seq<char>| yaml_allow_build(m[k]))
}

fn read_allow_build(v: &Yaml) -> (r: AllowBuildRaw)
    requires
        is_valid(tree(*v)),
    ensures
        r.deep_view() == yaml_allow_build(tree(*v)),
{
    match v {
        Yaml::Bool(b) => AllowBuildRaw::Bool(*b),
        Yaml::String(s) => AllowBuildRaw::Other(s.clone()),
        _ => match document_text(v) {
            Ok(s) => AllowBuildRaw::Other(string(trimmed(&chars(s.as_str())))),
            Err(_) => AllowBuildRaw::Other(String::new()),
        },
    }
}

impl WorkspaceConfig {
    /// No mapping among the `allowBuilds` values holds a key twice.
    pub open spec fn is_valid(&self) -> bool {
        forall|k: Seq<char>| #[trigger]
            self.allow_builds@.dom().contains(k) ==> is_valid(self.allow_builds@[k])
    }

    /// The `allowBuilds` entries in the form in which the manifest gives its
    /// own.
    pub fn allow_builds_raw(&self) -> (r: StrMap<AllowBuildRaw>)
        requires
            self.is_valid(),
        ensures
            r@ == yaml_allow_builds(self.allow_builds@),
    {
        let mut r: StrMap<AllowBuildRaw> = StrMap::new();
        let n: usize = self.allow_builds.len();
        let mut i: usize = 0;
        let ghost keys = sorted_keys(self.allow_builds@.dom());
        let ghost all = yaml_allow_builds(self.allow_builds@);
        proof {
            assert(r@ =~= all.restrict(prefix_set(keys, 0)));
        }
        while i < n
            invariant
                self.is_valid(),
                keys == sorted_keys(self.allow_builds@.dom()),
                n == keys.len(),
                all == yaml_allow_builds(self.allow_builds@),
                i <= n,
                r@ == all.restrict(prefix_set(keys, i as int)),
            decreases n - i,
        {
            let k = self.allow_builds.key_at(i);
            let v = self.allow_builds.value_at(i);
            proof {
                assert(self.allow_builds@.dom().contains(k@));
                assert(is_valid(tree(*v)));
            }
            let raw = read_allow_build(v);
            proof {
                assert(all.restrict(prefix_set(keys, i as int + 1)) =~= all.restrict(
                    prefix_set(keys, i as int),
                ).insert(k@, raw.deep_view()));
            }
            r.insert(k.clone(), raw);
            i = i + 1;
        }
        proof {
            assert(all.restrict(prefix_set(keys, n as int)) =~= all);
        }
        r
    }
}

/// A list with the texts among the first `n` of another added that it does not
/// hold yet.
pub open spec fn with_new_texts(list: Seq<Seq<char>>, more: Seq<Seq<char>>, n: int) -> Seq<
    Seq<char>,
>
    decreases n,
{
    if n <= 0 {
        list
    } else {
        let before = with_new_texts(list, more, n - 1);
        if before.contains(more[n - 1]) {
            before
        } else {
            before.push(more[n - 1])
        }
    }
}

/// The platforms of one axis: those of the manifest, and then those of the
/// workspace file that are new.
pub open spec fn all_architectures(
    manifest: Seq<Seq<char>>,
    workspace: Option<Seq<Seq<char>>>,
) -> Seq<Seq<char>> {
    match workspace {
        Some(w) => with_new_texts(manifest, w, w.len() as int),
        None => manifest,
    }
}

fn extend_unique(dst: &mut Vec<String>, src: &Vec<String>)
    ensures
        final(dst).deep_view() == with_new_texts(
            old(dst).deep_view(),
            src.deep_view(),
            src@.len() as int,
        ),
{
    let ghost dst0 = dst.deep_view();
    let ghost all = src.deep_view();
    let mut i: usize = 0;
    while i < src.len()
        invariant
            all == src.deep_view(),
            i <= src@.len(),
            dst.deep_view() == with_new_texts(dst0, all, i as int),
        decreases src.len() - i,
    {
        proof {
            assert(all[i as int] == src@[i as int]@);
        }
        if !crate::manifest::holds(dst, src[i].as_str()) {
            let ghost before = dst.deep_view();
            let t = src[i].clone();
            dst.push(t);
            proof {
                assert(dst.deep_view() =~= before.push(t@));
            }
        }
        i = i + 1;
    }
}

/// The platforms that are supported: what the manifest says, and then what the
/// workspace file adds.
pub fn effective_supported_architectures(
    manifest: &PackageJson,
    workspace: &WorkspaceConfig,
) -> (r: (Vec<String>, Vec<String>, Vec<String>))
    ensures
        r.0.deep_view() == all_architectures(
            architectures(manifest.extra@, "os"@),
            match workspace.supported_architectures {
                Some(w) => Some(w.os.deep_view()),
                None => None,
            },
        ),
        r.1.deep_view() == all_architectures(
            architectures(manifest.extra@, "cpu"@),
            match workspace.supported_architectures {
                Some(w) => Some(w.cpu.deep_view()),
                None => None,
            },
        ),
        r.2.deep_view() == all_architectures(
            architectures(manifest.extra@, "libc"@),
            match workspace.supported_architectures {
                Some(w) => Some(w.libc.deep_view()),
                None => None,
            },
        ),
{
    let (mut os, mut cpu, mut libc) = manifest.pnpm_supported_architectures();
    if let Some(w) = &workspace.supported_architectures {
        extend_unique(&mut os, &w.os);
        extend_unique(&mut cpu, &w.cpu);
        extend_unique(&mut libc, &w.libc);
    }
    (os, cpu, libc)
}

/// The optional dependencies that the manifest or the workspace file ignores.
pub fn effective_ignored_optional_dependencies(
    manifest: &PackageJson,
    workspace: &WorkspaceConfig,
) -> (r: StrSet)
    ensures
        r@ == string_set(
            items_of(namespace(manifest.extra@, "pnpm"@), "ignoredOptionalDependencies"@),
        ).union(
            string_set(
                items_of(namespace(manifest.extra@, "aube"@), "ignoredOptionalDependencies"@),
            ),
        ).union(workspace.ignored_optional_dependencies.deep_view().to_set()),
{
    let mut out = manifest.pnpm_ignored_optional_dependencies();
    insert_all(&mut out, &workspace.ignored_optional_dependencies);
    out
}

/// The file that a setting is written to.
#[derive(Debug, Clone, PartialEq, Eq)]
pub enum ConfigWriteTarget {
    PackageJson,
    /// The workspace file with this name.
    WorkspaceYaml(String),
}

/// The name of the workspace file that counts among those that exist.
pub open spec fn existing_name(has_aube: bool, has_pnpm: bool) -> Option<Seq<char>> {
    if has_aube {
        Some("aube-workspace.yaml"@)
    } else if has_pnpm {
        Some("pnpm-workspace.yaml"@)
    } else {
        None
    }
}

/// The workspace file of a project, of which is known which of the two files
/// exist: `aube-workspace.yaml` before `pnpm-workspace.yaml`.
pub fn workspace_yaml_existing(has_aube: bool, has_pnpm: bool) -> (r: Option<&'static str>)
    ensures
        (match r {
            Some(s) => Some(s@),
            None => None,
        }) == existing_name(has_aube, has_pnpm),
{
    if has_aube {
        Some("aube-workspace.yaml")
    } else if has_pnpm {
        Some("pnpm-workspace.yaml")
    } else {
        None
    }
}

/// The workspace file of a project to write to, even where there is none yet.
pub fn workspace_yaml_target(has_aube: bool, has_pnpm: bool) -> (r: &'static str)
    ensures
        r@ == (match existing_name(has_aube, has_pnpm) {
            Some(name) => name,
            None => "aube-workspace.yaml"@,
        }),
{
    match workspace_yaml_existing(has_aube, has_pnpm) {
        Some(name) => name,
        None => "aube-workspace.yaml",
    }
}

/// The file that a setting is written to: the workspace file where there is
/// one, or else the manifest.
pub fn config_write_target(has_aube: bool, has_pnpm: bool) -> (r: ConfigWriteTarget)
    ensures
        match existing_name(has_aube, has_pnpm) {
            Some(name) => r matches ConfigWriteTarget::WorkspaceYaml(s) && s@ == name,
            None => r is PackageJson,
        },
{
    match workspace_yaml_existing(has_aube, has_pnpm) {
        Some(name) => ConfigWriteTarget::WorkspaceYaml(name.to_owned()),
        None => ConfigWriteTarget::PackageJson,
    }
}

} // verus!
