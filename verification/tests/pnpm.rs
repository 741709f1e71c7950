//! Reading and writing `pnpm-lock.yaml`.
use aube_lockfile::graph::{
    CatalogEntry, DepType, DirectDep, LockedPackage, LockfileGraph, LockfileSettings, PeerDepMeta,
};
use aube_lockfile::manifest::PackageJson;
use aube_lockfile::pnpm::dep_path::{
    dep_path_tail, parse_dep_path, peerless_dep_path, resolve_alias, rewrite_snapshot_alias_deps,
    version_to_dep_path,
};
use aube_lockfile::pnpm::document::{
    PatchedDependency, PnpmDepSpec, PnpmImporter, PnpmLockfile, PnpmPackageInfo, PnpmResolution,
    PnpmSettings, PnpmSnapshot,
};
use aube_lockfile::pnpm::format::reformat_for_pnpm_parity;
use aube_lockfile::pnpm::read::local_source_from_resolution;
use aube_lockfile::pnpm::select::{
    project_lockfile_score, select_document, wants_document, DIRECT_WEIGHT, MAX_DOCUMENTS,
};
use aube_lockfile::source::{GitSource, LocalSource, RemoteTarballSource};
use aube_lockfile::strmap::{Dup, StrMap, StrSet};
use std::collections::BTreeMap;
use yaml_serde::{Mapping, Value};

type Made<T> = Result<T, String>;

fn text_of(v: &Value) -> Made<String> {
    match v {
        Value::String(s) => Ok(s.clone()),
        other => Err(format!("invalid type: {other:?}, expected a string")),
    }
}

fn field<'a>(v: &'a Value, key: &str) -> Option<&'a Value> {
    match v.get(key) {
        Some(Value::Null) | None => None,
        Some(found) => Some(found),
    }
}

fn entries_of(v: &Value) -> Made<Vec<(String, Value)>> {
    let map = v.as_mapping().ok_or("expected a mapping")?;
    let mut out = Vec::new();
    for (k, v) in map {
        out.push((text_of(k)?, v.clone()));
    }
    Ok(out)
}

fn opt_text(v: &Value, key: &str) -> Made<Option<String>> {
    field(v, key).map(text_of).transpose()
}

fn opt_bool(v: &Value, key: &str) -> Option<bool> {
    field(v, key).and_then(|b| b.as_bool())
}

fn texts(v: &Value) -> Made<Vec<String>> {
    match v {
        Value::Sequence(items) => items.iter().map(text_of).collect(),
        other => Ok(vec![text_of(other)?]),
    }
}

fn opt_texts(v: &Value, key: &str) -> Made<Option<Vec<String>>> {
    field(v, key).map(texts).transpose()
}

fn strings(v: &Value) -> Made<StrMap<String>> {
    let mut m = StrMap::new();
    for (k, v) in entries_of(v)? {
        m.insert(k, text_of(&v)?);
    }
    Ok(m)
}

fn opt_strings(v: &Value, key: &str) -> Made<Option<StrMap<String>>> {
    field(v, key).map(strings).transpose()
}

fn dep_specs(v: &Value, key: &str) -> Made<Option<StrMap<PnpmDepSpec>>> {
    let Some(section) = field(v, key) else {
        return Ok(None);
    };
    let mut m = StrMap::new();
    for (k, v) in entries_of(section)? {
        let specifier = opt_text(&v, "specifier")?.ok_or("missing field `specifier`")?;
        let version = opt_text(&v, "version")?.ok_or("missing field `version`")?;
        m.insert(k, PnpmDepSpec { specifier, version });
    }
    Ok(Some(m))
}

fn resolution_of(v: &Value) -> Made<PnpmResolution> {
    Ok(PnpmResolution {
        integrity: opt_text(v, "integrity")?,
        directory: opt_text(v, "directory")?,
        tarball: opt_text(v, "tarball")?,
        commit: opt_text(v, "commit")?,
        repo: opt_text(v, "repo")?,
        type_: opt_text(v, "type")?,
        path: opt_text(v, "path")?,
    })
}

fn package_of(v: &Value) -> Made<PnpmPackageInfo> {
    let mut meta = None;
    if let Some(found) = field(v, "peerDependenciesMeta") {
        let mut m = StrMap::new();
        for (k, v) in entries_of(found)? {
            m.insert(
                k,
                PeerDepMeta {
                    optional: opt_bool(&v, "optional").unwrap_or(false),
                },
            );
        }
        meta = Some(m);
    }
    Ok(PnpmPackageInfo {
        resolution: field(v, "resolution").map(resolution_of).transpose()?,
        version: opt_text(v, "version")?,
        engines: opt_strings(v, "engines")?.unwrap_or_else(StrMap::new),
        os: opt_texts(v, "os")?.unwrap_or_default(),
        cpu: opt_texts(v, "cpu")?.unwrap_or_default(),
        libc: opt_texts(v, "libc")?.unwrap_or_default(),
        has_bin: opt_bool(v, "hasBin").unwrap_or(false),
        peer_dependencies: opt_strings(v, "peerDependencies")?,
        peer_dependencies_meta: meta,
        alias_of: opt_text(v, "aliasOf")?,
    })
}

fn lockfile_of(v: &Value) -> Made<PnpmLockfile> {
    v.get("lockfileVersion").ok_or("missing field `lockfileVersion`")?;
    let mut catalogs = None;
    if let Some(found) = field(v, "catalogs") {
        let mut all = StrMap::new();
        for (name, entries) in entries_of(found)? {
            let mut one = StrMap::new();
            for (k, v) in entries_of(&entries)? {
                one.insert(
                    k,
                    CatalogEntry {
                        specifier: opt_text(&v, "specifier")?.ok_or("specifier")?,
                        version: opt_text(&v, "version")?.ok_or("version")?,
                    },
                );
            }
            all.insert(name, one);
        }
        catalogs = Some(all);
    }
    let mut patched = None;
    if let Some(found) = field(v, "patchedDependencies") {
        let mut m = StrMap::new();
        for (k, v) in entries_of(found)? {
            let entry = match &v {
                Value::String(p) => PatchedDependency::Path(p.clone()),
                other => PatchedDependency::Object {
                    path: opt_text(other, "path")?.ok_or("path")?,
                    hash: opt_text(other, "hash")?,
                },
            };
            m.insert(k, entry);
        }
        patched = Some(m);
    }
    let mut importers = StrMap::new();
    if let Some(found) = v.get("importers") {
        for (k, v) in entries_of(found)? {
            importers.insert(
                k,
                PnpmImporter {
                    dependencies: dep_specs(&v, "dependencies")?,
                    dev_dependencies: dep_specs(&v, "devDependencies")?,
                    optional_dependencies: dep_specs(&v, "optionalDependencies")?,
                    skipped_optional_dependencies: dep_specs(&v, "skippedOptionalDependencies")?,
                },
            );
        }
    }
    let mut packages = StrMap::new();
    if let Some(found) = v.get("packages") {
        for (k, v) in entries_of(found)? {
            packages.insert(k, package_of(&v)?);
        }
    }
    let mut snapshots = StrMap::new();
    if let Some(found) = v.get("snapshots") {
        for (k, v) in entries_of(found)? {
            snapshots.insert(
                k,
                PnpmSnapshot {
                    dependencies: opt_strings(&v, "dependencies")?,
                    optional_dependencies: opt_strings(&v, "optionalDependencies")?,
                    transitive_peer_dependencies: opt_texts(&v, "transitivePeerDependencies")?,
                    optional: opt_bool(&v, "optional"),
                    bundled_dependencies: opt_texts(&v, "bundledDependencies")?,
                },
            );
        }
    }
    Ok(PnpmLockfile {
        settings: field(v, "settings").map(|s| PnpmSettings {
            auto_install_peers: opt_bool(s, "autoInstallPeers"),
            exclude_links_from_lockfile: opt_bool(s, "excludeLinksFromLockfile"),
            lockfile_include_tarball_url: opt_bool(s, "lockfileIncludeTarballUrl"),
        }),
        overrides: opt_strings(v, "overrides")?,
        patched_dependencies: patched,
        catalogs,
        time: opt_strings(v, "time")?,
        importers,
        packages,
        ignored_optional_dependencies: opt_texts(v, "ignoredOptionalDependencies")?,
        snapshots,
    })
}

fn put(m: &mut Mapping, key: &str, v: Value) {
    m.insert(Value::String(key.to_string()), v);
}

fn put_text(m: &mut Mapping, key: &str, v: &Option<String>) {
    if let Some(s) = v {
        put(m, key, Value::String(s.clone()));
    }
}

fn put_texts(m: &mut Mapping, key: &str, v: &[String]) {
    if !v.is_empty() {
        let items = v.iter().map(|s| Value::String(s.clone())).collect();
        put(m, key, Value::Sequence(items));
    }
}

fn strings_value(v: &StrMap<String>) -> Value {
    let mut m = Mapping::new();
    for i in 0..v.len() {
        put(&mut m, v.key_at(i), Value::String(v.value_at(i).clone()));
    }
    Value::Mapping(m)
}

fn put_strings(m: &mut Mapping, key: &str, v: &Option<StrMap<String>>) {
    if let Some(s) = v {
        put(m, key, strings_value(s));
    }
}

fn put_specs(m: &mut Mapping, key: &str, v: &Option<StrMap<PnpmDepSpec>>) {
    if let Some(s) = v {
        let mut section = Mapping::new();
        for i in 0..s.len() {
            let mut one = Mapping::new();
            put(&mut one, "specifier", Value::String(s.value_at(i).specifier.clone()));
            put(&mut one, "version", Value::String(s.value_at(i).version.clone()));
            put(&mut section, s.key_at(i), Value::Mapping(one));
        }
        put(m, key, Value::Mapping(section));
    }
}

fn package_value(p: &PnpmPackageInfo) -> Value {
    let mut m = Mapping::new();
    if let Some(r) = &p.resolution {
        let mut one = Mapping::new();
        put_text(&mut one, "integrity", &r.integrity);
        put_text(&mut one, "directory", &r.directory);
        put_text(&mut one, "tarball", &r.tarball);
        put_text(&mut one, "commit", &r.commit);
        put_text(&mut one, "repo", &r.repo);
        put_text(&mut one, "type", &r.type_);
        put_text(&mut one, "path", &r.path);
        put(&mut m, "resolution", Value::Mapping(one));
    }
    put_text(&mut m, "version", &p.version);
    if !p.engines.is_empty() {
        put(&mut m, "engines", strings_value(&p.engines));
    }
    put_texts(&mut m, "os", &p.os);
    put_texts(&mut m, "cpu", &p.cpu);
    put_texts(&mut m, "libc", &p.libc);
    if p.has_bin {
        put(&mut m, "hasBin", Value::Bool(true));
    }
    put_strings(&mut m, "peerDependencies", &p.peer_dependencies);
    if let Some(meta) = &p.peer_dependencies_meta {
        let mut all = Mapping::new();
        for i in 0..meta.len() {
            let mut one = Mapping::new();
            if meta.value_at(i).optional {
                put(&mut one, "optional", Value::Bool(true));
            }
            put(&mut all, meta.key_at(i), Value::Mapping(one));
        }
        put(&mut m, "peerDependenciesMeta", Value::Mapping(all));
    }
    put_text(&mut m, "aliasOf", &p.alias_of);
    Value::Mapping(m)
}

fn snapshot_value(s: &PnpmSnapshot) -> Value {
    let mut m = Mapping::new();
    put_strings(&mut m, "dependencies", &s.dependencies);
    put_strings(&mut m, "optionalDependencies", &s.optional_dependencies);
    if let Some(v) = &s.transitive_peer_dependencies {
        put_texts(&mut m, "transitivePeerDependencies", v);
    }
    if let Some(b) = s.optional {
        put(&mut m, "optional", Value::Bool(b));
    }
    if let Some(v) = &s.bundled_dependencies {
        put_texts(&mut m, "bundledDependencies", v);
    }
    Value::Mapping(m)
}

fn lockfile_value(doc: &PnpmLockfile) -> Value {
    let mut m = Mapping::new();
    put(&mut m, "lockfileVersion", Value::String("9.0".to_string()));
    if let Some(s) = &doc.settings {
        let mut one = Mapping::new();
        put(&mut one, "autoInstallPeers", Value::Bool(s.auto_install_peers == Some(true)));
        put(
            &mut one,
            "excludeLinksFromLockfile",
            Value::Bool(s.exclude_links_from_lockfile == Some(true)),
        );
        if s.lockfile_include_tarball_url == Some(true) {
            put(&mut one, "lockfileIncludeTarballUrl", Value::Bool(true));
        }
        put(&mut m, "settings", Value::Mapping(one));
    }
    put_strings(&mut m, "overrides", &doc.overrides);
    if let Some(p) = &doc.patched_dependencies {
        let mut one = Mapping::new();
        for i in 0..p.len() {
            match p.value_at(i) {
                PatchedDependency::Path(path) => {
                    put(&mut one, p.key_at(i), Value::String(path.clone()))
                }
                PatchedDependency::Object { path, .. } => {
                    put(&mut one, p.key_at(i), Value::String(path.clone()))
                }
            }
        }
        put(&mut m, "patchedDependencies", Value::Mapping(one));
    }
    if let Some(c) = &doc.catalogs {
        let mut all = Mapping::new();
        for i in 0..c.len() {
            let mut named = Mapping::new();
            let entries = c.value_at(i);
            for j in 0..entries.len() {
                let mut one = Mapping::new();
                let e = entries.value_at(j);
                put(&mut one, "specifier", Value::String(e.specifier.clone()));
                put(&mut one, "version", Value::String(e.version.clone()));
                put(&mut named, entries.key_at(j), Value::Mapping(one));
            }
            put(&mut all, c.key_at(i), Value::Mapping(named));
        }
        put(&mut m, "catalogs", Value::Mapping(all));
    }
    put_strings(&mut m, "time", &doc.time);
    let mut importers = Mapping::new();
    for i in 0..doc.importers.len() {
        let mut one = Mapping::new();
        let importer = doc.importers.value_at(i);
        put_specs(&mut one, "dependencies", &importer.dependencies);
        put_specs(&mut one, "devDependencies", &importer.dev_dependencies);
        put_specs(&mut one, "optionalDependencies", &importer.optional_dependencies);
        put_specs(
            &mut one,
            "skippedOptionalDependencies",
            &importer.skipped_optional_dependencies,
        );
        put(&mut importers, doc.importers.key_at(i), Value::Mapping(one));
    }
    put(&mut m, "importers", Value::Mapping(importers));
    let mut packages = Mapping::new();
    for i in 0..doc.packages.len() {
        put(&mut packages, doc.packages.key_at(i), package_value(doc.packages.value_at(i)));
    }
    put(&mut m, "packages", Value::Mapping(packages));
    if let Some(v) = &doc.ignored_optional_dependencies {
        put_texts(&mut m, "ignoredOptionalDependencies", v);
    }
    let mut snapshots = Mapping::new();
    for i in 0..doc.snapshots.len() {
        put(&mut snapshots, doc.snapshots.key_at(i), snapshot_value(doc.snapshots.value_at(i)));
    }
    put(&mut m, "snapshots", Value::Mapping(snapshots));
    Value::Mapping(m)
}

fn read_text(content: &str) -> Made<LockfileGraph> {
    let mut docs: Vec<PnpmLockfile> = Vec::new();
    let mut first_error = None;
    let mut all = yaml_serde::Deserializer::from_str(content);
    while wants_document(docs.len(), first_error.is_some()) {
        let Some(doc) = all.next() else {
            break;
        };
        let parsed: Result<Value, _> = serde::Deserialize::deserialize(doc);
        match parsed.map_err(|e| e.to_string()).and_then(|v| lockfile_of(&v)) {
            Ok(doc) => docs.push(doc),
            Err(e) => first_error = Some(e),
        }
    }
    match select_document(&docs) {
        Some(i) => aube_lockfile::pnpm::parse(&docs[i]).map_err(|e| e.message()),
        None => Err(first_error.unwrap_or_default()),
    }
}

/// Files by name.
struct Files(BTreeMap<String, String>);

impl Files {
    fn new() -> Self {
        Files(BTreeMap::new())
    }

    fn put(&mut self, path: &str, text: &str) {
        self.0.insert(path.to_string(), text.to_string());
    }

    fn text(&self, path: &str) -> String {
        self.0[path].clone()
    }

    fn parse(&self, path: &str) -> Made<LockfileGraph> {
        read_text(&self.0[path])
    }

    fn write(&mut self, path: &str, graph: &LockfileGraph, manifest: &PackageJson) {
        let doc = aube_lockfile::pnpm::write::write(path, graph, manifest);
        let yaml = yaml_serde::to_string(&lockfile_value(&doc)).unwrap();
        self.put(path, &reformat_for_pnpm_parity(&yaml));
    }
}

fn string_map(pairs: &[(&str, &str)]) -> StrMap<String> {
    let mut m = StrMap::new();
    for (k, v) in pairs {
        m.insert(k.to_string(), v.to_string());
    }
    m
}

fn one_importer(path: &str, deps: Vec<DirectDep>) -> StrMap<Vec<DirectDep>> {
    let mut m = StrMap::new();
    m.insert(path.to_string(), deps);
    m
}

fn package_map(packages: Vec<(String, LockedPackage)>) -> StrMap<LockedPackage> {
    let mut m = StrMap::new();
    for (k, p) in packages {
        m.insert(k, p);
    }
    m
}

fn all_named<'a>(graph: &'a LockfileGraph, name: &str) -> Vec<&'a LockedPackage> {
    let mut out = Vec::new();
    for i in 0..graph.packages.len() {
        if graph.packages.value_at(i).name == name {
            out.push(graph.packages.value_at(i));
        }
    }
    out
}

fn named<'a>(graph: &'a LockfileGraph, name: &str) -> Option<&'a LockedPackage> {
    all_named(graph, name).into_iter().next()
}

#[test]
fn tests_test_parse_dep_path_simple() {
    let (name, version) = parse_dep_path("lodash@4.17.21").unwrap();
    assert_eq!(name, "lodash");
    assert_eq!(version, "4.17.21");
}

#[test]
fn tests_test_parse_dep_path_scoped() {
    let (name, version) = parse_dep_path("@babel/core@7.24.0").unwrap();
    assert_eq!(name, "@babel/core");
    assert_eq!(version, "7.24.0");
}

#[test]
fn tests_test_parse_dep_path_scoped_nested() {
    let (name, version) = parse_dep_path("@types/node@20.11.0").unwrap();
    assert_eq!(name, "@types/node");
    assert_eq!(version, "20.11.0");
}

#[test]
fn tests_test_parse_dep_path_with_leading_slash() {
    let (name, version) = parse_dep_path("/lodash@4.17.21").unwrap();
    assert_eq!(name, "lodash");
    assert_eq!(version, "4.17.21");
}

#[test]
fn tests_test_parse_dep_path_with_peer_suffix() {
    let (name, version) = parse_dep_path("foo@1.0.0(react@18.0.0)").unwrap();
    assert_eq!(name, "foo");
    assert_eq!(version, "1.0.0");
}

#[test]
fn tests_test_parse_dep_path_with_multiple_peer_suffixes() {
    let (name, version) = parse_dep_path("foo@2.0.0(react@18.0.0)(react-dom@18.0.0)").unwrap();
    assert_eq!(name, "foo");
    assert_eq!(version, "2.0.0");
}

#[test]
fn tests_test_parse_dep_path_prerelease() {
    let (name, version) = parse_dep_path("foo@1.0.0-beta.1").unwrap();
    assert_eq!(name, "foo");
    assert_eq!(version, "1.0.0-beta.1");
}

#[test]
fn tests_test_parse_dep_path_no_at() {
    assert!(parse_dep_path("invalid").is_none());
}

#[test]
fn tests_test_version_to_dep_path() {
    assert_eq!(version_to_dep_path("foo", "1.0.0"), "foo@1.0.0");
    assert_eq!(
        version_to_dep_path("@scope/pkg", "2.0.0"),
        "@scope/pkg@2.0.0"
    );
}

#[test]
fn tests_parse_normalizes_empty_root_importer_key() {
    let mut dir = Files::new();
    let lockfile_path = "pnpm-lock.yaml";
    dir.put(lockfile_path, r#"
lockfileVersion: '9.0'

importers:
  '':
    dependencies:
      host:
        specifier: 1.0.0
        version: 1.0.0

packages:
  host@1.0.0:
    resolution: {integrity: sha512-host}

snapshots:
  host@1.0.0: {}
"#);

    let graph = dir.parse(lockfile_path).unwrap();
    let root = graph
        .importers
        .get(".")
        .expect("empty-string importer should normalize to `.`");
    assert_eq!(root.len(), 1);
    assert_eq!(root[0].name, "host");
    assert!(!graph.importers.contains_key(""));
}

#[test]
fn tests_parse_handles_both_empty_and_dot_root_importer_keys() {
    let mut dir = Files::new();
    let lockfile_path = "pnpm-lock.yaml";
    dir.put(lockfile_path, r#"
lockfileVersion: '9.0'

importers:
  '':
    dependencies:
      from-empty:
        specifier: 1.0.0
        version: 1.0.0
  '.':
    dependencies:
      from-dot:
        specifier: 1.0.0
        version: 1.0.0

packages:
  from-empty@1.0.0:
    resolution: {integrity: sha512-empty}
  from-dot@1.0.0:
    resolution: {integrity: sha512-dot}

snapshots:
  from-empty@1.0.0: {}
  from-dot@1.0.0: {}
"#);

    let graph = dir.parse(lockfile_path).unwrap();
    let root = graph.importers.get(".").expect("`.` importer present");
    let names: Vec<&str> = root.iter().map(|d| d.name.as_str()).collect();
    assert_eq!(names, vec!["from-empty"]);
    assert!(!graph.importers.contains_key(""));
}

#[test]
fn tests_parse_snapshot_optional_dependencies_as_edges() {
    let mut dir = Files::new();
    let lockfile_path = "pnpm-lock.yaml";
    dir.put(lockfile_path, r#"
lockfileVersion: '9.0'

importers:
  .:
    dependencies:
      host:
        specifier: 1.0.0
        version: 1.0.0

packages:
  host@1.0.0:
    resolution: {integrity: sha512-host}

  native@1.0.0:
    resolution: {integrity: sha512-native}
    cpu: [arm64]
    os: [darwin]

snapshots:
  host@1.0.0:
    optionalDependencies:
      native: 1.0.0

  native@1.0.0: {}
"#);

    let graph = dir.parse(lockfile_path).unwrap();
    let host = graph.packages.get("host@1.0.0").unwrap();
    assert_eq!(host.dependencies.get("native").unwrap(), "1.0.0");
    assert_eq!(host.optional_dependencies.get("native").unwrap(), "1.0.0");
}

#[test]
fn tests_parse_package_platform_fields_accept_scalar_strings() {
    let mut dir = Files::new();
    let lockfile_path = "pnpm-lock.yaml";
    dir.put(lockfile_path, r#"
lockfileVersion: '9.0'

importers:
  .:
    dependencies:
      sass-embedded-linux-arm64:
        specifier: 1.99.0
        version: 1.99.0

packages:
  sass-embedded-linux-arm64@1.99.0:
    resolution: {integrity: sha512-native}
    engines: {node: '>=14.0.0'}
    cpu: arm64
    os: linux
    libc: glibc

snapshots:
  sass-embedded-linux-arm64@1.99.0: {}
"#);

    let graph = dir.parse(lockfile_path).unwrap();
    let pkg = graph
        .packages
        .get("sass-embedded-linux-arm64@1.99.0")
        .unwrap();
    assert_eq!(pkg.os.as_slice(), &["linux".to_string()]);
    assert_eq!(pkg.cpu.as_slice(), &["arm64".to_string()]);
    assert_eq!(pkg.libc.as_slice(), &["glibc".to_string()]);
}

#[test]
fn tests_parse_local_snapshot_optional_dependencies_as_edges() {
    let mut dir = Files::new();
    let lockfile_path = "pnpm-lock.yaml";
    dir.put(lockfile_path, r#"
lockfileVersion: '9.0'

importers:
  .:
    dependencies:
      local-host:
        specifier: file:./local-host
        version: file:./local-host

packages:
  local-host@file:./local-host:
    resolution: {directory: ./local-host, type: directory}

  native@1.0.0:
    resolution: {integrity: sha512-native}
    cpu: [arm64]
    os: [darwin]

snapshots:
  local-host@file:./local-host:
    optionalDependencies:
      native: 1.0.0

  native@1.0.0: {}
"#);

    let graph = dir.parse(lockfile_path).unwrap();
    let local = named(&graph, "local-host")
        .unwrap();
    assert_eq!(local.dependencies.get("native").unwrap(), "1.0.0");
    assert_eq!(local.optional_dependencies.get("native").unwrap(), "1.0.0");
}

#[test]
fn tests_parse_transitive_url_entry_uses_pnpm_version_field() {
    let mut dir = Files::new();
    let lockfile_path = "pnpm-lock.yaml";
    dir.put(lockfile_path, r#"
lockfileVersion: '9.0'

importers:
  .:
    dependencies:
      xml2json:
        specifier: ^0.12.0
        version: 0.12.0

packages:
  xml2json@0.12.0:
    resolution: {integrity: sha512-xxx}

  node-expat@https://codeload.github.com/PruvoNet/node-expat/tar.gz/0732e16b0b679da2d12e062f78b3a511f419bb65:
    resolution: {tarball: https://codeload.github.com/PruvoNet/node-expat/tar.gz/0732e16b0b679da2d12e062f78b3a511f419bb65}
    version: 2.4.1

snapshots:
  xml2json@0.12.0:
    dependencies:
      node-expat: https://codeload.github.com/PruvoNet/node-expat/tar.gz/0732e16b0b679da2d12e062f78b3a511f419bb65

  node-expat@https://codeload.github.com/PruvoNet/node-expat/tar.gz/0732e16b0b679da2d12e062f78b3a511f419bb65: {}
"#);

    let graph = dir.parse(lockfile_path).unwrap();
    let url = "https://codeload.github.com/PruvoNet/node-expat/tar.gz/0732e16b0b679da2d12e062f78b3a511f419bb65";
    let pkg = graph
        .packages
        .get(&format!("node-expat@{url}"))
        .expect("transitive remote-tarball entry present");
    assert_eq!(pkg.name, "node-expat");
    assert_eq!(pkg.version, "2.4.1");
    assert_eq!(pkg.tarball_url.as_deref(), Some(url));
}

#[test]
fn tests_url_dep_path_round_trips_with_pnpm_version_field() {
    let mut dir = Files::new();
    let lockfile_path = "pnpm-lock.yaml";
    let src = r#"lockfileVersion: '9.0'

settings:
  autoInstallPeers: true
  excludeLinksFromLockfile: false

importers:

  .:
    dependencies:
      xml2json:
        specifier: ^0.12.0
        version: 0.12.0

packages:

  node-expat@https://codeload.github.com/PruvoNet/node-expat/tar.gz/0732e16b0b679da2d12e062f78b3a511f419bb65:
    resolution: {tarball: https://codeload.github.com/PruvoNet/node-expat/tar.gz/0732e16b0b679da2d12e062f78b3a511f419bb65}
    version: 2.4.1

  xml2json@0.12.0:
    resolution: {integrity: sha512-xxx}

snapshots:

  node-expat@https://codeload.github.com/PruvoNet/node-expat/tar.gz/0732e16b0b679da2d12e062f78b3a511f419bb65: {}

  xml2json@0.12.0:
    dependencies:
      node-expat: https://codeload.github.com/PruvoNet/node-expat/tar.gz/0732e16b0b679da2d12e062f78b3a511f419bb65
"#;
    dir.put(lockfile_path, src);
    let graph = dir.parse(lockfile_path).unwrap();

    let manifest = PackageJson {
        name: Some("root".to_string()),
        version: Some("0.0.0".to_string()),
        dependencies: string_map(&[("xml2json", "^0.12.0")]),
        ..PackageJson::default()
    };
    let out_path = "round-trip.yaml";
    dir.write(out_path, &graph, &manifest);
    let written = dir.text(out_path);
    assert!(
            written.contains("node-expat@https://codeload.github.com/PruvoNet/node-expat/tar.gz/0732e16b0b679da2d12e062f78b3a511f419bb65:"),
            "URL canonical key missing from output: {written}"
        );
    assert!(
        written.contains("    version: 2.4.1"),
        "`version:` field missing from output: {written}"
    );
    assert!(
            written.contains("resolution: {tarball: https://codeload.github.com/PruvoNet/node-expat/tar.gz/0732e16b0b679da2d12e062f78b3a511f419bb65}"),
            "`resolution: {{tarball: …}}` missing from output: {written}"
        );
    let reparsed = dir.parse(out_path).unwrap();
    let url = "https://codeload.github.com/PruvoNet/node-expat/tar.gz/0732e16b0b679da2d12e062f78b3a511f419bb65";
    let pkg = reparsed
        .packages
        .get(&format!("node-expat@{url}"))
        .expect("URL-keyed entry survives round-trip");
    assert_eq!(pkg.version, "2.4.1");
    assert_eq!(pkg.tarball_url.as_deref(), Some(url));
}

#[test]
fn tests_direct_url_importer_strips_peer_suffix_from_fetch_url() {
    let mut dir = Files::new();
    let lockfile_path = "pnpm-lock.yaml";
    dir.put(lockfile_path, r#"
lockfileVersion: '9.0'

importers:
  .:
    dependencies:
      dep-a:
        specifier: github:owner/dep-a#abcdef1234567890abcdef1234567890abcdef12
        version: https://codeload.github.com/owner/dep-a/tar.gz/abcdef1234567890abcdef1234567890abcdef12(encoding@0.1.13)

packages:
  dep-a@https://codeload.github.com/owner/dep-a/tar.gz/abcdef1234567890abcdef1234567890abcdef12:
    resolution: {tarball: https://codeload.github.com/owner/dep-a/tar.gz/abcdef1234567890abcdef1234567890abcdef12}
    version: 1.0.0

  encoding@0.1.13:
    resolution: {integrity: sha512-enc}

snapshots:
  dep-a@https://codeload.github.com/owner/dep-a/tar.gz/abcdef1234567890abcdef1234567890abcdef12(encoding@0.1.13):
    dependencies:
      encoding: 0.1.13

  encoding@0.1.13: {}
"#);

    let graph = dir.parse(lockfile_path).unwrap();
    let clean_url =
        "https://codeload.github.com/owner/dep-a/tar.gz/abcdef1234567890abcdef1234567890abcdef12";

    let dep_a = named(&graph, "dep-a")
        .expect("dep-a present after parse");
    match dep_a.local_source.as_ref() {
        Some(LocalSource::RemoteTarball(t)) => {
            assert_eq!(
                t.url, clean_url,
                "peer suffix leaked into RemoteTarballSource.url — fetch would 404"
            );
        }
        other => panic!("expected RemoteTarball, got {other:?}"),
    }
    let dep_a_entries = all_named(&graph, "dep-a");
    assert_eq!(
        dep_a_entries.len(),
        1,
        "exactly one dep-a entry expected (suffix'd snapshot should fold into the local)"
    );
    assert_eq!(
        dep_a.dependencies.get("encoding"),
        Some(&"0.1.13".to_string())
    );
}

#[test]
fn tests_test_write_and_reparse_roundtrip() {
    let mut dir = Files::new();
    let lockfile_path = "pnpm-lock.yaml";

    let mut packages = StrMap::new();
    let mut foo_deps = StrMap::new();
    foo_deps.insert("bar".to_string(), "2.0.0".to_string());
    packages.insert(
        "foo@1.0.0".to_string(),
        LockedPackage {
            name: "foo".to_string(),
            version: "1.0.0".to_string(),
            integrity: Some("sha512-abc123==".to_string()),
            dependencies: foo_deps,
            dep_path: "foo@1.0.0".to_string(),
            ..Default::default()
        },
    );
    packages.insert(
        "bar@2.0.0".to_string(),
        LockedPackage {
            name: "bar".to_string(),
            version: "2.0.0".to_string(),
            integrity: Some("sha512-def456==".to_string()),
            dependencies: StrMap::new(),
            dep_path: "bar@2.0.0".to_string(),
            ..Default::default()
        },
    );

    let mut importers = StrMap::new();
    importers.insert(
        ".".to_string(),
        vec![DirectDep {
            name: "foo".to_string(),
            dep_path: "foo@1.0.0".to_string(),
            dep_type: DepType::Production,
            specifier: Some("^1.0.0".to_string()),
        }],
    );

    let graph = LockfileGraph {
        importers,
        packages,
        ..Default::default()
    };

    let mut deps = StrMap::new();
    deps.insert("foo".to_string(), "^1.0.0".to_string());
    let manifest = PackageJson {
        name: Some("test".to_string()),
        version: Some("0.0.0".to_string()),
        dependencies: deps,
        dev_dependencies: StrMap::new(),
        peer_dependencies: StrMap::new(),
        optional_dependencies: StrMap::new(),
        update_config: None,
        scripts: StrMap::new(),
        engines: StrMap::new(),
        workspaces: None,
        bundled_dependencies: None,
        extra: StrMap::new(),
    };

    dir.write(lockfile_path, &graph, &manifest);

    let reparsed = dir.parse(lockfile_path).unwrap();
    assert_eq!(reparsed.packages.len(), 2);
    assert_eq!(
        reparsed.packages.get("foo@1.0.0").unwrap().integrity,
        Some("sha512-abc123==".to_string())
    );
    assert_eq!(
        reparsed
            .packages
            .get("foo@1.0.0")
            .unwrap()
            .dependencies
            .get("bar")
            .unwrap(),
        "2.0.0"
    );

    let root_deps = reparsed.importers.get(".").unwrap();
    assert_eq!(root_deps.len(), 1);
    assert_eq!(root_deps[0].name, "foo");
    assert_eq!(root_deps[0].dep_type, DepType::Production);
}

#[test]
fn tests_writer_preserves_workspace_importer_specifiers() {
    let mut dir = Files::new();
    let lockfile_path = "pnpm-lock.yaml";

    let mut packages = StrMap::new();
    packages.insert(
        "@dev/build-tools@1.0.0".to_string(),
        LockedPackage {
            name: "@dev/build-tools".to_string(),
            version: "1.0.0".to_string(),
            dep_path: "@dev/build-tools@1.0.0".to_string(),
            ..Default::default()
        },
    );

    let mut importers = StrMap::new();
    importers.insert(
        ".".to_string(),
        vec![DirectDep {
            name: "@dev/build-tools".to_string(),
            dep_path: "@dev/build-tools@1.0.0".to_string(),
            dep_type: DepType::Dev,
            specifier: Some("^1.0.0".to_string()),
        }],
    );
    importers.insert(
        "packages/public/umd/babylonjs".to_string(),
        vec![DirectDep {
            name: "@dev/build-tools".to_string(),
            dep_path: "@dev/build-tools@1.0.0".to_string(),
            dep_type: DepType::Dev,
            specifier: Some("1.0.0".to_string()),
        }],
    );

    let graph = LockfileGraph {
        importers,
        packages,
        ..Default::default()
    };

    let mut root_dev_dependencies = StrMap::new();
    root_dev_dependencies.insert("@dev/build-tools".to_string(), "^1.0.0".to_string());
    let manifest = PackageJson {
        name: Some("root".to_string()),
        version: Some("0.0.0".to_string()),
        dependencies: StrMap::new(),
        dev_dependencies: root_dev_dependencies,
        peer_dependencies: StrMap::new(),
        optional_dependencies: StrMap::new(),
        update_config: None,
        scripts: StrMap::new(),
        engines: StrMap::new(),
        workspaces: None,
        bundled_dependencies: None,
        extra: StrMap::new(),
    };

    dir.write(lockfile_path, &graph, &manifest);

    let reparsed = dir.parse(lockfile_path).unwrap();
    let workspace_deps = reparsed
        .importers
        .get("packages/public/umd/babylonjs")
        .unwrap();
    assert_eq!(workspace_deps[0].specifier.as_deref(), Some("1.0.0"));
}

#[test]
fn tests_overrides_round_trip_through_pnpm_lock_yaml() {
    let mut dir = Files::new();
    let lockfile_path = "pnpm-lock.yaml";

    let mut overrides = StrMap::new();
    overrides.insert("lodash".to_string(), "4.17.21".to_string());
    overrides.insert("foo".to_string(), "npm:bar@^2".to_string());

    let graph = LockfileGraph {
        importers: StrMap::new(),
        packages: StrMap::new(),
        overrides,
        ..Default::default()
    };

    let manifest = PackageJson {
        name: Some("test".to_string()),
        version: Some("0.0.0".to_string()),
        dependencies: StrMap::new(),
        dev_dependencies: StrMap::new(),
        peer_dependencies: StrMap::new(),
        optional_dependencies: StrMap::new(),
        update_config: None,
        scripts: StrMap::new(),
        engines: StrMap::new(),
        workspaces: None,
        bundled_dependencies: None,
        extra: StrMap::new(),
    };

    dir.write(lockfile_path, &graph, &manifest);

    let yaml = dir.text(lockfile_path);
    assert!(
        yaml.contains("overrides:"),
        "expected `overrides:` block in:\n{yaml}"
    );

    let reparsed = dir.parse(lockfile_path).unwrap();
    assert_eq!(reparsed.overrides.len(), 2);
    assert_eq!(reparsed.overrides.get("lodash").unwrap(), "4.17.21");
    assert_eq!(reparsed.overrides.get("foo").unwrap(), "npm:bar@^2");
}

#[test]
fn tests_patched_dependencies_emitted_after_overrides_before_catalogs() {
    let mut dir = Files::new();
    let lockfile_path = "pnpm-lock.yaml";

    let mut overrides = StrMap::new();
    overrides.insert("lodash".to_string(), "4.17.21".to_string());
    let mut patched_dependencies = StrMap::new();
    patched_dependencies.insert(
        "lodash@4.17.21".to_string(),
        "patches/lodash@4.17.21.patch".to_string(),
    );
    let mut default_catalog = StrMap::new();
    default_catalog.insert(
        "react".to_string(),
        CatalogEntry {
            specifier: "^18.2.0".to_string(),
            version: "18.2.0".to_string(),
        },
    );
    let mut catalogs = StrMap::new();
    catalogs.insert("default".to_string(), default_catalog);

    let graph = LockfileGraph {
        overrides,
        patched_dependencies,
        catalogs,
        ..Default::default()
    };

    let manifest = PackageJson {
        name: Some("test".to_string()),
        ..Default::default()
    };

    dir.write(lockfile_path, &graph, &manifest);
    let yaml = dir.text(lockfile_path);

    let overrides_at = yaml.find("overrides:").expect("overrides:");
    let patched_at = yaml
        .find("patchedDependencies:")
        .expect("patchedDependencies:");
    let catalogs_at = yaml.find("catalogs:").expect("catalogs:");
    assert!(
        overrides_at < patched_at && patched_at < catalogs_at,
        "expected order: overrides < patchedDependencies < catalogs, got\n{yaml}"
    );
}

#[test]
fn tests_empty_overrides_block_omitted_from_yaml() {
    let mut dir = Files::new();
    let lockfile_path = "pnpm-lock.yaml";
    let graph = LockfileGraph::default();
    let manifest = PackageJson {
        name: Some("test".to_string()),
        version: Some("0.0.0".to_string()),
        dependencies: StrMap::new(),
        dev_dependencies: StrMap::new(),
        peer_dependencies: StrMap::new(),
        optional_dependencies: StrMap::new(),
        update_config: None,
        scripts: StrMap::new(),
        engines: StrMap::new(),
        workspaces: None,
        bundled_dependencies: None,
        extra: StrMap::new(),
    };
    dir.write(lockfile_path, &graph, &manifest);
    let yaml = dir.text(lockfile_path);
    assert!(
        !yaml.contains("overrides:"),
        "unexpected overrides block:\n{yaml}"
    );
}

#[test]
fn tests_test_write_dev_and_optional_deps() {
    let mut dir = Files::new();
    let lockfile_path = "pnpm-lock.yaml";

    let mut packages = StrMap::new();
    for (name, ver) in [("foo", "1.0.0"), ("bar", "2.0.0"), ("baz", "3.0.0")] {
        packages.insert(
            format!("{name}@{ver}"),
            LockedPackage {
                name: name.to_string(),
                version: ver.to_string(),
                integrity: None,
                dependencies: StrMap::new(),
                dep_path: format!("{name}@{ver}"),
                ..Default::default()
            },
        );
    }

    let mut importers = StrMap::new();
    importers.insert(
        ".".to_string(),
        vec![
            DirectDep {
                name: "foo".to_string(),
                dep_path: "foo@1.0.0".to_string(),
                dep_type: DepType::Production,
                specifier: Some("^1.0.0".to_string()),
            },
            DirectDep {
                name: "bar".to_string(),
                dep_path: "bar@2.0.0".to_string(),
                dep_type: DepType::Dev,
                specifier: Some("^2.0.0".to_string()),
            },
            DirectDep {
                name: "baz".to_string(),
                dep_path: "baz@3.0.0".to_string(),
                dep_type: DepType::Optional,
                specifier: Some("^3.0.0".to_string()),
            },
        ],
    );

    let graph = LockfileGraph {
        importers,
        packages,
        ..Default::default()
    };

    let mut deps = StrMap::new();
    deps.insert("foo".to_string(), "^1.0.0".to_string());
    let mut dev_deps = StrMap::new();
    dev_deps.insert("bar".to_string(), "^2.0.0".to_string());
    let mut opt_deps = StrMap::new();
    opt_deps.insert("baz".to_string(), "^3.0.0".to_string());

    let manifest = PackageJson {
        name: Some("test".to_string()),
        version: Some("0.0.0".to_string()),
        dependencies: deps,
        dev_dependencies: dev_deps,
        peer_dependencies: StrMap::new(),
        optional_dependencies: opt_deps,
        update_config: None,
        scripts: StrMap::new(),
        engines: StrMap::new(),
        workspaces: None,
        bundled_dependencies: None,
        extra: StrMap::new(),
    };

    dir.write(lockfile_path, &graph, &manifest);

    let reparsed = dir.parse(lockfile_path).unwrap();
    let root_deps = reparsed.importers.get(".").unwrap();
    assert_eq!(root_deps.len(), 3);

    let bar = root_deps.iter().find(|d| d.name == "bar").unwrap();
    assert_eq!(bar.dep_type, DepType::Dev);

    let baz = root_deps.iter().find(|d| d.name == "baz").unwrap();
    assert_eq!(baz.dep_type, DepType::Optional);
}

#[test]
fn tests_test_catalogs_roundtrip() {
    let mut dir = Files::new();
    let lockfile_path = "pnpm-lock.yaml";

    let mut default_cat = StrMap::new();
    default_cat.insert(
        "react".to_string(),
        CatalogEntry {
            specifier: "^18.0.0".to_string(),
            version: "18.2.0".to_string(),
        },
    );
    let mut catalogs = StrMap::new();
    catalogs.insert("default".to_string(), default_cat);

    let graph = LockfileGraph {
        catalogs,
        ..Default::default()
    };
    let manifest = PackageJson {
        name: Some("test".to_string()),
        version: Some("0.0.0".to_string()),
        ..Default::default()
    };
    dir.write(lockfile_path, &graph, &manifest);

    let yaml = dir.text(lockfile_path);
    assert!(
        yaml.contains("catalogs:"),
        "missing catalogs section: {yaml}"
    );
    assert!(yaml.contains("react"), "missing entry: {yaml}");

    let reparsed = dir.parse(lockfile_path).unwrap();
    let entry = reparsed
        .catalogs
        .get("default")
        .and_then(|c| c.get("react"))
        .expect("react catalog entry");
    assert_eq!(entry.specifier, "^18.0.0");
    assert_eq!(entry.version, "18.2.0");
}

#[test]
fn tests_ignored_optional_dependencies_section_matches_pnpm_order() {
    let mut dir = Files::new();
    let lockfile_path = "pnpm-lock.yaml";

    let mut ignored_optional_dependencies = StrSet::new();
    ignored_optional_dependencies.insert("fsevents".to_string());

    let mut default_cat = StrMap::new();
    default_cat.insert(
        "react".to_string(),
        CatalogEntry {
            specifier: "^18.0.0".to_string(),
            version: "18.2.0".to_string(),
        },
    );
    let mut catalogs = StrMap::new();
    catalogs.insert("default".to_string(), default_cat);

    let graph = LockfileGraph {
        ignored_optional_dependencies,
        catalogs,
        ..Default::default()
    };
    let manifest = PackageJson {
        name: Some("test".to_string()),
        version: Some("0.0.0".to_string()),
        ..Default::default()
    };
    dir.write(lockfile_path, &graph, &manifest);

    let yaml = dir.text(lockfile_path);
    let catalogs = yaml.find("\ncatalogs:").expect("missing catalogs");
    let importers = yaml.find("\nimporters:").expect("missing importers");
    let packages = yaml.find("\npackages:").expect("missing packages");
    let ignored = yaml
        .find("\nignoredOptionalDependencies:")
        .expect("missing ignoredOptionalDependencies");
    let snapshots = yaml.find("\nsnapshots:").expect("missing snapshots");

    assert!(
        catalogs < importers && importers < packages && packages < ignored && ignored < snapshots,
        "unexpected pnpm section order:\n{yaml}"
    );
}

#[test]
fn tests_exclude_links_from_lockfile_drops_link_deps_from_importer() {

    let mut dir = Files::new();
    let lockfile_path = "pnpm-lock.yaml";

    let mut packages = StrMap::new();
    packages.insert(
        "foo@1.0.0".to_string(),
        LockedPackage {
            name: "foo".to_string(),
            version: "1.0.0".to_string(),
            integrity: Some("sha512-abc==".to_string()),
            dep_path: "foo@1.0.0".to_string(),
            ..Default::default()
        },
    );
    packages.insert(
        "sibling@link:../sibling".to_string(),
        LockedPackage {
            name: "sibling".to_string(),
            version: "0.0.0".to_string(),
            dep_path: "sibling@link:../sibling".to_string(),
            local_source: Some(LocalSource::Link("../sibling".to_string())),
            ..Default::default()
        },
    );

    let mut importers = StrMap::new();
    importers.insert(
        ".".to_string(),
        vec![
            DirectDep {
                name: "foo".to_string(),
                dep_path: "foo@1.0.0".to_string(),
                dep_type: DepType::Production,
                specifier: Some("^1.0.0".to_string()),
            },
            DirectDep {
                name: "sibling".to_string(),
                dep_path: "sibling@link:../sibling".to_string(),
                dep_type: DepType::Production,
                specifier: Some("link:../sibling".to_string()),
            },
        ],
    );

    let graph = LockfileGraph {
        importers,
        packages,
        settings: LockfileSettings {
            auto_install_peers: true,
            exclude_links_from_lockfile: true,
            lockfile_include_tarball_url: false,
        },
        ..Default::default()
    };

    let mut deps = StrMap::new();
    deps.insert("foo".to_string(), "^1.0.0".to_string());
    deps.insert("sibling".to_string(), "link:../sibling".to_string());
    let manifest = PackageJson {
        name: Some("root".to_string()),
        version: Some("0.0.0".to_string()),
        dependencies: deps,
        dev_dependencies: StrMap::new(),
        peer_dependencies: StrMap::new(),
        optional_dependencies: StrMap::new(),
        update_config: None,
        scripts: StrMap::new(),
        engines: StrMap::new(),
        workspaces: None,
        bundled_dependencies: None,
        extra: StrMap::new(),
    };

    dir.write(lockfile_path, &graph, &manifest);

    let yaml = dir.text(lockfile_path);
    assert!(
        yaml.contains("excludeLinksFromLockfile: true"),
        "settings header must record the flag: {yaml}"
    );
    assert!(
        !yaml.contains("sibling:"),
        "sibling link dep should be filtered out of importers: {yaml}"
    );
    assert!(
        yaml.contains("foo:"),
        "registry dep foo must still appear: {yaml}"
    );

    let graph_off = LockfileGraph {
        settings: LockfileSettings::default(),
        ..graph
    };
    dir.write(lockfile_path, &graph_off, &manifest);
    let yaml_off = dir.text(lockfile_path);
    assert!(
        yaml_off.contains("sibling:"),
        "with flag off, sibling must reappear: {yaml_off}"
    );
}

#[test]
fn tests_test_parse_invalid_yaml() {
    let mut dir = Files::new();
    let path = "pnpm-lock.yaml";
    dir.put(path, "{{{{not yaml");
    assert!(dir.parse(path).is_err());
}

#[test]
fn tests_parse_multi_document_lockfile_picks_project_doc() {
    let yaml = r#"---
lockfileVersion: '9.0'

importers:

  .:
    packageManagerDependencies:
      pnpm:
        specifier: 11.0.0-rc.1
        version: 11.0.0-rc.1

packages:

  'pnpm@11.0.0-rc.1':
    resolution: {integrity: sha512-aaa}

snapshots:

  'pnpm@11.0.0-rc.1': {}

---
lockfileVersion: '9.0'

settings:
  autoInstallPeers: true

importers:

  .:
    dependencies:
      lodash:
        specifier: ^4.17.0
        version: 4.17.21

packages:

  'lodash@4.17.21':
    resolution: {integrity: sha512-bbb}

snapshots:

  'lodash@4.17.21': {}
"#;
    let mut dir = Files::new();
    let path = "pnpm-lock.yaml";
    dir.put(path, yaml);
    let graph = dir.parse(path).expect("multi-doc lockfile should parse");
    let root = graph.importers.get(".").expect("root importer");
    let names: Vec<_> = root.iter().map(|d| d.name.as_str()).collect();
    assert!(
        names.contains(&"lodash"),
        "expected lodash from project doc, got {names:?}"
    );
    assert!(
        !names.contains(&"pnpm"),
        "bootstrap doc's packageManagerDependencies should not leak in, got {names:?}"
    );
}

#[test]
fn tests_snapshot_optional_and_transitive_peer_deps_roundtrip() {
    let yaml = r#"lockfileVersion: '9.0'
settings:
  autoInstallPeers: true
importers:
  .:
    dependencies:
      '@reflink/reflink':
        specifier: ^0.1.19
        version: 0.1.19
      '@babel/generator':
        specifier: ^7.29.1
        version: 7.29.1
packages:
  '@reflink/reflink-darwin-arm64@0.1.19':
    resolution: {integrity: sha512-darwin}
    cpu: [arm64]
    os: [darwin]
  '@reflink/reflink@0.1.19':
    resolution: {integrity: sha512-reflink}
  '@babel/generator@7.29.1':
    resolution: {integrity: sha512-gen}
  '@babel/parser@7.29.2':
    resolution: {integrity: sha512-parser}
snapshots:
  '@reflink/reflink-darwin-arm64@0.1.19':
    optional: true
  '@reflink/reflink@0.1.19':
    optionalDependencies:
      '@reflink/reflink-darwin-arm64': 0.1.19
  '@babel/generator@7.29.1':
    dependencies:
      '@babel/parser': 7.29.2
    transitivePeerDependencies:
      - supports-color
  '@babel/parser@7.29.2': {}
"#;
    let mut dir = Files::new();
    let path = "pnpm-lock.yaml";
    dir.put(path, yaml);

    let graph = dir.parse(path).unwrap();
    let darwin = graph
        .packages
        .get("@reflink/reflink-darwin-arm64@0.1.19")
        .expect("darwin snapshot present");
    assert!(darwin.optional, "optional: true must round-trip");

    let generator = graph
        .packages
        .get("@babel/generator@7.29.1")
        .expect("generator snapshot present");
    assert_eq!(
        generator.transitive_peer_dependencies,
        vec!["supports-color".to_string()],
    );

    let parser_pkg = graph.packages.get("@babel/parser@7.29.2").unwrap();
    assert!(!parser_pkg.optional);
    assert!(parser_pkg.transitive_peer_dependencies.is_empty());

    let manifest = PackageJson {
        name: Some("rt".to_string()),
        version: Some("0.0.0".to_string()),
        dependencies: string_map(&[
            ("@reflink/reflink", "^0.1.19"),
            ("@babel/generator", "^7.29.1"),
        ]),
        ..Default::default()
    };
    let out_path = "out.yaml";
    dir.write(out_path, &graph, &manifest);
    let written = dir.text(out_path);

    assert!(
        written.contains("optional: true"),
        "writer must emit optional: true; got:\n{written}"
    );
    assert!(
        written.contains("transitivePeerDependencies:"),
        "writer must emit transitivePeerDependencies; got:\n{written}"
    );
    assert!(
        written.contains("- supports-color"),
        "writer must list bubbled peers; got:\n{written}"
    );

    let deps_line = "\n    dependencies:\n";
    let tpd_line = "\n    transitivePeerDependencies:\n";
    let deps_at = written.find(deps_line).expect("dependencies line emitted");
    let tpd_at = written
        .find(tpd_line)
        .expect("transitivePeerDependencies line emitted");
    assert!(
        deps_at < tpd_at,
        "dependencies must precede transitivePeerDependencies; got:\n{written}"
    );

    let reparsed = dir.parse(out_path).unwrap();
    assert!(
        reparsed
            .packages
            .get("@reflink/reflink-darwin-arm64@0.1.19")
            .unwrap()
            .optional
    );
    assert_eq!(
        reparsed
            .packages
            .get("@babel/generator@7.29.1")
            .unwrap()
            .transitive_peer_dependencies,
        vec!["supports-color".to_string()]
    );
}

#[test]
fn tests_adversarial_native_pnpm_features_roundtrip_together() {
    let yaml = r#"lockfileVersion: '9.0'

settings:
  autoInstallPeers: false
  excludeLinksFromLockfile: false
  lockfileIncludeTarballUrl: true

overrides:
  is-number: 6.0.0
  react: 'catalog:'

patchedDependencies:
  is-odd@3.0.1:
    path: patches/is-odd@3.0.1.patch
    hash: sha256-deadbeef

catalogs:
  default:
    react:
      specifier: ^18.2.0
      version: 18.2.0
  evens:
    is-even:
      specifier: ^1.0.0
      version: 1.0.0

importers:

  .:
    dependencies:
      odd-alias:
        specifier: npm:is-odd@3.0.1
        version: is-odd@3.0.1
      react:
        specifier: 'catalog:'
        version: 18.2.0
    devDependencies:
      peer-host:
        specifier: 1.0.0
        version: 1.0.0(@types/node@20.11.0)
    optionalDependencies:
      fsevents:
        specifier: ^2.3.3
        version: 2.3.3
    skippedOptionalDependencies:
      optional-native:
        specifier: ^1.0.0
        version: 1.0.0

packages:

  '@types/node@20.11.0':
    resolution: {integrity: sha512-types}

  fsevents@2.3.3:
    resolution: {integrity: sha512-fsevents, tarball: https://registry.npmjs.org/fsevents/-/fsevents-2.3.3.tgz}
    os: [darwin]
    cpu: [x64]

  is-number@6.0.0:
    resolution: {integrity: sha512-number}

  is-odd@3.0.1:
    resolution: {integrity: sha512-odd, tarball: https://registry.npmjs.org/is-odd/-/is-odd-3.0.1.tgz}

  peer-host@1.0.0(@types/node@20.11.0):
    resolution: {integrity: sha512-peer}
    peerDependencies:
      '@types/node': '>=20'
    peerDependenciesMeta:
      '@types/node':
        optional: true

  react@18.2.0:
    resolution: {integrity: sha512-react}

ignoredOptionalDependencies:
  - optional-native

snapshots:

  '@types/node@20.11.0': {}

  fsevents@2.3.3:
    optional: true

  is-number@6.0.0: {}

  is-odd@3.0.1:
    dependencies:
      is-number: 6.0.0
    transitivePeerDependencies:
      - '@types/node'

  peer-host@1.0.0(@types/node@20.11.0): {}

  react@18.2.0: {}
"#;
    let mut dir = Files::new();
    let path = "pnpm-lock.yaml";
    dir.put(path, yaml);

    let graph = dir.parse(path).unwrap();

    assert!(!graph.settings.auto_install_peers);
    assert!(graph.settings.lockfile_include_tarball_url);
    assert_eq!(graph.overrides.get("react").unwrap(), "catalog:");
    assert_eq!(
        graph.patched_dependencies.get("is-odd@3.0.1").unwrap(),
        "patches/is-odd@3.0.1.patch"
    );
    assert_eq!(
        graph.catalogs.get("evens").unwrap().get("is-even").unwrap().specifier, "^1.0.0",
        "named catalogs must survive parse"
    );
    assert!(
        graph
            .ignored_optional_dependencies
            .contains("optional-native")
    );
    assert_eq!(
        graph.skipped_optional_dependencies.get(".").unwrap().get("optional-native").unwrap(),
        "^1.0.0"
    );

    let root = graph.importers.get(".").expect("root importer");
    let alias_dep = root.iter().find(|d| d.name == "odd-alias").unwrap();
    assert_eq!(alias_dep.dep_path, "odd-alias@3.0.1");
    assert_eq!(alias_dep.specifier.as_deref(), Some("npm:is-odd@3.0.1"));
    let peer_dep = root.iter().find(|d| d.name == "peer-host").unwrap();
    assert_eq!(peer_dep.dep_type, DepType::Dev);
    let optional_dep = root.iter().find(|d| d.name == "fsevents").unwrap();
    assert_eq!(optional_dep.dep_type, DepType::Optional);

    let alias_pkg = graph.packages.get("odd-alias@3.0.1").unwrap();
    assert_eq!(alias_pkg.alias_of.as_deref(), Some("is-odd"));
    assert_eq!(
        alias_pkg
            .transitive_peer_dependencies
            .iter()
            .map(String::as_str)
            .collect::<Vec<_>>(),
        vec!["@types/node"]
    );
    let fsevents = graph.packages.get("fsevents@2.3.3").unwrap();
    assert!(fsevents.optional);
    assert_eq!(fsevents.os.as_slice(), ["darwin"]);
    assert_eq!(fsevents.cpu.as_slice(), ["x64"]);
    assert_eq!(
        fsevents.tarball_url.as_deref(),
        Some("https://registry.npmjs.org/fsevents/-/fsevents-2.3.3.tgz")
    );
    let peer_host = graph
        .packages
        .get("peer-host@1.0.0(@types/node@20.11.0)")
        .unwrap();
    assert_eq!(peer_host.peer_dependencies.get("@types/node").unwrap(), ">=20");
    assert!(peer_host.peer_dependencies_meta.get("@types/node").unwrap().optional);

    let manifest = PackageJson {
        name: Some("adversarial-native-pnpm".to_string()),
        version: Some("1.0.0".to_string()),
        dependencies: string_map(&[
            ("odd-alias", "npm:is-odd@3.0.1"),
            ("react", "catalog:"),
        ]),
        dev_dependencies: string_map(&[("peer-host", "1.0.0")]),
        optional_dependencies: string_map(&[("fsevents", "^2.3.3")]),
        ..Default::default()
    };
    let out = "out.yaml";
    dir.write(out, &graph, &manifest);
    let written = dir.text(out);

    for needle in [
        "lockfileIncludeTarballUrl: true",
        "overrides:",
        "patchedDependencies:",
        "catalogs:",
        "skippedOptionalDependencies:",
        "ignoredOptionalDependencies:",
        "aliasOf: is-odd",
        "peerDependencies:",
        "peerDependenciesMeta:",
        "transitivePeerDependencies:",
        "optional: true",
        "tarball: https://registry.npmjs.org/fsevents/-/fsevents-2.3.3.tgz",
    ] {
        assert!(
            written.contains(needle),
            "missing {needle:?} in:\n{written}"
        );
    }

    let overrides_at = written.find("\noverrides:").expect("overrides");
    let patched_at = written
        .find("\npatchedDependencies:")
        .expect("patchedDependencies");
    let catalogs_at = written.find("\ncatalogs:").expect("catalogs");
    let importers_at = written.find("\nimporters:").expect("importers");
    assert!(
        overrides_at < patched_at && patched_at < catalogs_at && catalogs_at < importers_at,
        "pnpm top-level section order drifted:\n{written}"
    );
    let packages_at = written.find("\npackages:").expect("packages");
    let ignored_at = written
        .find("\nignoredOptionalDependencies:")
        .expect("ignored optional");
    let snapshots_at = written.find("\nsnapshots:").expect("snapshots");
    assert!(
        packages_at < ignored_at && ignored_at < snapshots_at,
        "ignoredOptionalDependencies must stay between packages and snapshots:\n{written}"
    );

    let reparsed = dir.parse(out).unwrap();
    assert_eq!(
        reparsed
            .patched_dependencies
            .get("is-odd@3.0.1")
            .unwrap_or_else(|| panic!("patched deps lost after reparse:\n{written}")),
        "patches/is-odd@3.0.1.patch"
    );
    assert_eq!(reparsed.catalogs.get("default").unwrap().get("react").unwrap().version, "18.2.0");
    assert_eq!(
        reparsed
            .packages
            .get("odd-alias@3.0.1")
            .unwrap_or_else(|| panic!("alias package lost after reparse:\n{written}"))
            .alias_of
            .as_deref(),
        Some("is-odd")
    );
    assert!(reparsed.packages.get("fsevents@2.3.3").unwrap().optional);
    assert_eq!(
        reparsed.skipped_optional_dependencies.get(".").unwrap().get("optional-native").unwrap(),
        "^1.0.0"
    );
}

#[test]
fn write_pnpm_lockfile_uses_native_alias_shape() {
    let mut dir = Files::new();
    let path = "pnpm-lock.yaml";
    let manifest = PackageJson {
        name: Some("alias-native-pnpm".to_string()),
        version: Some("1.0.0".to_string()),
        dependencies: string_map(&[("odd-alias", "npm:is-odd@3.0.1")]),
        ..Default::default()
    };
    let graph = LockfileGraph {
        importers: one_importer(
            ".",
            vec![DirectDep {
                name: "odd-alias".to_string(),
                dep_path: "odd-alias@3.0.1".to_string(),
                dep_type: DepType::Production,
                specifier: Some("npm:is-odd@3.0.1".to_string()),
            }],
        ),
        packages: package_map(vec![
            (
                "odd-alias@3.0.1".to_string(),
                LockedPackage {
                    name: "odd-alias".to_string(),
                    version: "3.0.1".to_string(),
                    integrity: Some("sha512-odd".to_string()),
                    dep_path: "odd-alias@3.0.1".to_string(),
                    alias_of: Some("is-odd".to_string()),
                    ..Default::default()
                },
            ),
            (
                "consumer@1.0.0".to_string(),
                LockedPackage {
                    name: "consumer".to_string(),
                    version: "1.0.0".to_string(),
                    integrity: Some("sha512-consumer".to_string()),
                    dep_path: "consumer@1.0.0".to_string(),
                    dependencies: string_map(&[(
                        "odd-alias",
                        "3.0.1(peer-host@1.0.0)",
                    )]),
                    ..Default::default()
                },
            ),
        ]),
        ..Default::default()
    };

    dir.write(path, &graph, &manifest);
    let written = dir.text(path);
    assert!(written.contains("version: is-odd@3.0.1"), "{written}");
    assert!(written.contains("is-odd@3.0.1:"), "{written}");
    assert!(
        written.contains("odd-alias: is-odd@3.0.1(peer-host@1.0.0)"),
        "{written}"
    );
    assert!(!written.contains("aliasOf:"), "{written}");

    let reparsed = dir.parse(path).unwrap();
    let alias_pkg = reparsed.packages.get("odd-alias@3.0.1").unwrap();
    assert_eq!(alias_pkg.alias_of.as_deref(), Some("is-odd"));
}

#[test]
fn tests_parse_synthesizes_npm_alias_from_pnpm_v9_lockfile() {
    let mut dir = Files::new();
    let path = "pnpm-lock.yaml";
    dir.put(path, r#"
lockfileVersion: '9.0'

importers:
  .:
    dependencies:
      express-fork:
        specifier: npm:express@^4.22.1
        version: express@4.22.1

packages:
  express@4.22.1:
    resolution: {integrity: sha512-fake}
    engines: {node: '>= 0.10.0'}

snapshots:
  express@4.22.1: {}
"#);

    let graph = dir.parse(path).unwrap();

    let root = graph.importers.get(".").expect("root importer");
    assert_eq!(root.len(), 1);
    let dep = &root[0];
    assert_eq!(dep.name, "express-fork", "DirectDep keeps the alias name");
    assert_eq!(
        dep.dep_path, "express-fork@4.22.1",
        "DirectDep dep_path is alias-keyed (not the malformed express-fork@express@4.22.1)"
    );
    assert_eq!(dep.specifier.as_deref(), Some("npm:express@^4.22.1"));

    let pkg = graph
        .packages
        .get("express-fork@4.22.1")
        .expect("synthesized alias-keyed package");
    assert_eq!(pkg.name, "express-fork");
    assert_eq!(pkg.alias_of.as_deref(), Some("express"));
    assert_eq!(pkg.dep_path, "express-fork@4.22.1");
    let real = graph.packages.get("express@4.22.1").expect("real entry");
    assert_eq!(real.name, "express");
    assert!(real.alias_of.is_none());
}

#[test]
fn parse_synthesizes_npm_alias_from_pnpm_lockfile_catalog_specifier() {
    let mut dir = Files::new();
    let path = "pnpm-lock.yaml";
    dir.put(path, r#"
lockfileVersion: '9.0'

catalogs:
  default:
    beamcoder:
      specifier: npm:beamcoder-prebuild@0.7.1-rc.18
      version: 0.7.1-rc.18

importers:
  packages/app:
    dependencies:
      beamcoder:
        specifier: 'catalog:'
        version: beamcoder-prebuild@0.7.1-rc.18

packages:
  beamcoder-prebuild@0.7.1-rc.18:
    resolution: {integrity: sha512-fake}

snapshots:
  beamcoder-prebuild@0.7.1-rc.18: {}
"#);

    let graph = dir.parse(path).unwrap();
    let app = graph
        .importers
        .get("packages/app")
        .expect("packages/app importer");
    assert_eq!(app.len(), 1, "alias-resolved catalog dep must be parsed");
    let dep = &app[0];
    assert_eq!(dep.name, "beamcoder", "DirectDep keeps the alias name");
    assert_eq!(
        dep.dep_path, "beamcoder@0.7.1-rc.18",
        "DirectDep dep_path is alias-keyed"
    );
    assert_eq!(dep.specifier.as_deref(), Some("catalog:"));

    let pkg = graph
        .packages
        .get("beamcoder@0.7.1-rc.18")
        .expect("synthesized alias-keyed package");
    assert_eq!(pkg.name, "beamcoder");
    assert_eq!(pkg.alias_of.as_deref(), Some("beamcoder-prebuild"));
}

#[test]
fn tests_parse_synthesizes_npm_alias_when_real_name_is_scoped() {
    let mut dir = Files::new();
    let path = "pnpm-lock.yaml";
    dir.put(path, r#"
lockfileVersion: '9.0'

importers:
  .:
    dependencies:
      types-alias:
        specifier: npm:@types/node@^20.0.0
        version: '@types/node@20.11.0'

packages:
  '@types/node@20.11.0':
    resolution: {integrity: sha512-fake}

snapshots:
  '@types/node@20.11.0': {}
"#);

    let graph = dir.parse(path).unwrap();

    let root = graph.importers.get(".").expect("root importer");
    assert_eq!(root[0].name, "types-alias");
    assert_eq!(root[0].dep_path, "types-alias@20.11.0");

    let pkg = graph
        .packages
        .get("types-alias@20.11.0")
        .expect("synthesized alias-keyed package");
    assert_eq!(pkg.name, "types-alias");
    assert_eq!(pkg.alias_of.as_deref(), Some("@types/node"));
    let real = graph
        .packages
        .get("@types/node@20.11.0")
        .expect("real entry");
    assert_eq!(real.name, "@types/node");
    assert!(real.alias_of.is_none());
}

#[test]
fn parse_synthesizes_npm_alias_for_transitive_deps() {
    let mut dir = Files::new();
    let path = "pnpm-lock.yaml";
    dir.put(path, r#"
lockfileVersion: '9.0'

importers:
  .:
    dependencies:
      jackspeak:
        specifier: 4.1.1
        version: 4.1.1

packages:
  '@isaacs/cliui@8.0.2':
    resolution: {integrity: sha512-fake}
  jackspeak@4.1.1:
    resolution: {integrity: sha512-fake}
  string-width@4.2.3:
    resolution: {integrity: sha512-fake}
  string-width@5.1.2:
    resolution: {integrity: sha512-fake}

snapshots:
  '@isaacs/cliui@8.0.2':
    dependencies:
      string-width: 5.1.2
      string-width-cjs: string-width@4.2.3
  jackspeak@4.1.1:
    dependencies:
      '@isaacs/cliui': 8.0.2
  string-width@4.2.3: {}
  string-width@5.1.2: {}
"#);

    let graph = dir.parse(path).unwrap();

    let cliui = graph
        .packages
        .get("@isaacs/cliui@8.0.2")
        .expect("cliui entry");
    assert_eq!(
        cliui.dependencies.get("string-width-cjs").unwrap(),
        "4.2.3",
        "transitive alias dep value rewritten from `string-width@4.2.3` to bare `4.2.3`"
    );
    assert_eq!(cliui.dependencies.get("string-width").unwrap(), "5.1.2");

    let alias = graph
        .packages
        .get("string-width-cjs@4.2.3")
        .expect("synthesized alias-keyed package for transitive");
    assert_eq!(alias.name, "string-width-cjs");
    assert_eq!(alias.alias_of.as_deref(), Some("string-width"));
    assert_eq!(alias.dep_path, "string-width-cjs@4.2.3");

    let real = graph
        .packages
        .get("string-width@4.2.3")
        .expect("real entry stays put");
    assert_eq!(real.name, "string-width");
    assert!(real.alias_of.is_none());
}

#[test]
fn parse_handles_npm_alias_for_transitive_deps_with_peer_suffix() {
    let mut dir = Files::new();
    let path = "pnpm-lock.yaml";
    dir.put(path, r#"
lockfileVersion: '9.0'

importers:
  .:
    dependencies:
      parent-pkg:
        specifier: 1.0.0
        version: 1.0.0

packages:
  parent-pkg@1.0.0:
    resolution: {integrity: sha512-fake}
  real-pkg@2.0.0:
    resolution: {integrity: sha512-fake}
  peer-pkg@3.0.0:
    resolution: {integrity: sha512-fake}

snapshots:
  parent-pkg@1.0.0:
    dependencies:
      alias-pkg: real-pkg@2.0.0(peer-pkg@3.0.0)
  real-pkg@2.0.0(peer-pkg@3.0.0):
    dependencies:
      peer-pkg: 3.0.0
  peer-pkg@3.0.0: {}
"#);

    let graph = dir.parse(path).unwrap();
    let parent = graph.packages.get("parent-pkg@1.0.0").expect("parent");
    assert_eq!(
        parent.dependencies.get("alias-pkg").unwrap(),
        "2.0.0(peer-pkg@3.0.0)",
        "peer-context suffix preserved on the rewritten alias dep value"
    );
    let alias = graph
        .packages
        .get("alias-pkg@2.0.0(peer-pkg@3.0.0)")
        .expect("synthesized alias entry with peer suffix");
    assert_eq!(alias.name, "alias-pkg");
    assert_eq!(alias.alias_of.as_deref(), Some("real-pkg"));
}

#[test]
fn parse_synthesizes_npm_alias_for_transitive_deps_of_local_packages() {
    let mut dir = Files::new();
    let path = "pnpm-lock.yaml";
    dir.put(path, r#"
lockfileVersion: '9.0'

importers:
  .:
    dependencies:
      local-pkg:
        specifier: file:./local-pkg
        version: file:./local-pkg

packages:
  local-pkg@file:./local-pkg:
    resolution: {directory: ./local-pkg, type: directory}
  string-width@4.2.3:
    resolution: {integrity: sha512-fake}

snapshots:
  local-pkg@file:./local-pkg:
    dependencies:
      string-width-cjs: string-width@4.2.3
  string-width@4.2.3: {}
"#);

    let graph = dir.parse(path).unwrap();
    let local = named(&graph, "local-pkg")
        .expect("local-pkg entry");
    assert_eq!(
        local.dependencies.get("string-width-cjs").unwrap(),
        "4.2.3",
        "transitive alias on a local package gets rewritten too"
    );
    let alias = graph
        .packages
        .get("string-width-cjs@4.2.3")
        .expect("synthesized alias entry from local package's transitive");
    assert_eq!(alias.name, "string-width-cjs");
    assert_eq!(alias.alias_of.as_deref(), Some("string-width"));
}

#[test]
fn pnpm_test_parse_dep_path_simple() {
    let (name, version) = parse_dep_path("lodash@4.17.21").unwrap();
    assert_eq!(name, "lodash");
    assert_eq!(version, "4.17.21");
}

#[test]
fn pnpm_test_parse_dep_path_scoped() {
    let (name, version) = parse_dep_path("@babel/core@7.24.0").unwrap();
    assert_eq!(name, "@babel/core");
    assert_eq!(version, "7.24.0");
}

#[test]
fn pnpm_test_parse_dep_path_scoped_nested() {
    let (name, version) = parse_dep_path("@types/node@20.11.0").unwrap();
    assert_eq!(name, "@types/node");
    assert_eq!(version, "20.11.0");
}

#[test]
fn pnpm_test_parse_dep_path_with_leading_slash() {
    let (name, version) = parse_dep_path("/lodash@4.17.21").unwrap();
    assert_eq!(name, "lodash");
    assert_eq!(version, "4.17.21");
}

#[test]
fn pnpm_test_parse_dep_path_with_peer_suffix() {
    let (name, version) = parse_dep_path("foo@1.0.0(react@18.0.0)").unwrap();
    assert_eq!(name, "foo");
    assert_eq!(version, "1.0.0");
}

#[test]
fn pnpm_test_parse_dep_path_with_multiple_peer_suffixes() {
    let (name, version) = parse_dep_path("foo@2.0.0(react@18.0.0)(react-dom@18.0.0)").unwrap();
    assert_eq!(name, "foo");
    assert_eq!(version, "2.0.0");
}

#[test]
fn pnpm_test_parse_dep_path_prerelease() {
    let (name, version) = parse_dep_path("foo@1.0.0-beta.1").unwrap();
    assert_eq!(name, "foo");
    assert_eq!(version, "1.0.0-beta.1");
}

#[test]
fn pnpm_test_parse_dep_path_no_at() {
    assert!(parse_dep_path("invalid").is_none());
}

#[test]
fn pnpm_test_version_to_dep_path() {
    assert_eq!(version_to_dep_path("foo", "1.0.0"), "foo@1.0.0");
    assert_eq!(
        version_to_dep_path("@scope/pkg", "2.0.0"),
        "@scope/pkg@2.0.0"
    );
}

#[test]
fn pnpm_parse_normalizes_empty_root_importer_key() {
    let mut dir = Files::new();
    let lockfile_path = "pnpm-lock.yaml";
    dir.put(lockfile_path, r#"
lockfileVersion: '9.0'

importers:
  '':
    dependencies:
      host:
        specifier: 1.0.0
        version: 1.0.0

packages:
  host@1.0.0:
    resolution: {integrity: sha512-host}

snapshots:
  host@1.0.0: {}
"#);

    let graph = dir.parse(lockfile_path).unwrap();
    let root = graph
        .importers
        .get(".")
        .expect("empty-string importer should normalize to `.`");
    assert_eq!(root.len(), 1);
    assert_eq!(root[0].name, "host");
    assert!(!graph.importers.contains_key(""));
}

#[test]
fn pnpm_parse_handles_both_empty_and_dot_root_importer_keys() {
    let mut dir = Files::new();
    let lockfile_path = "pnpm-lock.yaml";
    dir.put(lockfile_path, r#"
lockfileVersion: '9.0'

importers:
  '':
    dependencies:
      from-empty:
        specifier: 1.0.0
        version: 1.0.0
  '.':
    dependencies:
      from-dot:
        specifier: 1.0.0
        version: 1.0.0

packages:
  from-empty@1.0.0:
    resolution: {integrity: sha512-empty}
  from-dot@1.0.0:
    resolution: {integrity: sha512-dot}

snapshots:
  from-empty@1.0.0: {}
  from-dot@1.0.0: {}
"#);

    let graph = dir.parse(lockfile_path).unwrap();
    let root = graph.importers.get(".").expect("`.` importer present");
    let names: Vec<&str> = root.iter().map(|d| d.name.as_str()).collect();
    assert_eq!(names, vec!["from-empty"]);
    assert!(!graph.importers.contains_key(""));
}

#[test]
fn pnpm_parse_snapshot_optional_dependencies_as_edges() {
    let mut dir = Files::new();
    let lockfile_path = "pnpm-lock.yaml";
    dir.put(lockfile_path, r#"
lockfileVersion: '9.0'

importers:
  .:
    dependencies:
      host:
        specifier: 1.0.0
        version: 1.0.0

packages:
  host@1.0.0:
    resolution: {integrity: sha512-host}

  native@1.0.0:
    resolution: {integrity: sha512-native}
    cpu: [arm64]
    os: [darwin]

snapshots:
  host@1.0.0:
    optionalDependencies:
      native: 1.0.0

  native@1.0.0: {}
"#);

    let graph = dir.parse(lockfile_path).unwrap();
    let host = graph.packages.get("host@1.0.0").unwrap();
    assert_eq!(host.dependencies.get("native").unwrap(), "1.0.0");
    assert_eq!(host.optional_dependencies.get("native").unwrap(), "1.0.0");
}

#[test]
fn pnpm_parse_package_platform_fields_accept_scalar_strings() {
    let mut dir = Files::new();
    let lockfile_path = "pnpm-lock.yaml";
    dir.put(lockfile_path, r#"
lockfileVersion: '9.0'

importers:
  .:
    dependencies:
      sass-embedded-linux-arm64:
        specifier: 1.99.0
        version: 1.99.0

packages:
  sass-embedded-linux-arm64@1.99.0:
    resolution: {integrity: sha512-native}
    engines: {node: '>=14.0.0'}
    cpu: arm64
    os: linux
    libc: glibc

snapshots:
  sass-embedded-linux-arm64@1.99.0: {}
"#);

    let graph = dir.parse(lockfile_path).unwrap();
    let pkg = graph
        .packages
        .get("sass-embedded-linux-arm64@1.99.0")
        .unwrap();
    assert_eq!(pkg.os.as_slice(), &["linux".to_string()]);
    assert_eq!(pkg.cpu.as_slice(), &["arm64".to_string()]);
    assert_eq!(pkg.libc.as_slice(), &["glibc".to_string()]);
}

#[test]
fn pnpm_parse_local_snapshot_optional_dependencies_as_edges() {
    let mut dir = Files::new();
    let lockfile_path = "pnpm-lock.yaml";
    dir.put(lockfile_path, r#"
lockfileVersion: '9.0'

importers:
  .:
    dependencies:
      local-host:
        specifier: file:./local-host
        version: file:./local-host

packages:
  local-host@file:./local-host:
    resolution: {directory: ./local-host, type: directory}

  native@1.0.0:
    resolution: {integrity: sha512-native}
    cpu: [arm64]
    os: [darwin]

snapshots:
  local-host@file:./local-host:
    optionalDependencies:
      native: 1.0.0

  native@1.0.0: {}
"#);

    let graph = dir.parse(lockfile_path).unwrap();
    let local = named(&graph, "local-host")
        .unwrap();
    assert_eq!(local.dependencies.get("native").unwrap(), "1.0.0");
    assert_eq!(local.optional_dependencies.get("native").unwrap(), "1.0.0");
}

#[test]
fn pnpm_parse_transitive_url_entry_uses_pnpm_version_field() {
    let mut dir = Files::new();
    let lockfile_path = "pnpm-lock.yaml";
    dir.put(lockfile_path, r#"
lockfileVersion: '9.0'

importers:
  .:
    dependencies:
      xml2json:
        specifier: ^0.12.0
        version: 0.12.0

packages:
  xml2json@0.12.0:
    resolution: {integrity: sha512-xxx}

  node-expat@https://codeload.github.com/PruvoNet/node-expat/tar.gz/0732e16b0b679da2d12e062f78b3a511f419bb65:
    resolution: {tarball: https://codeload.github.com/PruvoNet/node-expat/tar.gz/0732e16b0b679da2d12e062f78b3a511f419bb65}
    version: 2.4.1

snapshots:
  xml2json@0.12.0:
    dependencies:
      node-expat: https://codeload.github.com/PruvoNet/node-expat/tar.gz/0732e16b0b679da2d12e062f78b3a511f419bb65

  node-expat@https://codeload.github.com/PruvoNet/node-expat/tar.gz/0732e16b0b679da2d12e062f78b3a511f419bb65: {}
"#);

    let graph = dir.parse(lockfile_path).unwrap();
    let url = "https://codeload.github.com/PruvoNet/node-expat/tar.gz/0732e16b0b679da2d12e062f78b3a511f419bb65";
    let pkg = graph
        .packages
        .get(&format!("node-expat@{url}"))
        .expect("transitive remote-tarball entry present");
    assert_eq!(pkg.name, "node-expat");
    assert_eq!(pkg.version, "2.4.1");
    assert_eq!(pkg.tarball_url.as_deref(), Some(url));
}

#[test]
fn pnpm_url_dep_path_round_trips_with_pnpm_version_field() {
    let mut dir = Files::new();
    let lockfile_path = "pnpm-lock.yaml";
    let src = r#"lockfileVersion: '9.0'

settings:
  autoInstallPeers: true
  excludeLinksFromLockfile: false

importers:

  .:
    dependencies:
      xml2json:
        specifier: ^0.12.0
        version: 0.12.0

packages:

  node-expat@https://codeload.github.com/PruvoNet/node-expat/tar.gz/0732e16b0b679da2d12e062f78b3a511f419bb65:
    resolution: {tarball: https://codeload.github.com/PruvoNet/node-expat/tar.gz/0732e16b0b679da2d12e062f78b3a511f419bb65}
    version: 2.4.1

  xml2json@0.12.0:
    resolution: {integrity: sha512-xxx}

snapshots:

  node-expat@https://codeload.github.com/PruvoNet/node-expat/tar.gz/0732e16b0b679da2d12e062f78b3a511f419bb65: {}

  xml2json@0.12.0:
    dependencies:
      node-expat: https://codeload.github.com/PruvoNet/node-expat/tar.gz/0732e16b0b679da2d12e062f78b3a511f419bb65
"#;
    dir.put(lockfile_path, src);
    let graph = dir.parse(lockfile_path).unwrap();

    let manifest = PackageJson {
        name: Some("root".to_string()),
        version: Some("0.0.0".to_string()),
        dependencies: string_map(&[("xml2json", "^0.12.0")]),
        ..PackageJson::default()
    };
    let out_path = "round-trip.yaml";
    dir.write(out_path, &graph, &manifest);
    let written = dir.text(out_path);
    assert!(
        written.contains("node-expat@https://codeload.github.com/PruvoNet/node-expat/tar.gz/0732e16b0b679da2d12e062f78b3a511f419bb65:"),
        "URL canonical key missing from output: {written}"
    );
    assert!(
        written.contains("    version: 2.4.1"),
        "`version:` field missing from output: {written}"
    );
    assert!(
        written.contains("resolution: {tarball: https://codeload.github.com/PruvoNet/node-expat/tar.gz/0732e16b0b679da2d12e062f78b3a511f419bb65}"),
        "`resolution: {{tarball: …}}` missing from output: {written}"
    );
    let reparsed = dir.parse(out_path).unwrap();
    let url = "https://codeload.github.com/PruvoNet/node-expat/tar.gz/0732e16b0b679da2d12e062f78b3a511f419bb65";
    let pkg = reparsed
        .packages
        .get(&format!("node-expat@{url}"))
        .expect("URL-keyed entry survives round-trip");
    assert_eq!(pkg.version, "2.4.1");
    assert_eq!(pkg.tarball_url.as_deref(), Some(url));
}

#[test]
fn pnpm_direct_url_importer_strips_peer_suffix_from_fetch_url() {
    let mut dir = Files::new();
    let lockfile_path = "pnpm-lock.yaml";
    dir.put(lockfile_path, r#"
lockfileVersion: '9.0'

importers:
  .:
    dependencies:
      dep-a:
        specifier: github:owner/dep-a#abcdef1234567890abcdef1234567890abcdef12
        version: https://codeload.github.com/owner/dep-a/tar.gz/abcdef1234567890abcdef1234567890abcdef12(encoding@0.1.13)

packages:
  dep-a@https://codeload.github.com/owner/dep-a/tar.gz/abcdef1234567890abcdef1234567890abcdef12:
    resolution: {tarball: https://codeload.github.com/owner/dep-a/tar.gz/abcdef1234567890abcdef1234567890abcdef12}
    version: 1.0.0

  encoding@0.1.13:
    resolution: {integrity: sha512-enc}

snapshots:
  dep-a@https://codeload.github.com/owner/dep-a/tar.gz/abcdef1234567890abcdef1234567890abcdef12(encoding@0.1.13):
    dependencies:
      encoding: 0.1.13

  encoding@0.1.13: {}
"#);

    let graph = dir.parse(lockfile_path).unwrap();
    let clean_url = "https://codeload.github.com/owner/dep-a/tar.gz/abcdef1234567890abcdef1234567890abcdef12";

    let dep_a = named(&graph, "dep-a")
        .expect("dep-a present after parse");
    match dep_a.local_source.as_ref() {
        Some(LocalSource::RemoteTarball(t)) => {
            assert_eq!(
                t.url, clean_url,
                "peer suffix leaked into RemoteTarballSource.url — fetch would 404"
            );
        }
        other => panic!("expected RemoteTarball, got {other:?}"),
    }
    let dep_a_entries = all_named(&graph, "dep-a");
    assert_eq!(
        dep_a_entries.len(),
        1,
        "exactly one dep-a entry expected (suffix'd snapshot should fold into the local)"
    );
    assert_eq!(
        dep_a.dependencies.get("encoding"),
        Some(&"0.1.13".to_string())
    );
}

#[test]
fn pnpm_test_write_and_reparse_roundtrip() {
    let mut dir = Files::new();
    let lockfile_path = "pnpm-lock.yaml";

    let mut packages = StrMap::new();
    let mut foo_deps = StrMap::new();
    foo_deps.insert("bar".to_string(), "2.0.0".to_string());
    packages.insert(
        "foo@1.0.0".to_string(),
        LockedPackage {
            name: "foo".to_string(),
            version: "1.0.0".to_string(),
            integrity: Some("sha512-abc123==".to_string()),
            dependencies: foo_deps,
            dep_path: "foo@1.0.0".to_string(),
            ..Default::default()
        },
    );
    packages.insert(
        "bar@2.0.0".to_string(),
        LockedPackage {
            name: "bar".to_string(),
            version: "2.0.0".to_string(),
            integrity: Some("sha512-def456==".to_string()),
            dependencies: StrMap::new(),
            dep_path: "bar@2.0.0".to_string(),
            ..Default::default()
        },
    );

    let mut importers = StrMap::new();
    importers.insert(
        ".".to_string(),
        vec![DirectDep {
            name: "foo".to_string(),
            dep_path: "foo@1.0.0".to_string(),
            dep_type: DepType::Production,
            specifier: Some("^1.0.0".to_string()),
        }],
    );

    let graph = LockfileGraph {
        importers,
        packages,
        ..Default::default()
    };

    let mut deps = StrMap::new();
    deps.insert("foo".to_string(), "^1.0.0".to_string());
    let manifest = PackageJson {
        name: Some("test".to_string()),
        version: Some("0.0.0".to_string()),
        dependencies: deps,
        dev_dependencies: StrMap::new(),
        peer_dependencies: StrMap::new(),
        optional_dependencies: StrMap::new(),
        update_config: None,
        scripts: StrMap::new(),
        engines: StrMap::new(),
        workspaces: None,
        bundled_dependencies: None,
        extra: StrMap::new(),
    };

    dir.write(lockfile_path, &graph, &manifest);

    let reparsed = dir.parse(lockfile_path).unwrap();
    assert_eq!(reparsed.packages.len(), 2);
    assert_eq!(
        reparsed.packages.get("foo@1.0.0").unwrap().integrity,
        Some("sha512-abc123==".to_string())
    );
    assert_eq!(
        reparsed
            .packages
            .get("foo@1.0.0")
            .unwrap()
            .dependencies
            .get("bar")
            .unwrap(),
        "2.0.0"
    );

    let root_deps = reparsed.importers.get(".").unwrap();
    assert_eq!(root_deps.len(), 1);
    assert_eq!(root_deps[0].name, "foo");
    assert_eq!(root_deps[0].dep_type, DepType::Production);
}

#[test]
fn pnpm_writer_preserves_workspace_importer_specifiers() {
    let mut dir = Files::new();
    let lockfile_path = "pnpm-lock.yaml";

    let mut packages = StrMap::new();
    packages.insert(
        "@dev/build-tools@1.0.0".to_string(),
        LockedPackage {
            name: "@dev/build-tools".to_string(),
            version: "1.0.0".to_string(),
            dep_path: "@dev/build-tools@1.0.0".to_string(),
            ..Default::default()
        },
    );

    let mut importers = StrMap::new();
    importers.insert(
        ".".to_string(),
        vec![DirectDep {
            name: "@dev/build-tools".to_string(),
            dep_path: "@dev/build-tools@1.0.0".to_string(),
            dep_type: DepType::Dev,
            specifier: Some("^1.0.0".to_string()),
        }],
    );
    importers.insert(
        "packages/public/umd/babylonjs".to_string(),
        vec![DirectDep {
            name: "@dev/build-tools".to_string(),
            dep_path: "@dev/build-tools@1.0.0".to_string(),
            dep_type: DepType::Dev,
            specifier: Some("1.0.0".to_string()),
        }],
    );

    let graph = LockfileGraph {
        importers,
        packages,
        ..Default::default()
    };

    let mut root_dev_dependencies = StrMap::new();
    root_dev_dependencies.insert("@dev/build-tools".to_string(), "^1.0.0".to_string());
    let manifest = PackageJson {
        name: Some("root".to_string()),
        version: Some("0.0.0".to_string()),
        dependencies: StrMap::new(),
        dev_dependencies: root_dev_dependencies,
        peer_dependencies: StrMap::new(),
        optional_dependencies: StrMap::new(),
        update_config: None,
        scripts: StrMap::new(),
        engines: StrMap::new(),
        workspaces: None,
        bundled_dependencies: None,
        extra: StrMap::new(),
    };

    dir.write(lockfile_path, &graph, &manifest);

    let reparsed = dir.parse(lockfile_path).unwrap();
    let workspace_deps = reparsed
        .importers
        .get("packages/public/umd/babylonjs")
        .unwrap();
    assert_eq!(workspace_deps[0].specifier.as_deref(), Some("1.0.0"));
}

#[test]
fn pnpm_overrides_round_trip_through_pnpm_lock_yaml() {
    let mut dir = Files::new();
    let lockfile_path = "pnpm-lock.yaml";

    let mut overrides = StrMap::new();
    overrides.insert("lodash".to_string(), "4.17.21".to_string());
    overrides.insert("foo".to_string(), "npm:bar@^2".to_string());

    let graph = LockfileGraph {
        importers: StrMap::new(),
        packages: StrMap::new(),
        overrides,
        ..Default::default()
    };

    let manifest = PackageJson {
        name: Some("test".to_string()),
        version: Some("0.0.0".to_string()),
        dependencies: StrMap::new(),
        dev_dependencies: StrMap::new(),
        peer_dependencies: StrMap::new(),
        optional_dependencies: StrMap::new(),
        update_config: None,
        scripts: StrMap::new(),
        engines: StrMap::new(),
        workspaces: None,
        bundled_dependencies: None,
        extra: StrMap::new(),
    };

    dir.write(lockfile_path, &graph, &manifest);

    let yaml = dir.text(lockfile_path);
    assert!(
        yaml.contains("overrides:"),
        "expected `overrides:` block in:\n{yaml}"
    );

    let reparsed = dir.parse(lockfile_path).unwrap();
    assert_eq!(reparsed.overrides.len(), 2);
    assert_eq!(reparsed.overrides.get("lodash").unwrap(), "4.17.21");
    assert_eq!(reparsed.overrides.get("foo").unwrap(), "npm:bar@^2");
}

#[test]
fn pnpm_patched_dependencies_emitted_after_overrides_before_catalogs() {
    let mut dir = Files::new();
    let lockfile_path = "pnpm-lock.yaml";

    let mut overrides = StrMap::new();
    overrides.insert("lodash".to_string(), "4.17.21".to_string());
    let mut patched_dependencies = StrMap::new();
    patched_dependencies.insert(
        "lodash@4.17.21".to_string(),
        "patches/lodash@4.17.21.patch".to_string(),
    );
    let mut default_catalog = StrMap::new();
    default_catalog.insert(
        "react".to_string(),
        CatalogEntry {
            specifier: "^18.2.0".to_string(),
            version: "18.2.0".to_string(),
        },
    );
    let mut catalogs = StrMap::new();
    catalogs.insert("default".to_string(), default_catalog);

    let graph = LockfileGraph {
        overrides,
        patched_dependencies,
        catalogs,
        ..Default::default()
    };

    let manifest = PackageJson {
        name: Some("test".to_string()),
        ..Default::default()
    };

    dir.write(lockfile_path, &graph, &manifest);
    let yaml = dir.text(lockfile_path);

    let overrides_at = yaml.find("overrides:").expect("overrides:");
    let patched_at = yaml
        .find("patchedDependencies:")
        .expect("patchedDependencies:");
    let catalogs_at = yaml.find("catalogs:").expect("catalogs:");
    assert!(
        overrides_at < patched_at && patched_at < catalogs_at,
        "expected order: overrides < patchedDependencies < catalogs, got\n{yaml}"
    );
}

#[test]
fn pnpm_empty_overrides_block_omitted_from_yaml() {
    let mut dir = Files::new();
    let lockfile_path = "pnpm-lock.yaml";
    let graph = LockfileGraph::default();
    let manifest = PackageJson {
        name: Some("test".to_string()),
        version: Some("0.0.0".to_string()),
        dependencies: StrMap::new(),
        dev_dependencies: StrMap::new(),
        peer_dependencies: StrMap::new(),
        optional_dependencies: StrMap::new(),
        update_config: None,
        scripts: StrMap::new(),
        engines: StrMap::new(),
        workspaces: None,
        bundled_dependencies: None,
        extra: StrMap::new(),
    };
    dir.write(lockfile_path, &graph, &manifest);
    let yaml = dir.text(lockfile_path);
    assert!(
        !yaml.contains("overrides:"),
        "unexpected overrides block:\n{yaml}"
    );
}

#[test]
fn pnpm_test_write_dev_and_optional_deps() {
    let mut dir = Files::new();
    let lockfile_path = "pnpm-lock.yaml";

    let mut packages = StrMap::new();
    for (name, ver) in [("foo", "1.0.0"), ("bar", "2.0.0"), ("baz", "3.0.0")] {
        packages.insert(
            format!("{name}@{ver}"),
            LockedPackage {
                name: name.to_string(),
                version: ver.to_string(),
                integrity: None,
                dependencies: StrMap::new(),
                dep_path: format!("{name}@{ver}"),
                ..Default::default()
            },
        );
    }

    let mut importers = StrMap::new();
    importers.insert(
        ".".to_string(),
        vec![
            DirectDep {
                name: "foo".to_string(),
                dep_path: "foo@1.0.0".to_string(),
                dep_type: DepType::Production,
                specifier: Some("^1.0.0".to_string()),
            },
            DirectDep {
                name: "bar".to_string(),
                dep_path: "bar@2.0.0".to_string(),
                dep_type: DepType::Dev,
                specifier: Some("^2.0.0".to_string()),
            },
            DirectDep {
                name: "baz".to_string(),
                dep_path: "baz@3.0.0".to_string(),
                dep_type: DepType::Optional,
                specifier: Some("^3.0.0".to_string()),
            },
        ],
    );

    let graph = LockfileGraph {
        importers,
        packages,
        ..Default::default()
    };

    let mut deps = StrMap::new();
    deps.insert("foo".to_string(), "^1.0.0".to_string());
    let mut dev_deps = StrMap::new();
    dev_deps.insert("bar".to_string(), "^2.0.0".to_string());
    let mut opt_deps = StrMap::new();
    opt_deps.insert("baz".to_string(), "^3.0.0".to_string());

    let manifest = PackageJson {
        name: Some("test".to_string()),
        version: Some("0.0.0".to_string()),
        dependencies: deps,
        dev_dependencies: dev_deps,
        peer_dependencies: StrMap::new(),
        optional_dependencies: opt_deps,
        update_config: None,
        scripts: StrMap::new(),
        engines: StrMap::new(),
        workspaces: None,
        bundled_dependencies: None,
        extra: StrMap::new(),
    };

    dir.write(lockfile_path, &graph, &manifest);

    let reparsed = dir.parse(lockfile_path).unwrap();
    let root_deps = reparsed.importers.get(".").unwrap();
    assert_eq!(root_deps.len(), 3);

    let bar = root_deps.iter().find(|d| d.name == "bar").unwrap();
    assert_eq!(bar.dep_type, DepType::Dev);

    let baz = root_deps.iter().find(|d| d.name == "baz").unwrap();
    assert_eq!(baz.dep_type, DepType::Optional);
}

#[test]
fn pnpm_test_catalogs_roundtrip() {
    let mut dir = Files::new();
    let lockfile_path = "pnpm-lock.yaml";

    let mut default_cat = StrMap::new();
    default_cat.insert(
        "react".to_string(),
        CatalogEntry {
            specifier: "^18.0.0".to_string(),
            version: "18.2.0".to_string(),
        },
    );
    let mut catalogs = StrMap::new();
    catalogs.insert("default".to_string(), default_cat);

    let graph = LockfileGraph {
        catalogs,
        ..Default::default()
    };
    let manifest = PackageJson {
        name: Some("test".to_string()),
        version: Some("0.0.0".to_string()),
        ..Default::default()
    };
    dir.write(lockfile_path, &graph, &manifest);

    let yaml = dir.text(lockfile_path);
    assert!(
        yaml.contains("catalogs:"),
        "missing catalogs section: {yaml}"
    );
    assert!(yaml.contains("react"), "missing entry: {yaml}");

    let reparsed = dir.parse(lockfile_path).unwrap();
    let entry = reparsed
        .catalogs
        .get("default")
        .and_then(|c| c.get("react"))
        .expect("react catalog entry");
    assert_eq!(entry.specifier, "^18.0.0");
    assert_eq!(entry.version, "18.2.0");
}

#[test]
fn pnpm_ignored_optional_dependencies_section_matches_pnpm_order() {
    let mut dir = Files::new();
    let lockfile_path = "pnpm-lock.yaml";

    let mut ignored_optional_dependencies = StrSet::new();
    ignored_optional_dependencies.insert("fsevents".to_string());

    let mut default_cat = StrMap::new();
    default_cat.insert(
        "react".to_string(),
        CatalogEntry {
            specifier: "^18.0.0".to_string(),
            version: "18.2.0".to_string(),
        },
    );
    let mut catalogs = StrMap::new();
    catalogs.insert("default".to_string(), default_cat);

    let graph = LockfileGraph {
        ignored_optional_dependencies,
        catalogs,
        ..Default::default()
    };
    let manifest = PackageJson {
        name: Some("test".to_string()),
        version: Some("0.0.0".to_string()),
        ..Default::default()
    };
    dir.write(lockfile_path, &graph, &manifest);

    let yaml = dir.text(lockfile_path);
    let catalogs = yaml.find("\ncatalogs:").expect("missing catalogs");
    let importers = yaml.find("\nimporters:").expect("missing importers");
    let packages = yaml.find("\npackages:").expect("missing packages");
    let ignored = yaml
        .find("\nignoredOptionalDependencies:")
        .expect("missing ignoredOptionalDependencies");
    let snapshots = yaml.find("\nsnapshots:").expect("missing snapshots");

    assert!(
        catalogs < importers
            && importers < packages
            && packages < ignored
            && ignored < snapshots,
        "unexpected pnpm section order:\n{yaml}"
    );
}

#[test]
fn pnpm_exclude_links_from_lockfile_drops_link_deps_from_importer() {

    let mut dir = Files::new();
    let lockfile_path = "pnpm-lock.yaml";

    let mut packages = StrMap::new();
    packages.insert(
        "foo@1.0.0".to_string(),
        LockedPackage {
            name: "foo".to_string(),
            version: "1.0.0".to_string(),
            integrity: Some("sha512-abc==".to_string()),
            dep_path: "foo@1.0.0".to_string(),
            ..Default::default()
        },
    );
    packages.insert(
        "sibling@link:../sibling".to_string(),
        LockedPackage {
            name: "sibling".to_string(),
            version: "0.0.0".to_string(),
            dep_path: "sibling@link:../sibling".to_string(),
            local_source: Some(LocalSource::Link("../sibling".to_string())),
            ..Default::default()
        },
    );

    let mut importers = StrMap::new();
    importers.insert(
        ".".to_string(),
        vec![
            DirectDep {
                name: "foo".to_string(),
                dep_path: "foo@1.0.0".to_string(),
                dep_type: DepType::Production,
                specifier: Some("^1.0.0".to_string()),
            },
            DirectDep {
                name: "sibling".to_string(),
                dep_path: "sibling@link:../sibling".to_string(),
                dep_type: DepType::Production,
                specifier: Some("link:../sibling".to_string()),
            },
        ],
    );

    let graph = LockfileGraph {
        importers,
        packages,
        settings: LockfileSettings {
            auto_install_peers: true,
            exclude_links_from_lockfile: true,
            lockfile_include_tarball_url: false,
        },
        ..Default::default()
    };

    let mut deps = StrMap::new();
    deps.insert("foo".to_string(), "^1.0.0".to_string());
    deps.insert("sibling".to_string(), "link:../sibling".to_string());
    let manifest = PackageJson {
        name: Some("root".to_string()),
        version: Some("0.0.0".to_string()),
        dependencies: deps,
        dev_dependencies: StrMap::new(),
        peer_dependencies: StrMap::new(),
        optional_dependencies: StrMap::new(),
        update_config: None,
        scripts: StrMap::new(),
        engines: StrMap::new(),
        workspaces: None,
        bundled_dependencies: None,
        extra: StrMap::new(),
    };

    dir.write(lockfile_path, &graph, &manifest);

    let yaml = dir.text(lockfile_path);
    assert!(
        yaml.contains("excludeLinksFromLockfile: true"),
        "settings header must record the flag: {yaml}"
    );
    assert!(
        !yaml.contains("sibling:"),
        "sibling link dep should be filtered out of importers: {yaml}"
    );
    assert!(
        yaml.contains("foo:"),
        "registry dep foo must still appear: {yaml}"
    );

    let graph_off = LockfileGraph {
        settings: LockfileSettings::default(),
        ..graph
    };
    dir.write(lockfile_path, &graph_off, &manifest);
    let yaml_off = dir.text(lockfile_path);
    assert!(
        yaml_off.contains("sibling:"),
        "with flag off, sibling must reappear: {yaml_off}"
    );
}

#[test]
fn pnpm_test_parse_invalid_yaml() {
    let mut dir = Files::new();
    let path = "pnpm-lock.yaml";
    dir.put(path, "{{{{not yaml");
    assert!(dir.parse(path).is_err());
}

#[test]
fn pnpm_parse_multi_document_lockfile_picks_project_doc() {
    let yaml = r#"---
lockfileVersion: '9.0'

importers:

  .:
    packageManagerDependencies:
      pnpm:
        specifier: 11.0.0-rc.1
        version: 11.0.0-rc.1

packages:

  'pnpm@11.0.0-rc.1':
    resolution: {integrity: sha512-aaa}

snapshots:

  'pnpm@11.0.0-rc.1': {}

---
lockfileVersion: '9.0'

settings:
  autoInstallPeers: true

importers:

  .:
    dependencies:
      lodash:
        specifier: ^4.17.0
        version: 4.17.21

packages:

  'lodash@4.17.21':
    resolution: {integrity: sha512-bbb}

snapshots:

  'lodash@4.17.21': {}
"#;
    let mut dir = Files::new();
    let path = "pnpm-lock.yaml";
    dir.put(path, yaml);
    let graph = dir.parse(path).expect("multi-doc lockfile should parse");
    let root = graph.importers.get(".").expect("root importer");
    let names: Vec<_> = root.iter().map(|d| d.name.as_str()).collect();
    assert!(
        names.contains(&"lodash"),
        "expected lodash from project doc, got {names:?}"
    );
    assert!(
        !names.contains(&"pnpm"),
        "bootstrap doc's packageManagerDependencies should not leak in, got {names:?}"
    );
}

#[test]
fn pnpm_snapshot_optional_and_transitive_peer_deps_roundtrip() {
    let yaml = r#"lockfileVersion: '9.0'
settings:
  autoInstallPeers: true
importers:
  .:
    dependencies:
      '@reflink/reflink':
        specifier: ^0.1.19
        version: 0.1.19
      '@babel/generator':
        specifier: ^7.29.1
        version: 7.29.1
packages:
  '@reflink/reflink-darwin-arm64@0.1.19':
    resolution: {integrity: sha512-darwin}
    cpu: [arm64]
    os: [darwin]
  '@reflink/reflink@0.1.19':
    resolution: {integrity: sha512-reflink}
  '@babel/generator@7.29.1':
    resolution: {integrity: sha512-gen}
  '@babel/parser@7.29.2':
    resolution: {integrity: sha512-parser}
snapshots:
  '@reflink/reflink-darwin-arm64@0.1.19':
    optional: true
  '@reflink/reflink@0.1.19':
    optionalDependencies:
      '@reflink/reflink-darwin-arm64': 0.1.19
  '@babel/generator@7.29.1':
    dependencies:
      '@babel/parser': 7.29.2
    transitivePeerDependencies:
      - supports-color
  '@babel/parser@7.29.2': {}
"#;
    let mut dir = Files::new();
    let path = "pnpm-lock.yaml";
    dir.put(path, yaml);

    let graph = dir.parse(path).unwrap();
    let darwin = graph
        .packages
        .get("@reflink/reflink-darwin-arm64@0.1.19")
        .expect("darwin snapshot present");
    assert!(darwin.optional, "optional: true must round-trip");

    let generator = graph
        .packages
        .get("@babel/generator@7.29.1")
        .expect("generator snapshot present");
    assert_eq!(
        generator.transitive_peer_dependencies,
        vec!["supports-color".to_string()],
    );

    let parser_pkg = graph.packages.get("@babel/parser@7.29.2").unwrap();
    assert!(!parser_pkg.optional);
    assert!(parser_pkg.transitive_peer_dependencies.is_empty());

    let manifest = PackageJson {
        name: Some("rt".to_string()),
        version: Some("0.0.0".to_string()),
        dependencies: string_map(&[
            ("@reflink/reflink", "^0.1.19"),
            ("@babel/generator", "^7.29.1"),
        ]),
        ..Default::default()
    };
    let out_path = "out.yaml";
    dir.write(out_path, &graph, &manifest);
    let written = dir.text(out_path);

    assert!(
        written.contains("optional: true"),
        "writer must emit optional: true; got:\n{written}"
    );
    assert!(
        written.contains("transitivePeerDependencies:"),
        "writer must emit transitivePeerDependencies; got:\n{written}"
    );
    assert!(
        written.contains("- supports-color"),
        "writer must list bubbled peers; got:\n{written}"
    );

    let deps_line = "\n    dependencies:\n";
    let tpd_line = "\n    transitivePeerDependencies:\n";
    let deps_at = written.find(deps_line).expect("dependencies line emitted");
    let tpd_at = written
        .find(tpd_line)
        .expect("transitivePeerDependencies line emitted");
    assert!(
        deps_at < tpd_at,
        "dependencies must precede transitivePeerDependencies; got:\n{written}"
    );

    let reparsed = dir.parse(out_path).unwrap();
    assert!(
        reparsed
            .packages
            .get("@reflink/reflink-darwin-arm64@0.1.19")
            .unwrap()
            .optional
    );
    assert_eq!(
        reparsed
            .packages
            .get("@babel/generator@7.29.1")
            .unwrap()
            .transitive_peer_dependencies,
        vec!["supports-color".to_string()]
    );
}

#[test]
fn pnpm_adversarial_native_pnpm_features_roundtrip_together() {
    let yaml = r#"lockfileVersion: '9.0'

settings:
  autoInstallPeers: false
  excludeLinksFromLockfile: false
  lockfileIncludeTarballUrl: true

overrides:
  is-number: 6.0.0
  react: 'catalog:'

patchedDependencies:
  is-odd@3.0.1:
    path: patches/is-odd@3.0.1.patch
    hash: sha256-deadbeef

catalogs:
  default:
    react:
      specifier: ^18.2.0
      version: 18.2.0
  evens:
    is-even:
      specifier: ^1.0.0
      version: 1.0.0

importers:

  .:
    dependencies:
      odd-alias:
        specifier: npm:is-odd@3.0.1
        version: is-odd@3.0.1
      react:
        specifier: 'catalog:'
        version: 18.2.0
    devDependencies:
      peer-host:
        specifier: 1.0.0
        version: 1.0.0(@types/node@20.11.0)
    optionalDependencies:
      fsevents:
        specifier: ^2.3.3
        version: 2.3.3
    skippedOptionalDependencies:
      optional-native:
        specifier: ^1.0.0
        version: 1.0.0

packages:

  '@types/node@20.11.0':
    resolution: {integrity: sha512-types}

  fsevents@2.3.3:
    resolution: {integrity: sha512-fsevents, tarball: https://registry.npmjs.org/fsevents/-/fsevents-2.3.3.tgz}
    os: [darwin]
    cpu: [x64]

  is-number@6.0.0:
    resolution: {integrity: sha512-number}

  is-odd@3.0.1:
    resolution: {integrity: sha512-odd, tarball: https://registry.npmjs.org/is-odd/-/is-odd-3.0.1.tgz}

  peer-host@1.0.0(@types/node@20.11.0):
    resolution: {integrity: sha512-peer}
    peerDependencies:
      '@types/node': '>=20'
    peerDependenciesMeta:
      '@types/node':
        optional: true

  react@18.2.0:
    resolution: {integrity: sha512-react}

ignoredOptionalDependencies:
  - optional-native

snapshots:

  '@types/node@20.11.0': {}

  fsevents@2.3.3:
    optional: true

  is-number@6.0.0: {}

  is-odd@3.0.1:
    dependencies:
      is-number: 6.0.0
    transitivePeerDependencies:
      - '@types/node'

  peer-host@1.0.0(@types/node@20.11.0): {}

  react@18.2.0: {}
"#;
    let mut dir = Files::new();
    let path = "pnpm-lock.yaml";
    dir.put(path, yaml);

    let graph = dir.parse(path).unwrap();

    assert!(!graph.settings.auto_install_peers);
    assert!(graph.settings.lockfile_include_tarball_url);
    assert_eq!(graph.overrides.get("react").unwrap(), "catalog:");
    assert_eq!(
        graph.patched_dependencies.get("is-odd@3.0.1").unwrap(),
        "patches/is-odd@3.0.1.patch"
    );
    assert_eq!(
        graph.catalogs.get("evens").unwrap().get("is-even").unwrap().specifier, "^1.0.0",
        "named catalogs must survive parse"
    );
    assert!(
        graph
            .ignored_optional_dependencies
            .contains("optional-native")
    );
    assert_eq!(
        graph.skipped_optional_dependencies.get(".").unwrap().get("optional-native").unwrap(),
        "^1.0.0"
    );

    let root = graph.importers.get(".").expect("root importer");
    let alias_dep = root.iter().find(|d| d.name == "odd-alias").unwrap();
    assert_eq!(alias_dep.dep_path, "odd-alias@3.0.1");
    assert_eq!(alias_dep.specifier.as_deref(), Some("npm:is-odd@3.0.1"));
    let peer_dep = root.iter().find(|d| d.name == "peer-host").unwrap();
    assert_eq!(peer_dep.dep_type, DepType::Dev);
    let optional_dep = root.iter().find(|d| d.name == "fsevents").unwrap();
    assert_eq!(optional_dep.dep_type, DepType::Optional);

    let alias_pkg = graph.packages.get("odd-alias@3.0.1").unwrap();
    assert_eq!(alias_pkg.alias_of.as_deref(), Some("is-odd"));
    assert_eq!(
        alias_pkg
            .transitive_peer_dependencies
            .iter()
            .map(String::as_str)
            .collect::<Vec<_>>(),
        vec!["@types/node"]
    );
    let fsevents = graph.packages.get("fsevents@2.3.3").unwrap();
    assert!(fsevents.optional);
    assert_eq!(fsevents.os.as_slice(), ["darwin"]);
    assert_eq!(fsevents.cpu.as_slice(), ["x64"]);
    assert_eq!(
        fsevents.tarball_url.as_deref(),
        Some("https://registry.npmjs.org/fsevents/-/fsevents-2.3.3.tgz")
    );
    let peer_host = graph
        .packages
        .get("peer-host@1.0.0(@types/node@20.11.0)")
        .unwrap();
    assert_eq!(peer_host.peer_dependencies.get("@types/node").unwrap(), ">=20");
    assert!(peer_host.peer_dependencies_meta.get("@types/node").unwrap().optional);

    let manifest = PackageJson {
        name: Some("adversarial-native-pnpm".to_string()),
        version: Some("1.0.0".to_string()),
        dependencies: string_map(&[
            ("odd-alias", "npm:is-odd@3.0.1"),
            ("react", "catalog:"),
        ]),
        dev_dependencies: string_map(&[("peer-host", "1.0.0")]),
        optional_dependencies: string_map(&[("fsevents", "^2.3.3")]),
        ..Default::default()
    };
    let out = "out.yaml";
    dir.write(out, &graph, &manifest);
    let written = dir.text(out);

    for needle in [
        "lockfileIncludeTarballUrl: true",
        "overrides:",
        "patchedDependencies:",
        "catalogs:",
        "skippedOptionalDependencies:",
        "ignoredOptionalDependencies:",
        "aliasOf: is-odd",
        "peerDependencies:",
        "peerDependenciesMeta:",
        "transitivePeerDependencies:",
        "optional: true",
        "tarball: https://registry.npmjs.org/fsevents/-/fsevents-2.3.3.tgz",
    ] {
        assert!(
            written.contains(needle),
            "missing {needle:?} in:\n{written}"
        );
    }

    let overrides_at = written.find("\noverrides:").expect("overrides");
    let patched_at = written
        .find("\npatchedDependencies:")
        .expect("patchedDependencies");
    let catalogs_at = written.find("\ncatalogs:").expect("catalogs");
    let importers_at = written.find("\nimporters:").expect("importers");
    assert!(
        overrides_at < patched_at && patched_at < catalogs_at && catalogs_at < importers_at,
        "pnpm top-level section order drifted:\n{written}"
    );
    let packages_at = written.find("\npackages:").expect("packages");
    let ignored_at = written
        .find("\nignoredOptionalDependencies:")
        .expect("ignored optional");
    let snapshots_at = written.find("\nsnapshots:").expect("snapshots");
    assert!(
        packages_at < ignored_at && ignored_at < snapshots_at,
        "ignoredOptionalDependencies must stay between packages and snapshots:\n{written}"
    );

    let reparsed = dir.parse(out).unwrap();
    assert_eq!(
        reparsed
            .patched_dependencies
            .get("is-odd@3.0.1")
            .unwrap_or_else(|| panic!("patched deps lost after reparse:\n{written}")),
        "patches/is-odd@3.0.1.patch"
    );
    assert_eq!(reparsed.catalogs.get("default").unwrap().get("react").unwrap().version, "18.2.0");
    assert_eq!(
        reparsed
            .packages
            .get("odd-alias@3.0.1")
            .unwrap_or_else(|| panic!("alias package lost after reparse:\n{written}"))
            .alias_of
            .as_deref(),
        Some("is-odd")
    );
    assert!(reparsed.packages.get("fsevents@2.3.3").unwrap().optional);
    assert_eq!(
        reparsed.skipped_optional_dependencies.get(".").unwrap().get("optional-native").unwrap(),
        "^1.0.0"
    );
}

#[test]
fn pnpm_parse_synthesizes_npm_alias_from_pnpm_v9_lockfile() {
    let mut dir = Files::new();
    let path = "pnpm-lock.yaml";
    dir.put(path, r#"
lockfileVersion: '9.0'

importers:
  .:
    dependencies:
      express-fork:
        specifier: npm:express@^4.22.1
        version: express@4.22.1

packages:
  express@4.22.1:
    resolution: {integrity: sha512-fake}
    engines: {node: '>= 0.10.0'}

snapshots:
  express@4.22.1: {}
"#);

    let graph = dir.parse(path).unwrap();

    let root = graph.importers.get(".").expect("root importer");
    assert_eq!(root.len(), 1);
    let dep = &root[0];
    assert_eq!(dep.name, "express-fork", "DirectDep keeps the alias name");
    assert_eq!(
        dep.dep_path, "express-fork@4.22.1",
        "DirectDep dep_path is alias-keyed (not the malformed express-fork@express@4.22.1)"
    );
    assert_eq!(dep.specifier.as_deref(), Some("npm:express@^4.22.1"));

    let pkg = graph
        .packages
        .get("express-fork@4.22.1")
        .expect("synthesized alias-keyed package");
    assert_eq!(pkg.name, "express-fork");
    assert_eq!(pkg.alias_of.as_deref(), Some("express"));
    assert_eq!(pkg.dep_path, "express-fork@4.22.1");
    let real = graph.packages.get("express@4.22.1").expect("real entry");
    assert_eq!(real.name, "express");
    assert!(real.alias_of.is_none());
}

#[test]
fn pnpm_parse_synthesizes_npm_alias_when_real_name_is_scoped() {
    let mut dir = Files::new();
    let path = "pnpm-lock.yaml";
    dir.put(path, r#"
lockfileVersion: '9.0'

importers:
  .:
    dependencies:
      types-alias:
        specifier: npm:@types/node@^20.0.0
        version: '@types/node@20.11.0'

packages:
  '@types/node@20.11.0':
    resolution: {integrity: sha512-fake}

snapshots:
  '@types/node@20.11.0': {}
"#);

    let graph = dir.parse(path).unwrap();

    let root = graph.importers.get(".").expect("root importer");
    assert_eq!(root[0].name, "types-alias");
    assert_eq!(root[0].dep_path, "types-alias@20.11.0");

    let pkg = graph
        .packages
        .get("types-alias@20.11.0")
        .expect("synthesized alias-keyed package");
    assert_eq!(pkg.name, "types-alias");
    assert_eq!(pkg.alias_of.as_deref(), Some("@types/node"));
    let real = graph
        .packages
        .get("@types/node@20.11.0")
        .expect("real entry");
    assert_eq!(real.name, "@types/node");
    assert!(real.alias_of.is_none());
}

fn registry_package(name: &str, version: &str, suffix: &str) -> LockedPackage {
    LockedPackage {
        name: name.to_string(),
        version: version.to_string(),
        integrity: Some(format!("sha512-{name}")),
        dep_path: format!("{name}@{version}{suffix}"),
        ..Default::default()
    }
}

fn local_package(name: &str, source: LocalSource) -> LockedPackage {
    LockedPackage {
        name: name.to_string(),
        version: "0.0.0".to_string(),
        dep_path: source.dep_path(name),
        local_source: Some(source),
        ..Default::default()
    }
}

fn direct(name: &str, dep_path: &str, dep_type: DepType, specifier: &str) -> DirectDep {
    DirectDep {
        name: name.to_string(),
        dep_path: dep_path.to_string(),
        dep_type,
        specifier: Some(specifier.to_string()),
    }
}

fn storable_graph() -> LockfileGraph {
    let sha = "abcdef0123456789abcdef0123456789abcdef01";
    let sources = vec![
        ("a-dir", LocalSource::Directory("./vendor/a".to_string())),
        ("b-tar", LocalSource::Tarball("./vendor/b.tgz".to_string())),
        ("c-link", LocalSource::Link("../c".to_string())),
        (
            "d-git",
            LocalSource::Git(GitSource {
                url: "https://example.com/d.git".to_string(),
                committish: None,
                resolved: sha.to_string(),
                subpath: Some("packages/d".to_string()),
            }),
        ),
        (
            "e-url",
            LocalSource::RemoteTarball(RemoteTarballSource {
                url: "https://example.com/e.tgz".to_string(),
                integrity: "sha512-e".to_string(),
            }),
        ),
    ];
    let mut packages = StrMap::new();
    let mut deps = Vec::new();
    for (name, source) in sources {
        let mut p = local_package(name, source);
        if name == "a-dir" {
            p.dependencies = string_map(&[("host", "1.0.0(peer@2.0.0)"), ("opt", "3.0.0")]);
            p.optional_dependencies = string_map(&[("opt", "3.0.0")]);
        }
        deps.push(direct(name, &p.dep_path, DepType::Production, "local"));
        packages.insert(p.dep_path.clone(), p);
    }
    let mut host = registry_package("host", "1.0.0", "(peer@2.0.0)");
    host.dependencies = string_map(&[("peer", "2.0.0")]);
    host.peer_dependencies = string_map(&[("peer", ">=2")]);
    host.peer_dependencies_meta.insert("peer".to_string(), PeerDepMeta { optional: true });
    host.engines = string_map(&[("node", ">=18")]);
    host.bin = string_map(&[("", "")]);
    host.os = vec!["linux".to_string()];
    host.cpu = vec!["x64".to_string()];
    host.libc = vec!["glibc".to_string()];
    host.bundled_dependencies = vec!["inner".to_string()];
    host.transitive_peer_dependencies = vec!["react".to_string()];
    packages.insert(host.dep_path.clone(), host);
    let peer = registry_package("peer", "2.0.0", "");
    packages.insert(peer.dep_path.clone(), peer);
    let mut opt = registry_package("opt", "3.0.0", "");
    opt.optional = true;
    packages.insert(opt.dep_path.clone(), opt);
    let mut renamed = registry_package("renamed", "4.0.0", "");
    renamed.alias_of = Some("original".to_string());
    packages.insert(renamed.dep_path.clone(), renamed);
    deps.push(direct("host", "host@1.0.0(peer@2.0.0)", DepType::Dev, "^1.0.0"));
    deps.push(direct("renamed", "renamed@4.0.0", DepType::Optional, "npm:original@4"));
    let mut importers = one_importer(".", deps);
    importers.insert(
        "packages/app".to_string(),
        vec![direct("peer", "peer@2.0.0", DepType::Production, "2.0.0")],
    );
    let mut ignored = StrSet::new();
    ignored.insert("fsevents".to_string());
    let mut skipped = StrMap::new();
    skipped.insert(".".to_string(), string_map(&[("native", "^1.0.0")]));
    let mut catalog = StrMap::new();
    catalog.insert(
        "react".to_string(),
        CatalogEntry { specifier: "^18".to_string(), version: "18.2.0".to_string() },
    );
    let mut catalogs = StrMap::new();
    catalogs.insert("default".to_string(), catalog);
    LockfileGraph {
        importers,
        packages,
        settings: LockfileSettings {
            auto_install_peers: false,
            exclude_links_from_lockfile: false,
            lockfile_include_tarball_url: false,
        },
        overrides: string_map(&[("a", "1")]),
        ignored_optional_dependencies: ignored,
        times: string_map(&[("host@1.0.0", "2024-01-01T00:00:00.000Z")]),
        skipped_optional_dependencies: skipped,
        catalogs,
        patched_dependencies: string_map(&[("host@1.0.0", "patches/host.patch")]),
    }
}

#[test]
fn a_graph_reads_back_as_it_was_written() {
    let graph = storable_graph();
    let doc = aube_lockfile::pnpm::write::write("aube-lock.yaml", &graph, &PackageJson::default());
    let back = aube_lockfile::pnpm::parse(&doc).unwrap();
    assert_eq!(back, graph);
    let mut dir = Files::new();
    dir.write("aube-lock.yaml", &graph, &PackageJson::default());
    assert_eq!(dir.parse("aube-lock.yaml").unwrap(), graph);
}

#[test]
fn native_aliases_read_back_beside_their_targets() {
    let mut packages = StrMap::new();
    let mut target = registry_package("original", "4.0.0", "(peer@2.0.0)");
    target.dependencies = string_map(&[("peer", "2.0.0")]);
    let mut host = registry_package("host", "1.0.0", "");
    host.dependencies = string_map(&[("renamed", "4.0.0(peer@2.0.0)")]);
    host.optional_dependencies = host.dependencies.dup();
    for alias in ["renamed", "@scope/again"] {
        let mut p = target.dup();
        p.name = alias.to_string();
        p.dep_path = format!("{alias}@4.0.0(peer@2.0.0)");
        p.alias_of = Some("original".to_string());
        packages.insert(p.dep_path.clone(), p);
    }
    for p in [target, host, registry_package("peer", "2.0.0", "")] {
        packages.insert(p.dep_path.clone(), p);
    }
    let deps = vec![
        direct("@scope/again", "@scope/again@4.0.0(peer@2.0.0)", DepType::Production, "npm:original@4"),
        direct("host", "host@1.0.0", DepType::Production, "^1.0.0"),
    ];
    let graph =
        LockfileGraph { importers: one_importer(".", deps), packages, ..Default::default() };
    let doc =
        aube_lockfile::pnpm::write::write("a/pnpm-lock.yaml", &graph, &PackageJson::default());
    assert_eq!(doc.packages.len(), 3);
    assert_eq!(doc.snapshots.len(), 3);
    assert_eq!(aube_lockfile::pnpm::parse(&doc).unwrap(), graph);
}

#[test]
fn sources_that_only_packages_depend_on_read_back() {
    let url = "https://example.com/t.tgz";
    let git = LocalSource::Git(GitSource {
        url: "https://example.com/g.git".to_string(),
        committish: None,
        resolved: "abcdef0123456789abcdef0123456789abcdef01".to_string(),
        subpath: None,
    });
    let spec = git.specifier();
    let mut host = registry_package("host", "1.0.0", "");
    host.dependencies = string_map(&[("g", spec.as_str()), ("t", url)]);
    let tarball = LockedPackage {
        name: "t".to_string(),
        version: "3.2.1".to_string(),
        integrity: Some("sha512-t".to_string()),
        dep_path: format!("t@{url}"),
        tarball_url: Some(url.to_string()),
        local_source: Some(LocalSource::RemoteTarball(RemoteTarballSource {
            url: url.to_string(),
            integrity: "sha512-t".to_string(),
        })),
        ..Default::default()
    };
    let cloned = LockedPackage {
        name: "g".to_string(),
        version: spec.clone(),
        dep_path: format!("g@{spec}"),
        local_source: Some(git),
        ..Default::default()
    };
    let mut packages = StrMap::new();
    for p in [host, tarball, cloned] {
        packages.insert(p.dep_path.clone(), p);
    }
    let deps = vec![direct("host", "host@1.0.0", DepType::Production, "^1.0.0")];
    let graph =
        LockfileGraph { importers: one_importer(".", deps), packages, ..Default::default() };
    for path in ["pnpm-lock.yaml", "aube-lock.yaml"] {
        let doc = aube_lockfile::pnpm::write::write(path, &graph, &PackageJson::default());
        assert_eq!(aube_lockfile::pnpm::parse(&doc).unwrap(), graph);
    }
}

#[test]
fn a_dependency_on_a_local_package_is_written_as_its_specifier() {
    let source = LocalSource::Directory("./vendor/a".to_string());
    let local = local_package("a", source);
    let mut host = registry_package("host", "1.0.0", "");
    let tail = dep_path_tail(&local.dep_path, "a");
    host.dependencies = string_map(&[("a", tail.as_str())]);
    let graph = LockfileGraph {
        importers: one_importer(
            ".",
            vec![
                direct("a", &local.dep_path, DepType::Production, "file:./vendor/a"),
                direct("host", "host@1.0.0", DepType::Production, "1.0.0"),
            ],
        ),
        packages: package_map(vec![
            (local.dep_path.clone(), local),
            ("host@1.0.0".to_string(), host),
        ]),
        ..Default::default()
    };
    let doc = aube_lockfile::pnpm::write::write("pnpm-lock.yaml", &graph, &PackageJson::default());
    let snapshot = doc.snapshots.get("host@1.0.0").unwrap();
    let deps = snapshot.dependencies.as_ref().unwrap();
    assert_eq!(deps.get("a").unwrap(), "file:./vendor/a");
    assert!(doc.packages.contains_key("a@file:./vendor/a"));
    assert!(doc.snapshots.contains_key("a@file:./vendor/a"));
}

#[test]
fn ranges_fall_back_on_the_root_manifest() {
    let dep = |name: &str, dep_type: DepType| DirectDep {
        name: name.to_string(),
        dep_path: format!("{name}@1.0.0"),
        dep_type,
        specifier: None,
    };
    let mut importers = one_importer(
        ".",
        vec![dep("a", DepType::Production), dep("b", DepType::Dev), dep("c", DepType::Dev)],
    );
    importers.insert("packages/x".to_string(), vec![dep("a", DepType::Production)]);
    let graph = LockfileGraph { importers, ..Default::default() };
    let manifest = PackageJson {
        dependencies: string_map(&[("a", "^1"), ("c", "^9")]),
        dev_dependencies: string_map(&[("b", "~1")]),
        ..Default::default()
    };
    let doc = aube_lockfile::pnpm::write::write("x/pnpm-lock.yaml", &graph, &manifest);
    let root = doc.importers.get(".").unwrap();
    let prod = root.dependencies.as_ref().unwrap();
    let dev = root.dev_dependencies.as_ref().unwrap();
    assert_eq!(prod.get("a").unwrap().specifier, "^1");
    assert_eq!(prod.get("a").unwrap().version, "1.0.0");
    assert_eq!(dev.get("b").unwrap().specifier, "~1");
    assert_eq!(dev.get("c").unwrap().specifier, "*");
    let x = doc.importers.get("packages/x").unwrap();
    assert_eq!(x.dependencies.as_ref().unwrap().get("a").unwrap().specifier, "*");
    assert_eq!(root.optional_dependencies, None);
}

#[test]
fn tarball_urls_are_recorded_on_request_and_for_jsr() {
    let with_url = |name: &str| {
        let mut p = registry_package(name, "1.0.0", "");
        p.tarball_url = Some(format!("https://r.example/{name}.tgz"));
        p
    };
    let mut graph = LockfileGraph {
        packages: package_map(vec![
            ("@jsr/a@1.0.0".to_string(), with_url("@jsr/a")),
            ("b@1.0.0".to_string(), with_url("b")),
        ]),
        ..Default::default()
    };
    let url_of = |graph: &LockfileGraph, key: &str| {
        let doc = aube_lockfile::pnpm::write::write("l", graph, &PackageJson::default());
        let info = doc.packages.get(key).unwrap();
        info.resolution.as_ref().unwrap().tarball.clone()
    };
    assert_eq!(url_of(&graph, "b@1.0.0"), None);
    assert_eq!(
        url_of(&graph, "@jsr/a@1.0.0"),
        Some("https://r.example/@jsr/a.tgz".to_string())
    );
    graph.settings.lockfile_include_tarball_url = true;
    assert_eq!(url_of(&graph, "b@1.0.0"), Some("https://r.example/b.tgz".to_string()));
}

fn empty_document() -> PnpmLockfile {
    PnpmLockfile {
        settings: None,
        overrides: None,
        patched_dependencies: None,
        catalogs: None,
        time: None,
        importers: StrMap::new(),
        packages: StrMap::new(),
        ignored_optional_dependencies: None,
        snapshots: StrMap::new(),
    }
}

fn empty_snapshot() -> PnpmSnapshot {
    PnpmSnapshot {
        dependencies: None,
        optional_dependencies: None,
        transitive_peer_dependencies: None,
        optional: None,
        bundled_dependencies: None,
    }
}

#[test]
fn keys_that_are_no_dep_paths_are_refused() {
    let mut doc = empty_document();
    doc.snapshots.insert("nonsense".to_string(), empty_snapshot());
    let err = aube_lockfile::pnpm::parse(&doc).unwrap_err();
    assert_eq!(err.message(), "invalid dep path: nonsense");
}

#[test]
fn aliases_of_missing_packages_are_refused() {
    let mut doc = empty_document();
    let mut snapshot = empty_snapshot();
    snapshot.dependencies = Some(string_map(&[("alias", "gone@1.0.0")]));
    doc.snapshots.insert("host@1.0.0".to_string(), snapshot);
    let err = aube_lockfile::pnpm::parse(&doc).unwrap_err();
    assert_eq!(
        err.message(),
        "npm-alias references missing package gone@1.0.0 (alias dep_path: alias@1.0.0)"
    );
}

#[test]
fn settings_have_defaults() {
    let graph = aube_lockfile::pnpm::parse(&empty_document()).unwrap();
    assert!(graph.settings.auto_install_peers);
    assert!(!graph.settings.exclude_links_from_lockfile);
    assert!(!graph.settings.lockfile_include_tarball_url);
    assert_eq!(graph, LockfileGraph::default());
    let mut doc = empty_document();
    doc.settings = Some(PnpmSettings {
        auto_install_peers: Some(false),
        exclude_links_from_lockfile: Some(true),
        lockfile_include_tarball_url: None,
    });
    let graph = aube_lockfile::pnpm::parse(&doc).unwrap();
    assert!(!graph.settings.auto_install_peers);
    assert!(graph.settings.exclude_links_from_lockfile);
}

#[test]
fn patches_are_paths_in_either_form() {
    let mut doc = empty_document();
    let mut m = StrMap::new();
    m.insert("a@1".to_string(), PatchedDependency::Path("patches/a".to_string()));
    m.insert(
        "b@1".to_string(),
        PatchedDependency::Object { path: "patches/b".to_string(), hash: Some("h".to_string()) },
    );
    doc.patched_dependencies = Some(m);
    let graph = aube_lockfile::pnpm::parse(&doc).unwrap();
    assert_eq!(
        graph.patched_dependencies,
        string_map(&[("a@1", "patches/a"), ("b@1", "patches/b")])
    );
}

#[test]
fn scores_weigh_direct_dependencies() {
    let mut doc = empty_document();
    assert_eq!(project_lockfile_score(&doc), 0);
    doc.settings = Some(PnpmSettings {
        auto_install_peers: None,
        exclude_links_from_lockfile: None,
        lockfile_include_tarball_url: None,
    });
    doc.overrides = Some(string_map(&[("a", "1")]));
    doc.catalogs = Some(StrMap::new());
    doc.snapshots.insert("a@1".to_string(), empty_snapshot());
    assert_eq!(project_lockfile_score(&doc), 201);
    let mut section = StrMap::new();
    section.insert(
        "a".to_string(),
        PnpmDepSpec { specifier: "1".to_string(), version: "1".to_string() },
    );
    doc.importers.insert(
        ".".to_string(),
        PnpmImporter {
            dependencies: Some(section),
            dev_dependencies: None,
            optional_dependencies: None,
            skipped_optional_dependencies: None,
        },
    );
    assert_eq!(project_lockfile_score(&doc), DIRECT_WEIGHT + 1201);
    let docs = vec![empty_document(), doc, empty_document()];
    assert_eq!(select_document(&docs), Some(1));
    assert_eq!(select_document(&vec![empty_document(), empty_document()]), Some(0));
    assert_eq!(select_document(&Vec::new()), None);
    assert_eq!(MAX_DOCUMENTS, 16);
}

fn document_with(direct: usize, packages: usize) -> PnpmLockfile {
    let mut doc = empty_document();
    let mut section = StrMap::new();
    for i in 0..direct {
        section.insert(
            format!("d{i}"),
            PnpmDepSpec { specifier: "1".to_string(), version: "1".to_string() },
        );
    }
    for i in 0..packages {
        doc.snapshots.insert(format!("p{i}@1.0.0"), empty_snapshot());
    }
    doc.importers.insert(
        ".".to_string(),
        PnpmImporter {
            dependencies: None,
            dev_dependencies: Some(section),
            optional_dependencies: None,
            skipped_optional_dependencies: None,
        },
    );
    doc
}

#[test]
fn one_direct_dependency_outweighs_any_number_of_packages() {
    let large = document_with(0, 1200);
    assert_eq!(project_lockfile_score(&large), 1200);
    let small = document_with(1, 0);
    assert_eq!(project_lockfile_score(&small), DIRECT_WEIGHT + 1000);
    assert_eq!(select_document(&vec![large, small]), Some(1));
}

#[test]
fn what_documents_with_direct_dependencies_hold_is_weighed() {
    assert_eq!(project_lockfile_score(&document_with(1, 1500)), DIRECT_WEIGHT + 2500);
    assert_eq!(select_document(&vec![document_with(1, 1500), document_with(2, 0)]), Some(0));
    assert_eq!(select_document(&vec![document_with(2, 0), document_with(1, 1500)]), Some(1));
    assert_eq!(select_document(&vec![document_with(3, 1000), document_with(3, 1500)]), Some(1));
    assert_eq!(select_document(&vec![document_with(0, 1000), document_with(0, 1500)]), Some(1));
    assert_eq!(select_document(&vec![document_with(2, 0), document_with(1, 1000)]), Some(0));
}

#[test]
fn documents_are_read_up_to_a_limit() {
    assert!(wants_document(0, false));
    assert!(wants_document(15, false));
    assert!(!wants_document(16, false));
    assert!(!wants_document(17, false));
    assert!(!wants_document(1, true));
}

#[test]
fn sources_outside_the_registry_are_no_aliases() {
    let pairs = [
        ("a", "git@github.com:owner/repo.git"),
        ("b", "git+ssh://git@github.com/owner/repo.git#abc"),
        ("c", "https://user@example.com/x.tgz"),
        ("d", "file:vendor/x@1"),
        ("e", "link:../x@1"),
        ("f", "1.0.0"),
    ];
    let mut deps = string_map(&pairs);
    let mut remaps = Vec::new();
    rewrite_snapshot_alias_deps(&mut deps, &mut remaps);
    assert_eq!(deps, string_map(&pairs));
    assert!(remaps.is_empty());
    let mut deps = string_map(&[("h3-v2", "h3@2.0.1(crossws@0.4.4)")]);
    rewrite_snapshot_alias_deps(&mut deps, &mut remaps);
    assert_eq!(deps, string_map(&[("h3-v2", "2.0.1(crossws@0.4.4)")]));
    assert_eq!(remaps.len(), 1);
    assert_eq!(remaps[0].real_name, "h3");
    assert_eq!(remaps[0].alias_dep_path, "h3-v2@2.0.1(crossws@0.4.4)");
}

#[test]
fn dep_path_parts_come_back() {
    for (name, version) in [("foo", "1.0.0"), ("@s/p", "2.0.0-rc.1")] {
        let path = version_to_dep_path(name, version);
        assert_eq!(parse_dep_path(&path), Some((name.to_string(), version.to_string())));
        assert_eq!(dep_path_tail(&path, name), version);
    }
    assert_eq!(dep_path_tail("foo@1.0.0(bar@2)", "foo"), "1.0.0(bar@2)");
    assert_eq!(dep_path_tail("foo@1.0.0", "bar"), "foo@1.0.0");
    assert_eq!(peerless_dep_path("foo", "1.0.0(bar@2)"), "foo@1.0.0");
    assert_eq!(parse_dep_path("@scope@1.0.0"), None);
}

#[test]
fn native_aliases_resolve_to_their_own_key() {
    let (alias, tail) = resolve_alias("alias", "target@2.0.0(peer@3.0.0)");
    let alias = alias.unwrap();
    assert_eq!(tail, "2.0.0(peer@3.0.0)");
    assert_eq!(alias.alias_dep_path, "alias@2.0.0(peer@3.0.0)");
    assert_eq!(alias.real_dep_path, "target@2.0.0(peer@3.0.0)");
    assert_eq!(alias.real_name, "target");
    let (none, tail) = resolve_alias("plain", "1.0.0");
    assert!(none.is_none());
    assert_eq!(tail, "1.0.0");
}

#[test]
fn resolutions_name_their_source() {
    let mut r = PnpmResolution {
        integrity: None,
        directory: None,
        tarball: None,
        commit: Some("abc".to_string()),
        repo: Some("https://h/r.git".to_string()),
        type_: None,
        path: Some("/packages/x".to_string()),
    };
    let git = |subpath: Option<&str>| {
        Some(LocalSource::Git(GitSource {
            url: "https://h/r.git".to_string(),
            committish: None,
            resolved: "abc".to_string(),
            subpath: subpath.map(|s| s.to_string()),
        }))
    };
    assert_eq!(local_source_from_resolution(&r), git(Some("packages/x")));
    r.path = Some("/../x".to_string());
    assert_eq!(local_source_from_resolution(&r), git(None));
    r.directory = Some("./d".to_string());
    assert_eq!(
        local_source_from_resolution(&r),
        Some(LocalSource::Directory("./d".to_string()))
    );
    r.tarball = Some("file:./t.tgz".to_string());
    assert_eq!(
        local_source_from_resolution(&r),
        Some(LocalSource::Tarball("./t.tgz".to_string()))
    );
    r.tarball = Some("https://h/t.tgz".to_string());
    r.integrity = Some("sha512-t".to_string());
    assert_eq!(
        local_source_from_resolution(&r),
        Some(LocalSource::RemoteTarball(RemoteTarballSource {
            url: "https://h/t.tgz".to_string(),
            integrity: "sha512-t".to_string(),
        }))
    );
    r.tarball = Some("ftp://h/t.tgz".to_string());
    assert_eq!(local_source_from_resolution(&r), None);
}

#[test]
fn serialized_lockfiles_get_pnpms_layout() {
    let plain = "lockfileVersion: '9.0'\nimporters:\n  .:\n    dependencies:\n      a:\n        specifier: '1'\n        version: '1'\npackages:\n  a@1:\n    resolution:\n      integrity: sha512-a\n      tarball: https://h/a.tgz\n    engines:\n      node: '>=18'\n  b@1:\n    resolution:\n      integrity: sha512-b\nsnapshots:\n  a@1: {}\n  b@1: {}\n";
    let want = "lockfileVersion: '9.0'\n\nimporters:\n\n  .:\n    dependencies:\n      a:\n        specifier: '1'\n        version: '1'\n\npackages:\n\n  a@1:\n    resolution: {integrity: sha512-a, tarball: https://h/a.tgz}\n    engines: {node: '>=18'}\n\n  b@1:\n    resolution: {integrity: sha512-b}\n\nsnapshots:\n\n  a@1: {}\n\n  b@1: {}\n";
    assert_eq!(reformat_for_pnpm_parity(plain), want);
    assert_eq!(reformat_for_pnpm_parity(""), "");
}

#[test]
fn direct_dependencies_come_back_in_whatever_order_they_stood() {
    let package = |name: &str, version: &str| {
        let path = version_to_dep_path(name, version);
        (
            path.clone(),
            LockedPackage {
                name: name.to_string(),
                version: version.to_string(),
                dep_path: path,
                integrity: Some(format!("sha512-{name}")),
                bin: string_map(&[("run", "./cli.js")]),
                ..Default::default()
            },
        )
    };
    let dep = |name: &str, version: &str, dep_type: DepType| DirectDep {
        name: name.to_string(),
        dep_path: version_to_dep_path(name, version),
        dep_type,
        specifier: Some(format!("^{version}")),
    };
    let deps = vec![
        dep("z", "1.0.0", DepType::Dev),
        dep("b", "2.0.0", DepType::Production),
        dep("a", "3.0.0", DepType::Production),
    ];
    let graph = LockfileGraph {
        importers: one_importer(".", deps),
        packages: package_map(vec![
            package("z", "1.0.0"),
            package("b", "2.0.0"),
            package("a", "3.0.0"),
        ]),
        ..Default::default()
    };
    let doc = aube_lockfile::pnpm::write::write("pnpm-lock.yaml", &graph, &PackageJson::default());
    let back = aube_lockfile::pnpm::parse(&doc).unwrap();
    let names: Vec<&str> =
        back.importers.get(".").unwrap().iter().map(|d| d.name.as_str()).collect();
    assert_eq!(names, vec!["a", "b", "z"]);
    for d in graph.importers.get(".").unwrap() {
        assert!(back.importers.get(".").unwrap().contains(d));
    }
    assert_eq!(back.packages.len(), 3);
    let a = back.packages.get("a@3.0.0").unwrap();
    assert_eq!(a.bin, string_map(&[("", "")]));
    assert_eq!(a.integrity.as_deref(), Some("sha512-a"));
}

#[test]
fn dependencies_on_scoped_sources_are_written_as_specifiers() {
    let sha = "abcdef0123456789abcdef0123456789abcdef01";
    for name in ["lib", "@s/lib"] {
        let source = LocalSource::Git(GitSource {
            url: "https://h.example/r.git".to_string(),
            committish: None,
            resolved: sha.to_string(),
            subpath: None,
        });
        let key = source.dep_path(name);
        let tail = key[key.rfind('@').unwrap() + 1..].to_string();
        assert!(tail.starts_with("git+"));
        let lib = LockedPackage {
            name: name.to_string(),
            version: "0.0.0".to_string(),
            dep_path: key.clone(),
            local_source: Some(source),
            ..Default::default()
        };
        let user = LockedPackage {
            name: "a".to_string(),
            version: "1.0.0".to_string(),
            dep_path: "a@1.0.0".to_string(),
            dependencies: string_map(&[(name, tail.as_str())]),
            ..Default::default()
        };
        let graph = LockfileGraph {
            packages: package_map(vec![(key, lib), ("a@1.0.0".to_string(), user)]),
            ..Default::default()
        };
        let doc =
            aube_lockfile::pnpm::write::write("pnpm-lock.yaml", &graph, &PackageJson::default());
        let want = format!("https://h.example/r.git#{sha}");
        assert_eq!(
            doc.snapshots.get("a@1.0.0").unwrap().dependencies,
            Some(string_map(&[(name, want.as_str())])),
        );
    }
}

#[test]
fn documents_are_written_as_they_were_read() {
    let content = r#"lockfileVersion: '9.0'
settings:
  autoInstallPeers: true
  excludeLinksFromLockfile: false
overrides:
  left: 1.0.0
patchedDependencies:
  left@1.0.0: patches/left.patch
catalogs:
  default:
    left:
      specifier: ^1.0.0
      version: 1.0.0
time:
  left@1.0.0: '2024-01-01T00:00:00.000Z'
importers:
  .:
    dependencies:
      alias:
        specifier: npm:left@^1.0.0
        version: left@1.0.0
      host:
        specifier: ^2.0.0
        version: 2.0.0(left@1.0.0)
      repo:
        specifier: git+https://example.com/repo.git
        version: https://example.com/repo.git#0123456789abcdef0123456789abcdef01234567
      vendored:
        specifier: file:./vendor/vendored
        version: file:vendor/vendored
    devDependencies:
      left:
        specifier: ^1.0.0
        version: 1.0.0
    skippedOptionalDependencies:
      gone:
        specifier: ^3.0.0
        version: 0.0.0
  packages/a:
    dependencies:
      b:
        specifier: workspace:*
        version: link:../b
  packages/b: {}
packages:
  host@2.0.0:
    resolution: {integrity: sha512-host}
    engines: {node: '>=18'}
    hasBin: true
    peerDependencies:
      left: ^1.0.0
    peerDependenciesMeta:
      left:
        optional: true
  left@1.0.0:
    resolution: {integrity: sha512-left}
  repo@https://example.com/repo.git#0123456789abcdef0123456789abcdef01234567:
    resolution: {commit: 0123456789abcdef0123456789abcdef01234567, repo: https://example.com/repo.git, type: git}
  vendored@file:vendor/vendored:
    resolution: {directory: vendor/vendored, type: directory}
ignoredOptionalDependencies:
  - fsevents
snapshots:
  host@2.0.0(left@1.0.0):
    dependencies:
      also: left@1.0.0
      left: 1.0.0
    transitivePeerDependencies:
      - supports-color
  left@1.0.0:
    optional: true
  repo@https://example.com/repo.git#0123456789abcdef0123456789abcdef01234567: {}
  vendored@file:vendor/vendored:
    dependencies:
      left: 1.0.0
      nested: left@1.0.0
"#;
    let doc = lockfile_of(&yaml_serde::from_str(content).unwrap()).unwrap();
    let graph = aube_lockfile::pnpm::parse(&doc).unwrap();
    for alias in ["alias@1.0.0", "also@1.0.0", "nested@1.0.0"] {
        assert_eq!(graph.packages.get(alias).unwrap().alias_of.as_deref(), Some("left"));
    }
    let written =
        aube_lockfile::pnpm::write::write("pnpm-lock.yaml", &graph, &PackageJson::default());
    assert_eq!(written, doc);
}
