//! Editing the workspace yaml and the settings in a `package.json`.
use aube_lockfile::json::Json;
use aube_lockfile::manifest::config_edit::{
    add_to_allow_builds, upsert_map_entry, ConfigEditError,
};
use aube_lockfile::manifest::parse_error::{parse_json, parse_yaml};
use aube_lockfile::manifest::setting_edit::{
    edit_setting_map, parse_manifest_object, remove_setting_entry, setting_map,
    upsert_setting_entries, EditError,
};
use aube_lockfile::manifest::workspace::{
    config_write_target, workspace_yaml_existing, workspace_yaml_target, ConfigWriteTarget,
    ALLOW_BUILDS_REVIEW_PLACEHOLDER,
};
use aube_lockfile::manifest::yaml_edit::{
    append_entry, apply_edits, detect_child_indent, edit_workspace_yaml, indent_block_sequences,
    insert_entry, parse_workspace_mapping, remove_map_entry, remove_workspace_patched_dependency,
    upsert_workspace_map_entry, upsert_workspace_patched_dependency, write_allow_builds_yaml,
    Addition, Edit, YamlEditError,
};
use aube_lockfile::manifest::yaml_source::{Block, YamlPatch};
use aube_lockfile::strmap::Dup;
use aube_lockfile::yaml::{get_value, set_key, Yaml};

fn names(list: &[&str]) -> Vec<String> {
    list.iter().map(|s| s.to_string()).collect()
}

fn text(s: &str) -> Yaml {
    Yaml::String(s.to_string())
}

fn mapping_at(source: &str, route: &[&str]) -> Vec<(Yaml, Yaml)> {
    let mut at = parse_yaml(source).unwrap_or_else(|e| panic!("{e:?} in:\n{source}"));
    for key in route {
        at = get_value(at.as_mapping().unwrap(), key).unwrap().dup();
    }
    at.as_mapping().unwrap().iter().map(|(k, v)| (k.dup(), v.dup())).collect()
}

fn text_at(source: &str, route: &[&str], key: &str) -> Option<String> {
    let m = mapping_at(source, route);
    get_value(&m, key).and_then(|v| v.as_str()).cloned()
}

fn edit(source: Option<&str>, change: fn(&mut Vec<(Yaml, Yaml)>)) -> Option<String> {
    let before = parse_workspace_mapping(source).unwrap();
    let mut after = parse_workspace_mapping(source).unwrap();
    change(&mut after);
    edit_workspace_yaml(source, &before, &after).unwrap()
}

fn approve(file: &str, source: &str, list: &[&str]) -> Option<String> {
    let target = ConfigWriteTarget::WorkspaceYaml(file.to_string());
    add_to_allow_builds(&target, source, &names(list)).unwrap()
}

fn parsed_json(raw: &str) -> serde_json::Value {
    serde_json::from_str(raw).unwrap()
}

fn plain(v: &serde_json::Value) -> Json {
    parse_json(&v.to_string()).unwrap()
}

#[test]
fn detect_child_indent_reads_existing_child_indent() {
    assert_eq!(detect_child_indent("    foo: 1\n", 2), 4);
    assert_eq!(detect_child_indent("  foo: 1\n", 1), 2);
}

#[test]
fn detect_child_indent_skips_blank_and_comment_lines() {
    assert_eq!(detect_child_indent("\n    # note\n    foo: 1\n", 2), 4);
}

#[test]
fn detect_child_indent_falls_back_to_parent_depth() {
    assert_eq!(detect_child_indent("", 2), 4);
    assert_eq!(detect_child_indent("", 1), 2);
    assert_eq!(detect_child_indent("", 3), 6);
}

#[test]
fn add_to_allow_builds_writes_to_package_json_when_no_yaml() {
    let target = config_write_target(false, false);
    assert_eq!(target, ConfigWriteTarget::PackageJson);
    let raw = add_to_allow_builds(
        &target,
        r#"{"name":"solo","version":"0.0.0"}"#,
        &names(&["esbuild", "sharp"]),
    )
    .unwrap()
    .unwrap();
    let parsed = parsed_json(&raw);
    assert_eq!(parsed["aube"]["allowBuilds"]["esbuild"], true);
    assert_eq!(parsed["aube"]["allowBuilds"]["sharp"], true);
    assert_eq!(parsed["name"], "solo");
}

#[test]
fn add_to_allow_builds_writes_to_existing_pnpm_workspace() {
    let target = config_write_target(false, true);
    assert_eq!(
        target,
        ConfigWriteTarget::WorkspaceYaml("pnpm-workspace.yaml".to_string())
    );
    let written = add_to_allow_builds(&target, "packages:\n  - 'pnpm/*'\n", &names(&["esbuild"]))
        .unwrap()
        .unwrap();
    assert_eq!(written, "packages:\n  - 'pnpm/*'\nallowBuilds:\n  esbuild: true\n");
}

#[test]
fn add_to_allow_builds_flips_existing_workspace_entries() {
    let written = approve(
        "pnpm-workspace.yaml",
        "allowBuilds:\n  esbuild: false\n",
        &["sharp", "esbuild"],
    )
    .unwrap();
    let builds = mapping_at(&written, &["allowBuilds"]);
    assert!(matches!(get_value(&builds, "esbuild"), Some(Yaml::Bool(true))));
    assert!(matches!(get_value(&builds, "sharp"), Some(Yaml::Bool(true))));
}

#[test]
fn allow_builds_raw_round_trips_review_placeholder_from_yaml() {
    let source = format!("allowBuilds:\n  esbuild: \"{ALLOW_BUILDS_REVIEW_PLACEHOLDER}\"\n");
    let mut allow_builds = aube_lockfile::strmap::StrMap::new();
    for (k, v) in mapping_at(&source, &["allowBuilds"]) {
        allow_builds.insert(k.as_str().unwrap().clone(), v);
    }
    let config = aube_lockfile::manifest::workspace::WorkspaceConfig {
        allow_builds,
        ..Default::default()
    };
    let raw = config.allow_builds_raw();
    assert_eq!(
        raw.get("esbuild"),
        Some(&aube_lockfile::manifest::settings::AllowBuildRaw::Other(
            ALLOW_BUILDS_REVIEW_PLACEHOLDER.to_string()
        ))
    );
}

#[test]
fn add_to_allow_builds_appends_and_dedupes() {
    let on_disk = approve(
        "pnpm-workspace.yaml",
        "packages:\n  - 'packages/*'\nallowBuilds:\n  esbuild: true\n",
        &["sharp", "esbuild"],
    )
    .unwrap();
    let config = parse_yaml(&on_disk).unwrap();
    let Some(Yaml::Sequence(packages)) = get_value(config.as_mapping().unwrap(), "packages") else {
        panic!("got:\n{on_disk}");
    };
    let packages: Vec<_> = packages.iter().map(|p| p.as_str().unwrap().clone()).collect();
    assert_eq!(packages, vec!["packages/*"]);
    let builds = mapping_at(&on_disk, &["allowBuilds"]);
    assert_eq!(builds.len(), 2);
    assert!(matches!(get_value(&builds, "esbuild"), Some(Yaml::Bool(true))));
    assert!(matches!(get_value(&builds, "sharp"), Some(Yaml::Bool(true))));
    assert!(on_disk.contains("- 'packages/*'"));
    assert!(on_disk.contains("\n  esbuild: true"), "got:\n{on_disk}");
    assert!(on_disk.contains("\n  sharp: true"), "got:\n{on_disk}");
}

#[test]
fn add_to_allow_builds_writes_to_aube_file_when_present() {
    let aube = "packages:\n  - 'a/*'\n";
    let pnpm = "packages:\n  - 'p/*'\n";
    let target = config_write_target(true, true);
    assert_eq!(target, ConfigWriteTarget::WorkspaceYaml("aube-workspace.yaml".to_string()));
    let source = match &target {
        ConfigWriteTarget::WorkspaceYaml(file) if file == "aube-workspace.yaml" => aube,
        _ => pnpm,
    };
    let written = add_to_allow_builds(&target, source, &names(&["esbuild"])).unwrap().unwrap();
    assert!(written.contains("- 'a/*'"));
    assert!(!written.contains("'p/*'"));
    let builds = mapping_at(&written, &["allowBuilds"]);
    assert_eq!(builds.len(), 1);
    assert!(matches!(get_value(&builds, "esbuild"), Some(Yaml::Bool(true))));
    assert!(!pnpm.contains("allowBuilds"));
    assert_eq!(workspace_yaml_existing(true, true), Some("aube-workspace.yaml"));
    assert_eq!(workspace_yaml_existing(false, false), None);
    assert_eq!(workspace_yaml_target(false, false), "aube-workspace.yaml");
    assert_eq!(workspace_yaml_target(false, true), "pnpm-workspace.yaml");
}

#[test]
fn upsert_workspace_patched_dependency_creates_file() {
    let written = upsert_workspace_patched_dependency(
        None,
        "is-positive@3.1.0",
        "patches/is-positive@3.1.0.patch",
    )
    .unwrap()
    .unwrap();
    assert!(written.contains("patchedDependencies:"));
    assert!(written.contains("is-positive@3.1.0"));
    assert!(written.contains("patches/is-positive@3.1.0.patch"));
}

#[test]
fn upsert_workspace_patched_dependency_preserves_other_keys() {
    let source = "packages:\n  - 'pkgs/*'\noverrides:\n  foo: 1.0.0\n";
    let written =
        upsert_workspace_patched_dependency(Some(source), "bar@2.0.0", "patches/bar@2.0.0.patch")
            .unwrap()
            .unwrap();
    assert!(written.contains("packages:"));
    assert!(written.contains("- 'pkgs/*'") || written.contains("- pkgs/*"));
    assert!(written.contains("overrides:"));
    assert!(written.contains("foo:"));
    assert!(written.contains("patchedDependencies:"));
    assert!(written.contains("bar@2.0.0"));
}

#[test]
fn remove_workspace_patched_dependency_drops_empty_map() {
    let source = "patchedDependencies:\n  \"a@1.0.0\": patches/a@1.0.0.patch\n";
    let (removed, written) =
        remove_workspace_patched_dependency(Some(source), "a@1.0.0").unwrap();
    assert!(removed);
    assert!(!written.unwrap().contains("patchedDependencies"));
}

#[test]
fn remove_workspace_patched_dependency_missing_returns_false() {
    let source = "patchedDependencies:\n  \"a@1.0.0\": patches/a@1.0.0.patch\n";
    let (removed, _) = remove_workspace_patched_dependency(Some(source), "missing@9.9.9").unwrap();
    assert!(!removed);
}

#[test]
fn remove_workspace_patched_dependency_does_not_rewrite_when_key_absent() {
    let original = "# top-level comment\npatchedDependencies:\n  # patch annotation\n  \"a@1.0.0\": patches/a@1.0.0.patch\n";
    let (removed, written) =
        remove_workspace_patched_dependency(Some(original), "missing@9.9.9").unwrap();
    assert!(!removed);
    assert_eq!(written, None);
}

#[test]
fn upsert_workspace_patched_dependency_does_not_rewrite_when_value_unchanged() {
    let original = "# top-level comment\npatchedDependencies:\n  # patch annotation\n  \"a@1.0.0\": patches/a@1.0.0.patch\n";
    let written =
        upsert_workspace_patched_dependency(Some(original), "a@1.0.0", "patches/a@1.0.0.patch")
            .unwrap();
    assert_eq!(written, None);
}

#[test]
fn add_to_allow_builds_does_not_rewrite_when_already_approved() {
    let original = "# why we trust this build\nallowBuilds:\n  # esbuild ships native bindings\n  esbuild: true\n";
    assert_eq!(approve("pnpm-workspace.yaml", original, &["esbuild"]), None);
}

#[test]
fn edit_workspace_yaml_preserves_comments_on_no_op() {
    let original = "# header comment\npackages:\n  # workspace globs\n  - 'pkgs/*'\n";
    assert_eq!(edit(Some(original), |_map| {}), None);
}

#[test]
fn edit_workspace_yaml_writes_when_structure_changes() {
    let written = edit(Some("packages:\n  - 'pkgs/*'\n"), |map| {
        set_key(map, "foo", text("bar"));
    })
    .unwrap();
    assert!(written.contains("foo: bar"));
}

#[test]
fn edit_workspace_yaml_preserves_comments_around_unchanged_keys() {
    let original = "\
# header explaining the workspace
packages:
  # globs we ship
  - 'pkgs/*'
allowBuilds:
  # esbuild ships native bindings
  esbuild: true
";
    let written = upsert_workspace_map_entry(
        Some(original),
        "allowBuilds",
        "sharp",
        Yaml::Bool(true),
    )
    .unwrap()
    .unwrap();
    assert!(
        written.contains("# header explaining the workspace"),
        "header comment lost:\n{written}"
    );
    assert!(
        written.contains("# globs we ship"),
        "sequence comment lost:\n{written}"
    );
    assert!(
        written.contains("# esbuild ships native bindings"),
        "annotation comment lost:\n{written}"
    );
    assert!(
        written.contains("sharp: true"),
        "new entry not added:\n{written}"
    );
}

#[test]
fn upsert_workspace_patched_dependency_preserves_comments_on_real_change() {
    let original = "\
patchedDependencies:
  # a is patched because of upstream bug #123
  \"a@1.0.0\": patches/a@1.0.0.patch
";
    let written =
        upsert_workspace_patched_dependency(Some(original), "b@2.0.0", "patches/b@2.0.0.patch")
            .unwrap()
            .unwrap();
    assert!(
        written.contains("# a is patched because of upstream bug #123"),
        "annotation comment lost:\n{written}"
    );
    assert!(written.contains("b@2.0.0"), "new entry missing:\n{written}");
}

#[test]
fn add_to_allow_builds_merges_with_quoted_existing_key() {
    let written = approve(
        "pnpm-workspace.yaml",
        "allowBuilds:\n  \"@pnpm.e2e/install-script-example\": true\n",
        &["@pnpm.e2e/pre-and-postinstall-scripts-example"],
    )
    .unwrap();
    let builds = mapping_at(&written, &["allowBuilds"]);
    assert_eq!(builds.len(), 2);
    assert!(
        written.contains("@pnpm.e2e/install-script-example"),
        "existing entry lost:\n{written}"
    );
    assert!(
        written.contains("@pnpm.e2e/pre-and-postinstall-scripts-example"),
        "new entry missing:\n{written}"
    );
}

#[test]
fn upsert_workspace_patched_dependency_does_not_quote_unreserved_at_keys() {
    let written = upsert_workspace_patched_dependency(None, "b@2.0.0", "patches/b@2.0.0.patch")
        .unwrap()
        .unwrap();
    assert!(
        written.contains("\n  b@2.0.0: patches/b@2.0.0.patch"),
        "expected unquoted plain-scalar key:\n{written}"
    );
}

#[test]
fn upsert_workspace_patched_dependency_quotes_leading_at_keys() {
    let written =
        upsert_workspace_patched_dependency(None, "@scope/pkg@1.0.0", "patches/scope-pkg.patch")
            .unwrap()
            .unwrap();
    assert_eq!(
        text_at(&written, &["patchedDependencies"], "@scope/pkg@1.0.0").as_deref(),
        Some("patches/scope-pkg.patch"),
        "scoped key did not round-trip:\n{written}"
    );
}

fn add_catalog(map: &mut Vec<(Yaml, Yaml)>) {
    let mut catalogs: Vec<(Yaml, Yaml)> = Vec::new();
    if let Some(found) = get_value(map, "catalogs") {
        for (k, v) in found.as_mapping().unwrap() {
            catalogs.push((k.dup(), v.dup()));
        }
    }
    let named = vec![(text("is-even"), text("^1.0.0"))];
    set_key(&mut catalogs, "my-catalog", Yaml::Mapping(named));
    set_key(map, "catalogs", Yaml::Mapping(catalogs));
}

#[test]
fn edit_workspace_yaml_adds_nested_mapping_under_existing_parent() {
    let written = edit(
        Some("catalogs:\n  evens:\n    is-even: ^1.0.0\n"),
        add_catalog,
    )
    .unwrap();
    assert_eq!(
        text_at(&written, &["catalogs", "evens"], "is-even").unwrap(),
        "^1.0.0"
    );
    assert_eq!(
        text_at(&written, &["catalogs", "my-catalog"], "is-even").unwrap(),
        "^1.0.0"
    );
}

#[test]
fn edit_workspace_yaml_adds_nested_mapping_and_round_trips() {
    let written = edit(Some("catalog:\n  is-odd: ^3.0.1\n"), add_catalog).unwrap();
    assert_eq!(text_at(&written, &["catalog"], "is-odd").unwrap(), "^3.0.1");
    assert_eq!(
        text_at(&written, &["catalogs", "my-catalog"], "is-even").unwrap(),
        "^1.0.0"
    );
}

#[test]
fn edit_workspace_yaml_adds_sequence_value_as_block_style() {
    let written = edit(Some("shamefullyHoist: true\n"), |map| {
        let packages = vec![text("pkgs/*"), text("apps/*")];
        set_key(map, "packages", Yaml::Sequence(packages));
    })
    .unwrap();
    assert_eq!(written, "shamefullyHoist: true\npackages:\n  - pkgs/*\n  - apps/*\n");
}

#[test]
fn edit_workspace_yaml_replaces_scalar_with_nested_mapping() {
    let written = edit(
        Some("shamefullyHoist: true\nplaceholder: legacy\n"),
        |map| {
            let nested = vec![(text("react"), text("^18"))];
            set_key(map, "placeholder", Yaml::Mapping(nested));
        },
    )
    .unwrap();
    assert_eq!(
        text_at(&written, &["placeholder"], "react").as_deref(),
        Some("^18"),
        "scalar -> mapping replacement lost child:\n{written}"
    );
}

#[test]
fn remove_workspace_patched_dependency_preserves_comments_on_real_remove() {
    let original = "\
patchedDependencies:
  # a is patched because of upstream bug #123
  \"a@1.0.0\": patches/a@1.0.0.patch
  # b is patched for a build issue
  \"b@2.0.0\": patches/b@2.0.0.patch
";
    let (removed, written) =
        remove_workspace_patched_dependency(Some(original), "a@1.0.0").unwrap();
    assert!(removed);
    let written = written.unwrap();
    assert!(
        written.contains("# b is patched for a build issue"),
        "surviving annotation lost:\n{written}"
    );
    assert!(
        !written.contains("a@1.0.0"),
        "removed entry still present:\n{written}"
    );
}

#[test]
fn a_scalar_is_replaced_in_its_place() {
    let source = "# head\nstoreDir: /a # where\npackages: []\n";
    let written = edit(Some(source), |map| {
        set_key(map, "storeDir", text("/b"));
    })
    .unwrap();
    assert_eq!(text_at(&written, &[], "storeDir").unwrap(), "/b");
    assert!(written.starts_with("# head\n"));
    assert!(written.contains("packages: []"));
}

#[test]
fn nested_items_keep_their_shape() {
    let written = edit(Some("a: 1\n"), |map| {
        let inner = vec![(text("x"), text("1")), (text("y"), text("true"))];
        let items = vec![Yaml::Mapping(inner), text("plain")];
        set_key(map, "list", Yaml::Sequence(items));
        set_key(map, "nothing", Yaml::Mapping(Vec::new()));
    })
    .unwrap();
    assert_eq!(
        written,
        "a: 1\nlist:\n  - x: '1'\n    y: 'true'\n  - plain\nnothing: {}\n"
    );
}

#[test]
fn a_new_entry_stands_behind_its_siblings() {
    let source = "overrides:\n    a: 1\n\n\npackages: []\n";
    let written =
        upsert_workspace_map_entry(Some(source), "overrides", "b", text("2")).unwrap().unwrap();
    assert!(written.starts_with("overrides:\n    a: 1\n    b: '2'\n"));
    assert!(written.ends_with("packages: []\n"));
}

#[test]
fn blank_files_are_written_anew() {
    let written = edit(Some("  \n"), |map| {
        set_key(map, "packages", Yaml::Sequence(vec![text("a"), text("b")]));
    })
    .unwrap();
    assert_eq!(written, "packages:\n  - a\n  - b\n");
    assert_eq!(indent_block_sequences("a:\n- b\n  - c\n-\nx"), "a:\n  - b\n  - c\n  -\nx");
    assert_eq!(indent_block_sequences("-"), "  -");
    assert_eq!(indent_block_sequences(""), "");
}

#[test]
fn only_items_at_the_column_of_their_key_are_indented() {
    assert_eq!(indent_block_sequences("a:\n  - x\nb: 1\n"), "a:\n  - x\nb: 1\n");
    assert_eq!(indent_block_sequences("a:\n- x\n- y\nb: 1\n"), "a:\n  - x\n  - y\nb: 1\n");
    assert_eq!(indent_block_sequences("a:\n  b:\n  - x\n"), "a:\n  b:\n    - x\n");
    assert_eq!(indent_block_sequences("a:\n  b:\n    - x\n"), "a:\n  b:\n    - x\n");
}

#[test]
fn entries_are_removed_and_empty_maps_with_them() {
    let source = "overrides:\n  a: 1\nother: x\n";
    let (existed, written) = remove_map_entry(Some(source), "overrides", "a").unwrap();
    assert!(existed);
    assert_eq!(written.unwrap(), "other: x\n");
    assert_eq!(remove_map_entry(Some(source), "overrides", "b").unwrap(), (false, None));
    assert_eq!(remove_map_entry(Some(source), "other", "b").unwrap(), (false, None));
    assert_eq!(remove_map_entry(None, "other", "b").unwrap(), (false, None));
}

#[test]
fn a_value_that_is_no_map_is_refused() {
    let err = write_allow_builds_yaml(Some("allowBuilds: yes\n"), &names(&["a"])).unwrap_err();
    assert_eq!(err.message(), "`allowBuilds` must be a mapping");
    let err = write_allow_builds_yaml(Some("- a\n"), &names(&["a"])).unwrap_err();
    assert_eq!(err.message(), "top-level yaml must be a mapping");
    let err = write_allow_builds_yaml(Some("a: [\n"), &names(&["a"])).unwrap_err();
    assert!(matches!(err, YamlEditError::Parse(_)));
    assert!(!err.message().is_empty());
}

#[test]
fn keys_must_be_strings() {
    let before = parse_workspace_mapping(Some("1: a\n")).unwrap();
    let err = edit_workspace_yaml(Some("1: a\n"), &before, &Vec::new()).unwrap_err();
    assert_eq!(
        err.message(),
        "workspace yaml mapping key must be a string, got Number(1)"
    );
}

#[test]
fn a_parent_without_value_is_not_found() {
    let addition = Addition {
        route: names(&["a"]),
        key: "b".to_string(),
        value: serde_yaml::Value::Bool(true),
    };
    let err = apply_edits("a:\n", vec![Edit::Add(addition)]).unwrap_err();
    assert_eq!(err.message(), "parent route [\"a\"] not found in source");
    let addition = Addition {
        route: names(&["missing"]),
        key: "b".to_string(),
        value: serde_yaml::Value::Bool(true),
    };
    let err = apply_edits("a: 1\n", vec![Edit::Add(addition)]).unwrap_err();
    assert!(matches!(err, YamlEditError::Yaml(_)));
}

#[test]
fn outer_entries_are_added_before_inner_ones() {
    let add = |route: &[&str], key: &str, value: serde_yaml::Value| {
        Edit::Add(Addition { route: names(route), key: key.to_string(), value })
    };
    let mut inner = serde_yaml::Mapping::new();
    inner.insert("x".into(), "1".into());
    let edits = vec![
        add(&["a"], "z", serde_yaml::Value::from(2)),
        add(&[], "a", serde_yaml::Value::Mapping(inner)),
        Edit::Patch(YamlPatch { route: names(&["old"]), replacement: None }),
    ];
    assert_eq!(
        apply_edits("old: 1\nkept: 2\n", edits).unwrap(),
        "kept: 2\na:\n  x: '1'\n  z: 2\n\n"
    );
    assert_eq!(apply_edits("a: 1\n", Vec::new()).unwrap(), "a: 1\n");
}

#[test]
fn entries_go_to_a_byte_offset() {
    let block = |end: usize| Block { text: "  ä: 1".to_string(), end };
    let value = serde_yaml::Value::Bool(true);
    let source = "p:\n  ä: 1\n";
    assert_eq!(
        insert_entry(source, &block(10), 1, "b", &value).unwrap(),
        "p:\n  ä: 1\n  b: true\n\n"
    );
    let err = insert_entry(source, &block(6), 1, "b", &value).unwrap_err();
    assert_eq!(err, YamlEditError::SplitCharacter);
    let err = insert_entry(source, &block(99), 1, "b", &value).unwrap_err();
    assert_eq!(err.message(), "parent route ends inside a character");
    assert_eq!(append_entry("a: 1", "@b", &value), "a: 1\n'@b': true\n");
    assert_eq!(append_entry("", "b", &value), "b: true\n");
}

#[test]
fn settings_are_read_from_both_namespaces() {
    let raw = r#"{"pnpm":{"m":{"a":1,"b":2}},"aube":{"m":{"b":3,"c":4}}}"#;
    let obj = parse_manifest_object(raw).unwrap();
    let map = setting_map(&obj, "m");
    let keys: Vec<&str> = map.iter().map(|(k, _)| k.as_str()).collect();
    assert_eq!(keys, ["a", "b", "c"]);
    let written = edit_setting_map(&obj, "m", map).unwrap().unwrap();
    let parsed = parsed_json(&written);
    assert_eq!(parsed["pnpm"]["m"].to_string(), r#"{"a":1,"b":3,"c":4}"#);
    assert!(parsed.get("aube").is_none());
    assert!(written.ends_with("}\n"));
}

#[test]
fn an_empty_setting_is_dropped() {
    let raw = r#"{"name":"x","aube":{"m":{"a":1}},"pnpm":{"k":1,"m":{}}}"#;
    let obj = parse_manifest_object(raw).unwrap();
    let written = edit_setting_map(&obj, "m", Vec::new()).unwrap().unwrap();
    assert_eq!(
        written,
        "{\n  \"name\": \"x\",\n  \"pnpm\": {\n    \"k\": 1\n  }\n}\n"
    );
}

#[test]
fn a_namespace_that_is_no_object_is_refused() {
    let entries = vec![("a".to_string(), Json::Bool(true))];
    let err = upsert_setting_entries(r#"{"pnpm": 1}"#, "m", &entries).unwrap_err();
    assert_eq!(err.message(), "`pnpm` is not an object");
    let err = upsert_setting_entries("[]", "m", &entries).unwrap_err();
    assert_eq!(err, EditError::NotAnObject);
    assert_eq!(err.message(), "package.json is not an object");
    let err = upsert_setting_entries("{", "m", &entries).unwrap_err();
    assert!(matches!(err, EditError::Parse(_)));
}

#[test]
fn settings_are_written_only_where_they_change() {
    let raw = r#"{"pnpm":{"m":{"a":true}}}"#;
    let entries = vec![("a".to_string(), Json::Bool(true))];
    assert_eq!(upsert_setting_entries(raw, "m", &entries).unwrap(), None);
    let entries = vec![("a".to_string(), plain(&serde_json::Value::from(2.5)))];
    let written = upsert_setting_entries(raw, "m", &entries).unwrap().unwrap();
    assert_eq!(parsed_json(&written)["pnpm"]["m"]["a"], 2.5);
    assert_eq!(upsert_setting_entries(&written, "m", &entries).unwrap(), None);
}

#[test]
fn setting_entries_are_removed_from_both_namespaces() {
    let raw = r#"{"pnpm":{"m":{"a":1}},"z":0,"aube":{"m":{"a":2,"b":3}}}"#;
    let (existed, written) = remove_setting_entry(raw, "m", "a").unwrap();
    assert!(existed);
    let written = written.unwrap();
    let parsed = parsed_json(&written);
    assert!(parsed.get("pnpm").is_none());
    assert_eq!(parsed["aube"]["m"].to_string(), r#"{"b":3}"#);
    assert_eq!(parsed["z"], 0);
    assert_eq!(remove_setting_entry(&written, "m", "a").unwrap(), (false, None));
}

#[test]
fn map_entries_go_to_the_target() {
    let yaml = || Yaml::Bool(true);
    let json = || Json::Bool(true);
    let manifest = ConfigWriteTarget::PackageJson;
    let written = upsert_map_entry(&manifest, "{}", "m", "k", yaml(), json()).unwrap().unwrap();
    assert_eq!(parsed_json(&written)["aube"]["m"]["k"], true);
    let file = ConfigWriteTarget::WorkspaceYaml("aube-workspace.yaml".to_string());
    let written = upsert_map_entry(&file, "a: 1\n", "m", "k", yaml(), json()).unwrap().unwrap();
    assert_eq!(written, "a: 1\nm:\n  k: true\n");
    let err = upsert_map_entry(&manifest, "1", "m", "k", yaml(), json()).unwrap_err();
    assert!(matches!(err, ConfigEditError::Manifest(_)));
    let err = upsert_map_entry(&file, "m: 1\n", "m", "k", yaml(), json()).unwrap_err();
    assert_eq!(err.message(), "`m` must be a mapping");
}

fn removal(key: &str) -> Vec<Edit> {
    vec![Edit::Patch(YamlPatch { route: names(&[key]), replacement: None })]
}

fn nested_maps(levels: usize) -> String {
    let mut out = String::from("old: 1\n");
    for i in 1..levels {
        out.push_str(&" ".repeat(i - 1));
        out.push_str("k:\n");
    }
    out.push_str(&" ".repeat(levels - 1));
    out.push_str("k: v\n");
    out
}

#[test]
fn texts_that_nest_too_deeply_are_not_edited() {
    let run = |n: usize| format!("old: 1\nkept:\n  {}x\n", "- ".repeat(n));
    let err = apply_edits(&run(260), removal("old")).unwrap_err();
    assert_eq!(err, YamlEditError::TooDeep);
    assert_eq!(err.message(), "workspace yaml is nested too deeply to edit");
    let err = apply_edits(&nested_maps(260), removal("old")).unwrap_err();
    assert_eq!(err, YamlEditError::TooDeep);
    let edited = apply_edits(&run(200), removal("old")).unwrap();
    assert_eq!(edited, format!("kept:\n  {}x\n", "- ".repeat(200)));
    let edited = apply_edits(&nested_maps(60), removal("old")).unwrap();
    assert_eq!(edited, nested_maps(60)["old: 1\n".len()..]);
}

#[test]
fn texts_may_have_any_number_of_entries() {
    let mut source = String::from("old: 1\noverrides:\n");
    for i in 0..2000 {
        source.push_str(&format!("  pkg{i}: 1.0.{i}\n"));
    }
    source.push_str("packages:\n");
    for i in 0..2000 {
        source.push_str(&format!("  - 'packages/p{i}'\n"));
    }
    let edited = apply_edits(&source, removal("old")).unwrap();
    assert_eq!(edited, source["old: 1\n".len()..]);
    let written =
        upsert_workspace_patched_dependency(Some(&source), "a@1.0.0", "p.patch").unwrap().unwrap();
    assert_eq!(text_at(&written, &["patchedDependencies"], "a@1.0.0"), Some("p.patch".to_string()));
    assert_eq!(text_at(&written, &["overrides"], "pkg7"), Some("1.0.7".to_string()));
}

#[test]
fn values_that_nest_too_deeply_are_not_written() {
    let mut value = serde_yaml::Value::from("x");
    for _ in 0..260 {
        let mut outer = serde_yaml::Mapping::new();
        outer.insert("k".into(), value);
        value = serde_yaml::Value::Mapping(outer);
    }
    let patch = YamlPatch { route: names(&["a"]), replacement: Some(value) };
    let err = apply_edits("a: 1\n", vec![Edit::Patch(patch)]).unwrap_err();
    assert_eq!(err, YamlEditError::TooDeep);
    let lines = "- ".repeat(260) + "x\ny";
    let patch = YamlPatch { route: names(&["a"]), replacement: Some(lines.as_str().into()) };
    let err = apply_edits("a: 1\n", vec![Edit::Patch(patch)]).unwrap_err();
    assert_eq!(err, YamlEditError::TooDeep);
}

fn next(state: &mut u64) -> u64 {
    *state ^= *state << 13;
    *state ^= *state >> 7;
    *state ^= *state << 17;
    *state
}

#[test]
fn broken_texts_are_looked_at_without_harm() {
    let parts = ["- ", "? ", "a: ", "a:", "- ", ": ", "&x ", "!t ", "'q': ", "[", "] ", "|", "# c"];
    let mut state: u64 = 7919;
    let mut refused = 0;
    let mut looked_at = 0;
    for _ in 0..300 {
        let mut source = String::from("old: 1\n");
        let widest = 4 + next(&mut state) % 40;
        let most = 1 + next(&mut state) % 9;
        let mut column = 0;
        for _ in 0..60 + next(&mut state) % 200 {
            column = (column + next(&mut state) % 3).min(widest);
            if next(&mut state) % 6 == 0 {
                column = next(&mut state) % widest;
            }
            source.push_str(&" ".repeat(column as usize));
            for _ in 0..1 + next(&mut state) % most {
                source.push_str(parts[(next(&mut state) % parts.len() as u64) as usize]);
            }
            source.push('\n');
        }
        match apply_edits(&source, removal("old")) {
            Err(YamlEditError::TooDeep) => refused += 1,
            _ => looked_at += 1,
        }
    }
    assert!(refused > 10, "{refused}");
    assert!(looked_at > 100, "{looked_at}");
}
