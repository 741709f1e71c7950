//! The settings of a `package.json`.
use aube_lockfile::json::{compact_text, get_value, Json};
use aube_lockfile::manifest::parse_error::{
    line_col_to_byte_offset, parse_json, parse_yaml, strip_bom, ParseError,
};
use aube_lockfile::manifest::settings::{is_valid_selector_key, AllowBuildRaw};
use aube_lockfile::manifest::workspace::{
    effective_ignored_optional_dependencies, effective_supported_architectures,
    SupportedArchitectures, WorkspaceConfig,
};
use aube_lockfile::manifest::{
    deps_tolerant, engines_tolerant, scripts_tolerant, BundledDependencies, PackageJson,
    UpdateConfig, Workspaces,
};
use aube_lockfile::strmap::{Dup, StrMap};
use aube_lockfile::yaml::{Yaml, YamlFailure};
use std::collections::BTreeMap;

fn field<'a>(v: &'a Json, key: &str) -> Option<&'a Json> {
    v.as_object().and_then(|e| get_value(e, key))
}

fn texts(v: &Json) -> Vec<String> {
    let items = v.as_array().expect("a list");
    items.iter().map(|i| i.as_str().expect("a string").clone()).collect()
}

fn strings(v: &Json) -> StrMap<String> {
    deps_tolerant(&Some(v.dup()))
}

fn bundled(v: &Json) -> BundledDependencies {
    match v {
        Json::Bool(b) => BundledDependencies::All(*b),
        other => BundledDependencies::List(texts(other)),
    }
}

fn workspaces(v: &Json) -> Workspaces {
    match v {
        Json::String(s) => Workspaces::String(s.clone()),
        Json::Array(_) => Workspaces::Array(texts(v)),
        _ => {
            let mut catalogs = StrMap::new();
            if let Some(Json::Object(entries)) = field(v, "catalogs") {
                for (k, c) in entries {
                    catalogs.insert(k.clone(), strings(c));
                }
            }
            Workspaces::Object {
                packages: field(v, "packages").map(texts).unwrap_or_default(),
                nohoist: field(v, "nohoist").map(texts).unwrap_or_default(),
                catalog: field(v, "catalog").map(strings).unwrap_or_else(StrMap::new),
                catalogs,
            }
        }
    }
}

fn parse(json: &str) -> PackageJson {
    let doc = parse_json(json).unwrap();
    let mut p = PackageJson::default();
    for (k, v) in doc.as_object().unwrap() {
        let value = Some(v.dup());
        match k.as_str() {
            "name" => p.name = v.as_str().cloned(),
            "version" => p.version = v.as_str().cloned(),
            "dependencies" => p.dependencies = deps_tolerant(&value),
            "devDependencies" => p.dev_dependencies = deps_tolerant(&value),
            "peerDependencies" => p.peer_dependencies = deps_tolerant(&value),
            "optionalDependencies" => p.optional_dependencies = deps_tolerant(&value),
            "scripts" => p.scripts = scripts_tolerant(&value),
            "engines" => p.engines = engines_tolerant(&value).unwrap(),
            "bundledDependencies" | "bundleDependencies" => {
                p.bundled_dependencies = Some(bundled(v))
            }
            "workspaces" => p.workspaces = Some(workspaces(v)),
            "updateConfig" => {
                p.update_config = Some(UpdateConfig {
                    ignore_dependencies: field(v, "ignoreDependencies").map(texts).unwrap(),
                })
            }
            _ => p.extra.insert(k.clone(), v.dup()),
        }
    }
    p
}

fn yaml_field<'a>(v: &'a Yaml, key: &str) -> Option<&'a Yaml> {
    v.as_mapping().and_then(|m| aube_lockfile::yaml::get_value(m, key))
}

fn yaml_texts(v: Option<&Yaml>) -> Vec<String> {
    match v {
        Some(Yaml::Sequence(items)) => {
            items.iter().map(|i| i.as_str().expect("a string").clone()).collect()
        }
        _ => Vec::new(),
    }
}

fn workspace(yaml: &str) -> WorkspaceConfig {
    let doc = parse_yaml(yaml).unwrap();
    let mut allow_builds = StrMap::new();
    if let Some(m) = yaml_field(&doc, "allowBuilds").and_then(|v| v.as_mapping()) {
        for (k, v) in m {
            allow_builds.insert(k.as_str().expect("a string").clone(), v.dup());
        }
    }
    WorkspaceConfig {
        allow_builds,
        supported_architectures: yaml_field(&doc, "supportedArchitectures").map(|v| {
            SupportedArchitectures {
                os: yaml_texts(yaml_field(v, "os")),
                cpu: yaml_texts(yaml_field(v, "cpu")),
                libc: yaml_texts(yaml_field(v, "libc")),
            }
        }),
        ignored_optional_dependencies: yaml_texts(yaml_field(
            &doc,
            "ignoredOptionalDependencies",
        )),
        ..Default::default()
    }
}

#[test]
fn engines_legacy_array_form_parses_as_empty_map() {
    let p = parse(r#"{"name":"x","engines":["node >=0.6.0"]}"#);
    assert!(p.engines.is_empty());
}

#[test]
fn engines_legacy_string_form_parses_as_empty_map() {
    let p = parse(r#"{"name":"x","engines":"node >=0.6.0"}"#);
    assert!(p.engines.is_empty());
}

#[test]
fn engines_null_is_treated_as_empty() {
    let p = parse(r#"{"name":"x","engines":null}"#);
    assert!(p.engines.is_empty());
}

#[test]
fn engines_modern_map_form_still_parses() {
    let p = parse(r#"{"name":"x","engines":{"node":">=18.0.0","npm":">=9"}}"#);
    assert_eq!(p.engines.get("node").unwrap(), ">=18.0.0");
    assert_eq!(p.engines.get("npm").unwrap(), ">=9");
}

#[test]
fn engines_missing_field_is_empty() {
    let p = parse(r#"{"name":"x"}"#);
    assert!(p.engines.is_empty());
}

#[test]
fn line_col_offset_single_line_col_one() {
    assert_eq!(line_col_to_byte_offset("{}", 1, 1), 0);
}

#[test]
fn line_col_offset_multiline_line_two() {
    assert_eq!(line_col_to_byte_offset("a\nbc\n", 2, 1), 2);
    assert_eq!(line_col_to_byte_offset("a\nbc\n", 2, 2), 3);
}

#[test]
fn line_col_offset_line_zero_returns_zero() {
    assert_eq!(line_col_to_byte_offset("any", 0, 5), 0);
}

#[test]
fn line_col_offset_column_past_end_clamps() {
    let s = "ab";
    assert_eq!(line_col_to_byte_offset(s, 1, 999), s.len());
}

#[test]
fn line_col_offset_line_past_end_clamps() {
    let s = "a\nb";
    assert_eq!(line_col_to_byte_offset(s, 10, 1), s.len());
}

#[test]
fn line_col_offset_no_trailing_newline() {
    let s = "a\nbc";
    assert_eq!(line_col_to_byte_offset(s, 2, 2), 3);
}

#[test]
fn parse_error_eof_span_stays_in_bounds() {
    let content = r#"{"name":"#.to_string();
    let pe = parse_json(&content).expect_err("truncated JSON must fail");
    let offset: usize = pe.offset;
    let len: usize = pe.len;
    assert!(
        offset + len <= content.len(),
        "span [{offset}, {}) exceeds content.len() {}",
        offset + len,
        content.len()
    );
}

#[test]
fn parse_yaml_attaches_source_span() {
    let content = "packages:\n\t- pkg\n".to_string();
    let Err(pe) = parse_yaml(&content) else {
        panic!("parse_yaml must fail on malformed input");
    };
    let offset: usize = pe.offset;
    let len: usize = pe.len;
    assert!(offset + len <= content.len());
    assert!(offset > 0);
}

#[test]
fn parse_yaml_err_without_location_falls_back_to_empty_span() {
    let content = String::new();
    let yaml_err: yaml_serde::Error =
        yaml_serde::from_value::<BTreeMap<String, String>>(yaml_serde::Value::Bool(true))
            .expect_err("bool cannot coerce to a map");
    assert!(yaml_err.location().is_none());
    let failure = YamlFailure {
        message: yaml_err.to_string(),
        offset: yaml_err.location().map(|l| l.index()),
    };
    let pe = ParseError::from_yaml_err(&content, &failure);
    assert_eq!(pe.offset, 0);
    assert_eq!(pe.len, 0);
}

#[test]
fn engines_map_drops_non_string_values() {
    let p = parse(r#"{"name":"x","engines":{"node":">=18","weird":null,"n":42}}"#);
    assert_eq!(p.engines.get("node").unwrap(), ">=18");
    assert!(!p.engines.contains_key("weird"));
    assert!(!p.engines.contains_key("n"));
}

#[test]
fn scripts_non_string_entries_are_dropped() {
    let p = parse(
        r#"{
                "name":"firefox-profile",
                "scripts": {
                    "test": "grunt travis",
                    "blanket": { "pattern": ["/lib/firefox_profile"] }
                }
            }"#,
    );
    assert_eq!(
        p.scripts.get("test").map(String::as_str),
        Some("grunt travis")
    );
    assert!(!p.scripts.contains_key("blanket"));
}

#[test]
fn scripts_null_is_treated_as_empty() {
    let p = parse(r#"{"name":"x","scripts":null}"#);
    assert!(p.scripts.is_empty());
}

#[test]
fn scripts_non_object_value_is_treated_as_empty() {
    let p = parse(r#"{"name":"x","scripts":"oops"}"#);
    assert!(p.scripts.is_empty());
}

#[test]
fn selector_key_filter_accepts_valid_forms() {
    assert!(is_valid_selector_key("lodash"));
    assert!(is_valid_selector_key("@babel/core"));
    assert!(is_valid_selector_key("foo>bar"));
    assert!(is_valid_selector_key("**/foo"));
    assert!(is_valid_selector_key("lodash@<4.17.21"));
    assert!(is_valid_selector_key("a@1>b@<2"));
}

#[test]
fn selector_key_filter_rejects_empty() {
    assert!(!is_valid_selector_key(""));
}

#[test]
fn overrides_map_collects_top_level() {
    let p = parse(r#"{"overrides": {"lodash": "4.17.21"}}"#);
    assert_eq!(p.overrides_map().get("lodash").unwrap(), "4.17.21");
}

#[test]
fn overrides_map_top_level_wins_over_pnpm_and_resolutions() {
    let p = parse(
        r#"{
                "resolutions": {"lodash": "1.0.0"},
                "pnpm": {"overrides": {"lodash": "2.0.0"}},
                "overrides": {"lodash": "3.0.0"}
            }"#,
    );
    assert_eq!(p.overrides_map().get("lodash").unwrap(), "3.0.0");
}

#[test]
fn overrides_map_merges_disjoint_keys() {
    let p = parse(
        r#"{
                "resolutions": {"a": "1"},
                "pnpm": {"overrides": {"b": "2"}},
                "overrides": {"c": "3"}
            }"#,
    );
    let m = p.overrides_map();
    assert_eq!(m.get("a").unwrap(), "1");
    assert_eq!(m.get("b").unwrap(), "2");
    assert_eq!(m.get("c").unwrap(), "3");
}

#[test]
fn overrides_map_preserves_advanced_selector_keys() {
    let p = parse(
        r#"{
                "overrides": {
                    "lodash": "4.17.21",
                    "foo>bar": "1.0.0",
                    "**/baz": "1.0.0",
                    "qux@<2": "1.0.0"
                }
            }"#,
    );
    let m = p.overrides_map();
    assert_eq!(m.len(), 4);
    assert!(m.contains_key("lodash"));
    assert!(m.contains_key("foo>bar"));
    assert!(m.contains_key("**/baz"));
    assert!(m.contains_key("qux@<2"));
}

#[test]
fn overrides_map_supports_npm_alias_value() {
    let p = parse(r#"{"overrides": {"foo": "npm:bar@^2"}}"#);
    assert_eq!(p.overrides_map().get("foo").unwrap(), "npm:bar@^2");
}

#[test]
fn package_extensions_top_level_wins_over_pnpm() {
    let p = parse(
        r#"{
                "pnpm": {"packageExtensions": {"foo": {"dependencies": {"a": "1"}}}},
                "packageExtensions": {"foo": {"dependencies": {"a": "2"}}}
            }"#,
    );
    assert_eq!(
        p.package_extensions()
            .get("foo")
            .and_then(|v| field(v, "dependencies"))
            .and_then(|v| field(v, "a"))
            .and_then(|v| v.as_str())
            .map(|s| s.as_str()),
        Some("2")
    );
}

#[test]
fn update_ignore_dependencies_merges_top_level_and_pnpm() {
    let p = parse(
        r#"{
                "pnpm": {"updateConfig": {"ignoreDependencies": ["a"]}},
                "updateConfig": {"ignoreDependencies": ["b"]}
            }"#,
    );
    assert_eq!(p.update_ignore_dependencies(), vec!["a", "b"]);
}

#[test]
fn overrides_map_skips_object_values() {
    let p = parse(r#"{"overrides": {"foo": {"bar": "1.0.0"}}}"#);
    assert!(p.overrides_map().is_empty());
}

#[test]
fn resolve_override_refs_substitutes_from_dependencies() {
    let p = parse(
        r#"{
                "dependencies": {"semver": "^7.5.2"},
                "overrides": {"semver@<7.5.2": "$semver"}
            }"#,
    );
    let mut m = p.overrides_map();
    let unresolved = p.resolve_override_refs(&mut m);
    assert!(unresolved.is_empty());
    assert_eq!(m.get("semver@<7.5.2").unwrap(), "^7.5.2");
}

#[test]
fn resolve_override_refs_checks_dev_and_optional() {
    let p = parse(
        r#"{
                "devDependencies": {"a": "1.0.0"},
                "optionalDependencies": {"b": "2.0.0"},
                "overrides": {"a": "$a", "b": "$b"}
            }"#,
    );
    let mut m = p.overrides_map();
    let unresolved = p.resolve_override_refs(&mut m);
    assert!(unresolved.is_empty());
    assert_eq!(m.get("a").unwrap(), "1.0.0");
    assert_eq!(m.get("b").unwrap(), "2.0.0");
}

#[test]
fn resolve_override_refs_drops_unresolved() {
    let p = parse(
        r#"{
                "dependencies": {"semver": "^7.5.2"},
                "overrides": {
                    "semver@<7.5.2": "$semver",
                    "cacheable-request@<10": "$cacheable-request"
                }
            }"#,
    );
    let mut m = p.overrides_map();
    let unresolved = p.resolve_override_refs(&mut m);
    assert_eq!(unresolved, vec!["cacheable-request@<10".to_string()]);
    assert_eq!(m.get("semver@<7.5.2").unwrap(), "^7.5.2");
    assert!(!m.contains_key("cacheable-request@<10"));
}

#[test]
fn resolve_override_refs_passes_non_dollar_through() {
    let p = parse(
        r#"{
                "dependencies": {"foo": "1.0.0"},
                "overrides": {"foo": "2.0.0", "bar": "3.0.0"}
            }"#,
    );
    let mut m = p.overrides_map();
    let unresolved = p.resolve_override_refs(&mut m);
    assert!(unresolved.is_empty());
    assert_eq!(m.get("foo").unwrap(), "2.0.0");
    assert_eq!(m.get("bar").unwrap(), "3.0.0");
}

#[test]
fn resolve_override_refs_ignores_peer_dependencies() {
    let p = parse(
        r#"{
                "peerDependencies": {"react": "^18"},
                "overrides": {"react": "$react"}
            }"#,
    );
    let mut m = p.overrides_map();
    let unresolved = p.resolve_override_refs(&mut m);
    assert_eq!(unresolved, vec!["react".to_string()]);
    assert!(m.is_empty());
}

#[test]
fn parses_bundled_dependencies_list() {
    let p = parse(r#"{"name":"x","bundledDependencies":["foo","bar"]}"#);
    let deps = StrMap::new();
    let names = p.bundled_dependencies.as_ref().unwrap().names(&deps);
    assert_eq!(names, vec!["foo", "bar"]);
}

#[test]
fn accepts_legacy_bundle_dependencies_alias() {
    let p = parse(r#"{"name":"x","bundleDependencies":["foo"]}"#);
    assert!(matches!(
        p.bundled_dependencies,
        Some(BundledDependencies::List(_))
    ));
}

#[test]
fn bundle_true_means_all_production_deps() {
    let p =
        parse(r#"{"name":"x","dependencies":{"a":"1","b":"2"},"bundledDependencies":true}"#);
    let names = p
        .bundled_dependencies
        .as_ref()
        .unwrap()
        .names(&p.dependencies);
    assert_eq!(names, vec!["a", "b"]);
}

#[test]
fn peer_dependency_rules_accessors_read_nested_pnpm_block() {
    let p = parse(
        r#"{
                "name":"x",
                "pnpm": {
                    "peerDependencyRules": {
                        "ignoreMissing": ["react", "react-dom"],
                        "allowAny": ["@types/*"],
                        "allowedVersions": {
                            "react": "^18.0.0",
                            "styled-components>react": "^17.0.0",
                            "ignored": 42
                        }
                    }
                }
            }"#,
    );
    assert_eq!(
        p.pnpm_peer_dependency_rules_ignore_missing(),
        vec!["react".to_string(), "react-dom".to_string()],
    );
    assert_eq!(
        p.pnpm_peer_dependency_rules_allow_any(),
        vec!["@types/*".to_string()],
    );
    let allowed = p.pnpm_peer_dependency_rules_allowed_versions();
    assert_eq!(allowed.get("react").map(String::as_str), Some("^18.0.0"));
    assert_eq!(
        allowed.get("styled-components>react").map(String::as_str),
        Some("^17.0.0"),
    );
    assert!(!allowed.contains_key("ignored"));
}

#[test]
fn peer_dependency_rules_accessors_empty_when_missing() {
    let p = parse(r#"{"name":"x"}"#);
    assert!(p.pnpm_peer_dependency_rules_ignore_missing().is_empty());
    assert!(p.pnpm_peer_dependency_rules_allow_any().is_empty());
    assert!(p.pnpm_peer_dependency_rules_allowed_versions().is_empty());
}

#[test]
fn aube_namespace_read_when_pnpm_missing() {
    let p = parse(
        r#"{
                "aube": {
                    "onlyBuiltDependencies": ["esbuild"],
                    "neverBuiltDependencies": ["sharp"],
                    "ignoredOptionalDependencies": ["fsevents"],
                    "patchedDependencies": {"lodash@4.17.21": "patches/lodash.patch"},
                    "catalog": {"react": "^18.0.0"},
                    "catalogs": {"legacy": {"react": "^17.0.0"}},
                    "supportedArchitectures": {"os": ["linux", "win32"], "cpu": ["x64"]},
                    "overrides": {"lodash": "4.17.21"},
                    "packageExtensions": {"foo": {"dependencies": {"a": "1"}}},
                    "allowedDeprecatedVersions": {"request": "*"},
                    "peerDependencyRules": {
                        "ignoreMissing": ["react-native"],
                        "allowAny": ["@types/*"],
                        "allowedVersions": {"react": "^18.0.0"}
                    },
                    "updateConfig": {"ignoreDependencies": ["typescript"]},
                    "allowBuilds": {"esbuild": true}
                }
            }"#,
    );
    assert_eq!(p.pnpm_only_built_dependencies(), vec!["esbuild"]);
    assert_eq!(p.pnpm_never_built_dependencies(), vec!["sharp"]);
    assert!(p.pnpm_ignored_optional_dependencies().contains("fsevents"));
    assert_eq!(
        p.pnpm_patched_dependencies().get("lodash@4.17.21").unwrap(),
        "patches/lodash.patch",
    );
    assert_eq!(p.pnpm_catalog().get("react").unwrap(), "^18.0.0");
    assert_eq!(
        p.pnpm_catalogs()
            .get("legacy")
            .and_then(|c| c.get("react"))
            .unwrap(),
        "^17.0.0",
    );
    let (os, cpu, libc) = p.pnpm_supported_architectures();
    assert_eq!(os, vec!["linux", "win32"]);
    assert_eq!(cpu, vec!["x64"]);
    assert!(libc.is_empty());
    assert_eq!(p.overrides_map().get("lodash").unwrap(), "4.17.21");
    assert!(p.package_extensions().contains_key("foo"));
    assert_eq!(p.allowed_deprecated_versions().get("request").unwrap(), "*",);
    assert_eq!(
        p.pnpm_peer_dependency_rules_ignore_missing(),
        vec!["react-native".to_string()],
    );
    assert_eq!(
        p.pnpm_peer_dependency_rules_allow_any(),
        vec!["@types/*".to_string()],
    );
    assert_eq!(
        p.pnpm_peer_dependency_rules_allowed_versions()
            .get("react")
            .unwrap(),
        "^18.0.0",
    );
    assert_eq!(p.update_ignore_dependencies(), vec!["typescript"]);
    assert!(matches!(
        p.pnpm_allow_builds().get("esbuild"),
        Some(AllowBuildRaw::Bool(true)),
    ));
}

#[test]
fn trusted_dependencies_reads_top_level_bun_format() {
    let p = parse(
        r#"{
                "trustedDependencies": ["esbuild", "sharp", "esbuild"]
            }"#,
    );
    assert_eq!(p.trusted_dependencies(), vec!["esbuild", "sharp"]);
}

#[test]
fn trusted_dependencies_absent_returns_empty() {
    let p = parse(r#"{}"#);
    assert!(p.trusted_dependencies().is_empty());
}

#[test]
fn trusted_dependencies_wrong_shape_returns_empty() {
    let p = parse(r#"{"trustedDependencies": {"esbuild": true}}"#);
    assert!(p.trusted_dependencies().is_empty());
}

#[test]
fn aube_overrides_pnpm_on_key_conflict() {
    let p = parse(
        r#"{
                "pnpm": {
                    "catalog": {"react": "^17.0.0", "lodash": "^4.0.0"},
                    "patchedDependencies": {"foo@1": "pnpm.patch"},
                    "allowedDeprecatedVersions": {"request": "^2.0.0"},
                    "overrides": {"lodash": "pnpm-value"}
                },
                "aube": {
                    "catalog": {"react": "^18.0.0"},
                    "patchedDependencies": {"foo@1": "aube.patch"},
                    "allowedDeprecatedVersions": {"request": "^3.0.0"},
                    "overrides": {"lodash": "aube-value"}
                }
            }"#,
    );
    let catalog = p.pnpm_catalog();
    assert_eq!(catalog.get("react").unwrap(), "^18.0.0");
    assert_eq!(catalog.get("lodash").unwrap(), "^4.0.0");
    assert_eq!(
        p.pnpm_patched_dependencies().get("foo@1").unwrap(),
        "aube.patch",
    );
    assert_eq!(
        p.allowed_deprecated_versions().get("request").unwrap(),
        "^3.0.0",
    );
    assert_eq!(p.overrides_map().get("lodash").unwrap(), "aube-value");
}

#[test]
fn namespaces_beat_top_level_deprecations() {
    let p = parse(
        r#"{
                "allowedDeprecatedVersions": {"request": "1", "a": "1", "b": "1"},
                "pnpm": {"allowedDeprecatedVersions": {"request": "2", "a": "2"}},
                "aube": {"allowedDeprecatedVersions": {"request": "3"}}
            }"#,
    );
    let allowed = p.allowed_deprecated_versions();
    assert_eq!(allowed.get("request").unwrap(), "3");
    assert_eq!(allowed.get("a").unwrap(), "2");
    assert_eq!(allowed.get("b").unwrap(), "1");
}

#[test]
fn top_level_overrides_still_beat_aube_namespace() {
    let p = parse(
        r#"{
                "pnpm": {"overrides": {"lodash": "1"}},
                "aube": {"overrides": {"lodash": "2"}},
                "overrides": {"lodash": "3"}
            }"#,
    );
    assert_eq!(p.overrides_map().get("lodash").unwrap(), "3");
}

#[test]
fn aube_supported_architectures_merges_with_pnpm() {
    let p = parse(
        r#"{
                "pnpm": {"supportedArchitectures": {"os": ["linux"], "cpu": ["x64"]}},
                "aube": {"supportedArchitectures": {"os": ["win32"], "libc": ["glibc"]}}
            }"#,
    );
    let (os, cpu, libc) = p.pnpm_supported_architectures();
    assert_eq!(os, vec!["linux", "win32"]);
    assert_eq!(cpu, vec!["x64"]);
    assert_eq!(libc, vec!["glibc"]);
}

#[test]
fn aube_list_configs_union_with_pnpm() {
    let p = parse(
        r#"{
                "pnpm": {
                    "onlyBuiltDependencies": ["esbuild"],
                    "neverBuiltDependencies": ["sharp"],
                    "ignoredOptionalDependencies": ["fsevents"],
                    "peerDependencyRules": {
                        "ignoreMissing": ["react"],
                        "allowAny": ["@types/a"]
                    }
                },
                "aube": {
                    "onlyBuiltDependencies": ["swc"],
                    "neverBuiltDependencies": ["node-gyp"],
                    "ignoredOptionalDependencies": ["dtrace-provider"],
                    "peerDependencyRules": {
                        "ignoreMissing": ["react-native"],
                        "allowAny": ["@types/b"]
                    }
                }
            }"#,
    );
    assert_eq!(p.pnpm_only_built_dependencies(), vec!["esbuild", "swc"]);
    assert_eq!(p.pnpm_never_built_dependencies(), vec!["sharp", "node-gyp"]);
    let ignored = p.pnpm_ignored_optional_dependencies();
    assert!(ignored.contains("fsevents"));
    assert!(ignored.contains("dtrace-provider"));
    assert_eq!(
        p.pnpm_peer_dependency_rules_ignore_missing(),
        vec!["react".to_string(), "react-native".to_string()],
    );
    assert_eq!(
        p.pnpm_peer_dependency_rules_allow_any(),
        vec!["@types/a".to_string(), "@types/b".to_string()],
    );
}

#[test]
fn effective_supported_architectures_unions_manifest_and_workspace() {
    let p = parse(
        r#"{
                "pnpm": {
                    "supportedArchitectures": {
                        "os": ["current", "linux"],
                        "cpu": ["x64"]
                    }
                }
            }"#,
    );
    let ws = workspace(r#"
supportedArchitectures:
  os: ["win32"]
  cpu: ["x64", "arm64"]
  libc: ["glibc"]
"#);
    let (os, cpu, libc) = effective_supported_architectures(&p, &ws);
    assert_eq!(os, vec!["current", "linux", "win32"]);
    assert_eq!(cpu, vec!["x64", "arm64"]);
    assert_eq!(libc, vec!["glibc"]);
}

#[test]
fn effective_supported_architectures_works_without_either_source() {
    let p = parse(r#"{}"#);
    let ws = workspace("{}");
    let (os, cpu, libc) = effective_supported_architectures(&p, &ws);
    assert!(os.is_empty() && cpu.is_empty() && libc.is_empty());
}

#[test]
fn effective_ignored_optional_dependencies_unions_manifest_and_workspace() {
    let p = parse(
        r#"{
                "pnpm": { "ignoredOptionalDependencies": ["fsevents"] }
            }"#,
    );
    let ws = workspace(r#"
ignoredOptionalDependencies:
  - dtrace-provider
  - fsevents
"#);
    let merged = effective_ignored_optional_dependencies(&p, &ws);
    assert!(merged.contains("fsevents"));
    assert!(merged.contains("dtrace-provider"));
    assert_eq!(merged.len(), 2);
}

#[test]
fn aube_catalogs_merge_per_key_within_named_catalog() {
    let p = parse(
        r#"{
                "pnpm": {
                    "catalogs": {
                        "default": {"react": "^17.0.0", "lodash": "^4.0.0"},
                        "legacy": {"webpack": "^4.0.0"}
                    }
                },
                "aube": {
                    "catalogs": {
                        "default": {"react": "^18.0.0", "vite": "^5.0.0"}
                    }
                }
            }"#,
    );
    let cats = p.pnpm_catalogs();
    let default = cats.get("default").expect("default catalog present");
    assert_eq!(default.get("react").unwrap(), "^18.0.0");
    assert_eq!(default.get("lodash").unwrap(), "^4.0.0");
    assert_eq!(default.get("vite").unwrap(), "^5.0.0");
    let legacy = cats.get("legacy").expect("legacy catalog preserved");
    assert_eq!(legacy.get("webpack").unwrap(), "^4.0.0");
}

#[test]
fn aube_list_configs_dedupe_duplicates_across_namespaces() {
    let p = parse(
        r#"{
                "pnpm": {
                    "onlyBuiltDependencies": ["esbuild", "sharp"],
                    "neverBuiltDependencies": ["evil"],
                    "peerDependencyRules": {
                        "ignoreMissing": ["react"],
                        "allowAny": ["@types/a"]
                    }
                },
                "aube": {
                    "onlyBuiltDependencies": ["esbuild", "swc"],
                    "neverBuiltDependencies": ["evil", "node-gyp"],
                    "peerDependencyRules": {
                        "ignoreMissing": ["react", "react-native"],
                        "allowAny": ["@types/a", "@types/b"]
                    }
                }
            }"#,
    );
    assert_eq!(
        p.pnpm_only_built_dependencies(),
        vec!["esbuild", "sharp", "swc"],
    );
    assert_eq!(p.pnpm_never_built_dependencies(), vec!["evil", "node-gyp"]);
    assert_eq!(
        p.pnpm_peer_dependency_rules_ignore_missing(),
        vec!["react".to_string(), "react-native".to_string()],
    );
    assert_eq!(
        p.pnpm_peer_dependency_rules_allow_any(),
        vec!["@types/a".to_string(), "@types/b".to_string()],
    );
}

#[test]
fn aube_update_config_merges_with_pnpm_and_top_level() {
    let p = parse(
        r#"{
                "pnpm": {"updateConfig": {"ignoreDependencies": ["a"]}},
                "aube": {"updateConfig": {"ignoreDependencies": ["b"]}},
                "updateConfig": {"ignoreDependencies": ["c"]}
            }"#,
    );
    assert_eq!(p.update_ignore_dependencies(), vec!["a", "b", "c"]);
}

#[test]
fn a_byte_order_mark_is_skipped() {
    assert_eq!(strip_bom("\u{feff}{}"), "{}");
    assert_eq!(strip_bom("{}"), "{}");
    assert!(parse_json("\u{feff}{\"a\":1}").is_ok());
}

#[test]
fn comments_in_a_manifest_get_their_own_message() {
    let err = parse_json("  // note\n{}").unwrap_err();
    assert_eq!(
        err.message,
        "package.json cannot contain JSON comments. Remove any `//` or `/* */` lines. aube does not support JSONC for package.json"
    );
    assert_eq!((err.offset, err.len), (0, 1));
    let err = parse_json("{\n  oops\n}").unwrap_err();
    assert_eq!((err.offset, err.len), (4, 1));
    assert!(err.message.contains("line 2 column 3"));
}

#[test]
fn offsets_count_bytes() {
    assert_eq!(line_col_to_byte_offset("é\nx", 2, 1), 3);
    assert_eq!(line_col_to_byte_offset("a\n\n", 3, 1), 3);
    assert_eq!(line_col_to_byte_offset("ab", 1, 0), 0);
}

#[test]
fn numbers_and_booleans_are_no_engines() {
    let number = parse_json("5").unwrap();
    assert!(engines_tolerant(&Some(number)).is_err());
    assert!(engines_tolerant(&Some(Json::Bool(true))).is_err());
    assert!(engines_tolerant(&None).unwrap().is_empty());
}

#[test]
fn allow_builds_keep_other_values_as_text() {
    let p = parse(
        r#"{
            "pnpm": {"allowBuilds": {"a": true, "b": "set this to true or false", "c": {"x": 1}}},
            "aube": {"allowBuilds": {"a": false}}
        }"#,
    );
    let m = p.pnpm_allow_builds();
    assert_eq!(m.get("a"), Some(&AllowBuildRaw::Bool(false)));
    assert_eq!(
        m.get("b"),
        Some(&AllowBuildRaw::Other("\"set this to true or false\"".to_string()))
    );
    assert_eq!(m.get("c"), Some(&AllowBuildRaw::Other("{\"x\":1}".to_string())));
}

#[test]
fn workspace_values_become_text_without_quotes() {
    let ws = workspace("allowBuilds:\n  a: true\n  b: maybe\n  c: 5\n");
    let m = ws.allow_builds_raw();
    assert_eq!(m.get("a"), Some(&AllowBuildRaw::Bool(true)));
    assert_eq!(m.get("b"), Some(&AllowBuildRaw::Other("maybe".to_string())));
    assert_eq!(m.get("c"), Some(&AllowBuildRaw::Other("5".to_string())));
}

#[test]
fn architectures_may_be_empty() {
    let ws = workspace("supportedArchitectures:\n  os: [linux]\n");
    assert!(!ws.supported_architectures.unwrap().is_empty());
    let ws = workspace("supportedArchitectures: {}\n");
    assert!(ws.supported_architectures.unwrap().is_empty());
}

#[test]
fn injected_dependencies_are_marked() {
    let p = parse(
        r#"{"dependenciesMeta": {"a": {"injected": true}, "b": {"injected": false}, "c": 1}}"#,
    );
    let set = p.dependencies_meta_injected();
    assert!(set.contains("a"));
    assert_eq!(set.len(), 1);
}

#[test]
fn direct_ranges_come_from_three_sections() {
    let p = parse(
        r#"{"dependencies": {"a": "1"}, "devDependencies": {"a": "2", "b": "3"},
            "optionalDependencies": {"c": "4"}, "peerDependencies": {"d": "5"}}"#,
    );
    assert_eq!(p.direct_dependency_range("a"), Some("1"));
    assert_eq!(p.direct_dependency_range("b"), Some("3"));
    assert_eq!(p.direct_dependency_range("c"), Some("4"));
    assert_eq!(p.direct_dependency_range("d"), None);
    let pair = |k: &str, v: &str| (k.to_string(), v.to_string());
    assert_eq!(p.production_dependencies(), vec![pair("a", "1")]);
    assert_eq!(p.all_dependencies(), vec![pair("a", "1"), pair("a", "2"), pair("b", "3")]);
}

#[test]
fn workspaces_have_three_forms() {
    let p = parse(r#"{"workspaces": ["a/*", "b"]}"#);
    assert_eq!(p.workspaces.as_ref().unwrap().patterns(), ["a/*", "b"]);
    let p = parse(r#"{"workspaces": "a/*"}"#);
    assert_eq!(p.workspaces.as_ref().unwrap().patterns(), ["a/*"]);
    assert!(p.workspaces.as_ref().unwrap().catalog().is_empty());
    let p = parse(
        r#"{"workspaces": {"packages": ["x"], "catalog": {"r": "1"}, "catalogs": {"n": {"r": "2"}}}}"#,
    );
    let w = p.workspaces.as_ref().unwrap();
    assert_eq!(w.patterns(), ["x"]);
    assert_eq!(w.catalog().get("r").unwrap(), "1");
    assert_eq!(w.catalogs().get("n").unwrap().get("r").unwrap(), "2");
}

#[test]
fn bundling_nothing_names_nothing() {
    let p = parse(r#"{"dependencies": {"a": "1"}, "bundledDependencies": false}"#);
    assert!(p.bundled_dependencies.as_ref().unwrap().names(&p.dependencies).is_empty());
}

#[test]
fn numbers_survive_a_document() {
    let doc = parse_json("{\"b\":1,\"a\":[1.50,-0,1e3,null]}").unwrap();
    assert_eq!(compact_text(&doc), "{\"b\":1,\"a\":[1.5,-0.0,1000.0,null]}");
}

#[test]
fn overrides_rank_their_places() {
    let p = parse(
        r#"{
            "resolutions": {"a": "yarn", "b": "yarn", "c": "yarn", "d": "yarn", "": "x"},
            "pnpm": {"overrides": {"b": "pnpm", "c": "pnpm", "d": "pnpm"}},
            "aube": {"overrides": {"c": "aube", "d": "aube"}},
            "overrides": {"d": "top"}
        }"#,
    );
    let m = p.overrides_map();
    assert_eq!(m.get("a").unwrap(), "yarn");
    assert_eq!(m.get("b").unwrap(), "pnpm");
    assert_eq!(m.get("c").unwrap(), "aube");
    assert_eq!(m.get("d").unwrap(), "top");
    assert_eq!(m.len(), 4);
}
