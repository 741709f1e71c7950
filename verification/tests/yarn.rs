//! Reading and writing both `yarn.lock` formats.
use aube_lockfile::graph::{DepType, LockedPackage, LockfileGraph};
use aube_lockfile::manifest::PackageJson;
use aube_lockfile::source::LocalSource;
use aube_lockfile::strmap::StrMap;
use aube_lockfile::yaml::{parse_document, same_value};
use aube_lockfile::yarn::berry::{
    berry_spec_candidates, parse_berry_spec, range_has_protocol, split_berry_header,
};
use aube_lockfile::yarn::berry_write::quote_yaml_scalar;
use aube_lockfile::yarn::canonical::{
    build_canonical_map, canonical_key_from_dep_path, child_canonical_key, dep_value_as_version,
};
use aube_lockfile::yarn::classic::{parse_npm_alias_real_name, parse_spec_name};
use aube_lockfile::yarn::skipped::skipped_blocks;
use aube_lockfile::yarn::{is_berry, is_berry_prefix, parse, write_berry, write_classic};
use std::collections::BTreeMap;

fn string_map(pairs: &[(&str, &str)]) -> StrMap<String> {
    let mut m = StrMap::new();
    for (n, r) in pairs {
        m.insert(n.to_string(), r.to_string());
    }
    m
}

fn make_manifest(deps: &[(&str, &str)], dev: &[(&str, &str)]) -> PackageJson {
    PackageJson {
        name: Some("test".to_string()),
        version: Some("1.0.0".to_string()),
        dependencies: string_map(deps),
        dev_dependencies: string_map(dev),
        ..Default::default()
    }
}

#[test]
fn tests_test_parse_spec_name() {
    assert_eq!(parse_spec_name("foo@^1.0.0"), Some("foo".to_string()));
    assert_eq!(parse_spec_name("foo@1.2.3"), Some("foo".to_string()));
    assert_eq!(
        parse_spec_name("@scope/pkg@^1.0.0"),
        Some("@scope/pkg".to_string())
    );
    assert_eq!(parse_spec_name("foo"), None);
}

#[test]
fn tests_test_parse_simple() {
    let content = r#"# yarn lockfile v1

foo@^1.0.0:
  version "1.2.3"
  resolved "https://example.com/foo-1.2.3.tgz"
  integrity sha512-aaa
  dependencies:
    bar "^2.0.0"

bar@^2.0.0:
  version "2.5.0"
  resolved "https://example.com/bar-2.5.0.tgz"
  integrity sha512-bbb
"#;
    let manifest = make_manifest(&[("foo", "^1.0.0")], &[]);
    let graph = parse(content, &manifest).unwrap();

    assert_eq!(graph.packages.len(), 2);
    assert!(graph.packages.contains_key("foo@1.2.3"));
    assert!(graph.packages.contains_key("bar@2.5.0"));

    let foo = graph.packages.get("foo@1.2.3").unwrap();
    assert_eq!(foo.integrity.as_deref(), Some("sha512-aaa"));
    assert_eq!(
        foo.dependencies.get("bar").map(String::as_str),
        Some("bar@2.5.0")
    );

    let root = graph.importers.get(".").unwrap();
    assert_eq!(root.len(), 1);
    assert_eq!(root[0].name, "foo");
    assert_eq!(root[0].dep_path, "foo@1.2.3");
}

#[test]
fn tests_test_parse_scoped_and_multi_spec() {
    let content = r#"# yarn lockfile v1

"@scope/pkg@^1.0.0", "@scope/pkg@^1.1.0":
  version "1.1.0"
  integrity sha512-zzz
"#;
    let manifest = make_manifest(&[("@scope/pkg", "^1.0.0")], &[]);
    let graph = parse(content, &manifest).unwrap();

    assert!(graph.packages.contains_key("@scope/pkg@1.1.0"));
    let root = graph.importers.get(".").unwrap();
    assert_eq!(root[0].name, "@scope/pkg");
    assert_eq!(root[0].dep_path, "@scope/pkg@1.1.0");
}

#[test]
fn test_parse_npm_protocol_alias_transitive() {
    let content = r#"# yarn lockfile v1

"@docusaurus/core@2.1.0":
  version "2.1.0"
  integrity sha512-aaa
  dependencies:
    react-loadable "npm:@docusaurus/react-loadable@5.5.2"

"react-loadable@npm:@docusaurus/react-loadable@5.5.2":
  version "5.5.2"
  integrity sha512-bbb
"#;
    let manifest = make_manifest(&[("@docusaurus/core", "2.1.0")], &[]);
    let graph = parse(content, &manifest).unwrap();

    let aliased = graph
        .packages
        .get("react-loadable@5.5.2")
        .expect("aliased entry should be keyed by the alias dep_path");
    assert_eq!(aliased.name, "react-loadable");
    assert_eq!(aliased.version, "5.5.2");
    assert_eq!(
        aliased.alias_of.as_deref(),
        Some("@docusaurus/react-loadable")
    );
    assert_eq!(aliased.registry_name(), "@docusaurus/react-loadable");

    let core = graph.packages.get("@docusaurus/core@2.1.0").unwrap();
    assert_eq!(
        core.dependencies.get("react-loadable").map(String::as_str),
        Some("react-loadable@5.5.2")
    );
}

#[test]
fn test_parse_npm_protocol_alias_canonical_spec_first() {
    let content = r#"# yarn lockfile v1

"react-loadable@5.5.2", "react-loadable@npm:@docusaurus/react-loadable@5.5.2":
  version "5.5.2"
  integrity sha512-bbb
"#;
    let manifest = make_manifest(&[], &[]);
    let graph = parse(content, &manifest).unwrap();

    let aliased = graph.packages.get("react-loadable@5.5.2").unwrap();
    assert_eq!(
        aliased.alias_of.as_deref(),
        Some("@docusaurus/react-loadable")
    );
}

#[test]
fn test_parse_npm_alias_real_name_helper() {
    assert_eq!(
        parse_npm_alias_real_name("react-loadable@npm:@docusaurus/react-loadable@5.5.2"),
        Some("@docusaurus/react-loadable".to_string())
    );
    assert_eq!(
        parse_npm_alias_real_name("h3-v2@npm:h3@2.0.1-rc.20"),
        Some("h3".to_string())
    );
    assert_eq!(
        parse_npm_alias_real_name("@my-scope/alias@npm:@upstream/pkg@^1.0.0"),
        Some("@upstream/pkg".to_string())
    );
    assert_eq!(parse_npm_alias_real_name("foo@^1.0.0"), None);
    assert_eq!(parse_npm_alias_real_name("@scope/pkg@^1.0.0"), None);
    assert_eq!(parse_npm_alias_real_name("foo@workspace:*"), None);
}

#[test]
fn tests_test_detect_berry_vs_classic() {
    assert!(is_berry("__metadata:\n  version: 6\n"));
    assert!(is_berry("# comment\n__metadata:\n  version: 8\n"));
    assert!(!is_berry(
        "# yarn lockfile v1\n\nfoo@^1.0.0:\n  version \"1.0.0\"\n"
    ));
}

#[test]
fn tests_test_write_roundtrip() {
    let content = r#"# yarn lockfile v1

foo@^1.0.0:
  version "1.2.3"
  integrity sha512-foo
  dependencies:
    bar "^2.0.0"

bar@^2.0.0:
  version "2.5.0"
  integrity sha512-bar
"#;
    let manifest = make_manifest(&[("foo", "^1.0.0")], &[]);
    let graph = parse(content, &manifest).unwrap();

    let written = write_classic(&graph, &manifest);

    let reparsed_manifest = make_manifest(&[], &[]);
    let reparsed = parse(&written, &reparsed_manifest).unwrap();

    assert!(reparsed.packages.contains_key("foo@1.2.3"));
    assert!(reparsed.packages.contains_key("bar@2.5.0"));
    assert_eq!(
        reparsed.packages.get("foo@1.2.3").unwrap().integrity.as_deref(),
        Some("sha512-foo")
    );
    assert_eq!(
        reparsed.packages.get("foo@1.2.3").unwrap()
            .dependencies
            .get("bar")
            .map(String::as_str),
        Some("bar@2.5.0")
    );
}

#[test]
fn tests_test_dev_dep_classification() {
    let content = r#"foo@^1.0.0:
  version "1.0.0"
"#;
    let manifest = make_manifest(&[], &[("foo", "^1.0.0")]);
    let graph = parse(content, &manifest).unwrap();
    let root = graph.importers.get(".").unwrap();
    assert_eq!(root[0].dep_type, DepType::Dev);
}

#[test]
fn tests_test_parse_berry_spec() {
    assert_eq!(
        parse_berry_spec("lodash@npm:^4.17.0"),
        Some(("lodash".to_string(), "npm".to_string(), "^4.17.0".to_string()))
    );
    assert_eq!(
        parse_berry_spec("@types/node@npm:20.1.0"),
        Some(("@types/node".to_string(), "npm".to_string(), "20.1.0".to_string()))
    );
    assert_eq!(
        parse_berry_spec("my-pkg@workspace:."),
        Some(("my-pkg".to_string(), "workspace".to_string(), ".".to_string()))
    );
    assert_eq!(parse_berry_spec("no-protocol"), None);
}

#[test]
fn tests_test_split_berry_header() {
    let specs = split_berry_header("lodash@npm:^4.17.0, lodash@npm:^4.18.0");
    assert_eq!(
        specs,
        vec![
            "lodash@npm:^4.17.0".to_string(),
            "lodash@npm:^4.18.0".to_string()
        ]
    );
    let single = split_berry_header("foo@npm:1.0.0");
    assert_eq!(single, vec!["foo@npm:1.0.0".to_string()]);
}

#[test]
fn tests_test_range_has_protocol() {
    assert!(range_has_protocol("npm:^1.0.0"));
    assert!(range_has_protocol("workspace:*"));
    assert!(range_has_protocol("file:./pkgs/foo"));
    assert!(range_has_protocol("patch:react@^18.0.0#./mypatch.patch"));
    assert!(range_has_protocol("git+ssh://git@github.com/u/r.git"));
    assert!(range_has_protocol("git+https://github.com/u/r.git"));
    assert!(range_has_protocol("git+file:./vendored.git"));
    assert!(!range_has_protocol("^1.0.0"));
    assert!(!range_has_protocol("1.2.3"));
    assert!(!range_has_protocol(">=1.0 <2.0"));
}

#[test]
fn tests_test_parse_berry_simple() {
    let content = r#"# This file is generated by running "yarn install" inside your project.
# Manual changes might be lost - proceed with caution!

__metadata:
  version: 8
  cacheKey: 10c0

"foo@npm:^1.0.0":
  version: 1.2.3
  resolution: "foo@npm:1.2.3"
  dependencies:
    bar: "npm:^2.0.0"
  checksum: 10c0/abcdef
  languageName: node
  linkType: hard

"bar@npm:^2.0.0":
  version: 2.5.0
  resolution: "bar@npm:2.5.0"
  checksum: 10c0/123456
  languageName: node
  linkType: hard
"#;
    let manifest = make_manifest(&[("foo", "^1.0.0")], &[]);
    let graph = parse(content, &manifest).unwrap();

    assert_eq!(graph.packages.len(), 2);
    let foo = graph.packages.get("foo@1.2.3").unwrap();
    assert_eq!(foo.version, "1.2.3");
    assert_eq!(foo.yarn_checksum.as_deref(), Some("10c0/abcdef"));
    assert_eq!(
        foo.dependencies.get("bar").map(String::as_str),
        Some("bar@2.5.0")
    );

    let root = graph.importers.get(".").unwrap();
    assert_eq!(root.len(), 1);
    assert_eq!(root[0].name, "foo");
    assert_eq!(root[0].dep_path, "foo@1.2.3");
}

#[test]
fn tests_test_parse_berry_scoped_and_multi_spec() {
    let content = r#"__metadata:
  version: 8
  cacheKey: 10c0

"@scope/pkg@npm:^1.0.0, @scope/pkg@npm:^1.1.0":
  version: 1.1.0
  resolution: "@scope/pkg@npm:1.1.0"
  checksum: 10c0/zzz
  languageName: node
  linkType: hard
"#;
    let manifest = make_manifest(&[("@scope/pkg", "^1.0.0")], &[]);
    let graph = parse(content, &manifest).unwrap();

    assert!(graph.packages.contains_key("@scope/pkg@1.1.0"));
    let root = graph.importers.get(".").unwrap();
    assert_eq!(root[0].name, "@scope/pkg");
    assert_eq!(root[0].dep_path, "@scope/pkg@1.1.0");
}

#[test]
fn tests_test_parse_berry_skips_workspace_root() {
    let content = r#"__metadata:
  version: 8
  cacheKey: 10c0

"my-project@workspace:.":
  version: 0.0.0-use.local
  resolution: "my-project@workspace:."
  dependencies:
    foo: "npm:^1.0.0"
  languageName: unknown
  linkType: soft

"foo@npm:^1.0.0":
  version: 1.0.0
  resolution: "foo@npm:1.0.0"
  languageName: node
  linkType: hard
"#;
    let manifest = make_manifest(&[("foo", "^1.0.0")], &[]);
    let graph = parse(content, &manifest).unwrap();

    assert_eq!(graph.packages.len(), 1);
    assert!(graph.packages.contains_key("foo@1.0.0"));
    assert!(!graph.packages.contains_key("my-project@0.0.0-use.local"));
}

#[test]
fn tests_test_parse_berry_unquoted_numeric_version() {
    let content = r#"__metadata:
  version: 8
  cacheKey: 10c0

"int-version@npm:5":
  version: 5
  resolution: "int-version@npm:5"
  languageName: node
  linkType: hard

"two-part@npm:1.0":
  version: 1.0
  resolution: "two-part@npm:1.0"
  languageName: node
  linkType: hard
"#;
    let manifest = make_manifest(&[], &[]);
    let graph = parse(content, &manifest).unwrap();

    assert!(graph.packages.contains_key("int-version@5"));
    assert!(graph.packages.contains_key("two-part@1.0"));
    assert_eq!(graph.packages.get("int-version@5").unwrap().version, "5");
    assert_eq!(graph.packages.get("two-part@1.0").unwrap().version, "1.0");
}

#[test]
fn test_parse_berry_typed_dep_values() {
    let content = r#"__metadata:
  version: 8
  cacheKey: 10c0

"foo@npm:^1.0.0":
  version: 1.0.0
  resolution: "foo@npm:1.0.0"
  peerDependencies:
    numeric-peer: 5
    bool-peer: true
  languageName: node
  linkType: hard
"#;
    let manifest = make_manifest(&[], &[]);
    let graph = parse(content, &manifest).unwrap();
    let foo = graph.packages.get("foo@1.0.0").unwrap();
    assert_eq!(
        foo.peer_dependencies
            .get("numeric-peer")
            .map(String::as_str),
        Some("5")
    );
    assert_eq!(
        foo.peer_dependencies.get("bool-peer").map(String::as_str),
        Some("true")
    );
}

#[test]
fn tests_test_parse_berry_http_and_git_protocols() {
    let content = r#"__metadata:
  version: 8
  cacheKey: 10c0

"tarball-pkg@https://example.com/pkg-1.0.0.tgz":
  version: 1.0.0
  resolution: "tarball-pkg@https://example.com/pkg-1.0.0.tgz"
  languageName: node
  linkType: hard

"git-pkg@https://github.com/user/repo.git#commit=abcdef0123456789abcdef0123456789abcdef01":
  version: 2.0.0
  resolution: "git-pkg@https://github.com/user/repo.git#commit=abcdef0123456789abcdef0123456789abcdef01"
  languageName: node
  linkType: hard

"ssh-git-pkg@git+ssh://git@github.com/user/other.git#deadbeef":
  version: 3.0.0
  resolution: "ssh-git-pkg@git+ssh://git@github.com/user/other.git#deadbeef"
  languageName: node
  linkType: hard
"#;
    let manifest = make_manifest(&[], &[]);
    let graph = parse(content, &manifest).unwrap();

    assert_eq!(graph.packages.len(), 3);
    let mut by_name: BTreeMap<&str, &LockedPackage> = BTreeMap::new();
    for i in 0..graph.packages.len() {
        let p = graph.packages.value_at(i);
        by_name.insert(p.name.as_str(), p);
    }

    let tar = by_name["tarball-pkg"];
    assert!(matches!(
        &tar.local_source,
        Some(LocalSource::RemoteTarball(_))
    ));

    let git = by_name["git-pkg"];
    let Some(LocalSource::Git(git)) = &git.local_source else {
        panic!("expected git LocalSource");
    };
    assert_eq!(git.url, "https://github.com/user/repo.git");
    assert_eq!(git.resolved, "abcdef0123456789abcdef0123456789abcdef01");

    let ssh = by_name["ssh-git-pkg"];
    assert!(matches!(&ssh.local_source, Some(LocalSource::Git(_))));
}

#[test]
fn tests_test_write_berry_roundtrip() {
    let content = r#"__metadata:
  version: 8
  cacheKey: 10c0

"foo@npm:^1.0.0":
  version: 1.2.3
  resolution: "foo@npm:1.2.3"
  dependencies:
    bar: "npm:^2.0.0"
  checksum: 10c0/foohash
  languageName: node
  linkType: hard

"bar@npm:^2.0.0":
  version: 2.5.0
  resolution: "bar@npm:2.5.0"
  checksum: 10c0/barhash
  languageName: node
  linkType: hard
"#;
    let manifest = make_manifest(&[("foo", "^1.0.0")], &[]);
    let graph = parse(content, &manifest).unwrap();

    let written = write_berry(&graph, &manifest);

    assert!(is_berry(&written));

    let reparsed_manifest = make_manifest(&[("foo", "^1.0.0")], &[]);
    let reparsed = parse(&written, &reparsed_manifest).unwrap();

    assert!(reparsed.packages.contains_key("foo@1.2.3"));
    assert!(reparsed.packages.contains_key("bar@2.5.0"));
    assert_eq!(
        reparsed.packages.get("foo@1.2.3").unwrap().yarn_checksum.as_deref(),
        Some("10c0/foohash")
    );
    assert_eq!(
        reparsed.packages.get("foo@1.2.3").unwrap()
            .dependencies
            .get("bar")
            .map(String::as_str),
        Some("bar@2.5.0")
    );
    let root = reparsed.importers.get(".").unwrap();
    assert_eq!(root.len(), 1);
    assert_eq!(root[0].dep_path, "foo@1.2.3");
}

#[test]
fn tests_test_write_berry_link_type_soft_for_link_deps() {
    let mut packages = StrMap::new();
    packages.insert(
        "linked-pkg@1.0.0".to_string(),
        LockedPackage {
            name: "linked-pkg".to_string(),
            version: "1.0.0".to_string(),
            dep_path: "linked-pkg@1.0.0".to_string(),
            local_source: Some(LocalSource::Link("./vendor/linked-pkg".to_string())),
            ..Default::default()
        },
    );
    packages.insert(
        "regular-pkg@2.0.0".to_string(),
        LockedPackage {
            name: "regular-pkg".to_string(),
            version: "2.0.0".to_string(),
            dep_path: "regular-pkg@2.0.0".to_string(),
            ..Default::default()
        },
    );
    let graph = LockfileGraph {
        importers: {
            let mut m = StrMap::new();
            m.insert(".".to_string(), vec![]);
            m
        },
        packages,
        ..Default::default()
    };
    let manifest = make_manifest(&[], &[]);

    let written = write_berry(&graph, &manifest);

    let linked_idx = written.find("linked-pkg@").unwrap();
    let regular_idx = written.find("regular-pkg@").unwrap();
    let linked_block = &written[linked_idx..regular_idx];
    let regular_block = &written[regular_idx..];
    assert!(
        linked_block.contains("linkType: soft"),
        "link: block should be soft-linked:\n{linked_block}"
    );
    assert!(
        regular_block.contains("linkType: hard"),
        "registry block should be hard-linked:\n{regular_block}"
    );
}

#[test]
fn tests_test_write_berry_escapes_resolution_and_header() {
    let mut packages = StrMap::new();
    packages.insert(
        "weird-pkg@1.0.0".to_string(),
        LockedPackage {
            name: "weird-pkg".to_string(),
            version: "1.0.0".to_string(),
            dep_path: "weird-pkg@1.0.0".to_string(),
            local_source: Some(LocalSource::Directory("./a\\b/c".to_string())),
            ..Default::default()
        },
    );
    let graph = LockfileGraph {
        importers: {
            let mut m = StrMap::new();
            m.insert(".".to_string(), vec![]);
            m
        },
        packages,
        ..Default::default()
    };
    let manifest = make_manifest(&[], &[]);

    let written = write_berry(&graph, &manifest);

    let _doc: yaml_serde::Value = yaml_serde::from_str(&written)
        .unwrap_or_else(|e| panic!("berry writer produced malformed YAML: {e}\n{written}"));
}

const CLASSIC: &str = "# THIS IS AN AUTOGENERATED FILE. DO NOT EDIT THIS FILE DIRECTLY.
# yarn lockfile v1


\"@s/bar@2.5.0\", \"@s/bar@^2.0.0\":
  version \"2.5.0\"
  integrity sha512-bar

\"foo@1.2.3\", \"foo@^1.0.0\":
  version \"1.2.3\"
  integrity sha512-foo
  dependencies:
    @s/bar \"^2.0.0\"

\"odd@4.0.0\", \"odd@npm:even@^4\":
  version \"4.0.0\"

";

#[test]
fn a_classic_file_reads_back_as_it_was_written() {
    let mut manifest = make_manifest(&[("foo", "^1.0.0")], &[("odd", "npm:even@^4")]);
    manifest.optional_dependencies = string_map(&[("@s/bar", "^2.0.0")]);
    let graph = parse(CLASSIC, &manifest).unwrap();
    assert_eq!(graph.packages.get("odd@4.0.0").unwrap().alias_of.as_deref(), Some("even"));
    let foo = graph.packages.get("foo@1.2.3").unwrap();
    assert_eq!(foo.declared_dependencies, string_map(&[("@s/bar", "^2.0.0")]));
    let root = graph.importers.get(".").unwrap();
    assert_eq!(root.len(), 3);
    assert_eq!(write_classic(&graph, &manifest), CLASSIC);
    assert_eq!(parse(&write_classic(&graph, &manifest), &manifest).unwrap(), graph);
}

fn classic_error(content: &str) -> String {
    parse(content, &make_manifest(&[], &[])).unwrap_err().message()
}

#[test]
fn broken_classic_files_say_why() {
    assert_eq!(
        classic_error("foo@1\n"),
        "line 1: expected block header ending in ':', got 'foo@1'"
    );
    assert_eq!(classic_error("# c\nfoo@1, :\n"), "line 2: empty spec in header 'foo@1,'");
    assert_eq!(
        classic_error("  version \"1\"\n"),
        "line 1: unexpected indented content before any block header"
    );
    assert_eq!(classic_error("foo@1:\n  version\n"), "line 2: could not parse 'version'");
    assert_eq!(
        classic_error("foo@1:\n  version \"1\"\n  dependencies:\n    bar\n"),
        "line 4: could not parse dep 'bar'"
    );
    assert_eq!(
        classic_error("\"foo@1\", 'foo@2':\n  resolved \"x\"\n"),
        "yarn.lock block [\"foo@1\", \"foo@2\"] has no version"
    );
    assert_eq!(
        classic_error("foo:\n  version \"1\"\n"),
        "could not parse package name from yarn.lock spec 'foo'"
    );
}

fn berry_error(content: &str) -> String {
    parse(content, &make_manifest(&[], &[])).unwrap_err().message()
}

#[test]
fn broken_berry_files_say_why() {
    assert!(berry_error("__metadata:\n  version: 8\n: [\n").starts_with("yaml parse error: "));
    assert_eq!(
        berry_error("__metadata:\n  version: 2\n"),
        "yarn berry lockfile has unexpected __metadata.version: 2 (expected >= 3)"
    );
    let with = |block: &str| format!("__metadata:\n  version: 8\n{block}");
    assert_eq!(
        berry_error(&with("\"a@npm:1\": 5\n")),
        "yarn berry block 'a@npm:1' is not a mapping"
    );
    assert_eq!(
        berry_error(&with("\"a@npm:1\":\n  resolution: \"a@npm:1\"\n")),
        "yarn berry block 'a@npm:1' has no version"
    );
    assert_eq!(
        berry_error(&with("\"a@npm:1\":\n  version: 1.0.0\n")),
        "yarn berry block 'a@npm:1' has no resolution"
    );
    assert_eq!(
        berry_error(&with("\"a@npm:1\":\n  version: 1.0.0\n  resolution: nonsense\n")),
        "yarn berry block 'a@npm:1' has malformed resolution 'nonsense'"
    );
    assert_eq!(
        berry_error("- __metadata: 1\n__metadata:\n").starts_with("yaml parse error: "),
        true
    );
}

#[test]
fn berry_text_is_exact() {
    let manifest = make_manifest(&[("foo", "^1.0.0")], &[]);
    let content = "__metadata:\n  version: 8\n  cacheKey: 10c0\n\n\"foo@npm:^1.0.0\":\n  version: 1.2.3\n  resolution: \"foo@npm:1.2.3\"\n  dependencies:\n    bar: \"npm:^2.0.0\"\n  peerDependencies:\n    react: \">=16\"\n  peerDependenciesMeta:\n    react:\n      optional: true\n  checksum: 10c0/foohash\n  languageName: node\n  linkType: hard\n\n\"bar@npm:^2.0.0\":\n  version: 2.5.0\n  resolution: \"bar@npm:2.5.0\"\n  languageName: node\n  linkType: hard\n";
    let graph = parse(content, &manifest).unwrap();
    let want = "# This file is generated by running \"yarn install\" inside your project.\n# Manual changes might be lost - proceed with caution!\n\n__metadata:\n  version: 8\n  cacheKey: 10c0\n\n\"bar@npm:2.5.0, bar@npm:^2.0.0\":\n  version: \"2.5.0\"\n  resolution: \"bar@npm:2.5.0\"\n  languageName: node\n  linkType: hard\n\n\"foo@npm:1.2.3, foo@npm:^1.0.0\":\n  version: \"1.2.3\"\n  resolution: \"foo@npm:1.2.3\"\n  dependencies:\n    \"bar\": \"npm:^2.0.0\"\n  peerDependencies:\n    \"react\": \">=16\"\n  peerDependenciesMeta:\n    \"react\":\n      optional: true\n  checksum: \"10c0/foohash\"\n  languageName: node\n  linkType: hard\n\n";
    let written = write_berry(&graph, &manifest);
    assert_eq!(written, want);
    assert!(is_berry(&written));
    assert_eq!(parse(&written, &manifest).unwrap(), graph);
}

#[test]
fn berry_text_spells_one_entry_for_each_block() {
    let manifest = make_manifest(&[("foo", "^1.0.0")], &[]);
    let content = "__metadata:\n  version: 8\n\n\"foo@npm:^1.0.0\":\n  version: 1.2.3\n  resolution: \"foo@npm:1.2.3\"\n  peerDependencies:\n    react: \">=16\"\n  peerDependenciesMeta:\n    react:\n      optional: true\n  checksum: 10c0/foo\n";
    let graph = parse(content, &manifest).unwrap();
    let spelled = parse_document(&write_berry(&graph, &manifest)).unwrap();
    let want = parse_document("{__metadata: {version: 8, cacheKey: '10c0'}, 'foo@npm:1.2.3, foo@npm:^1.0.0': {version: '1.2.3', resolution: 'foo@npm:1.2.3', peerDependencies: {react: '>=16'}, peerDependenciesMeta: {react: {optional: true}}, checksum: '10c0/foo', languageName: 'node', linkType: 'hard'}}").unwrap();
    assert!(same_value(&spelled, &want));
    let keys: Vec<_> = spelled.as_mapping().unwrap().iter().map(|e| e.0.as_str().cloned()).collect();
    assert_eq!(keys[0].as_deref(), Some("__metadata"));
    assert_eq!(keys.len(), 2);
}

#[test]
fn berry_sources_and_optional_dependencies_read_back() {
    let manifest = make_manifest(&[("foo", "^1.0.0"), ("local", "file:./vendor/local")], &[]);
    let content = "__metadata:\n  version: 8\n\n\"bar@npm:^2.0.0\":\n  version: 2.5.0\n  resolution: \"bar@npm:2.5.0\"\n\n\"foo@npm:^1.0.0\":\n  version: 1.2.3\n  resolution: \"foo@npm:1.2.3\"\n  dependencies:\n    bar: \"npm:^2.0.0\"\n  optionalDependencies:\n    bar: \"npm:^2.0.0\"\n\n\"local@file:./vendor/local\":\n  version: 0.1.0\n  resolution: \"local@file:./vendor/local\"\n";
    let graph = parse(content, &manifest).unwrap();
    assert_eq!(graph.packages.len(), 3);
    let foo = graph.packages.get("foo@1.2.3").unwrap();
    assert_eq!(foo.optional_dependencies.get("bar").unwrap(), "bar@2.5.0");
    let written = write_berry(&graph, &manifest);
    assert!(written.contains("\"local@file:./vendor/local\":\n"));
    assert_eq!(parse(&written, &manifest).unwrap(), graph);
}

#[test]
fn optional_dependencies_alone_read_back() {
    let manifest = make_manifest(&[("foo", "^1.0.0")], &[]);
    let content = "__metadata:\n  version: 8\n\n\"bar@npm:^2.0.0\":\n  version: 2.5.0\n  resolution: \"bar@npm:2.5.0\"\n\n\"foo@npm:^1.0.0\":\n  version: 1.2.3\n  resolution: \"foo@npm:1.2.3\"\n  optionalDependencies:\n    bar: \"npm:^2.0.0\"\n";
    let graph = parse(content, &manifest).unwrap();
    let foo = graph.packages.get("foo@1.2.3").unwrap();
    assert_eq!(foo.optional_dependencies.get("bar").unwrap(), "bar@2.5.0");
    let written = write_berry(&graph, &manifest);
    assert!(written.contains("\"bar@npm:2.5.0, bar@npm:^2.0.0\":\n"));
    assert_eq!(parse(&written, &manifest).unwrap(), graph);
}

#[test]
fn ranges_without_protocol_are_written_with_one() {
    let manifest = make_manifest(&[("foo", "^1.0.0")], &[]);
    let content = "__metadata:\n  version: 6\n\n\"bar@^2.0.0\":\n  version: 2.5.0\n  resolution: \"bar@npm:2.5.0\"\n\n\"foo@^1.0.0\":\n  version: 1.2.3\n  resolution: \"foo@npm:1.2.3\"\n  dependencies:\n    bar: ^2.0.0\n";
    let graph = parse(content, &manifest).unwrap();
    let foo = graph.packages.get("foo@1.2.3").unwrap();
    assert_eq!(foo.dependencies, string_map(&[("bar", "bar@2.5.0")]));
    let back = parse(&write_berry(&graph, &manifest), &manifest).unwrap();
    assert_eq!(back.packages.len(), 2);
    let again = back.packages.get("foo@1.2.3").unwrap();
    assert_eq!(again.dependencies, foo.dependencies);
    assert_eq!(again.declared_dependencies, string_map(&[("bar", "npm:^2.0.0")]));
}

#[test]
fn a_classic_file_keeps_what_was_read_from_one() {
    let manifest = make_manifest(&[("foo", "^1.0.0")], &[("bar", "^2.0.0")]);
    let content = "# yarn lockfile v1\n\n\n\"foo@^1.0.0\", \"foo@>=1\":\n  version \"1.2.3\"\n  resolved \"https://r.example/foo.tgz\"\n  integrity sha512-foo==\n  dependencies:\n    bar \"^2.1.0\"\n    gone \"^9.0.0\"\n\nbar@^2.0.0, bar@^2.1.0:\n  version \"2.5.0\"\n";
    let graph = parse(content, &manifest).unwrap();
    let back = parse(&write_classic(&graph, &manifest), &manifest).unwrap();
    assert_eq!(back.packages.len(), graph.packages.len());
    for i in 0..graph.packages.len() {
        let (p, q) = (graph.packages.value_at(i), back.packages.value_at(i));
        assert_eq!(q.name, p.name);
        assert_eq!(q.version, p.version);
        assert_eq!(q.integrity, p.integrity);
        assert_eq!(q.dependencies, p.dependencies);
    }
    assert_eq!(back.importers, graph.importers);
    let foo = back.packages.get("foo@1.2.3").unwrap();
    assert_eq!(foo.dependencies, string_map(&[("bar", "bar@2.5.0")]));
    assert_eq!(foo.integrity.as_deref(), Some("sha512-foo=="));
}

#[test]
fn a_header_with_two_names_keeps_the_dependencies_on_both() {
    let manifest = make_manifest(&[("cliui", "^8.0.0")], &[]);
    let content = "cliui@^8.0.0:\n  version \"8.0.2\"\n  dependencies:\n    string-width \"^4.1.0\"\n    string-width-cjs \"npm:string-width@^4.2.0\"\n\n\"string-width-cjs@npm:string-width@^4.2.0\", string-width@^4.1.0:\n  version \"4.2.3\"\n";
    let graph = parse(content, &manifest).unwrap();
    let want = string_map(&[
        ("string-width", "string-width-cjs@4.2.3"),
        ("string-width-cjs", "string-width-cjs@4.2.3"),
    ]);
    assert_eq!(graph.packages.get("cliui@8.0.2").unwrap().dependencies, want);
    let back = parse(&write_classic(&graph, &manifest), &manifest).unwrap();
    assert_eq!(back, graph);
}

#[test]
fn berry_dependencies_on_sources_and_aliases_read_back() {
    let manifest = make_manifest(&[("foo", "^1.0.0"), ("repo", "github:user/repo")], &[]);
    let sha = "abcdef0123456789abcdef0123456789abcdef01";
    let content = format!("__metadata:\n  version: 8\n\n\"bar@npm:^2.0.0, other@npm:bar@^2.0.0\":\n  version: 2.5.0\n  resolution: \"bar@npm:2.5.0\"\n\n\"foo@npm:^1.0.0\":\n  version: 1.2.3\n  resolution: \"foo@npm:1.2.3\"\n  dependencies:\n    local: \"file:./vendor/local#hash\"\n    other: \"npm:bar@^2.0.0\"\n\n\"local@file:./vendor/local#hash\":\n  version: 0.1.0\n  resolution: \"local@file:./vendor/local#hash\"\n\n\"repo@github:user/repo\":\n  version: 3.0.0\n  resolution: \"repo@https://github.com/user/repo.git#commit={sha}\"\n");
    let graph = parse(&content, &manifest).unwrap();
    assert_eq!(graph.packages.len(), 4);
    let foo = graph.packages.get("foo@1.2.3").unwrap();
    assert_eq!(foo.dependencies.len(), 2);
    assert_eq!(foo.dependencies.get("other").unwrap(), "bar@2.5.0");
    let local = foo.dependencies.get("local").unwrap();
    assert!(matches!(
        graph.packages.get(local).unwrap().local_source,
        Some(LocalSource::Directory(_)),
    ));
    let written = write_berry(&graph, &manifest);
    assert!(written.contains("\"bar@npm:2.5.0, other@npm:bar@^2.0.0\":\n"));
    assert!(written.contains("\"local@file:./vendor/local, local@file:./vendor/local#hash\":\n"));
    let back = parse(&written, &manifest).unwrap();
    assert_eq!(back.packages.len(), 4);
    assert_eq!(back.packages.get("foo@1.2.3").unwrap().dependencies, foo.dependencies);
    assert_eq!(back.importers, graph.importers);
    assert_eq!(back.importers.get(".").unwrap().len(), 2);
}

#[test]
fn skipped_blocks_are_told() {
    let content = "__metadata:\n  version: 8\n\n\"a@npm:^1.0.0\":\n  version: 1.0.0\n  resolution: \"a@npm:1.0.0\"\n\n\"b@patch:b@1.0.0#x.patch\":\n  version: 1.0.0\n  resolution: \"b@patch:b@1.0.0#x.patch\"\n\n\"c@odd:1\":\n  version: 1.0.0\n  resolution: \"c@odd:1\"\n";
    let graph = parse(content, &make_manifest(&[], &[])).unwrap();
    assert_eq!(graph.packages.len(), 1);
    let messages: Vec<String> = skipped_blocks(content).iter().map(|b| b.message()).collect();
    assert_eq!(
        messages,
        vec![
            "yarn berry 'patch' protocol in block 'b@patch:b@1.0.0#x.patch' is not supported — entry skipped".to_string(),
            "yarn berry unrecognized protocol 'odd' in block 'c@odd:1' — entry skipped".to_string(),
        ],
    );
    assert!(skipped_blocks("[").is_empty());
}

#[test]
fn a_full_commit_hash_makes_a_url_a_repository() {
    let sha = "abcdef0123456789abcdef0123456789abcdef01";
    for (fragment, is_git) in [(sha, true), ("commit=abc", false), ("main", false)] {
        let content = format!("__metadata:\n  version: 8\n\n\"a@https://h.example/r#{fragment}\":\n  version: 1.0.0\n  resolution: \"a@https://h.example/r#{fragment}\"\n");
        let graph = parse(&content, &make_manifest(&[], &[])).unwrap();
        let source = graph.packages.value_at(0).local_source.as_ref().unwrap();
        assert_eq!(matches!(source, LocalSource::Git(_)), is_git, "{fragment}");
    }
}

#[test]
fn scalars_are_quoted_and_escaped() {
    assert_eq!(quote_yaml_scalar("a\"b\\c"), "\"a\\\"b\\\\c\"");
    assert_eq!(quote_yaml_scalar(""), "\"\"");
}

#[test]
fn the_first_bytes_tell_the_format() {
    assert!(is_berry_prefix(b"# x\n__metadata:\n"));
    assert!(is_berry_prefix(b"__metadata:"));
    assert!(!is_berry_prefix(b"a__metadata:"));
    assert!(!is_berry_prefix(b"__metadata"));
}

#[test]
fn direct_ranges_are_looked_up_with_the_npm_protocol() {
    assert_eq!(berry_spec_candidates("foo", "^1"), vec!["foo@^1".to_string(), "foo@npm:^1".to_string()]);
    assert_eq!(berry_spec_candidates("foo", "workspace:*"), vec!["foo@workspace:*".to_string()]);
}

#[test]
fn peer_contexts_share_a_block() {
    let mut packages = StrMap::new();
    for suffix in ["", "(react@17.0.0)", "(react@18.0.0)"] {
        packages.insert(
            format!("foo@1.0.0{suffix}"),
            LockedPackage {
                name: "foo".to_string(),
                version: "1.0.0".to_string(),
                dep_path: format!("foo@1.0.0{suffix}"),
                ..Default::default()
            },
        );
    }
    let graph = LockfileGraph { packages, ..Default::default() };
    let m = build_canonical_map(&graph);
    assert_eq!(m.len(), 1);
    assert_eq!(m.get("foo@1.0.0").unwrap().dep_path, "foo@1.0.0");
    assert_eq!(canonical_key_from_dep_path("foo@1.0.0(react@18.0.0)"), "foo@1.0.0");
    assert_eq!(dep_value_as_version("foo", "foo@1.0.0(x@1)"), "1.0.0");
    assert_eq!(child_canonical_key("foo", "1.0.0(x@1)"), "foo@1.0.0");
    let written = write_classic(&graph, &make_manifest(&[], &[]));
    assert_eq!(written.matches("version \"1.0.0\"").count(), 1);
}
