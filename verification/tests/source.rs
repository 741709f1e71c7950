//! Classification and naming of package sources.
use aube_lockfile::source::{
    normalize_git_fragment, parse_git_fragment, parse_git_spec, parse_hosted_git, path_file_name,
    GitSource, HostedGit, HostedGitHost, LocalSource, RemoteTarballSource,
};

#[test]
fn matches_https_tgz() {
    assert!(LocalSource::looks_like_remote_tarball_url(
        "https://example.com/pkg-1.0.0.tgz"
    ));
}

#[test]
fn matches_http_tar_gz() {
    assert!(LocalSource::looks_like_remote_tarball_url(
        "http://example.com/pkg-1.0.0.tar.gz"
    ));
}

#[test]
fn strips_fragment_before_suffix_check() {
    assert!(LocalSource::looks_like_remote_tarball_url(
        "https://example.com/pkg-1.0.0.tgz#sha512-abc"
    ));
}

#[test]
fn strips_query_string_before_suffix_check() {
    assert!(LocalSource::looks_like_remote_tarball_url(
        "https://registry.example.com/pkg/-/pkg-1.0.0.tgz?token=abc"
    ));
    assert!(LocalSource::looks_like_remote_tarball_url(
        "https://example.com/pkg-1.0.0.tar.gz?v=2&signed=1"
    ));
}

#[test]
fn matches_bare_http_url_without_tarball_suffix() {
    assert!(LocalSource::looks_like_remote_tarball_url(
        "https://pkg.pr.new/lunariajs/lunaria/@lunariajs/core@904b935"
    ));
    assert!(LocalSource::looks_like_remote_tarball_url(
        "https://codeload.github.com/user/repo/tar.gz/main"
    ));
}

#[test]
fn rejects_non_http_schemes() {
    assert!(!LocalSource::looks_like_remote_tarball_url(
        "ftp://example.com/pkg.tgz"
    ));
    assert!(!LocalSource::looks_like_remote_tarball_url(
        "git://example.com/repo.git"
    ));
}

#[test]
fn parse_classifies_bare_http_url_as_remote_tarball() {
    let parsed = LocalSource::parse(
        "https://pkg.pr.new/lunariajs/lunaria/@lunariajs/core@904b935",
        false,
    );
    assert!(matches!(parsed, Some(LocalSource::RemoteTarball(_))));
}

#[test]
fn parse_prefers_git_over_tarball_for_dot_git_url() {
    let parsed = LocalSource::parse("https://github.com/user/repo.git", false);
    assert!(matches!(parsed, Some(LocalSource::Git(_))));
}

#[test]
fn git_plus_https_without_dot_git_roundtrips_via_lockfile_form() {
    let (url, committish, subpath) = parse_git_spec("git+https://host/user/repo").unwrap();
    assert_eq!(url, "https://host/user/repo");
    assert_eq!(committish, None);
    assert_eq!(subpath, None);
    let sha = "abcdef0123456789abcdef0123456789abcdef01";
    let source = LocalSource::Git(GitSource {
        url: url.clone(),
        committish: None,
        resolved: sha.to_string(),
        subpath: None,
    });
    let lockfile_version = source.specifier();
    assert_eq!(lockfile_version, format!("https://host/user/repo#{sha}"));
    let (round_url, round_committish, round_subpath) =
        parse_git_spec(&lockfile_version).unwrap();
    assert_eq!(round_url, "https://host/user/repo");
    assert_eq!(round_committish.as_deref(), Some(sha));
    assert_eq!(round_subpath, None);
}

#[test]
fn bare_https_without_dot_git_and_no_committish_is_not_git() {
    assert!(parse_git_spec("https://example.com/pkg").is_none());
}

#[test]
fn github_shorthand_expands_and_roundtrips() {
    let (url, _, _) = parse_git_spec("github:user/repo").unwrap();
    assert_eq!(url, "https://github.com/user/repo.git");
}

#[test]
fn bare_user_repo_expands_to_github() {
    let (url, committish, subpath) = parse_git_spec("kevva/is-negative").unwrap();
    assert_eq!(url, "https://github.com/kevva/is-negative.git");
    assert!(committish.is_none());
    assert!(subpath.is_none());
}

#[test]
fn bare_user_repo_with_committish_preserved() {
    let (url, committish, _) = parse_git_spec("kevva/is-negative#v1.0.0").unwrap();
    assert_eq!(url, "https://github.com/kevva/is-negative.git");
    assert_eq!(committish.as_deref(), Some("v1.0.0"));
}

#[test]
fn bare_scope_pkg_is_not_git_shorthand() {
    assert!(parse_git_spec("@types/node").is_none());
}

#[test]
fn bare_relative_path_is_not_git_shorthand() {
    assert!(parse_git_spec("./repo").is_none());
    assert!(parse_git_spec("../repo").is_none());
    assert!(parse_git_spec("./local/path").is_none());
    assert!(parse_git_spec("../local/path").is_none());
}

#[test]
fn bare_path_with_extra_slashes_is_not_git_shorthand() {
    assert!(parse_git_spec("path/with/slashes/extra").is_none());
}

#[test]
fn bare_scp_form_unknown_host_is_not_github_shorthand() {
    assert!(parse_git_spec("user@host:repo.git").is_none());
}

#[test]
fn scp_form_recognized() {
    let (url, committish, _) =
        parse_git_spec("git@github.com:EthanHenrickson/math-mcp.git").unwrap();
    assert_eq!(url, "ssh://git@github.com/EthanHenrickson/math-mcp.git");
    assert!(committish.is_none());
}

#[test]
fn scp_form_with_ref_recognized() {
    let (url, committish, _) =
        parse_git_spec("git@github.com:EthanHenrickson/math-mcp.git#0.1.5").unwrap();
    assert_eq!(url, "ssh://git@github.com/EthanHenrickson/math-mcp.git");
    assert_eq!(committish.as_deref(), Some("0.1.5"));
}

#[test]
fn scp_form_bitbucket_recognized() {
    let (url, _, _) = parse_git_spec("git@bitbucket.org:pnpmjs/git-resolver.git").unwrap();
    assert_eq!(url, "ssh://git@bitbucket.org/pnpmjs/git-resolver.git");
}

#[test]
fn scp_form_unknown_host_rejected() {
    assert!(parse_git_spec("git@example.com:org/repo.git").is_none());
    assert!(parse_git_spec("alice@host.example.com:org/repo.git").is_none());
}

#[test]
fn scp_form_without_user_rejected() {
    assert!(parse_git_spec("github.com:user/repo.git").is_none());
}

#[test]
fn commit_selector_fragment_normalizes_to_sha() {
    let sha = "abcdef0123456789abcdef0123456789abcdef01";
    let (url, committish, _) =
        parse_git_spec(&format!("https://host/user/repo.git#commit={sha}")).unwrap();
    assert_eq!(url, "https://host/user/repo.git");
    assert_eq!(committish.as_deref(), Some(sha));
}

#[test]
fn named_selector_fragment_normalizes_to_ref() {
    let (url, committish, _) = parse_git_spec("git+https://host/user/repo#tag=v1.2.3").unwrap();
    assert_eq!(url, "https://host/user/repo");
    assert_eq!(committish.as_deref(), Some("v1.2.3"));
}

#[test]
fn pnpm_path_subpath_extracted_from_fragment() {
    let (url, committish, subpath) =
        parse_git_spec("github:org/dep#v0.1.4&path:/packages/special").unwrap();
    assert_eq!(url, "https://github.com/org/dep.git");
    assert_eq!(committish.as_deref(), Some("v0.1.4"));
    assert_eq!(subpath.as_deref(), Some("packages/special"));
}

#[test]
fn path_subpath_roundtrips_via_specifier() {
    let sha = "abcdef0123456789abcdef0123456789abcdef01";
    let source = LocalSource::Git(GitSource {
        url: "https://github.com/org/dep.git".to_string(),
        committish: None,
        resolved: sha.to_string(),
        subpath: Some("packages/special".to_string()),
    });
    let spec = source.specifier();
    assert_eq!(
        spec,
        format!("https://github.com/org/dep.git#{sha}&path:/packages/special")
    );
    let (url, committish, subpath) = parse_git_spec(&spec).unwrap();
    assert_eq!(url, "https://github.com/org/dep.git");
    assert_eq!(committish.as_deref(), Some(sha));
    assert_eq!(subpath.as_deref(), Some("packages/special"));
}

#[test]
fn parse_hosted_git_recognizes_canonical_forms() {
    let canonical = HostedGit {
        host: HostedGitHost::GitHub,
        owner: "owner".to_string(),
        repo: "repo".to_string(),
    };
    for spec in [
        "https://github.com/owner/repo.git",
        "https://github.com/owner/repo",
        "http://github.com/owner/repo.git",
        "git+https://github.com/owner/repo.git",
        "git+https://github.com/owner/repo",
        "git://github.com/owner/repo.git",
        "ssh://git@github.com/owner/repo.git",
        "git+ssh://git@github.com/owner/repo.git",
        "git@github.com:owner/repo.git",
    ] {
        assert_eq!(
            parse_hosted_git(spec).as_ref(),
            Some(&canonical),
            "spec {spec} should map to canonical HostedGit",
        );
    }
}

#[test]
fn parse_hosted_git_returns_none_for_non_hosted() {
    for spec in [
        "https://example.com/owner/repo.git",
        "ssh://git@gitea.internal/owner/repo.git",
        "git+ssh://git@gitlab.example.com/group/sub/repo.git",
        "https://github.com/owner/repo/sub",
        "https://github.com/owner",
    ] {
        assert!(
            parse_hosted_git(spec).is_none(),
            "spec {spec} must not match a hosted provider",
        );
    }
}

#[test]
fn the_host_of_a_repository_is_what_stands_before_the_first_slash() {
    assert!(parse_hosted_git("https://evil.example/x@github.com/owner/repo").is_none());
    assert!(parse_hosted_git("ssh://evil.example/git@github.com/owner/repo.git").is_none());
    let want = HostedGit {
        host: HostedGitHost::GitLab,
        owner: "owner".to_string(),
        repo: "repo".to_string(),
    };
    for spec in [
        "gitlab:owner/repo",
        "gitlab:owner/repo#main",
        "git@gitlab.com:owner/repo.git",
        "git+https://gitlab.com/owner/repo.git#v1.0.0",
    ] {
        assert_eq!(parse_hosted_git(spec).as_ref(), Some(&want), "{spec}");
    }
    let github = parse_hosted_git("owner/repo").unwrap();
    assert_eq!(github.host, HostedGitHost::GitHub);
    assert_eq!(github, parse_hosted_git("github:owner/repo").unwrap());
}

#[test]
fn names_in_keys_are_one_component() {
    let link = LocalSource::Link("../bar".to_string());
    let scoped = link.dep_path("@s/bar");
    assert!(!scoped.contains('/'));
    assert_ne!(scoped, link.dep_path("@s+bar"));
    assert_ne!(scoped, link.dep_path("@s%2Fbar"));
    assert!(!link.dep_path("a\\b:c").contains('\\'));
}

#[test]
fn hosted_tarball_url_only_for_full_sha() {
    let g = HostedGit {
        host: HostedGitHost::GitHub,
        owner: "o".to_string(),
        repo: "r".to_string(),
    };
    let sha = "abcdef0123456789abcdef0123456789abcdef01";
    assert_eq!(
        g.tarball_url(sha).as_deref(),
        Some("https://codeload.github.com/o/r/tar.gz/abcdef0123456789abcdef0123456789abcdef01"),
    );
    assert!(g.tarball_url("main").is_none());
    assert!(g.tarball_url("v1.2.3").is_none());
    assert!(g.tarball_url("abcdef0").is_none());
}

#[test]
fn hosted_tarball_url_per_provider() {
    let sha = "abcdef0123456789abcdef0123456789abcdef01";
    let gitlab = HostedGit {
        host: HostedGitHost::GitLab,
        owner: "g".to_string(),
        repo: "r".to_string(),
    }
    .tarball_url(sha)
    .unwrap();
    assert!(gitlab.starts_with("https://gitlab.com/g/r/-/archive/"));
    assert!(gitlab.ends_with("/r-abcdef0123456789abcdef0123456789abcdef01.tar.gz"));
    let bitbucket = HostedGit {
        host: HostedGitHost::Bitbucket,
        owner: "g".to_string(),
        repo: "r".to_string(),
    }
    .tarball_url(sha)
    .unwrap();
    assert_eq!(
        bitbucket,
        "https://bitbucket.org/g/r/get/abcdef0123456789abcdef0123456789abcdef01.tar.gz",
    );
}

#[test]
fn hosted_https_url_normalizes() {
    let g = parse_hosted_git("git+ssh://git@github.com/owner/repo.git").unwrap();
    assert_eq!(g.https_url(), "https://github.com/owner/repo.git");
}

#[test]
fn path_traversal_components_in_subpath_are_rejected() {
    let cases = [
        "github:org/dep#main&path:/../../etc",
        "github:org/dep#main&path:/packages/../../../etc",
        "github:org/dep#main&path:/./packages/foo",
        "github:org/dep#main&path:/packages//foo",
    ];
    for spec in cases {
        let (_, _, subpath) = parse_git_spec(spec).unwrap();
        assert_eq!(subpath, None, "spec should drop subpath: {spec}");
    }
}

#[test]
fn dep_path_distinguishes_subpaths_under_same_commit() {
    let sha = "abcdef0123456789abcdef0123456789abcdef01";
    let a = LocalSource::Git(GitSource {
        url: "https://example.com/r.git".to_string(),
        committish: None,
        resolved: sha.to_string(),
        subpath: Some("packages/a".to_string()),
    });
    let b = LocalSource::Git(GitSource {
        url: "https://example.com/r.git".to_string(),
        committish: None,
        resolved: sha.to_string(),
        subpath: Some("packages/b".to_string()),
    });
    assert_ne!(a.dep_path("dep"), b.dep_path("dep"));
}

fn git(url: &str, sha: &str, subpath: Option<&str>) -> LocalSource {
    LocalSource::Git(GitSource {
        url: url.to_string(),
        committish: None,
        resolved: sha.to_string(),
        subpath: subpath.map(|s| s.to_string()),
    })
}

#[test]
fn dep_paths_are_digests_of_the_source() {
    let dir = LocalSource::Directory("./vendor/foo".to_string());
    assert_eq!(dir.dep_path("foo"), "foo@file+92e4a866b36892af");
    let tarball = LocalSource::Tarball("./vendor/foo".to_string());
    assert_eq!(tarball.dep_path("foo"), dir.dep_path("foo"));
    let link = LocalSource::Link("../bar".to_string());
    assert_eq!(link.dep_path("@s/bar"), "@s%2Fbar@link+50c17c606cd1cfe3");
    let url = LocalSource::RemoteTarball(RemoteTarballSource {
        url: "https://example.com/a.tgz".to_string(),
        integrity: "sha512-x".to_string(),
    });
    assert_eq!(url.dep_path("a"), "a@url+1c1362bc472e2b45");
    let sha = "abcdef0123456789abcdef0123456789abcdef01";
    assert_eq!(git("https://h/r.git", sha, None).dep_path("r"), "r@git+68f71c7a61ad2ef7");
    assert_eq!(
        git("https://h/r.git", sha, Some("p/q")).dep_path("r"),
        "r@git+cd3afb609f5ca4e4"
    );
}

#[test]
fn a_digest_gives_its_first_eight_bytes() {
    let dir = LocalSource::Directory("x".to_string());
    let digest: Vec<u8> = vec![0, 1, 15, 16, 255, 128, 127, 10, 99];
    assert_eq!(dir.dep_path_of_digest("n", &digest), "n@file+00010f10ff807f0a");
}

#[test]
fn windows_paths_are_written_with_forward_slashes() {
    let dir = LocalSource::Directory("..\\vendor\\foo".to_string());
    assert_eq!(dir.path_posix(), "../vendor/foo");
    assert_eq!(dir.specifier(), "file:../vendor/foo");
    assert_eq!(
        dir.dep_path("foo"),
        LocalSource::Directory("../vendor/foo".to_string()).dep_path("foo")
    );
    assert_eq!(dir.path(), Some("..\\vendor\\foo"));
}

#[test]
fn file_specifiers_depend_on_what_is_on_disk() {
    assert_eq!(
        LocalSource::parse("file:./a.tgz", true),
        Some(LocalSource::Tarball("./a.tgz".to_string()))
    );
    assert_eq!(
        LocalSource::parse("file:./a.tgz", false),
        Some(LocalSource::Directory("./a.tgz".to_string()))
    );
    assert_eq!(
        LocalSource::parse("file:./a", true),
        Some(LocalSource::Directory("./a".to_string()))
    );
    assert_eq!(
        LocalSource::parse("link:../b", false),
        Some(LocalSource::Link("../b".to_string()))
    );
    assert_eq!(LocalSource::parse("^1.0.0", false), None);
    assert_eq!(LocalSource::parse("npm:foo@1", false), None);
}

#[test]
fn kinds_and_specifiers() {
    let link = LocalSource::Link("../b".to_string());
    assert_eq!(link.kind_str(), "link");
    assert_eq!(link.specifier(), "link:../b");
    let url = LocalSource::RemoteTarball(RemoteTarballSource {
        url: "https://example.com/a.tgz".to_string(),
        integrity: String::new(),
    });
    assert_eq!(url.kind_str(), "url");
    assert_eq!(url.specifier(), "https://example.com/a.tgz");
    assert_eq!(url.path(), None);
    assert_eq!(url.path_posix(), "");
    assert_eq!(git("https://h/r", "abc", None).kind_str(), "git");
    assert_eq!(LocalSource::Tarball("a.tgz".to_string()).kind_str(), "file");
}

#[test]
fn tarball_names_are_told_by_their_suffix() {
    assert!(LocalSource::path_looks_like_tarball("./vendor/A.TGZ"));
    assert!(LocalSource::path_looks_like_tarball("a.tar.gz"));
    assert!(!LocalSource::path_looks_like_tarball("./a.tgz/b"));
    assert!(!LocalSource::path_looks_like_tarball(".."));
    assert_eq!(path_file_name("a/b/c.txt"), Some("c.txt".to_string()));
    assert_eq!(path_file_name("a/b/"), Some("b".to_string()));
    assert_eq!(path_file_name("a/.."), None);
    assert_eq!(path_file_name("/"), None);
}

#[test]
fn fragments_name_a_ref_and_a_subdirectory() {
    assert_eq!(
        parse_git_fragment("v1&path:/a/b"),
        (Some("v1".to_string()), Some("a/b".to_string()))
    );
    assert_eq!(parse_git_fragment(""), (None, None));
    assert_eq!(
        parse_git_fragment("tag=v1&commit=abc"),
        (Some("abc".to_string()), None)
    );
    assert_eq!(normalize_git_fragment("head=main"), Some("main".to_string()));
    assert_eq!(normalize_git_fragment("path=/x"), None);
}

#[test]
fn hosts_have_domains() {
    assert_eq!(HostedGitHost::GitHub.host_domain(), "github.com");
    assert_eq!(HostedGitHost::GitLab.host_domain(), "gitlab.com");
    assert_eq!(HostedGitHost::Bitbucket.host_domain(), "bitbucket.org");
}
