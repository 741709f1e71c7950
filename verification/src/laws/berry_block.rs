//! What reading a block of a berry `yarn.lock` gives, told by the entries of its
//! mapping.
use vstd::prelude::*;
use crate::graph::LockfileGraphView;
use crate::laws::berry::{is_berry_source, is_separable};
use crate::laws::format::{glued, law_entries_are_told_apart};
use crate::laws::pnpm::{is_name, lemma_separator};
use crate::laws::specifier::{law_bare_reference, law_reference_selectors, law_tarball_names};
use crate::manifest::Ranges;
use crate::pnpm::dep_path::{dep_path, version_separator};
use crate::source::{is_full_sha, GitSourceView, LocalSourceView, RemoteTarballView};
use crate::text::{
    find, is_white, lemma_find_char, lemma_find_char_none, lemma_find_from, lemma_rfind_char_before,
    lemma_split_once_at, lower, occurs_at, rfind_char, split_once, to_lower, trim, until,
};
use crate::yaml::{
    distinct_keys, equal, find_key, get, is_valid_mapping, lemma_find_key_from, mapping, text,
    YamlEntries, YamlView,
};
use crate::yarn::metadata_bytes;
use crate::yarn::berry::{
    berry_block, berry_entry, berry_header, berry_kind, berry_spec, dep_section, extension,
    first_wrong_entry, git_source, has_commit_hash, header_list, meta_map, meta_section,
    raw_packages, scalar_map, scalar_text, tree_graph, BerryBlock, BerryErrorView, BerryKind,
};
use crate::yarn::skipped::{skipped_entries, skipped_entry, SkippedBlockView};

verus! {

/// Without repeated keys, the value of a string key is `v` exactly where the mapping
/// holds the key with `v`.
pub proof fn law_get(e: YamlEntries, k: Seq<char>, v: YamlView)
    requires
        distinct_keys(e),
    ensures
        get(e, k) == Some(v) <==> e.contains((YamlView::String(k), v)),
        find_key(e, k) is None <==> forall|w: YamlView|
            !(#[trigger] e.contains((YamlView::String(k), w))),
{
    lemma_find_key_from(e, k, 0);
    if let Some(i) = find_key(e, k) {
        assert(e[i] == (YamlView::String(k), e[i].1));
        assert(e.contains((YamlView::String(k), e[i].1)));
        if e.contains((YamlView::String(k), v)) {
            let j = choose|j: int| 0 <= j < e.len() && e[j] == (YamlView::String(k), v);
            if i != j {
                assert(!equal(e[i].0, e[j].0));
            }
        }
    } else {
        assert forall|w: YamlView| !(#[trigger] e.contains((YamlView::String(k), w))) by {
            if e.contains((YamlView::String(k), w)) {
                let j = choose|j: int| 0 <= j < e.len() && e[j] == (YamlView::String(k), w);
                assert(e[j].0 != YamlView::String(k));
            }
        }
    }
}

/// A specifier `name@protocol:rest` is taken apart at the `@` behind the name and the
/// first colon behind that.
pub proof fn law_specifier_parts(name: Seq<char>, protocol: Seq<char>, body: Seq<char>)
    requires
        is_name(name),
        !protocol.contains(':'),
    ensures
        berry_spec(name + "@"@ + (protocol + ":"@ + body)) == Some((name, protocol, body)),
        is_separable(name),
{
    let rest = protocol + ":"@ + body;
    let spec = name + "@"@ + rest;
    reveal_strlit("@");
    reveal_strlit(":");
    lemma_separator(name, rest);
    assert(dep_path(name, rest) =~= spec);
    assert(spec.skip(name.len() as int + 1) =~= rest);
    assert(spec.take(name.len() as int) =~= name);
    assert(rest =~= protocol + seq![':'] + body);
    lemma_split_once_at(protocol, ':', body);
    assert forall|v: Seq<char>| #[trigger]
        version_separator(dep_path(name, v)) == Some(name.len() as int) by {
        lemma_separator(name, v);
    }
}

proof fn lemma_protocols_differ()
    ensures
        "npm"@ != "workspace"@ && "npm"@ != "file"@ && "npm"@ != "link"@ && "npm"@ != "http"@
            && "npm"@ != "https"@,
        "workspace"@ != "file"@ && "workspace"@ != "link"@ && "workspace"@ != "http"@
            && "workspace"@ != "https"@,
        "file"@ != "link"@ && "file"@ != "http"@ && "file"@ != "https"@,
        "link"@ != "http"@ && "link"@ != "https"@,
        "git"@ != "npm"@ && "git"@ != "workspace"@ && "git"@ != "file"@ && "git"@ != "link"@
            && "git"@ != "http"@ && "git"@ != "https"@,
        "ssh"@ != "npm"@ && "ssh"@ != "workspace"@ && "ssh"@ != "file"@ && "ssh"@ != "link"@
            && "ssh"@ != "http"@ && "ssh"@ != "https"@,
{
    reveal_strlit("npm");
    reveal_strlit("workspace");
    reveal_strlit("file");
    reveal_strlit("link");
    reveal_strlit("http");
    reveal_strlit("https");
    reveal_strlit("git");
    reveal_strlit("ssh");
    assert("npm"@[0] == 'n' && "workspace"@[0] == 'w' && "file"@[0] == 'f' && "link"@[0] == 'l'
        && "http"@[0] == 'h' && "https"@[0] == 'h' && "git"@[0] == 'g' && "ssh"@[0] == 's');
}

proof fn lemma_no_hash(p: Seq<char>)
    requires
        !p.contains('#'),
    ensures
        until(p, '#') == p,
        split_once(p, '#') is None,
{
    lemma_find_char_none(p, '#');
}

/// `npm:` is the registry, `workspace:` a package of the project itself, `link:` a
/// link to a path, and `file:` a directory or a tarball there.
pub proof fn law_protocols(p: Seq<char>)
    requires
        !p.contains('#'),
    ensures
        berry_kind("npm"@, p) == BerryKind::Registry,
        berry_kind("workspace"@, p) == BerryKind::Workspace,
        berry_kind("link"@, p) == BerryKind::Local(LocalSourceView::Link(p)),
        berry_kind("file"@, p) == BerryKind::Local(LocalSourceView::Directory(p)) || berry_kind(
            "file"@,
            p,
        ) == BerryKind::Local(LocalSourceView::Tarball(p)),
{
    lemma_protocols_differ();
    lemma_no_hash(p);
}

/// The path behind `file:` is that of a tarball exactly where the name at its end has
/// the extension `tgz` or `gz`, in small or capital letters.
pub proof fn law_file_protocol(dir: Seq<char>, stem: Seq<char>, ext: Seq<char>)
    requires
        stem.len() > 0,
        !stem.contains('/') && !ext.contains('/') && !ext.contains('.'),
        ext.len() > 0,
        !dir.contains('#') && !stem.contains('#') && !ext.contains('#'),
    ensures
        ({
            let name = stem + "."@ + ext;
            let p = dir + "/"@ + name;
            let packed = ext.len() == 3 && (ext[0] == 't' || ext[0] == 'T') && (ext[1] == 'g'
                || ext[1] == 'G') && (ext[2] == 'z' || ext[2] == 'Z') || ext.len() == 2 && (ext[0]
                == 'g' || ext[0] == 'G') && (ext[1] == 'z' || ext[1] == 'Z');
            &&& berry_kind("file"@, p) == BerryKind::Local(
                if packed {
                    LocalSourceView::Tarball(p)
                } else {
                    LocalSourceView::Directory(p)
                },
            )
            &&& berry_kind("file"@, name) == BerryKind::Local(
                if packed {
                    LocalSourceView::Tarball(name)
                } else {
                    LocalSourceView::Directory(name)
                },
            )
        }),
{
    reveal_strlit("/");
    reveal_strlit(".");
    reveal_strlit("..");
    let name = stem + "."@ + ext;
    let p = dir + "/"@ + name;
    assert forall|i: int| 0 <= i < name.len() implies name[i] != '/' && name[i] != '#' by {
        if i < stem.len() {
            assert(stem.contains(name[i]));
        } else if i > stem.len() {
            assert(ext.contains(name[i]));
        }
    }
    assert forall|i: int| 0 <= i < p.len() implies p[i] != '#' by {
        if i < dir.len() {
            assert(dir.contains(p[i]));
        } else if i > dir.len() {
            assert(p[i] == name[i - dir.len() - 1]);
        }
    }
    lemma_protocols_differ();
    lemma_no_hash(p);
    lemma_no_hash(name);
    assert(name != "."@ && name != ".."@) by {
        assert(name.len() >= 3);
    }
    law_tarball_names(dir, name);
    lemma_rfind_char_before(name, '.', name.len() as int);
    let k = stem.len() as int;
    assert(name[k] == '.');
    assert(rfind_char(name, '.') == Some(k)) by {
        let r = rfind_char(name, '.')->0;
        if r > k {
            assert(ext.contains(name[r]));
        }
    }
    assert(name.skip(k + 1) =~= ext);
    assert(extension(name) == Some(ext) && extension(p) == Some(ext));
    let low = to_lower(ext);
    reveal_strlit("tgz");
    reveal_strlit("gz");
    if low == "tgz"@ {
        assert("tgz"@.len() == 3 && low.len() == ext.len());
        assert(low[0] == 't' && low[1] == 'g' && low[2] == 'z');
        lemma_lower(ext[0], 't', 'T');
        lemma_lower(ext[1], 'g', 'G');
        lemma_lower(ext[2], 'z', 'Z');
    }
    if low == "gz"@ {
        assert("gz"@.len() == 2 && low.len() == ext.len());
        assert(low[0] == 'g' && low[1] == 'z');
        lemma_lower(ext[0], 'g', 'G');
        lemma_lower(ext[1], 'z', 'Z');
    }
    if ext.len() == 3 && (ext[0] == 't' || ext[0] == 'T') && (ext[1] == 'g' || ext[1] == 'G') && (
    ext[2] == 'z' || ext[2] == 'Z') {
        assert(low =~= "tgz"@);
    }
    if ext.len() == 2 && (ext[0] == 'g' || ext[0] == 'G') && (ext[1] == 'z' || ext[1] == 'Z') {
        assert(low =~= "gz"@);
    }
}

proof fn lemma_lower(c: char, small: char, capital: char)
    requires
        lower(c) == small,
        small as int == capital as int + 32,
    ensures
        c == small || c == capital,
{
    if 'A' <= c <= 'Z' {
        assert((c as int + 32) as char as int == c as int + 32);
    }
}

/// The path behind `file:` of a name without a dot is that of a directory.
pub proof fn law_directories(dir: Seq<char>, name: Seq<char>)
    requires
        name.len() > 0,
        !name.contains('/') && !name.contains('.') && !name.contains('#') && !dir.contains('#'),
    ensures
        berry_kind("file"@, dir + "/"@ + name) == BerryKind::Local(
            LocalSourceView::Directory(dir + "/"@ + name),
        ),
        berry_kind("file"@, name) == BerryKind::Local(LocalSourceView::Directory(name)),
{
    reveal_strlit("/");
    reveal_strlit(".");
    reveal_strlit("..");
    let p = dir + "/"@ + name;
    assert forall|i: int| 0 <= i < p.len() implies p[i] != '#' by {
        if i < dir.len() {
            assert(dir.contains(p[i]));
        } else if i > dir.len() {
            assert(name.contains(p[i]));
        }
    }
    lemma_protocols_differ();
    lemma_no_hash(p);
    lemma_no_hash(name);
    assert(name != "."@ && name != ".."@) by {
        assert(name.contains(name[0]));
    }
    law_tarball_names(dir, name);
    lemma_rfind_char_before(name, '.', name.len() as int);
    if rfind_char(name, '.') is Some {
        assert(name.contains(name[rfind_char(name, '.')->0]));
    }
}

/// Forty hexadecimal digits.
pub open spec fn is_commit(sha: Seq<char>) -> bool {
    sha.len() == 40 && forall|i: int|
        0 <= i < 40 ==> ('0' <= #[trigger] sha[i] <= '9') || ('a' <= sha[i] <= 'f') || ('A'
            <= sha[i] <= 'F')
}

proof fn lemma_commit(url: Seq<char>, sha: Seq<char>)
    requires
        !url.contains('#'),
        is_commit(sha),
    ensures
        ({
            let pinned = url + "#"@ + sha;
            &&& has_commit_hash(pinned)
            &&& git_source(pinned) == LocalSourceView::Git(
                GitSourceView { url, committish: None, resolved: sha, subpath: None },
            )
        }),
{
    reveal_strlit("#");
    let pinned = url + "#"@ + sha;
    assert(pinned =~= url + seq!['#'] + sha);
    lemma_split_once_at(url, '#', sha);
    lemma_find_char(pinned, '#');
    assert(!sha.contains('&') && !sha.contains('=') && !sha.contains(':'));
    law_bare_reference(sha);
    assert(is_full_sha(sha)) by {
        assert forall|i: int| 0 <= i < sha.len() implies crate::text::is_hex_digit(
            #[trigger] sha[i],
        ) by {}
    }
}

/// An HTTP URL with a full commit behind it is a git repository, and one that ends in
/// `.git` too. Any other is that of a tarball.
pub proof fn law_http_protocols(secure: bool, x: Seq<char>, sha: Seq<char>)
    requires
        !x.contains('#'),
        is_commit(sha),
    ensures
        ({
            let protocol = if secure {
                "https"@
            } else {
                "http"@
            };
            let url = protocol + ":"@ + x;
            &&& berry_kind(protocol, x + "#"@ + sha) == BerryKind::Local(
                LocalSourceView::Git(
                    GitSourceView { url, committish: None, resolved: sha, subpath: None },
                ),
            )
            &&& berry_kind(protocol, x) == BerryKind::Local(
                if ".git"@.is_suffix_of(url) {
                    LocalSourceView::Git(
                        GitSourceView {
                            url,
                            committish: None,
                            resolved: Seq::empty(),
                            subpath: None,
                        },
                    )
                } else {
                    LocalSourceView::RemoteTarball(
                        RemoteTarballView { url, integrity: Seq::empty() },
                    )
                },
            )
        }),
{
    reveal_strlit("https");
    reveal_strlit("http");
    reveal_strlit(":");
    reveal_strlit("#");
    reveal_strlit(".git#");
    let protocol = if secure {
        "https"@
    } else {
        "http"@
    };
    let url = protocol + ":"@ + x;
    lemma_protocols_differ();
    assert forall|i: int| 0 <= i < url.len() implies url[i] != '#' by {
        if i > protocol.len() {
            assert(x.contains(url[i]));
        }
    }
    lemma_no_hash(url);
    assert(!url.contains('#'));
    lemma_commit(url, sha);
    assert(protocol + ":"@ + (x + "#"@ + sha) =~= url + "#"@ + sha);
    lemma_find_from(url, ".git#"@, 0);
    if let Some(k) = find(url, ".git#"@) {
        let part = url.subrange(k, k + 5);
        assert(part[4] == url[k + 4]);
    }
}

/// The protocols of git name a repository that is pinned by its fragment.
pub proof fn law_git_protocols(protocol: Seq<char>, x: Seq<char>, sha: Seq<char>)
    requires
        protocol == "git"@ || protocol == "ssh"@ || protocol == "git+ssh"@ || protocol
            == "git+https"@ || protocol == "git+http"@ || protocol == "git+file"@,
        !x.contains('#'),
        is_commit(sha),
    ensures
        berry_kind(protocol, x + "#"@ + sha) == BerryKind::Local(
            LocalSourceView::Git(
                GitSourceView {
                    url: protocol + ":"@ + x,
                    committish: None,
                    resolved: sha,
                    subpath: None,
                },
            ),
        ),
{
    reveal_strlit("git+");
    reveal_strlit("git+ssh");
    reveal_strlit("git+https");
    reveal_strlit("git+http");
    reveal_strlit("git+file");
    reveal_strlit("git");
    reveal_strlit("ssh");
    reveal_strlit(":");
    lemma_protocols_differ();
    lemma_plus(protocol);
    let url = protocol + ":"@ + x;
    assert forall|i: int| 0 <= i < url.len() implies url[i] != '#' by {
        if i < protocol.len() {
            assert(url[i] == protocol[i]);
        } else if i > protocol.len() {
            assert(x.contains(url[i]));
        }
    }
    assert(!url.contains('#'));
    lemma_commit(url, sha);
    assert(protocol + ":"@ + (x + "#"@ + sha) =~= url + "#"@ + sha);
}

proof fn lemma_plus(protocol: Seq<char>)
    requires
        protocol == "git"@ || protocol == "ssh"@ || protocol == "git+ssh"@ || protocol
            == "git+https"@ || protocol == "git+http"@ || protocol == "git+file"@,
    ensures
        protocol == "git"@ || protocol == "ssh"@ || "git+"@.is_prefix_of(protocol),
        protocol != "npm"@ && protocol != "workspace"@ && protocol != "file"@ && protocol
            != "link"@ && protocol != "http"@ && protocol != "https"@,
{
    reveal_strlit("git+");
    reveal_strlit("git+ssh");
    reveal_strlit("git+https");
    reveal_strlit("git+http");
    reveal_strlit("git+file");
    reveal_strlit("git");
    reveal_strlit("ssh");
    reveal_strlit("npm");
    reveal_strlit("workspace");
    reveal_strlit("file");
    reveal_strlit("link");
    reveal_strlit("http");
    reveal_strlit("https");
    assert("npm"@[0] == 'n' && "workspace"@[0] == 'w' && "file"@[0] == 'f' && "link"@[0] == 'l'
        && "http"@[0] == 'h' && "https"@[0] == 'h');
    assert(protocol[0] == 'g' || protocol[0] == 's');
    if protocol != "git"@ && protocol != "ssh"@ {
        assert("git+"@ =~= protocol.take(4));
    }
}

/// Any other protocol is skipped.
pub proof fn law_other_protocols(protocol: Seq<char>, body: Seq<char>)
    requires
        protocol != "npm"@ && protocol != "workspace"@ && protocol != "file"@ && protocol
            != "link"@ && protocol != "http"@ && protocol != "https"@,
        protocol != "git"@ && protocol != "ssh"@,
        !"git+"@.is_prefix_of(protocol) && !"ssh+"@.is_prefix_of(protocol),
    ensures
        berry_kind(protocol, body) == BerryKind::Skipped,
{
}

proof fn lemma_specifier_of(p: Seq<char>)
    requires
        !p.contains('\\'),
    ensures
        LocalSourceView::Directory(p).specifier() == "file"@ + ":"@ + p,
        LocalSourceView::Tarball(p).specifier() == "file"@ + ":"@ + p,
        LocalSourceView::Link(p).specifier() == "link"@ + ":"@ + p,
        split_once("file"@ + ":"@ + p, ':') == Some(("file"@, p)),
        split_once("link"@ + ":"@ + p, ':') == Some(("link"@, p)),
{
    reveal_strlit(":");
    reveal_strlit("file");
    reveal_strlit("link");
    let q = LocalSourceView::Directory(p).posix();
    assert(q =~= p) by {
        assert forall|i: int| 0 <= i < p.len() implies q[i] == p[i] by {
            assert(p.contains(p[i]));
        }
    }
    assert(LocalSourceView::Tarball(p).posix() =~= q);
    assert(LocalSourceView::Link(p).posix() =~= q);
    assert(!"file"@.contains(':') && !"link"@.contains(':'));
    assert("file"@ + ":"@ + p =~= "file"@ + seq![':'] + p);
    assert("link"@ + ":"@ + p =~= "link"@ + seq![':'] + p);
    lemma_split_once_at("file"@, ':', p);
    lemma_split_once_at("link"@, ':', p);
}

/// Every link is a source that a berry lockfile can tell.
pub proof fn law_links_are_told(p: Seq<char>)
    requires
        !p.contains('#') && !p.contains('\\'),
    ensures
        is_berry_source(LocalSourceView::Link(p)),
{
    lemma_specifier_of(p);
    law_protocols(p);
}

/// Of each path, a berry lockfile can tell the directory or the tarball there.
pub proof fn law_paths_are_told(p: Seq<char>)
    requires
        !p.contains('#') && !p.contains('\\'),
    ensures
        is_berry_source(LocalSourceView::Directory(p)) != is_berry_source(
            LocalSourceView::Tarball(p),
        ),
{
    lemma_specifier_of(p);
    law_protocols(p);
}

/// A directory whose name has no dot, and a tarball with such a name, are sources that
/// a berry lockfile can tell.
pub proof fn law_named_paths_are_told(dir: Seq<char>, name: Seq<char>)
    requires
        name.len() > 0,
        !name.contains('/') && !name.contains('.'),
        !name.contains('#') && !dir.contains('#') && !name.contains('\\') && !dir.contains('\\'),
    ensures
        is_berry_source(LocalSourceView::Directory(dir + "/"@ + name)),
        is_berry_source(LocalSourceView::Directory(name)),
        is_berry_source(LocalSourceView::Tarball(dir + "/"@ + (name + "."@ + "tgz"@))),
{
    reveal_strlit("/");
    reveal_strlit(".");
    reveal_strlit("tgz");
    let p = dir + "/"@ + name;
    let file = name + "."@ + "tgz"@;
    let q = dir + "/"@ + file;
    assert forall|i: int| 0 <= i < q.len() implies q[i] != '\\' by {
        if i < dir.len() {
            assert(dir.contains(q[i]));
        } else if dir.len() < i < dir.len() + 1 + name.len() {
            assert(name.contains(q[i]));
        }
    }
    assert forall|i: int| 0 <= i < p.len() implies p[i] != '\\' by {
        if i < dir.len() {
            assert(dir.contains(p[i]));
        } else if dir.len() < i {
            assert(name.contains(p[i]));
        }
    }
    lemma_specifier_of(p);
    lemma_specifier_of(name);
    lemma_specifier_of(q);
    law_directories(dir, name);
    assert(!"tgz"@.contains('/') && !"tgz"@.contains('.') && !"tgz"@.contains('#'));
    law_file_protocol(dir, name, "tgz"@);
}

/// A git repository that is pinned by a full commit is a source that a berry lockfile
/// can tell.
pub proof fn law_commits_are_told(protocol: Seq<char>, x: Seq<char>, sha: Seq<char>)
    requires
        protocol == "https"@ || protocol == "http"@ || protocol == "git"@ || protocol == "ssh"@
            || protocol == "git+ssh"@ || protocol == "git+https"@,
        !x.contains('#'),
        is_commit(sha),
    ensures
        is_berry_source(
            LocalSourceView::Git(
                GitSourceView {
                    url: protocol + ":"@ + x,
                    committish: None,
                    resolved: sha,
                    subpath: None,
                },
            ),
        ),
{
    reveal_strlit(":");
    reveal_strlit("https");
    reveal_strlit("http");
    reveal_strlit("git");
    reveal_strlit("ssh");
    reveal_strlit("git+ssh");
    reveal_strlit("git+https");
    let body = x + "#"@ + sha;
    assert(!protocol.contains(':'));
    lemma_split_once_at(protocol, ':', body);
    assert(protocol + ":"@ + x + "#"@ + sha =~= protocol + seq![':'] + body);
    if protocol == "https"@ {
        law_http_protocols(true, x, sha);
    } else if protocol == "http"@ {
        law_http_protocols(false, x, sha);
    } else {
        law_git_protocols(protocol, x, sha);
    }
}

/// The tarball of an HTTP URL is a source that a berry lockfile can tell.
pub proof fn law_tarball_urls_are_told(secure: bool, x: Seq<char>, sha: Seq<char>)
    requires
        !x.contains('#'),
        is_commit(sha),
        !".git"@.is_suffix_of(
            (if secure {
                "https"@
            } else {
                "http"@
            }) + ":"@ + x,
        ),
    ensures
        is_berry_source(
            LocalSourceView::RemoteTarball(
                RemoteTarballView {
                    url: (if secure {
                        "https"@
                    } else {
                        "http"@
                    }) + ":"@ + x,
                    integrity: Seq::empty(),
                },
            ),
        ),
{
    reveal_strlit(":");
    reveal_strlit("https");
    reveal_strlit("http");
    let protocol = if secure {
        "https"@
    } else {
        "http"@
    };
    assert(!protocol.contains(':'));
    lemma_split_once_at(protocol, ':', x);
    assert(protocol + ":"@ + x =~= protocol + seq![':'] + x);
    law_http_protocols(secure, x, sha);
}

proof fn lemma_fields(block: YamlEntries, key: Seq<char>, s: Seq<char>)
    requires
        is_valid_mapping(block),
        block.contains((YamlView::String(key), YamlView::String(s))),
    ensures
        get(block, key) == Some(YamlView::String(s)),
{
    law_get(block, key, YamlView::String(s));
}

/// A block with a version and a resolution `name@protocol:rest` is read as a package
/// with that name, version and checksum: from the registry for `npm:`, and a link for
/// `link:`. One of the project itself is none, and one with a protocol that is not
/// supported is skipped.
pub proof fn law_block_is_read(
    header: Seq<char>,
    block: YamlEntries,
    name: Seq<char>,
    version: Seq<char>,
    protocol: Seq<char>,
    body: Seq<char>,
)
    requires
        is_valid_mapping(block),
        is_name(name),
        !protocol.contains(':'),
        !body.contains('#'),
        berry_header(header).len() > 0,
        block.contains((YamlView::String("version"@), YamlView::String(version))),
        block.contains(
            (
                YamlView::String("resolution"@),
                YamlView::String(name + "@"@ + (protocol + ":"@ + body)),
            ),
        ),
    ensures
        ({
            let r = berry_block(header, block);
            &&& r is Ok
            &&& r->Ok_0 matches Some(b) ==> b.specs == berry_header(header)
            &&& protocol == "npm"@ ==> (r->Ok_0 matches Some(b) && b.path == dep_path(name, version)
                && (b.package matches Some(p) && p.local_source is None && p.dep_path == b.path))
            &&& protocol == "link"@ ==> (r->Ok_0 matches Some(b) && b.path == LocalSourceView::Link(
                body,
            ).dep_path(name) && (b.package matches Some(p) && p.local_source == Some(
                LocalSourceView::Link(body),
            ) && p.dep_path == b.path))
            &&& protocol == "file"@ ==> (r->Ok_0 matches Some(b) && (b.package matches Some(p) && (
            p.local_source == Some(LocalSourceView::Directory(body)) || p.local_source == Some(
                LocalSourceView::Tarball(body),
            )) && b.path == p.local_source->0.dep_path(name) && p.dep_path == b.path))
            &&& protocol == "workspace"@ ==> (r->Ok_0 matches Some(b) && b.package is None && b.path
                == dep_path(name, version))
            &&& protocol == "patch"@ || protocol == "portal"@ || protocol == "exec"@
                ==> r->Ok_0 is None
            &&& r->Ok_0 matches Some(b) ==> (b.package matches Some(p) ==> p.name == name
                && p.version == version && (forall|c: Seq<char>| #[trigger]
                block.contains((YamlView::String("checksum"@), YamlView::String(c)))
                    ==> p.yarn_checksum == Some(c)))
        }),
{
    let spec = name + "@"@ + (protocol + ":"@ + body);
    law_specifier_parts(name, protocol, body);
    lemma_fields(block, "version"@, version);
    lemma_fields(block, "resolution"@, spec);
    law_protocols(body);
    assert forall|c: Seq<char>| #[trigger]
        block.contains((YamlView::String("checksum"@), YamlView::String(c))) implies get(
        block,
        "checksum"@,
    ) == Some(YamlView::String(c)) by {
        lemma_fields(block, "checksum"@, c);
    }
    if protocol == "patch"@ || protocol == "portal"@ || protocol == "exec"@ {
        reveal_strlit("patch");
        reveal_strlit("portal");
        reveal_strlit("exec");
        reveal_strlit("npm");
        reveal_strlit("workspace");
        reveal_strlit("file");
        reveal_strlit("link");
        reveal_strlit("http");
        reveal_strlit("https");
        reveal_strlit("git");
        reveal_strlit("ssh");
        reveal_strlit("git+");
        reveal_strlit("ssh+");
        assert("npm"@[0] == 'n' && "workspace"@[0] == 'w' && "file"@[0] == 'f' && "link"@[0] == 'l'
            && "http"@[0] == 'h' && "https"@[0] == 'h' && "git"@[0] == 'g' && "ssh"@[0] == 's');
        assert(protocol[0] == 'p' || protocol[0] == 'e');
        if "git+"@.is_prefix_of(protocol) {
            assert(protocol[0] == "git+"@[0]);
        }
        if "ssh+"@.is_prefix_of(protocol) {
            assert(protocol[0] == "ssh+"@[0]);
        }
        law_other_protocols(protocol, body);
    }
}

proof fn lemma_scalar_map(e: YamlEntries, n: int, k: Seq<char>)
    requires
        distinct_keys(e),
        0 <= n <= e.len(),
        forall|i: int| 0 <= i < e.len() ==> (#[trigger] e[i]).0 is String,
    ensures
        forall|s: Seq<char>| #[trigger]
            e.take(n).contains((YamlView::String(k), YamlView::String(s))) ==> scalar_map(
                e,
                n,
            ).dom().contains(k) && scalar_map(e, n)[k] == s,
        scalar_map(e, n).dom().contains(k) ==> exists|v: YamlView| #[trigger]
            e.take(n).contains((YamlView::String(k), v)) && scalar_text(v) == Some(
                scalar_map(e, n)[k],
            ),
    decreases n,
{
    if n > 0 {
        lemma_scalar_map(e, n - 1, k);
        let (a, b) = (e.take(n - 1), e.take(n));
        let last = e[n - 1];
        assert(last.0 is String);
        assert(b[n - 1] == last);
        assert forall|s: Seq<char>| #[trigger]
            b.contains((YamlView::String(k), YamlView::String(s))) implies scalar_map(
            e,
            n,
        ).dom().contains(k) && scalar_map(e, n)[k] == s by {
            let i = choose|i: int|
                0 <= i < b.len() && b[i] == (YamlView::String(k), YamlView::String(s));
            assert(b[i] == e[i]);
            if i < n - 1 {
                assert(a[i] == (YamlView::String(k), YamlView::String(s)));
                assert(a.contains((YamlView::String(k), YamlView::String(s))));
                assert(!equal(e[i].0, e[n - 1].0));
            }
        }
        if scalar_map(e, n).dom().contains(k) {
            if last.0 == YamlView::String(k) && scalar_text(last.1) is Some {
                assert(b.contains((YamlView::String(k), last.1)));
            } else {
                let v = choose|v: YamlView| #[trigger]
                    a.contains((YamlView::String(k), v)) && scalar_text(v) == Some(
                        scalar_map(e, n - 1)[k],
                    );
                let i = choose|i: int| 0 <= i < a.len() && a[i] == (YamlView::String(k), v);
                assert(b[i] == (YamlView::String(k), v));
                assert(b.contains((YamlView::String(k), v)));
            }
        }
    }
}

/// A section of a block maps a name to a text exactly where its mapping holds the name
/// with the text, be it spelled as a string, a number or a boolean.
pub proof fn law_dep_section(
    block: YamlEntries,
    key: Seq<char>,
    e: YamlEntries,
    k: Seq<char>,
    s: Seq<char>,
)
    requires
        is_valid_mapping(block),
        distinct_keys(e),
        block.contains((YamlView::String(key), YamlView::Mapping(e))),
        forall|i: int| 0 <= i < e.len() ==> (#[trigger] e[i]).0 is String,
    ensures
        ({
            let m = dep_section(block, key);
            &&& e.contains((YamlView::String(k), YamlView::String(s))) ==> m.dom().contains(k)
                && m[k] == s
            &&& m.dom().contains(k) ==> exists|v: YamlView| #[trigger]
                e.contains((YamlView::String(k), v)) && match v {
                    YamlView::String(t) => t == m[k],
                    YamlView::Number(t, _) => t == m[k],
                    YamlView::Bool(b) => m[k] == if b {
                        "true"@
                    } else {
                        "false"@
                    },
                    _ => false,
                }
        }),
{
    law_get(block, key, YamlView::Mapping(e));
    assert(mapping(YamlView::Mapping(e)) == Some(e));
    lemma_scalar_map(e, e.len() as int, k);
    assert(e.take(e.len() as int) =~= e);
    let m = dep_section(block, key);
    if m.dom().contains(k) {
        let v = choose|v: YamlView| #[trigger]
            e.contains((YamlView::String(k), v)) && scalar_text(v) == Some(m[k]);
        assert(e.contains((YamlView::String(k), v)));
    }
}

/// A section that a block does not have is empty.
pub proof fn law_missing_section(block: YamlEntries, key: Seq<char>, k: Seq<char>)
    requires
        is_valid_mapping(block),
        forall|v: YamlView| !(#[trigger] block.contains((YamlView::String(key), v))),
    ensures
        !dep_section(block, key).dom().contains(k),
{
    law_get(block, key, YamlView::Null);
}

proof fn lemma_meta_map(e: YamlEntries, n: int, k: Seq<char>, meta: YamlEntries)
    requires
        distinct_keys(e),
        distinct_keys(meta),
        0 <= n <= e.len(),
        forall|i: int| 0 <= i < e.len() ==> (#[trigger] e[i]).0 is String,
        e.take(n).contains((YamlView::String(k), YamlView::Mapping(meta))),
    ensures
        meta_map(e, n).dom().contains(k),
        meta_map(e, n)[k].optional <==> meta.contains(
            (YamlView::String("optional"@), YamlView::Bool(true)),
        ) || crate::yarn::berry::is_optional(meta),
        meta.contains((YamlView::String("optional"@), YamlView::Bool(false)))
            ==> !meta_map(e, n)[k].optional,
    decreases n,
{
    let b = e.take(n);
    let i = choose|i: int|
        0 <= i < b.len() && b[i] == (YamlView::String(k), YamlView::Mapping(meta));
    assert(b[i] == e[i]);
    law_get(meta, "optional"@, YamlView::Bool(true));
    law_get(meta, "optional"@, YamlView::Bool(false));
    assert(mapping(YamlView::Mapping(meta)) == Some(meta));
    if i < n - 1 {
        let a = e.take(n - 1);
        assert(a[i] == (YamlView::String(k), YamlView::Mapping(meta)));
        lemma_meta_map(e, n - 1, k, meta);
        assert(e[n - 1].0 is String);
        assert(!equal(e[i].0, e[n - 1].0));
    }
}

/// A peer is optional where the block says so, and not where it says that it is not.
pub proof fn law_optional_peers(block: YamlEntries, e: YamlEntries, k: Seq<char>, meta: YamlEntries)
    requires
        is_valid_mapping(block),
        distinct_keys(e),
        distinct_keys(meta),
        block.contains((YamlView::String("peerDependenciesMeta"@), YamlView::Mapping(e))),
        forall|i: int| 0 <= i < e.len() ==> (#[trigger] e[i]).0 is String,
        e.contains((YamlView::String(k), YamlView::Mapping(meta))),
    ensures
        ({
            let m = meta_section(block);
            &&& m.dom().contains(k)
            &&& meta.contains((YamlView::String("optional"@), YamlView::Bool(true)))
                ==> m[k].optional
            &&& meta.contains((YamlView::String("optional"@), YamlView::Bool(false)))
                ==> !m[k].optional
            &&& (forall|v: YamlView| !(#[trigger] meta.contains((YamlView::String("optional"@), v))))
                ==> !m[k].optional
        }),
{
    law_get(block, "peerDependenciesMeta"@, YamlView::Mapping(e));
    assert(mapping(YamlView::Mapping(e)) == Some(e));
    assert(e.take(e.len() as int) =~= e);
    lemma_meta_map(e, e.len() as int, k, meta);
    law_get(meta, "optional"@, YamlView::Bool(true));
}

proof fn lemma_raw_first(entries: YamlEntries, n: int, i: int, b: BerryBlock)
    requires
        0 <= i < n <= entries.len(),
        berry_entry(entries[i]) == Ok::<Option<BerryBlock>, BerryErrorView>(Some(b)),
        b.package is Some,
        forall|j: int|
            0 <= j < i ==> (berry_entry(#[trigger] entries[j]) matches Ok(Some(c)) ==> c.path
                != b.path || c.package is None),
    ensures
        raw_packages(entries, n).dom().contains(b.path),
        raw_packages(entries, n)[b.path] == b.package->0,
    decreases n,
{
    if i < n - 1 {
        lemma_raw_first(entries, n - 1, i, b);
    } else {
        lemma_raw_none(entries, i, b.path);
    }
}

proof fn lemma_raw_none(entries: YamlEntries, n: int, path: Seq<char>)
    requires
        0 <= n <= entries.len(),
        forall|j: int|
            0 <= j < n ==> (berry_entry(#[trigger] entries[j]) matches Ok(Some(c)) ==> c.path != path
                || c.package is None),
    ensures
        !raw_packages(entries, n).dom().contains(path),
    decreases n,
{
    if n > 0 {
        lemma_raw_none(entries, n - 1, path);
        assert(berry_entry(entries[n - 1]) matches Ok(Some(c)) ==> c.path != path || c.package
            is None);
    }
}

/// A block is the package of the graph under its path, unless a block before it has
/// that path too.
pub proof fn law_blocks_are_packages(
    entries: YamlEntries,
    ranges: Ranges,
    g: LockfileGraphView,
    i: int,
    b: BerryBlock,
)
    requires
        tree_graph(YamlView::Mapping(entries), ranges) == Ok::<LockfileGraphView, BerryErrorView>(g),
        0 <= i < entries.len(),
        berry_entry(entries[i]) == Ok::<Option<BerryBlock>, BerryErrorView>(Some(b)),
        b.package is Some,
        forall|j: int|
            0 <= j < i ==> (berry_entry(#[trigger] entries[j]) matches Ok(Some(c)) ==> c.path
                != b.path || c.package is None),
    ensures
        g.packages.dom().contains(b.path),
        g.packages[b.path].name == b.package->0.name,
        g.packages[b.path].version == b.package->0.version,
        g.packages[b.path].dep_path == b.package->0.dep_path,
        g.packages[b.path].local_source == b.package->0.local_source,
        g.packages[b.path].yarn_checksum == b.package->0.yarn_checksum,
        g.packages[b.path].peer_dependencies == b.package->0.peer_dependencies,
        g.packages[b.path].peer_dependencies_meta == b.package->0.peer_dependencies_meta,
        g.packages[b.path].declared_dependencies == b.package->0.declared_dependencies,
{
    lemma_raw_first(entries, entries.len() as int, i, b);
    assert(mapping(YamlView::Mapping(entries)) == Some(entries));
}

/// A linked package of a berry lockfile is a link in the graph, under the key of that
/// link.
pub proof fn law_links_are_read(
    entries: YamlEntries,
    ranges: Ranges,
    g: LockfileGraphView,
    i: int,
    header: Seq<char>,
    block: YamlEntries,
    name: Seq<char>,
    version: Seq<char>,
    p: Seq<char>,
)
    requires
        tree_graph(YamlView::Mapping(entries), ranges) == Ok::<LockfileGraphView, BerryErrorView>(g),
        0 <= i < entries.len(),
        entries[i] == (YamlView::String(header), YamlView::Mapping(block)),
        !"__"@.is_prefix_of(header),
        is_valid_mapping(block),
        is_name(name),
        !p.contains('#'),
        berry_header(header).len() > 0,
        block.contains((YamlView::String("version"@), YamlView::String(version))),
        block.contains(
            (YamlView::String("resolution"@), YamlView::String(name + "@"@ + ("link"@ + ":"@ + p))),
        ),
        forall|j: int|
            0 <= j < i ==> (berry_entry(#[trigger] entries[j]) matches Ok(Some(c)) ==> c.path
                != LocalSourceView::Link(p).dep_path(name) || c.package is None),
    ensures
        ({
            let key = LocalSourceView::Link(p).dep_path(name);
            &&& g.packages.dom().contains(key)
            &&& g.packages[key].name == name
            &&& g.packages[key].version == version
            &&& g.packages[key].local_source == Some(LocalSourceView::Link(p))
        }),
{
    reveal_strlit("link");
    assert(!"link"@.contains(':'));
    law_block_is_read(header, block, name, version, "link"@, p);
    assert(mapping(YamlView::Mapping(block)) == Some(block));
    let b = berry_block(header, block)->Ok_0->0;
    assert(berry_entry(entries[i]) == berry_block(header, block));
    law_blocks_are_packages(entries, ranges, g, i, b);
}

/// A lockfile whose metadata has a version under three is refused.
pub proof fn law_old_versions_are_refused(
    entries: YamlEntries,
    meta: YamlEntries,
    t: Seq<char>,
    v: u64,
    ranges: Ranges,
)
    requires
        distinct_keys(entries),
        distinct_keys(meta),
        entries.contains((YamlView::String("__metadata"@), YamlView::Mapping(meta))),
        meta.contains((YamlView::String("version"@), YamlView::Number(t, Some(v)))),
    ensures
        v < 3 ==> tree_graph(YamlView::Mapping(entries), ranges) == Err::<
            LockfileGraphView,
            BerryErrorView,
        >(BerryErrorView::OldVersion(v)),
        v >= 3 ==> !(tree_graph(YamlView::Mapping(entries), ranges) matches Err(
            BerryErrorView::OldVersion(_),
        )) || first_wrong_entry(entries, entries.len() as int) is Some,
{
    law_get(entries, "__metadata"@, YamlView::Mapping(meta));
    law_get(meta, "version"@, YamlView::Number(t, Some(v)));
    assert(mapping(YamlView::Mapping(entries)) == Some(entries));
    assert(mapping(YamlView::Mapping(meta)) == Some(meta));
}

/// The sections of a block are those of its package: what it depends on, what it may
/// depend on, and its peers.
pub proof fn law_block_sections(header: Seq<char>, block: YamlEntries, n: Seq<char>)
    ensures
        berry_block(header, block) matches Ok(Some(b)) ==> (b.package matches Some(p) ==> {
            let (x, y) = (
                dep_section(block, "dependencies"@),
                dep_section(block, "optionalDependencies"@),
            );
            &&& p.dependencies == x
            &&& p.optional_dependencies == y
            &&& p.peer_dependencies == dep_section(block, "peerDependencies"@)
            &&& p.peer_dependencies_meta == meta_section(block)
            &&& y.dom().contains(n) ==> p.declared_dependencies.dom().contains(n)
                && p.declared_dependencies[n] == y[n]
            &&& x.dom().contains(n) && !y.dom().contains(n) ==> p.declared_dependencies.dom().contains(
                n,
            ) && p.declared_dependencies[n] == x[n]
            &&& p.declared_dependencies.dom().contains(n) ==> x.dom().contains(n)
                || y.dom().contains(n)
        }),
{
}

/// The bytes that show a berry lockfile spell `__metadata:`.
pub proof fn law_metadata_bytes(i: int)
    requires
        0 <= i < 11,
    ensures
        metadata_bytes().len() == "__metadata:"@.len(),
        metadata_bytes()[i] as int == "__metadata:"@[i] as int,
{
    reveal_strlit("__metadata:");
}

/// The commit may be given with its selector.
pub proof fn law_selected_commits(secure: bool, x: Seq<char>, sha: Seq<char>)
    requires
        !x.contains('#'),
        is_commit(sha),
    ensures
        ({
            let protocol = if secure {
                "https"@
            } else {
                "http"@
            };
            berry_kind(protocol, x + "#"@ + ("commit"@ + "="@ + sha)) == BerryKind::Local(
                LocalSourceView::Git(
                    GitSourceView {
                        url: protocol + ":"@ + x,
                        committish: None,
                        resolved: sha,
                        subpath: None,
                    },
                ),
            )
        }),
{
    reveal_strlit("https");
    reveal_strlit("http");
    reveal_strlit(":");
    reveal_strlit("#");
    let protocol = if secure {
        "https"@
    } else {
        "http"@
    };
    let url = protocol + ":"@ + x;
    let fragment = "commit"@ + "="@ + sha;
    lemma_protocols_differ();
    assert forall|i: int| 0 <= i < url.len() implies url[i] != '#' by {
        if i > protocol.len() {
            assert(x.contains(url[i]));
        }
    }
    assert(!url.contains('#'));
    let pinned = url + "#"@ + fragment;
    assert(pinned =~= url + seq!['#'] + fragment);
    lemma_split_once_at(url, '#', fragment);
    lemma_find_char(pinned, '#');
    assert(!sha.contains('&') && !sha.contains('='));
    law_reference_selectors("commit"@, false, sha);
    assert(is_full_sha(sha)) by {
        assert forall|i: int| 0 <= i < sha.len() implies crate::text::is_hex_digit(
            #[trigger] sha[i],
        ) by {}
    }
    assert(protocol + ":"@ + (x + "#"@ + fragment) =~= pinned);
}

/// A URL with `.git` in front of its fragment is a git repository, whatever reference the
/// fragment names.
pub proof fn law_git_references(secure: bool, x: Seq<char>, name: Seq<char>)
    requires
        !x.contains('#'),
        name.len() > 0,
        !name.contains('&') && !name.contains('=') && !name.contains(':'),
    ensures
        ({
            let protocol = if secure {
                "https"@
            } else {
                "http"@
            };
            berry_kind(protocol, x + ".git"@ + "#"@ + name) == BerryKind::Local(
                LocalSourceView::Git(
                    GitSourceView {
                        url: protocol + ":"@ + x + ".git"@,
                        committish: None,
                        resolved: name,
                        subpath: None,
                    },
                ),
            )
        }),
{
    reveal_strlit("https");
    reveal_strlit("http");
    reveal_strlit(":");
    reveal_strlit("#");
    reveal_strlit(".git");
    reveal_strlit(".git#");
    let protocol = if secure {
        "https"@
    } else {
        "http"@
    };
    let url = protocol + ":"@ + x + ".git"@;
    let n = protocol.len() as int;
    lemma_protocols_differ();
    assert forall|i: int| 0 <= i < url.len() implies url[i] != '#' by {
        if n < i < n + 1 + x.len() {
            assert(x.contains(url[i]));
        }
    }
    assert(!url.contains('#'));
    let pinned = url + "#"@ + name;
    assert(pinned =~= url + seq!['#'] + name);
    lemma_split_once_at(url, '#', name);
    lemma_find_char(pinned, '#');
    law_bare_reference(name);
    assert(protocol + ":"@ + (x + ".git"@ + "#"@ + name) =~= pinned);
    let k = n + 1 + x.len();
    assert(pinned.subrange(k, k + 5) =~= ".git#"@);
    assert(occurs_at(pinned, ".git#"@, k));
    lemma_find_from(pinned, ".git#"@, 0);
}

/// Any protocol that starts with `git+` or `ssh+` is one of git.
pub proof fn law_plus_protocols(rest: Seq<char>, ssh: bool, x: Seq<char>, sha: Seq<char>)
    requires
        !rest.contains('#') && !x.contains('#'),
        is_commit(sha),
    ensures
        ({
            let protocol = (if ssh {
                "ssh+"@
            } else {
                "git+"@
            }) + rest;
            berry_kind(protocol, x + "#"@ + sha) == BerryKind::Local(
                LocalSourceView::Git(
                    GitSourceView {
                        url: protocol + ":"@ + x,
                        committish: None,
                        resolved: sha,
                        subpath: None,
                    },
                ),
            )
        }),
{
    reveal_strlit("git+");
    reveal_strlit("ssh+");
    reveal_strlit(":");
    reveal_strlit("npm");
    reveal_strlit("workspace");
    reveal_strlit("file");
    reveal_strlit("link");
    reveal_strlit("http");
    reveal_strlit("https");
    let start = if ssh {
        "ssh+"@
    } else {
        "git+"@
    };
    let protocol = start + rest;
    assert(protocol.take(4) =~= start);
    assert(protocol[0] == start[0]);
    assert("npm"@[0] == 'n' && "workspace"@[0] == 'w' && "file"@[0] == 'f' && "link"@[0] == 'l'
        && "http"@[0] == 'h' && "https"@[0] == 'h');
    let url = protocol + ":"@ + x;
    assert forall|i: int| 0 <= i < url.len() implies url[i] != '#' by {
        if 4 <= i < protocol.len() {
            assert(rest.contains(url[i]));
        } else if i > protocol.len() {
            assert(x.contains(url[i]));
        }
    }
    assert(!url.contains('#'));
    lemma_commit(url, sha);
    assert(protocol + ":"@ + (x + "#"@ + sha) =~= url + "#"@ + sha);
}

/// The blocks that are skipped are all listed, in their order.
pub proof fn law_skipped_in_order(entries: YamlEntries, n: int) -> (at: Seq<int>)
    requires
        0 <= n <= entries.len(),
    ensures
        at.len() == skipped_entries(entries, n).len(),
        forall|j: int|
            0 <= j < at.len() ==> 0 <= #[trigger] at[j] < n && skipped_entry(entries[at[j]]) == Some(
                skipped_entries(entries, n)[j],
            ),
        forall|i: int, j: int| 0 <= i < j < at.len() ==> at[i] < at[j],
        forall|i: int| 0 <= i < n && skipped_entry(#[trigger] entries[i]) is Some ==> at.contains(i),
    decreases n,
{
    if n > 0 {
        let front = law_skipped_in_order(entries, n - 1);
        match skipped_entry(entries[n - 1]) {
            Some(b) => {
                let at = front.push(n - 1);
                assert(at[front.len() as int] == n - 1);
                assert forall|i: int| 0 <= i < n && skipped_entry(#[trigger] entries[i]) is Some implies
                    at.contains(i) by {
                    if i < n - 1 {
                        let j = choose|j: int| 0 <= j < front.len() && front[j] == i;
                        assert(at[j] == i);
                    }
                }
                at
            },
            None => front,
        }
    } else {
        Seq::empty()
    }
}

/// A block with a protocol that is not supported is listed with its header and the
/// protocol.
pub proof fn law_skipped_blocks(
    header: Seq<char>,
    block: YamlEntries,
    name: Seq<char>,
    version: Seq<char>,
    protocol: Seq<char>,
    body: Seq<char>,
)
    requires
        is_valid_mapping(block),
        is_name(name),
        !"__"@.is_prefix_of(header),
        berry_header(header).len() > 0,
        protocol == "patch"@ || protocol == "portal"@ || protocol == "exec"@,
        !body.contains('#'),
        block.contains((YamlView::String("version"@), YamlView::String(version))),
        block.contains(
            (
                YamlView::String("resolution"@),
                YamlView::String(name + "@"@ + (protocol + ":"@ + body)),
            ),
        ),
    ensures
        skipped_entry((YamlView::String(header), YamlView::Mapping(block))) == Some(
            SkippedBlockView { header, protocol },
        ),
{
    reveal_strlit("patch");
    reveal_strlit("portal");
    reveal_strlit("exec");
    assert(!protocol.contains(':'));
    law_block_is_read(header, block, name, version, protocol, body);
    law_specifier_parts(name, protocol, body);
    lemma_fields(block, "version"@, version);
    lemma_fields(block, "resolution"@, name + "@"@ + (protocol + ":"@ + body));
    assert(mapping(YamlView::Mapping(block)) == Some(block));
}

/// The header of a block lists its specifiers, with a comma and a space between them.
pub proof fn law_headers(specs: Seq<Seq<char>>)
    requires
        specs.len() > 0,
        forall|i: int|
            0 <= i < specs.len() ==> (#[trigger] specs[i]).len() > 0 && !is_white(specs[i][0])
                && !is_white(specs[i].last()) && specs[i].last() != ',' && find(specs[i], ", "@)
                is None,
    ensures
        berry_header(glued(specs)) == specs,
{
    assert forall|i: int| 0 <= i < specs.len() implies find(#[trigger] specs[i], ", "@) is None && (
    specs[i].len() == 0 || specs[i].last() != ',') by {}
    law_entries_are_told_apart(specs);
    lemma_header_list(specs);
}

proof fn lemma_header_list(specs: Seq<Seq<char>>)
    requires
        forall|i: int|
            0 <= i < specs.len() ==> (#[trigger] specs[i]).len() > 0 && !is_white(specs[i][0])
                && !is_white(specs[i].last()),
    ensures
        header_list(specs) == specs,
    decreases specs.len(),
{
    if specs.len() > 0 {
        let front = specs.drop_last();
        assert forall|i: int| 0 <= i < front.len() implies (#[trigger] front[i]).len() > 0
            && !is_white(front[i][0]) && !is_white(front[i].last()) by {
            assert(front[i] == specs[i]);
        }
        lemma_header_list(front);
        let s = specs[specs.len() - 1];
        assert(trim(s) == s);
        assert(front.push(s) =~= specs);
    } else {
        assert(header_list(specs) =~= specs);
    }
}

/// A fragment behind a path does not belong to it.
pub proof fn law_fragments_of_paths(p: Seq<char>, y: Seq<char>)
    requires
        !p.contains('#'),
    ensures
        berry_kind("link"@, p + seq!['#'] + y) == berry_kind("link"@, p),
        berry_kind("file"@, p + seq!['#'] + y) == berry_kind("file"@, p),
{
    lemma_protocols_differ();
    lemma_no_hash(p);
    crate::laws::text::law_parts(p, y, '#');
}

/// A value with a tag is taken for the value, whatever the tag.
pub proof fn law_tags(tag: Seq<char>, v: YamlView, e: YamlEntries, s: Seq<char>, b: bool)
    ensures
        mapping(YamlView::Tagged(tag, Box::new(v))) == mapping(v),
        text(YamlView::Tagged(tag, Box::new(v))) == text(v),
        crate::yaml::boolean(YamlView::Tagged(tag, Box::new(v))) == crate::yaml::boolean(v),
        mapping(YamlView::Mapping(e)) == Some(e),
        text(YamlView::String(s)) == Some(s),
        crate::yaml::boolean(YamlView::Bool(b)) == Some(b),
        text(YamlView::Mapping(e)) is None && mapping(YamlView::String(s)) is None && text(
            YamlView::Bool(b),
        ) is None,
        text(YamlView::Null) is None && mapping(YamlView::Null) is None,
{
}

} // verus!
