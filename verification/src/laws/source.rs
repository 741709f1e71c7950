//! What parsing and writing of package sources guarantee together.
use vstd::prelude::*;
use crate::source::{
    after_scheme, clone_url, component, component_from, escape, first_some, git_spec, hex, hex_char,
    hosted_git, hosted_path, hosted_url, is_dotty, is_escaped, is_full_sha, is_http_url,
    is_safe_subpath, local_source, part_commit, part_path, part_ref, plain_url, scp_url,
    GitSourceView, HostedGitHost, HostedGitView, LocalSourceView,
};
use crate::text::{
    find, find_char, lemma_find_char, lemma_find_char_at, lemma_find_char_none, lemma_find_from,
    lemma_split_cons, lemma_split_none, lemma_split_once_at, occurs_at, split, split_once,
    strip_prefix, strip_suffix, trim_start_char, until,
};

verus! {

proof fn lemma_first_some_path(parts: Seq<Seq<char>>)
    ensures
        first_some(parts, |p: Seq<char>| part_path(p)) is Some ==> is_safe_subpath(
            first_some(parts, |p: Seq<char>| part_path(p))->0,
        ),
    decreases parts.len(),
{
    if parts.len() > 0 {
        lemma_first_some_path(parts.drop_last());
    }
}

/// A subdirectory that a git specifier selects stays inside the repository: it
/// is not empty, does not start with a slash, and none of its components is
/// empty, `.` or `..`.
pub proof fn law_subpath_stays_inside(spec: Seq<char>)
    ensures
        git_spec(spec) matches Some((_, _, Some(sub))) ==> {
            &&& is_safe_subpath(sub)
            &&& sub[0] != '/'
        },
{
    if let Some((url, committish, Some(sub))) = git_spec(spec) {
        let (body, fragment) = split_once(spec, '#')->0;
        lemma_first_some_path(split(fragment, '&'));
        lemma_safe_subpath_start(sub);
    }
}

proof fn lemma_safe_subpath_start(sub: Seq<char>)
    requires
        is_safe_subpath(sub),
    ensures
        sub[0] != '/',
{
    if sub[0] == '/' {
        lemma_find_char_at(sub, '/', 0);
        assert(split(sub, '/')[0] == sub.take(0));
        assert(is_dotty(split(sub, '/')[0]));
    }
}

/// A URL with one of the schemes that a clone URL can have, and no fragment.
pub open spec fn is_plain_clone_url(url: Seq<char>) -> bool {
    &&& !url.contains('#')
    &&& "https://"@.is_prefix_of(url) || "http://"@.is_prefix_of(url) || "ssh://"@.is_prefix_of(url)
        || "file://"@.is_prefix_of(url) || "git://"@.is_prefix_of(url)
}

proof fn lemma_plain_clone_url(url: Seq<char>, sha: Seq<char>)
    requires
        is_plain_clone_url(url),
        is_full_sha(sha),
    ensures
        clone_url(url, Some(sha)) == Some(url),
{
    reveal_strlit("https://");
    reveal_strlit("http://");
    reveal_strlit("ssh://");
    reveal_strlit("file://");
    reveal_strlit("git://");
    reveal_strlit("git+");
    reveal_strlit("github:");
    reveal_strlit("gitlab:");
    reveal_strlit("bitbucket:");
    reveal_strlit("://");
    let sep = "://"@;
    assert(!"git+"@.is_prefix_of(url)) by {
        if "git+"@.is_prefix_of(url) {
            assert(url[0] == "git+"@[0] && url[3] == "git+"@[3]);
            if "git://"@.is_prefix_of(url) {
                assert(url[3] == "git://"@[3]);
            }
            if "https://"@.is_prefix_of(url) {
                assert(url[0] == "https://"@[0]);
            }
            if "http://"@.is_prefix_of(url) {
                assert(url[0] == "http://"@[0]);
            }
            if "ssh://"@.is_prefix_of(url) {
                assert(url[0] == "ssh://"@[0]);
            }
            if "file://"@.is_prefix_of(url) {
                assert(url[0] == "file://"@[0]);
            }
        }
    }
    if !"git://"@.is_prefix_of(url) {
        let at: int = if "https://"@.is_prefix_of(url) {
            5
        } else if "http://"@.is_prefix_of(url) || "file://"@.is_prefix_of(url) {
            4
        } else {
            3
        };
        let p = if "https://"@.is_prefix_of(url) {
            "https://"@
        } else if "http://"@.is_prefix_of(url) {
            "http://"@
        } else if "file://"@.is_prefix_of(url) {
            "file://"@
        } else {
            "ssh://"@
        };
        assert(url.take(p.len() as int) == p);
        assert(url[0] == p[0]);
        assert forall|i: int| 0 <= i < 3 implies url.subrange(at, at + 3)[i] == sep[i] by {
            assert(url[at + i] == p[at + i]);
        }
        assert(url.subrange(at, at + 3) == sep);
        assert(occurs_at(url, sep, at));
        lemma_find_from(url, sep, 0);
        assert(scp_url(url) is None);
        if "github:"@.is_prefix_of(url) {
            assert(url[0] == "github:"@[0]);
        }
        if "gitlab:"@.is_prefix_of(url) {
            assert(url[0] == "gitlab:"@[0]);
        }
        if "bitbucket:"@.is_prefix_of(url) {
            assert(url[0] == "bitbucket:"@[0]);
        }
    }
}

proof fn lemma_sha_part(sha: Seq<char>)
    requires
        is_full_sha(sha),
    ensures
        !sha.contains('&'),
        !sha.contains('#'),
        part_commit(sha) is None,
        part_ref(sha) == Some(sha),
        part_path(sha) is None,
{
    reveal_strlit("commit");
    reveal_strlit("path");
    assert(!sha.contains('='));
    assert(!sha.contains(':'));
    lemma_find_char_none(sha, '=');
    lemma_find_char_none(sha, ':');
}

proof fn lemma_path_part(sub: Seq<char>)
    requires
        is_safe_subpath(sub),
        !sub.contains('='),
    ensures
        part_commit("path:/"@ + sub) is None,
        part_ref("path:/"@ + sub) is None,
        part_path("path:/"@ + sub) == Some(sub),
{
    reveal_strlit("path:/");
    reveal_strlit("path");
    reveal_strlit("commit");
    reveal_strlit("tag");
    reveal_strlit("head");
    reveal_strlit("branch");
    let part = "path:/"@ + sub;
    assert forall|i: int| 0 <= i < part.len() implies part[i] != '=' by {
        if i >= 6 {
            assert(sub.contains(sub[i - 6]));
        }
    }
    lemma_find_char_none(part, '=');
    assert(part == "path"@ + seq![':'] + (seq!['/'] + sub));
    lemma_split_once_at("path"@, ':', seq!['/'] + sub);
    assert("head"@[0] == 'h' && "path"@[0] == 'p');
    assert("path"@.len() == 4 && "commit"@.len() == 6 && "tag"@.len() == 3 && "branch"@.len() == 6);
    lemma_safe_subpath_start(sub);
    let value = seq!['/'] + sub;
    assert(value.drop_first() == sub);
    assert(trim_start_char(value, '/') == trim_start_char(sub, '/'));
    assert(trim_start_char(sub, '/') == sub);
}

/// The specifier of a pinned git source parses back to its URL, its commit and
/// its subdirectory. The URL has a scheme and no fragment, and the
/// subdirectory holds neither `&` nor `=`, which separate the parts of a
/// fragment.
pub proof fn law_git_specifier_round_trip(g: GitSourceView)
    requires
        is_plain_clone_url(g.url),
        is_full_sha(g.resolved),
        g.subpath is Some ==> is_safe_subpath(g.subpath->0) && !g.subpath->0.contains('&')
            && !g.subpath->0.contains('='),
    ensures
        git_spec(LocalSourceView::Git(g).specifier()) == Some(
            (g.url, Some(g.resolved), g.subpath),
        ),
{
    let spec = LocalSourceView::Git(g).specifier();
    let sha = g.resolved;
    reveal_strlit("#");
    reveal_strlit("&path:/");
    reveal_strlit("path:/");
    lemma_sha_part(sha);
    lemma_plain_clone_url(g.url, sha);
    let fragment = match g.subpath {
        Some(sub) => sha + "&path:/"@ + sub,
        None => sha,
    };
    assert("#"@ == seq!['#']);
    assert(spec == g.url + seq!['#'] + fragment);
    lemma_split_once_at(g.url, '#', fragment);
    reveal_with_fuel(first_some, 3);
    match g.subpath {
        Some(sub) => {
            lemma_path_part(sub);
            let part = "path:/"@ + sub;
            assert("&path:/"@ == seq!['&'] + "path:/"@);
            assert(fragment == sha + seq!['&'] + part);
            assert forall|i: int| 0 <= i < part.len() implies part[i] != '&' by {
                if i >= 6 {
                    assert(sub.contains(sub[i - 6]));
                }
            }
            lemma_split_none(part, '&');
            lemma_split_cons(sha, '&', part);
            assert(seq![sha] + seq![part] == seq![sha, part]);
            assert(split(fragment, '&') == seq![sha, part]);
            assert(seq![sha, part].drop_last() == seq![sha]);
            assert(seq![sha].drop_last() == Seq::<Seq<char>>::empty());
        },
        None => {
            lemma_split_none(sha, '&');
            assert(seq![sha].drop_last() == Seq::<Seq<char>>::empty());
        },
    }
}

/// An owner and a repository name as they can stand in a hosted URL.
pub open spec fn is_plain_hosted(h: HostedGitView) -> bool {
    &&& h.owner.len() > 0
    &&& h.repo.len() > 0
    &&& !h.owner.contains('/')
    &&& !h.owner.contains('#')
    &&& !h.repo.contains('/')
    &&& !h.repo.contains('#')
}

/// What may stand before the domain of a hosted URL.
pub open spec fn is_hosted_prefix(p: Seq<char>) -> bool {
    ||| p == "https://"@
    ||| p == "http://"@
    ||| p == "git://"@
    ||| p == "ssh://git@"@
    ||| p == "git+https://"@
    ||| p == "git+http://"@
    ||| p == "git+git://"@
    ||| p == "git+ssh://git@"@
}

/// `domain/owner/repo`, with or without `.git`.
pub open spec fn hosted_tail(h: HostedGitView, dot_git: bool) -> Seq<char> {
    h.host.domain() + "/"@ + h.owner + "/"@ + h.repo + (if dot_git {
        ".git"@
    } else {
        Seq::empty()
    })
}

proof fn lemma_domain(host: HostedGitHost)
    ensures
        HostedGitHost::of_domain(host.domain()) == Some(host),
        !host.domain().contains('/'),
        !host.domain().contains('@'),
        !host.domain().contains(':'),
        !host.domain().contains('#'),
        host.domain().len() > 0,
{
    reveal_strlit("github.com");
    reveal_strlit("gitlab.com");
    reveal_strlit("bitbucket.org");
    assert("github.com"@[3] == 'h' && "gitlab.com"@[3] == 'l' && "bitbucket.org"@.len() == 13);
}

proof fn lemma_hosted_path(h: HostedGitView, dot_git: bool)
    requires
        is_plain_hosted(h),
        !dot_git ==> !".git"@.is_suffix_of(h.repo),
    ensures
        hosted_path(hosted_tail(h, dot_git)) == Some(h),
        hosted_path("git@"@ + hosted_tail(h, dot_git)) == Some(h),
{
    reveal_strlit("/");
    reveal_strlit(".git");
    reveal_strlit("git@");
    lemma_domain(h.host);
    let tail = hosted_tail(h, dot_git);
    let suffix = if dot_git {
        ".git"@
    } else {
        Seq::empty()
    };
    let last = h.repo + suffix;
    assert("/"@ == seq!['/']);
    assert(tail == h.host.domain() + seq!['/'] + (h.owner + seq!['/'] + last));
    assert(!last.contains('/')) by {
        assert forall|i: int| 0 <= i < last.len() implies last[i] != '/' by {
            if i < h.repo.len() {
                assert(h.repo.contains(h.repo[i]));
            } else {
                assert(last[i] == suffix[i - h.repo.len()]);
            }
        }
    }
    let path = h.owner + seq!['/'] + last;
    let domain = h.host.domain();
    lemma_find_char_none(domain, '@');
    lemma_split_once_at(h.host.domain(), '/', path);
    lemma_split_none(last, '/');
    lemma_split_cons(h.owner, '/', last);
    assert(seq![h.owner] + seq![last] == seq![h.owner, last]);
    assert(split(path, '/') == seq![h.owner, last]);
    assert(strip_suffix(last, ".git"@) == if dot_git {
        Some(h.repo)
    } else {
        None
    }) by {
        if dot_git {
            assert(last.subrange(last.len() - 4, last.len() as int) == ".git"@);
            assert(last.take(last.len() - 4) == h.repo);
        } else {
            assert(last == h.repo);
        }
    }
    assert(last == h.repo || dot_git);
    reveal_strlit("git");
    let user = "git"@ + seq!['@'] + domain;
    assert("git@"@ + tail =~= user + seq!['/'] + path);
    assert(!user.contains('/')) by {
        assert forall|i: int| 0 <= i < user.len() implies user[i] != '/' by {
            if i >= 4 {
                assert(domain.contains(user[i]));
            }
        }
    }
    lemma_split_once_at(user, '/', path);
    lemma_split_once_at("git"@, '@', domain);
}

/// A hosted URL has no fragment.
proof fn lemma_no_fragment(h: HostedGitView, prefix: Seq<char>, dot_git: bool)
    requires
        is_plain_hosted(h),
        !prefix.contains('#'),
    ensures
        until(prefix + hosted_tail(h, dot_git), '#') == prefix + hosted_tail(h, dot_git),
{
    reveal_strlit("/");
    reveal_strlit(".git");
    lemma_domain(h.host);
    let domain = h.host.domain();
    let url = prefix + hosted_tail(h, dot_git);
    let d = prefix.len() + domain.len();
    let o = d + 1 + h.owner.len();
    let r = o + 1 + h.repo.len();
    assert forall|i: int| 0 <= i < url.len() implies url[i] != '#' by {
        if i < prefix.len() {
            assert(prefix.contains(url[i]));
        } else if i < d {
            assert(domain.contains(url[i]));
        } else if i == d || i == o {
            assert(url[i] == "/"@[0]);
        } else if i < o {
            assert(h.owner.contains(url[i]));
        } else if i < r {
            assert(h.repo.contains(url[i]));
        } else {
            assert(url[i] == ".git"@[i - r]);
        }
    }
    lemma_find_char_none(url, '#');
}

proof fn lemma_prefix_skip(p: Seq<char>, t: Seq<char>)
    ensures
        p.is_prefix_of(p + t),
        strip_prefix(p + t, p) == Some(t),
{
    assert((p + t).take(p.len() as int) == p);
    assert((p + t).skip(p.len() as int) == t);
}

pub proof fn lemma_after_scheme(scheme: Seq<char>, t: Seq<char>)
    requires
        scheme == "https://"@ || scheme == "http://"@ || scheme == "ssh://"@ || scheme == "git://"@,
    ensures
        after_scheme(scheme + t) == Some(t),
        strip_prefix(scheme + t, "git+"@) is None,
{
    reveal_strlit("https://");
    reveal_strlit("http://");
    reveal_strlit("ssh://");
    reveal_strlit("git://");
    reveal_strlit("git+");
    let u = scheme + t;
    lemma_prefix_skip(scheme, t);
    assert forall|i: int| 0 <= i < scheme.len() implies u[i] == scheme[i] by {}
    if "git+"@.is_prefix_of(u) {
        assert(u[0] == "git+"@[0] && u[3] == "git+"@[3]);
    }
    if "https://"@.is_prefix_of(u) {
        assert(u[0] == "https://"@[0] && u[4] == "https://"@[4]);
    }
    if "http://"@.is_prefix_of(u) {
        assert(u[0] == "http://"@[0] && u[4] == "http://"@[4]);
    }
    if "ssh://"@.is_prefix_of(u) {
        assert(u[0] == "ssh://"@[0]);
    }
}

/// Every way to write the URL of a hosted repository names the same
/// repository, so the URL it is fetched from does not depend on the scheme
/// that a lockfile records.
pub proof fn law_hosted_forms_agree(h: HostedGitView, prefix: Seq<char>, dot_git: bool)
    requires
        is_plain_hosted(h),
        is_hosted_prefix(prefix),
        !dot_git ==> !".git"@.is_suffix_of(h.repo),
    ensures
        hosted_git(prefix + hosted_tail(h, dot_git)) == Some(h),
{
    lemma_hosted_path(h, dot_git);
    let (plus, scheme, rest) = lemma_hosted_prefix(prefix, hosted_tail(h, dot_git));
    assert(!prefix.contains('#')) by {
        reveal_strlit("https://");
        reveal_strlit("http://");
        reveal_strlit("git://");
        reveal_strlit("ssh://git@");
        reveal_strlit("git+https://");
        reveal_strlit("git+http://");
        reveal_strlit("git+git://");
        reveal_strlit("git+ssh://git@");
    }
    lemma_no_fragment(h, prefix, dot_git);
    lemma_hosted_git_scheme(scheme, rest);
}

/// A hosted prefix is an optional `git+`, a scheme and an optional `git@`.
proof fn lemma_hosted_prefix(prefix: Seq<char>, tail: Seq<char>) -> (r: (
    bool,
    Seq<char>,
    Seq<char>,
))
    requires
        is_hosted_prefix(prefix),
    ensures
        r.1 == "https://"@ || r.1 == "http://"@ || r.1 == "ssh://"@ || r.1 == "git://"@,
        r.2 == tail || r.2 == "git@"@ + tail,
        prefix + tail == (if r.0 {
            "git+"@ + (r.1 + r.2)
        } else {
            r.1 + r.2
        }),
{
    if prefix == "https://"@ || prefix == "http://"@ || prefix == "git://"@ {
        (false, prefix, tail)
    } else if prefix == "ssh://git@"@ {
        assert("ssh://git@"@ == "ssh://"@ + "git@"@) by {
            reveal_strlit("ssh://git@");
            reveal_strlit("ssh://");
            reveal_strlit("git@");
        }
        lemma_add_assoc("ssh://"@, "git@"@, tail);
        (false, "ssh://"@, "git@"@ + tail)
    } else if prefix == "git+https://"@ {
        assert("git+https://"@ == "git+"@ + "https://"@) by {
            reveal_strlit("git+https://");
            reveal_strlit("git+");
            reveal_strlit("https://");
        }
        lemma_add_assoc("git+"@, "https://"@, tail);
        (true, "https://"@, tail)
    } else if prefix == "git+http://"@ {
        assert("git+http://"@ == "git+"@ + "http://"@) by {
            reveal_strlit("git+http://");
            reveal_strlit("git+");
            reveal_strlit("http://");
        }
        lemma_add_assoc("git+"@, "http://"@, tail);
        (true, "http://"@, tail)
    } else if prefix == "git+git://"@ {
        assert("git+git://"@ == "git+"@ + "git://"@) by {
            reveal_strlit("git+git://");
            reveal_strlit("git+");
            reveal_strlit("git://");
        }
        lemma_add_assoc("git+"@, "git://"@, tail);
        (true, "git://"@, tail)
    } else {
        assert("git+ssh://git@"@ == "git+"@ + ("ssh://"@ + "git@"@)) by {
            reveal_strlit("git+ssh://git@");
            reveal_strlit("git+");
            reveal_strlit("ssh://");
            reveal_strlit("git@");
        }
        lemma_add_assoc("git+"@, "ssh://"@ + "git@"@, tail);
        lemma_add_assoc("ssh://"@, "git@"@, tail);
        (true, "ssh://"@, "git@"@ + tail)
    }
}

proof fn lemma_add_assoc(a: Seq<char>, b: Seq<char>, c: Seq<char>)
    ensures
        (a + b) + c == a + (b + c),
{
}

proof fn lemma_hosted_git_scheme(scheme: Seq<char>, t: Seq<char>)
    requires
        scheme == "https://"@ || scheme == "http://"@ || scheme == "ssh://"@ || scheme == "git://"@,
    ensures
        until(scheme + t, '#') == scheme + t ==> hosted_git(scheme + t) == hosted_path(t),
        until("git+"@ + (scheme + t), '#') == "git+"@ + (scheme + t) ==> hosted_git(
            "git+"@ + (scheme + t),
        ) == hosted_path(t),
{
    lemma_after_scheme(scheme, t);
    lemma_prefix_skip("git+"@, scheme + t);
}

/// The HTTPS clone URL of a hosted repository names that repository.
pub proof fn law_https_url_round_trip(h: HostedGitView)
    requires
        is_plain_hosted(h),
    ensures
        hosted_git(h.https()) == Some(h),
{
    lemma_https_shape(h);
    law_hosted_forms_agree(h, "https://"@, true);
}

proof fn lemma_https_shape(h: HostedGitView)
    ensures
        h.https() == "https://"@ + hosted_tail(h, true),
{
    let (a, b, c, d) = (h.host.domain(), h.owner, h.repo, ".git"@);
    let (p, q) = ("https://"@, "/"@);
    assert(p + a + q + b + q + c + d == p + (a + q + b + q + c + d));
}

/// `git@host:owner/repo`, with or without `.git`.
pub open spec fn scp_form(h: HostedGitView, dot_git: bool) -> Seq<char> {
    "git@"@ + h.host.domain() + ":"@ + h.owner + "/"@ + h.repo + (if dot_git {
        ".git"@
    } else {
        Seq::empty()
    })
}

proof fn lemma_scp_plain(h: HostedGitView, dot_git: bool)
    requires
        is_plain_hosted(h),
    ensures
        until(scp_form(h, dot_git), '#') == scp_form(h, dot_git),
{
    reveal_strlit("git@");
    reveal_strlit(":");
    reveal_strlit("/");
    let url = scp_form(h, dot_git);
    let none = Seq::<char>::empty();
    lemma_no_fragment(h, none, dot_git);
    let tail = none + hosted_tail(h, dot_git);
    lemma_find_char(tail, '#');
    let n = 4 + h.host.domain().len();
    assert forall|i: int| 0 <= i < url.len() implies url[i] != '#' by {
        if i >= 4 && i != n {
            assert(url[i] == tail[i - 4]);
        }
    }
    lemma_find_char(url, '#');
}

proof fn lemma_scp_slash(h: HostedGitView, dot_git: bool)
    requires
        is_plain_hosted(h),
    ensures
        find(scp_form(h, dot_git), "://"@) is None,
{
    reveal_strlit("git@");
    reveal_strlit(":");
    reveal_strlit("/");
    reveal_strlit(".git");
    reveal_strlit("://");
    lemma_domain(h.host);
    let domain = h.host.domain();
    let url = scp_form(h, dot_git);
    let n = 4 + domain.len();
    let o = n + 1 + h.owner.len();
    lemma_find_from(url, "://"@, 0);
    if find(url, "://"@) is Some {
        let k = find(url, "://"@)->0;
        let t = url.subrange(k, k + 3);
        assert(t[1] == url[k + 1] && t[2] == url[k + 2]);
        assert(url[k + 1] == '/' && url[k + 2] == '/');
        assert forall|j: int| 0 <= j < url.len() && url[j] == '/' implies j == o by {
            if j >= 4 && j < n {
                assert(domain.contains(url[j]));
            } else if j > n && j < o {
                assert(h.owner.contains(url[j]));
            } else if j > o && j < o + 1 + h.repo.len() {
                assert(h.repo.contains(url[j]));
            } else if j > o {
                assert(url[j] == ".git"@[j - (o + 1 + h.repo.len())]);
            }
        }
    }
}

proof fn lemma_scp_url(h: HostedGitView, dot_git: bool)
    requires
        is_plain_hosted(h),
    ensures
        scp_url(scp_form(h, dot_git)) == Some("ssh://"@ + ("git@"@ + hosted_tail(h, dot_git))),
{
    reveal_strlit("git@");
    reveal_strlit("git");
    reveal_strlit("@");
    reveal_strlit(":");
    reveal_strlit("/");
    let suffix = if dot_git {
        ".git"@
    } else {
        Seq::<char>::empty()
    };
    let domain = h.host.domain();
    let path = h.owner + "/"@ + h.repo + suffix;
    let url = scp_form(h, dot_git);
    lemma_domain(h.host);
    let left = "git@"@ + domain;
    assert(":"@ == seq![':'] && "@"@ == seq!['@'] && "/"@ == seq!['/']);
    assert(url =~= left + seq![':'] + path);
    assert(!left.contains(':')) by {
        assert forall|i: int| 0 <= i < left.len() implies left[i] != ':' by {
            if i >= 4 {
                assert(domain.contains(left[i]));
            }
        }
    }
    lemma_split_once_at(left, ':', path);
    assert(left =~= "git"@ + seq!['@'] + domain);
    lemma_split_once_at("git"@, '@', domain);
    assert(path[0] == h.owner[0]);
    assert(h.owner.contains(h.owner[0]));
    lemma_scp_slash(h, dot_git);
    lemma_scp_shape(h, dot_git);
}

/// The form `git@host:owner/repo` names the repository that its HTTPS URL
/// names.
pub proof fn law_scp_form_agrees(h: HostedGitView, dot_git: bool)
    requires
        is_plain_hosted(h),
        !dot_git ==> !".git"@.is_suffix_of(h.repo),
    ensures
        hosted_git(scp_form(h, dot_git)) == Some(h),
{
    let url = scp_form(h, dot_git);
    lemma_scp_plain(h, dot_git);
    lemma_scp_url(h, dot_git);
    lemma_hosted_path(h, dot_git);
    lemma_after_scheme("ssh://"@, "git@"@ + hosted_tail(h, dot_git));
    reveal_strlit("git@");
    reveal_strlit("git+");
    reveal_strlit("https://");
    reveal_strlit("http://");
    reveal_strlit("ssh://");
    reveal_strlit("git://");
    assert(url[0] == 'g' && url[3] == '@');
    if "git+"@.is_prefix_of(url) {
        assert(url[3] == "git+"@[3]);
    }
    if "https://"@.is_prefix_of(url) {
        assert(url[0] == "https://"@[0]);
    }
    if "http://"@.is_prefix_of(url) {
        assert(url[0] == "http://"@[0]);
    }
    if "ssh://"@.is_prefix_of(url) {
        assert(url[0] == "ssh://"@[0]);
    }
    if "git://"@.is_prefix_of(url) {
        assert(url[3] == "git://"@[3]);
    }
}

/// The name of a host in front of `owner/repo`.
pub open spec fn shorthand_prefix(host: HostedGitHost) -> Seq<char> {
    match host {
        HostedGitHost::GitHub => "github:"@,
        HostedGitHost::GitLab => "gitlab:"@,
        HostedGitHost::Bitbucket => "bitbucket:"@,
    }
}

proof fn lemma_shorthand_plain(h: HostedGitView)
    requires
        is_plain_hosted(h),
    ensures
        find_char(shorthand_prefix(h.host) + (h.owner + "/"@ + h.repo), '#') is None,
{
    reveal_strlit("github:");
    reveal_strlit("gitlab:");
    reveal_strlit("bitbucket:");
    reveal_strlit("/");
    let prefix = shorthand_prefix(h.host);
    let url = prefix + (h.owner + "/"@ + h.repo);
    assert forall|i: int| 0 <= i < url.len() implies url[i] != '#' by {
        if i < prefix.len() {
            assert(url[i] == prefix[i]);
        } else if i < prefix.len() + h.owner.len() {
            assert(h.owner.contains(url[i]));
        } else if i > prefix.len() + h.owner.len() {
            assert(h.repo.contains(url[i]));
        }
    }
    lemma_find_char(url, '#');
}

proof fn lemma_shorthand_scheme(host: HostedGitHost, path: Seq<char>)
    ensures
        ({
            let url = shorthand_prefix(host) + path;
            &&& !"git+"@.is_prefix_of(url)
            &&& !"git://"@.is_prefix_of(url)
            &&& after_scheme(url) is None
            &&& scp_url(url) is None
            &&& strip_prefix(url, shorthand_prefix(host)) == Some(path)
            &&& forall|other: HostedGitHost|
                #[trigger] shorthand_prefix(other).is_prefix_of(url) ==> other == host
        }),
{
    reveal_strlit("github:");
    reveal_strlit("gitlab:");
    reveal_strlit("bitbucket:");
    reveal_strlit("git+");
    reveal_strlit("git://");
    reveal_strlit("https://");
    reveal_strlit("http://");
    reveal_strlit("ssh://");
    let prefix = shorthand_prefix(host);
    let url = prefix + path;
    lemma_prefix_skip(prefix, path);
    assert(url[0] == prefix[0] && url[3] == prefix[3]);
    if "git+"@.is_prefix_of(url) {
        assert(url[3] == "git+"@[3]);
    }
    if "git://"@.is_prefix_of(url) {
        assert(url[3] == "git://"@[3]);
    }
    if "https://"@.is_prefix_of(url) {
        assert(url[0] == "https://"@[0]);
    }
    if "http://"@.is_prefix_of(url) {
        assert(url[0] == "http://"@[0]);
    }
    if "ssh://"@.is_prefix_of(url) {
        assert(url[0] == "ssh://"@[0]);
    }
    assert(scp_url(url) is None) by {
        let left = prefix.take(prefix.len() - 1);
        assert(url =~= left + seq![':'] + path);
        assert(!left.contains(':') && !left.contains('@'));
        lemma_split_once_at(left, ':', path);
        lemma_find_char_none(left, '@');
    }
    assert forall|other: HostedGitHost|
        #[trigger] shorthand_prefix(other).is_prefix_of(url) implies other == host by {
        let p = shorthand_prefix(other);
        assert(url[0] == p[0] && url[3] == p[3]);
    }
}

/// The forms `github:owner/repo`, `gitlab:owner/repo` and `bitbucket:owner/repo`
/// name the repository that its HTTPS URL names.
pub proof fn law_shorthand_agrees(h: HostedGitView)
    requires
        is_plain_hosted(h),
    ensures
        hosted_git(shorthand_prefix(h.host) + (h.owner + "/"@ + h.repo)) == Some(h),
{
    let path = h.owner + "/"@ + h.repo;
    let url = shorthand_prefix(h.host) + path;
    lemma_shorthand_plain(h);
    lemma_shorthand_scheme(h.host, path);
    lemma_shorthand_url(h);
    assert(git_spec(url) matches Some((clone, _, _)) && clone == h.https()) by {
        if h.host != HostedGitHost::GitHub {
            assert(!shorthand_prefix(HostedGitHost::GitHub).is_prefix_of(url));
        }
        if h.host == HostedGitHost::Bitbucket {
            assert(!shorthand_prefix(HostedGitHost::GitLab).is_prefix_of(url));
        }
    }
    lemma_https_shape(h);
    lemma_hosted_path(h, true);
    lemma_after_scheme("https://"@, hosted_tail(h, true));
}

proof fn lemma_shorthand_url(h: HostedGitView)
    ensures
        (match h.host {
            HostedGitHost::GitHub => "https://github.com/"@,
            HostedGitHost::GitLab => "https://gitlab.com/"@,
            HostedGitHost::Bitbucket => "https://bitbucket.org/"@,
        }) + (h.owner + "/"@ + h.repo) + ".git"@ == h.https(),
{
    reveal_strlit("https://");
    reveal_strlit("/");
    reveal_strlit("github.com");
    reveal_strlit("gitlab.com");
    reveal_strlit("bitbucket.org");
    reveal_strlit("https://github.com/");
    reveal_strlit("https://gitlab.com/");
    reveal_strlit("https://bitbucket.org/");
    let base = match h.host {
        HostedGitHost::GitHub => "https://github.com/"@,
        HostedGitHost::GitLab => "https://gitlab.com/"@,
        HostedGitHost::Bitbucket => "https://bitbucket.org/"@,
    };
    assert(base =~= "https://"@ + h.host.domain() + "/"@);
    assert(base + (h.owner + "/"@ + h.repo) + ".git"@ =~= h.https());
}

proof fn lemma_scp_shape(h: HostedGitView, dot_git: bool)
    ensures
        "ssh://"@ + "git"@ + "@"@ + h.host.domain() + "/"@ + (h.owner + "/"@ + h.repo + (
        if dot_git {
            ".git"@
        } else {
            Seq::empty()
        })) == "ssh://"@ + ("git@"@ + hosted_tail(h, dot_git)),
{
    assert("git@"@ == "git"@ + "@"@) by {
        reveal_strlit("git@");
        reveal_strlit("git");
        reveal_strlit("@");
    }
    let suffix = if dot_git {
        ".git"@
    } else {
        Seq::<char>::empty()
    };
    let (s, u, a, d, q, o, r) = (
        "ssh://"@,
        "git"@,
        "@"@,
        h.host.domain(),
        "/"@,
        h.owner,
        h.repo,
    );
    assert(s + u + a + d + q + (o + q + r + suffix) == s + ((u + a) + (d + q + o + q + r + suffix)));
}

/// The repository that a URL names has an owner and a name, without slashes.
pub proof fn law_hosted_git_is_named(url: Seq<char>)
    ensures
        hosted_git(url) matches Some(h) ==> h.owner.len() > 0 && h.repo.len() > 0
            && !h.owner.contains('/') && !h.repo.contains('/'),
{
    let body = plain_url(url);
    if after_scheme(body) is Some {
        lemma_hosted_url_named(body);
    } else {
        match scp_url(body) {
            Some(ssh) => lemma_hosted_url_named(ssh),
            None => match git_spec(url) {
                Some((clone, _, _)) => lemma_hosted_url_named(clone),
                None => {},
            },
        }
    }
}

proof fn lemma_hosted_url_named(url: Seq<char>)
    ensures
        hosted_url(url) matches Some(h) ==> h.owner.len() > 0 && h.repo.len() > 0
            && !h.owner.contains('/') && !h.repo.contains('/'),
{
    if let Some(rest) = after_scheme(url) {
        lemma_hosted_path_named(rest);
    }
}

proof fn lemma_hosted_path_named(rest: Seq<char>)
    ensures
        hosted_path(rest) matches Some(h) ==> h.owner.len() > 0 && h.repo.len() > 0
            && !h.owner.contains('/') && !h.repo.contains('/'),
{
    if let Some(h) = hosted_path(rest) {
        let (_, path) = split_once(rest, '/')->0;
        lemma_split_pieces(path, '/');
        let segments = split(path, '/');
        assert(!segments[0].contains('/'));
        assert(!segments[1].contains('/'));
        if strip_suffix(segments[1], ".git"@) is Some {
            assert forall|i: int| 0 <= i < h.repo.len() implies h.repo[i] != '/' by {
                assert(segments[1].contains(segments[1][i]));
            }
        }
    }
}

/// No piece of a split text holds the separator.
pub proof fn lemma_split_pieces(s: Seq<char>, c: char)
    ensures
        split(s, c).len() > 0,
        forall|i: int| 0 <= i < split(s, c).len() ==> !(#[trigger] split(s, c)[i]).contains(c),
    decreases s.len(),
{
    lemma_find_char(s, c);
    match find_char(s, c) {
        Some(k) => {
            let rest = s.skip(k + 1);
            lemma_split_pieces(rest, c);
            assert forall|i: int| 0 <= i < split(s, c).len() implies !(#[trigger] split(
                s,
                c,
            )[i]).contains(c) by {
                if i > 0 {
                    assert(split(s, c)[i] == split(rest, c)[i - 1]);
                } else {
                    assert(split(s, c)[0] == s.take(k));
                }
            }
        },
        None => {},
    }
}

/// A git specifier is never taken for a tarball, even where it is an HTTP URL.
pub proof fn law_git_before_tarball(spec: Seq<char>, is_file: bool)
    requires
        git_spec(spec) is Some,
    ensures
        local_source(spec, is_file) matches Some(LocalSourceView::Git(_)),
{
}

/// Any HTTP URL that is no git specifier is a tarball with that URL.
pub proof fn law_http_is_tarball(spec: Seq<char>, is_file: bool)
    requires
        is_http_url(spec),
        git_spec(spec) is None,
    ensures
        local_source(spec, is_file) matches Some(LocalSourceView::RemoteTarball(t)) && t.url == spec,
{
}

/// Paths are written with forward slashes on every platform.
pub proof fn law_posix_path_has_no_backslash(source: LocalSourceView)
    ensures
        !source.posix().contains('\\'),
{
}

/// A text that is one component of a path: it holds no separator and no two dots
/// in a row.
pub open spec fn is_component(s: Seq<char>) -> bool {
    &&& forall|i: int|
        0 <= i < s.len() ==> (#[trigger] s[i]) != '/' && s[i] != '\\' && s[i] != ':'
    &&& forall|i: int, j: int|
        #![trigger s[i], s[j]]
        0 <= i < s.len() && j == i + 1 && j < s.len() ==> !(s[i] == '.' && s[j] == '.')
}

proof fn lemma_escape(c: char)
    ensures
        is_component(escape(c)),
        escape(c).len() == 3,
        escape(c)[0] == '%',
        forall|i: int| 0 <= i < 3 ==> escape(c)[i] != '.',
{
    reveal_strlit("%25");
    reveal_strlit("%2F");
    reveal_strlit("%5C");
    reveal_strlit("%3A");
    reveal_strlit("%2E");
}

proof fn lemma_component_concat(a: Seq<char>, b: Seq<char>)
    requires
        is_component(a),
        is_component(b),
        a.len() > 0 && b.len() > 0 ==> !(a.last() == '.' && b[0] == '.'),
    ensures
        is_component(a + b),
{
    let c = a + b;
    assert forall|i: int| 0 <= i < c.len() implies (#[trigger] c[i]) != '/' && c[i] != '\\' && c[i]
        != ':' by {
        if i < a.len() {
            assert(c[i] == a[i]);
        } else {
            assert(c[i] == b[i - a.len()]);
        }
    }
    assert forall|i: int, j: int|
        #![trigger c[i], c[j]]
        0 <= i < c.len() && j == i + 1 && j < c.len() implies !(c[i] == '.' && c[j] == '.') by {
        if j < a.len() {
            assert(c[i] == a[i] && c[j] == a[j]);
        } else if i >= a.len() {
            assert(c[i] == b[i - a.len()] && c[j] == b[j - a.len()]);
        }
    }
}

/// A name is written as one component; a dot in front of it stands for a dot
/// that has none in front.
proof fn lemma_component(name: Seq<char>, i: int)
    requires
        0 <= i <= name.len(),
    ensures
        is_component(component_from(name, i)),
        component_from(name, i).len() > 0 && component_from(name, i)[0] == '.' ==> i < name.len()
            && name[i] == '.' && !is_escaped(name, i),
    decreases name.len() - i,
{
    if i < name.len() {
        lemma_component(name, i + 1);
        lemma_escape(name[i]);
        let rest = component_from(name, i + 1);
        if is_escaped(name, i) {
            lemma_component_concat(escape(name[i]), rest);
        } else {
            lemma_component_concat(seq![name[i]], rest);
        }
    }
}

/// The key of a package from a local source is one path component, whatever the
/// name: it holds no `/`, no `\`, no `:` and no `..`. It ends in an `@`, the kind
/// of the source, a `+` and sixteen hexadecimal digits of the digest.
pub proof fn law_dep_path_is_one_component(
    source: LocalSourceView,
    name: Seq<char>,
    digest: Seq<u8>,
)
    requires
        digest.len() >= 8,
    ensures
        is_component(source.digest_dep_path(name, digest)),
        source.digest_dep_path(name, digest) == component(name) + ("@"@ + source.kind() + "+"@
            + hex(digest.take(8))),
        hex(digest.take(8)).len() == 16,
        forall|i: int|
            0 <= i < 16 ==> '0' <= #[trigger] hex(digest.take(8))[i] <= '9' || 'a' <= hex(
                digest.take(8),
            )[i] <= 'f',
{
    reveal_strlit("@");
    reveal_strlit("+");
    reveal_strlit("file");
    reveal_strlit("link");
    reveal_strlit("git");
    reveal_strlit("url");
    let h = hex(digest.take(8));
    assert forall|i: int| 0 <= i < 16 implies '0' <= #[trigger] h[i] <= '9' || 'a' <= h[i]
        <= 'f' by {
        let b = digest.take(8)[i / 2];
        assert(0 <= b as int / 16 < 16);
    }
    let end = "@"@ + source.kind() + "+"@ + h;
    assert(is_component(end)) by {
        assert(is_component("@"@) && is_component(source.kind()) && is_component("+"@));
        assert(is_component(h));
        lemma_component_concat("@"@, source.kind());
        lemma_component_concat("@"@ + source.kind(), "+"@);
        lemma_component_concat("@"@ + source.kind() + "+"@, h);
    }
    lemma_component(name, 0);
    lemma_component_concat(component(name), end);
    assert(source.digest_dep_path(name, digest) =~= component(name) + end);
}

proof fn lemma_component_injective(a: Seq<char>, b: Seq<char>, i: int)
    requires
        0 <= i <= a.len(),
        i <= b.len(),
        a.take(i) == b.take(i),
        component_from(a, i) == component_from(b, i),
    ensures
        a == b,
    decreases a.len() - i,
{
    if i < a.len() {
        lemma_escape(a[i]);
    }
    if i < b.len() {
        lemma_escape(b[i]);
    }
    if i < a.len() && i < b.len() {
        let (x, y) = (component_from(a, i), component_from(b, i));
        if i > 0 {
            assert(a[i - 1] == a.take(i)[i - 1] && b[i - 1] == b.take(i)[i - 1]);
        }
        assert(x[0] == y[0]);
        assert(is_escaped(a, i) == is_escaped(b, i));
        if is_escaped(a, i) {
            reveal_strlit("%25");
            reveal_strlit("%2F");
            reveal_strlit("%5C");
            reveal_strlit("%3A");
            reveal_strlit("%2E");
            assert(x[1] == escape(a[i])[1] && x[2] == escape(a[i])[2]);
            assert(y[1] == escape(b[i])[1] && y[2] == escape(b[i])[2]);
            assert(a[i] == b[i]);
            assert(component_from(a, i + 1) =~= x.skip(3));
            assert(component_from(b, i + 1) =~= y.skip(3));
        } else {
            assert(component_from(a, i + 1) =~= x.skip(1));
            assert(component_from(b, i + 1) =~= y.skip(1));
        }
        assert(a.take(i + 1) =~= a.take(i).push(a[i]));
        assert(b.take(i + 1) =~= b.take(i).push(b[i]));
        lemma_component_injective(a, b, i + 1);
    } else {
        if i < a.len() {
            assert(component_from(a, i).len() > 0);
            assert(component_from(b, i).len() == 0);
        }
        if i < b.len() {
            assert(component_from(b, i).len() > 0);
            assert(component_from(a, i).len() == 0);
        }
        assert(a =~= a.take(i) && b =~= b.take(i));
    }
}

/// Two names are written as two components.
pub proof fn law_names_are_told_apart(a: Seq<char>, b: Seq<char>)
    requires
        component(a) == component(b),
    ensures
        a == b,
{
    assert(a.take(0) =~= b.take(0));
    lemma_component_injective(a, b, 0);
}

/// Two subdirectories of one commit are two sources: the texts that their keys
/// are made of differ, and so do their specifiers.
pub proof fn law_subpaths_are_told_apart(g: GitSourceView, h: GitSourceView)
    requires
        g.url == h.url,
        g.resolved == h.resolved,
        g.subpath != h.subpath,
    ensures
        LocalSourceView::Git(g).identity() != LocalSourceView::Git(h).identity(),
        LocalSourceView::Git(g).specifier() != LocalSourceView::Git(h).specifier(),
{
    reveal_strlit("&path:/");
    let base = g.url + "#"@ + g.resolved;
    let a = LocalSourceView::Git(g).identity();
    let b = LocalSourceView::Git(h).identity();
    if a == b {
        let n = base.len() + "&path:/"@.len();
        match (g.subpath, h.subpath) {
            (Some(x), Some(y)) => {
                assert(a.skip(n as int) =~= x);
                assert(b.skip(n as int) =~= y);
            },
            (Some(x), None) => {
                assert(a.len() == n + x.len());
            },
            (None, Some(y)) => {
                assert(b.len() == n + y.len());
            },
            (None, None) => {},
        }
    }
}

/// Two digests with one key agree in the eight bytes that the key shows.
pub proof fn law_digests_are_told_apart(
    source: LocalSourceView,
    name: Seq<char>,
    a: Seq<u8>,
    b: Seq<u8>,
)
    requires
        a.len() >= 8,
        b.len() >= 8,
        source.digest_dep_path(name, a) == source.digest_dep_path(name, b),
    ensures
        a.take(8) == b.take(8),
{
    let (x, y) = (hex(a.take(8)), hex(b.take(8)));
    let front = component(name) + "@"@ + source.kind() + "+"@;
    let n = front.len() as int;
    assert(source.digest_dep_path(name, a).skip(n) =~= x);
    assert(source.digest_dep_path(name, b).skip(n) =~= y);
    assert forall|i: int| 0 <= i < 8 implies a.take(8)[i] == b.take(8)[i] by {
        let (p, q) = (a.take(8)[i] as int, b.take(8)[i] as int);
        assert(x[2 * i] == hex_char(p / 16) && y[2 * i] == hex_char(q / 16));
        assert(x[2 * i + 1] == hex_char(p % 16) && y[2 * i + 1] == hex_char(q % 16));
        assert(p / 16 == q / 16);
        assert(p % 16 == q % 16);
    }
}

} // verus!
