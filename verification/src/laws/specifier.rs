//! How dependency specifiers are classified, told by the characters that they are
//! made of.
use vstd::prelude::*;
use crate::laws::source::{law_shorthand_agrees, shorthand_prefix};
use crate::source::{
    clone_url, component, component_from, file_name, first_some, fragment_part, git_fragment,
    git_spec, hex, hosted_git, hosted_path, is_http_url, is_safe_subpath, is_tarball_path,
    local_source, part_commit, part_path, part_ref, scp_url, GitSourceView, HostedGitHost,
    HostedGitView, LocalSourceView, RemoteTarballView,
};
use crate::text::{
    find, find_char, lemma_find_char, lemma_find_char_none, lemma_find_from, lemma_split_cons,
    lemma_split_none, lemma_split_once_at, occurs_at, split, split_once, strip_prefix, to_lower,
    trim_start_char,
};

verus! {

/// A name as in a shorthand: ASCII letters, digits, `_`, `.` and `-`, at least one.
pub open spec fn is_repository_name(s: Seq<char>) -> bool {
    s.len() > 0 && forall|i: int|
        0 <= i < s.len() ==> {
            let c = #[trigger] s[i];
            ('a' <= c <= 'z') || ('A' <= c <= 'Z') || ('0' <= c <= '9') || c == '_' || c == '.' || c
                == '-'
        }
}

/// None of the schemes and prefixes of git specifiers opens a text without colon and
/// plus.
proof fn lemma_no_prefix(s: Seq<char>)
    requires
        !s.contains(':'),
    ensures
        !"git://"@.is_prefix_of(s),
        !"github:"@.is_prefix_of(s),
        !"gitlab:"@.is_prefix_of(s),
        !"bitbucket:"@.is_prefix_of(s),
        !"https://"@.is_prefix_of(s),
        !"http://"@.is_prefix_of(s),
        !"ssh://"@.is_prefix_of(s),
        !"file://"@.is_prefix_of(s),
        !"file:"@.is_prefix_of(s),
        !"link:"@.is_prefix_of(s),
        scp_url(s) is None,
{
    reveal_strlit("git://");
    reveal_strlit("github:");
    reveal_strlit("gitlab:");
    reveal_strlit("bitbucket:");
    reveal_strlit("https://");
    reveal_strlit("http://");
    reveal_strlit("ssh://");
    reveal_strlit("file://");
    reveal_strlit("file:");
    reveal_strlit("link:");
    lemma_colon("git://"@, s, 3);
    lemma_colon("github:"@, s, 6);
    lemma_colon("gitlab:"@, s, 6);
    lemma_colon("bitbucket:"@, s, 9);
    lemma_colon("https://"@, s, 5);
    lemma_colon("http://"@, s, 4);
    lemma_colon("ssh://"@, s, 3);
    lemma_colon("file://"@, s, 4);
    lemma_colon("file:"@, s, 4);
    lemma_colon("link:"@, s, 4);
    lemma_find_char_none(s, ':');
}

proof fn lemma_colon(p: Seq<char>, s: Seq<char>, i: int)
    requires
        !s.contains(':'),
        0 <= i < p.len(),
        p[i] == ':',
    ensures
        !p.is_prefix_of(s),
{
    if p.is_prefix_of(s) {
        assert(s[i] == p[i]);
        assert(s.contains(s[i]));
    }
}

proof fn lemma_owner_repo(owner: Seq<char>, repo: Seq<char>)
    requires
        is_repository_name(owner),
        is_repository_name(repo),
        owner[0] != '.',
    ensures
        ({
            let body = owner + "/"@ + repo;
            &&& !body.contains('#')
            &&& forall|committish: Option<Seq<char>>| #[trigger]
                clone_url(body, committish) == Some(
                    "https://github.com/"@ + owner + "/"@ + repo + ".git"@,
                )
        }),
{
    reveal_strlit("/");
    let body = owner + "/"@ + repo;
    assert(body == owner + seq!['/'] + repo);
    assert forall|i: int| 0 <= i < body.len() implies body[i] != '#' && body[i] != ':' && body[i]
        != '+' by {
        if i < owner.len() {
            assert(body[i] == owner[i]);
        } else if i > owner.len() {
            assert(body[i] == repo[i - owner.len() - 1]);
        }
    }
    lemma_no_prefix(body);
    reveal_strlit("git+");
    if "git+"@.is_prefix_of(body) {
        assert(body[3] == "git+"@[3]);
    }
    assert(!owner.contains('/'));
    lemma_split_once_at(owner, '/', repo);
    lemma_clone_text("https://github.com/"@, owner, "/"@, repo, ".git"@);
}

/// `owner/repo` is a repository at GitHub, whatever letters, digits, `_`, `.` and `-`
/// the two names are made of; only the owner cannot start with a dot. It is the
/// repository that `github:owner/repo` names.
pub proof fn law_bare_shorthand_is_github(owner: Seq<char>, repo: Seq<char>, is_file: bool)
    requires
        is_repository_name(owner),
        is_repository_name(repo),
        owner[0] != '.',
    ensures
        ({
            let spec = owner + "/"@ + repo;
            let url = "https://github.com/"@ + owner + "/"@ + repo + ".git"@;
            &&& git_spec(spec) == Some((url, None::<Seq<char>>, None::<Seq<char>>))
            &&& git_spec("github:"@ + spec) == git_spec(spec)
            &&& local_source(spec, is_file) == Some(
                LocalSourceView::Git(
                    GitSourceView {
                        url,
                        committish: None,
                        resolved: Seq::empty(),
                        subpath: None,
                    },
                ),
            )
            &&& hosted_git("github:"@ + spec) == Some(
                HostedGitView { host: HostedGitHost::GitHub, owner, repo },
            )
        }),
{
    lemma_bare_shorthand(owner, repo);
    lemma_named_shorthand(owner, repo);
    lemma_hosted_shorthand(owner, repo);
}

proof fn lemma_bare_shorthand(owner: Seq<char>, repo: Seq<char>)
    requires
        is_repository_name(owner),
        is_repository_name(repo),
        owner[0] != '.',
    ensures
        git_spec(owner + "/"@ + repo) == Some(
            (
                "https://github.com/"@ + owner + "/"@ + repo + ".git"@,
                None::<Seq<char>>,
                None::<Seq<char>>,
            ),
        ),
{
    let spec = owner + "/"@ + repo;
    lemma_owner_repo(owner, repo);
    lemma_find_char_none(spec, '#');
}

proof fn lemma_named_shorthand(owner: Seq<char>, repo: Seq<char>)
    requires
        is_repository_name(owner),
        is_repository_name(repo),
        owner[0] != '.',
    ensures
        git_spec("github:"@ + (owner + "/"@ + repo)) == Some(
            (
                "https://github.com/"@ + owner + "/"@ + repo + ".git"@,
                None::<Seq<char>>,
                None::<Seq<char>>,
            ),
        ),
{
    let spec = owner + "/"@ + repo;
    lemma_owner_repo(owner, repo);
    law_hosted_shorthands(spec);
    lemma_clone_text("https://github.com/"@, owner, "/"@, repo, ".git"@);
}

proof fn lemma_clone_text(a: Seq<char>, b: Seq<char>, c: Seq<char>, d: Seq<char>, e: Seq<char>)
    ensures
        a + (b + c + d) + e == a + b + c + d + e,
{
    assert(a + (b + c + d) + e =~= a + b + c + d + e);
}

proof fn lemma_hosted_shorthand(owner: Seq<char>, repo: Seq<char>)
    requires
        is_repository_name(owner),
        is_repository_name(repo),
    ensures
        hosted_git("github:"@ + (owner + "/"@ + repo)) == Some(
            HostedGitView { host: HostedGitHost::GitHub, owner, repo },
        ),
{
    let h = HostedGitView { host: HostedGitHost::GitHub, owner, repo };
    assert(crate::laws::source::is_plain_hosted(h));
    law_shorthand_agrees(h);
    assert(shorthand_prefix(HostedGitHost::GitHub) == "github:"@);
}

/// A reference behind the `#` of `owner/repo` is its committish.
pub proof fn law_bare_shorthand_with_reference(owner: Seq<char>, repo: Seq<char>, name: Seq<char>)
    requires
        is_repository_name(owner),
        is_repository_name(repo),
        owner[0] != '.',
        name.len() > 0,
        !name.contains('&') && !name.contains('=') && !name.contains(':'),
    ensures
        git_spec(owner + "/"@ + repo + "#"@ + name) == Some(
            (
                "https://github.com/"@ + owner + "/"@ + repo + ".git"@,
                Some(name),
                None::<Seq<char>>,
            ),
        ),
{
    let body = owner + "/"@ + repo;
    reveal_strlit("#");
    assert("#"@ =~= seq!['#']);
    lemma_owner_repo(owner, repo);
    lemma_split_once_at(body, '#', name);
    law_bare_reference(name);
}

/// A text with a slash that is not two such names is no shorthand.
pub proof fn law_other_paths_are_no_shorthand(a: Seq<char>, b: Seq<char>, is_file: bool)
    requires
        !a.contains('/'),
        !a.contains(':') && !b.contains(':') && !a.contains('#') && !b.contains('#'),
        !a.contains('+'),
        !is_repository_name(a) || !is_repository_name(b) || a[0] == '.',
    ensures
        git_spec(a + "/"@ + b) is None,
        local_source(a + "/"@ + b, is_file) is None,
{
    reveal_strlit("/");
    reveal_strlit("git+");
    let s = a + "/"@ + b;
    assert(s == a + seq!['/'] + b);
    assert forall|i: int| 0 <= i < s.len() implies s[i] != '#' && s[i] != ':' by {
        if i < a.len() {
            assert(a.contains(s[i]));
        } else if i > a.len() {
            assert(b.contains(s[i]));
        }
    }
    lemma_no_prefix(s);
    lemma_find_char_none(s, '#');
    if "git+"@.is_prefix_of(s) {
        let p = "git+"@;
        assert(s[0] == p[0] && s[1] == p[1] && s[2] == p[2] && s[3] == p[3]);
        if a.len() > 3 {
            assert(a.contains(s[3]));
        } else {
            assert(s[a.len() as int] == '/');
            assert(s[0] == 'g' && s[1] == 'i' && s[2] == 't');
        }
    }
    lemma_split_once_at(a, '/', b);
    lemma_names(a);
    lemma_names(b);
}

proof fn lemma_names(s: Seq<char>)
    ensures
        crate::source::is_name(s) <==> is_repository_name(s),
{
    if crate::source::is_name(s) {
        assert forall|i: int| 0 <= i < s.len() implies {
            let c = #[trigger] s[i];
            ('a' <= c <= 'z') || ('A' <= c <= 'Z') || ('0' <= c <= '9') || c == '_' || c == '.' || c
                == '-'
        } by {
            assert(crate::source::is_name_char(s[i]));
        }
    }
    if is_repository_name(s) {
        assert forall|i: int| 0 <= i < s.len() implies crate::source::is_name_char(
            #[trigger] s[i],
        ) by {}
    }
}

/// A text without colon and slash is a range of the registry.
pub proof fn law_plain_ranges_are_of_the_registry(spec: Seq<char>, is_file: bool)
    requires
        !spec.contains(':') && !spec.contains('/'),
        !"git+"@.is_prefix_of(spec),
    ensures
        git_spec(spec) is None,
        local_source(spec, is_file) is None,
{
    lemma_find_char(spec, '#');
    let body = match split_once(spec, '#') {
        Some((a, _)) => a,
        None => spec,
    };
    assert forall|i: int| 0 <= i < body.len() implies body[i] != ':' && body[i] != '/' by {
        assert(spec.contains(spec[i]));
    }
    lemma_no_prefix(body);
    lemma_no_prefix(spec);
    lemma_find_char_none(body, '/');
    reveal_strlit("git+");
    if "git+"@.is_prefix_of(body) {
        assert("git+"@ =~= spec.take(4));
    }
}

/// What a prefix with a colon leaves to the classification of a git specifier.
proof fn lemma_after_colon(word: Seq<char>, x: Seq<char>)
    requires
        word.len() > 0,
        forall|i: int| 0 <= i < word.len() ==> 'a' <= #[trigger] word[i] <= 'z',
    ensures
        ({
            let spec = word + ":"@ + x;
            let body = match split_once(spec, '#') {
                Some((a, _)) => a,
                None => spec,
            };
            &&& (word + ":"@).is_prefix_of(body)
            &&& scp_url(body) is None
            &&& !crate::source::is_github_shorthand(body)
            &&& !"git+"@.is_prefix_of(body)
            &&& body.len() <= spec.len() && body == spec.take(body.len() as int)
        }),
{
    reveal_strlit(":");
    reveal_strlit("git+");
    let spec = word + ":"@ + x;
    let n = word.len() as int;
    lemma_find_char(spec, '#');
    let body = match split_once(spec, '#') {
        Some((a, _)) => a,
        None => spec,
    };
    if let Some(k) = find_char(spec, '#') {
        assert(k > n) by {
            if k < n {
                assert(spec[k] == word[k]);
            } else if k == n {
                assert(spec[k] == ':');
            }
        }
    }
    assert(spec.take(spec.len() as int) =~= spec);
    assert((word + ":"@) =~= body.take(n + 1));
    assert forall|j: int| 0 <= j < n implies body[j] == word[j] by {}
    assert(body[n] == ':');
    crate::text::lemma_find_char_at(body, ':', n);
    let left = body.take(n);
    assert(left =~= word);
    assert(!left.contains('@'));
    lemma_find_char_none(left, '@');
    if "git+"@.is_prefix_of(body) {
        assert(body[3] == "git+"@[3]);
        if n > 3 {
            assert(body[3] == word[3]);
        } else if n < 3 {
            assert(body[n] == "git+"@[n]);
        }
    }
    if crate::source::is_github_shorthand(body) {
        lemma_find_char(body, '/');
        let at = find_char(body, '/')->0;
        let owner = body.take(at);
        if n < at {
            assert(owner[n] == ':');
            assert(crate::source::is_name_char(owner[n]));
        }
    }
}

proof fn lemma_other_words(word: Seq<char>, body: Seq<char>, other: Seq<char>)
    requires
        (word + ":"@).is_prefix_of(body),
        forall|i: int| 0 <= i < word.len() ==> 'a' <= #[trigger] word[i] <= 'z',
        forall|i: int| 0 <= i < other.len() ==> 'a' <= #[trigger] other[i] <= 'z',
        word != other,
    ensures
        !(other + ":"@).is_prefix_of(body),
{
    reveal_strlit(":");
    if (other + ":"@).is_prefix_of(body) {
        let (p, q) = (word + ":"@, other + ":"@);
        if word.len() < other.len() {
            assert(body[word.len() as int] == p[word.len() as int]);
            assert(body[word.len() as int] == q[word.len() as int]);
            assert(q[word.len() as int] == other[word.len() as int]);
        } else if other.len() < word.len() {
            assert(body[other.len() as int] == p[other.len() as int]);
            assert(body[other.len() as int] == q[other.len() as int]);
            assert(p[other.len() as int] == word[other.len() as int]);
        } else {
            assert forall|i: int| 0 <= i < word.len() implies word[i] == other[i] by {
                assert(body[i] == p[i]);
                assert(body[i] == q[i]);
            }
            assert(word =~= other);
        }
    }
}

proof fn lemma_words()
    ensures
        "git://"@ == "git"@ + ":"@ + "//"@,
        "github:"@ == "github"@ + ":"@,
        "gitlab:"@ == "gitlab"@ + ":"@,
        "bitbucket:"@ == "bitbucket"@ + ":"@,
        "https://"@ == "https"@ + ":"@ + "//"@,
        "http://"@ == "http"@ + ":"@ + "//"@,
        "ssh://"@ == "ssh"@ + ":"@ + "//"@,
        "file://"@ == "file"@ + ":"@ + "//"@,
        "file:"@ == "file"@ + ":"@,
        "link:"@ == "link"@ + ":"@,
        "npm:"@ == "npm"@ + ":"@,
        "workspace:"@ == "workspace"@ + ":"@,
        "catalog:"@ == "catalog"@ + ":"@,
{
    reveal_strlit(":");
    reveal_strlit("//");
    reveal_strlit("git");
    reveal_strlit("git://");
    reveal_strlit("github");
    reveal_strlit("github:");
    reveal_strlit("gitlab");
    reveal_strlit("gitlab:");
    reveal_strlit("bitbucket");
    reveal_strlit("bitbucket:");
    reveal_strlit("https");
    reveal_strlit("https://");
    reveal_strlit("http");
    reveal_strlit("http://");
    reveal_strlit("ssh");
    reveal_strlit("ssh://");
    reveal_strlit("file");
    reveal_strlit("file://");
    reveal_strlit("file:");
    reveal_strlit("link");
    reveal_strlit("link:");
    reveal_strlit("npm");
    reveal_strlit("npm:");
    reveal_strlit("workspace");
    reveal_strlit("workspace:");
    reveal_strlit("catalog");
    reveal_strlit("catalog:");
    assert("git://"@ =~= "git"@ + ":"@ + "//"@);
    assert("github:"@ =~= "github"@ + ":"@);
    assert("gitlab:"@ =~= "gitlab"@ + ":"@);
    assert("bitbucket:"@ =~= "bitbucket"@ + ":"@);
    assert("https://"@ =~= "https"@ + ":"@ + "//"@);
    assert("http://"@ =~= "http"@ + ":"@ + "//"@);
    assert("ssh://"@ =~= "ssh"@ + ":"@ + "//"@);
    assert("file://"@ =~= "file"@ + ":"@ + "//"@);
    assert("file:"@ =~= "file"@ + ":"@);
    assert("link:"@ =~= "link"@ + ":"@);
    assert("npm:"@ =~= "npm"@ + ":"@);
    assert("workspace:"@ =~= "workspace"@ + ":"@);
    assert("catalog:"@ =~= "catalog"@ + ":"@);
}

/// A text that starts with one word and a colon starts with no other of the words.
proof fn lemma_scheme(word: Seq<char>, body: Seq<char>)
    requires
        (word + ":"@).is_prefix_of(body),
        forall|i: int| 0 <= i < word.len() ==> 'a' <= #[trigger] word[i] <= 'z',
    ensures
        word != "git"@ ==> !"git://"@.is_prefix_of(body),
        word != "github"@ ==> !"github:"@.is_prefix_of(body),
        word != "gitlab"@ ==> !"gitlab:"@.is_prefix_of(body),
        word != "bitbucket"@ ==> !"bitbucket:"@.is_prefix_of(body),
        word != "https"@ ==> !"https://"@.is_prefix_of(body),
        word != "http"@ ==> !"http://"@.is_prefix_of(body),
        word != "ssh"@ ==> !"ssh://"@.is_prefix_of(body),
        word != "file"@ ==> !"file://"@.is_prefix_of(body) && !"file:"@.is_prefix_of(body),
        word != "link"@ ==> !"link:"@.is_prefix_of(body),
{
    lemma_words();
    reveal_strlit("git");
    reveal_strlit("github");
    reveal_strlit("gitlab");
    reveal_strlit("bitbucket");
    reveal_strlit("https");
    reveal_strlit("http");
    reveal_strlit("ssh");
    reveal_strlit("file");
    reveal_strlit("link");
    lemma_scheme_of(word, body, "git"@, "git://"@);
    lemma_scheme_of(word, body, "github"@, "github:"@);
    lemma_scheme_of(word, body, "gitlab"@, "gitlab:"@);
    lemma_scheme_of(word, body, "bitbucket"@, "bitbucket:"@);
    lemma_scheme_of(word, body, "https"@, "https://"@);
    lemma_scheme_of(word, body, "http"@, "http://"@);
    lemma_scheme_of(word, body, "ssh"@, "ssh://"@);
    lemma_scheme_of(word, body, "file"@, "file://"@);
    lemma_scheme_of(word, body, "file"@, "file:"@);
    lemma_scheme_of(word, body, "link"@, "link:"@);
}

proof fn lemma_scheme_of(word: Seq<char>, body: Seq<char>, other: Seq<char>, p: Seq<char>)
    requires
        (word + ":"@).is_prefix_of(body),
        forall|i: int| 0 <= i < word.len() ==> 'a' <= #[trigger] word[i] <= 'z',
        forall|i: int| 0 <= i < other.len() ==> 'a' <= #[trigger] other[i] <= 'z',
        p == other + ":"@ || p == other + ":"@ + "//"@,
    ensures
        word != other ==> !p.is_prefix_of(body),
{
    if word != other && p.is_prefix_of(body) {
        lemma_other_words(word, body, other);
        let q = other + ":"@;
        assert(q =~= body.take(q.len() as int)) by {
            assert forall|i: int| 0 <= i < q.len() implies q[i] == body[i] by {
                assert(p[i] == body[i]);
            }
        }
    }
}

/// `file:` names a directory, or a tarball where a file with such a name is there.
/// `link:` names a link.
pub proof fn law_path_protocols(p: Seq<char>, is_file: bool)
    requires
        !"//"@.is_prefix_of(p),
    ensures
        local_source("file:"@ + p, is_file) == Some(
            if is_file && is_tarball_path(p) {
                LocalSourceView::Tarball(p)
            } else {
                LocalSourceView::Directory(p)
            },
        ),
        local_source("link:"@ + p, is_file) == Some(LocalSourceView::Link(p)),
{
    lemma_words();
    reveal_strlit("file");
    reveal_strlit("link");
    reveal_strlit("//");
    reveal_strlit(":");
    reveal_strlit("file://");
    lemma_registry_word("link"@, p, is_file);
    lemma_after_colon("file"@, p);
    let spec = "file"@ + ":"@ + p;
    let body = match split_once(spec, '#') {
        Some((a, _)) => a,
        None => spec,
    };
    lemma_distinct_words();
    lemma_scheme("file"@, body);
    assert(("file"@ + ":"@).is_prefix_of(spec)) by {
        assert(spec.take(5) =~= "file"@ + ":"@);
    }
    lemma_scheme("file"@, spec);
    if "file://"@.is_prefix_of(body) {
        assert(body[5] == "file://"@[5] && body[6] == "file://"@[6]);
        assert("//"@ =~= p.take(2));
    }
    assert(spec.skip(5) =~= p);
    assert("link:"@ + p == "link"@ + ":"@ + p);
    assert(("link"@ + ":"@ + p).skip(5) =~= p);
    assert(("link"@ + ":"@ + p).take(5) =~= "link"@ + ":"@);
}

proof fn lemma_distinct_words()
    ensures
        ({
            let (a, b) = ("file"@, "link"@);
            &&& a != b
            &&& forall|i: int| 0 <= i < a.len() ==> 'a' <= #[trigger] a[i] <= 'z'
            &&& forall|i: int| 0 <= i < b.len() ==> 'a' <= #[trigger] b[i] <= 'z'
            &&& a != "git"@ && a != "github"@ && a != "gitlab"@ && a != "bitbucket"@ && a
                != "https"@ && a != "http"@ && a != "ssh"@
            &&& b != "git"@ && b != "github"@ && b != "gitlab"@ && b != "bitbucket"@ && b
                != "https"@ && b != "http"@ && b != "ssh"@
        }),
{
    reveal_strlit("file");
    reveal_strlit("link");
    reveal_strlit("git");
    reveal_strlit("github");
    reveal_strlit("gitlab");
    reveal_strlit("bitbucket");
    reveal_strlit("https");
    reveal_strlit("http");
    reveal_strlit("ssh");
    assert("file"@[0] == 'f' && "link"@[0] == 'l' && "git"@[0] == 'g' && "github"@[0] == 'g'
        && "gitlab"@[0] == 'g' && "bitbucket"@[0] == 'b' && "https"@[0] == 'h' && "http"@[0] == 'h'
        && "ssh"@[0] == 's');
}

/// What starts with a word that is no scheme is no git specifier and no URL.
proof fn lemma_registry_word(word: Seq<char>, x: Seq<char>, is_file: bool)
    requires
        word.len() > 0,
        forall|i: int| 0 <= i < word.len() ==> 'a' <= #[trigger] word[i] <= 'z',
        word[0] == 'l' || word[0] == 'n' || word[0] == 'w' || word[0] == 'c',
    ensures
        git_spec(word + ":"@ + x) is None,
        !is_http_url(word + ":"@ + x),
        word != "link"@ ==> local_source(word + ":"@ + x, is_file) is None,
        !"file:"@.is_prefix_of(word + ":"@ + x),
{
    let spec = word + ":"@ + x;
    reveal_strlit(":");
    reveal_strlit("file");
    reveal_strlit("git");
    reveal_strlit("github");
    reveal_strlit("gitlab");
    reveal_strlit("bitbucket");
    reveal_strlit("https");
    reveal_strlit("http");
    reveal_strlit("ssh");
    assert("file"@[0] == 'f' && "git"@[0] == 'g' && "github"@[0] == 'g' && "gitlab"@[0] == 'g'
        && "bitbucket"@[0] == 'b' && "https"@[0] == 'h' && "http"@[0] == 'h' && "ssh"@[0] == 's');
    lemma_after_colon(word, x);
    let body = match split_once(spec, '#') {
        Some((a, _)) => a,
        None => spec,
    };
    lemma_scheme(word, body);
    assert((word + ":"@).is_prefix_of(spec)) by {
        assert(spec.take(word.len() as int + 1) =~= word + ":"@);
    }
    lemma_scheme(word, spec);
}

/// What `npm:`, `workspace:` and `catalog:` stand in front of is no source outside
/// the registry.
pub proof fn law_registry_protocols(x: Seq<char>, is_file: bool)
    ensures
        local_source("npm:"@ + x, is_file) is None,
        local_source("workspace:"@ + x, is_file) is None,
        local_source("catalog:"@ + x, is_file) is None,
{
    lemma_words();
    reveal_strlit("npm");
    reveal_strlit("workspace");
    reveal_strlit("catalog");
    reveal_strlit("link");
    assert("npm"@[0] == 'n' && "workspace"@[0] == 'w' && "catalog"@[0] == 'c' && "link"@[0] == 'l');
    lemma_registry_word("npm"@, x, is_file);
    lemma_registry_word("workspace"@, x, is_file);
    lemma_registry_word("catalog"@, x, is_file);
}

/// `github:`, `gitlab:` and `bitbucket:` stand for the clone URL of a repository at
/// that host.
pub proof fn law_hosted_shorthands(x: Seq<char>)
    requires
        !x.contains('#'),
    ensures
        git_spec("github:"@ + x) == Some(
            ("https://github.com/"@ + x + ".git"@, None::<Seq<char>>, None::<Seq<char>>),
        ),
        git_spec("gitlab:"@ + x) == Some(
            ("https://gitlab.com/"@ + x + ".git"@, None::<Seq<char>>, None::<Seq<char>>),
        ),
        git_spec("bitbucket:"@ + x) == Some(
            ("https://bitbucket.org/"@ + x + ".git"@, None::<Seq<char>>, None::<Seq<char>>),
        ),
{
    lemma_words();
    reveal_strlit("github");
    reveal_strlit("gitlab");
    reveal_strlit("bitbucket");
    reveal_strlit("git");
    assert("github"@.len() == 6 && "gitlab"@.len() == 6 && "bitbucket"@.len() == 9 && "git"@.len()
        == 3);
    assert("github"@[3] == 'h' && "gitlab"@[3] == 'l');
    lemma_hosted_word("github"@, x);
    lemma_hosted_word("gitlab"@, x);
    lemma_hosted_word("bitbucket"@, x);
}

proof fn lemma_hosted_word(word: Seq<char>, x: Seq<char>)
    requires
        word.len() > 3,
        forall|i: int| 0 <= i < word.len() ==> 'a' <= #[trigger] word[i] <= 'z',
        !x.contains('#'),
    ensures
        ({
            let spec = word + ":"@ + x;
            &&& split_once(spec, '#') is None
            &&& scp_url(spec) is None
            &&& !"git+"@.is_prefix_of(spec)
            &&& !"git://"@.is_prefix_of(spec)
            &&& strip_prefix(spec, word + ":"@) == Some(x)
            &&& word != "github"@ ==> strip_prefix(spec, "github:"@) is None
            &&& word != "gitlab"@ ==> strip_prefix(spec, "gitlab:"@) is None
            &&& word != "bitbucket"@ ==> strip_prefix(spec, "bitbucket:"@) is None
        }),
{
    reveal_strlit(":");
    reveal_strlit("git");
    let spec = word + ":"@ + x;
    assert forall|i: int| 0 <= i < spec.len() implies spec[i] != '#' by {
        if i < word.len() {
            assert(spec[i] == word[i]);
        } else if i > word.len() {
            assert(x.contains(spec[i]));
        }
    }
    lemma_find_char_none(spec, '#');
    lemma_after_colon(word, x);
    assert((word + ":"@).is_prefix_of(spec)) by {
        assert(spec.take(word.len() as int + 1) =~= word + ":"@);
    }
    lemma_scheme(word, spec);
    assert(spec.skip(word.len() as int + 1) =~= x);
}

/// A URL with `git+` in front, or with the scheme `git`, is a clone URL. So is any
/// other whose path ends in `.git`.
pub proof fn law_git_urls(scheme: Seq<char>, x: Seq<char>)
    requires
        !x.contains('#'),
        scheme == "https://"@ || scheme == "http://"@ || scheme == "ssh://"@ || scheme
            == "file://"@,
    ensures
        git_spec("git+"@ + x) == Some((x, None::<Seq<char>>, None::<Seq<char>>)),
        git_spec("git://"@ + x) == Some(("git://"@ + x, None::<Seq<char>>, None::<Seq<char>>)),
        git_spec(scheme + x + ".git"@) == Some(
            (scheme + x + ".git"@, None::<Seq<char>>, None::<Seq<char>>),
        ),
        !".git"@.is_suffix_of(scheme + x) ==> git_spec(scheme + x) is None,
{
    reveal_strlit("git+");
    reveal_strlit("git://");
    reveal_strlit(".git");
    reveal_strlit("https://");
    reveal_strlit("http://");
    reveal_strlit("ssh://");
    reveal_strlit("file://");
    let (a, b, c, d) = ("git+"@ + x, "git://"@ + x, scheme + x + ".git"@, scheme + x);
    assert forall|i: int| 0 <= i < x.len() implies x[i] != '#' by {
        assert(x.contains(x[i]));
    }
    assert(!a.contains('#') && !b.contains('#') && !c.contains('#') && !d.contains('#'));
    lemma_find_char_none(a, '#');
    lemma_find_char_none(b, '#');
    lemma_find_char_none(c, '#');
    lemma_find_char_none(d, '#');
    assert(a.take(4) =~= "git+"@);
    assert(a.skip(4) =~= x);
    assert(b.take(6) =~= "git://"@);
    if "git+"@.is_prefix_of(b) {
        assert(b[3] == "git+"@[3]);
    }
    assert(c.skip(c.len() - 4) =~= ".git"@);
    lemma_transport(scheme, x + ".git"@);
    assert(scheme + (x + ".git"@) =~= c);
    lemma_transport(scheme, x);
}

proof fn lemma_transport(scheme: Seq<char>, x: Seq<char>)
    requires
        scheme == "https://"@ || scheme == "http://"@ || scheme == "ssh://"@ || scheme
            == "file://"@,
    ensures
        ({
            let s = scheme + x;
            &&& crate::source::is_bare_transport(s)
            &&& !"git+"@.is_prefix_of(s)
            &&& !"git://"@.is_prefix_of(s)
            &&& scp_url(s) is None
            &&& !"github:"@.is_prefix_of(s)
            &&& !"gitlab:"@.is_prefix_of(s)
            &&& !"bitbucket:"@.is_prefix_of(s)
            &&& !crate::source::is_github_shorthand(s)
        }),
{
    reveal_strlit("git+");
    reveal_strlit("git://");
    reveal_strlit("https://");
    reveal_strlit("http://");
    reveal_strlit("ssh://");
    reveal_strlit("file://");
    reveal_strlit("github:");
    reveal_strlit("gitlab:");
    reveal_strlit("bitbucket:");
    reveal_strlit("://");
    let s = scheme + x;
    assert(s.take(scheme.len() as int) =~= scheme);
    assert(s[0] == scheme[0]);
    if "git+"@.is_prefix_of(s) {
        assert(s[0] == "git+"@[0]);
    }
    if "git://"@.is_prefix_of(s) {
        assert(s[0] == "git://"@[0]);
    }
    if "github:"@.is_prefix_of(s) {
        assert(s[0] == "github:"@[0]);
    }
    if "gitlab:"@.is_prefix_of(s) {
        assert(s[0] == "gitlab:"@[0]);
    }
    if "bitbucket:"@.is_prefix_of(s) {
        assert(s[0] == "bitbucket:"@[0]);
    }
    let n = scheme.len() - 3;
    lemma_find_from(s, "://"@, 0);
    assert(occurs_at(s, "://"@, n)) by {
        assert(s.subrange(n, n + 3) =~= "://"@);
    }
    assert(find(s, "://"@) is Some);
    if crate::source::is_github_shorthand(s) {
        lemma_find_char(s, '/');
        let at = find_char(s, '/')->0;
        assert(s[n] == ':');
        assert(s[n + 1] == '/');
        let owner = s.take(at);
        assert(at > n) by {
            if at < n {
                assert(s[at] == scheme[at]);
            }
        }
        assert(owner[n] == ':');
        assert(crate::source::is_name_char(owner[n]));
    }
}

/// A URL that is no clone URL by itself is one with a full commit behind it: forty
/// hexadecimal digits.
pub proof fn law_pinned_urls(scheme: Seq<char>, x: Seq<char>, sha: Seq<char>)
    requires
        !x.contains('#'),
        scheme == "https://"@ || scheme == "http://"@ || scheme == "ssh://"@ || scheme
            == "file://"@,
        sha.len() == 40,
        forall|i: int|
            0 <= i < 40 ==> ('0' <= #[trigger] sha[i] <= '9') || ('a' <= sha[i] <= 'f') || ('A'
                <= sha[i] <= 'F'),
    ensures
        git_spec(scheme + x + "#"@ + sha) == Some((scheme + x, Some(sha), None::<Seq<char>>)),
{
    reveal_strlit("#");
    reveal_strlit("https://");
    reveal_strlit("http://");
    reveal_strlit("ssh://");
    reveal_strlit("file://");
    let body = scheme + x;
    assert("#"@ =~= seq!['#']);
    assert forall|i: int| 0 <= i < x.len() implies x[i] != '#' by {
        assert(x.contains(x[i]));
    }
    assert(!body.contains('#'));
    lemma_split_once_at(body, '#', sha);
    lemma_transport(scheme, x);
    assert(!sha.contains('&') && !sha.contains('=') && !sha.contains(':'));
    law_bare_reference(sha);
    assert(crate::source::is_full_sha(sha)) by {
        assert forall|i: int| 0 <= i < sha.len() implies crate::text::is_hex_digit(
            #[trigger] sha[i],
        ) by {}
    }
}

/// An HTTP URL that is no clone URL is that of a tarball.
pub proof fn law_other_urls_are_tarballs(scheme: Seq<char>, x: Seq<char>, is_file: bool)
    requires
        !x.contains('#'),
        scheme == "https://"@ || scheme == "http://"@,
        !".git"@.is_suffix_of(scheme + x),
    ensures
        local_source(scheme + x, is_file) == Some(
            LocalSourceView::RemoteTarball(
                RemoteTarballView { url: scheme + x, integrity: Seq::empty() },
            ),
        ),
{
    law_git_urls(scheme, x);
    let s = scheme + x;
    assert(s.take(scheme.len() as int) =~= scheme);
}

/// A fragment without selector is the name of a reference.
pub proof fn law_bare_reference(name: Seq<char>)
    requires
        name.len() > 0,
        !name.contains('&') && !name.contains('=') && !name.contains(':'),
    ensures
        git_fragment(name) == (Some(name), None::<Seq<char>>),
{
    lemma_find_char_none(name, '=');
    lemma_find_char_none(name, ':');
    lemma_split_none(name, '&');
    lemma_no_selector();
    lemma_one_part(name);
}

proof fn lemma_no_selector()
    ensures
        "commit"@.len() > 0 && "tag"@.len() > 0 && "head"@.len() > 0 && "branch"@.len() > 0
            && "path"@.len() > 0,
{
    reveal_strlit("commit");
    reveal_strlit("tag");
    reveal_strlit("head");
    reveal_strlit("branch");
    reveal_strlit("path");
}

proof fn lemma_one_part(part: Seq<char>)
    requires
        split(part, '&') == seq![part],
    ensures
        git_fragment(part) == (
            if part_commit(part) is Some {
                part_commit(part)
            } else {
                part_ref(part)
            },
            part_path(part),
        ),
{
    reveal_with_fuel(first_some, 2);
    let parts = seq![part];
    assert(parts.last() == part);
    assert(parts.drop_last() =~= Seq::empty());
}

proof fn lemma_two_parts(a: Seq<char>, b: Seq<char>)
    requires
        !a.contains('&'),
        !b.contains('&'),
    ensures
        ({
            let s = a + "&"@ + b;
            let commit = if part_commit(a) is Some {
                part_commit(a)
            } else {
                part_commit(b)
            };
            let name = if part_ref(a) is Some {
                part_ref(a)
            } else {
                part_ref(b)
            };
            git_fragment(s) == (
                if commit is Some {
                    commit
                } else {
                    name
                },
                if part_path(a) is Some {
                    part_path(a)
                } else {
                    part_path(b)
                },
            )
        }),
{
    reveal_strlit("&");
    reveal_with_fuel(first_some, 3);
    let s = a + "&"@ + b;
    assert(s =~= a + seq!['&'] + b);
    lemma_split_cons(a, '&', b);
    lemma_split_none(b, '&');
    let parts = seq![a] + seq![b];
    assert(split(s, '&') == parts);
    assert(parts.last() == b);
    assert(parts.drop_last() =~= seq![a]);
    assert(seq![a].drop_last() =~= Seq::empty());
}

/// A part with a selector.
proof fn lemma_selector(key: Seq<char>, colon: bool, v: Seq<char>)
    requires
        key == "commit"@ || key == "tag"@ || key == "head"@ || key == "branch"@ || key == "path"@,
        !v.contains('&') && !v.contains('='),
        v.len() > 0,
    ensures
        ({
            let part = key + (if colon {
                ":"@
            } else {
                "="@
            }) + v;
            &&& !part.contains('&')
            &&& fragment_part(part) == (key, v)
        }),
{
    reveal_strlit("commit");
    reveal_strlit("tag");
    reveal_strlit("head");
    reveal_strlit("branch");
    reveal_strlit("path");
    reveal_strlit(":");
    reveal_strlit("=");
    assert(!key.contains('=') && !key.contains(':') && !key.contains('&'));
    let sep = if colon {
        ":"@
    } else {
        "="@
    };
    let part = key + sep + v;
    assert forall|i: int| 0 <= i < part.len() implies part[i] != '&' by {
        if i < key.len() {
            assert(key.contains(part[i]));
        } else if i > key.len() {
            assert(v.contains(part[i]));
        }
    }
    if colon {
        assert forall|i: int| 0 <= i < part.len() implies part[i] != '=' by {
            if i < key.len() {
                assert(key.contains(part[i]));
            } else if i > key.len() {
                assert(v.contains(part[i]));
            }
        }
        assert(!part.contains('='));
        lemma_find_char_none(part, '=');
        assert(part =~= key + seq![':'] + v);
        lemma_split_once_at(key, ':', v);
    } else {
        assert(part =~= key + seq!['='] + v);
        lemma_split_once_at(key, '=', v);
    }
}

/// The selectors `commit`, `tag`, `head` and `branch` name a reference, with an
/// equals sign or a colon.
pub proof fn law_reference_selectors(key: Seq<char>, colon: bool, v: Seq<char>)
    requires
        key == "commit"@ || key == "tag"@ || key == "head"@ || key == "branch"@,
        v.len() > 0,
        !v.contains('&') && !v.contains('='),
    ensures
        git_fragment(
            key + (if colon {
                ":"@
            } else {
                "="@
            }) + v,
        ) == (Some(v), None::<Seq<char>>),
{
    let part = key + (if colon {
        ":"@
    } else {
        "="@
    }) + v;
    lemma_selector(key, colon, v);
    lemma_split_none(part, '&');
    lemma_one_part(part);
    lemma_keys_differ();
}

proof fn lemma_keys_differ()
    ensures
        "path"@ != "commit"@ && "path"@ != "tag"@ && "path"@ != "head"@ && "path"@ != "branch"@,
        "commit"@ != "tag"@ && "commit"@ != "head"@ && "commit"@ != "branch"@,
        "path"@.len() > 0,
{
    reveal_strlit("commit");
    reveal_strlit("tag");
    reveal_strlit("head");
    reveal_strlit("branch");
    reveal_strlit("path");
    assert("path"@[0] == 'p' && "commit"@[0] == 'c' && "tag"@[0] == 't' && "head"@[0] == 'h'
        && "branch"@[0] == 'b');
}

/// A commit counts more than any other reference, wherever it stands. Of two other
/// references the first counts.
pub proof fn law_commits_are_preferred(v: Seq<char>, w: Seq<char>)
    requires
        v.len() > 0 && w.len() > 0,
        !v.contains('&') && !v.contains('=') && !v.contains(':'),
        !w.contains('&') && !w.contains('='),
    ensures
        git_fragment(v + "&"@ + ("commit"@ + "="@ + w)) == (Some(w), None::<Seq<char>>),
        git_fragment("commit"@ + "="@ + w + "&"@ + v) == (Some(w), None::<Seq<char>>),
        git_fragment(v + "&"@ + ("tag"@ + "="@ + w)) == (Some(v), None::<Seq<char>>),
{
    lemma_keys_differ();
    lemma_no_selector();
    lemma_selector("commit"@, false, w);
    lemma_selector("tag"@, false, w);
    lemma_find_char_none(v, '=');
    lemma_find_char_none(v, ':');
    lemma_two_parts(v, "commit"@ + "="@ + w);
    lemma_two_parts("commit"@ + "="@ + w, v);
    lemma_two_parts(v, "tag"@ + "="@ + w);
}

/// The selector `path` names a subdirectory, without the slashes in front. One with an
/// empty component, `.` or `..` is none.
pub proof fn law_path_selector(colon: bool, p: Seq<char>)
    requires
        p.len() > 0,
        p[0] != '/',
        !p.contains('&') && !p.contains('='),
    ensures
        ({
            let part = "path"@ + (if colon {
                ":"@
            } else {
                "="@
            }) + ("/"@ + p);
            let inside = forall|i: int|
                0 <= i < split(p, '/').len() ==> (#[trigger] split(p, '/')[i]).len() > 0 && split(
                    p,
                    '/',
                )[i] != "."@ && split(p, '/')[i] != ".."@;
            git_fragment(part) == (
                None::<Seq<char>>,
                if inside {
                    Some(p)
                } else {
                    None
                },
            )
        }),
{
    reveal_strlit("/");
    let v = "/"@ + p;
    let part = "path"@ + (if colon {
        ":"@
    } else {
        "="@
    }) + v;
    assert forall|i: int| 0 <= i < v.len() implies v[i] != '&' && v[i] != '=' by {
        if i > 0 {
            assert(p.contains(v[i]));
        }
    }
    lemma_selector("path"@, colon, v);
    lemma_split_none(part, '&');
    lemma_one_part(part);
    lemma_keys_differ();
    assert(v.drop_first() =~= p);
    reveal_with_fuel(trim_start_char, 3);
    assert(trim_start_char(v, '/') == p);
    let inside = forall|i: int|
        0 <= i < split(p, '/').len() ==> (#[trigger] split(p, '/')[i]).len() > 0 && split(p, '/')[i]
            != "."@ && split(p, '/')[i] != ".."@;
    assert(is_safe_subpath(p) <==> inside) by {
        if is_safe_subpath(p) {
            assert forall|i: int| 0 <= i < split(p, '/').len() implies (#[trigger] split(
                p,
                '/',
            )[i]).len() > 0 && split(p, '/')[i] != "."@ && split(p, '/')[i] != ".."@ by {
                assert(!crate::source::is_dotty(split(p, '/')[i]));
            }
        }
    }
}

/// `user@host:path` at one of the three known hosts is an SSH URL there.
pub proof fn law_scp_specifiers(user: Seq<char>, host: Seq<char>, path: Seq<char>)
    requires
        host == "github.com"@ || host == "gitlab.com"@ || host == "bitbucket.org"@,
        user.len() > 0 && path.len() > 0 && path[0] != '/',
        !user.contains('@') && !user.contains(':') && !user.contains('#') && !user.contains('+'),
        !path.contains(':') && !path.contains('#'),
    ensures
        git_spec(user + "@"@ + host + ":"@ + path) == Some(
            (
                "ssh://"@ + user + "@"@ + host + "/"@ + path,
                None::<Seq<char>>,
                None::<Seq<char>>,
            ),
        ),
{
    reveal_strlit("github.com");
    reveal_strlit("gitlab.com");
    reveal_strlit("bitbucket.org");
    reveal_strlit("@");
    reveal_strlit(":");
    reveal_strlit("://");
    reveal_strlit("git+");
    reveal_strlit("git://");
    let spec = user + "@"@ + host + ":"@ + path;
    let left = user + "@"@ + host;
    let n = left.len() as int;
    assert forall|i: int| 0 <= i < spec.len() implies spec[i] != '#' && (i != n ==> spec[i]
        != ':') by {
        if i < user.len() {
            assert(user.contains(spec[i]));
        } else if i == user.len() {
        } else if i < n {
            assert(spec[i] == host[i - user.len() - 1]);
        } else if i > n {
            assert(path.contains(spec[i]));
        }
    }
    assert(spec[n] == ':');
    lemma_find_char_none(spec, '#');
    assert(!left.contains(':')) by {
        assert forall|i: int| 0 <= i < n implies left[i] != ':' by {
            assert(left[i] == spec[i]);
        }
    }
    assert(spec =~= left + seq![':'] + path);
    lemma_split_once_at(left, ':', path);
    assert(left =~= user + seq!['@'] + host);
    lemma_split_once_at(user, '@', host);
    lemma_find_from(spec, "://"@, 0);
    if let Some(k) = find(spec, "://"@) {
        let sep = spec.subrange(k, k + 3);
        assert(sep[0] == spec[k] && sep[1] == spec[k + 1]);
        assert(spec[k] == ':' && spec[k + 1] == '/');
        assert(k == n);
        assert(spec[n + 1] == path[0]);
    }
    if "git+"@.is_prefix_of(spec) {
        assert(spec[3] == "git+"@[3]);
        if user.len() > 3 {
            assert(user.contains(spec[3]));
        } else if user.len() == 3 {
            assert(spec[3] == '@');
        } else {
            let u = user.len() as int;
            assert(spec[u] == '@');
            assert(spec[u] == "git+"@[u]);
        }
    }
    if "git://"@.is_prefix_of(spec) {
        assert(spec[3] == "git://"@[3] && spec[4] == "git://"@[4]);
        assert(n == 3);
    }
}

/// The canonical specifiers of sources.
pub proof fn law_specifiers(p: Seq<char>, g: GitSourceView, t: RemoteTarballView)
    requires
        !p.contains('\\'),
    ensures
        LocalSourceView::Directory(p).specifier() == "file:"@ + p,
        LocalSourceView::Tarball(p).specifier() == "file:"@ + p,
        LocalSourceView::Link(p).specifier() == "link:"@ + p,
        g.subpath is None ==> LocalSourceView::Git(g).specifier() == g.url + "#"@ + g.resolved,
        g.subpath matches Some(sub) ==> LocalSourceView::Git(g).specifier() == g.url + "#"@
            + g.resolved + "&path:/"@ + sub,
        LocalSourceView::RemoteTarball(t).specifier() == t.url,
{
    lemma_words();
    let q = LocalSourceView::Directory(p).posix();
    assert(q =~= p) by {
        assert forall|i: int| 0 <= i < p.len() implies q[i] == p[i] by {
            assert(p.contains(p[i]));
        }
    }
    assert(LocalSourceView::Tarball(p).posix() =~= q);
    assert(LocalSourceView::Link(p).posix() =~= q);
}

/// A path is written with a slash for each backslash, and is else as it is.
pub proof fn law_posix_path(p: Seq<char>, i: int)
    requires
        0 <= i < p.len(),
    ensures
        ({
            let (a, b, c) = (
                LocalSourceView::Directory(p).posix(),
                LocalSourceView::Tarball(p).posix(),
                LocalSourceView::Link(p).posix(),
            );
            &&& a == b && b == c
            &&& a.len() == p.len()
            &&& a[i] == (if p[i] == '\\' {
                '/'
            } else {
                p[i]
            })
        }),
{
    assert(LocalSourceView::Tarball(p).posix() =~= LocalSourceView::Directory(p).posix());
    assert(LocalSourceView::Link(p).posix() =~= LocalSourceView::Directory(p).posix());
}

/// The archives of a commit at the three known hosts.
pub proof fn law_archives(owner: Seq<char>, repo: Seq<char>, sha: Seq<char>)
    ensures
        (HostedGitView { host: HostedGitHost::GitHub, owner, repo }).tarball(sha)
            == "https://codeload.github.com/"@ + owner + "/"@ + repo + "/tar.gz/"@ + sha,
        (HostedGitView { host: HostedGitHost::GitLab, owner, repo }).tarball(sha)
            == "https://gitlab.com/"@ + owner + "/"@ + repo + "/-/archive/"@ + sha + "/"@ + repo
            + "-"@ + sha + ".tar.gz"@,
        (HostedGitView { host: HostedGitHost::Bitbucket, owner, repo }).tarball(sha)
            == "https://bitbucket.org/"@ + owner + "/"@ + repo + "/get/"@ + sha + ".tar.gz"@,
{
}

/// The value of a hexadecimal digit.
pub open spec fn digit_value(c: char) -> int {
    if '0' <= c <= '9' {
        c as int - '0' as int
    } else {
        c as int - 'a' as int + 10
    }
}

/// Bytes are written as two hexadecimal digits each, the high one first.
pub proof fn law_hex(bytes: Seq<u8>, i: int)
    requires
        0 <= i < bytes.len(),
    ensures
        hex(bytes).len() == 2 * bytes.len(),
        bytes[i] as int == 16 * digit_value(hex(bytes)[2 * i]) + digit_value(hex(bytes)[2 * i + 1]),
        ('0' <= hex(bytes)[2 * i] <= '9') || ('a' <= hex(bytes)[2 * i] <= 'f'),
        ('0' <= hex(bytes)[2 * i + 1] <= '9') || ('a' <= hex(bytes)[2 * i + 1] <= 'f'),
{
    let b = bytes[i] as int;
    assert((2 * i) % 2 == 0 && (2 * i) / 2 == i);
    assert((2 * i + 1) % 2 == 1 && (2 * i + 1) / 2 == i);
    assert(0 <= b / 16 < 16 && 0 <= b % 16 < 16);
}

/// A name that is one component of a path already.
pub open spec fn is_plain_name(s: Seq<char>) -> bool {
    &&& forall|i: int|
        0 <= i < s.len() ==> (#[trigger] s[i]) != '%' && s[i] != '/' && s[i] != '\\' && s[i] != ':'
    &&& forall|i: int, j: int|
        #![trigger s[i], s[j]]
        0 <= i < s.len() && j == i + 1 && j < s.len() ==> !(s[i] == '.' && s[j] == '.')
}

proof fn lemma_component_plain(name: Seq<char>, from: int, to: int)
    requires
        0 <= from <= to <= name.len(),
        forall|i: int|
            from <= i < to ==> !crate::source::is_escaped(name, #[trigger] (i + 0)),
    ensures
        component_from(name, from) == name.subrange(from, to) + component_from(name, to),
    decreases to - from,
{
    if from < to {
        assert(!crate::source::is_escaped(name, from + 0));
        lemma_component_plain(name, from + 1, to);
        assert(name.subrange(from, to) =~= seq![name[from]] + name.subrange(from + 1, to));
        assert(seq![name[from]] + (name.subrange(from + 1, to) + component_from(name, to)) =~= (seq![
            name[from],
        ] + name.subrange(from + 1, to)) + component_from(name, to));
    } else {
        assert(name.subrange(from, to) =~= Seq::empty());
        assert(Seq::<char>::empty() + component_from(name, to) =~= component_from(name, to));
    }
}

/// In the key of a package from a source its name stands as it is, but for the slash
/// behind a scope.
pub proof fn law_names_in_keys(scope: Seq<char>, name: Seq<char>)
    requires
        is_plain_name(scope),
        is_plain_name(name),
    ensures
        component(name) == name,
        component(scope + "/"@ + name) == scope + "%2F"@ + name,
{
    reveal_strlit("/");
    let n = name.len() as int;
    lemma_component_plain(name, 0, n);
    assert(name.subrange(0, n) =~= name);
    assert(component_from(name, n) =~= Seq::empty());
    assert(name + Seq::<char>::empty() =~= name);
    let full = scope + "/"@ + name;
    let k = scope.len() as int;
    assert forall|i: int| 0 <= i < k implies !crate::source::is_escaped(
        full,
        #[trigger] (i + 0),
    ) by {
        assert(full[i] == scope[i]);
        if i > 0 {
            assert(full[i - 1] == scope[i - 1]);
        }
    }
    lemma_component_plain(full, 0, k);
    assert(full.subrange(0, k) =~= scope);
    assert(full[k] == '/');
    assert forall|i: int| k + 1 <= i < full.len() implies !crate::source::is_escaped(
        full,
        #[trigger] (i + 0),
    ) by {
        assert(full[i] == name[i - k - 1]);
        if i > k + 1 {
            assert(full[i - 1] == name[i - k - 2]);
        }
    }
    lemma_component_plain(full, k + 1, full.len() as int);
    assert(full.subrange(k + 1, full.len() as int) =~= name);
    assert(component_from(full, full.len() as int) =~= Seq::empty());
    assert(component_from(full, k) == "%2F"@ + component_from(full, k + 1));
    assert(scope + ("%2F"@ + name) =~= scope + "%2F"@ + name);
}

proof fn lemma_last_piece(dir: Seq<char>, name: Seq<char>)
    requires
        !name.contains('/'),
    ensures
        split(dir + "/"@ + name, '/').len() > 0,
        split(dir + "/"@ + name, '/').last() == name,
    decreases dir.len(),
{
    reveal_strlit("/");
    let s = dir + "/"@ + name;
    lemma_find_char(dir, '/');
    match find_char(dir, '/') {
        Some(k) => {
            let (a, rest) = (dir.take(k), dir.skip(k + 1));
            assert(!a.contains('/'));
            assert(s =~= a + seq!['/'] + (rest + "/"@ + name));
            lemma_split_cons(a, '/', rest + "/"@ + name);
            lemma_last_piece(rest, name);
            let all = seq![a] + split(rest + "/"@ + name, '/');
            assert(all.last() == split(rest + "/"@ + name, '/').last());
        },
        None => {
            assert(!dir.contains('/'));
            assert(s =~= dir + seq!['/'] + name);
            lemma_split_cons(dir, '/', name);
            lemma_split_none(name, '/');
            let all = seq![dir] + seq![name];
            assert(all.last() == name);
        },
    }
}

/// A path is that of a tarball exactly where the name at its end ends in `.tgz` or
/// `.tar.gz`, in small or capital letters.
pub proof fn law_tarball_names(dir: Seq<char>, name: Seq<char>)
    requires
        name.len() > 0 && !name.contains('/') && name != "."@ && name != ".."@,
    ensures
        file_name(dir + "/"@ + name) == Some(name),
        file_name(name) == Some(name),
        is_tarball_path(dir + "/"@ + name) == is_tarball_path(name),
        ".tgz"@.is_suffix_of(name) || ".TGZ"@.is_suffix_of(name) || ".tar.gz"@.is_suffix_of(name)
            || ".TAR.GZ"@.is_suffix_of(name) ==> is_tarball_path(name),
        is_tarball_path(name) ==> name.len() >= 4 && (name.last() == 'z' || name.last() == 'Z')
            && (name[name.len() - 2] == 'g' || name[name.len() - 2] == 'G'),
{
    reveal_strlit(".tgz");
    reveal_strlit(".TGZ");
    reveal_strlit(".tar.gz");
    reveal_strlit(".TAR.GZ");
    lemma_last_piece(dir, name);
    lemma_split_none(name, '/');
    assert(seq![name].last() == name);
    let low = to_lower(name);
    let n = name.len() as int;
    if ".tgz"@.is_suffix_of(name) {
        lemma_lower_suffix(name, ".tgz"@, ".tgz"@);
    }
    if ".TGZ"@.is_suffix_of(name) {
        lemma_lower_suffix(name, ".TGZ"@, ".tgz"@);
    }
    if ".tar.gz"@.is_suffix_of(name) {
        lemma_lower_suffix(name, ".tar.gz"@, ".tar.gz"@);
    }
    if ".TAR.GZ"@.is_suffix_of(name) {
        lemma_lower_suffix(name, ".TAR.GZ"@, ".tar.gz"@);
    }
    if ".tgz"@.is_suffix_of(low) {
        assert(low.skip(n - 4) == ".tgz"@);
        assert(low[n - 1] == low.skip(n - 4)[3] && low[n - 2] == low.skip(n - 4)[2]);
    }
    if ".tar.gz"@.is_suffix_of(low) {
        assert(low.skip(n - 7) == ".tar.gz"@);
        assert(low[n - 1] == low.skip(n - 7)[6] && low[n - 2] == low.skip(n - 7)[5]);
    }
}

proof fn lemma_lower_suffix(name: Seq<char>, p: Seq<char>, q: Seq<char>)
    requires
        p.is_suffix_of(name),
        p.len() == q.len(),
        forall|i: int| 0 <= i < p.len() ==> crate::text::lower(#[trigger] p[i]) == q[i],
    ensures
        q.is_suffix_of(to_lower(name)),
{
    let low = to_lower(name);
    let d = name.len() - p.len();
    assert(name.skip(d) =~= p) by {
        assert(p =~= name.subrange(d, name.len() as int));
    }
    assert forall|i: int| 0 <= i < q.len() implies low[d + i] == q[i] by {
        assert(name.skip(d)[i] == name[d + i]);
        assert(name[d + i] == p[i]);
    }
    assert(q =~= low.subrange(d, low.len() as int));
}

/// The kind of a source, as the key of its package tells it.
pub proof fn law_kinds(p: Seq<char>, g: GitSourceView, t: RemoteTarballView)
    ensures
        LocalSourceView::Directory(p).kind() == "file"@,
        LocalSourceView::Tarball(p).kind() == "file"@,
        LocalSourceView::Link(p).kind() == "link"@,
        LocalSourceView::Git(g).kind() == "git"@,
        LocalSourceView::RemoteTarball(t).kind() == "url"@,
{
}

/// A URL at another host than the three, and one with more or fewer parts than an owner and
/// a repository, names no hosted repository.
pub proof fn law_other_urls_name_no_repository(
    host: Seq<char>,
    a: Seq<char>,
    b: Seq<char>,
    rest: Seq<char>,
)
    requires
        !host.contains('/') && !host.contains('@') && !host.contains('#'),
        !a.contains('/') && !a.contains('#') && !b.contains('/') && !b.contains('#'),
        !rest.contains('#'),
    ensures
        host != "github.com"@ && host != "gitlab.com"@ && host != "bitbucket.org"@
            ==> hosted_git("https://"@ + (host + "/"@ + rest)) is None,
        hosted_git("https://"@ + (host + "/"@ + (a + "/"@ + b + "/"@ + rest))) is None,
        hosted_git("https://"@ + (host + "/"@ + a)) is None,
{
    reveal_strlit("/");
    assert("/"@ =~= seq!['/']);
    lemma_hosted_https(host, rest);
    let deep = a + "/"@ + b + "/"@ + rest;
    assert forall|i: int| 0 <= i < deep.len() implies deep[i] != '#' by {
        if i < a.len() {
            assert(a.contains(deep[i]));
        } else if a.len() < i < a.len() + 1 + b.len() {
            assert(b.contains(deep[i]));
        } else if i > a.len() + 1 + b.len() {
            assert(rest.contains(deep[i]));
        }
    }
    assert(!deep.contains('#'));
    lemma_hosted_https(host, deep);
    lemma_hosted_https(host, a);
    lemma_split_none(a, '/');
    let tail = b + "/"@ + rest;
    assert(deep =~= a + seq!['/'] + tail);
    assert(tail =~= b + seq!['/'] + rest);
    lemma_split_cons(a, '/', tail);
    lemma_split_cons(b, '/', rest);
    crate::laws::text::law_split(rest, '/');
}

proof fn lemma_hosted_https(host: Seq<char>, path: Seq<char>)
    requires
        !host.contains('/') && !host.contains('@') && !host.contains('#'),
        !path.contains('#'),
    ensures
        hosted_git("https://"@ + (host + "/"@ + path)) == hosted_path(host + "/"@ + path),
        split_once(host + "/"@ + path, '/') == Some((host, path)),
        split_once(host, '@') is None,
{
    reveal_strlit("/");
    reveal_strlit("https://");
    let t = host + "/"@ + path;
    let url = "https://"@ + t;
    assert(t =~= host + seq!['/'] + path);
    lemma_split_once_at(host, '/', path);
    lemma_find_char_none(host, '@');
    assert forall|i: int| 0 <= i < url.len() implies url[i] != '#' by {
        if 8 <= i < 8 + host.len() {
            assert(host.contains(url[i]));
        } else if i > 8 + host.len() {
            assert(path.contains(url[i]));
        }
    }
    assert(!url.contains('#'));
    lemma_find_char_none(url, '#');
    crate::laws::source::lemma_after_scheme("https://"@, t);
}

/// A selector that is not known names nothing with an equals sign. With a colon it belongs
/// to the reference.
pub proof fn law_other_selectors(key: Seq<char>, v: Seq<char>)
    requires
        key.len() > 0 && v.len() > 0,
        key != "commit"@ && key != "tag"@ && key != "head"@ && key != "branch"@ && key != "path"@,
        !key.contains('=') && !key.contains(':') && !key.contains('&'),
        !v.contains('=') && !v.contains('&'),
    ensures
        git_fragment(key + "="@ + v) == (None::<Seq<char>>, None::<Seq<char>>),
        git_fragment(key + ":"@ + v) == (Some(key + ":"@ + v), None::<Seq<char>>),
{
    reveal_strlit(":");
    reveal_strlit("=");
    let (a, b) = (key + "="@ + v, key + ":"@ + v);
    assert forall|i: int| 0 <= i < a.len() implies a[i] != '&' && b[i] != '&' && b[i] != '=' by {
        if i < key.len() {
            assert(key.contains(a[i]));
            assert(b[i] == a[i]);
        } else if i > key.len() {
            assert(v.contains(a[i]));
            assert(b[i] == a[i]);
        }
    }
    assert(!a.contains('&') && !b.contains('&') && !b.contains('='));
    lemma_split_none(a, '&');
    lemma_split_none(b, '&');
    lemma_one_part(a);
    lemma_one_part(b);
    assert(a =~= key + seq!['='] + v);
    assert(b =~= key + seq![':'] + v);
    lemma_split_once_at(key, '=', v);
    lemma_split_once_at(key, ':', v);
    lemma_find_char_none(b, '=');
    lemma_no_selector();
}

} // verus!
