//! Package sources that are not registry entries: local paths, git
//! repositories and remote tarballs.
use vstd::prelude::*;
use vstd::utf8::encode_utf8;
use crate::laws::source::{is_component, law_dep_path_is_one_component};
use crate::strmap::Dup;
use crate::text::{
    after_prefix, before_suffix, chars, concat3, ends_with, find, find_text, hex_digit, is_digit,
    is_hex_digit, is_letter, lowered, pieces, replace_char, replaced, same, split, split_at_char,
    split_once, starts_with, string, strip_prefix, strip_suffix, texts, to_lower, trim_start_char,
    until, up_to, without_leading,
};

verus! {

/// Where a package that is not in a registry comes from.
#[derive(Debug, Clone, PartialEq, Eq)]
pub enum LocalSource {
    /// `file:<dir>`: a directory, relative to the project root.
    Directory(String),
    /// `file:<tarball>`: a tarball on disk, relative to the project root.
    Tarball(String),
    /// `link:<dir>`: a symbolic link, relative to the project root.
    Link(String),
    /// A git repository.
    Git(GitSource),
    /// An `http(s)` tarball.
    RemoteTarball(RemoteTarballSource),
}

/// A remote tarball.
#[derive(Debug, Clone, PartialEq, Eq)]
pub struct RemoteTarballSource {
    pub url: String,
    /// Empty until the tarball has been downloaded.
    pub integrity: String,
}

/// A git dependency.
#[derive(Debug, Clone, PartialEq, Eq)]
pub struct GitSource {
    /// The clone URL.
    pub url: String,
    /// The ref that was asked for; `None` is the default branch.
    pub committish: Option<String>,
    /// The pinned commit; empty until it is known.
    pub resolved: String,
    /// The directory of the repository that is the package, without a
    /// leading slash.
    pub subpath: Option<String>,
}

/// A repository at one of the hosts that serve tarballs over HTTPS.
#[derive(Debug, Clone, PartialEq, Eq)]
pub struct HostedGit {
    pub host: HostedGitHost,
    pub owner: String,
    pub repo: String,
}

#[derive(Debug, Clone, Copy, PartialEq, Eq, Structural)]
pub enum HostedGitHost {
    GitHub,
    GitLab,
    Bitbucket,
}

/// Model of [`LocalSource`].
pub enum LocalSourceView {
    Directory(Seq<char>),
    Tarball(Seq<char>),
    Link(Seq<char>),
    Git(GitSourceView),
    RemoteTarball(RemoteTarballView),
}

/// Model of [`RemoteTarballSource`].
pub struct RemoteTarballView {
    pub url: Seq<char>,
    pub integrity: Seq<char>,
}

/// Model of [`GitSource`].
pub struct GitSourceView {
    pub url: Seq<char>,
    pub committish: Option<Seq<char>>,
    pub resolved: Seq<char>,
    pub subpath: Option<Seq<char>>,
}

/// Model of [`HostedGit`].
pub struct HostedGitView {
    pub host: HostedGitHost,
    pub owner: Seq<char>,
    pub repo: Seq<char>,
}

impl DeepView for RemoteTarballSource {
    type V = RemoteTarballView;

    open spec fn deep_view(&self) -> RemoteTarballView {
        RemoteTarballView { url: self.url@, integrity: self.integrity@ }
    }
}

impl DeepView for GitSource {
    type V = GitSourceView;

    open spec fn deep_view(&self) -> GitSourceView {
        GitSourceView {
            url: self.url@,
            committish: self.committish.deep_view(),
            resolved: self.resolved@,
            subpath: self.subpath.deep_view(),
        }
    }
}

impl DeepView for LocalSource {
    type V = LocalSourceView;

    open spec fn deep_view(&self) -> LocalSourceView {
        match self {
            LocalSource::Directory(p) => LocalSourceView::Directory(p@),
            LocalSource::Tarball(p) => LocalSourceView::Tarball(p@),
            LocalSource::Link(p) => LocalSourceView::Link(p@),
            LocalSource::Git(g) => LocalSourceView::Git(g.deep_view()),
            LocalSource::RemoteTarball(t) => LocalSourceView::RemoteTarball(t.deep_view()),
        }
    }
}

impl DeepView for HostedGit {
    type V = HostedGitView;

    open spec fn deep_view(&self) -> HostedGitView {
        HostedGitView { host: self.host, owner: self.owner@, repo: self.repo@ }
    }
}

impl Dup for GitSource {
    fn dup(&self) -> (r: Self) {
        GitSource {
            url: self.url.clone(),
            committish: self.committish.dup(),
            resolved: self.resolved.clone(),
            subpath: self.subpath.dup(),
        }
    }
}

impl Dup for LocalSource {
    fn dup(&self) -> (r: Self) {
        match self {
            LocalSource::Directory(p) => LocalSource::Directory(p.clone()),
            LocalSource::Tarball(p) => LocalSource::Tarball(p.clone()),
            LocalSource::Link(p) => LocalSource::Link(p.clone()),
            LocalSource::Git(g) => LocalSource::Git(g.dup()),
            LocalSource::RemoteTarball(t) => LocalSource::RemoteTarball(
                RemoteTarballSource { url: t.url.clone(), integrity: t.integrity.clone() },
            ),
        }
    }
}

/// A full commit hash: forty hexadecimal digits.
pub open spec fn is_full_sha(s: Seq<char>) -> bool {
    s.len() == 40 && forall|i: int| 0 <= i < s.len() ==> is_hex_digit(#[trigger] s[i])
}

/// The key and value of one `&`-separated part of a git fragment:
/// `key=value`, or `key:value` for the known keys, else a value without key.
pub open spec fn fragment_part(part: Seq<char>) -> (Seq<char>, Seq<char>) {
    match split_once(part, '=') {
        Some(kv) => kv,
        None => match split_once(part, ':') {
            Some(kv) => if is_known_selector(kv.0) {
                kv
            } else {
                (Seq::empty(), part)
            },
            None => (Seq::empty(), part),
        },
    }
}

/// The keys that may be followed by a colon.
pub open spec fn is_known_selector(key: Seq<char>) -> bool {
    key == "commit"@ || key == "tag"@ || key == "head"@ || key == "branch"@ || key == "path"@
}

/// The commit that a part names.
pub open spec fn part_commit(part: Seq<char>) -> Option<Seq<char>> {
    let (key, value) = fragment_part(part);
    if value.len() > 0 && key == "commit"@ {
        Some(value)
    } else {
        None
    }
}

/// The tag, branch or bare ref that a part names.
pub open spec fn part_ref(part: Seq<char>) -> Option<Seq<char>> {
    let (key, value) = fragment_part(part);
    if value.len() > 0 && (key == "tag"@ || key == "head"@ || key == "branch"@ || key.len() == 0) {
        Some(value)
    } else {
        None
    }
}

/// A relative path none of whose components is empty, `.` or `..`.
pub open spec fn is_safe_subpath(p: Seq<char>) -> bool {
    p.len() > 0 && forall|i: int|
        0 <= i < split(p, '/').len() ==> !is_dotty(#[trigger] split(p, '/')[i])
}

/// An empty, `.` or `..` path component.
pub open spec fn is_dotty(component: Seq<char>) -> bool {
    component.len() == 0 || component == "."@ || component == ".."@
}

/// The subdirectory that a part names: what stands behind the leading
/// slashes, if that is a safe path.
pub open spec fn part_path(part: Seq<char>) -> Option<Seq<char>> {
    let (key, value) = fragment_part(part);
    let rest = trim_start_char(value, '/');
    if key == "path"@ && is_safe_subpath(rest) {
        Some(rest)
    } else {
        None
    }
}

/// What the first part for which `f` gives something gives.
pub open spec fn first_some(
    parts: Seq<Seq<char>>,
    f: spec_fn(Seq<char>) -> Option<Seq<char>>,
) -> Option<Seq<char>>
    decreases parts.len(),
{
    if parts.len() == 0 {
        None
    } else {
        match first_some(parts.drop_last(), f) {
            Some(v) => Some(v),
            None => f(parts.last()),
        }
    }
}

/// The committish and the subdirectory of a git fragment. A `commit` selector
/// is preferred to other refs; of each kind the first counts.
pub open spec fn git_fragment(fragment: Seq<char>) -> (Option<Seq<char>>, Option<Seq<char>>) {
    let parts = split(fragment, '&');
    let commit = first_some(parts, |p: Seq<char>| part_commit(p));
    let name = first_some(parts, |p: Seq<char>| part_ref(p));
    (
        if commit is Some {
            commit
        } else {
            name
        },
        first_some(parts, |p: Seq<char>| part_path(p)),
    )
}

/// A git URL fragment as `(committish, subpath)`.
pub fn parse_git_fragment(fragment: &str) -> (r: (Option<String>, Option<String>))
    ensures
        (r.0.deep_view(), r.1.deep_view()) == git_fragment(fragment@),
{
    let parts = pieces(&chars(fragment), '&');
    let ghost all = split(fragment@, '&');
    let mut commit: Option<String> = None;
    let mut name: Option<String> = None;
    let mut subpath: Option<String> = None;
    let mut i: usize = 0;
    while i < parts.len()
        invariant
            all == texts(parts@),
            i <= parts@.len(),
            commit.deep_view() == first_some(all.take(i as int), |p: Seq<char>| part_commit(p)),
            name.deep_view() == first_some(all.take(i as int), |p: Seq<char>| part_ref(p)),
            subpath.deep_view() == first_some(all.take(i as int), |p: Seq<char>| part_path(p)),
        decreases parts.len() - i,
    {
        let part: &[char] = parts[i].as_slice();
        proof {
            assert(all.take(i + 1).drop_last() == all.take(i as int));
            assert(all.take(i + 1).last() == part@);
        }
        let (key, value) = parse_fragment_part(part);
        if commit.is_none() && value.len() > 0 && same(key.as_str(), "commit") {
            commit = Some(string(value.as_slice()));
        }
        if name.is_none() && value.len() > 0 && (same(key.as_str(), "tag") || same(
            key.as_str(),
            "head",
        ) || same(key.as_str(), "branch") || key.as_str().is_empty()) {
            name = Some(string(value.as_slice()));
        }
        if subpath.is_none() && same(key.as_str(), "path") {
            let rest = without_leading(value.as_slice(), '/');
            if safe_subpath(rest) {
                subpath = Some(string(rest));
            }
        }
        i = i + 1;
    }
    proof {
        assert(all.take(all.len() as int) == all);
    }
    if commit.is_some() {
        (commit, subpath)
    } else {
        (name, subpath)
    }
}

/// The key and value of one part of a git fragment.
fn parse_fragment_part(part: &[char]) -> (r: (String, Vec<char>))
    ensures
        (r.0@, r.1@) == fragment_part(part@),
{
    match split_at_char(part, '=') {
        Some((k, v)) => (string(k), vstd::slice::slice_to_vec(v)),
        None => {
            match split_at_char(part, ':') {
                Some((k, v)) => {
                    let key = string(k);
                    if same(key.as_str(), "commit") || same(key.as_str(), "tag") || same(
                        key.as_str(),
                        "head",
                    ) || same(key.as_str(), "branch") || same(key.as_str(), "path") {
                        return (key, vstd::slice::slice_to_vec(v));
                    }
                },
                None => {},
            }
            (String::new(), vstd::slice::slice_to_vec(part))
        },
    }
}

/// Whether a path is relative and free of empty and dotted components.
pub(crate) fn safe_subpath(p: &[char]) -> (r: bool)
    ensures
        r == is_safe_subpath(p@),
{
    if p.len() == 0 {
        return false;
    }
    let parts = pieces(p, '/');
    let mut i: usize = 0;
    while i < parts.len()
        invariant
            texts(parts@) == split(p@, '/'),
            i <= parts@.len(),
            forall|j: int| 0 <= j < i ==> !is_dotty(#[trigger] split(p@, '/')[j]),
        decreases parts.len() - i,
    {
        let c = string(parts[i].as_slice());
        proof {
            assert(split(p@, '/')[i as int] == c@);
        }
        if c.as_str().is_empty() || same(c.as_str(), ".") || same(c.as_str(), "..") {
            return false;
        }
        i = i + 1;
    }
    true
}

/// The committish that a git fragment names.
pub fn normalize_git_fragment(fragment: &str) -> (r: Option<String>)
    ensures
        r.deep_view() == git_fragment(fragment@).0,
{
    parse_git_fragment(fragment).0
}

/// The three hosts whose `user@host:path` form is a git URL.
pub open spec fn is_hosted_domain(host: Seq<char>) -> bool {
    host == "github.com"@ || host == "gitlab.com"@ || host == "bitbucket.org"@
}

/// `ssh://user@host/path` for the form `user@host:path` at a known host.
pub open spec fn scp_url(body: Seq<char>) -> Option<Seq<char>> {
    match (find(body, "://"@), split_once(body, ':')) {
        (None, Some((left, path))) => match split_once(left, '@') {
            Some((user, host)) => if user.len() > 0 && is_hosted_domain(host) && path.len() > 0
                && path[0] != '/' {
                Some("ssh://"@ + user + "@"@ + host + "/"@ + path)
            } else {
                None
            },
            None => None,
        },
        _ => None,
    }
}

/// `user@host:path` at a known host as an `ssh` URL.
fn parse_scp_url(body: &[char]) -> (r: Option<String>)
    ensures
        r.deep_view() == scp_url(body@),
{
    let sep = chars("://");
    if find_text(body, &sep).is_some() {
        return None;
    }
    match split_at_char(body, ':') {
        None => None,
        Some((left, path)) => match split_at_char(left, '@') {
            None => None,
            Some((user, host)) => {
                let host = string(host);
                if user.len() == 0 || path.len() == 0 || path[0] == '/' {
                    return None;
                }
                if same(host.as_str(), "github.com") || same(host.as_str(), "gitlab.com") || same(
                    host.as_str(),
                    "bitbucket.org",
                ) {
                    let mut r = concat3("ssh://", string(user).as_str(), "@");
                    r.append(host.as_str());
                    r.append("/");
                    r.append(string(path).as_str());
                    Some(r)
                } else {
                    None
                }
            },
        },
    }
}

/// A letter, digit, `_`, `.` or `-`.
pub open spec fn is_name_char(c: char) -> bool {
    is_letter(c) || is_digit(c) || c == '_' || c == '.' || c == '-'
}

/// A non-empty text of name characters.
pub open spec fn is_name(s: Seq<char>) -> bool {
    s.len() > 0 && forall|i: int| 0 <= i < s.len() ==> is_name_char(#[trigger] s[i])
}

/// `user/repo`: two names around one slash, the first not starting with a dot.
pub open spec fn is_github_shorthand(body: Seq<char>) -> bool {
    match split_once(body, '/') {
        Some((owner, repo)) => is_name(owner) && owner[0] != '.' && is_name(repo),
        None => false,
    }
}

/// Whether a text is a non-empty run of name characters.
fn name_chars(s: &[char]) -> (r: bool)
    ensures
        r == is_name(s@),
{
    let mut i: usize = 0;
    while i < s.len()
        invariant
            i <= s@.len(),
            forall|j: int| 0 <= j < i ==> is_name_char(#[trigger] s@[j]),
        decreases s.len() - i,
    {
        let c = s[i];
        if !(('a' <= c && c <= 'z') || ('A' <= c && c <= 'Z') || ('0' <= c && c <= '9') || c == '_'
            || c == '.' || c == '-') {
            proof {
                assert(!is_name_char(s@[i as int]));
            }
            return false;
        }
        i = i + 1;
    }
    s.len() > 0
}

/// Whether a specifier is a bare GitHub `user/repo`.
fn is_bare_github_shorthand(body: &[char]) -> (r: bool)
    ensures
        r == is_github_shorthand(body@),
{
    match split_at_char(body, '/') {
        Some((owner, repo)) => name_chars(owner) && owner[0] != '.' && name_chars(repo),
        None => false,
    }
}

/// Whether a text is a full commit hash.
pub(crate) fn full_sha(s: &[char]) -> (r: bool)
    ensures
        r == is_full_sha(s@),
{
    if s.len() != 40 {
        return false;
    }
    let mut i: usize = 0;
    while i < s.len()
        invariant
            i <= s@.len(),
            forall|j: int| 0 <= j < i ==> is_hex_digit(#[trigger] s@[j]),
        decreases s.len() - i,
    {
        if !hex_digit(s[i]) {
            return false;
        }
        i = i + 1;
    }
    true
}

/// A URL whose scheme does not say that it is a git URL.
pub open spec fn is_bare_transport(body: Seq<char>) -> bool {
    "https://"@.is_prefix_of(body) || "http://"@.is_prefix_of(body) || "ssh://"@.is_prefix_of(body)
        || "file://"@.is_prefix_of(body)
}

/// The clone URL that a specifier without its fragment stands for.
pub open spec fn clone_url(body: Seq<char>, committish: Option<Seq<char>>) -> Option<Seq<char>> {
    if "git+"@.is_prefix_of(body) {
        Some(body.skip("git+"@.len() as int))
    } else if "git://"@.is_prefix_of(body) {
        Some(body)
    } else if scp_url(body) is Some {
        scp_url(body)
    } else if strip_prefix(body, "github:"@) is Some {
        Some("https://github.com/"@ + strip_prefix(body, "github:"@)->0 + ".git"@)
    } else if strip_prefix(body, "gitlab:"@) is Some {
        Some("https://gitlab.com/"@ + strip_prefix(body, "gitlab:"@)->0 + ".git"@)
    } else if strip_prefix(body, "bitbucket:"@) is Some {
        Some("https://bitbucket.org/"@ + strip_prefix(body, "bitbucket:"@)->0 + ".git"@)
    } else if is_bare_transport(body) && (".git"@.is_suffix_of(body) || (committish is Some
        && is_full_sha(committish->0))) {
        Some(body)
    } else if is_github_shorthand(body) {
        Some("https://github.com/"@ + body + ".git"@)
    } else {
        None
    }
}

/// Clone URL, committish and subdirectory of a git specifier.
pub open spec fn git_spec(spec: Seq<char>) -> Option<
    (Seq<char>, Option<Seq<char>>, Option<Seq<char>>),
> {
    let (body, (committish, subpath)) = match split_once(spec, '#') {
        Some((body, fragment)) => (body, git_fragment(fragment)),
        None => (spec, (None, None)),
    };
    match clone_url(body, committish) {
        Some(url) => Some((url, committish, subpath)),
        None => None,
    }
}

/// Model of a parsed git specifier.
pub open spec fn git_spec_view(r: Option<(String, Option<String>, Option<String>)>) -> Option<
    (Seq<char>, Option<Seq<char>>, Option<Seq<char>>),
> {
    match r {
        Some((url, committish, subpath)) => Some(
            (url@, committish.deep_view(), subpath.deep_view()),
        ),
        None => None,
    }
}

/// Parse a git dependency specifier into clone URL, committish and
/// subdirectory; `None` for what is not a git specifier.
pub fn parse_git_spec(spec: &str) -> (r: Option<(String, Option<String>, Option<String>)>)
    ensures
        git_spec_view(r) == git_spec(spec@),
{
    let text = chars(spec);
    match split_at_char(&text, '#') {
        Some((body, fragment)) => {
            let (committish, subpath) = parse_git_fragment(string(fragment).as_str());
            match parse_clone_url(body, &committish) {
                Some(url) => Some((url, committish, subpath)),
                None => None,
            }
        },
        None => match parse_clone_url(&text, &None) {
            Some(url) => Some((url, None, None)),
            None => None,
        },
    }
}

/// The clone URL that a specifier without its fragment stands for.
fn parse_clone_url(body: &[char], committish: &Option<String>) -> (r: Option<String>)
    ensures
        r.deep_view() == clone_url(body@, committish.deep_view()),
{
    if let Some(rest) = after_prefix(body, "git+") {
        return Some(string(rest));
    }
    if starts_with(body, "git://") {
        return Some(string(body));
    }
    let scp = parse_scp_url(body);
    if scp.is_some() {
        return scp;
    }
    if let Some(path) = after_prefix(body, "github:") {
        return Some(concat3("https://github.com/", string(path).as_str(), ".git"));
    }
    if let Some(path) = after_prefix(body, "gitlab:") {
        return Some(concat3("https://gitlab.com/", string(path).as_str(), ".git"));
    }
    if let Some(path) = after_prefix(body, "bitbucket:") {
        return Some(concat3("https://bitbucket.org/", string(path).as_str(), ".git"));
    }
    let bare = starts_with(body, "https://") || starts_with(body, "http://") || starts_with(
        body,
        "ssh://",
    ) || starts_with(body, "file://");
    let pinned = match committish {
        Some(c) => full_sha(&chars(c.as_str())),
        None => false,
    };
    if bare && (ends_with(body, ".git") || pinned) {
        return Some(string(body));
    }
    if is_bare_github_shorthand(body) {
        return Some(concat3("https://github.com/", string(body).as_str(), ".git"));
    }
    None
}

impl HostedGitHost {
    /// The host's domain name.
    pub open spec fn domain(self) -> Seq<char> {
        match self {
            HostedGitHost::GitHub => "github.com"@,
            HostedGitHost::GitLab => "gitlab.com"@,
            HostedGitHost::Bitbucket => "bitbucket.org"@,
        }
    }

    /// The host with a given domain name.
    pub open spec fn of_domain(domain: Seq<char>) -> Option<HostedGitHost> {
        if domain == "github.com"@ {
            Some(HostedGitHost::GitHub)
        } else if domain == "gitlab.com"@ {
            Some(HostedGitHost::GitLab)
        } else if domain == "bitbucket.org"@ {
            Some(HostedGitHost::Bitbucket)
        } else {
            None
        }
    }

    fn from_domain(domain: &str) -> (r: Option<Self>)
        ensures
            r == HostedGitHost::of_domain(domain@),
    {
        if same(domain, "github.com") {
            Some(HostedGitHost::GitHub)
        } else if same(domain, "gitlab.com") {
            Some(HostedGitHost::GitLab)
        } else if same(domain, "bitbucket.org") {
            Some(HostedGitHost::Bitbucket)
        } else {
            None
        }
    }

    pub fn host_domain(self) -> (r: &'static str)
        ensures
            r@ == self.domain(),
    {
        match self {
            HostedGitHost::GitHub => "github.com",
            HostedGitHost::GitLab => "gitlab.com",
            HostedGitHost::Bitbucket => "bitbucket.org",
        }
    }
}

impl HostedGitView {
    /// The HTTPS clone URL.
    pub open spec fn https(self) -> Seq<char> {
        "https://"@ + self.host.domain() + "/"@ + self.owner + "/"@ + self.repo + ".git"@
    }

    /// The tarball of one commit.
    pub open spec fn tarball(self, sha: Seq<char>) -> Seq<char> {
        match self.host {
            HostedGitHost::GitHub => "https://codeload.github.com/"@ + self.owner + "/"@ + self.repo
                + "/tar.gz/"@ + sha,
            HostedGitHost::GitLab => "https://gitlab.com/"@ + self.owner + "/"@ + self.repo
                + "/-/archive/"@ + sha + "/"@ + self.repo + "-"@ + sha + ".tar.gz"@,
            HostedGitHost::Bitbucket => "https://bitbucket.org/"@ + self.owner + "/"@ + self.repo
                + "/get/"@ + sha + ".tar.gz"@,
        }
    }
}

impl HostedGit {
    /// The clone URL that needs no SSH key.
    pub fn https_url(&self) -> (r: String)
        ensures
            r@ == self.deep_view().https(),
    {
        let mut r = concat3("https://", self.host.host_domain(), "/");
        r.append(self.owner.as_str());
        r.append("/");
        r.append(self.repo.as_str());
        r.append(".git");
        r
    }

    /// The tarball at a commit; `None` unless `committish` is a full commit
    /// hash.
    pub fn tarball_url(&self, committish: &str) -> (r: Option<String>)
        ensures
            r.deep_view() == (if is_full_sha(committish@) {
                Some(self.deep_view().tarball(to_lower(committish@)))
            } else {
                None
            }),
    {
        let c = chars(committish);
        if !full_sha(&c) {
            return None;
        }
        let sha = string(lowered(&c).as_slice());
        let mut r = match self.host {
            HostedGitHost::GitHub => "https://codeload.github.com/".to_owned(),
            HostedGitHost::GitLab => "https://gitlab.com/".to_owned(),
            HostedGitHost::Bitbucket => "https://bitbucket.org/".to_owned(),
        };
        r.append(self.owner.as_str());
        r.append("/");
        r.append(self.repo.as_str());
        match self.host {
            HostedGitHost::GitHub => {
                r.append("/tar.gz/");
                r.append(sha.as_str());
            },
            HostedGitHost::GitLab => {
                r.append("/-/archive/");
                r.append(sha.as_str());
                r.append("/");
                r.append(self.repo.as_str());
                r.append("-");
                r.append(sha.as_str());
                r.append(".tar.gz");
            },
            HostedGitHost::Bitbucket => {
                r.append("/get/");
                r.append(sha.as_str());
                r.append(".tar.gz");
            },
        }
        Some(r)
    }
}

/// What stands behind the scheme of a URL.
pub open spec fn after_scheme(body: Seq<char>) -> Option<Seq<char>> {
    if "https://"@.is_prefix_of(body) {
        strip_prefix(body, "https://"@)
    } else if "http://"@.is_prefix_of(body) {
        strip_prefix(body, "http://"@)
    } else if "ssh://"@.is_prefix_of(body) {
        strip_prefix(body, "ssh://"@)
    } else {
        strip_prefix(body, "git://"@)
    }
}

/// The repository that `[user@]host/owner/repo[.git]` names.
pub open spec fn hosted_path(rest: Seq<char>) -> Option<HostedGitView> {
    match split_once(rest, '/') {
        Some((authority, path)) => {
            let domain = match split_once(authority, '@') {
                Some((_, host)) => host,
                None => authority,
            };
            let segments = split(path, '/');
            let repo = match strip_suffix(segments[1], ".git"@) {
                Some(r) => r,
                None => segments[1],
            };
            match HostedGitHost::of_domain(domain) {
                Some(host) => if segments.len() == 2 && segments[0].len() > 0 && repo.len() > 0 {
                    Some(HostedGitView { host, owner: segments[0], repo })
                } else {
                    None
                },
                None => None,
            }
        },
        None => None,
    }
}

/// A URL without its fragment and without the mark of a git URL.
pub open spec fn plain_url(url: Seq<char>) -> Seq<char> {
    match strip_prefix(until(url, '#'), "git+"@) {
        Some(b) => b,
        None => until(url, '#'),
    }
}

/// The hosted repository that a URL with a scheme names.
pub open spec fn hosted_url(url: Seq<char>) -> Option<HostedGitView> {
    match after_scheme(url) {
        Some(rest) => hosted_path(rest),
        None => None,
    }
}

/// The hosted repository that a clone URL or a git specifier names.
pub open spec fn hosted_git(url: Seq<char>) -> Option<HostedGitView> {
    let body = plain_url(url);
    if after_scheme(body) is Some {
        hosted_url(body)
    } else {
        match scp_url(body) {
            Some(ssh) => hosted_url(ssh),
            None => match git_spec(url) {
                Some((clone, _, _)) => hosted_url(clone),
                None => None,
            },
        }
    }
}

fn parse_after_scheme<'a>(body: &'a [char]) -> (r: Option<&'a [char]>)
    ensures
        match r {
            Some(t) => after_scheme(body@) == Some(t@),
            None => after_scheme(body@) is None,
        },
{
    if let Some(rest) = after_prefix(body, "https://") {
        return Some(rest);
    }
    if let Some(rest) = after_prefix(body, "http://") {
        return Some(rest);
    }
    if let Some(rest) = after_prefix(body, "ssh://") {
        return Some(rest);
    }
    after_prefix(body, "git://")
}

fn parse_hosted_path(rest: &[char]) -> (r: Option<HostedGit>)
    ensures
        r.deep_view() == hosted_path(rest@),
{
    match split_at_char(rest, '/') {
        Some((authority, path)) => {
            let domain = match split_at_char(authority, '@') {
                Some((_, host)) => host,
                None => authority,
            };
            let host = match HostedGitHost::from_domain(string(domain).as_str()) {
                Some(h) => h,
                None => {
                    return None;
                },
            };
            let segments = pieces(path, '/');
            if segments.len() != 2 {
                return None;
            }
            proof {
                assert(split(path@, '/')[0] == segments@[0]@);
                assert(split(path@, '/')[1] == segments@[1]@);
            }
            let repo = match before_suffix(segments[1].as_slice(), ".git") {
                Some(r) => r,
                None => segments[1].as_slice(),
            };
            if segments[0].len() == 0 || repo.len() == 0 {
                return None;
            }
            Some(HostedGit { host, owner: string(segments[0].as_slice()), repo: string(repo) })
        },
        None => None,
    }
}

fn parse_hosted_url(url: &str) -> (r: Option<HostedGit>)
    ensures
        r.deep_view() == hosted_url(url@),
{
    let text = chars(url);
    match parse_after_scheme(&text) {
        Some(rest) => parse_hosted_path(rest),
        None => None,
    }
}

/// The repository that a clone URL or a git specifier names, if its host is one
/// of the three that serve tarballs over HTTPS.
pub fn parse_hosted_git(url: &str) -> (r: Option<HostedGit>)
    ensures
        r.deep_view() == hosted_git(url@),
{
    let text = chars(url);
    let bare = up_to(&text, '#');
    let body = match after_prefix(bare, "git+") {
        Some(b) => b,
        None => bare,
    };
    match parse_after_scheme(body) {
        Some(rest) => parse_hosted_path(rest),
        None => match parse_scp_url(body) {
            Some(ssh) => parse_hosted_url(ssh.as_str()),
            None => match parse_git_spec(url) {
                Some((clone, _, _)) => parse_hosted_url(clone.as_str()),
                None => None,
            },
        },
    }
}

/// The SHA-256 digest of a byte string.
pub uninterp spec fn sha256(data: Seq<u8>) -> Seq<u8>;

/// `sha2::Sha256::digest` hashes the whole of its argument. The digest is a
/// function of the bytes alone and has 32 bytes.
#[verifier::external_body]
fn sha256_digest(data: &[u8]) -> (r: Vec<u8>)
    ensures
        r@ == sha256(data@),
        r@.len() == 32,
{
    <sha2::Sha256 as sha2::Digest>::digest(data).to_vec()
}

/// Whether a character of a name is escaped in a path component: a path or drive
/// separator, the sign that marks an escape, and a dot behind a dot.
pub open spec fn is_escaped(name: Seq<char>, i: int) -> bool {
    name[i] == '%' || name[i] == '/' || name[i] == '\\' || name[i] == ':' || (name[i] == '.' && i > 0
        && name[i - 1] == '.')
}

/// The escape of a character.
pub open spec fn escape(c: char) -> Seq<char> {
    if c == '%' {
        "%25"@
    } else if c == '/' {
        "%2F"@
    } else if c == '\\' {
        "%5C"@
    } else if c == ':' {
        "%3A"@
    } else {
        "%2E"@
    }
}

/// What a name from character `i` on is written as in a path component.
pub open spec fn component_from(name: Seq<char>, i: int) -> Seq<char>
    decreases name.len() - i,
{
    if i < 0 || i >= name.len() {
        Seq::empty()
    } else {
        (if is_escaped(name, i) {
            escape(name[i])
        } else {
            seq![name[i]]
        }) + component_from(name, i + 1)
    }
}

/// A name as a path component.
pub open spec fn component(name: Seq<char>) -> Seq<char> {
    component_from(name, 0)
}

/// A name as a path component.
pub(crate) fn path_component(name: &str) -> (r: String)
    ensures
        r@ == component(name@),
{
    let text = chars(name);
    let mut r = String::new();
    let mut i: usize = 0;
    proof {
        assert(r@ + component(name@) =~= component(name@));
    }
    while i < text.len()
        invariant
            text@ == name@,
            i <= text@.len(),
            component(name@) == r@ + component_from(name@, i as int),
        decreases text.len() - i,
    {
        let c = text[i];
        let ghost before = r@;
        if c == '%' {
            r.append("%25");
        } else if c == '/' {
            r.append("%2F");
        } else if c == '\\' {
            r.append("%5C");
        } else if c == ':' {
            r.append("%3A");
        } else if c == '.' && i > 0 && text[i - 1] == '.' {
            r.append("%2E");
        } else {
            r.push(c);
        }
        proof {
            let step = if is_escaped(name@, i as int) {
                escape(c)
            } else {
                seq![c]
            };
            assert(r@ =~= before + step);
            assert(before + (step + component_from(name@, i + 1)) =~= before + step
                + component_from(name@, i + 1));
        }
        i = i + 1;
    }
    proof {
        assert(r@ + component_from(name@, i as int) =~= r@);
    }
    r
}

/// The small hexadecimal digit of a value below sixteen.
pub open spec fn hex_char(n: int) -> char {
    if n < 10 {
        (n + 48) as char
    } else {
        (n + 87) as char
    }
}

/// Two hexadecimal digits for each byte.
pub open spec fn hex(bytes: Seq<u8>) -> Seq<char> {
    Seq::new(
        2 * bytes.len(),
        |i: int|
            hex_char(
                if i % 2 == 0 {
                    bytes[i / 2] as int / 16
                } else {
                    bytes[i / 2] as int % 16
                },
            ),
    )
}

fn hex_char_of(n: u8) -> (r: char)
    requires
        n < 16,
    ensures
        r == hex_char(n as int),
{
    if n < 10 {
        (n + 48) as char
    } else {
        (n + 87) as char
    }
}

/// The first `n` bytes in hexadecimal.
fn hex_prefix(bytes: &[u8], n: usize) -> (r: String)
    requires
        n <= bytes@.len(),
    ensures
        r@ == hex(bytes@.take(n as int)),
{
    let mut r = String::new();
    let mut i: usize = 0;
    proof {
        assert(hex(bytes@.take(0)) == Seq::<char>::empty());
    }
    while i < n
        invariant
            i <= n <= bytes@.len(),
            r@ == hex(bytes@.take(i as int)),
        decreases n - i,
    {
        let b: u8 = bytes[i];
        r.push(hex_char_of(b / 16));
        r.push(hex_char_of(b % 16));
        i = i + 1;
        proof {
            let before = hex(bytes@.take(i - 1));
            let after = hex(bytes@.take(i as int));
            assert(after == before.push(hex_char(b as int / 16)).push(hex_char(b as int % 16)));
        }
    }
    r
}

/// The last component of a POSIX path, where that is a name: empty and `.`
/// components do not count, and `..` is no name.
pub open spec fn file_name(path: Seq<char>) -> Option<Seq<char>> {
    last_name(split(path, '/'))
}

/// See [`file_name`].
pub open spec fn last_name(components: Seq<Seq<char>>) -> Option<Seq<char>>
    decreases components.len(),
{
    if components.len() == 0 {
        None
    } else if components.last().len() == 0 || components.last() == "."@ {
        last_name(components.drop_last())
    } else if components.last() == ".."@ {
        None
    } else {
        Some(components.last())
    }
}

/// The last component of a POSIX path, where that is a name.
pub fn path_file_name(path: &str) -> (r: Option<String>)
    ensures
        r.deep_view() == file_name(path@),
{
    let parts = pieces(&chars(path), '/');
    let ghost all = texts(parts@);
    let mut i: usize = parts.len();
    proof {
        assert(all.take(all.len() as int) == all);
    }
    while i > 0
        invariant
            all == texts(parts@),
            all == split(path@, '/'),
            i <= parts@.len(),
            last_name(all) == last_name(all.take(i as int)),
        decreases i,
    {
        let c = string(parts[i - 1].as_slice());
        proof {
            assert(all.take(i as int).last() == c@);
            assert(all.take(i as int).drop_last() == all.take(i - 1));
        }
        if !(c.as_str().is_empty() || same(c.as_str(), ".")) {
            if same(c.as_str(), "..") {
                return None;
            }
            return Some(c);
        }
        i = i - 1;
    }
    None
}

/// A path whose file name ends in `.tgz` or `.tar.gz`, in any case.
pub open spec fn is_tarball_path(path: Seq<char>) -> bool {
    match file_name(path) {
        Some(name) => ".tgz"@.is_suffix_of(to_lower(name)) || ".tar.gz"@.is_suffix_of(
            to_lower(name),
        ),
        None => false,
    }
}

/// An `http` or `https` URL.
pub open spec fn is_http_url(spec: Seq<char>) -> bool {
    "https://"@.is_prefix_of(spec) || "http://"@.is_prefix_of(spec)
}

/// What a dependency specifier says about a source outside the registry.
/// `is_file` tells whether the path of a `file:` specifier is a file on disk.
pub open spec fn local_source(spec: Seq<char>, is_file: bool) -> Option<LocalSourceView> {
    match git_spec(spec) {
        Some((url, committish, subpath)) => Some(
            LocalSourceView::Git(
                GitSourceView { url, committish, resolved: Seq::empty(), subpath },
            ),
        ),
        None => if is_http_url(spec) {
            Some(
                LocalSourceView::RemoteTarball(
                    RemoteTarballView { url: spec, integrity: Seq::empty() },
                ),
            )
        } else {
            match strip_prefix(spec, "file:"@) {
                Some(path) => if is_file && is_tarball_path(path) {
                    Some(LocalSourceView::Tarball(path))
                } else {
                    Some(LocalSourceView::Directory(path))
                },
                None => match strip_prefix(spec, "link:"@) {
                    Some(path) => Some(LocalSourceView::Link(path)),
                    None => None,
                },
            }
        },
    }
}

impl LocalSourceView {
    /// The path of a source on disk.
    pub open spec fn path(self) -> Option<Seq<char>> {
        match self {
            LocalSourceView::Directory(p) => Some(p),
            LocalSourceView::Tarball(p) => Some(p),
            LocalSourceView::Link(p) => Some(p),
            _ => None,
        }
    }

    /// The name of the protocol.
    pub open spec fn kind(self) -> Seq<char> {
        match self {
            LocalSourceView::Directory(_) => "file"@,
            LocalSourceView::Tarball(_) => "file"@,
            LocalSourceView::Link(_) => "link"@,
            LocalSourceView::Git(_) => "git"@,
            LocalSourceView::RemoteTarball(_) => "url"@,
        }
    }

    /// The path with forward slashes; empty for a source without path.
    pub open spec fn posix(self) -> Seq<char> {
        match self.path() {
            Some(p) => replace_char(p, '\\', '/'),
            None => Seq::empty(),
        }
    }

    /// The text that tells two sources of a kind apart.
    pub open spec fn identity(self) -> Seq<char> {
        match self {
            LocalSourceView::Git(g) => match g.subpath {
                Some(sub) => g.url + "#"@ + g.resolved + "&path:/"@ + sub,
                None => g.url + "#"@ + g.resolved,
            },
            LocalSourceView::RemoteTarball(t) => t.url,
            _ => self.posix(),
        }
    }

    /// The canonical specifier.
    pub open spec fn specifier(self) -> Seq<char> {
        match self {
            LocalSourceView::Git(_) => self.identity(),
            LocalSourceView::RemoteTarball(_) => self.identity(),
            _ => self.kind() + ":"@ + self.posix(),
        }
    }

    /// The key of the package `name` in a graph, from the digest of its
    /// source's identity.
    pub open spec fn digest_dep_path(self, name: Seq<char>, digest: Seq<u8>) -> Seq<char> {
        component(name) + "@"@ + self.kind() + "+"@ + hex(digest.take(8))
    }

    /// The key of the package `name` in a graph.
    pub open spec fn dep_path(self, name: Seq<char>) -> Seq<char> {
        self.digest_dep_path(name, sha256(encode_utf8(self.identity())))
    }
}

impl LocalSource {
    /// The path that the dependency was written with; `None` for a source
    /// without path.
    pub fn path(&self) -> (r: Option<&str>)
        ensures
            match r {
                Some(p) => self.deep_view().path() == Some(p@),
                None => self.deep_view().path() is None,
            },
    {
        match self {
            LocalSource::Directory(p) => Some(p.as_str()),
            LocalSource::Tarball(p) => Some(p.as_str()),
            LocalSource::Link(p) => Some(p.as_str()),
            LocalSource::Git(_) => None,
            LocalSource::RemoteTarball(_) => None,
        }
    }

    /// The name of the protocol.
    pub fn kind_str(&self) -> (r: &'static str)
        ensures
            r@ == self.deep_view().kind(),
    {
        match self {
            LocalSource::Directory(_) => "file",
            LocalSource::Tarball(_) => "file",
            LocalSource::Link(_) => "link",
            LocalSource::Git(_) => "git",
            LocalSource::RemoteTarball(_) => "url",
        }
    }

    /// The path with forward slashes, whatever the host writes.
    pub fn path_posix(&self) -> (r: String)
        ensures
            r@ == self.deep_view().posix(),
    {
        match self.path() {
            Some(p) => string(replaced(&chars(p), '\\', '/').as_slice()),
            None => String::new(),
        }
    }

    /// The text that tells two sources of a kind apart.
    fn identity(&self) -> (r: String)
        ensures
            r@ == self.deep_view().identity(),
    {
        match self {
            LocalSource::Git(g) => {
                let mut r = concat3(g.url.as_str(), "#", g.resolved.as_str());
                match &g.subpath {
                    Some(sub) => {
                        r.append("&path:/");
                        r.append(sub.as_str());
                    },
                    None => {},
                }
                r
            },
            LocalSource::RemoteTarball(t) => t.url.clone(),
            _ => self.path_posix(),
        }
    }

    /// The canonical specifier: `file:` or `link:` and the path, the commit of
    /// a git URL, or the tarball's URL.
    pub fn specifier(&self) -> (r: String)
        ensures
            r@ == self.deep_view().specifier(),
    {
        match self {
            LocalSource::Git(_) => self.identity(),
            LocalSource::RemoteTarball(_) => self.identity(),
            _ => concat3(self.kind_str(), ":", self.path_posix().as_str()),
        }
    }

    /// The key of the package `name` in a graph, from the digest of its
    /// source's identity.
    pub fn dep_path_of_digest(&self, name: &str, digest: &[u8]) -> (r: String)
        requires
            digest@.len() >= 8,
        ensures
            r@ == self.deep_view().digest_dep_path(name@, digest@),
    {
        let mut r = path_component(name);
        r.append("@");
        r.append(self.kind_str());
        r.append("+");
        r.append(hex_prefix(digest, 8).as_str());
        r
    }

    /// The key of the package `name` in a graph: one path component, made of the
    /// name and the first eight bytes of the digest of the source's identity.
    pub fn dep_path(&self, name: &str) -> (r: String)
        ensures
            r@ == self.deep_view().dep_path(name@),
            sha256(encode_utf8(self.deep_view().identity())).len() == 32,
            is_component(r@),
    {
        let identity = self.identity();
        let digest = sha256_digest(identity.as_str().as_bytes());
        proof {
            law_dep_path_is_one_component(self.deep_view(), name@, digest@);
        }
        self.dep_path_of_digest(name, digest.as_slice())
    }

    /// Classify a dependency specifier; `None` for a registry range.
    /// `target_is_file` tells whether the path of a `file:` specifier, taken
    /// from the project root, is a file on disk.
    pub fn parse(spec: &str, target_is_file: bool) -> (r: Option<Self>)
        ensures
            r.deep_view() == local_source(spec@, target_is_file),
    {
        if let Some((url, committish, subpath)) = parse_git_spec(spec) {
            return Some(
                LocalSource::Git(GitSource { url, committish, resolved: String::new(), subpath }),
            );
        }
        if Self::looks_like_remote_tarball_url(spec) {
            return Some(
                LocalSource::RemoteTarball(
                    RemoteTarballSource { url: spec.to_owned(), integrity: String::new() },
                ),
            );
        }
        let text = chars(spec);
        if let Some(rest) = after_prefix(&text, "file:") {
            let path = string(rest);
            if target_is_file && Self::path_looks_like_tarball(path.as_str()) {
                return Some(LocalSource::Tarball(path));
            }
            return Some(LocalSource::Directory(path));
        }
        match after_prefix(&text, "link:") {
            Some(rest) => Some(LocalSource::Link(string(rest))),
            None => None,
        }
    }

    /// Whether a specifier that is no git specifier is a tarball URL.
    pub fn looks_like_remote_tarball_url(spec: &str) -> (r: bool)
        ensures
            r == is_http_url(spec@),
    {
        let text = chars(spec);
        starts_with(&text, "https://") || starts_with(&text, "http://")
    }

    /// Whether a path has a tarball's file name.
    pub fn path_looks_like_tarball(path: &str) -> (r: bool)
        ensures
            r == is_tarball_path(path@),
    {
        match path_file_name(path) {
            Some(name) => {
                let low = lowered(&chars(name.as_str()));
                ends_with(&low, ".tgz") || ends_with(&low, ".tar.gz")
            },
            None => false,
        }
    }
}

} // verus!
