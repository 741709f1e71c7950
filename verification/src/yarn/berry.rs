//! Reading the berry `yarn.lock` format, a YAML document.
use vstd::prelude::*;
use crate::graph::{
    default_graph, default_package, DepType, DirectDep, DirectDepView, LockedPackage,
    LockedPackageView, LockfileGraph, LockfileGraphView, PeerDepMeta, PeerDepMetaView,
};
use crate::manifest::{PackageJson, Ranges};
use crate::pnpm::dep_path::{dep_path, find_separator, version_separator, version_to_dep_path};
use crate::source::{
    file_name, full_sha, git_fragment, is_full_sha, normalize_git_fragment, path_file_name,
    GitSource, GitSourceView, LocalSource, LocalSourceView, RemoteTarballSource, RemoteTarballView,
};
use crate::strmap::{lookup, sorted_keys, Dup, StrMap};
use crate::text::{
    chars, concat, concat3, decimal, decimal_text, ends_with, find, find_char, find_text, is_letter,
    lowered, pieces_around, position, rfind_char, rposition, same, split_at_char, split_once,
    split_text, starts_with, string, substring, texts, to_lower, trim, trimmed, until, up_to,
};
use crate::yaml::{
    boolean, display_number, entry_trees, get, get_value, mapping, parse_document, text, tree,
    unsigned, yaml_document, Yaml, YamlFailure, YamlFailureView, YamlView,
};
use crate::yarn::classic::{all_to, insert_specs, resolve_deps, resolved_by};

verus! {

/// The specifiers of a block header, trimmed, without the empty ones.
pub open spec fn header_list(pieces: Seq<Seq<char>>) -> Seq<Seq<char>>
    decreases pieces.len(),
{
    if pieces.len() == 0 {
        Seq::empty()
    } else {
        let before = header_list(pieces.drop_last());
        if trim(pieces.last()).len() > 0 {
            before.push(trim(pieces.last()))
        } else {
            before
        }
    }
}

/// The specifiers of a block header such as `foo@npm:^1.0.0, foo@npm:^2.0.0`.
pub open spec fn berry_header(header: Seq<char>) -> Seq<Seq<char>> {
    header_list(split_text(header, ", "@))
}

/// Name, protocol and rest of a specifier `name@protocol:rest`.
pub open spec fn berry_spec(spec: Seq<char>) -> Option<(Seq<char>, Seq<char>, Seq<char>)> {
    match version_separator(spec) {
        Some(at) => match split_once(spec.skip(at + 1), ':') {
            Some((protocol, body)) => Some((spec.take(at), protocol, body)),
            None => None,
        },
        None => None,
    }
}

/// A letter or a plus sign.
pub open spec fn is_protocol_char(c: char) -> bool {
    is_letter(c) || c == '+'
}

/// Whether a range starts with a protocol such as `npm:` or `git+ssh:`.
pub open spec fn has_protocol(range: Seq<char>) -> bool {
    match find_char(range, ':') {
        Some(i) => i > 0 && forall|j: int| 0 <= j < i ==> is_protocol_char(#[trigger] range[j]),
        None => false,
    }
}

/// The text of a scalar.
pub open spec fn scalar_text(y: YamlView) -> Option<Seq<char>> {
    match y {
        YamlView::String(s) => Some(s),
        YamlView::Number(n, _) => Some(n),
        YamlView::Bool(b) => Some(
            if b {
                "true"@
            } else {
                "false"@
            },
        ),
        _ => None,
    }
}

/// The first `n` entries of a mapping that have a string key and a scalar
/// value; of two with one key the last counts.
pub open spec fn scalar_map(entries: Seq<(YamlView, YamlView)>, n: int) -> Map<Seq<char>, Seq<char>>
    decreases n,
{
    if n <= 0 {
        Map::empty()
    } else {
        let before = scalar_map(entries, n - 1);
        match (text(entries[n - 1].0), scalar_text(entries[n - 1].1)) {
            (Some(k), Some(v)) => before.insert(k, v),
            _ => before,
        }
    }
}

/// A section of a block with names and ranges.
pub open spec fn dep_section(block: Seq<(YamlView, YamlView)>, key: Seq<char>) -> Map<
    Seq<char>,
    Seq<char>,
> {
    match get(block, key) {
        Some(section) => match mapping(section) {
            Some(entries) => scalar_map(entries, entries.len() as int),
            None => Map::empty(),
        },
        None => Map::empty(),
    }
}

/// Whether a peer's entry says that it is optional.
pub open spec fn is_optional(meta: Seq<(YamlView, YamlView)>) -> bool {
    match get(meta, "optional"@) {
        Some(o) => boolean(o) == Some(true),
        None => false,
    }
}

/// What the first `n` entries say about peers.
pub open spec fn meta_map(entries: Seq<(YamlView, YamlView)>, n: int) -> Map<
    Seq<char>,
    PeerDepMetaView,
>
    decreases n,
{
    if n <= 0 {
        Map::empty()
    } else {
        let before = meta_map(entries, n - 1);
        match (text(entries[n - 1].0), mapping(entries[n - 1].1)) {
            (Some(k), Some(meta)) => before.insert(
                k,
                PeerDepMetaView { optional: is_optional(meta) },
            ),
            _ => before,
        }
    }
}

/// The `peerDependenciesMeta:` section of a block.
pub open spec fn meta_section(block: Seq<(YamlView, YamlView)>) -> Map<Seq<char>, PeerDepMetaView> {
    match get(block, "peerDependenciesMeta"@) {
        Some(section) => match mapping(section) {
            Some(entries) => meta_map(entries, entries.len() as int),
            None => Map::empty(),
        },
        None => Map::empty(),
    }
}

/// The extension of a path's file name.
pub open spec fn extension(path: Seq<char>) -> Option<Seq<char>> {
    match file_name(path) {
        Some(name) => match rfind_char(name, '.') {
            Some(i) => if i > 0 {
                Some(name.skip(i + 1))
            } else {
                None
            },
            None => None,
        },
        None => None,
    }
}

/// The source that a `file:` resolution names.
pub open spec fn file_source(body: Seq<char>) -> LocalSourceView {
    let path = until(body, '#');
    match extension(path) {
        Some(e) => if to_lower(e) == "tgz"@ || to_lower(e) == "gz"@ {
            LocalSourceView::Tarball(path)
        } else {
            LocalSourceView::Directory(path)
        },
        None => LocalSourceView::Directory(path),
    }
}

/// A git source pinned by the fragment of its URL.
pub open spec fn git_source(url: Seq<char>) -> LocalSourceView {
    LocalSourceView::Git(
        GitSourceView {
            url: until(url, '#'),
            committish: None,
            resolved: match split_once(url, '#') {
                Some((_, fragment)) => match git_fragment(fragment).0 {
                    Some(c) => c,
                    None => Seq::empty(),
                },
                None => Seq::empty(),
            },
            subpath: None,
        },
    )
}

/// Whether the fragment of a URL names a commit by its full hash.
pub open spec fn has_commit_hash(url: Seq<char>) -> bool {
    match split_once(url, '#') {
        Some((_, fragment)) => git_fragment(fragment).0 matches Some(c) && is_full_sha(c),
        None => false,
    }
}

/// The source that an `http(s)` resolution names: a git repository if the URL
/// has a commit hash or a `.git` path, or else a tarball.
pub open spec fn remote_source(url: Seq<char>) -> LocalSourceView {
    if ".git"@.is_suffix_of(url) || find(url, ".git#"@) is Some || has_commit_hash(url) {
        git_source(url)
    } else {
        LocalSourceView::RemoteTarball(
            RemoteTarballView { url: until(url, '#'), integrity: Seq::empty() },
        )
    }
}

/// What the protocol of a resolution says about the package.
pub enum BerryKind {
    Registry,
    /// A package of the workspace itself.
    Workspace,
    /// A protocol that is not supported.
    Skipped,
    Local(LocalSourceView),
}

/// What a resolution says about the package.
pub open spec fn berry_kind(protocol: Seq<char>, body: Seq<char>) -> BerryKind {
    let url = protocol + ":"@ + body;
    if protocol == "npm"@ {
        BerryKind::Registry
    } else if protocol == "workspace"@ {
        BerryKind::Workspace
    } else if protocol == "file"@ {
        BerryKind::Local(file_source(body))
    } else if protocol == "link"@ {
        BerryKind::Local(LocalSourceView::Link(until(body, '#')))
    } else if protocol == "http"@ || protocol == "https"@ {
        BerryKind::Local(remote_source(url))
    } else if protocol == "git"@ || protocol == "ssh"@ || "git+"@.is_prefix_of(protocol)
        || "ssh+"@.is_prefix_of(protocol) {
        BerryKind::Local(git_source(url))
    } else {
        BerryKind::Skipped
    }
}

/// Why a lockfile cannot be read.
pub enum BerryErrorView {
    Yaml(YamlFailureView),
    RootNotMapping,
    /// The version of the format, which is too old.
    OldVersion(u64),
    /// A block that is no mapping; its header.
    NotMapping(Seq<char>),
    NoVersion(Seq<char>),
    NoResolution(Seq<char>),
    /// A block with a resolution that is no specifier.
    BadResolution(Seq<char>, Seq<char>),
}

/// What a block records.
pub struct BerryBlock {
    pub specs: Seq<Seq<char>>,
    pub path: Seq<char>,
    /// The package, with the ranges that it declares; `None` for a package of
    /// the workspace itself.
    pub package: Option<LockedPackageView>,
}

/// The package of a block, with raw ranges for dependencies.
pub open spec fn raw_package(
    block: Seq<(YamlView, YamlView)>,
    name: Seq<char>,
    version: Seq<char>,
    path: Seq<char>,
    source: Option<LocalSourceView>,
) -> LockedPackageView {
    let deps = dep_section(block, "dependencies"@);
    let optional = dep_section(block, "optionalDependencies"@);
    LockedPackageView {
        name,
        version,
        yarn_checksum: match get(block, "checksum"@) {
            Some(c) => text(c),
            None => None,
        },
        dependencies: deps,
        optional_dependencies: optional,
        peer_dependencies: dep_section(block, "peerDependencies"@),
        peer_dependencies_meta: meta_section(block),
        dep_path: path,
        local_source: source,
        declared_dependencies: deps.union_prefer_right(optional),
        ..default_package()
    }
}

/// What a block with the given header records; `None` where it is skipped.
pub open spec fn berry_block(
    header: Seq<char>,
    block: Seq<(YamlView, YamlView)>,
) -> Result<Option<BerryBlock>, BerryErrorView> {
    let specs = berry_header(header);
    let version = match get(block, "version"@) {
        Some(v) => scalar_text(v),
        None => None,
    };
    let resolution = match get(block, "resolution"@) {
        Some(r) => text(r),
        None => None,
    };
    if specs.len() == 0 {
        Ok(None)
    } else if version is None {
        Err(BerryErrorView::NoVersion(header))
    } else if resolution is None {
        Err(BerryErrorView::NoResolution(header))
    } else {
        match berry_spec(resolution->0) {
            None => Err(BerryErrorView::BadResolution(header, resolution->0)),
            Some((name, protocol, body)) => Ok(
                match berry_kind(protocol, body) {
                    BerryKind::Skipped => None,
                    BerryKind::Workspace => Some(
                        BerryBlock { specs, path: dep_path(name, version->0), package: None },
                    ),
                    BerryKind::Registry => Some(
                        BerryBlock {
                            specs,
                            path: dep_path(name, version->0),
                            package: Some(
                                raw_package(
                                    block,
                                    name,
                                    version->0,
                                    dep_path(name, version->0),
                                    None,
                                ),
                            ),
                        },
                    ),
                    BerryKind::Local(source) => Some(
                        BerryBlock {
                            specs,
                            path: source.dep_path(name),
                            package: Some(
                                raw_package(
                                    block,
                                    name,
                                    version->0,
                                    source.dep_path(name),
                                    Some(source),
                                ),
                            ),
                        },
                    ),
                },
            ),
        }
    }
}

/// What an entry of the document records; `None` where it is skipped.
pub open spec fn berry_entry(entry: (YamlView, YamlView)) -> Result<
    Option<BerryBlock>,
    BerryErrorView,
> {
    match text(entry.0) {
        None => Ok(None),
        Some(header) => if "__"@.is_prefix_of(header) {
            Ok(None)
        } else {
            match mapping(entry.1) {
                Some(block) => berry_block(header, block),
                None => Err(BerryErrorView::NotMapping(header)),
            }
        },
    }
}

/// What the first wrong entry among the first `n` has wrong.
pub open spec fn first_wrong_entry(entries: Seq<(YamlView, YamlView)>, n: int) -> Option<
    BerryErrorView,
>
    decreases n,
{
    if n <= 0 {
        None
    } else {
        match (first_wrong_entry(entries, n - 1), berry_entry(entries[n - 1])) {
            (Some(e), _) => Some(e),
            (None, Err(e)) => Some(e),
            (None, Ok(_)) => None,
        }
    }
}

/// The dep path that each specifier of the first `n` entries resolves to.
pub open spec fn berry_table(entries: Seq<(YamlView, YamlView)>, n: int) -> Map<
    Seq<char>,
    Seq<char>,
>
    decreases n,
{
    if n <= 0 {
        Map::empty()
    } else {
        let before = berry_table(entries, n - 1);
        match berry_entry(entries[n - 1]) {
            Ok(Some(b)) => before.union_prefer_right(all_to(b.specs, b.path)),
            _ => before,
        }
    }
}

/// The packages of the first `n` entries, with raw ranges; of two with one dep
/// path the first counts.
pub open spec fn raw_packages(entries: Seq<(YamlView, YamlView)>, n: int) -> Map<
    Seq<char>,
    LockedPackageView,
>
    decreases n,
{
    if n <= 0 {
        Map::empty()
    } else {
        let before = raw_packages(entries, n - 1);
        match berry_entry(entries[n - 1]) {
            Ok(Some(b)) => match b.package {
                Some(pkg) => if before.dom().contains(b.path) {
                    before
                } else {
                    before.insert(b.path, pkg)
                },
                None => before,
            },
            _ => before,
        }
    }
}

/// A package whose dependencies are those that some specifier resolves.
pub open spec fn resolved_package(
    pkg: LockedPackageView,
    table: Map<Seq<char>, Seq<char>>,
) -> LockedPackageView {
    LockedPackageView {
        dependencies: resolved_by(pkg.dependencies, table),
        optional_dependencies: resolved_by(pkg.optional_dependencies, table),
        ..pkg
    }
}

/// All packages, resolved.
pub open spec fn resolved_packages(
    packages: Map<Seq<char>, LockedPackageView>,
    table: Map<Seq<char>, Seq<char>>,
) -> Map<Seq<char>, LockedPackageView> {
    Map::new(
        |k: Seq<char>| packages.dom().contains(k),
        |k: Seq<char>| resolved_package(packages[k], table),
    )
}

/// The dep path of a direct dependency: what its range says as it stands, or
/// else with the protocol `npm:`.
pub open spec fn direct_path(
    name: Seq<char>,
    range: Seq<char>,
    table: Map<Seq<char>, Seq<char>>,
) -> Option<Seq<char>> {
    match lookup(table, dep_path(name, range)) {
        Some(path) => Some(path),
        None => if has_protocol(range) {
            None
        } else {
            lookup(table, name + "@npm:"@ + range)
        },
    }
}

/// The direct dependencies among the given names of a manifest section.
pub open spec fn berry_deps(
    names: Seq<Seq<char>>,
    ranges: Map<Seq<char>, Seq<char>>,
    table: Map<Seq<char>, Seq<char>>,
    dep_type: DepType,
) -> Seq<DirectDepView>
    decreases names.len(),
{
    if names.len() == 0 {
        Seq::empty()
    } else {
        let before = berry_deps(names.drop_last(), ranges, table, dep_type);
        let name = names.last();
        match direct_path(name, ranges[name], table) {
            Some(path) => before.push(
                DirectDepView { name, dep_path: path, dep_type, specifier: None },
            ),
            None => before,
        }
    }
}

/// The direct dependencies of a manifest.
pub open spec fn berry_root_deps(ranges: Ranges, table: Map<Seq<char>, Seq<char>>) -> Seq<
    DirectDepView,
> {
    berry_deps(
        sorted_keys(ranges.dependencies.dom()),
        ranges.dependencies,
        table,
        DepType::Production,
    ) + berry_deps(
        sorted_keys(ranges.dev_dependencies.dom()),
        ranges.dev_dependencies,
        table,
        DepType::Dev,
    ) + berry_deps(
        sorted_keys(ranges.optional_dependencies.dom()),
        ranges.optional_dependencies,
        table,
        DepType::Optional,
    )
}

/// The version of the format.
pub open spec fn metadata_version(entries: Seq<(YamlView, YamlView)>) -> u64 {
    match get(entries, "__metadata"@) {
        Some(m) => match mapping(m) {
            Some(meta) => match get(meta, "version"@) {
                Some(v) => match unsigned(v) {
                    Some(n) => n,
                    None => 0,
                },
                None => 0,
            },
            None => 0,
        },
        None => 0,
    }
}

/// The graph that a document records, or the reason why it cannot be read.
pub open spec fn tree_graph(doc: YamlView, ranges: Ranges) -> Result<
    LockfileGraphView,
    BerryErrorView,
> {
    match mapping(doc) {
        None => Err(BerryErrorView::RootNotMapping),
        Some(entries) => {
            let n = entries.len() as int;
            let table = berry_table(entries, n);
            if metadata_version(entries) < 3 {
                Err(BerryErrorView::OldVersion(metadata_version(entries)))
            } else {
                match first_wrong_entry(entries, n) {
                    Some(e) => Err(e),
                    None => Ok(
                        LockfileGraphView {
                            importers: Map::empty().insert("."@, berry_root_deps(ranges, table)),
                            packages: resolved_packages(raw_packages(entries, n), table),
                            ..default_graph()
                        },
                    ),
                }
            }
        },
    }
}

/// The graph that a berry lockfile records.
pub open spec fn berry_graph(content: Seq<char>, ranges: Ranges) -> Result<
    LockfileGraphView,
    BerryErrorView,
> {
    match yaml_document(content) {
        Ok(doc) => tree_graph(doc, ranges),
        Err(e) => Err(BerryErrorView::Yaml(e)),
    }
}

/// Why a lockfile cannot be read.
#[derive(Debug, PartialEq)]
pub enum BerryError {
    Yaml(YamlFailure),
    RootNotMapping,
    /// The version of the format, which is too old.
    OldVersion(u64),
    /// A block that is no mapping; its header.
    NotMapping(String),
    NoVersion(String),
    NoResolution(String),
    /// A block with a resolution that is no specifier.
    BadResolution(String, String),
}

impl DeepView for BerryError {
    type V = BerryErrorView;

    open spec fn deep_view(&self) -> BerryErrorView {
        match self {
            BerryError::Yaml(e) => BerryErrorView::Yaml(e.deep_view()),
            BerryError::RootNotMapping => BerryErrorView::RootNotMapping,
            BerryError::OldVersion(n) => BerryErrorView::OldVersion(*n),
            BerryError::NotMapping(h) => BerryErrorView::NotMapping(h@),
            BerryError::NoVersion(h) => BerryErrorView::NoVersion(h@),
            BerryError::NoResolution(h) => BerryErrorView::NoResolution(h@),
            BerryError::BadResolution(h, r) => BerryErrorView::BadResolution(h@, r@),
        }
    }
}

impl BerryErrorView {
    /// The message for the user.
    pub open spec fn message(self) -> Seq<char> {
        match self {
            BerryErrorView::Yaml(e) => "yaml parse error: "@ + e.message,
            BerryErrorView::RootNotMapping => "yarn berry lockfile root must be a mapping"@,
            BerryErrorView::OldVersion(n) => {
                "yarn berry lockfile has unexpected __metadata.version: "@ + decimal(n as nat)
                    + " (expected >= 3)"@
            },
            BerryErrorView::NotMapping(h) => "yarn berry block '"@ + h + "' is not a mapping"@,
            BerryErrorView::NoVersion(h) => "yarn berry block '"@ + h + "' has no version"@,
            BerryErrorView::NoResolution(h) => "yarn berry block '"@ + h + "' has no resolution"@,
            BerryErrorView::BadResolution(h, r) => "yarn berry block '"@ + h
                + "' has malformed resolution '"@ + r + "'"@,
        }
    }
}

impl BerryError {
    /// The message for the user.
    pub fn message(&self) -> (r: String)
        ensures
            r@ == self.deep_view().message(),
    {
        match self {
            BerryError::Yaml(e) => concat("yaml parse error: ", e.message.as_str()),
            BerryError::RootNotMapping => "yarn berry lockfile root must be a mapping".to_owned(),
            BerryError::OldVersion(n) => concat3(
                "yarn berry lockfile has unexpected __metadata.version: ",
                decimal_text(*n).as_str(),
                " (expected >= 3)",
            ),
            BerryError::NotMapping(h) => concat3(
                "yarn berry block '",
                h.as_str(),
                "' is not a mapping",
            ),
            BerryError::NoVersion(h) => concat3(
                "yarn berry block '",
                h.as_str(),
                "' has no version",
            ),
            BerryError::NoResolution(h) => concat3(
                "yarn berry block '",
                h.as_str(),
                "' has no resolution",
            ),
            BerryError::BadResolution(h, r) => {
                let mut out = concat3(
                    "yarn berry block '",
                    h.as_str(),
                    "' has malformed resolution '",
                );
                out.append(r.as_str());
                out.append("'");
                out
            },
        }
    }
}

/// The specifiers of a block header.
pub fn split_berry_header(header: &str) -> (r: Vec<String>)
    ensures
        r.deep_view() == berry_header(header@),
{
    proof {
        reveal_strlit(", ");
    }
    let sep = chars(", ");
    let parts = pieces_around(&chars(header), &sep);
    let ghost all = split_text(header@, ", "@);
    let mut r: Vec<String> = Vec::new();
    let mut i: usize = 0;
    proof {
        assert(r.deep_view() =~= header_list(all.take(0)));
    }
    while i < parts.len()
        invariant
            all == texts(parts@),
            i <= parts@.len(),
            r.deep_view() == header_list(all.take(i as int)),
        decreases parts.len() - i,
    {
        let piece = trimmed(parts[i].as_slice());
        proof {
            assert(all[i as int] == parts@[i as int]@);
            assert(all.take(i + 1).drop_last() == all.take(i as int));
            assert(all.take(i + 1).last() == all[i as int]);
        }
        if piece.len() > 0 {
            let ghost before = r.deep_view();
            let spec = string(piece);
            r.push(spec);
            proof {
                assert(r.deep_view() =~= before.push(spec@));
            }
        }
        i = i + 1;
    }
    proof {
        assert(all.take(all.len() as int) == all);
    }
    r
}

/// Name, protocol and rest of a specifier `name@protocol:rest`.
pub fn parse_berry_spec(spec: &str) -> (r: Option<(String, String, String)>)
    ensures
        r.deep_view() == berry_spec(spec@),
{
    let s = chars(spec);
    let n: usize = s.len();
    match find_separator(&s) {
        Some(at) => {
            let name = substring(s.as_slice(), 0, at);
            let rest = vstd::slice::slice_subrange(s.as_slice(), at + 1, n);
            proof {
                assert(name@ == spec@.take(at as int));
                assert(rest@ == spec@.skip(at as int + 1));
            }
            match split_at_char(rest, ':') {
                Some((protocol, body)) => Some((name, string(protocol), string(body))),
                None => None,
            }
        },
        None => None,
    }
}

/// Whether a range starts with a protocol such as `npm:` or `git+ssh:`.
pub fn range_has_protocol(range: &str) -> (r: bool)
    ensures
        r == has_protocol(range@),
{
    let s = chars(range);
    match position(&s, ':') {
        None => false,
        Some(colon) => {
            let mut i: usize = 0;
            while i < colon
                invariant
                    s@ == range@,
                    find_char(range@, ':') == Some(colon as int),
                    colon < s@.len(),
                    i <= colon,
                    forall|j: int| 0 <= j < i ==> is_protocol_char(#[trigger] range@[j]),
                decreases colon - i,
            {
                let c = s[i];
                if !(('a' <= c && c <= 'z') || ('A' <= c && c <= 'Z') || c == '+') {
                    proof {
                        assert(!is_protocol_char(range@[i as int]));
                    }
                    return false;
                }
                i = i + 1;
            }
            colon > 0
        },
    }
}

/// The text of a scalar.
pub(crate) fn yaml_scalar_as_string(y: &Yaml) -> (r: Option<String>)
    ensures
        r.deep_view() == scalar_text(tree(*y)),
{
    match y {
        Yaml::String(s) => Some(s.clone()),
        Yaml::Number(n) => Some(display_number(n)),
        Yaml::Bool(b) => if *b {
            Some("true".to_owned())
        } else {
            Some("false".to_owned())
        },
        _ => None,
    }
}

/// A section of a block with names and ranges.
fn collect_dep_map(block: &Vec<(Yaml, Yaml)>, key: &str) -> (r: StrMap<String>)
    ensures
        r@ == dep_section(entry_trees(block@), key@),
{
    let mut r: StrMap<String> = StrMap::new();
    if let Some(section) = get_value(block, key) {
        if let Some(entries) = section.as_mapping() {
            let ghost all = entry_trees(entries@);
            let mut i: usize = 0;
            while i < entries.len()
                invariant
                    all == entry_trees(entries@),
                    i <= entries@.len(),
                    r@ == scalar_map(all, i as int),
                decreases entries.len() - i,
            {
                proof {
                    assert(all[i as int] == (tree(entries@[i as int].0), tree(
                        entries@[i as int].1,
                    )));
                }
                if let Some(name) = entries[i].0.as_str() {
                    if let Some(value) = yaml_scalar_as_string(&entries[i].1) {
                        r.insert(name.clone(), value);
                    }
                }
                i = i + 1;
            }
        }
    }
    r
}

fn read_optional(meta: &Vec<(Yaml, Yaml)>) -> (r: bool)
    ensures
        r == is_optional(entry_trees(meta@)),
{
    match get_value(meta, "optional") {
        Some(o) => match o.as_bool() {
            Some(b) => b,
            None => false,
        },
        None => false,
    }
}

/// The `peerDependenciesMeta:` section of a block.
fn collect_peer_meta(block: &Vec<(Yaml, Yaml)>) -> (r: StrMap<PeerDepMeta>)
    ensures
        r@ == meta_section(entry_trees(block@)),
{
    let mut r: StrMap<PeerDepMeta> = StrMap::new();
    if let Some(section) = get_value(block, "peerDependenciesMeta") {
        if let Some(entries) = section.as_mapping() {
            let ghost all = entry_trees(entries@);
            let mut i: usize = 0;
            while i < entries.len()
                invariant
                    all == entry_trees(entries@),
                    i <= entries@.len(),
                    r@ == meta_map(all, i as int),
                decreases entries.len() - i,
            {
                proof {
                    assert(all[i as int] == (tree(entries@[i as int].0), tree(
                        entries@[i as int].1,
                    )));
                }
                if let Some(name) = entries[i].0.as_str() {
                    if let Some(meta) = entries[i].1.as_mapping() {
                        r.insert(name.clone(), PeerDepMeta { optional: read_optional(meta) });
                    }
                }
                i = i + 1;
            }
        }
    }
    r
}

fn path_extension(path: &str) -> (r: Option<String>)
    ensures
        r.deep_view() == extension(path@),
{
    match path_file_name(path) {
        Some(name) => {
            let s = chars(name.as_str());
            let n: usize = s.len();
            match rposition(&s, '.') {
                Some(i) => if i > 0 {
                    let e = substring(s.as_slice(), i + 1, n);
                    proof {
                        assert(e@ == name@.skip(i as int + 1));
                    }
                    Some(e)
                } else {
                    None
                },
                None => None,
            }
        },
        None => None,
    }
}

/// The source that a `file:` resolution names.
fn file_protocol_source(body: &str) -> (r: LocalSource)
    ensures
        r.deep_view() == file_source(body@),
{
    let path = string(up_to(&chars(body), '#'));
    let tarball = match path_extension(path.as_str()) {
        Some(e) => {
            let low = string(lowered(&chars(e.as_str())).as_slice());
            same(low.as_str(), "tgz") || same(low.as_str(), "gz")
        },
        None => false,
    };
    if tarball {
        LocalSource::Tarball(path)
    } else {
        LocalSource::Directory(path)
    }
}

/// The commit that the fragment of a URL names.
fn extract_commit_hash(url: &[char]) -> (r: String)
    ensures
        r@ == (match split_once(url@, '#') {
            Some((_, fragment)) => match git_fragment(fragment).0 {
                Some(c) => c,
                None => Seq::empty(),
            },
            None => Seq::empty(),
        }),
{
    match split_at_char(url, '#') {
        Some((_, fragment)) => match normalize_git_fragment(string(fragment).as_str()) {
            Some(c) => c,
            None => String::new(),
        },
        None => String::new(),
    }
}

fn pinned_git_source(url: &str) -> (r: LocalSource)
    ensures
        r.deep_view() == git_source(url@),
{
    let s = chars(url);
    LocalSource::Git(
        GitSource {
            url: string(up_to(&s, '#')),
            committish: None,
            resolved: extract_commit_hash(&s),
            subpath: None,
        },
    )
}

/// The source that an `http(s)` resolution names: a git repository if the URL
/// says so, or else a tarball.
fn classify_remote(url: &str) -> (r: LocalSource)
    ensures
        r.deep_view() == remote_source(url@),
{
    let s = chars(url);
    let mark = chars(".git#");
    let hash = extract_commit_hash(&s);
    let pinned = full_sha(&chars(hash.as_str()));
    proof {
        assert(pinned == has_commit_hash(url@));
    }
    if ends_with(&s, ".git") || find_text(&s, &mark).is_some() || pinned {
        pinned_git_source(url)
    } else {
        LocalSource::RemoteTarball(
            RemoteTarballSource { url: string(up_to(&s, '#')), integrity: String::new() },
        )
    }
}

/// What a resolution says about a package.
enum Kind {
    Registry,
    Workspace,
    Skipped,
    Local(LocalSource),
}

spec fn kind_view(k: Kind) -> BerryKind {
    match k {
        Kind::Registry => BerryKind::Registry,
        Kind::Workspace => BerryKind::Workspace,
        Kind::Skipped => BerryKind::Skipped,
        Kind::Local(s) => BerryKind::Local(s.deep_view()),
    }
}

fn read_kind(protocol: &str, body: &str) -> (r: Kind)
    ensures
        kind_view(r) == berry_kind(protocol@, body@),
{
    let url = concat3(protocol, ":", body);
    if same(protocol, "npm") {
        Kind::Registry
    } else if same(protocol, "workspace") {
        Kind::Workspace
    } else if same(protocol, "file") {
        Kind::Local(file_protocol_source(body))
    } else if same(protocol, "link") {
        Kind::Local(LocalSource::Link(string(up_to(&chars(body), '#'))))
    } else if same(protocol, "http") || same(protocol, "https") {
        Kind::Local(classify_remote(url.as_str()))
    } else {
        let p = chars(protocol);
        if same(protocol, "git") || same(protocol, "ssh") || starts_with(&p, "git+") || starts_with(
            &p,
            "ssh+",
        ) {
            Kind::Local(pinned_git_source(url.as_str()))
        } else {
            Kind::Skipped
        }
    }
}

/// Whether no package can be had from a resolution.
pub(crate) fn is_skipped(protocol: &str, body: &str) -> (r: bool)
    ensures
        r == (berry_kind(protocol@, body@) is Skipped),
{
    match read_kind(protocol, body) {
        Kind::Skipped => true,
        _ => false,
    }
}

/// The package of a block, with raw ranges for dependencies.
fn read_raw_package(
    block: &Vec<(Yaml, Yaml)>,
    name: String,
    version: String,
    path: String,
    source: Option<LocalSource>,
) -> (r: LockedPackage)
    ensures
        r.deep_view() == raw_package(
            entry_trees(block@),
            name@,
            version@,
            path@,
            source.deep_view(),
        ),
{
    let deps = collect_dep_map(block, "dependencies");
    let optional = collect_dep_map(block, "optionalDependencies");
    let mut declared = deps.dup();
    declared.extend(&optional);
    let mut pkg = LockedPackage::default();
    pkg.name = name;
    pkg.version = version;
    pkg.yarn_checksum = match get_value(block, "checksum") {
        Some(c) => match c.as_str() {
            Some(s) => Some(s.clone()),
            None => None,
        },
        None => None,
    };
    pkg.dependencies = deps;
    pkg.optional_dependencies = optional;
    pkg.peer_dependencies = collect_dep_map(block, "peerDependencies");
    pkg.peer_dependencies_meta = collect_peer_meta(block);
    pkg.dep_path = path;
    pkg.local_source = source;
    pkg.declared_dependencies = declared;
    pkg
}

/// What a block records.
struct ReadBlock {
    specs: Vec<String>,
    path: String,
    package: Option<LockedPackage>,
}

impl DeepView for ReadBlock {
    type V = BerryBlock;

    closed spec fn deep_view(&self) -> BerryBlock {
        BerryBlock {
            specs: self.specs.deep_view(),
            path: self.path@,
            package: self.package.deep_view(),
        }
    }
}

/// What a block with the given header records; `None` where it is skipped.
fn read_block(header: &str, block: &Vec<(Yaml, Yaml)>) -> (r: Result<Option<ReadBlock>, BerryError>)
    ensures
        match r {
            Ok(b) => berry_block(header@, entry_trees(block@)) == Ok::<
                Option<BerryBlock>,
                BerryErrorView,
            >(b.deep_view()),
            Err(e) => berry_block(header@, entry_trees(block@)) == Err::<
                Option<BerryBlock>,
                BerryErrorView,
            >(e.deep_view()),
        },
{
    let specs = split_berry_header(header);
    proof {
        assert(specs.deep_view().len() == specs@.len());
    }
    if specs.len() == 0 {
        return Ok(None);
    }
    let version = match get_value(block, "version") {
        Some(v) => yaml_scalar_as_string(v),
        None => None,
    };
    let version = match version {
        Some(v) => v,
        None => {
            return Err(BerryError::NoVersion(header.to_owned()));
        },
    };
    let resolution = match get_value(block, "resolution") {
        Some(v) => v.as_str(),
        None => None,
    };
    let resolution = match resolution {
        Some(v) => v,
        None => {
            return Err(BerryError::NoResolution(header.to_owned()));
        },
    };
    match parse_berry_spec(resolution.as_str()) {
        None => Err(BerryError::BadResolution(header.to_owned(), resolution.clone())),
        Some((name, protocol, body)) => {
            match read_kind(protocol.as_str(), body.as_str()) {
                Kind::Skipped => Ok(None),
                Kind::Workspace => {
                    let path = version_to_dep_path(name.as_str(), version.as_str());
                    Ok(Some(ReadBlock { specs, path, package: None }))
                },
                Kind::Registry => {
                    let path = version_to_dep_path(name.as_str(), version.as_str());
                    let pkg = read_raw_package(block, name, version, path.clone(), None);
                    Ok(Some(ReadBlock { specs, path, package: Some(pkg) }))
                },
                Kind::Local(source) => {
                    let path = source.dep_path(name.as_str());
                    let pkg = read_raw_package(block, name, version, path.clone(), Some(source));
                    Ok(Some(ReadBlock { specs, path, package: Some(pkg) }))
                },
            }
        },
    }
}

/// What an entry of the document records; `None` where it is skipped.
fn read_entry(key: &Yaml, value: &Yaml) -> (r: Result<Option<ReadBlock>, BerryError>)
    ensures
        match r {
            Ok(b) => berry_entry((tree(*key), tree(*value))) == Ok::<
                Option<BerryBlock>,
                BerryErrorView,
            >(b.deep_view()),
            Err(e) => berry_entry((tree(*key), tree(*value))) == Err::<
                Option<BerryBlock>,
                BerryErrorView,
            >(e.deep_view()),
        },
{
    match key.as_str() {
        None => Ok(None),
        Some(header) => {
            if starts_with(&chars(header.as_str()), "__") {
                return Ok(None);
            }
            match value.as_mapping() {
                Some(block) => read_block(header.as_str(), block),
                None => Err(BerryError::NotMapping(header.clone())),
            }
        },
    }
}

proof fn lemma_first_wrong_entry(entries: Seq<(YamlView, YamlView)>, m: int, n: int)
    requires
        0 <= m <= n,
        first_wrong_entry(entries, m) is Some,
    ensures
        first_wrong_entry(entries, n) == first_wrong_entry(entries, m),
    decreases n,
{
    if m < n {
        lemma_first_wrong_entry(entries, m, n - 1);
    }
}

/// Read all entries: what specifiers resolve to, and the raw packages.
fn read_entries(entries: &Vec<(Yaml, Yaml)>) -> (r: Result<
    (StrMap<String>, StrMap<LockedPackage>),
    BerryError,
>)
    ensures
        match r {
            Ok((table, packages)) => {
                let n = entries@.len() as int;
                &&& first_wrong_entry(entry_trees(entries@), n) is None
                &&& table@ == berry_table(entry_trees(entries@), n)
                &&& packages@ == raw_packages(entry_trees(entries@), n)
            },
            Err(e) => first_wrong_entry(entry_trees(entries@), entries@.len() as int) == Some(
                e.deep_view(),
            ),
        },
{
    let ghost all = entry_trees(entries@);
    let mut table: StrMap<String> = StrMap::new();
    let mut packages: StrMap<LockedPackage> = StrMap::new();
    let mut i: usize = 0;
    while i < entries.len()
        invariant
            all == entry_trees(entries@),
            i <= entries@.len(),
            first_wrong_entry(all, i as int) is None,
            table@ == berry_table(all, i as int),
            packages@ == raw_packages(all, i as int),
        decreases entries.len() - i,
    {
        proof {
            assert(all[i as int] == (tree(entries@[i as int].0), tree(entries@[i as int].1)));
        }
        match read_entry(&entries[i].0, &entries[i].1) {
            Err(e) => {
                proof {
                    lemma_first_wrong_entry(all, i + 1, entries@.len() as int);
                }
                return Err(e);
            },
            Ok(None) => {},
            Ok(Some(block)) => {
                insert_specs(&mut table, &block.specs, block.path.as_str());
                if let Some(pkg) = block.package {
                    if !packages.contains_key(block.path.as_str()) {
                        packages.insert(block.path, pkg);
                    }
                }
            },
        }
        i = i + 1;
    }
    Ok((table, packages))
}

/// All packages, resolved.
fn resolve_packages(packages: &StrMap<LockedPackage>, table: &StrMap<String>) -> (r: StrMap<
    LockedPackage,
>)
    ensures
        r@ == resolved_packages(packages@, table@),
{
    let mut r: StrMap<LockedPackage> = StrMap::new();
    let n: usize = packages.len();
    let mut i: usize = 0;
    let ghost keys = sorted_keys(packages@.dom());
    let ghost all = resolved_packages(packages@, table@);
    proof {
        assert(r@ =~= all.restrict(crate::strmap::prefix_set(keys, 0)));
    }
    while i < n
        invariant
            keys == sorted_keys(packages@.dom()),
            n == keys.len(),
            all == resolved_packages(packages@, table@),
            i <= n,
            r@ == all.restrict(crate::strmap::prefix_set(keys, i as int)),
        decreases n - i,
    {
        let path = packages.key_at(i);
        let mut pkg = packages.value_at(i).dup();
        pkg.dependencies = resolve_deps(&pkg.dependencies, table);
        pkg.optional_dependencies = resolve_deps(&pkg.optional_dependencies, table);
        proof {
            assert(all.restrict(crate::strmap::prefix_set(keys, i as int + 1)) =~= all.restrict(
                crate::strmap::prefix_set(keys, i as int),
            ).insert(path@, pkg.deep_view()));
        }
        r.insert(path.clone(), pkg);
        i = i + 1;
    }
    proof {
        assert(all.restrict(crate::strmap::prefix_set(keys, n as int)) =~= all);
    }
    r
}

/// The specifiers to look a direct dependency up by, in order.
pub fn berry_spec_candidates(name: &str, range: &str) -> (r: Vec<String>)
    ensures
        r.deep_view() == (if has_protocol(range@) {
            seq![dep_path(name@, range@)]
        } else {
            seq![dep_path(name@, range@), name@ + "@npm:"@ + range@]
        }),
{
    let mut r: Vec<String> = Vec::new();
    r.push(version_to_dep_path(name, range));
    if !range_has_protocol(range) {
        r.push(concat3(name, "@npm:", range));
    }
    proof {
        assert(r.deep_view() =~= (if has_protocol(range@) {
            seq![dep_path(name@, range@)]
        } else {
            seq![dep_path(name@, range@), name@ + "@npm:"@ + range@]
        }));
    }
    r
}

fn find_direct<'a>(name: &str, range: &str, table: &'a StrMap<String>) -> (r: Option<&'a String>)
    ensures
        (match r {
            Some(s) => Some(s@),
            None => None,
        }) == direct_path(name@, range@, table@),
{
    let candidates = berry_spec_candidates(name, range);
    proof {
        assert(candidates.deep_view().len() == candidates@.len());
        assert(candidates.deep_view()[0] == candidates@[0]@);
        if candidates.deep_view().len() == 2 {
            assert(candidates.deep_view()[1] == candidates@[1]@);
        }
    }
    match table.get(candidates[0].as_str()) {
        Some(path) => Some(path),
        None => if candidates.len() > 1 {
            table.get(candidates[1].as_str())
        } else {
            None
        },
    }
}

/// The direct dependencies of a manifest section.
fn read_berry_deps(
    ranges: &StrMap<String>,
    table: &StrMap<String>,
    dep_type: DepType,
    direct: &mut Vec<DirectDep>,
)
    ensures
        final(direct).deep_view() == old(direct).deep_view() + berry_deps(
            sorted_keys(ranges@.dom()),
            ranges@,
            table@,
            dep_type,
        ),
{
    let ghost direct0 = direct.deep_view();
    let ghost keys = sorted_keys(ranges@.dom());
    let n: usize = ranges.len();
    let mut i: usize = 0;
    proof {
        assert(direct0 + berry_deps(keys.take(0), ranges@, table@, dep_type) == direct0);
    }
    while i < n
        invariant
            keys == sorted_keys(ranges@.dom()),
            n == keys.len(),
            i <= n,
            direct.deep_view() == direct0 + berry_deps(
                keys.take(i as int),
                ranges@,
                table@,
                dep_type,
            ),
        decreases n - i,
    {
        let name = ranges.key_at(i);
        let range = ranges.value_at(i);
        proof {
            assert(keys.take(i + 1).drop_last() == keys.take(i as int));
            assert(keys.take(i + 1).last() == name@);
        }
        if let Some(path) = find_direct(name.as_str(), range.as_str(), table) {
            let dep = DirectDep {
                name: name.clone(),
                dep_path: path.clone(),
                dep_type,
                specifier: None,
            };
            let ghost before = direct.deep_view();
            direct.push(dep);
            proof {
                assert(direct.deep_view() =~= before.push(dep.deep_view()));
                assert(direct.deep_view() =~= direct0 + berry_deps(
                    keys.take(i + 1),
                    ranges@,
                    table@,
                    dep_type,
                ));
            }
        }
        i = i + 1;
    }
    proof {
        assert(keys.take(n as int) == keys);
    }
}

fn read_metadata_version(entries: &Vec<(Yaml, Yaml)>) -> (r: u64)
    ensures
        r == metadata_version(entry_trees(entries@)),
{
    let meta = match get_value(entries, "__metadata") {
        Some(m) => m.as_mapping(),
        None => None,
    };
    let version = match meta {
        Some(m) => get_value(m, "version"),
        None => None,
    };
    match version {
        Some(v) => match v.as_u64() {
            Some(n) => n,
            None => 0,
        },
        None => 0,
    }
}

/// Read a parsed berry lockfile into a graph.
pub fn parse_berry_tree(doc: &Yaml, manifest: &PackageJson) -> (r: Result<
    LockfileGraph,
    BerryError,
>)
    ensures
        match r {
            Ok(g) => tree_graph(tree(*doc), manifest.ranges()) == Ok::<
                LockfileGraphView,
                BerryErrorView,
            >(g.deep_view()),
            Err(e) => tree_graph(tree(*doc), manifest.ranges()) == Err::<
                LockfileGraphView,
                BerryErrorView,
            >(e.deep_view()),
        },
{
    let entries = match doc.as_mapping() {
        Some(e) => e,
        None => {
            return Err(BerryError::RootNotMapping);
        },
    };
    let version: u64 = read_metadata_version(entries);
    if version < 3 {
        return Err(BerryError::OldVersion(version));
    }
    let (table, raw) = match read_entries(entries) {
        Ok(r) => r,
        Err(e) => {
            return Err(e);
        },
    };
    let packages = resolve_packages(&raw, &table);
    let mut direct: Vec<DirectDep> = Vec::new();
    read_berry_deps(&manifest.dependencies, &table, DepType::Production, &mut direct);
    read_berry_deps(&manifest.dev_dependencies, &table, DepType::Dev, &mut direct);
    read_berry_deps(&manifest.optional_dependencies, &table, DepType::Optional, &mut direct);
    proof {
        assert(direct.deep_view() =~= berry_root_deps(manifest.ranges(), table@));
    }
    let mut importers: StrMap<Vec<DirectDep>> = StrMap::new();
    importers.insert(".".to_owned(), direct);
    let mut g = LockfileGraph::default();
    g.importers = importers;
    g.packages = packages;
    Ok(g)
}

/// Read a berry lockfile into a graph.
pub fn parse_berry_str(content: &str, manifest: &PackageJson) -> (r: Result<
    LockfileGraph,
    BerryError,
>)
    ensures
        match r {
            Ok(g) => berry_graph(content@, manifest.ranges()) == Ok::<
                LockfileGraphView,
                BerryErrorView,
            >(g.deep_view()),
            Err(e) => berry_graph(content@, manifest.ranges()) == Err::<
                LockfileGraphView,
                BerryErrorView,
            >(e.deep_view()),
        },
{
    match parse_document(content) {
        Ok(doc) => parse_berry_tree(&doc, manifest),
        Err(e) => Err(BerryError::Yaml(e)),
    }
}

} // verus!
