//! The classic `yarn.lock` format, a line-based text of blocks.
//!
//! A block has a header with one or more specifiers, fields with two spaces of
//! indentation, and a `dependencies:` section with four.
use vstd::prelude::*;
use crate::graph::{
    default_graph, default_package, DepType, DirectDep, DirectDepView, LockedPackage,
    LockedPackageView, LockfileGraph, LockfileGraphView,
};
use crate::manifest::{PackageJson, Ranges};
use crate::pnpm::dep_path::{dep_path, find_separator, version_separator, version_to_dep_path};
use crate::source::first_some;
use crate::strmap::{lookup, prefix_set, sorted_keys, Dup, StrMap};
use crate::text::{
    after_prefix, chars, concat3, debug_list, debug_list_text, decimal, decimal_text,
    find_white_from, indent, indent_of, lines, pieces, same, split, string, strip_prefix, substring,
    text_lines, texts, trim, trim_end, trim_end_char, trim_start, trimmed, trimmed_end,
    trimmed_start, unquote, unquoted, white_position, without_trailing,
};

verus! {

/// One block of the lockfile.
#[derive(Debug, PartialEq)]
pub struct Block {
    /// The specifiers that resolve to the package, each `name@range`.
    pub specs: Vec<String>,
    /// `version`, `resolved`, `integrity` and other fields.
    pub fields: StrMap<String>,
    /// Name and range of each dependency.
    pub dependencies: StrMap<String>,
}

/// Model of [`Block`].
pub struct BlockView {
    pub specs: Seq<Seq<char>>,
    pub fields: Map<Seq<char>, Seq<char>>,
    pub dependencies: Map<Seq<char>, Seq<char>>,
}

impl DeepView for Block {
    type V = BlockView;

    open spec fn deep_view(&self) -> BlockView {
        BlockView {
            specs: self.specs.deep_view(),
            fields: self.fields@,
            dependencies: self.dependencies@,
        }
    }
}

/// What is wrong with a line.
#[derive(Debug, PartialEq)]
pub enum LineError {
    /// A line without indentation that is no block header.
    NotAHeader(String),
    /// A header with an empty specifier.
    EmptySpec(String),
    /// An indented line before the first header.
    NoBlock,
    /// A field without value.
    BadField(String),
    /// A dependency without range.
    BadDependency(String),
}

/// Model of [`LineError`].
pub enum LineErrorView {
    NotAHeader(Seq<char>),
    EmptySpec(Seq<char>),
    NoBlock,
    BadField(Seq<char>),
    BadDependency(Seq<char>),
}

impl DeepView for LineError {
    type V = LineErrorView;

    open spec fn deep_view(&self) -> LineErrorView {
        match self {
            LineError::NotAHeader(line) => LineErrorView::NotAHeader(line@),
            LineError::EmptySpec(header) => LineErrorView::EmptySpec(header@),
            LineError::NoBlock => LineErrorView::NoBlock,
            LineError::BadField(body) => LineErrorView::BadField(body@),
            LineError::BadDependency(body) => LineErrorView::BadDependency(body@),
        }
    }
}

impl LineErrorView {
    /// The message for the user.
    pub open spec fn message(self) -> Seq<char> {
        match self {
            LineErrorView::NotAHeader(line) => "expected block header ending in ':', got '"@ + line
                + "'"@,
            LineErrorView::EmptySpec(header) => "empty spec in header '"@ + header + "'"@,
            LineErrorView::NoBlock => "unexpected indented content before any block header"@,
            LineErrorView::BadField(body) => "could not parse '"@ + body + "'"@,
            LineErrorView::BadDependency(body) => "could not parse dep '"@ + body + "'"@,
        }
    }
}

impl LineError {
    /// The message for the user.
    pub fn message(&self) -> (r: String)
        ensures
            r@ == self.deep_view().message(),
    {
        match self {
            LineError::NotAHeader(line) => concat3(
                "expected block header ending in ':', got '",
                line.as_str(),
                "'",
            ),
            LineError::EmptySpec(header) => concat3("empty spec in header '", header.as_str(), "'"),
            LineError::NoBlock => {
                "unexpected indented content before any block header".to_owned()
            },
            LineError::BadField(body) => concat3("could not parse '", body.as_str(), "'"),
            LineError::BadDependency(body) => concat3("could not parse dep '", body.as_str(), "'"),
        }
    }
}

/// One specifier of a header.
pub open spec fn header_spec(piece: Seq<char>) -> Seq<char> {
    unquoted(trim(piece))
}

/// The specifiers of a header; `None` where one is empty.
pub open spec fn header_specs(header: Seq<char>) -> Option<Seq<Seq<char>>> {
    let specs = split(header, ',').map_values(|p: Seq<char>| header_spec(p));
    if forall|i: int| 0 <= i < specs.len() ==> (#[trigger] specs[i]).len() > 0 {
        Some(specs)
    } else {
        None
    }
}

/// Key and value of a field: the value stands behind the first white space and
/// may be quoted.
pub open spec fn key_value(body: Seq<char>) -> Option<(Seq<char>, Seq<char>)> {
    match find_white_from(body, 0) {
        Some(i) => Some((body.take(i), unquoted(trim(body.skip(i + 1))))),
        None => None,
    }
}

/// What has been read of a lockfile.
pub struct Progress {
    pub blocks: Seq<BlockView>,
    /// The block whose header was read last.
    pub current: Option<BlockView>,
    /// Whether the last section header was `dependencies:`.
    pub in_deps: bool,
}

/// The state before the first line.
pub open spec fn nothing_read() -> Progress {
    Progress { blocks: Seq::empty(), current: None, in_deps: false }
}

/// The blocks that have been read, the last one included.
pub open spec fn all_blocks(p: Progress) -> Seq<BlockView> {
    match p.current {
        Some(b) => p.blocks.push(b),
        None => p.blocks,
    }
}

/// A blank line or a comment.
pub open spec fn is_ignored(line: Seq<char>) -> bool {
    trim_start(line).len() == 0 || trim_start(line)[0] == '#'
}

/// Read a line without indentation: the header of the next block.
pub open spec fn read_header(p: Progress, line: Seq<char>) -> Result<Progress, LineErrorView> {
    let header = trim(trim_end_char(line, ':'));
    if line.last() != ':' {
        Err(LineErrorView::NotAHeader(line))
    } else {
        match header_specs(header) {
            Some(specs) => Ok(
                Progress {
                    blocks: all_blocks(p),
                    current: Some(
                        BlockView { specs, fields: Map::empty(), dependencies: Map::empty() },
                    ),
                    in_deps: false,
                },
            ),
            None => Err(LineErrorView::EmptySpec(header)),
        }
    }
}

/// Read a line of a block.
pub open spec fn read_body(
    p: Progress,
    block: BlockView,
    line: Seq<char>,
) -> Result<Progress, LineErrorView> {
    let body = trim_start(line);
    if indent(line) == 2 {
        if body.last() == ':' {
            Ok(
                Progress {
                    in_deps: trim(trim_end_char(body, ':')) == "dependencies"@,
                    ..p
                },
            )
        } else {
            match key_value(body) {
                Some((key, value)) => Ok(
                    Progress {
                        current: Some(
                            BlockView { fields: block.fields.insert(key, value), ..block },
                        ),
                        in_deps: false,
                        ..p
                    },
                ),
                None => Err(LineErrorView::BadField(body)),
            }
        }
    } else if indent(line) >= 4 && p.in_deps {
        match key_value(body) {
            Some((name, range)) => Ok(
                Progress {
                    current: Some(
                        BlockView {
                            dependencies: block.dependencies.insert(name, range),
                            ..block
                        },
                    ),
                    ..p
                },
            ),
            None => Err(LineErrorView::BadDependency(body)),
        }
    } else {
        Ok(p)
    }
}

/// Read one line.
pub open spec fn read_line(p: Progress, raw: Seq<char>) -> Result<Progress, LineErrorView> {
    let line = trim_end(raw);
    if is_ignored(line) {
        Ok(p)
    } else if indent(line) == 0 {
        read_header(p, line)
    } else {
        match p.current {
            Some(block) => read_body(p, block, line),
            None => Err(LineErrorView::NoBlock),
        }
    }
}

/// A wrong line, with its number from one on.
pub struct TokenErrorView {
    pub line: nat,
    pub error: LineErrorView,
}

/// The state after the first `n` lines.
pub open spec fn read_lines(all: Seq<Seq<char>>, n: int) -> Result<Progress, TokenErrorView>
    decreases n,
{
    if n <= 0 {
        Ok(nothing_read())
    } else {
        match read_lines(all, n - 1) {
            Err(e) => Err(e),
            Ok(p) => match read_line(p, all[n - 1]) {
                Ok(q) => Ok(q),
                Err(error) => Err(TokenErrorView { line: n as nat, error }),
            },
        }
    }
}

/// The blocks of a lockfile, or its first wrong line.
pub open spec fn blocks_of(content: Seq<char>) -> Result<Seq<BlockView>, TokenErrorView> {
    match read_lines(lines(content), lines(content).len() as int) {
        Ok(p) => Ok(all_blocks(p)),
        Err(e) => Err(e),
    }
}

/// A wrong line.
#[derive(Debug, PartialEq)]
pub struct TokenError {
    /// Its number, from one on.
    pub line: usize,
    pub error: LineError,
}

impl DeepView for TokenError {
    type V = TokenErrorView;

    open spec fn deep_view(&self) -> TokenErrorView {
        TokenErrorView { line: self.line as nat, error: self.error.deep_view() }
    }
}

impl TokenErrorView {
    /// The message for the user.
    pub open spec fn message(self) -> Seq<char> {
        "line "@ + decimal(self.line) + ": "@ + self.error.message()
    }
}

impl TokenError {
    /// The message for the user.
    pub fn message(&self) -> (r: String)
        ensures
            r@ == self.deep_view().message(),
    {
        let mut r = concat3("line ", decimal_text(self.line as u64).as_str(), ": ");
        r.append(self.error.message().as_str());
        r
    }
}

/// The specifiers of a header such as `"foo@^1.0.0", "foo@^1.1.0"`.
pub fn parse_header_specs(header: &[char]) -> (r: Option<Vec<String>>)
    ensures
        r.deep_view() == header_specs(header@),
{
    let parts = pieces(header, ',');
    let ghost all = split(header@, ',').map_values(|p: Seq<char>| header_spec(p));
    let mut r: Vec<String> = Vec::new();
    let mut i: usize = 0;
    proof {
        assert(r.deep_view() =~= all.take(0));
    }
    while i < parts.len()
        invariant
            texts(parts@) == split(header@, ','),
            all == split(header@, ',').map_values(|p: Seq<char>| header_spec(p)),
            i <= parts@.len(),
            r.deep_view() == all.take(i as int),
            forall|j: int| 0 <= j < i ==> (#[trigger] all[j]).len() > 0,
        decreases parts.len() - i,
    {
        let spec = unquote(trimmed(parts[i].as_slice()));
        proof {
            assert(split(header@, ',')[i as int] == parts@[i as int]@);
            assert(all[i as int] == spec@);
        }
        if spec.len() == 0 {
            return None;
        }
        let ghost before = r.deep_view();
        let text = string(spec);
        r.push(text);
        proof {
            assert(r.deep_view() =~= before.push(text@));
            assert(all.take(i + 1) =~= all.take(i as int).push(spec@));
        }
        i = i + 1;
    }
    proof {
        assert(all.take(all.len() as int) =~= all);
    }
    Some(r)
}

/// Key and value of a line such as `version "1.2.3"`.
pub fn split_key_value(body: &[char]) -> (r: Option<(String, String)>)
    ensures
        r.deep_view() == key_value(body@),
{
    let n: usize = body.len();
    match white_position(body) {
        Some(i) => {
            let key = substring(body, 0, i);
            let rest = vstd::slice::slice_subrange(body, i + 1, n);
            proof {
                assert(key@ == body@.take(i as int));
                assert(rest@ == body@.skip(i as int + 1));
            }
            Some((key, string(unquote(trimmed(rest)))))
        },
        None => None,
    }
}

/// The model of the reader's variables.
spec fn progress(blocks: Seq<Block>, current: Option<Block>, in_deps: bool) -> Progress {
    Progress {
        blocks: blocks.map_values(|b: Block| b.deep_view()),
        current: current.deep_view(),
        in_deps,
    }
}

/// Read one line.
fn tokenize_line(
    raw: &[char],
    blocks: &mut Vec<Block>,
    current: Option<Block>,
    in_deps: bool,
) -> (r: Result<(Option<Block>, bool), LineError>)
    ensures
        match r {
            Ok((c, d)) => read_line(progress(old(blocks)@, current, in_deps), raw@) == Ok::<
                Progress,
                LineErrorView,
            >(progress(final(blocks)@, c, d)),
            Err(e) => read_line(progress(old(blocks)@, current, in_deps), raw@) == Err::<
                Progress,
                LineErrorView,
            >(e.deep_view()),
        },
{
    let ghost p = progress(blocks@, current, in_deps);
    let line = trimmed_end(raw);
    let body = trimmed_start(line);
    if body.len() == 0 || body[0] == '#' {
        return Ok((current, in_deps));
    }
    proof {
        crate::text::lemma_trim_start_len(line@);
    }
    let n: usize = line.len();
    let m: usize = body.len();
    let margin: u128 = indent_of(line);
    if margin == 0 {
        let header = trimmed(without_trailing(line, ':'));
        if line[n - 1] != ':' {
            return Err(LineError::NotAHeader(string(line)));
        }
        match parse_header_specs(header) {
            None => Err(LineError::EmptySpec(string(header))),
            Some(specs) => {
                let ghost before = blocks@;
                if let Some(b) = current {
                    blocks.push(b);
                    proof {
                        assert(blocks@.map_values(|b: Block| b.deep_view()) =~= before.map_values(
                            |b: Block| b.deep_view(),
                        ).push(b.deep_view()));
                    }
                }
                let block = Block { specs, fields: StrMap::new(), dependencies: StrMap::new() };
                Ok((Some(block), false))
            },
        }
    } else {
        match current {
            None => Err(LineError::NoBlock),
            Some(mut block) => {
                if margin == 2 {
                    if body[m - 1] == ':' {
                        let section = string(trimmed(without_trailing(body, ':')));
                        return Ok(
                            (Some(block), same(section.as_str(), "dependencies")),
                        );
                    }
                    match split_key_value(body) {
                        None => Err(LineError::BadField(string(body))),
                        Some((key, value)) => {
                            block.fields.insert(key, value);
                            Ok((Some(block), false))
                        },
                    }
                } else if margin >= 4 && in_deps {
                    match split_key_value(body) {
                        None => Err(LineError::BadDependency(string(body))),
                        Some((name, range)) => {
                            block.dependencies.insert(name, range);
                            Ok((Some(block), in_deps))
                        },
                    }
                } else {
                    Ok((Some(block), in_deps))
                }
            },
        }
    }
}

proof fn lemma_read_lines_err(all: Seq<Seq<char>>, m: int, n: int)
    requires
        0 <= m <= n,
        read_lines(all, m) is Err,
    ensures
        read_lines(all, n) == read_lines(all, m),
    decreases n,
{
    if m < n {
        lemma_read_lines_err(all, m, n - 1);
    }
}

/// Split the text of a lockfile into blocks.
pub fn tokenize_blocks(content: &str) -> (r: Result<Vec<Block>, TokenError>)
    ensures
        match r {
            Ok(v) => blocks_of(content@) == Ok::<Seq<BlockView>, TokenErrorView>(v.deep_view()),
            Err(e) => blocks_of(content@) == Err::<Seq<BlockView>, TokenErrorView>(e.deep_view()),
        },
{
    let all = text_lines(&chars(content));
    let ghost view = lines(content@);
    let mut blocks: Vec<Block> = Vec::new();
    let mut current: Option<Block> = None;
    let mut in_deps: bool = false;
    let mut i: usize = 0;
    proof {
        assert(progress(blocks@, current, in_deps).blocks =~= Seq::empty());
    }
    while i < all.len()
        invariant
            view == texts(all@),
            view == lines(content@),
            i <= all@.len(),
            read_lines(view, i as int) == Ok::<Progress, TokenErrorView>(
                progress(blocks@, current, in_deps),
            ),
        decreases all.len() - i,
    {
        proof {
            assert(view[i as int] == all@[i as int]@);
        }
        match tokenize_line(all[i].as_slice(), &mut blocks, current, in_deps) {
            Ok((c, d)) => {
                current = c;
                in_deps = d;
            },
            Err(error) => {
                proof {
                    lemma_read_lines_err(view, i + 1, view.len() as int);
                }
                return Err(TokenError { line: i + 1, error });
            },
        }
        i = i + 1;
    }
    let ghost p = progress(blocks@, current, in_deps);
    if let Some(b) = current {
        let ghost before = blocks@;
        blocks.push(b);
        proof {
            assert(blocks.deep_view() =~= before.map_values(|b: Block| b.deep_view()).push(
                b.deep_view(),
            ));
        }
    } else {
        proof {
            assert(blocks.deep_view() =~= blocks@.map_values(|b: Block| b.deep_view()));
        }
    }
    Ok(blocks)
}

/// The package name of a specifier such as `@scope/pkg@^1.0.0`.
pub open spec fn spec_name(spec: Seq<char>) -> Option<Seq<char>> {
    match version_separator(spec) {
        Some(at) => Some(spec.take(at)),
        None => None,
    }
}

/// The package that a specifier `alias@npm:name@range` stands for.
pub open spec fn npm_alias(spec: Seq<char>) -> Option<Seq<char>> {
    match version_separator(spec) {
        Some(at) => match strip_prefix(spec.skip(at + 1), "npm:"@) {
            Some(rest) => spec_name(rest),
            None => None,
        },
        None => None,
    }
}

fn name_of(spec: &[char]) -> (r: Option<String>)
    ensures
        r.deep_view() == spec_name(spec@),
{
    match find_separator(spec) {
        Some(at) => {
            let name = substring(spec, 0, at);
            proof {
                assert(name@ == spec@.take(at as int));
            }
            Some(name)
        },
        None => None,
    }
}

/// The package name of a specifier such as `@scope/pkg@^1.0.0`.
pub fn parse_spec_name(spec: &str) -> (r: Option<String>)
    ensures
        r.deep_view() == spec_name(spec@),
{
    name_of(&chars(spec))
}

/// The package that a specifier `alias@npm:name@range` stands for; `None` for
/// any other specifier.
pub fn parse_npm_alias_real_name(spec: &str) -> (r: Option<String>)
    ensures
        r.deep_view() == npm_alias(spec@),
{
    let text = chars(spec);
    let n: usize = text.len();
    match find_separator(&text) {
        Some(at) => {
            let rest = vstd::slice::slice_subrange(text.as_slice(), at + 1, n);
            proof {
                assert(rest@ == spec@.skip(at as int + 1));
            }
            match after_prefix(rest, "npm:") {
                Some(target) => name_of(target),
                None => None,
            }
        },
        None => None,
    }
}

/// Why a lockfile cannot be read.
#[derive(Debug, PartialEq)]
pub enum ClassicError {
    Line(TokenError),
    /// A block without `version`; its specifiers.
    NoVersion(Vec<String>),
    /// A specifier without package name.
    BadSpec(String),
}

/// Model of [`ClassicError`].
pub enum ClassicErrorView {
    Line(TokenErrorView),
    NoVersion(Seq<Seq<char>>),
    BadSpec(Seq<char>),
}

impl DeepView for ClassicError {
    type V = ClassicErrorView;

    open spec fn deep_view(&self) -> ClassicErrorView {
        match self {
            ClassicError::Line(e) => ClassicErrorView::Line(e.deep_view()),
            ClassicError::NoVersion(specs) => ClassicErrorView::NoVersion(specs.deep_view()),
            ClassicError::BadSpec(spec) => ClassicErrorView::BadSpec(spec@),
        }
    }
}

impl ClassicErrorView {
    /// The message for the user.
    pub open spec fn message(self) -> Seq<char> {
        match self {
            ClassicErrorView::Line(e) => e.message(),
            ClassicErrorView::NoVersion(specs) => "yarn.lock block "@ + debug_list(specs)
                + " has no version"@,
            ClassicErrorView::BadSpec(spec) => "could not parse package name from yarn.lock spec '"@
                + spec + "'"@,
        }
    }
}

impl ClassicError {
    /// The message for the user.
    pub fn message(&self) -> (r: String)
        ensures
            r@ == self.deep_view().message(),
    {
        match self {
            ClassicError::Line(e) => e.message(),
            ClassicError::NoVersion(specs) => concat3(
                "yarn.lock block ",
                debug_list_text(specs).as_str(),
                " has no version",
            ),
            ClassicError::BadSpec(spec) => concat3(
                "could not parse package name from yarn.lock spec '",
                spec.as_str(),
                "'",
            ),
        }
    }
}

/// The dep path of the package of a block.
pub open spec fn block_path(block: BlockView) -> Result<Seq<char>, ClassicErrorView> {
    match (lookup(block.fields, "version"@), spec_name(block.specs[0])) {
        (None, _) => Err(ClassicErrorView::NoVersion(block.specs)),
        (Some(_), None) => Err(ClassicErrorView::BadSpec(block.specs[0])),
        (Some(version), Some(name)) => Ok(dep_path(name, version)),
    }
}

/// What the first wrong block among the first `n` has wrong.
pub open spec fn first_wrong(blocks: Seq<BlockView>, n: int) -> Option<ClassicErrorView>
    decreases n,
{
    if n <= 0 {
        None
    } else {
        match (first_wrong(blocks, n - 1), block_path(blocks[n - 1])) {
            (Some(e), _) => Some(e),
            (None, Err(e)) => Some(e),
            (None, Ok(_)) => None,
        }
    }
}

/// Each text of a list with one value.
pub open spec fn all_to(keys: Seq<Seq<char>>, value: Seq<char>) -> Map<Seq<char>, Seq<char>> {
    Map::new(|k: Seq<char>| keys.contains(k), |k: Seq<char>| value)
}

/// The dep path that each specifier of the first `n` blocks resolves to; of two
/// blocks with one specifier the last counts.
pub open spec fn spec_table(blocks: Seq<BlockView>, n: int) -> Map<Seq<char>, Seq<char>>
    decreases n,
{
    if n <= 0 {
        Map::empty()
    } else {
        spec_table(blocks, n - 1).union_prefer_right(
            all_to(blocks[n - 1].specs, block_path(blocks[n - 1])->Ok_0),
        )
    }
}

/// The alias that a block stands for: the package that the first aliased
/// specifier names, unless that is the block's own name.
pub open spec fn block_alias(block: BlockView) -> Option<Seq<char>> {
    match first_some(block.specs, |s: Seq<char>| npm_alias(s)) {
        Some(target) => if Some(target) != spec_name(block.specs[0]) {
            Some(target)
        } else {
            None
        },
        None => None,
    }
}

/// The dependencies of a block that some specifier resolves.
pub open spec fn resolved_by(
    deps: Map<Seq<char>, Seq<char>>,
    table: Map<Seq<char>, Seq<char>>,
) -> Map<Seq<char>, Seq<char>> {
    Map::new(
        |n: Seq<char>| deps.dom().contains(n) && table.dom().contains(dep_path(n, deps[n])),
        |n: Seq<char>| table[dep_path(n, deps[n])],
    )
}

/// The package of a block, with a table of what specifiers resolve to.
pub open spec fn block_package(
    block: BlockView,
    table: Map<Seq<char>, Seq<char>>,
) -> LockedPackageView {
    LockedPackageView {
        name: spec_name(block.specs[0])->0,
        version: block.fields["version"@],
        integrity: lookup(block.fields, "integrity"@),
        dependencies: resolved_by(block.dependencies, table),
        dep_path: block_path(block)->Ok_0,
        declared_dependencies: block.dependencies,
        alias_of: block_alias(block),
        ..default_package()
    }
}

/// The packages of the first `n` blocks; of two with one dep path the first
/// counts.
pub open spec fn block_packages(
    blocks: Seq<BlockView>,
    n: int,
    table: Map<Seq<char>, Seq<char>>,
) -> Map<Seq<char>, LockedPackageView>
    decreases n,
{
    if n <= 0 {
        Map::empty()
    } else {
        let before = block_packages(blocks, n - 1, table);
        let path = block_path(blocks[n - 1])->Ok_0;
        if before.dom().contains(path) {
            before
        } else {
            before.insert(path, block_package(blocks[n - 1], table))
        }
    }
}

/// The direct dependencies among the first `n` names of a manifest section:
/// those whose specifier is in the lockfile.
pub open spec fn manifest_deps(
    names: Seq<Seq<char>>,
    ranges: Map<Seq<char>, Seq<char>>,
    table: Map<Seq<char>, Seq<char>>,
    dep_type: DepType,
) -> Seq<DirectDepView>
    decreases names.len(),
{
    if names.len() == 0 {
        Seq::empty()
    } else {
        let before = manifest_deps(names.drop_last(), ranges, table, dep_type);
        let name = names.last();
        match lookup(table, dep_path(name, ranges[name])) {
            Some(path) => before.push(
                DirectDepView { name, dep_path: path, dep_type, specifier: None },
            ),
            None => before,
        }
    }
}

/// The direct dependencies of a manifest.
pub open spec fn root_deps(ranges: Ranges, table: Map<Seq<char>, Seq<char>>) -> Seq<
    DirectDepView,
> {
    manifest_deps(
        sorted_keys(ranges.dependencies.dom()),
        ranges.dependencies,
        table,
        DepType::Production,
    ) + manifest_deps(
        sorted_keys(ranges.dev_dependencies.dom()),
        ranges.dev_dependencies,
        table,
        DepType::Dev,
    ) + manifest_deps(
        sorted_keys(ranges.optional_dependencies.dom()),
        ranges.optional_dependencies,
        table,
        DepType::Optional,
    )
}

/// The graph that a list of blocks records.
pub open spec fn blocks_graph(blocks: Seq<BlockView>, ranges: Ranges) -> Result<
    LockfileGraphView,
    ClassicErrorView,
> {
    let n = blocks.len() as int;
    let table = spec_table(blocks, n);
    match first_wrong(blocks, n) {
        Some(e) => Err(e),
        None => Ok(
            LockfileGraphView {
                importers: Map::empty().insert("."@, root_deps(ranges, table)),
                packages: block_packages(blocks, n, table),
                ..default_graph()
            },
        ),
    }
}

/// The graph that a classic lockfile records, or the reason why it cannot be
/// read. The manifest tells which packages are direct dependencies.
pub open spec fn classic_graph(content: Seq<char>, ranges: Ranges) -> Result<
    LockfileGraphView,
    ClassicErrorView,
> {
    match blocks_of(content) {
        Ok(blocks) => blocks_graph(blocks, ranges),
        Err(e) => Err(ClassicErrorView::Line(e)),
    }
}

fn read_alias(specs: &Vec<String>, name: &str) -> (r: Option<String>)
    ensures
        r.deep_view() == (match first_some(specs.deep_view(), |s: Seq<char>| npm_alias(s)) {
            Some(target) => if target != name@ {
                Some(target)
            } else {
                None
            },
            None => None,
        }),
{
    let ghost all = specs.deep_view();
    let mut found: Option<String> = None;
    let mut i: usize = 0;
    while i < specs.len()
        invariant
            all == specs.deep_view(),
            i <= specs@.len(),
            found.deep_view() == first_some(all.take(i as int), |s: Seq<char>| npm_alias(s)),
        decreases specs.len() - i,
    {
        proof {
            assert(all.take(i + 1).drop_last() == all.take(i as int));
            assert(all.take(i + 1).last() == specs@[i as int]@);
        }
        if found.is_none() {
            found = parse_npm_alias_real_name(specs[i].as_str());
        }
        i = i + 1;
    }
    proof {
        assert(all.take(all.len() as int) == all);
    }
    match found {
        Some(target) => if same(target.as_str(), name) {
            None
        } else {
            Some(target)
        },
        None => None,
    }
}

/// Map each specifier of a block to a dep path.
pub(crate) fn insert_specs(table: &mut StrMap<String>, specs: &Vec<String>, path: &str)
    ensures
        final(table)@ == old(table)@.union_prefer_right(all_to(specs.deep_view(), path@)),
{
    let ghost table0 = table@;
    let ghost all = specs.deep_view();
    let mut i: usize = 0;
    proof {
        assert(table0.union_prefer_right(all_to(all.take(0), path@)) =~= table0);
    }
    while i < specs.len()
        invariant
            all == specs.deep_view(),
            i <= specs@.len(),
            table@ == table0.union_prefer_right(all_to(all.take(i as int), path@)),
        decreases specs.len() - i,
    {
        table.insert(specs[i].clone(), path.to_owned());
        proof {
            let k = all[i as int];
            let a = all.take(i as int);
            let b = all.take(i + 1);
            assert forall|x: Seq<char>| b.contains(x) <==> a.contains(x) || x == k by {
                if a.contains(x) {
                    let j = choose|j: int| 0 <= j < a.len() && a[j] == x;
                    assert(b[j] == x);
                }
                assert(b[i as int] == k);
                if b.contains(x) && x != k {
                    let j = choose|j: int| 0 <= j < b.len() && b[j] == x;
                    assert(a[j] == x);
                }
            }
            assert(table0.union_prefer_right(all_to(b, path@)) =~= table0.union_prefer_right(
                all_to(a, path@),
            ).insert(k, path@));
        }
        i = i + 1;
    }
    proof {
        assert(all.take(all.len() as int) == all);
    }
}

/// The dependencies of a block that some specifier resolves.
pub(crate) fn resolve_deps(deps: &StrMap<String>, table: &StrMap<String>) -> (r: StrMap<String>)
    ensures
        r@ == resolved_by(deps@, table@),
{
    let mut r: StrMap<String> = StrMap::new();
    let n: usize = deps.len();
    let mut i: usize = 0;
    let ghost keys = sorted_keys(deps@.dom());
    let ghost all = resolved_by(deps@, table@);
    proof {
        assert(r@ =~= all.restrict(prefix_set(keys, 0)));
    }
    while i < n
        invariant
            keys == sorted_keys(deps@.dom()),
            n == keys.len(),
            all == resolved_by(deps@, table@),
            i <= n,
            r@ == all.restrict(prefix_set(keys, i as int)),
        decreases n - i,
    {
        let name = deps.key_at(i);
        let range = deps.value_at(i);
        let spec = version_to_dep_path(name.as_str(), range.as_str());
        match table.get(spec.as_str()) {
            Some(path) => {
                r.insert(name.clone(), path.clone());
                proof {
                    assert(all.restrict(prefix_set(keys, i as int + 1)) =~= all.restrict(
                        prefix_set(keys, i as int),
                    ).insert(name@, path@));
                }
            },
            None => {
                proof {
                    assert(all.restrict(prefix_set(keys, i as int + 1)) =~= all.restrict(
                        prefix_set(keys, i as int),
                    ));
                }
            },
        }
        i = i + 1;
    }
    proof {
        assert(all.restrict(prefix_set(keys, n as int)) =~= all);
    }
    r
}

/// The direct dependencies of a manifest section.
fn read_manifest_deps(
    ranges: &StrMap<String>,
    table: &StrMap<String>,
    dep_type: DepType,
    direct: &mut Vec<DirectDep>,
)
    ensures
        final(direct).deep_view() == old(direct).deep_view() + manifest_deps(
            sorted_keys(ranges@.dom()),
            ranges@,
            table@,
            dep_type,
        ),
{
    let ghost direct0 = direct.deep_view();
    let ghost keys = sorted_keys(ranges@.dom());
    let n: usize = ranges.len();
    let mut i: usize = 0;
    proof {
        assert(direct0 + manifest_deps(keys.take(0), ranges@, table@, dep_type) == direct0);
    }
    while i < n
        invariant
            keys == sorted_keys(ranges@.dom()),
            n == keys.len(),
            i <= n,
            direct.deep_view() == direct0 + manifest_deps(
                keys.take(i as int),
                ranges@,
                table@,
                dep_type,
            ),
        decreases n - i,
    {
        let name = ranges.key_at(i);
        let range = ranges.value_at(i);
        proof {
            assert(keys.take(i + 1).drop_last() == keys.take(i as int));
            assert(keys.take(i + 1).last() == name@);
        }
        let spec = version_to_dep_path(name.as_str(), range.as_str());
        if let Some(path) = table.get(spec.as_str()) {
            let dep = DirectDep {
                name: name.clone(),
                dep_path: path.clone(),
                dep_type,
                specifier: None,
            };
            let ghost before = direct.deep_view();
            direct.push(dep);
            proof {
                assert(direct.deep_view() =~= before.push(dep.deep_view()));
                assert(direct.deep_view() =~= direct0 + manifest_deps(
                    keys.take(i + 1),
                    ranges@,
                    table@,
                    dep_type,
                ));
            }
        }
        i = i + 1;
    }
    proof {
        assert(keys.take(n as int) == keys);
    }
}

proof fn lemma_first_wrong(blocks: Seq<BlockView>, m: int, n: int)
    requires
        0 <= m <= n,
        first_wrong(blocks, m) is Some,
    ensures
        first_wrong(blocks, n) == first_wrong(blocks, m),
    decreases n,
{
    if m < n {
        lemma_first_wrong(blocks, m, n - 1);
    }
}

/// What the specifiers of all blocks resolve to.
fn read_spec_table(blocks: &Vec<Block>) -> (r: Result<StrMap<String>, ClassicError>)
    requires
        forall|i: int| 0 <= i < blocks@.len() ==> (#[trigger] blocks@[i]).specs@.len() > 0,
    ensures
        match r {
            Ok(t) => first_wrong(blocks.deep_view(), blocks@.len() as int) is None && t@
                == spec_table(blocks.deep_view(), blocks@.len() as int),
            Err(e) => first_wrong(blocks.deep_view(), blocks@.len() as int) == Some(
                e.deep_view(),
            ),
        },
{
    let ghost all = blocks.deep_view();
    let mut table: StrMap<String> = StrMap::new();
    let mut i: usize = 0;
    while i < blocks.len()
        invariant
            all == blocks.deep_view(),
            forall|i: int| 0 <= i < blocks@.len() ==> (#[trigger] blocks@[i]).specs@.len() > 0,
            i <= blocks@.len(),
            first_wrong(all, i as int) is None,
            table@ == spec_table(all, i as int),
        decreases blocks.len() - i,
    {
        let block = &blocks[i];
        proof {
            assert(all[i as int] == block.deep_view());
            assert(block.deep_view().specs[0] == block.specs@[0]@);
        }
        let version = match block.fields.get("version") {
            Some(v) => v,
            None => {
                proof {
                    lemma_first_wrong(all, i + 1, blocks@.len() as int);
                }
                return Err(ClassicError::NoVersion(block.specs.dup()));
            },
        };
        let name = match parse_spec_name(block.specs[0].as_str()) {
            Some(n) => n,
            None => {
                proof {
                    lemma_first_wrong(all, i + 1, blocks@.len() as int);
                }
                return Err(ClassicError::BadSpec(block.specs[0].clone()));
            },
        };
        let path = version_to_dep_path(name.as_str(), version.as_str());
        insert_specs(&mut table, &block.specs, path.as_str());
        i = i + 1;
    }
    Ok(table)
}

/// The packages of all blocks.
fn read_block_packages(blocks: &Vec<Block>, table: &StrMap<String>) -> (r: StrMap<LockedPackage>)
    requires
        forall|i: int| 0 <= i < blocks@.len() ==> (#[trigger] blocks@[i]).specs@.len() > 0,
        first_wrong(blocks.deep_view(), blocks@.len() as int) is None,
    ensures
        r@ == block_packages(blocks.deep_view(), blocks@.len() as int, table@),
{
    let ghost all = blocks.deep_view();
    let mut r: StrMap<LockedPackage> = StrMap::new();
    let mut i: usize = 0;
    while i < blocks.len()
        invariant
            all == blocks.deep_view(),
            forall|i: int| 0 <= i < blocks@.len() ==> (#[trigger] blocks@[i]).specs@.len() > 0,
            first_wrong(all, blocks@.len() as int) is None,
            i <= blocks@.len(),
            r@ == block_packages(all, i as int, table@),
        decreases blocks.len() - i,
    {
        let block = &blocks[i];
        proof {
            assert(all[i as int] == block.deep_view());
            assert(block.deep_view().specs[0] == block.specs@[0]@);
            if first_wrong(all, i + 1) is Some {
                lemma_first_wrong(all, i + 1, blocks@.len() as int);
            }
        }
        if let Some(version) = block.fields.get("version") {
            if let Some(name) = parse_spec_name(block.specs[0].as_str()) {
                let path = version_to_dep_path(name.as_str(), version.as_str());
                if !r.contains_key(path.as_str()) {
                    let mut pkg = LockedPackage::default();
                    pkg.alias_of = read_alias(&block.specs, name.as_str());
                    pkg.name = name;
                    pkg.version = version.clone();
                    pkg.integrity = match block.fields.get("integrity") {
                        Some(s) => Some(s.clone()),
                        None => None,
                    };
                    pkg.dependencies = resolve_deps(&block.dependencies, table);
                    pkg.dep_path = path.clone();
                    pkg.declared_dependencies = block.dependencies.dup();
                    r.insert(path, pkg);
                }
            }
        }
        i = i + 1;
    }
    r
}

proof fn lemma_split_nonempty(s: Seq<char>, c: char)
    ensures
        split(s, c).len() > 0,
    decreases s.len(),
{
    crate::text::lemma_find_char(s, c);
}

/// Every block has a specifier.
pub open spec fn all_named(blocks: Seq<BlockView>) -> bool {
    forall|i: int| 0 <= i < blocks.len() ==> (#[trigger] blocks[i]).specs.len() > 0
}

proof fn lemma_progress_named(all: Seq<Seq<char>>, n: int)
    ensures
        read_lines(all, n) matches Ok(p) ==> all_named(all_blocks(p)),
    decreases n,
{
    if n > 0 {
        lemma_progress_named(all, n - 1);
        if let Ok(p) = read_lines(all, n - 1) {
            let line = trim_end(all[n - 1]);
            let header = trim(trim_end_char(line, ':'));
            lemma_split_nonempty(header, ',');
            if let Ok(q) = read_line(p, all[n - 1]) {
                if let Some(b) = p.current {
                    assert(all_blocks(p).last() == b);
                    assert forall|i: int| 0 <= i < p.blocks.len() implies (
                    #[trigger] p.blocks[i]).specs.len() > 0 by {
                        assert(all_blocks(p)[i] == p.blocks[i]);
                    }
                }
                assert(all_named(all_blocks(q)));
            }
        }
    }
}

/// Every block of a lockfile has a specifier.
pub proof fn lemma_blocks_named(content: Seq<char>)
    ensures
        blocks_of(content) matches Ok(blocks) ==> all_named(blocks),
{
    lemma_progress_named(lines(content), lines(content).len() as int);
}

/// Read a classic lockfile into a graph.
pub fn parse_classic_str(content: &str, manifest: &PackageJson) -> (r: Result<
    LockfileGraph,
    ClassicError,
>)
    ensures
        match r {
            Ok(g) => classic_graph(content@, manifest.ranges()) == Ok::<
                LockfileGraphView,
                ClassicErrorView,
            >(g.deep_view()),
            Err(e) => classic_graph(content@, manifest.ranges()) == Err::<
                LockfileGraphView,
                ClassicErrorView,
            >(e.deep_view()),
        },
{
    let blocks = match tokenize_blocks(content) {
        Ok(b) => b,
        Err(e) => {
            return Err(ClassicError::Line(e));
        },
    };
    proof {
        lemma_blocks_named(content@);
        assert forall|i: int| 0 <= i < blocks@.len() implies (#[trigger] blocks@[i]).specs@.len()
            > 0 by {
            assert(blocks.deep_view()[i] == blocks@[i].deep_view());
        }
    }
    let table = match read_spec_table(&blocks) {
        Ok(t) => t,
        Err(e) => {
            return Err(e);
        },
    };
    let packages = read_block_packages(&blocks, &table);
    let mut direct: Vec<DirectDep> = Vec::new();
    read_manifest_deps(&manifest.dependencies, &table, DepType::Production, &mut direct);
    read_manifest_deps(&manifest.dev_dependencies, &table, DepType::Dev, &mut direct);
    read_manifest_deps(&manifest.optional_dependencies, &table, DepType::Optional, &mut direct);
    proof {
        assert(direct.deep_view() =~= root_deps(manifest.ranges(), table@));
    }
    let mut importers: StrMap<Vec<DirectDep>> = StrMap::new();
    importers.insert(".".to_owned(), direct);
    let mut g = LockfileGraph::default();
    g.importers = importers;
    g.packages = packages;
    Ok(g)
}

} // verus!
