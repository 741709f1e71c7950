//! What the blocks of a `yarn.lock` tell of the packages and of the direct
//! dependencies.
use vstd::prelude::*;
use crate::graph::{DepType, DirectDepView, LockedPackageView, LockfileGraphView};
use crate::laws::pnpm::{is_name, lemma_separator};
use crate::laws::text::law_indent;
use crate::manifest::Ranges;
use crate::pnpm::dep_path::dep_path;
use crate::source::{first_some, LocalSourceView};
use crate::strmap::{lemma_listing, lookup, sorted_keys};
use crate::text::{
    find_char, is_white, lemma_find_char, spaces, trim_end, trim_end_char, trim_start,
};
use crate::yaml::YamlEntries;
use crate::yarn::berry::{
    berry_deps, berry_entry, berry_root_deps, berry_table, direct_path, has_protocol,
    resolved_package, BerryBlock, BerryErrorView,
};
use crate::yarn::berry_write::{dep_body, exact_spec, link_type, ranged_spec};
use crate::yarn::canonical::{dep_version, direct_key, edge_key, manifest_range, path_keys};
use crate::yarn::classic::{
    block_alias, block_package, block_packages, block_path, blocks_graph, manifest_deps, npm_alias,
    read_line, root_deps, spec_name, spec_table, BlockView, ClassicErrorView, LineErrorView,
    Progress,
};
use crate::yarn::classic_write::{classic_text, rendered_range};

verus! {

/// The name in front of a specifier.
pub proof fn law_specifier_names(name: Seq<char>, range: Seq<char>)
    requires
        is_name(name),
    ensures
        spec_name(name + "@"@ + range) == Some(name),
{
    lemma_separator(name, range);
    let s = name + "@"@ + range;
    assert(dep_path(name, range) == s);
    assert(s.take(name.len() as int) =~= name);
}

/// A specifier `alias@npm:name@range` stands for the package `name`; one without
/// `npm:` stands for itself.
pub proof fn law_alias_specifiers(alias: Seq<char>, name: Seq<char>, range: Seq<char>)
    requires
        is_name(alias),
        is_name(name),
    ensures
        npm_alias(alias + "@"@ + ("npm:"@ + (name + "@"@ + range))) == Some(name),
        !"npm:"@.is_prefix_of(range) ==> npm_alias(alias + "@"@ + range) is None,
{
    reveal_strlit("@");
    let inner = name + "@"@ + range;
    let rest = "npm:"@ + inner;
    lemma_separator(alias, rest);
    lemma_separator(alias, range);
    let s = alias + "@"@ + rest;
    assert(dep_path(alias, rest) == s);
    assert(s.skip(alias.len() as int + 1) =~= rest);
    assert(rest.take("npm:"@.len() as int) =~= "npm:"@);
    assert(rest.skip("npm:"@.len() as int) =~= inner);
    law_specifier_names(name, range);
    let t = alias + "@"@ + range;
    assert(dep_path(alias, range) == t);
    assert(t.skip(alias.len() as int + 1) =~= range);
}

/// A block of a classic lockfile is the package with the name in front of its first
/// specifier, and with its version and integrity. It depends on what its ranges
/// resolve to.
pub proof fn law_classic_block(
    block: BlockView,
    table: Map<Seq<char>, Seq<char>>,
    name: Seq<char>,
    range: Seq<char>,
    version: Seq<char>,
)
    requires
        is_name(name),
        block.specs.len() > 0,
        block.specs[0] == name + "@"@ + range,
        block.fields.dom().contains("version"@) && block.fields["version"@] == version,
    ensures
        block_path(block) == Ok::<Seq<char>, ClassicErrorView>(name + "@"@ + version),
        ({
            let p = block_package(block, table);
            &&& p.name == name
            &&& p.version == version
            &&& p.dep_path == name + "@"@ + version
            &&& block.fields.dom().contains("integrity"@) ==> p.integrity == Some(
                block.fields["integrity"@],
            )
            &&& !block.fields.dom().contains("integrity"@) ==> p.integrity is None
            &&& p.declared_dependencies == block.dependencies
            &&& p.local_source is None
            &&& forall|n: Seq<char>, path: Seq<char>|
                #![trigger block.dependencies.dom().contains(n), lookup(table, path)]
                block.dependencies.dom().contains(n) && path == n + "@"@ + block.dependencies[n]
                    && table.dom().contains(path) ==> p.dependencies.dom().contains(n)
                    && p.dependencies[n] == table[path]
            &&& forall|n: Seq<char>| #[trigger]
                p.dependencies.dom().contains(n) ==> block.dependencies.dom().contains(n)
                    && table.dom().contains(n + "@"@ + block.dependencies[n])
        }),
{
    law_specifier_names(name, range);
}

/// A block without a version is refused, and so is one whose first specifier has no
/// name in front.
pub proof fn law_wrong_blocks(block: BlockView)
    requires
        block.specs.len() > 0,
    ensures
        !block.fields.dom().contains("version"@) ==> block_path(block) is Err,
        !block.specs[0].contains('@') ==> block_path(block) is Err,
{
    if !block.specs[0].contains('@') {
        let s = block.specs[0];
        lemma_find_char(s, '@');
        if let Some(k) = find_char(s, '@') {
            assert(s.contains(s[k]));
        }
        if s.len() > 0 && s[0] == '@' {
            assert(s.contains(s[0]));
        }
    }
}

/// A specifier resolves to the package of the last block that lists it.
pub proof fn law_classic_specifiers(blocks: Seq<BlockView>, n: int, i: int, s: Seq<char>)
    requires
        0 <= i < n <= blocks.len(),
        blocks[i].specs.contains(s),
        forall|j: int| i < j < n ==> !(#[trigger] blocks[j]).specs.contains(s),
    ensures
        lookup(spec_table(blocks, n), s) == Some(block_path(blocks[i])->Ok_0),
    decreases n,
{
    if i < n - 1 {
        law_classic_specifiers(blocks, n - 1, i, s);
        assert(!blocks[n - 1].specs.contains(s));
    }
}

/// A specifier that no block lists resolves to nothing.
pub proof fn law_unlisted_specifiers(blocks: Seq<BlockView>, n: int, s: Seq<char>)
    requires
        0 <= n <= blocks.len(),
        forall|j: int| 0 <= j < n ==> !(#[trigger] blocks[j]).specs.contains(s),
    ensures
        !spec_table(blocks, n).dom().contains(s),
    decreases n,
{
    if n > 0 {
        law_unlisted_specifiers(blocks, n - 1, s);
        assert(!blocks[n - 1].specs.contains(s));
    }
}

/// Each block of a classic lockfile is a package of the graph, under its name and
/// version, unless a block before it has these too.
pub proof fn law_classic_packages(
    blocks: Seq<BlockView>,
    ranges: Ranges,
    g: LockfileGraphView,
    i: int,
)
    requires
        blocks_graph(blocks, ranges) == Ok::<LockfileGraphView, ClassicErrorView>(g),
        0 <= i < blocks.len(),
        forall|j: int|
            0 <= j < i ==> block_path(#[trigger] blocks[j])->Ok_0 != block_path(blocks[i])->Ok_0,
    ensures
        g.packages.dom().contains(block_path(blocks[i])->Ok_0),
        g.packages[block_path(blocks[i])->Ok_0] == block_package(
            blocks[i],
            spec_table(blocks, blocks.len() as int),
        ),
{
    lemma_first_block(
        blocks,
        blocks.len() as int,
        spec_table(blocks, blocks.len() as int),
        i,
    );
}

proof fn lemma_first_block(
    blocks: Seq<BlockView>,
    n: int,
    table: Map<Seq<char>, Seq<char>>,
    i: int,
)
    requires
        0 <= i < n <= blocks.len(),
        forall|j: int|
            0 <= j < i ==> block_path(#[trigger] blocks[j])->Ok_0 != block_path(blocks[i])->Ok_0,
    ensures
        lookup(block_packages(blocks, n, table), block_path(blocks[i])->Ok_0) == Some(
            block_package(blocks[i], table),
        ),
    decreases n,
{
    if i < n - 1 {
        lemma_first_block(blocks, n - 1, table, i);
    } else {
        lemma_no_block(blocks, i, table, block_path(blocks[i])->Ok_0);
    }
}

proof fn lemma_no_block(
    blocks: Seq<BlockView>,
    n: int,
    table: Map<Seq<char>, Seq<char>>,
    path: Seq<char>,
)
    requires
        0 <= n <= blocks.len(),
        forall|j: int| 0 <= j < n ==> block_path(#[trigger] blocks[j])->Ok_0 != path,
    ensures
        !block_packages(blocks, n, table).dom().contains(path),
    decreases n,
{
    if n > 0 {
        lemma_no_block(blocks, n - 1, table, path);
        assert(block_path(blocks[n - 1])->Ok_0 != path);
    }
}

/// A direct dependency of a type.
pub open spec fn direct(name: Seq<char>, path: Seq<char>, t: DepType) -> DirectDepView {
    DirectDepView { name, dep_path: path, dep_type: t, specifier: None }
}

proof fn lemma_manifest_deps(
    names: Seq<Seq<char>>,
    ranges: Map<Seq<char>, Seq<char>>,
    table: Map<Seq<char>, Seq<char>>,
    t: DepType,
    d: DirectDepView,
)
    ensures
        manifest_deps(names, ranges, table, t).contains(d) <==> names.contains(d.name) && lookup(
            table,
            dep_path(d.name, ranges[d.name]),
        ) == Some(d.dep_path) && d == direct(d.name, d.dep_path, t),
    decreases names.len(),
{
    let r = manifest_deps(names, ranges, table, t);
    if names.len() > 0 {
        let front = names.drop_last();
        let last = names.last();
        lemma_manifest_deps(front, ranges, table, t, d);
        let before = manifest_deps(front, ranges, table, t);
        lemma_last(names, d.name);
        if let Some(path) = lookup(table, dep_path(last, ranges[last])) {
            lemma_pushed(before, direct(last, path, t), d);
            assert(r == before.push(direct(last, path, t)));
        }
    } else {
        assert(!r.contains(d));
        assert(!names.contains(d.name));
    }
}

proof fn lemma_last(names: Seq<Seq<char>>, n: Seq<char>)
    requires
        names.len() > 0,
    ensures
        names.contains(n) <==> names.drop_last().contains(n) || n == names.last(),
{
    let front = names.drop_last();
    assert(names[names.len() - 1] == names.last());
    if front.contains(n) {
        let i = choose|i: int| 0 <= i < front.len() && front[i] == n;
        assert(names[i] == n);
    }
    if names.contains(n) && n != names.last() {
        let i = choose|i: int| 0 <= i < names.len() && names[i] == n;
        assert(front[i] == n);
    }
}

proof fn lemma_pushed<T>(before: Seq<T>, x: T, d: T)
    ensures
        before.push(x).contains(d) <==> before.contains(d) || d == x,
{
    let r = before.push(x);
    assert(r[before.len() as int] == x);
    if before.contains(d) {
        let i = choose|i: int| 0 <= i < before.len() && before[i] == d;
        assert(r[i] == d);
    }
    if r.contains(d) && d != x {
        let i = choose|i: int| 0 <= i < r.len() && r[i] == d;
        assert(before[i] == d);
    }
}

pub proof fn lemma_joined<T>(a: Seq<T>, b: Seq<T>, c: Seq<T>, d: T)
    ensures
        (a + b + c).contains(d) <==> a.contains(d) || b.contains(d) || c.contains(d),
{
    let s = a + b + c;
    if a.contains(d) {
        let i = choose|i: int| 0 <= i < a.len() && a[i] == d;
        assert(s[i] == d);
    }
    if b.contains(d) {
        let i = choose|i: int| 0 <= i < b.len() && b[i] == d;
        assert(s[a.len() + i] == d);
    }
    if c.contains(d) {
        let i = choose|i: int| 0 <= i < c.len() && c[i] == d;
        assert(s[a.len() + b.len() + i] == d);
    }
    if s.contains(d) {
        let i = choose|i: int| 0 <= i < s.len() && s[i] == d;
        if i < a.len() {
            assert(a[i] == d);
        } else if i < a.len() + b.len() {
            assert(b[i - a.len()] == d);
        } else {
            assert(c[i - a.len() - b.len()] == d);
        }
    }
}

/// The section of a manifest with the dependencies of a type.
pub open spec fn section(ranges: Ranges, t: DepType) -> Map<Seq<char>, Seq<char>> {
    match t {
        DepType::Production => ranges.dependencies,
        DepType::Dev => ranges.dev_dependencies,
        DepType::Optional => ranges.optional_dependencies,
    }
}

/// Ranges of a manifest.
pub open spec fn are_listed(ranges: Ranges) -> bool {
    ranges.dependencies.dom().finite() && ranges.dev_dependencies.dom().finite()
        && ranges.optional_dependencies.dom().finite()
}

/// The direct dependencies beside a classic lockfile are those of the manifest whose
/// name and range resolve to a package, each of the type of its section.
pub proof fn law_classic_direct_dependencies(
    ranges: Ranges,
    table: Map<Seq<char>, Seq<char>>,
    d: DirectDepView,
)
    requires
        are_listed(ranges),
    ensures
        root_deps(ranges, table).contains(d) <==> {
            let m = section(ranges, d.dep_type);
            &&& m.dom().contains(d.name)
            &&& table.dom().contains(d.name + "@"@ + m[d.name])
            &&& table[d.name + "@"@ + m[d.name]] == d.dep_path
            &&& d.specifier is None
        },
{
    let (x, y, z) = (
        sorted_keys(ranges.dependencies.dom()),
        sorted_keys(ranges.dev_dependencies.dom()),
        sorted_keys(ranges.optional_dependencies.dom()),
    );
    lemma_listing(ranges.dependencies.dom());
    lemma_listing(ranges.dev_dependencies.dom());
    lemma_listing(ranges.optional_dependencies.dom());
    let (a, b, c) = (
        manifest_deps(x, ranges.dependencies, table, DepType::Production),
        manifest_deps(y, ranges.dev_dependencies, table, DepType::Dev),
        manifest_deps(z, ranges.optional_dependencies, table, DepType::Optional),
    );
    lemma_manifest_deps(x, ranges.dependencies, table, DepType::Production, d);
    lemma_manifest_deps(y, ranges.dev_dependencies, table, DepType::Dev, d);
    lemma_manifest_deps(z, ranges.optional_dependencies, table, DepType::Optional, d);
    lemma_joined(a, b, c, d);
    assert(x.contains(d.name) <==> ranges.dependencies.dom().contains(d.name));
    assert(y.contains(d.name) <==> ranges.dev_dependencies.dom().contains(d.name));
    assert(z.contains(d.name) <==> ranges.optional_dependencies.dom().contains(d.name));
}

/// A range with a protocol: letters and plus signs in front of a colon.
pub open spec fn starts_with_protocol(range: Seq<char>) -> bool {
    exists|i: int|
        0 < i < range.len() && #[trigger] range[i] == ':' && forall|j: int|
            0 <= j < i ==> {
                let c = #[trigger] range[j];
                ('a' <= c <= 'z') || ('A' <= c <= 'Z') || c == '+'
            }
}

/// Whether a range has a protocol is told by the characters before its first colon.
pub proof fn law_range_protocols(range: Seq<char>)
    ensures
        has_protocol(range) <==> starts_with_protocol(range),
{
    lemma_find_char(range, ':');
    if has_protocol(range) {
        let i = find_char(range, ':')->0;
        assert(range[i] == ':');
        assert forall|j: int| 0 <= j < i implies {
            let c = #[trigger] range[j];
            ('a' <= c <= 'z') || ('A' <= c <= 'Z') || c == '+'
        } by {
            assert(crate::yarn::berry::is_protocol_char(range[j]));
        }
    }
    if starts_with_protocol(range) {
        let i = choose|i: int|
            0 < i < range.len() && #[trigger] range[i] == ':' && forall|j: int|
                0 <= j < i ==> {
                    let c = #[trigger] range[j];
                    ('a' <= c <= 'z') || ('A' <= c <= 'Z') || c == '+'
                };
        assert(find_char(range, ':') == Some(i)) by {
            let k = find_char(range, ':')->0;
            if k < i {
                assert(range[k] == ':');
            }
        }
        assert forall|j: int| 0 <= j < i implies crate::yarn::berry::is_protocol_char(
            #[trigger] range[j],
        ) by {}
    }
}

proof fn lemma_berry_deps(
    names: Seq<Seq<char>>,
    ranges: Map<Seq<char>, Seq<char>>,
    table: Map<Seq<char>, Seq<char>>,
    t: DepType,
    d: DirectDepView,
)
    ensures
        berry_deps(names, ranges, table, t).contains(d) <==> names.contains(d.name) && direct_path(
            d.name,
            ranges[d.name],
            table,
        ) == Some(d.dep_path) && d == direct(d.name, d.dep_path, t),
    decreases names.len(),
{
    let r = berry_deps(names, ranges, table, t);
    if names.len() > 0 {
        let front = names.drop_last();
        let last = names.last();
        lemma_berry_deps(front, ranges, table, t, d);
        let before = berry_deps(front, ranges, table, t);
        lemma_last(names, d.name);
        if let Some(path) = direct_path(last, ranges[last], table) {
            lemma_pushed(before, direct(last, path, t), d);
            assert(r == before.push(direct(last, path, t)));
        }
    } else {
        assert(!r.contains(d));
        assert(!names.contains(d.name));
    }
}

/// What the range of a direct dependency resolves to in a berry lockfile: the package
/// whose block lists it as it stands, or for a range without protocol the one whose
/// block lists it behind `npm:`.
pub open spec fn leads_to(
    table: Map<Seq<char>, Seq<char>>,
    name: Seq<char>,
    range: Seq<char>,
    path: Seq<char>,
) -> bool {
    let plain = name + "@"@ + range;
    let npm = name + "@npm:"@ + range;
    if table.dom().contains(plain) {
        table[plain] == path
    } else {
        !starts_with_protocol(range) && table.dom().contains(npm) && table[npm] == path
    }
}

/// The direct dependencies beside a berry lockfile are those of the manifest whose name
/// and range resolve to a package, each of the type of its section.
pub proof fn law_berry_direct_dependencies(
    ranges: Ranges,
    table: Map<Seq<char>, Seq<char>>,
    d: DirectDepView,
)
    requires
        are_listed(ranges),
    ensures
        berry_root_deps(ranges, table).contains(d) <==> {
            let m = section(ranges, d.dep_type);
            &&& m.dom().contains(d.name)
            &&& leads_to(table, d.name, m[d.name], d.dep_path)
            &&& d.specifier is None
        },
{
    let (x, y, z) = (
        sorted_keys(ranges.dependencies.dom()),
        sorted_keys(ranges.dev_dependencies.dom()),
        sorted_keys(ranges.optional_dependencies.dom()),
    );
    lemma_listing(ranges.dependencies.dom());
    lemma_listing(ranges.dev_dependencies.dom());
    lemma_listing(ranges.optional_dependencies.dom());
    let (a, b, c) = (
        berry_deps(x, ranges.dependencies, table, DepType::Production),
        berry_deps(y, ranges.dev_dependencies, table, DepType::Dev),
        berry_deps(z, ranges.optional_dependencies, table, DepType::Optional),
    );
    lemma_berry_deps(x, ranges.dependencies, table, DepType::Production, d);
    lemma_berry_deps(y, ranges.dev_dependencies, table, DepType::Dev, d);
    lemma_berry_deps(z, ranges.optional_dependencies, table, DepType::Optional, d);
    lemma_joined(a, b, c, d);
    assert(x.contains(d.name) <==> ranges.dependencies.dom().contains(d.name));
    assert(y.contains(d.name) <==> ranges.dev_dependencies.dom().contains(d.name));
    assert(z.contains(d.name) <==> ranges.optional_dependencies.dom().contains(d.name));
    law_range_protocols(section(ranges, d.dep_type)[d.name]);
}

/// A specifier of a berry lockfile resolves to the path of the last block that lists
/// it.
pub proof fn law_berry_specifiers(
    entries: YamlEntries,
    n: int,
    i: int,
    b: BerryBlock,
    s: Seq<char>,
)
    requires
        0 <= i < n <= entries.len(),
        berry_entry(entries[i]) == Ok::<Option<BerryBlock>, BerryErrorView>(Some(b)),
        b.specs.contains(s),
        forall|j: int|
            i < j < n ==> (berry_entry(#[trigger] entries[j]) matches Ok(Some(c))
                ==> !c.specs.contains(s)),
    ensures
        lookup(berry_table(entries, n), s) == Some(b.path),
    decreases n,
{
    if i < n - 1 {
        law_berry_specifiers(entries, n - 1, i, b, s);
        assert(berry_entry(entries[n - 1]) matches Ok(Some(c)) ==> !c.specs.contains(s));
    }
}

/// A package of a berry lockfile depends on what its ranges resolve to.
pub proof fn law_berry_dependencies(
    p: LockedPackageView,
    table: Map<Seq<char>, Seq<char>>,
    n: Seq<char>,
)
    ensures
        ({
            let q = resolved_package(p, table);
            let spec = n + "@"@ + p.dependencies[n];
            let optional = n + "@"@ + p.optional_dependencies[n];
            &&& q.dependencies.dom().contains(n) <==> p.dependencies.dom().contains(n)
                && table.dom().contains(spec)
            &&& q.dependencies.dom().contains(n) ==> q.dependencies[n] == table[spec]
            &&& q.optional_dependencies.dom().contains(n)
                <==> p.optional_dependencies.dom().contains(n) && table.dom().contains(optional)
            &&& q.optional_dependencies.dom().contains(n) ==> q.optional_dependencies[n]
                == table[optional]
        }),
{
}

/// The range of a dependency that is written: that of the section in which it stands,
/// production before development before optional before peer.
pub proof fn law_manifest_ranges(r: Ranges, name: Seq<char>)
    ensures
        r.dependencies.dom().contains(name) ==> manifest_range(r, name) == Some(
            r.dependencies[name],
        ),
        !r.dependencies.dom().contains(name) && r.dev_dependencies.dom().contains(name)
            ==> manifest_range(r, name) == Some(r.dev_dependencies[name]),
        !r.dependencies.dom().contains(name) && !r.dev_dependencies.dom().contains(name)
            && r.optional_dependencies.dom().contains(name) ==> manifest_range(r, name) == Some(
            r.optional_dependencies[name],
        ),
        !r.dependencies.dom().contains(name) && !r.dev_dependencies.dom().contains(name)
            && !r.optional_dependencies.dom().contains(name) ==> manifest_range(r, name) == lookup(
            r.peer_dependencies,
            name,
        ),
{
}

/// A block of a classic lockfile whose first specifier is an alias is the package that it
/// stands for, under another name. One without alias is itself.
pub proof fn law_classic_aliases(
    block: BlockView,
    alias: Seq<char>,
    name: Seq<char>,
    range: Seq<char>,
)
    requires
        is_name(alias),
        is_name(name),
        block.specs.len() > 0,
    ensures
        block.specs == seq![alias + "@"@ + ("npm:"@ + (name + "@"@ + range))] && alias != name
            ==> block_alias(block) == Some(name),
        block.specs == seq![name + "@"@ + range] && !"npm:"@.is_prefix_of(range) ==> block_alias(
            block,
        ) is None,
        block.specs == seq![name + "@"@ + ("npm:"@ + (name + "@"@ + range))] ==> block_alias(block)
            is None,
{
    law_alias_specifiers(alias, name, range);
    law_alias_specifiers(name, name, range);
    law_specifier_names(alias, "npm:"@ + (name + "@"@ + range));
    law_specifier_names(name, "npm:"@ + (name + "@"@ + range));
    law_specifier_names(name, range);
    reveal_with_fuel(first_some, 2);
    let s = block.specs;
    if s.len() == 1 {
        assert(s.drop_last() =~= Seq::empty());
        assert(s.last() == s[0]);
    }
}

/// A link is written as soft, and any other package as hard.
pub proof fn law_link_types(p: LockedPackageView, path: Seq<char>)
    ensures
        p.local_source == Some(LocalSourceView::Link(path)) ==> link_type(p) == "soft"@,
        p.local_source is None ==> link_type(p) == "hard"@,
        p.local_source is Some && !(p.local_source->0 is Link) ==> link_type(p) == "hard"@,
{
}

/// What the line of a dependency says: the specifier of a package from a source; for one
/// of the registry the range that is declared, with `npm:` in front where it has no colon;
/// and its version where none is declared.
pub proof fn law_dependency_lines(
    declared: Map<Seq<char>, Seq<char>>,
    target: LockedPackageView,
    n: Seq<char>,
    v: Seq<char>,
)
    ensures
        target.local_source matches Some(source) ==> dep_body(declared, target, n, v)
            == source.specifier(),
        target.local_source is None && declared.dom().contains(n) && declared[n].contains(':')
            ==> dep_body(declared, target, n, v) == declared[n],
        target.local_source is None && declared.dom().contains(n) && !declared[n].contains(':')
            ==> dep_body(declared, target, n, v) == "npm:"@ + declared[n],
        target.local_source is None && !declared.dom().contains(n) && !dep_version(n, v).contains(
            ':',
        ) ==> dep_body(declared, target, n, v) == "npm:"@ + dep_version(n, v),
{
    let range = if declared.dom().contains(n) {
        declared[n]
    } else {
        dep_version(n, v)
    };
    lemma_find_char(range, ':');
    if let Some(k) = find_char(range, ':') {
        assert(range.contains(range[k]));
    }
    if range.contains(':') {
        let i = choose|i: int| 0 <= i < range.len() && range[i] == ':';
        assert(find_char(range, ':') is Some);
    }
}

/// The specifier that names a package exactly: with its version for one of the registry,
/// and with its source for any other.
pub proof fn law_exact_specifiers(p: LockedPackageView, n: Seq<char>, range: Seq<char>)
    ensures
        p.local_source is None ==> exact_spec(p) == p.name + "@npm:"@ + p.version,
        p.local_source matches Some(source) ==> exact_spec(p) == p.name + "@"@ + source.specifier(),
        starts_with_protocol(range) ==> ranged_spec(n, range) == n + "@"@ + range,
        !starts_with_protocol(range) ==> ranged_spec(n, range) == n + "@npm:"@ + range,
{
    law_range_protocols(range);
}

/// A classic lockfile starts with its notice.
pub proof fn law_classic_notice(graph: LockfileGraphView, ranges: Ranges)
    ensures
        ("# THIS IS AN AUTOGENERATED FILE. DO NOT EDIT THIS FILE DIRECTLY.\n"@
            + "# yarn lockfile v1\n\n\n"@).is_prefix_of(classic_text(graph, ranges)),
{
    let p = "# THIS IS AN AUTOGENERATED FILE. DO NOT EDIT THIS FILE DIRECTLY.\n"@
        + "# yarn lockfile v1\n\n\n"@;
    let t = classic_text(graph, ranges);
    assert(t.take(p.len() as int) =~= p);
}

/// Of the sections of a classic block only `dependencies:` is read: the header of another
/// ends it, and the lines below that do not count.
pub proof fn law_other_sections(p: Progress, block: BlockView, name: Seq<char>, line: Seq<char>)
    requires
        p.current == Some(block),
        name.len() > 0 && name != "dependencies"@,
        forall|i: int| 0 <= i < name.len() ==> 'A' <= #[trigger] name[i] <= 'z',
        line.len() > 0 && !is_white(line[0]) && !is_white(line.last()) && line[0] != '#',
    ensures
        read_line(p, spaces(2) + name.push(':')) == Ok::<Progress, LineErrorView>(
            Progress { in_deps: false, ..p },
        ),
        !p.in_deps ==> read_line(p, spaces(4) + line) == Ok::<Progress, LineErrorView>(p),
{
    let body = name.push(':');
    let head = spaces(2) + body;
    assert(!is_white(':'));
    assert(name[0] == body[0]);
    assert(!is_white(body[0]) && body[0] != '#');
    assert(head.last() == ':');
    assert(trim_end(head) == head);
    law_indent(2, body);
    assert(body.drop_last() =~= name);
    assert(name.last() == name[name.len() - 1]);
    assert(trim_end_char(body, ':') == trim_end_char(name, ':'));
    assert(name.last() != ':' ==> trim_end_char(name, ':') == name);
    assert('A' <= name.last() <= 'z');
    assert(!is_white(name.last()) && !is_white(name[0]));
    assert(trim_end(name) == name);
    assert(trim_start(name) == name);
    let deep = spaces(4) + line;
    assert(deep.last() == line.last());
    assert(trim_end(deep) == deep);
    law_indent(4, line);
}

proof fn lemma_no_path(
    packages: Map<Seq<char>, LockedPackageView>,
    keys: Seq<Seq<char>>,
    path: Seq<char>,
)
    requires
        forall|i: int| 0 <= i < keys.len() ==> packages[#[trigger] keys[i]].dep_path != path,
    ensures
        !path_keys(packages, keys).dom().contains(path),
    decreases keys.len(),
{
    if keys.len() > 0 {
        let front = keys.drop_last();
        assert forall|i: int| 0 <= i < front.len() implies packages[#[trigger] front[i]].dep_path
            != path by {
            assert(front[i] == keys[i]);
        }
        lemma_no_path(packages, front, path);
        assert(packages[keys[keys.len() - 1]].dep_path != path);
    }
}

/// A dependency with peers leads to the package with its name and version, where no package
/// has its dep path; so it is written for that package.
pub proof fn law_dependencies_lead_on(
    packages: Map<Seq<char>, LockedPackageView>,
    n: Seq<char>,
    v: Seq<char>,
    peers: Seq<char>,
)
    requires
        packages.dom().finite(),
        !n.contains('(') && !v.contains('('),
        packages.dom().contains(n + "@"@ + v),
        forall|k: Seq<char>| #[trigger]
            packages.dom().contains(k) ==> packages[k].dep_path != n + "@"@ + (v + seq!['(']
                + peers) && packages[k].dep_path != n + "@"@ + v,
    ensures
        direct_key(packages, n + "@"@ + (v + seq!['('] + peers)) == Some(n + "@"@ + v),
        direct_key(packages, n + "@"@ + v) == Some(n + "@"@ + v),
        edge_key(packages, n, n + "@"@ + (v + seq!['('] + peers)) == Some(n + "@"@ + v),
        edge_key(packages, n, n + "@"@ + v) == Some(n + "@"@ + v),
{
    reveal_strlit("@");
    let key = n + "@"@ + v;
    let long = n + "@"@ + (v + seq!['('] + peers);
    let keys = sorted_keys(packages.dom());
    lemma_listing(packages.dom());
    assert forall|i: int| 0 <= i < keys.len() implies packages[#[trigger] keys[i]].dep_path != long
        && packages[keys[i]].dep_path != key by {
        assert(keys.contains(keys[i]));
        assert(packages.dom().contains(keys[i]));
    }
    lemma_no_path(packages, keys, long);
    lemma_no_path(packages, keys, key);
    assert forall|i: int| 0 <= i < key.len() implies key[i] != '(' by {
        if i < n.len() {
            assert(n.contains(key[i]));
        } else if i > n.len() {
            assert(v.contains(key[i]));
        }
    }
    assert(!key.contains('('));
    assert(long =~= key + seq!['('] + peers);
    crate::laws::text::law_parts(key, peers, '(');
    crate::laws::pnpm_written::law_keys_without_peers(n, v, peers);
}

/// A dependency that leads to no package is left out.
pub proof fn law_dependencies_without_package(
    packages: Map<Seq<char>, LockedPackageView>,
    n: Seq<char>,
    v: Seq<char>,
)
    requires
        packages.dom().finite(),
        !v.contains('('),
        !packages.dom().contains(n + "@"@ + v),
        forall|k: Seq<char>| #[trigger]
            packages.dom().contains(k) ==> packages[k].dep_path != n + "@"@ + v,
    ensures
        edge_key(packages, n, n + "@"@ + v) is None,
{
    let key = n + "@"@ + v;
    let keys = sorted_keys(packages.dom());
    lemma_listing(packages.dom());
    assert forall|i: int| 0 <= i < keys.len() implies packages[#[trigger] keys[i]].dep_path
        != key by {
        assert(keys.contains(keys[i]));
        assert(packages.dom().contains(keys[i]));
    }
    lemma_no_path(packages, keys, key);
    crate::laws::pnpm_written::law_keys_without_peers(n, v, Seq::empty());
}

/// A dependency is written in a classic lockfile with the range that is declared, and with
/// its version where none is.
pub proof fn law_classic_ranges(p: LockedPackageView, n: Seq<char>, v: Seq<char>, peers: Seq<char>)
    requires
        !v.contains('('),
    ensures
        p.declared_dependencies.dom().contains(n) ==> rendered_range(p, n)
            == p.declared_dependencies[n],
        !p.declared_dependencies.dom().contains(n) && p.dependencies[n] == n + "@"@ + (v + seq!['(']
            + peers) ==> rendered_range(p, n) == v,
        !p.declared_dependencies.dom().contains(n) && p.dependencies[n] == n + "@"@ + v
            ==> rendered_range(p, n) == v,
{
    crate::laws::pnpm_written::law_tails(n, v);
    crate::laws::pnpm_written::law_tails(n, v + seq!['('] + peers);
    crate::laws::text::law_parts(v, peers, '(');
}

} // verus!
