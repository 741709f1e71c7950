//! What writing a graph that was read from a classic `yarn.lock` gives back.
use vstd::prelude::*;
use crate::graph::{DepType, DirectDepView, LockedPackageView, LockfileGraphView};
use crate::laws::classic::{
    are_recordable, are_told_apart, extra_list, is_bare, is_dep_name, is_recordable, is_spec,
    law_packages_read_back, lemma_canonical, lemma_index, lemma_is_table, lemma_listed,
    lemma_listed_finite, lemma_root_pairs, specs_of, written_table, Packages,
};
use crate::laws::pnpm::lemma_find_char_from_at;
use crate::manifest::Ranges;
use crate::pnpm::dep_path::{dep_path, version_separator};
use crate::strmap::{lemma_listing, lookup, sorted_keys};
use crate::text::{
    find_char, find_white_from, is_white, lemma_find_char, lemma_find_char_at, lemma_find_char_from,
    lines, split, trim, trim_end, trim_end_char, trim_start, unquoted, without_cr,
};
use crate::yarn::canonical::{canonical, direct_key, edge_key, grouped, listed_for, manifest_range};
use crate::yarn::classic::{
    all_blocks, block_package, block_packages, block_path, blocks_of, classic_graph, first_wrong,
    header_spec, header_specs, key_value, manifest_deps, read_line, read_lines, resolved_by,
    root_deps, spec_name, spec_table, BlockView, ClassicErrorView, Progress,
};
use crate::yarn::classic_write::{
    all_declared_pairs, classic_text, declared_pairs, extra_specs, rendered_range, root_pairs, Pair,
};
use crate::yarn::{is_berry_text, is_metadata_line, yarn_graph, YarnErrorView};

verus! {

/// Whether every character of `a` is one of `b`.
spec fn is_within(a: Seq<char>, b: Seq<char>) -> bool {
    forall|c: char| #[trigger] a.contains(c) ==> b.contains(c)
}

proof fn lemma_within(s: Seq<char>, i: int, j: int)
    requires
        0 <= i <= j <= s.len(),
    ensures
        is_within(s.subrange(i, j), s),
{
    let t = s.subrange(i, j);
    assert forall|c: char| #[trigger] t.contains(c) implies s.contains(c) by {
        let k = choose|k: int| 0 <= k < t.len() && t[k] == c;
        assert(s[i + k] == c);
    }
}

proof fn lemma_trim_start(s: Seq<char>)
    ensures
        is_within(trim_start(s), s),
        trim_start(s).len() > 0 ==> !is_white(trim_start(s)[0]),
    decreases s.len(),
{
    if s.len() > 0 && is_white(s[0]) {
        lemma_trim_start(s.drop_first());
        lemma_within(s, 1, s.len() as int);
    }
}

proof fn lemma_trim_end(s: Seq<char>)
    ensures
        trim_end(s).len() <= s.len(),
        trim_end(s) == s.take(trim_end(s).len() as int),
        is_within(trim_end(s), s),
    decreases s.len(),
{
    if s.len() > 0 && is_white(s.last()) {
        lemma_trim_end(s.drop_last());
        lemma_within(s, 0, s.len() - 1);
        let n = trim_end(s).len() as int;
        assert(s.drop_last().take(n) =~= s.take(n));
    } else {
        assert(s.take(s.len() as int) =~= s);
    }
}

proof fn lemma_trim_end_char(s: Seq<char>, c: char)
    ensures
        is_within(trim_end_char(s, c), s),
    decreases s.len(),
{
    if s.len() > 0 && s.last() == c {
        lemma_trim_end_char(s.drop_last(), c);
        lemma_within(s, 0, s.len() - 1);
    }
}

proof fn lemma_unquoted_trim(s: Seq<char>)
    ensures
        is_within(unquoted(trim(s)), s),
{
    let t = trim(s);
    lemma_trim_end(s);
    lemma_trim_start(trim_end(s));
    if t.len() >= 2 {
        lemma_within(t, 1, t.len() - 1);
    }
}

/// A text that is cut short starts with the same characters.
proof fn lemma_trim_start_prefix(s: Seq<char>, m: int)
    requires
        0 <= m <= s.len(),
        trim_start(s.take(m)).len() > 0,
    ensures
        trim_start(s.take(m)).is_prefix_of(trim_start(s)),
    decreases s.len(),
{
    let t = s.take(m);
    if t.len() > 0 && is_white(t[0]) {
        assert(t.drop_first() =~= s.drop_first().take(m - 1));
        lemma_trim_start_prefix(s.drop_first(), m - 1);
    } else {
        assert(trim_start(s) == s);
    }
}

/// The pieces of a text have its characters but for the one between them.
proof fn lemma_pieces(s: Seq<char>, c: char)
    ensures
        split(s, c).len() > 0,
        forall|i: int|
            0 <= i < split(s, c).len() ==> is_within(#[trigger] split(s, c)[i], s) && !split(
                s,
                c,
            )[i].contains(c),
    decreases s.len(),
{
    lemma_find_char(s, c);
    let all = split(s, c);
    match find_char(s, c) {
        Some(k) => {
            let rest = s.skip(k + 1);
            lemma_pieces(rest, c);
            lemma_within(s, 0, k);
            lemma_within(s, k + 1, s.len() as int);
            assert(s.take(k) =~= s.subrange(0, k));
            assert(rest =~= s.subrange(k + 1, s.len() as int));
            assert forall|i: int| 0 <= i < all.len() implies is_within(#[trigger] all[i], s)
                && !all[i].contains(c) by {
                if i > 0 {
                    assert(all[i] == split(rest, c)[i - 1]);
                }
            }
        },
        None => {},
    }
}

/// The lines of a text hold no line feed.
proof fn lemma_no_feed(s: Seq<char>)
    ensures
        forall|i: int| 0 <= i < lines(s).len() ==> !(#[trigger] lines(s)[i]).contains('\n'),
    decreases s.len(),
{
    lemma_find_char(s, '\n');
    let all = lines(s);
    match find_char(s, '\n') {
        Some(k) => {
            let (first, rest) = (s.take(k), s.skip(k + 1));
            lemma_no_feed(rest);
            assert(!without_cr(first).contains('\n'));
            assert forall|i: int| 0 <= i < all.len() implies !(#[trigger] all[i]).contains(
                '\n',
            ) by {
                if i > 0 {
                    assert(all[i] == lines(rest)[i - 1]);
                }
            }
        },
        None => {},
    }
}

proof fn lemma_first_white(s: Seq<char>, from: int)
    requires
        0 <= from,
    ensures
        find_white_from(s, from) matches Some(i) ==> from <= i < s.len() && is_white(s[i])
            && forall|j: int| from <= j < i ==> !is_white(#[trigger] s[j]),
    decreases s.len() - from,
{
    if from < s.len() && !is_white(s[from]) {
        lemma_first_white(s, from + 1);
    }
}

/// A block with texts that a classic lockfile can hold.
spec fn is_clean_block(b: BlockView) -> bool {
    &&& b.specs.len() > 0
    &&& forall|i: int| 0 <= i < b.specs.len() ==> is_spec(#[trigger] b.specs[i])
    &&& forall|k: Seq<char>| #[trigger]
        b.fields.dom().contains(k) ==> !b.fields[k].contains('\n')
    &&& b.dependencies.dom().finite()
    &&& forall|n: Seq<char>| #[trigger]
        b.dependencies.dom().contains(n) ==> is_dep_name(n) && !b.dependencies[n].contains('\n')
}

spec fn are_clean(blocks: Seq<BlockView>) -> bool {
    forall|i: int| 0 <= i < blocks.len() ==> is_clean_block(#[trigger] blocks[i])
}

spec fn is_clean(p: Progress) -> bool {
    are_clean(p.blocks) && (p.current matches Some(b) ==> is_clean_block(b))
}

proof fn lemma_all_blocks(p: Progress)
    requires
        is_clean(p),
    ensures
        are_clean(all_blocks(p)),
{
}

/// The specifiers of a header are ones.
proof fn lemma_header(header: Seq<char>)
    requires
        !header.contains('\n'),
        header_specs(header) is Some,
    ensures
        header_specs(header)->0.len() > 0,
        forall|i: int|
            0 <= i < header_specs(header)->0.len() ==> is_spec(
                #[trigger] header_specs(header)->0[i],
            ),
{
    let pieces = split(header, ',');
    let specs = header_specs(header)->0;
    lemma_pieces(header, ',');
    assert forall|i: int| 0 <= i < specs.len() implies is_spec(#[trigger] specs[i]) by {
        let piece = pieces[i];
        assert(is_within(piece, header) && !piece.contains(','));
        lemma_unquoted_trim(piece);
        assert(specs[i] == header_spec(piece));
        assert(is_within(specs[i], piece));
        if specs[i].contains(',') {
            assert(piece.contains(','));
        }
        if specs[i].contains('\n') {
            assert(piece.contains('\n'));
            assert(header.contains('\n'));
        }
    }
}

/// A field of a line starts with a word and has a value on that line.
proof fn lemma_field(body: Seq<char>)
    requires
        body.len() > 0,
        !is_white(body[0]),
        body[0] != '#',
        !body.contains('\n'),
        !"__metadata:"@.is_prefix_of(body),
        key_value(body) is Some,
    ensures
        key_value(body) matches Some((name, value)) ==> is_dep_name(name) && !value.contains('\n'),
{
    lemma_first_white(body, 0);
    let i = find_white_from(body, 0)->0;
    let name = body.take(i);
    assert(i > 0);
    assert(name[0] == body[0]);
    assert forall|j: int| 0 <= j < name.len() implies !is_white(#[trigger] name[j]) by {
        assert(name[j] == body[j]);
    }
    let mark = "__metadata:"@;
    if mark.is_prefix_of(name) {
        assert forall|j: int| 0 <= j < mark.len() implies mark[j] == body[j] by {
            assert(mark[j] == name[j]);
        }
        assert(mark =~= body.subrange(0, mark.len() as int));
    }
    let rest = body.skip(i + 1);
    lemma_within(body, i + 1, body.len() as int);
    assert(rest =~= body.subrange(i + 1, body.len() as int));
    lemma_unquoted_trim(rest);
    if unquoted(trim(rest)).contains('\n') {
        assert(rest.contains('\n'));
        assert(body.contains('\n'));
    }
}

proof fn lemma_read_line(p: Progress, raw: Seq<char>)
    requires
        is_clean(p),
        !raw.contains('\n'),
        !is_metadata_line(raw),
        read_line(p, raw) is Ok,
    ensures
        is_clean(read_line(p, raw)->Ok_0),
{
    let line = trim_end(raw);
    let body = trim_start(line);
    let q = read_line(p, raw)->Ok_0;
    lemma_trim_end(raw);
    lemma_trim_start(line);
    lemma_all_blocks(p);
    if line.contains('\n') {
        assert(raw.contains('\n'));
    }
    if body.contains('\n') {
        assert(line.contains('\n'));
    }
    if body.len() > 0 && body[0] != '#' {
        lemma_trim_start_prefix(raw, line.len() as int);
        let mark = "__metadata:"@;
        if mark.is_prefix_of(body) {
            let t = trim_start(raw);
            assert forall|j: int| 0 <= j < mark.len() implies mark[j] == t[j] by {
                assert(mark[j] == body[j]);
            }
            assert(mark =~= t.subrange(0, mark.len() as int));
        }
        if key_value(body) is Some {
            lemma_field(body);
        }
        let bare = trim_end_char(line, ':');
        let header = trim(bare);
        lemma_trim_end_char(line, ':');
        lemma_trim_end(bare);
        lemma_trim_start(trim_end(bare));
        if header.contains('\n') {
            assert(trim_end(bare).contains('\n'));
            assert(bare.contains('\n'));
            assert(line.contains('\n'));
        }
        if header_specs(header) is Some {
            lemma_header(header);
        }
    }
}

proof fn lemma_read_lines(all: Seq<Seq<char>>, n: int)
    requires
        0 <= n <= all.len(),
        forall|i: int|
            0 <= i < all.len() ==> !(#[trigger] all[i]).contains('\n') && !is_metadata_line(all[i]),
        read_lines(all, n) is Ok,
    ensures
        is_clean(read_lines(all, n)->Ok_0),
    decreases n,
{
    if n > 0 {
        lemma_read_lines(all, n - 1);
        assert(!all[n - 1].contains('\n'));
        lemma_read_line(read_lines(all, n - 1)->Ok_0, all[n - 1]);
    }
}

/// The blocks of a classic file hold texts that a classic file can hold.
proof fn lemma_blocks(content: Seq<char>)
    requires
        !is_berry_text(content),
        blocks_of(content) is Ok,
    ensures
        are_clean(blocks_of(content)->Ok_0),
{
    let all = lines(content);
    lemma_no_feed(content);
    lemma_read_lines(all, all.len() as int);
    lemma_all_blocks(read_lines(all, all.len() as int)->Ok_0);
}

/// What the specifiers of a classic file resolve to.
pub open spec fn read_table(content: Seq<char>) -> Map<Seq<char>, Seq<char>> {
    let blocks = blocks_of(content)->Ok_0;
    spec_table(blocks, blocks.len() as int)
}

/// The name of a specifier stands in front of a version as it stood in front of
/// the range.
pub proof fn lemma_key_name(spec: Seq<char>, version: Seq<char>)
    requires
        spec_name(spec) is Some,
    ensures
        version_separator(dep_path(spec_name(spec)->0, version)) == Some(
            spec_name(spec)->0.len() as int,
        ),
        spec_name(dep_path(spec_name(spec)->0, version)) == spec_name(spec),
{
    let at = version_separator(spec)->0;
    lemma_find_char(spec, '@');
    lemma_find_char(spec, '/');
    if spec[0] == '@' {
        lemma_find_char_from(spec, '@', find_char(spec, '/')->0 + 1);
    }
    let name = spec.take(at);
    let key = dep_path(name, version);
    reveal_strlit("@");
    assert(forall|j: int| 0 <= j < at ==> key[j] == spec[j]);
    assert(key[at] == '@');
    if spec[0] == '@' {
        let slash = find_char(spec, '/')->0;
        lemma_find_char_at(key, '/', slash);
        lemma_find_char_from_at(key, '@', slash + 1, at);
    } else {
        lemma_find_char_at(key, '@', at);
    }
    assert(key.take(at) =~= name);
}

/// The package under a key is that of a block.
proof fn lemma_packages(blocks: Seq<BlockView>, n: int, table: Map<Seq<char>, Seq<char>>)
    requires
        0 <= n <= blocks.len(),
        first_wrong(blocks, n) is None,
    ensures
        block_packages(blocks, n, table).dom().finite(),
        forall|i: int|
            0 <= i < n ==> block_path(#[trigger] blocks[i]) is Ok && block_packages(
                blocks,
                n,
                table,
            ).dom().contains(block_path(blocks[i])->Ok_0),
        forall|k: Seq<char>| #[trigger]
            block_packages(blocks, n, table).dom().contains(k) ==> exists|i: int|
                0 <= i < n && block_path(#[trigger] blocks[i]) == Ok::<
                    Seq<char>,
                    ClassicErrorView,
                >(k) && block_packages(blocks, n, table)[k] == block_package(blocks[i], table),
    decreases n,
{
    if n > 0 {
        lemma_packages(blocks, n - 1, table);
        let was = block_packages(blocks, n - 1, table);
        let now = block_packages(blocks, n, table);
        assert forall|k: Seq<char>| #[trigger] now.dom().contains(k) implies exists|i: int|
            0 <= i < n && block_path(#[trigger] blocks[i]) == Ok::<Seq<char>, ClassicErrorView>(k)
                && now[k] == block_package(blocks[i], table) by {
            if was.dom().contains(k) {
                let i = choose|i: int|
                    0 <= i < n - 1 && block_path(#[trigger] blocks[i]) == Ok::<
                        Seq<char>,
                        ClassicErrorView,
                    >(k) && was[k] == block_package(blocks[i], table);
                assert(now[k] == block_package(blocks[i], table));
            } else {
                assert(now[k] == block_package(blocks[n - 1], table));
            }
        }
    }
}

/// A specifier stands in a header and resolves to the package of a block.
proof fn lemma_resolved(blocks: Seq<BlockView>, n: int)
    requires
        0 <= n <= blocks.len(),
    ensures
        forall|s: Seq<char>| #[trigger]
            spec_table(blocks, n).dom().contains(s) ==> exists|i: int|
                0 <= i < n && (#[trigger] blocks[i]).specs.contains(s) && spec_table(blocks, n)[s]
                    == block_path(blocks[i])->Ok_0,
    decreases n,
{
    if n > 0 {
        lemma_resolved(blocks, n - 1);
        let was = spec_table(blocks, n - 1);
        let now = spec_table(blocks, n);
        assert forall|s: Seq<char>| #[trigger] now.dom().contains(s) implies exists|i: int|
            0 <= i < n && (#[trigger] blocks[i]).specs.contains(s) && now[s] == block_path(
                blocks[i],
            )->Ok_0 by {
            if blocks[n - 1].specs.contains(s) {
                assert(now[s] == block_path(blocks[n - 1])->Ok_0);
            } else {
                assert(was.dom().contains(s));
                let i = choose|i: int|
                    0 <= i < n - 1 && (#[trigger] blocks[i]).specs.contains(s) && was[s]
                        == block_path(blocks[i])->Ok_0;
                assert(now[s] == was[s]);
            }
        }
    }
}

/// What is read of a package, with the texts that its file can hold.
spec fn is_read_package(
    packages: Packages,
    table: Map<Seq<char>, Seq<char>>,
    key: Seq<char>,
) -> bool {
    let p = packages[key];
    &&& key == dep_path(p.name, p.version)
    &&& spec_name(key) == Some(p.name)
    &&& p.dep_path == key
    &&& !key.contains('\n')
    &&& !p.version.contains('\n')
    &&& p.declared_dependencies.dom().finite()
    &&& p.dependencies == resolved_by(p.declared_dependencies, table)
    &&& forall|n: Seq<char>| #[trigger]
        p.declared_dependencies.dom().contains(n) ==> is_dep_name(n)
            && !p.declared_dependencies[n].contains('\n')
}

/// What is read of a file: its packages, and where its specifiers lead.
spec fn is_read(packages: Packages, table: Map<Seq<char>, Seq<char>>) -> bool {
    &&& packages.dom().finite()
    &&& forall|k: Seq<char>| #[trigger]
        packages.dom().contains(k) ==> is_read_package(packages, table, k)
    &&& forall|s: Seq<char>| #[trigger]
        table.dom().contains(s) ==> is_spec(s) && packages.dom().contains(table[s])
}

proof fn lemma_read_package(blocks: Seq<BlockView>, i: int, table: Map<Seq<char>, Seq<char>>)
    requires
        are_clean(blocks),
        0 <= i < blocks.len(),
        block_path(blocks[i]) is Ok,
    ensures
        ({
            let key = block_path(blocks[i])->Ok_0;
            is_read_package(
                Map::<Seq<char>, LockedPackageView>::empty().insert(
                    key,
                    block_package(blocks[i], table),
                ),
                table,
                key,
            )
        }),
{
    let b = blocks[i];
    let key = block_path(b)->Ok_0;
    let p = block_package(b, table);
    assert(is_clean_block(b));
    let spec = b.specs[0];
    assert(is_spec(spec));
    lemma_key_name(spec, p.version);
    assert(b.fields.dom().contains("version"@));
    reveal_strlit("@");
    lemma_find_char(spec, '@');
    lemma_find_char(spec, '/');
    if spec.len() > 0 && spec[0] == '@' && find_char(spec, '/') is Some {
        lemma_find_char_from(spec, '@', find_char(spec, '/')->0 + 1);
    }
    let at = version_separator(spec)->0;
    if key.contains('\n') {
        let j = choose|j: int| 0 <= j < key.len() && key[j] == '\n';
        if j < at {
            assert(spec[j] == '\n');
        } else if j > at {
            assert(p.version[j - at - 1] == '\n');
        }
    }
}

proof fn lemma_read(content: Seq<char>, ranges: Ranges, g: LockfileGraphView)
    requires
        !is_berry_text(content),
        classic_graph(content, ranges) == Ok::<LockfileGraphView, ClassicErrorView>(g),
    ensures
        is_read(g.packages, read_table(content)),
{
    let blocks = blocks_of(content)->Ok_0;
    let n = blocks.len() as int;
    let table = read_table(content);
    lemma_blocks(content);
    lemma_packages(blocks, n, table);
    lemma_resolved(blocks, n);
    assert forall|k: Seq<char>| #[trigger] g.packages.dom().contains(k) implies is_read_package(
        g.packages,
        table,
        k,
    ) by {
        let i = choose|i: int|
            0 <= i < n && block_path(#[trigger] blocks[i]) == Ok::<Seq<char>, ClassicErrorView>(k)
                && g.packages[k] == block_package(blocks[i], table);
        lemma_read_package(blocks, i, table);
    }
    assert forall|s: Seq<char>| #[trigger] table.dom().contains(s) implies is_spec(s)
        && g.packages.dom().contains(table[s]) by {
        let i = choose|i: int|
            0 <= i < n && (#[trigger] blocks[i]).specs.contains(s) && table[s] == block_path(
                blocks[i],
            )->Ok_0;
        assert(is_clean_block(blocks[i]));
        let j = choose|j: int| 0 <= j < blocks[i].specs.len() && blocks[i].specs[j] == s;
        assert(is_spec(blocks[i].specs[j]));
        assert(block_path(blocks[i]) is Ok);
    }
}

/// Whether a name that stands in two sections of a manifest has one range.
pub open spec fn has_one_range(ranges: Ranges) -> bool {
    forall|n: Seq<char>|
        #![trigger manifest_range(ranges, n)]
        {
            &&& ranges.dev_dependencies.dom().contains(n) ==> manifest_range(ranges, n) == Some(
                ranges.dev_dependencies[n],
            )
            &&& ranges.optional_dependencies.dom().contains(n) ==> manifest_range(ranges, n)
                == Some(ranges.optional_dependencies[n])
        }
}

/// Whether a classic lockfile can keep a graph that was read from one. No key
/// may hold a comma, which would end the specifier; an integrity needs no
/// quotes; and a specifier that is the key of a package resolves to no other
/// one.
pub open spec fn is_kept(g: LockfileGraphView, table: Map<Seq<char>, Seq<char>>) -> bool {
    forall|k: Seq<char>| #[trigger]
        g.packages.dom().contains(k) ==> {
            &&& !k.contains(',')
            &&& g.packages[k].integrity matches Some(i) ==> is_bare(i)
            &&& table.dom().contains(k) ==> table[k] == k
        }
}

/// Pairs of a package and a specifier that resolves to it.
spec fn are_edges(pairs: Seq<Pair>, table: Map<Seq<char>, Seq<char>>) -> bool {
    forall|i: int| 0 <= i < pairs.len() ==> lookup(table, (#[trigger] pairs[i]).1) == Some(
        pairs[i].0,
    )
}

proof fn lemma_edges_concat(a: Seq<Pair>, b: Seq<Pair>, table: Map<Seq<char>, Seq<char>>)
    requires
        are_edges(a, table),
        are_edges(b, table),
    ensures
        are_edges(a + b, table),
{
    assert forall|i: int| 0 <= i < (a + b).len() implies lookup(table, (#[trigger] (a + b)[i]).1)
        == Some((a + b)[i].0) by {
        if i < a.len() {
            assert((a + b)[i] == a[i]);
        } else {
            assert((a + b)[i] == b[i - a.len()]);
        }
    }
}

/// A package whose dependencies lead where a table says.
spec fn is_edged(
    packages: Packages,
    pkg: LockedPackageView,
    table: Map<Seq<char>, Seq<char>>,
) -> bool {
    &&& pkg.dependencies == resolved_by(pkg.declared_dependencies, table)
    &&& forall|n: Seq<char>| #[trigger]
        pkg.dependencies.dom().contains(n) ==> edge_key(packages, n, pkg.dependencies[n]) == Some(
            pkg.dependencies[n],
        )
}

proof fn lemma_declared(
    packages: Packages,
    pkg: LockedPackageView,
    names: Seq<Seq<char>>,
    table: Map<Seq<char>, Seq<char>>,
)
    requires
        is_edged(packages, pkg, table),
    ensures
        are_edges(declared_pairs(packages, pkg, names), table),
    decreases names.len(),
{
    if names.len() > 0 {
        lemma_declared(packages, pkg, names.drop_last(), table);
        let name = names.last();
        if pkg.dependencies.dom().contains(name) {
            let spec = dep_path(name, pkg.declared_dependencies[name]);
            assert(table.dom().contains(spec));
            assert(pkg.dependencies[name] == table[spec]);
        }
    }
}

proof fn lemma_all_declared(
    packages: Packages,
    keys: Seq<Seq<char>>,
    table: Map<Seq<char>, Seq<char>>,
)
    requires
        forall|i: int|
            0 <= i < keys.len() ==> is_edged(packages, packages[#[trigger] keys[i]], table),
    ensures
        are_edges(all_declared_pairs(packages, keys), table),
    decreases keys.len(),
{
    if keys.len() > 0 {
        let front = keys.drop_last();
        assert forall|i: int| 0 <= i < front.len() implies is_edged(
            packages,
            packages[#[trigger] front[i]],
            table,
        ) by {
            assert(front[i] == keys[i]);
        }
        lemma_all_declared(packages, front, table);
        let pkg = packages[keys[keys.len() - 1]];
        let names = sorted_keys(pkg.declared_dependencies.dom());
        assert(is_edged(packages, pkg, table));
        lemma_declared(packages, pkg, names, table);
        lemma_edges_concat(
            all_declared_pairs(packages, front),
            declared_pairs(packages, pkg, names),
            table,
        );
    }
}

/// Direct dependencies that a table resolves by their ranges.
spec fn are_resolved(
    deps: Seq<DirectDepView>,
    ranges: Ranges,
    table: Map<Seq<char>, Seq<char>>,
) -> bool {
    forall|i: int|
        0 <= i < deps.len() ==> {
            let d = #[trigger] deps[i];
            manifest_range(ranges, d.name) matches Some(range) && lookup(
                table,
                dep_path(d.name, range),
            ) == Some(d.dep_path)
        }
}

proof fn lemma_roots(
    packages: Packages,
    ranges: Ranges,
    deps: Seq<DirectDepView>,
    table: Map<Seq<char>, Seq<char>>,
)
    requires
        are_resolved(deps, ranges, table),
        forall|i: int|
            0 <= i < deps.len() ==> direct_key(packages, (#[trigger] deps[i]).dep_path) == Some(
                deps[i].dep_path,
            ),
    ensures
        are_edges(root_pairs(packages, ranges, deps), table),
    decreases deps.len(),
{
    if deps.len() > 0 {
        let front = deps.drop_last();
        assert(forall|i: int| 0 <= i < front.len() ==> front[i] == deps[i]);
        lemma_roots(packages, ranges, front, table);
        assert(deps[deps.len() - 1] == deps.last());
    }
}

/// A section of a manifest, each name with the range that counts for it.
spec fn is_section(ranges: Ranges, section: Map<Seq<char>, Seq<char>>) -> bool {
    forall|n: Seq<char>| #[trigger]
        section.dom().contains(n) ==> manifest_range(ranges, n) == Some(section[n])
}

proof fn lemma_section_deps(
    ranges: Ranges,
    section: Map<Seq<char>, Seq<char>>,
    list: Seq<Seq<char>>,
    table: Map<Seq<char>, Seq<char>>,
    t: DepType,
)
    requires
        is_section(ranges, section),
        forall|i: int| 0 <= i < list.len() ==> section.dom().contains(#[trigger] list[i]),
    ensures
        are_resolved(manifest_deps(list, section, table, t), ranges, table),
    decreases list.len(),
{
    if list.len() > 0 {
        let front = list.drop_last();
        assert(forall|i: int| 0 <= i < front.len() ==> front[i] == list[i]);
        lemma_section_deps(ranges, section, front, table, t);
        assert(section.dom().contains(list[list.len() - 1]));
    }
}

/// Direct dependencies that a second table resolves alike are in both lists.
proof fn lemma_kept_deps(
    section: Map<Seq<char>, Seq<char>>,
    list: Seq<Seq<char>>,
    table: Map<Seq<char>, Seq<char>>,
    other: Map<Seq<char>, Seq<char>>,
    t: DepType,
)
    requires
        forall|i: int|
            0 <= i < list.len() && table.dom().contains(
                dep_path(#[trigger] list[i], section[list[i]]),
            ) ==> lookup(other, dep_path(list[i], section[list[i]])) == lookup(
                table,
                dep_path(list[i], section[list[i]]),
            ),
    ensures
        forall|d: DirectDepView|
            manifest_deps(list, section, table, t).contains(d) ==> #[trigger] manifest_deps(
                list,
                section,
                other,
                t,
            ).contains(d),
    decreases list.len(),
{
    if list.len() > 0 {
        let front = list.drop_last();
        assert(forall|i: int| 0 <= i < front.len() ==> front[i] == list[i]);
        lemma_kept_deps(section, front, table, other, t);
        let (a, b) = (manifest_deps(list, section, table, t), manifest_deps(list, section, other, t));
        let (a0, b0) = (
            manifest_deps(front, section, table, t),
            manifest_deps(front, section, other, t),
        );
        let last = list[list.len() - 1];
        let spec = dep_path(last, section[last]);
        assert forall|d: DirectDepView| a.contains(d) implies #[trigger] b.contains(d) by {
            let i = choose|i: int| 0 <= i < a.len() && a[i] == d;
            if i < a0.len() {
                assert(a0[i] == d);
                assert(a0.contains(d));
                assert(b0.contains(d));
                let j = choose|j: int| 0 <= j < b0.len() && b0[j] == d;
                assert(b[j] == d);
            } else {
                assert(table.dom().contains(spec));
                assert(b[b.len() - 1] == d);
            }
        }
    }
}

/// A graph that was read and can be kept, with its direct dependencies resolved
/// by their ranges.
spec fn is_read_graph(
    g: LockfileGraphView,
    ranges: Ranges,
    table: Map<Seq<char>, Seq<char>>,
) -> bool {
    &&& is_read(g.packages, table)
    &&& is_kept(g, table)
    &&& g.importers.dom().contains("."@)
    &&& are_resolved(g.importers["."@], ranges, table)
}

/// All pairs of a package and a specifier that is written for it.
spec fn all_pairs(g: LockfileGraphView, ranges: Ranges) -> Seq<Pair> {
    root_pairs(g.packages, ranges, g.importers["."@]) + all_declared_pairs(
        g.packages,
        sorted_keys(g.packages.dom()),
    )
}

/// In a graph that was read, dep paths are keys.
proof fn lemma_read_keys(packages: Packages, table: Map<Seq<char>, Seq<char>>)
    requires
        is_read(packages, table),
    ensures
        forall|k: Seq<char>, n: Seq<char>|
            #![trigger edge_key(packages, n, k)]
            packages.dom().contains(k) ==> edge_key(packages, n, k) == Some(k),
        forall|k: Seq<char>|
            #![trigger direct_key(packages, k)]
            packages.dom().contains(k) ==> direct_key(packages, k) == Some(k),
{
    assert forall|k: Seq<char>| #[trigger] packages.dom().contains(k) implies
        packages[k].dep_path == k by {
        assert(is_read_package(packages, table, k));
    }
    lemma_index(packages);
}

proof fn lemma_pairs(g: LockfileGraphView, ranges: Ranges, table: Map<Seq<char>, Seq<char>>)
    requires
        is_read_graph(g, ranges, table),
    ensures
        are_edges(all_pairs(g, ranges), table),
        canonical(g) == g.packages,
        extra_specs(g, ranges) == grouped(all_pairs(g, ranges)),
{
    let keys = sorted_keys(g.packages.dom());
    lemma_listing(g.packages.dom());
    assert forall|k: Seq<char>| #[trigger] g.packages.dom().contains(k) implies k == dep_path(
        g.packages[k].name,
        g.packages[k].version,
    ) by {
        assert(is_read_package(g.packages, table, k));
    }
    lemma_canonical(g);
    lemma_read_keys(g.packages, table);
    assert forall|i: int| 0 <= i < keys.len() implies is_edged(
        g.packages,
        g.packages[#[trigger] keys[i]],
        table,
    ) by {
        assert(keys.contains(keys[i]));
        assert(g.packages.dom().contains(keys[i]));
        let p = g.packages[keys[i]];
        assert(is_read_package(g.packages, table, keys[i]));
        assert forall|n: Seq<char>| #[trigger] p.dependencies.dom().contains(n) implies edge_key(
            g.packages,
            n,
            p.dependencies[n],
        ) == Some(p.dependencies[n]) by {
            assert(table.dom().contains(dep_path(n, p.declared_dependencies[n])));
        }
    }
    lemma_all_declared(g.packages, keys, table);
    let deps = g.importers["."@];
    assert forall|i: int| 0 <= i < deps.len() implies direct_key(
        g.packages,
        (#[trigger] deps[i]).dep_path,
    ) == Some(deps[i].dep_path) by {
        let range = manifest_range(ranges, deps[i].name)->0;
        assert(table.dom().contains(dep_path(deps[i].name, range)));
    }
    lemma_roots(g.packages, ranges, g.importers["."@], table);
    lemma_edges_concat(
        root_pairs(g.packages, ranges, g.importers["."@]),
        all_declared_pairs(g.packages, keys),
        table,
    );
}

/// A specifier that is written for a package is its key or resolves to it.
proof fn lemma_specs(
    g: LockfileGraphView,
    ranges: Ranges,
    table: Map<Seq<char>, Seq<char>>,
    a: Seq<char>,
)
    requires
        is_read_graph(g, ranges, table),
    ensures
        forall|i: int|
            0 <= i < extra_list(extra_specs(g, ranges), a).len() ==> lookup(
                table,
                #[trigger] extra_list(extra_specs(g, ranges), a)[i],
            ) == Some(a),
{
    lemma_pairs(g, ranges, table);
    let pairs = all_pairs(g, ranges);
    let extras = extra_specs(g, ranges);
    let list = extra_list(extras, a);
    if extras.dom().contains(a) {
        let set = listed_for(pairs, a);
        lemma_listed_finite(pairs, a);
        lemma_listing(set);
        assert forall|i: int| 0 <= i < list.len() implies lookup(table, #[trigger] list[i])
            == Some(a) by {
            assert(list.contains(list[i]));
            assert(set.contains(list[i]));
            let j = choose|j: int| 0 <= j < pairs.len() && pairs[j] == (a, list[i]);
            assert(lookup(table, pairs[j].1) == Some(pairs[j].0));
        }
    }
}

proof fn lemma_told_apart(g: LockfileGraphView, ranges: Ranges, table: Map<Seq<char>, Seq<char>>)
    requires
        is_read_graph(g, ranges, table),
    ensures
        are_told_apart(g, ranges),
{
    assert forall|a: Seq<char>, b: Seq<char>, s: Seq<char>|
        #![trigger specs_of(g, ranges, a).contains(s), specs_of(g, ranges, b).contains(s)]
        g.packages.dom().contains(a) && g.packages.dom().contains(b) && specs_of(
            g,
            ranges,
            a,
        ).contains(s) && specs_of(g, ranges, b).contains(s) implies a == b by {
        lemma_specs(g, ranges, table, a);
        lemma_specs(g, ranges, table, b);
        let (p, q) = (specs_of(g, ranges, a), specs_of(g, ranges, b));
        let i = choose|i: int| 0 <= i < p.len() && p[i] == s;
        let j = choose|j: int| 0 <= j < q.len() && q[j] == s;
        if i > 0 {
            assert(p[i] == extra_list(extra_specs(g, ranges), a)[i - 1]);
        }
        if j > 0 {
            assert(q[j] == extra_list(extra_specs(g, ranges), b)[j - 1]);
        }
    }
}

proof fn lemma_recordable(
    g: LockfileGraphView,
    ranges: Ranges,
    table: Map<Seq<char>, Seq<char>>,
    k: Seq<char>,
)
    requires
        is_read_graph(g, ranges, table),
        g.packages.dom().contains(k),
    ensures
        is_recordable(g, ranges, k),
{
    let p = g.packages[k];
    let extras = extra_specs(g, ranges);
    assert(is_read_package(g.packages, table, k));
    vstd::set_lib::lemma_set_subset_finite(
        p.declared_dependencies.dom(),
        p.dependencies.dom(),
    );
    lemma_specs(g, ranges, table, k);
    assert forall|i: int| 0 <= i < extra_list(extras, k).len() implies is_spec(
        #[trigger] extra_list(extras, k)[i],
    ) by {
        assert(table.dom().contains(extra_list(extras, k)[i]));
    }
    assert forall|n: Seq<char>| #[trigger] p.dependencies.dom().contains(n) implies {
        &&& p.declared_dependencies.dom().contains(n)
        &&& g.packages.dom().contains(p.dependencies[n])
    } by {
        assert(table.dom().contains(dep_path(n, p.declared_dependencies[n])));
    }
    let list = sorted_keys(p.dependencies.dom());
    lemma_listing(p.dependencies.dom());
    assert forall|i: int| 0 <= i < list.len() implies is_dep_name(#[trigger] list[i])
        && !rendered_range(p, list[i]).contains('\n') by {
        assert(list.contains(list[i]));
        assert(p.dependencies.dom().contains(list[i]));
        assert(p.declared_dependencies.dom().contains(list[i]));
    }
    reveal_strlit("@");
    assert(k.len() > 0);
}

/// The direct dependencies of a graph that was read are resolved by their ranges.
proof fn lemma_read_deps(content: Seq<char>, ranges: Ranges, g: LockfileGraphView)
    requires
        classic_graph(content, ranges) == Ok::<LockfileGraphView, ClassicErrorView>(g),
        are_finite(ranges),
        has_one_range(ranges),
    ensures
        g.importers.dom().contains("."@),
        g.importers["."@] == root_deps(ranges, read_table(content)),
        are_resolved(g.importers["."@], ranges, read_table(content)),
{
    let table = read_table(content);
    lemma_one_section(ranges, ranges.dependencies, table, DepType::Production);
    lemma_one_section(ranges, ranges.dev_dependencies, table, DepType::Dev);
    lemma_one_section(ranges, ranges.optional_dependencies, table, DepType::Optional);
}

/// Whether the sections of a manifest are finite.
pub open spec fn are_finite(ranges: Ranges) -> bool {
    ranges.dependencies.dom().finite() && ranges.dev_dependencies.dom().finite()
        && ranges.optional_dependencies.dom().finite()
}

proof fn lemma_one_section(
    ranges: Ranges,
    section: Map<Seq<char>, Seq<char>>,
    table: Map<Seq<char>, Seq<char>>,
    t: DepType,
)
    requires
        section.dom().finite(),
        is_section(ranges, section),
    ensures
        are_resolved(
            manifest_deps(sorted_keys(section.dom()), section, table, t),
            ranges,
            table,
        ),
{
    let list = sorted_keys(section.dom());
    lemma_listing(section.dom());
    assert forall|i: int| 0 <= i < list.len() implies section.dom().contains(
        #[trigger] list[i],
    ) by {
        assert(list.contains(list[i]));
    }
    lemma_section_deps(ranges, section, list, table, t);
}

/// A direct dependency of the graph is one of the written file.
proof fn lemma_root_kept(
    g: LockfileGraphView,
    ranges: Ranges,
    table: Map<Seq<char>, Seq<char>>,
    d: DirectDepView,
)
    requires
        is_read_graph(g, ranges, table),
        are_recordable(g, ranges),
        g.importers["."@].contains(d),
    ensures
        manifest_range(ranges, d.name) matches Some(range) && lookup(
            written_table(g, ranges),
            dep_path(d.name, range),
        ) == Some(d.dep_path),
{
    let deps = g.importers["."@];
    let i = choose|i: int| 0 <= i < deps.len() && deps[i] == d;
    assert(manifest_range(ranges, deps[i].name) is Some);
    let range = manifest_range(ranges, d.name)->0;
    let spec = dep_path(d.name, range);
    assert(lookup(table, spec) == Some(d.dep_path));
    assert(table.dom().contains(spec));
    assert(g.packages.dom().contains(d.dep_path));
    if spec != d.dep_path {
        lemma_read_keys(g.packages, table);
        assert(direct_key(g.packages, d.dep_path) == Some(d.dep_path));
        lemma_root_pairs(g.packages, ranges, deps, d, d.dep_path, range);
        let a = root_pairs(g.packages, ranges, deps);
        let b = all_declared_pairs(g.packages, sorted_keys(g.packages.dom()));
        let j = choose|j: int| 0 <= j < a.len() && a[j] == (d.dep_path, spec);
        assert((a + b)[j] == (d.dep_path, spec));
    }
    lemma_listed(g, ranges, d.dep_path, spec);
    lemma_is_table(g, ranges);
}

proof fn lemma_section_kept(
    g: LockfileGraphView,
    ranges: Ranges,
    table: Map<Seq<char>, Seq<char>>,
    section: Map<Seq<char>, Seq<char>>,
    t: DepType,
)
    requires
        is_read_graph(g, ranges, table),
        are_recordable(g, ranges),
        section.dom().finite(),
        is_section(ranges, section),
        forall|d: DirectDepView| #[trigger]
            manifest_deps(sorted_keys(section.dom()), section, table, t).contains(d)
                ==> g.importers["."@].contains(d),
    ensures
        forall|d: DirectDepView|
            manifest_deps(sorted_keys(section.dom()), section, table, t).contains(d)
                ==> #[trigger] manifest_deps(
                sorted_keys(section.dom()),
                section,
                written_table(g, ranges),
                t,
            ).contains(d),
{
    let list = sorted_keys(section.dom());
    let other = written_table(g, ranges);
    lemma_listing(section.dom());
    assert forall|i: int|
        0 <= i < list.len() && table.dom().contains(
            dep_path(#[trigger] list[i], section[list[i]]),
        ) implies lookup(other, dep_path(list[i], section[list[i]])) == lookup(
        table,
        dep_path(list[i], section[list[i]]),
    ) by {
        let n = list[i];
        let d = DirectDepView {
            name: n,
            dep_path: table[dep_path(n, section[n])],
            dep_type: t,
            specifier: None,
        };
        lemma_listed_dep(section, list, table, t, i);
        assert(manifest_deps(list, section, table, t).contains(d));
        assert(list.contains(n));
        assert(section.dom().contains(n));
        lemma_root_kept(g, ranges, table, d);
    }
    lemma_kept_deps(section, list, table, other, t);
}

proof fn lemma_listed_dep(
    section: Map<Seq<char>, Seq<char>>,
    list: Seq<Seq<char>>,
    table: Map<Seq<char>, Seq<char>>,
    t: DepType,
    i: int,
)
    requires
        0 <= i < list.len(),
        table.dom().contains(dep_path(list[i], section[list[i]])),
    ensures
        manifest_deps(list, section, table, t).contains(
            DirectDepView {
                name: list[i],
                dep_path: table[dep_path(list[i], section[list[i]])],
                dep_type: t,
                specifier: None,
            },
        ),
    decreases list.len(),
{
    let all = manifest_deps(list, section, table, t);
    let d = DirectDepView {
        name: list[i],
        dep_path: table[dep_path(list[i], section[list[i]])],
        dep_type: t,
        specifier: None,
    };
    if i == list.len() - 1 {
        assert(all[all.len() - 1] == d);
    } else {
        let front = list.drop_last();
        assert(front[i] == list[i]);
        lemma_listed_dep(section, front, table, t, i);
        let before = manifest_deps(front, section, table, t);
        let j = choose|j: int| 0 <= j < before.len() && before[j] == d;
        assert(all[j] == d);
    }
}

/// What was read from a classic lockfile comes back from the lockfile that is
/// written of it: the same packages, each with its name, version, integrity and
/// resolved dependencies, and every direct dependency.
pub proof fn law_read_graph_reads_back(content: Seq<char>, ranges: Ranges, g: LockfileGraphView)
    requires
        !is_berry_text(content),
        yarn_graph(content, ranges) == Ok::<LockfileGraphView, YarnErrorView>(g),
        are_finite(ranges),
        has_one_range(ranges),
        is_kept(g, read_table(content)),
    ensures
        yarn_graph(classic_text(g, ranges), ranges) matches Ok(h) && {
            &&& h.packages.dom() == g.packages.dom()
            &&& forall|k: Seq<char>| #[trigger]
                g.packages.dom().contains(k) ==> {
                    let (p, q) = (g.packages[k], h.packages[k]);
                    &&& q.name == p.name
                    &&& q.version == p.version
                    &&& q.integrity == p.integrity
                    &&& q.dependencies == p.dependencies
                    &&& q.dep_path == k
                }
            &&& forall|d: DirectDepView|
                g.importers["."@].contains(d) ==> #[trigger] h.importers["."@].contains(d)
        },
{
    let table = read_table(content);
    lemma_read(content, ranges, g);
    lemma_read_deps(content, ranges, g);
    lemma_told_apart(g, ranges, table);
    assert forall|k: Seq<char>| #[trigger] g.packages.dom().contains(k) implies is_recordable(
        g,
        ranges,
        k,
    ) by {
        lemma_recordable(g, ranges, table, k);
    }
    law_packages_read_back(g, ranges);
    let h = yarn_graph(classic_text(g, ranges), ranges)->Ok_0;
    assert(h.packages.dom() =~= g.packages.dom());
    lemma_roots_kept(g, ranges, table);
}

proof fn lemma_roots_kept(g: LockfileGraphView, ranges: Ranges, table: Map<Seq<char>, Seq<char>>)
    requires
        is_read_graph(g, ranges, table),
        are_recordable(g, ranges),
        are_finite(ranges),
        has_one_range(ranges),
        g.importers["."@] == root_deps(ranges, table),
    ensures
        forall|d: DirectDepView|
            g.importers["."@].contains(d) ==> #[trigger] root_deps(
                ranges,
                written_table(g, ranges),
            ).contains(d),
{
    let other = written_table(g, ranges);
    let all = root_deps(ranges, table);
    let back = root_deps(ranges, other);
    let a = manifest_deps(
        sorted_keys(ranges.dependencies.dom()),
        ranges.dependencies,
        table,
        DepType::Production,
    );
    let b = manifest_deps(
        sorted_keys(ranges.dev_dependencies.dom()),
        ranges.dev_dependencies,
        table,
        DepType::Dev,
    );
    let c = manifest_deps(
        sorted_keys(ranges.optional_dependencies.dom()),
        ranges.optional_dependencies,
        table,
        DepType::Optional,
    );
    assert(all == a + b + c);
    lemma_parts(a, b, c);
    lemma_section_kept(g, ranges, table, ranges.dependencies, DepType::Production);
    lemma_section_kept(g, ranges, table, ranges.dev_dependencies, DepType::Dev);
    lemma_section_kept(g, ranges, table, ranges.optional_dependencies, DepType::Optional);
    let a1 = manifest_deps(
        sorted_keys(ranges.dependencies.dom()),
        ranges.dependencies,
        other,
        DepType::Production,
    );
    let b1 = manifest_deps(
        sorted_keys(ranges.dev_dependencies.dom()),
        ranges.dev_dependencies,
        other,
        DepType::Dev,
    );
    let c1 = manifest_deps(
        sorted_keys(ranges.optional_dependencies.dom()),
        ranges.optional_dependencies,
        other,
        DepType::Optional,
    );
    assert(back == a1 + b1 + c1);
    lemma_parts(a1, b1, c1);
    assert forall|d: DirectDepView| all.contains(d) implies #[trigger] back.contains(d) by {
        assert(a.contains(d) || b.contains(d) || c.contains(d));
        if a.contains(d) {
            assert(a1.contains(d));
        } else if b.contains(d) {
            assert(b1.contains(d));
        } else {
            assert(c1.contains(d));
        }
    }
}

/// What three lists hold together is in one of them.
proof fn lemma_parts(a: Seq<DirectDepView>, b: Seq<DirectDepView>, c: Seq<DirectDepView>)
    ensures
        forall|d: DirectDepView| #[trigger]
            (a + b + c).contains(d) <==> a.contains(d) || b.contains(d) || c.contains(d),
{
    let all = a + b + c;
    assert forall|d: DirectDepView| #[trigger] all.contains(d) <==> a.contains(d) || b.contains(d)
        || c.contains(d) by {
        if all.contains(d) {
            let i = choose|i: int| 0 <= i < all.len() && all[i] == d;
            if i < a.len() {
                assert(a[i] == d);
            } else if i < a.len() + b.len() {
                assert(b[i - a.len()] == d);
            } else {
                assert(c[i - a.len() - b.len()] == d);
            }
        }
        if a.contains(d) {
            let i = choose|i: int| 0 <= i < a.len() && a[i] == d;
            assert(all[i] == d);
        }
        if b.contains(d) {
            let i = choose|i: int| 0 <= i < b.len() && b[i] == d;
            assert(all[a.len() + i] == d);
        }
        if c.contains(d) {
            let i = choose|i: int| 0 <= i < c.len() && c[i] == d;
            assert(all[a.len() + b.len() + i] == d);
        }
    }
}

} // verus!
