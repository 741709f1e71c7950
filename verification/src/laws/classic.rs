//! What writing and reading a classic `yarn.lock` guarantee together.
use vstd::prelude::*;
use crate::graph::{
    default_graph, default_package, DepType, DirectDepView, LockedPackageView, LockfileGraphView,
};
use crate::laws::pnpm::{is_name, lemma_of_type, lemma_separator, names, of_type};
use crate::manifest::Ranges;
use crate::pnpm::dep_path::dep_path;
use crate::strmap::{lemma_listing, lookup, sorted_keys};
use crate::text::{
    byte_len, find_char, find_white_from, indent, is_white, lemma_find_char, lemma_find_char_at,
    lemma_find_char_none, lines, split, trim, trim_end, trim_end_char, trim_start, unquoted,
};
use crate::yarn::{is_berry_text, is_metadata_line, yarn_graph, YarnErrorView};
use crate::yarn::canonical::{
    canonical, canonical_among, direct_key, edge_key, grouped, listed_for, manifest_range,
    path_index, path_keys,
};
use crate::yarn::classic::{
    all_blocks, block_alias, block_package, block_packages, block_path, blocks_of, classic_graph,
    first_wrong, header_spec, header_specs, key_value, manifest_deps, nothing_read, read_line,
    read_lines, resolved_by, root_deps, spec_name, spec_table, BlockView, ClassicErrorView,
    LineErrorView, Progress, TokenErrorView,
};
use crate::yarn::classic_write::{
    all_declared_pairs, banner, block_text, blocks_text, classic_text, declared_pairs, dep_lines,
    deps_text, extra_specs, header_text, quoted_specs, rendered_range, root_importer, root_pairs,
    Pair,
};

verus! {

/// Lines, each with a line feed behind it.
pub open spec fn unlines(ls: Seq<Seq<char>>) -> Seq<char>
    decreases ls.len(),
{
    if ls.len() == 0 {
        Seq::empty()
    } else {
        unlines(ls.drop_last()) + ls.last() + "\n"@
    }
}

proof fn lemma_unlines_concat(a: Seq<Seq<char>>, b: Seq<Seq<char>>)
    ensures
        unlines(a + b) == unlines(a) + unlines(b),
    decreases b.len(),
{
    if b.len() == 0 {
        assert(a + b =~= a);
        assert(unlines(a) + unlines(b) =~= unlines(a));
    } else {
        assert((a + b).drop_last() =~= a + b.drop_last());
        lemma_unlines_concat(a, b.drop_last());
        assert(unlines(a) + unlines(b.drop_last()) + b.last() + "\n"@ =~= unlines(a) + (unlines(
            b.drop_last(),
        ) + b.last() + "\n"@));
    }
}

proof fn lemma_unlines_one(l: Seq<char>)
    ensures
        unlines(seq![l]) == l + "\n"@,
{
    assert(seq![l].drop_last() =~= Seq::<Seq<char>>::empty());
    assert(unlines(seq![l].drop_last()) + l + "\n"@ =~= l + "\n"@);
}

/// A line without line break.
pub open spec fn is_line(l: Seq<char>) -> bool {
    !l.contains('\n') && !(l.len() > 0 && l.last() == '\r')
}

pub proof fn lemma_first_line(l: Seq<char>, rest: Seq<char>)
    requires
        is_line(l),
    ensures
        lines(l + "\n"@ + rest) == seq![l] + lines(rest),
{
    reveal_strlit("\n");
    let s = l + "\n"@ + rest;
    let k = l.len() as int;
    assert forall|j: int| 0 <= j < k implies s[j] != '\n' by {
        assert(s[j] == l[j]);
        assert(l.contains(l[j]));
    }
    assert(s[k] == '\n');
    lemma_find_char_at(s, '\n', k);
    assert(s.take(k) =~= l);
    assert(s.skip(k + 1) =~= rest);
}

pub proof fn lemma_lines(ls: Seq<Seq<char>>)
    requires
        forall|i: int| 0 <= i < ls.len() ==> is_line(#[trigger] ls[i]),
    ensures
        lines(unlines(ls)) == ls,
    decreases ls.len(),
{
    if ls.len() == 0 {
        lemma_find_char_none(unlines(ls), '\n');
        assert(lines(unlines(ls)) =~= ls);
    } else {
        let rest = ls.drop_first();
        assert forall|i: int| 0 <= i < rest.len() implies is_line(#[trigger] rest[i]) by {
            assert(rest[i] == ls[i + 1]);
        }
        lemma_lines(rest);
        assert(ls =~= seq![ls[0]] + rest);
        lemma_unlines_concat(seq![ls[0]], rest);
        lemma_unlines_one(ls[0]);
        assert(is_line(ls[0]));
        lemma_first_line(ls[0], unlines(rest));
    }
}

/// What is known after some lines.
spec fn run(p: Progress, ls: Seq<Seq<char>>) -> Result<Progress, LineErrorView>
    decreases ls.len(),
{
    if ls.len() == 0 {
        Ok(p)
    } else {
        match run(p, ls.drop_last()) {
            Ok(q) => read_line(q, ls.last()),
            Err(e) => Err(e),
        }
    }
}

proof fn lemma_run_concat(p: Progress, a: Seq<Seq<char>>, q: Progress, b: Seq<Seq<char>>)
    requires
        run(p, a) == Ok::<Progress, LineErrorView>(q),
    ensures
        run(p, a + b) == run(q, b),
    decreases b.len(),
{
    if b.len() == 0 {
        assert(a + b =~= a);
    } else {
        assert((a + b).drop_last() =~= a + b.drop_last());
        lemma_run_concat(p, a, q, b.drop_last());
    }
}

proof fn lemma_run_one(p: Progress, l: Seq<char>)
    ensures
        run(p, seq![l]) == read_line(p, l),
{
    reveal_with_fuel(run, 2);
    assert(seq![l].drop_last() =~= Seq::<Seq<char>>::empty());
}

proof fn lemma_run_lines(all: Seq<Seq<char>>, n: int, q: Progress)
    requires
        0 <= n <= all.len(),
        run(nothing_read(), all.take(n)) == Ok::<Progress, LineErrorView>(q),
    ensures
        read_lines(all, n) == Ok::<Progress, TokenErrorView>(q),
    decreases n,
{
    if n > 0 {
        assert(all.take(n).drop_last() =~= all.take(n - 1));
        let before = run(nothing_read(), all.take(n - 1))->Ok_0;
        lemma_run_lines(all, n - 1, before);
    }
}

/// A text in double quotes.
spec fn quoted(s: Seq<char>) -> Seq<char> {
    "\""@ + s + "\""@
}

proof fn lemma_quoted(s: Seq<char>)
    ensures
        quoted(s).len() == s.len() + 2,
        quoted(s)[0] == '"',
        quoted(s).last() == '"',
        trim(quoted(s)) == quoted(s),
        unquoted(quoted(s)) == s,
{
    reveal_strlit("\"");
    let q = quoted(s);
    assert(q.last() == '"');
    assert(trim_end(q) == q);
    assert(q.subrange(1, q.len() - 1) =~= s);
}

proof fn lemma_split_snoc(a: Seq<char>, b: Seq<char>, c: char)
    requires
        !b.contains(c),
    ensures
        split(a.push(c) + b, c) == split(a, c).push(b),
    decreases a.len(),
{
    let s = a.push(c) + b;
    lemma_find_char(a, c);
    match find_char(a, c) {
        Some(i) => {
            assert forall|j: int| 0 <= j < i implies s[j] != c by {
                assert(s[j] == a[j]);
            }
            assert(s[i] == a[i]);
            lemma_find_char_at(s, c, i);
            let rest = a.skip(i + 1);
            lemma_split_snoc(rest, b, c);
            assert(s.take(i) =~= a.take(i));
            assert(s.skip(i + 1) =~= rest.push(c) + b);
            assert(split(s, c) =~= split(a, c).push(b));
        },
        None => {
            let k = a.len() as int;
            assert forall|j: int| 0 <= j < k implies s[j] != c by {
                assert(s[j] == a[j]);
            }
            lemma_find_char_at(s, c, k);
            assert(s.take(k) =~= a);
            assert(s.skip(k + 1) =~= b);
            lemma_find_char_none(b, c);
            assert(split(b, c) == seq![b]);
            assert(split(a, c) == seq![a]);
            assert(split(s, c) == seq![a] + split(b, c));
        },
    }
}

/// The specifiers of a header.
spec fn header_list(key: Seq<char>, specs: Seq<Seq<char>>) -> Seq<Seq<char>> {
    seq![key] + specs
}

/// A specifier that a header can hold.
pub open spec fn is_spec(s: Seq<char>) -> bool {
    s.len() > 0 && !s.contains(',') && !s.contains('\n')
}

proof fn lemma_header_pieces(key: Seq<char>, specs: Seq<Seq<char>>)
    requires
        is_spec(key),
        forall|i: int| 0 <= i < specs.len() ==> is_spec(#[trigger] specs[i]),
    ensures
        ({
            let h = quoted(key) + quoted_specs(specs);
            &&& h.len() >= 2
            &&& h[0] == '"'
            &&& h.last() == '"'
            &&& !h.contains('\n')
            &&& split(h, ',').map_values(|p: Seq<char>| header_spec(p)) == header_list(key, specs)
        }),
    decreases specs.len(),
{
    let h = quoted(key) + quoted_specs(specs);
    reveal_strlit("\"");
    reveal_strlit(", \"");
    lemma_quoted(key);
    if specs.len() == 0 {
        assert(h =~= quoted(key));
        assert(!h.contains(',')) by {
            assert forall|i: int| 0 <= i < h.len() implies h[i] != ',' && h[i] != '\n' by {
                if 1 <= i < h.len() - 1 {
                    assert(h[i] == key[i - 1]);
                    assert(key.contains(key[i - 1]));
                }
            }
        }
        assert(!h.contains('\n')) by {
            assert forall|i: int| 0 <= i < h.len() implies h[i] != '\n' by {
                if 1 <= i < h.len() - 1 {
                    assert(h[i] == key[i - 1]);
                    assert(key.contains(key[i - 1]));
                }
            }
        }
        lemma_find_char_none(h, ',');
        assert(split(h, ',') =~= seq![h]);
        assert(split(h, ',').map_values(|p: Seq<char>| header_spec(p)) =~= header_list(
            key,
            specs,
        ));
    } else {
        let front = specs.drop_last();
        let last = specs.last();
        assert(is_spec(specs[specs.len() - 1]));
        assert forall|i: int| 0 <= i < front.len() implies is_spec(#[trigger] front[i]) by {
            assert(front[i] == specs[i]);
        }
        lemma_header_pieces(key, front);
        lemma_quoted(last);
        let a = quoted(key) + quoted_specs(front);
        let b = seq![' '] + quoted(last);
        assert(h =~= a.push(',') + b);
        assert forall|i: int| 0 <= i < b.len() implies b[i] != ',' && b[i] != '\n' by {
            if 2 <= i < b.len() - 1 {
                assert(b[i] == last[i - 2]);
                assert(last.contains(last[i - 2]));
            }
        }
        assert(!h.contains('\n')) by {
            assert forall|i: int| 0 <= i < h.len() implies h[i] != '\n' by {
                if i < a.len() {
                    assert(h[i] == a[i]);
                    assert(a.contains(a[i]));
                } else if i > a.len() {
                    assert(h[i] == b[i - a.len() - 1]);
                }
            }
        }
        lemma_split_snoc(a, b, ',');
        assert(header_spec(b) == last) by {
            assert(trim_end(b) == b);
            assert(b.drop_first() =~= quoted(last));
            assert(trim_start(quoted(last)) == quoted(last));
        }
        let f = |p: Seq<char>| header_spec(p);
        assert(split(h, ',') == split(a, ',').push(b));
        assert(split(a, ',').push(b).map_values(f) =~= split(a, ',').map_values(f).push(f(b)));
        assert(header_list(key, front).push(last) =~= header_list(key, specs));
    }
}

/// The header line of a block.
spec fn header_line(key: Seq<char>, specs: Seq<Seq<char>>) -> Seq<char> {
    (quoted(key) + quoted_specs(specs)).push(':')
}

/// A block of which only the header is known.
spec fn fresh_block(key: Seq<char>, specs: Seq<Seq<char>>) -> BlockView {
    BlockView { specs: header_list(key, specs), fields: Map::empty(), dependencies: Map::empty() }
}

proof fn lemma_no_indent(l: Seq<char>)
    requires
        l.len() > 0,
        !is_white(l[0]),
    ensures
        trim_start(l) == l,
        indent(l) == 0,
{
    assert(l.take(0).len() == 0);
}

/// A line that starts with a quote or a comment sign does not mark the other
/// format.
proof fn lemma_not_metadata(l: Seq<char>)
    requires
        l.len() > 0,
        l[0] == '"' || l[0] == '#',
    ensures
        !is_metadata_line(l),
{
    reveal_strlit("__metadata:");
    assert(trim_start(l) == l);
    if "__metadata:"@.is_prefix_of(l) {
        assert(l[0] == "__metadata:"@[0]);
    }
}

proof fn lemma_read_header(p: Progress, key: Seq<char>, specs: Seq<Seq<char>>)
    requires
        is_spec(key),
        forall|i: int| 0 <= i < specs.len() ==> is_spec(#[trigger] specs[i]),
    ensures
        is_classic_line(header_line(key, specs)),
        read_line(p, header_line(key, specs)) == Ok::<Progress, LineErrorView>(
            Progress {
                blocks: all_blocks(p),
                current: Some(fresh_block(key, specs)),
                in_deps: false,
            },
        ),
{
    lemma_header_pieces(key, specs);
    let h = quoted(key) + quoted_specs(specs);
    let line = header_line(key, specs);
    assert(line.last() == ':');
    assert(line[0] == h[0]);
    assert(trim_end(line) == line);
    lemma_no_indent(line);
    assert(line.drop_last() =~= h);
    assert(trim_end_char(line, ':') == trim_end_char(h, ':'));
    assert(trim_end_char(h, ':') == h);
    assert(trim(h) == h);
    lemma_not_metadata(line);
    let list = header_list(key, specs);
    assert forall|i: int| 0 <= i < list.len() implies (#[trigger] list[i]).len() > 0 by {
        if i > 0 {
            assert(list[i] == specs[i - 1]);
        }
    }
    assert(header_specs(h) == Some(list));
    assert(!line.contains('\n')) by {
        assert forall|i: int| 0 <= i < line.len() implies line[i] != '\n' by {
            if i < h.len() {
                assert(h.contains(h[i]));
            }
        }
    }
}

proof fn lemma_indent_two(rest: Seq<char>)
    requires
        rest.len() > 0,
        !is_white(rest[0]),
    ensures
        trim_start("  "@ + rest) == rest,
        indent("  "@ + rest) == 2,
{
    reveal_strlit("  ");
    let l = "  "@ + rest;
    let one = l.drop_first();
    assert(one.drop_first() =~= rest);
    assert(trim_start(l) == trim_start(one));
    assert(trim_start(one) == trim_start(rest));
    assert(trim_start(rest) == rest);
    let pad = l.take(2);
    assert(l.len() - rest.len() == 2);
    reveal_with_fuel(byte_len, 3);
    assert(pad[0] == ' ' && pad[1] == ' ');
    assert(byte_len(pad) == 2);
}

proof fn lemma_indent_four(rest: Seq<char>)
    requires
        rest.len() > 0,
        !is_white(rest[0]),
    ensures
        trim_start("    "@ + rest) == rest,
        indent("    "@ + rest) == 4,
{
    reveal_strlit("    ");
    let l = "    "@ + rest;
    let a = l.drop_first();
    let b = a.drop_first();
    let c = b.drop_first();
    assert(c.drop_first() =~= rest);
    assert(trim_start(l) == trim_start(a));
    assert(trim_start(a) == trim_start(b));
    assert(trim_start(b) == trim_start(c));
    assert(trim_start(c) == trim_start(rest));
    assert(trim_start(rest) == rest);
    let pad = l.take(4);
    assert(l.len() - rest.len() == 4);
    reveal_with_fuel(byte_len, 5);
    assert(pad[0] == ' ' && pad[1] == ' ' && pad[2] == ' ' && pad[3] == ' ');
    assert(byte_len(pad) == 4);
}

/// A text without white space that does not start like a comment.
pub open spec fn is_word(s: Seq<char>) -> bool {
    s.len() > 0 && s[0] != '#' && forall|i: int| 0 <= i < s.len() ==> !is_white(#[trigger] s[i])
}

/// A word that a dependency line can start with.
pub open spec fn is_dep_name(s: Seq<char>) -> bool {
    is_word(s) && !"__metadata:"@.is_prefix_of(s)
}

/// A value that needs no quotes.
pub open spec fn is_bare(s: Seq<char>) -> bool {
    s.len() > 0 && !is_white(s[0]) && !is_white(s.last()) && s.last() != ':' && !s.contains('\n')
        && unquoted(s) == s
}

proof fn lemma_find_white(name: Seq<char>, rest: Seq<char>, from: int)
    requires
        is_word(name),
        0 <= from <= name.len(),
    ensures
        find_white_from(name + " "@ + rest, from) == Some(name.len() as int),
    decreases name.len() - from,
{
    reveal_strlit(" ");
    let s = name + " "@ + rest;
    if from < name.len() {
        assert(s[from] == name[from]);
        lemma_find_white(name, rest, from + 1);
    } else {
        assert(s[from] == ' ');
    }
}

/// A key and a value on one line.
spec fn pair(name: Seq<char>, value: Seq<char>) -> Seq<char> {
    name + " "@ + value
}

proof fn lemma_pair(name: Seq<char>, value: Seq<char>)
    requires
        is_word(name),
        value.len() > 0,
        !is_white(value[0]),
        !is_white(value.last()),
    ensures
        pair(name, value).len() > 0,
        pair(name, value)[0] == name[0],
        pair(name, value).last() == value.last(),
        key_value(pair(name, value)) == Some((name, unquoted(value))),
{
    reveal_strlit(" ");
    let body = pair(name, value);
    lemma_find_white(name, value, 0);
    let n = name.len() as int;
    assert(body.take(n) =~= name);
    assert(body.skip(n + 1) =~= value);
    assert(trim(value) == value);
}

proof fn lemma_line(pad: Seq<char>, body: Seq<char>)
    requires
        body.len() > 0,
        !is_white(body.last()),
        !body.contains('\n'),
        !pad.contains('\n'),
    ensures
        trim_end(pad + body) == pad + body,
        is_line(pad + body),
{
    let l = pad + body;
    assert(l.last() == body.last());
    assert forall|i: int| 0 <= i < l.len() implies l[i] != '\n' by {
        if i < pad.len() {
            assert(pad.contains(pad[i]));
        } else {
            assert(body.contains(body[i - pad.len()]));
        }
    }
}

proof fn lemma_no_newline(name: Seq<char>, value: Seq<char>)
    requires
        is_word(name),
        !value.contains('\n'),
    ensures
        !pair(name, value).contains('\n'),
{
    reveal_strlit(" ");
    let body = pair(name, value);
    assert forall|i: int| 0 <= i < body.len() implies body[i] != '\n' by {
        if i < name.len() {
            assert(body[i] == name[i]);
        } else if i > name.len() {
            assert(body[i] == value[i - name.len() - 1]);
            assert(value.contains(value[i - name.len() - 1]));
        }
    }
}

proof fn lemma_pair_not_metadata(name: Seq<char>, value: Seq<char>)
    requires
        !"__metadata:"@.is_prefix_of(name),
    ensures
        !"__metadata:"@.is_prefix_of(pair(name, value)),
{
    reveal_strlit("__metadata:");
    reveal_strlit(" ");
    let m = "__metadata:"@;
    let body = pair(name, value);
    if m.is_prefix_of(body) {
        if name.len() < m.len() {
            assert(body[name.len() as int] == ' ');
            assert(body[name.len() as int] == m[name.len() as int]);
        } else {
            assert(name.take(m.len() as int) =~= body.take(m.len() as int));
        }
    }
}

/// A field of a block.
proof fn lemma_read_field(p: Progress, block: BlockView, name: Seq<char>, value: Seq<char>)
    requires
        p.current == Some(block),
        is_word(name),
        value.len() > 0,
        !is_white(value[0]),
        !is_white(value.last()),
        value.last() != ':',
        !value.contains('\n'),
        !"__metadata:"@.is_prefix_of(name),
    ensures
        is_classic_line("  "@ + pair(name, value)),
        read_line(p, "  "@ + pair(name, value)) == Ok::<Progress, LineErrorView>(
            Progress {
                current: Some(
                    BlockView { fields: block.fields.insert(name, unquoted(value)), ..block },
                ),
                in_deps: false,
                ..p
            },
        ),
{
    let body = pair(name, value);
    lemma_pair(name, value);
    lemma_no_newline(name, value);
    lemma_pair_not_metadata(name, value);
    lemma_indent_two(body);
    assert(!"  "@.contains('\n')) by {
        reveal_strlit("  ");
    }
    lemma_line("  "@, body);
}

/// A dependency of a block.
proof fn lemma_read_dep(p: Progress, block: BlockView, name: Seq<char>, value: Seq<char>)
    requires
        p.current == Some(block),
        p.in_deps,
        is_word(name),
        value.len() > 0,
        !is_white(value[0]),
        !is_white(value.last()),
        !value.contains('\n'),
        !"__metadata:"@.is_prefix_of(name),
    ensures
        is_classic_line("    "@ + pair(name, value)),
        read_line(p, "    "@ + pair(name, value)) == Ok::<Progress, LineErrorView>(
            Progress {
                current: Some(
                    BlockView {
                        dependencies: block.dependencies.insert(name, unquoted(value)),
                        ..block
                    },
                ),
                ..p
            },
        ),
{
    let body = pair(name, value);
    lemma_pair(name, value);
    lemma_no_newline(name, value);
    lemma_pair_not_metadata(name, value);
    lemma_indent_four(body);
    assert(!"    "@.contains('\n')) by {
        reveal_strlit("    ");
    }
    lemma_line("    "@, body);
}

/// The header of the dependencies of a block.
proof fn lemma_read_deps_header(p: Progress, block: BlockView)
    requires
        p.current == Some(block),
    ensures
        is_classic_line("  dependencies:"@),
        read_line(p, "  dependencies:"@) == Ok::<Progress, LineErrorView>(
            Progress { in_deps: true, ..p },
        ),
{
    reveal_strlit("  dependencies:");
    reveal_strlit("dependencies");
    reveal_strlit("  ");
    let body = "dependencies"@.push(':');
    assert("  dependencies:"@ =~= "  "@ + body);
    lemma_indent_two(body);
    assert(!"__metadata:"@.is_prefix_of(body)) by {
        reveal_strlit("__metadata:");
        if "__metadata:"@.is_prefix_of(body) {
            assert(body[0] == "__metadata:"@[0]);
        }
    }
    assert forall|i: int| 0 <= i < body.len() implies body[i] != '\n' by {
    }
    lemma_line("  "@, body);
    assert(body.drop_last() =~= "dependencies"@);
    assert(trim_end_char(body, ':') == trim_end_char("dependencies"@, ':'));
    assert(trim_end_char("dependencies"@, ':') == "dependencies"@);
    assert(trim("dependencies"@) == "dependencies"@);
}

proof fn lemma_read_blank(p: Progress)
    ensures
        is_classic_line(Seq::empty()),
        read_line(p, Seq::empty()) == Ok::<Progress, LineErrorView>(p),
{
    reveal_strlit("__metadata:");
}

/// Packages by `name@version`.
pub type Packages = Map<Seq<char>, LockedPackageView>;

/// Specifiers by package.
pub type Specs = Map<Seq<char>, Set<Seq<char>>>;

/// The specifiers of a block besides `name@version`.
pub open spec fn extra_list(extras: Specs, key: Seq<char>) -> Seq<Seq<char>> {
    match lookup(extras, key) {
        Some(specs) => sorted_keys(specs),
        None => Seq::empty(),
    }
}

/// The dependencies with the given names that a block records.
pub open spec fn recorded_deps(packages: Packages, pkg: LockedPackageView, names: Seq<Seq<char>>) -> Map<
    Seq<char>,
    Seq<char>,
>
    decreases names.len(),
{
    if names.len() == 0 {
        Map::empty()
    } else {
        let before = recorded_deps(packages, pkg, names.drop_last());
        let name = names.last();
        if edge_key(packages, name, pkg.dependencies[name]) is Some {
            before.insert(name, rendered_range(pkg, name))
        } else {
            before
        }
    }
}

/// The fields of a block.
pub open spec fn recorded_fields(pkg: LockedPackageView) -> Map<Seq<char>, Seq<char>> {
    let version = Map::<Seq<char>, Seq<char>>::empty().insert("version"@, pkg.version);
    match pkg.integrity {
        Some(i) => version.insert("integrity"@, i),
        None => version,
    }
}

/// The block of a package.
pub open spec fn recorded_block(packages: Packages, extras: Specs, key: Seq<char>) -> BlockView {
    let pkg = packages[key];
    BlockView {
        specs: seq![key] + extra_list(extras, key),
        fields: recorded_fields(pkg),
        dependencies: recorded_deps(packages, pkg, sorted_keys(pkg.dependencies.dom())),
    }
}

/// A package whose texts a classic lockfile can hold.
pub open spec fn is_writable(packages: Packages, extras: Specs, key: Seq<char>) -> bool {
    let pkg = packages[key];
    &&& is_spec(key)
    &&& forall|i: int| 0 <= i < extra_list(extras, key).len() ==> is_spec(
        #[trigger] extra_list(extras, key)[i],
    )
    &&& !pkg.version.contains('\n')
    &&& pkg.integrity matches Some(i) ==> is_bare(i)
    &&& forall|i: int|
        0 <= i < sorted_keys(pkg.dependencies.dom()).len() ==> is_dep_name(
            #[trigger] sorted_keys(pkg.dependencies.dom())[i],
        ) && !rendered_range(pkg, sorted_keys(pkg.dependencies.dom())[i]).contains('\n')
}

spec fn dep_line(pkg: LockedPackageView, name: Seq<char>) -> Seq<char> {
    "    "@ + pair(name, quoted(rendered_range(pkg, name)))
}

spec fn dep_line_list(packages: Packages, pkg: LockedPackageView, names: Seq<Seq<char>>) -> Seq<
    Seq<char>,
>
    decreases names.len(),
{
    if names.len() == 0 {
        Seq::empty()
    } else {
        let before = dep_line_list(packages, pkg, names.drop_last());
        let name = names.last();
        if edge_key(packages, name, pkg.dependencies[name]) is Some {
            before.push(dep_line(pkg, name))
        } else {
            before
        }
    }
}

proof fn lemma_dep_lines(packages: Packages, pkg: LockedPackageView, names: Seq<Seq<char>>)
    ensures
        dep_lines(packages, pkg, names) == unlines(dep_line_list(packages, pkg, names)),
    decreases names.len(),
{
    if names.len() > 0 {
        lemma_dep_lines(packages, pkg, names.drop_last());
        let name = names.last();
        let before = dep_line_list(packages, pkg, names.drop_last());
        if edge_key(packages, name, pkg.dependencies[name]) is Some {
            let range = rendered_range(pkg, name);
            assert(before.push(dep_line(pkg, name)).drop_last() =~= before);
            assert(unlines(before) + "    "@ + name + " \""@ + range + "\"\n"@ =~= unlines(before)
                + dep_line(pkg, name) + "\n"@) by {
                reveal_strlit(" \"");
                reveal_strlit("\"\n");
                reveal_strlit(" ");
                reveal_strlit("\"");
                reveal_strlit("\n");
            }
        }
    }
}

/// The lines of the dependencies of a block.
spec fn deps_list(packages: Packages, pkg: LockedPackageView) -> Seq<Seq<char>> {
    let list = dep_line_list(packages, pkg, sorted_keys(pkg.dependencies.dom()));
    if list.len() == 0 {
        list
    } else {
        seq!["  dependencies:"@] + list
    }
}

spec fn version_line(pkg: LockedPackageView) -> Seq<char> {
    "  "@ + pair("version"@, quoted(pkg.version))
}

spec fn integrity_list(pkg: LockedPackageView) -> Seq<Seq<char>> {
    match pkg.integrity {
        Some(i) => seq!["  "@ + pair("integrity"@, i)],
        None => Seq::empty(),
    }
}

/// The lines of a block.
spec fn block_lines(packages: Packages, extras: Specs, key: Seq<char>) -> Seq<Seq<char>> {
    let pkg = packages[key];
    seq![header_line(key, extra_list(extras, key))] + seq![version_line(pkg)] + integrity_list(pkg)
        + deps_list(packages, pkg) + seq![Seq::<char>::empty()]
}

proof fn lemma_deps_text(packages: Packages, pkg: LockedPackageView)
    ensures
        deps_text(packages, pkg) == unlines(deps_list(packages, pkg)),
{
    let names = sorted_keys(pkg.dependencies.dom());
    let list = dep_line_list(packages, pkg, names);
    lemma_dep_lines(packages, pkg, names);
    if list.len() > 0 {
        reveal_strlit("\n");
        assert(unlines(list).len() > 0);
        lemma_unlines_concat(seq!["  dependencies:"@], list);
        lemma_unlines_one("  dependencies:"@);
        assert("  dependencies:\n"@ =~= "  dependencies:"@ + "\n"@) by {
            reveal_strlit("  dependencies:\n");
            reveal_strlit("  dependencies:");
        }
    }
}

proof fn lemma_version_text(pkg: LockedPackageView)
    ensures
        "  version \""@ + pkg.version + "\"\n"@ == version_line(pkg) + "\n"@,
{
    reveal_strlit("  version \"");
    reveal_strlit("\"\n");
    reveal_strlit("  ");
    reveal_strlit("version");
    reveal_strlit(" ");
    reveal_strlit("\"");
    reveal_strlit("\n");
    assert("  version \""@ =~= "  "@ + "version"@ + " "@ + "\""@);
    assert("  version \""@ + pkg.version + "\"\n"@ =~= version_line(pkg) + "\n"@);
}

proof fn lemma_integrity_text(pkg: LockedPackageView)
    ensures
        (match pkg.integrity {
            Some(i) => "  integrity "@ + i + "\n"@,
            None => Seq::empty(),
        }) == unlines(integrity_list(pkg)),
{
    if let Some(i) = pkg.integrity {
        lemma_unlines_one("  "@ + pair("integrity"@, i));
        reveal_strlit("  integrity ");
        reveal_strlit("  ");
        reveal_strlit("integrity");
        reveal_strlit(" ");
        assert("  integrity "@ =~= "  "@ + "integrity"@ + " "@);
        assert("  integrity "@ + i =~= "  "@ + pair("integrity"@, i));
    }
}

proof fn lemma_header_text(key: Seq<char>, extras: Specs)
    ensures
        header_text(key, extras) == header_line(key, extra_list(extras, key)) + "\n"@,
{
    reveal_strlit(":\n");
    reveal_strlit("\n");
    let h = quoted(key) + quoted_specs(extra_list(extras, key));
    assert(h + ":\n"@ =~= h.push(':') + "\n"@);
    assert(header_text(key, extras) =~= h + ":\n"@);
}

proof fn lemma_block_text(packages: Packages, extras: Specs, key: Seq<char>)
    ensures
        block_text(packages, extras, key) == unlines(block_lines(packages, extras, key)),
{
    let pkg = packages[key];
    let a = seq![header_line(key, extra_list(extras, key))];
    let b = seq![version_line(pkg)];
    let c = integrity_list(pkg);
    let d = deps_list(packages, pkg);
    let e = seq![Seq::<char>::empty()];
    lemma_header_text(key, extras);
    lemma_unlines_one(a[0]);
    lemma_version_text(pkg);
    lemma_unlines_one(b[0]);
    lemma_integrity_text(pkg);
    lemma_deps_text(packages, pkg);
    lemma_unlines_one(e[0]);
    assert(Seq::<char>::empty() + "\n"@ =~= "\n"@);
    lemma_unlines_concat(a, b);
    lemma_unlines_concat(a + b, c);
    lemma_unlines_concat(a + b + c, d);
    lemma_unlines_concat(a + b + c + d, e);
    let v = "  version \""@;
    let w = "\"\n"@;
    assert(unlines(a) + v + pkg.version + w =~= unlines(a) + (v + pkg.version + w));
}

proof fn lemma_run_deps(
    p: Progress,
    block: BlockView,
    packages: Packages,
    pkg: LockedPackageView,
    names: Seq<Seq<char>>,
)
    requires
        p.current == Some(block),
        p.in_deps,
        block.dependencies == Map::<Seq<char>, Seq<char>>::empty(),
        forall|i: int|
            0 <= i < names.len() ==> is_dep_name(#[trigger] names[i]) && !rendered_range(
                pkg,
                names[i],
            ).contains('\n'),
    ensures
        run(p, dep_line_list(packages, pkg, names)) == Ok::<Progress, LineErrorView>(
            Progress {
                current: Some(
                    BlockView { dependencies: recorded_deps(packages, pkg, names), ..block },
                ),
                ..p
            },
        ),
        forall|i: int|
            0 <= i < dep_line_list(packages, pkg, names).len() ==> is_classic_line(
                #[trigger] dep_line_list(packages, pkg, names)[i],
            ),
    decreases names.len(),
{
    if names.len() > 0 {
        let front = names.drop_last();
        let name = names[names.len() - 1];
        assert forall|i: int| 0 <= i < front.len() implies is_dep_name(#[trigger] front[i])
            && !rendered_range(pkg, front[i]).contains('\n') by {
            assert(front[i] == names[i]);
        }
        lemma_run_deps(p, block, packages, pkg, front);
        assert(is_dep_name(name));
        let before = dep_line_list(packages, pkg, front);
        if edge_key(packages, name, pkg.dependencies[name]) is Some {
            let range = rendered_range(pkg, name);
            let q = run(p, before)->Ok_0;
            lemma_quoted(range);
            lemma_quoted_line(range);
            lemma_read_dep(q, q.current->0, name, quoted(range));
            assert(before.push(dep_line(pkg, name)).drop_last() =~= before);
        }
    }
}

proof fn lemma_quoted_line(s: Seq<char>)
    requires
        !s.contains('\n'),
    ensures
        !quoted(s).contains('\n'),
{
    reveal_strlit("\"");
    let q = quoted(s);
    assert forall|i: int| 0 <= i < q.len() implies q[i] != '\n' by {
        if 1 <= i < q.len() - 1 {
            assert(q[i] == s[i - 1]);
            assert(s.contains(s[i - 1]));
        }
    }
}

/// A line that does not mark the other format.
spec fn is_classic_line(l: Seq<char>) -> bool {
    is_line(l) && !is_metadata_line(l)
}

/// All of some lines are lines of a classic lockfile.
spec fn are_lines(ls: Seq<Seq<char>>) -> bool {
    forall|i: int| 0 <= i < ls.len() ==> is_classic_line(#[trigger] ls[i])
}

proof fn lemma_are_lines(a: Seq<Seq<char>>, b: Seq<Seq<char>>)
    requires
        are_lines(a),
        are_lines(b),
    ensures
        are_lines(a + b),
{
    assert forall|i: int| 0 <= i < (a + b).len() implies is_classic_line(
        #[trigger] (a + b)[i],
    ) by {
        if i < a.len() {
            assert((a + b)[i] == a[i]);
        } else {
            assert((a + b)[i] == b[i - a.len()]);
        }
    }
}

/// The lines of a block but for the last, and what is known after them.
proof fn lemma_run_head(p: Progress, packages: Packages, extras: Specs, key: Seq<char>) -> (q:
    Progress)
    requires
        is_writable(packages, extras, key),
    ensures
        ({
            let pkg = packages[key];
            let ls = seq![header_line(key, extra_list(extras, key))] + seq![version_line(pkg)]
                + integrity_list(pkg);
            &&& run(p, ls) == Ok::<Progress, LineErrorView>(q)
            &&& are_lines(ls)
        }),
        q == (Progress {
            blocks: all_blocks(p),
            current: Some(
                BlockView {
                    specs: seq![key] + extra_list(extras, key),
                    fields: recorded_fields(packages[key]),
                    dependencies: Map::empty(),
                },
            ),
            in_deps: false,
        }),
{
    let pkg = packages[key];
    let specs = extra_list(extras, key);
    let a = seq![header_line(key, specs)];
    let b = seq![version_line(pkg)];
    let c = integrity_list(pkg);
    lemma_read_header(p, key, specs);
    lemma_run_one(p, header_line(key, specs));
    let p1 = run(p, a)->Ok_0;
    lemma_quoted(pkg.version);
    lemma_quoted_line(pkg.version);
    assert(is_dep_name("version"@)) by {
        reveal_strlit("version");
        reveal_strlit("__metadata:");
        assert("__metadata:"@.len() > "version"@.len());
    }
    assert(is_dep_name("integrity"@)) by {
        reveal_strlit("integrity");
        reveal_strlit("__metadata:");
        assert("__metadata:"@.len() > "integrity"@.len());
    }
    lemma_read_field(p1, fresh_block(key, specs), "version"@, quoted(pkg.version));
    lemma_run_one(p1, version_line(pkg));
    lemma_run_concat(p, a, p1, b);
    let p2 = run(p, a + b)->Ok_0;
    lemma_are_lines(a, b);
    match pkg.integrity {
        Some(i) => {
            lemma_read_field(p2, p2.current->0, "integrity"@, i);
            lemma_run_one(p2, "  "@ + pair("integrity"@, i));
        },
        None => {},
    }
    lemma_run_concat(p, a + b, p2, c);
    lemma_are_lines(a + b, c);
    run(p, a + b + c)->Ok_0
}

proof fn lemma_run_block(p: Progress, packages: Packages, extras: Specs, key: Seq<char>) -> (q:
    Progress)
    requires
        is_writable(packages, extras, key),
    ensures
        run(p, block_lines(packages, extras, key)) == Ok::<Progress, LineErrorView>(q),
        are_lines(block_lines(packages, extras, key)),
        all_blocks(q) == all_blocks(p).push(recorded_block(packages, extras, key)),
{
    let pkg = packages[key];
    let head = seq![header_line(key, extra_list(extras, key))] + seq![version_line(pkg)]
        + integrity_list(pkg);
    let p1 = lemma_run_head(p, packages, extras, key);
    let block = p1.current->0;
    let names = sorted_keys(pkg.dependencies.dom());
    let list = dep_line_list(packages, pkg, names);
    let d = deps_list(packages, pkg);
    let deps_header = seq!["  dependencies:"@];
    lemma_read_deps_header(p1, block);
    lemma_run_one(p1, "  dependencies:"@);
    let p2 = Progress { in_deps: true, ..p1 };
    lemma_run_deps(p2, block, packages, pkg, names);
    let p3 = if list.len() == 0 {
        p1
    } else {
        run(p2, list)->Ok_0
    };
    if list.len() == 0 {
        assert(recorded_deps(packages, pkg, names) == Map::<Seq<char>, Seq<char>>::empty());
    } else {
        lemma_run_concat(p1, deps_header, p2, list);
        lemma_are_lines(deps_header, list);
    }
    assert(run(p1, d) == Ok::<Progress, LineErrorView>(p3));
    lemma_run_concat(p, head, p1, d);
    lemma_are_lines(head, d);
    let blank = seq![Seq::<char>::empty()];
    lemma_read_blank(p3);
    lemma_run_one(p3, Seq::empty());
    lemma_run_concat(p, head + d, p3, blank);
    lemma_are_lines(head + d, blank);
    p3
}

/// The lines of the blocks under the given keys.
spec fn file_lines(packages: Packages, extras: Specs, keys: Seq<Seq<char>>) -> Seq<Seq<char>>
    decreases keys.len(),
{
    if keys.len() == 0 {
        Seq::empty()
    } else {
        file_lines(packages, extras, keys.drop_last()) + block_lines(packages, extras, keys.last())
    }
}

/// The blocks of the packages under the given keys.
pub open spec fn recorded_blocks(packages: Packages, extras: Specs, keys: Seq<Seq<char>>) -> Seq<
    BlockView,
> {
    keys.map_values(|k: Seq<char>| recorded_block(packages, extras, k))
}

proof fn lemma_run_file(p: Progress, packages: Packages, extras: Specs, keys: Seq<Seq<char>>) -> (q:
    Progress)
    requires
        forall|i: int| 0 <= i < keys.len() ==> is_writable(packages, extras, #[trigger] keys[i]),
    ensures
        blocks_text(packages, extras, keys) == unlines(file_lines(packages, extras, keys)),
        are_lines(file_lines(packages, extras, keys)),
        run(p, file_lines(packages, extras, keys)) == Ok::<Progress, LineErrorView>(q),
        all_blocks(q) == all_blocks(p) + recorded_blocks(packages, extras, keys),
    decreases keys.len(),
{
    if keys.len() == 0 {
        assert(all_blocks(p) + recorded_blocks(packages, extras, keys) =~= all_blocks(p));
        p
    } else {
        let front = keys.drop_last();
        let last = keys[keys.len() - 1];
        assert forall|i: int| 0 <= i < front.len() implies is_writable(
            packages,
            extras,
            #[trigger] front[i],
        ) by {
            assert(front[i] == keys[i]);
        }
        let p1 = lemma_run_file(p, packages, extras, front);
        let a = file_lines(packages, extras, front);
        let b = block_lines(packages, extras, last);
        assert(is_writable(packages, extras, last));
        let p2 = lemma_run_block(p1, packages, extras, last);
        lemma_block_text(packages, extras, last);
        lemma_unlines_concat(a, b);
        lemma_are_lines(a, b);
        lemma_run_concat(p, a, p1, b);
        assert(recorded_blocks(packages, extras, keys) =~= recorded_blocks(
            packages,
            extras,
            front,
        ).push(recorded_block(packages, extras, last)));
        assert(all_blocks(p2) =~= all_blocks(p) + recorded_blocks(packages, extras, keys));
        p2
    }
}

spec fn warning() -> Seq<char> {
    "# THIS IS AN AUTOGENERATED FILE. DO NOT EDIT THIS FILE DIRECTLY."@
}

spec fn format_name() -> Seq<char> {
    "# yarn lockfile v1"@
}

spec fn banner_lines() -> Seq<Seq<char>> {
    seq![warning()] + seq![format_name()] + seq![Seq::<char>::empty()] + seq![Seq::<char>::empty()]
}

proof fn lemma_read_comment(p: Progress, l: Seq<char>)
    requires
        l.len() > 0,
        l[0] == '#',
        !is_white(l.last()),
        !l.contains('\n'),
    ensures
        is_classic_line(l),
        read_line(p, l) == Ok::<Progress, LineErrorView>(p),
{
    lemma_not_metadata(l);
    assert(trim_end(l) == l);
}

proof fn lemma_warning()
    ensures
        warning().len() > 0,
        warning()[0] == '#',
        !is_white(warning().last()),
        !warning().contains('\n'),
        "# THIS IS AN AUTOGENERATED FILE. DO NOT EDIT THIS FILE DIRECTLY.\n"@ == warning() + "\n"@,
{
    reveal_strlit("# THIS IS AN AUTOGENERATED FILE. DO NOT EDIT THIS FILE DIRECTLY.");
    reveal_strlit("# THIS IS AN AUTOGENERATED FILE. DO NOT EDIT THIS FILE DIRECTLY.\n");
    reveal_strlit("\n");
    assert("# THIS IS AN AUTOGENERATED FILE. DO NOT EDIT THIS FILE DIRECTLY.\n"@ =~= warning()
        + "\n"@);
}

proof fn lemma_format_name()
    ensures
        format_name().len() > 0,
        format_name()[0] == '#',
        !is_white(format_name().last()),
        !format_name().contains('\n'),
        "# yarn lockfile v1\n\n\n"@ == format_name() + "\n"@ + "\n"@ + "\n"@,
{
    reveal_strlit("# yarn lockfile v1");
    reveal_strlit("# yarn lockfile v1\n\n\n");
    reveal_strlit("\n");
    assert("# yarn lockfile v1\n\n\n"@ =~= format_name() + "\n"@ + "\n"@ + "\n"@);
}

proof fn lemma_banner(p: Progress)
    ensures
        banner() == unlines(banner_lines()),
        are_lines(banner_lines()),
        run(p, banner_lines()) == Ok::<Progress, LineErrorView>(p),
{
    lemma_warning();
    lemma_format_name();
    let none = Seq::<char>::empty();
    let (a, b, c) = (seq![warning()], seq![format_name()], seq![none]);
    lemma_read_comment(p, warning());
    lemma_read_comment(p, format_name());
    lemma_read_blank(p);
    lemma_run_one(p, warning());
    lemma_run_one(p, format_name());
    lemma_run_one(p, none);
    lemma_run_concat(p, a, p, b);
    lemma_run_concat(p, a + b, p, c);
    lemma_run_concat(p, a + b + c, p, c);
    lemma_unlines_one(warning());
    lemma_unlines_one(format_name());
    lemma_unlines_one(none);
    lemma_unlines_concat(a, b);
    lemma_unlines_concat(a + b, c);
    lemma_unlines_concat(a + b + c, c);
    lemma_are_lines(a, b);
    lemma_are_lines(a + b, c);
    lemma_are_lines(a + b + c, c);
    assert(none + "\n"@ =~= "\n"@);
    let (w, f, n) = (warning() + "\n"@, format_name() + "\n"@, "\n"@);
    assert(w + (f + n + n) =~= w + f + n + n);
}

proof fn lemma_canonical_finite(packages: Packages, keys: Seq<Seq<char>>)
    ensures
        canonical_among(packages, keys).dom().finite(),
    decreases keys.len(),
{
    if keys.len() > 0 {
        lemma_canonical_finite(packages, keys.drop_last());
    }
}

/// What the blocks of a written file hold is what the packages hold: each block
/// has the specifiers, the version, the integrity and the dependencies of one
/// package, in the order of their keys. The file is none of the other format.
pub proof fn law_blocks_round_trip(graph: LockfileGraphView, ranges: Ranges)
    requires
        forall|k: Seq<char>| #[trigger]
            canonical(graph).dom().contains(k) ==> is_writable(
                canonical(graph),
                extra_specs(graph, ranges),
                k,
            ),
    ensures
        blocks_of(classic_text(graph, ranges)) == Ok::<Seq<BlockView>, TokenErrorView>(
            recorded_blocks(
                canonical(graph),
                extra_specs(graph, ranges),
                sorted_keys(canonical(graph).dom()),
            ),
        ),
        !is_berry_text(classic_text(graph, ranges)),
{
    let packages = canonical(graph);
    let extras = extra_specs(graph, ranges);
    let keys = sorted_keys(packages.dom());
    lemma_canonical_finite(graph.packages, sorted_keys(graph.packages.dom()));
    lemma_listing(packages.dom());
    assert forall|i: int| 0 <= i < keys.len() implies is_writable(
        packages,
        extras,
        #[trigger] keys[i],
    ) by {
        assert(keys.contains(keys[i]));
        assert(packages.dom().contains(keys[i]));
    }
    let p = nothing_read();
    lemma_banner(p);
    let q = lemma_run_file(p, packages, extras, keys);
    let a = banner_lines();
    let b = file_lines(packages, extras, keys);
    lemma_unlines_concat(a, b);
    lemma_are_lines(a, b);
    lemma_run_concat(p, a, p, b);
    assert forall|i: int| 0 <= i < (a + b).len() implies is_line(#[trigger] (a + b)[i]) by {
        assert(is_classic_line((a + b)[i]));
    }
    lemma_lines(a + b);
    assert(!is_berry_text(classic_text(graph, ranges))) by {
        assert forall|i: int| 0 <= i < (a + b).len() implies !is_metadata_line(
            #[trigger] (a + b)[i],
        ) by {
            assert(is_classic_line((a + b)[i]));
        }
    }
    assert((a + b).take((a + b).len() as int) =~= a + b);
    lemma_run_lines(a + b, (a + b).len() as int, q);
    assert(all_blocks(q) =~= recorded_blocks(packages, extras, keys));
}

/// A package that a block of a classic lockfile can tell: its key is its name and
/// its version, and each of its dependencies is one that it declares, and leads
/// to a package of the graph.
pub open spec fn is_recordable(graph: LockfileGraphView, ranges: Ranges, key: Seq<char>) -> bool {
    let p = graph.packages[key];
    &&& key == dep_path(p.name, p.version)
    &&& spec_name(key) == Some(p.name)
    &&& p.dep_path == key
    &&& p.dependencies.dom().finite()
    &&& p.declared_dependencies.dom().finite()
    &&& forall|n: Seq<char>| #[trigger]
        p.dependencies.dom().contains(n) ==> p.declared_dependencies.dom().contains(n)
            && graph.packages.dom().contains(p.dependencies[n])
    &&& is_writable(graph.packages, extra_specs(graph, ranges), key)
}

/// Whether no specifier is listed for two packages.
pub open spec fn are_told_apart(graph: LockfileGraphView, ranges: Ranges) -> bool {
    forall|a: Seq<char>, b: Seq<char>, s: Seq<char>|
        #![trigger specs_of(graph, ranges, a).contains(s), specs_of(graph, ranges, b).contains(s)]
        graph.packages.dom().contains(a) && graph.packages.dom().contains(b) && specs_of(
            graph,
            ranges,
            a,
        ).contains(s) && specs_of(graph, ranges, b).contains(s) ==> a == b
}

/// A graph whose packages a classic lockfile can tell.
pub open spec fn are_recordable(graph: LockfileGraphView, ranges: Ranges) -> bool {
    &&& graph.packages.dom().finite()
    &&& forall|k: Seq<char>| #[trigger]
        graph.packages.dom().contains(k) ==> is_recordable(graph, ranges, k)
    &&& are_told_apart(graph, ranges)
}

/// What a block tells of a package.
pub open spec fn recorded_package(
    graph: LockfileGraphView,
    ranges: Ranges,
    key: Seq<char>,
) -> LockedPackageView {
    let p = graph.packages[key];
    LockedPackageView {
        name: p.name,
        version: p.version,
        integrity: p.integrity,
        dependencies: p.dependencies,
        dep_path: key,
        declared_dependencies: p.declared_dependencies.restrict(p.dependencies.dom()),
        alias_of: block_alias(recorded_block(graph.packages, extra_specs(graph, ranges), key)),
        ..default_package()
    }
}

/// What the specifiers of a written file resolve to.
pub open spec fn written_table(graph: LockfileGraphView, ranges: Ranges) -> Map<
    Seq<char>,
    Seq<char>,
> {
    let keys = sorted_keys(graph.packages.dom());
    spec_table(
        recorded_blocks(graph.packages, extra_specs(graph, ranges), keys),
        keys.len() as int,
    )
}

/// A package as a classic lockfile tells it.
pub open spec fn is_classic_package(
    graph: LockfileGraphView,
    ranges: Ranges,
    key: Seq<char>,
) -> bool {
    let p = graph.packages[key];
    let block = recorded_block(graph.packages, extra_specs(graph, ranges), key);
    &&& is_name(p.name)
    &&& key == dep_path(p.name, p.version)
    &&& p.dependencies.dom().finite()
    &&& p.declared_dependencies.dom() == p.dependencies.dom()
    &&& forall|n: Seq<char>| #[trigger]
        p.dependencies.dom().contains(n) ==> graph.packages.dom().contains(p.dependencies[n])
    &&& p == LockedPackageView {
        name: p.name,
        version: p.version,
        integrity: p.integrity,
        dependencies: p.dependencies,
        dep_path: key,
        declared_dependencies: p.declared_dependencies,
        alias_of: block_alias(block),
        ..default_package()
    }
    &&& is_writable(graph.packages, extra_specs(graph, ranges), key)
}

/// The specifiers that resolve to a package.
pub open spec fn specs_of(graph: LockfileGraphView, ranges: Ranges, key: Seq<char>) -> Seq<
    Seq<char>,
> {
    seq![key] + extra_list(extra_specs(graph, ranges), key)
}

/// The direct dependencies of one type, as a manifest and a classic lockfile
/// tell them: one for each range.
pub open spec fn are_classic_deps(
    graph: LockfileGraphView,
    ranges: Ranges,
    deps: Seq<DirectDepView>,
    section: Map<Seq<char>, Seq<char>>,
    t: DepType,
) -> bool {
    &&& section.dom().finite()
    &&& names(of_type(deps, t)) == sorted_keys(section.dom())
    &&& forall|i: int|
        0 <= i < of_type(deps, t).len() ==> {
            let d = #[trigger] of_type(deps, t)[i];
            &&& d.specifier is None
            &&& graph.packages.dom().contains(d.dep_path)
            &&& manifest_range(ranges, d.name) == Some(section[d.name])
        }
}

/// A graph as a classic lockfile tells it, beside the manifest with the given
/// ranges.
pub open spec fn is_classic(graph: LockfileGraphView, ranges: Ranges) -> bool {
    let deps = graph.importers["."@];
    &&& graph == LockfileGraphView {
        importers: Map::empty().insert("."@, deps),
        packages: graph.packages,
        ..default_graph()
    }
    &&& graph.packages.dom().finite()
    &&& forall|k: Seq<char>| #[trigger]
        graph.packages.dom().contains(k) ==> is_classic_package(graph, ranges, k)
    &&& are_told_apart(graph, ranges)
    &&& deps == of_type(deps, DepType::Production) + of_type(deps, DepType::Dev) + of_type(
        deps,
        DepType::Optional,
    )
    &&& are_classic_deps(graph, ranges, deps, ranges.dependencies, DepType::Production)
    &&& are_classic_deps(graph, ranges, deps, ranges.dev_dependencies, DepType::Dev)
    &&& are_classic_deps(graph, ranges, deps, ranges.optional_dependencies, DepType::Optional)
}

proof fn lemma_canonical_among(packages: Packages, keys: Seq<Seq<char>>)
    requires
        forall|i: int|
            0 <= i < keys.len() ==> #[trigger] keys[i] == dep_path(
                packages[keys[i]].name,
                packages[keys[i]].version,
            ),
    ensures
        forall|k: Seq<char>| #[trigger]
            canonical_among(packages, keys).dom().contains(k) <==> keys.contains(k),
        forall|k: Seq<char>| #[trigger]
            canonical_among(packages, keys).dom().contains(k) ==> canonical_among(
                packages,
                keys,
            )[k] == packages[k],
    decreases keys.len(),
{
    if keys.len() > 0 {
        let front = keys.drop_last();
        let last = keys[keys.len() - 1];
        assert forall|i: int| 0 <= i < front.len() implies #[trigger] front[i] == dep_path(
            packages[front[i]].name,
            packages[front[i]].version,
        ) by {
            assert(front[i] == keys[i]);
        }
        lemma_canonical_among(packages, front);
        assert(keys.last() == last);
        assert(last == dep_path(packages[last].name, packages[last].version));
        let m = canonical_among(packages, keys);
        let was = canonical_among(packages, front);
        assert(m == if was.dom().contains(last) {
            was
        } else {
            was.insert(last, packages[last])
        });
        assert(keys.contains(last));
        assert forall|k: Seq<char>| #[trigger] m.dom().contains(k) <==> keys.contains(k) by {
            if front.contains(k) {
                let i = choose|i: int| 0 <= i < front.len() && front[i] == k;
                assert(keys[i] == k);
            }
            if keys.contains(k) && k != last {
                let i = choose|i: int| 0 <= i < keys.len() && keys[i] == k;
                assert(front[i] == k);
            }
        }
    }
}

/// The packages of the graph stand under `name@version` already.
pub proof fn lemma_canonical(graph: LockfileGraphView)
    requires
        graph.packages.dom().finite(),
        forall|k: Seq<char>| #[trigger]
            graph.packages.dom().contains(k) ==> k == dep_path(
                graph.packages[k].name,
                graph.packages[k].version,
            ),
    ensures
        canonical(graph) == graph.packages,
{
    let keys = sorted_keys(graph.packages.dom());
    lemma_listing(graph.packages.dom());
    assert forall|i: int| 0 <= i < keys.len() implies #[trigger] keys[i] == dep_path(
        graph.packages[keys[i]].name,
        graph.packages[keys[i]].version,
    ) by {
        assert(keys.contains(keys[i]));
        assert(graph.packages.dom().contains(keys[i]));
    }
    lemma_canonical_among(graph.packages, keys);
    assert(canonical(graph) =~= graph.packages);
}

pub proof fn lemma_path_keys(packages: Packages, keys: Seq<Seq<char>>)
    requires
        forall|i: int, j: int|
            #![trigger keys[i], keys[j]]
            0 <= i < keys.len() && 0 <= j < keys.len() && packages[keys[i]].dep_path
                == packages[keys[j]].dep_path ==> keys[i] == keys[j],
    ensures
        forall|i: int|
            0 <= i < keys.len() ==> lookup(
                path_keys(packages, keys),
                packages[#[trigger] keys[i]].dep_path,
            ) == Some(keys[i]),
    decreases keys.len(),
{
    if keys.len() > 0 {
        let front = keys.drop_last();
        assert forall|i: int, j: int|
            #![trigger front[i], front[j]]
            0 <= i < front.len() && 0 <= j < front.len() && packages[front[i]].dep_path
                == packages[front[j]].dep_path implies front[i] == front[j] by {
            assert(front[i] == keys[i] && front[j] == keys[j]);
        }
        lemma_path_keys(packages, front);
        let n = keys.len() - 1;
        assert forall|i: int| 0 <= i < keys.len() implies lookup(
            path_keys(packages, keys),
            packages[#[trigger] keys[i]].dep_path,
        ) == Some(keys[i]) by {
            if packages[keys[i]].dep_path == packages[keys[n]].dep_path {
                assert(keys[i] == keys[n]);
            } else {
                assert(front[i] == keys[i]);
            }
        }
    }
}

/// Whether every dep path is the key of its own package.
pub open spec fn are_own_keys(packages: Packages) -> bool {
    packages.dom().finite() && forall|k: Seq<char>| #[trigger]
        packages.dom().contains(k) ==> packages[k].dep_path == k
}

/// A dependency leads to the package under the dep path that it names.
pub proof fn lemma_index(packages: Packages)
    requires
        are_own_keys(packages),
    ensures
        forall|k: Seq<char>, n: Seq<char>|
            #![trigger edge_key(packages, n, k)]
            packages.dom().contains(k) ==> edge_key(packages, n, k) == Some(k),
        forall|k: Seq<char>|
            #![trigger direct_key(packages, k)]
            packages.dom().contains(k) ==> direct_key(packages, k) == Some(k),
{
    let keys = sorted_keys(packages.dom());
    lemma_listing(packages.dom());
    assert forall|i: int, j: int|
        #![trigger keys[i], keys[j]]
        0 <= i < keys.len() && 0 <= j < keys.len() && packages[keys[i]].dep_path
            == packages[keys[j]].dep_path implies keys[i] == keys[j] by {
        assert(keys.contains(keys[i]) && keys.contains(keys[j]));
        assert(packages.dom().contains(keys[i]) && packages.dom().contains(keys[j]));
    }
    lemma_path_keys(packages, keys);
    assert forall|k: Seq<char>| packages.dom().contains(k) implies #[trigger] lookup(
        path_index(packages),
        k,
    ) == Some(k) by {
        assert(keys.contains(k));
        let i = choose|i: int| 0 <= i < keys.len() && keys[i] == k;
        assert(lookup(path_keys(packages, keys), packages[keys[i]].dep_path) == Some(keys[i]));
    }
    assert forall|k: Seq<char>, n: Seq<char>|
        #![trigger edge_key(packages, n, k)]
        packages.dom().contains(k) implies edge_key(packages, n, k) == Some(k) by {
        assert(lookup(path_index(packages), k) == Some(k));
    }
    assert forall|k: Seq<char>|
        #![trigger direct_key(packages, k)]
        packages.dom().contains(k) implies direct_key(packages, k) == Some(k) by {
        assert(lookup(path_index(packages), k) == Some(k));
    }
}

proof fn lemma_declared_pairs(
    packages: Packages,
    pkg: LockedPackageView,
    list: Seq<Seq<char>>,
    n: Seq<char>,
    key: Seq<char>,
)
    requires
        list.contains(n),
        pkg.dependencies.dom().contains(n),
        edge_key(packages, n, pkg.dependencies[n]) == Some(key),
        dep_path(n, pkg.declared_dependencies[n]) != key,
    ensures
        declared_pairs(packages, pkg, list).contains(
            (key, dep_path(n, pkg.declared_dependencies[n])),
        ),
    decreases list.len(),
{
    let pair = (key, dep_path(n, pkg.declared_dependencies[n]));
    let all = declared_pairs(packages, pkg, list);
    if list.last() == n {
        assert(all[all.len() - 1] == pair);
    } else {
        let front = list.drop_last();
        let i = choose|i: int| 0 <= i < list.len() && list[i] == n;
        assert(front[i] == n);
        lemma_declared_pairs(packages, pkg, front, n, key);
        let before = declared_pairs(packages, pkg, front);
        let j = choose|j: int| 0 <= j < before.len() && before[j] == pair;
        assert(all[j] == pair);
    }
}

proof fn lemma_all_declared_pairs(
    packages: Packages,
    keys: Seq<Seq<char>>,
    k: Seq<char>,
    pair: Pair,
)
    requires
        keys.contains(k),
        declared_pairs(
            packages,
            packages[k],
            sorted_keys(packages[k].declared_dependencies.dom()),
        ).contains(pair),
    ensures
        all_declared_pairs(packages, keys).contains(pair),
    decreases keys.len(),
{
    let front = keys.drop_last();
    let a = all_declared_pairs(packages, front);
    let last = packages[keys.last()];
    let b = declared_pairs(packages, last, sorted_keys(last.declared_dependencies.dom()));
    let all = all_declared_pairs(packages, keys);
    assert(all == a + b);
    if keys.last() == k {
        let j = choose|j: int| 0 <= j < b.len() && b[j] == pair;
        assert(all[a.len() + j] == pair);
    } else {
        let i = choose|i: int| 0 <= i < keys.len() && keys[i] == k;
        assert(front[i] == k);
        lemma_all_declared_pairs(packages, front, k, pair);
        let j = choose|j: int| 0 <= j < a.len() && a[j] == pair;
        assert(all[j] == pair);
    }
}

pub proof fn lemma_root_pairs(
    packages: Packages,
    ranges: Ranges,
    deps: Seq<DirectDepView>,
    d: DirectDepView,
    key: Seq<char>,
    range: Seq<char>,
)
    requires
        deps.contains(d),
        manifest_range(ranges, d.name) == Some(range),
        direct_key(packages, d.dep_path) == Some(key),
        dep_path(d.name, range) != key,
    ensures
        root_pairs(packages, ranges, deps).contains((key, dep_path(d.name, range))),
    decreases deps.len(),
{
    let pair = (key, dep_path(d.name, range));
    let all = root_pairs(packages, ranges, deps);
    if deps.last() == d {
        assert(all[all.len() - 1] == pair);
    } else {
        let front = deps.drop_last();
        let i = choose|i: int| 0 <= i < deps.len() && deps[i] == d;
        assert(front[i] == d);
        lemma_root_pairs(packages, ranges, front, d, key, range);
        let before = root_pairs(packages, ranges, front);
        let j = choose|j: int| 0 <= j < before.len() && before[j] == pair;
        assert(all[j] == pair);
    }
}

/// A listed specifier is one of its package.
pub proof fn lemma_listed(graph: LockfileGraphView, ranges: Ranges, key: Seq<char>, spec: Seq<char>)
    requires
        are_recordable(graph, ranges),
        spec == key || (root_pairs(graph.packages, ranges, root_importer(graph))
            + all_declared_pairs(graph.packages, sorted_keys(graph.packages.dom()))).contains(
            (key, spec),
        ),
    ensures
        specs_of(graph, ranges, key).contains(spec),
{
    let specs = specs_of(graph, ranges, key);
    if spec == key {
        assert(specs[0] == key);
    } else {
        lemma_canonical(graph);
        let pairs = root_pairs(graph.packages, ranges, root_importer(graph)) + all_declared_pairs(
            graph.packages,
            sorted_keys(graph.packages.dom()),
        );
        let extras = extra_specs(graph, ranges);
        assert(extras == grouped(pairs));
        assert(extras.dom().contains(key));
        let set = listed_for(pairs, key);
        lemma_listed_finite(pairs, key);
        lemma_listing(set);
        assert(set.contains(spec));
        let q = sorted_keys(set);
        assert(q.contains(spec));
        let j = choose|j: int| 0 <= j < q.len() && q[j] == spec;
        assert(specs[j + 1] == spec);
    }
}

pub proof fn lemma_listed_finite(pairs: Seq<Pair>, key: Seq<char>)
    ensures
        listed_for(pairs, key).finite(),
{
    let seconds = pairs.map_values(|p: Pair| p.1);
    let all = seconds.to_set();
    vstd::seq_lib::seq_to_set_is_finite(seconds);
    let set = listed_for(pairs, key);
    assert(set.subset_of(all)) by {
        assert forall|s: Seq<char>| set.contains(s) implies all.contains(s) by {
            let i = choose|i: int| 0 <= i < pairs.len() && pairs[i] == (key, s);
            assert(seconds[i] == s);
        }
    }
    vstd::set_lib::lemma_set_subset_finite(all, set);
}

/// The block of a package names its key.
proof fn lemma_block_path(graph: LockfileGraphView, ranges: Ranges, key: Seq<char>)
    requires
        are_recordable(graph, ranges),
        graph.packages.dom().contains(key),
    ensures
        ({
            let block = recorded_block(graph.packages, extra_specs(graph, ranges), key);
            &&& block_path(block) == Ok::<Seq<char>, ClassicErrorView>(key)
            &&& spec_name(block.specs[0]) == Some(graph.packages[key].name)
            &&& lookup(block.fields, "version"@) == Some(graph.packages[key].version)
            &&& lookup(block.fields, "integrity"@) == graph.packages[key].integrity
            &&& block.specs == specs_of(graph, ranges, key)
        }),
{
    let p = graph.packages[key];
    assert(is_recordable(graph, ranges, key));
    let block = recorded_block(graph.packages, extra_specs(graph, ranges), key);
    assert(block.specs[0] == key);
    assert("version"@ != "integrity"@) by {
        reveal_strlit("version");
        reveal_strlit("integrity");
        assert("version"@.len() != "integrity"@.len());
    }
}

/// The table of specifiers sends each to its package.
proof fn lemma_table(
    graph: LockfileGraphView,
    ranges: Ranges,
    keys: Seq<Seq<char>>,
    n: int,
)
    requires
        are_recordable(graph, ranges),
        0 <= n <= keys.len(),
        forall|i: int| 0 <= i < keys.len() ==> graph.packages.dom().contains(#[trigger] keys[i]),
    ensures
        forall|i: int, s: Seq<char>|
            #![trigger specs_of(graph, ranges, keys[i]).contains(s)]
            0 <= i < n && specs_of(graph, ranges, keys[i]).contains(s) ==> lookup(
                spec_table(
                    recorded_blocks(graph.packages, extra_specs(graph, ranges), keys),
                    n,
                ),
                s,
            ) == Some(keys[i]),
        first_wrong(
            recorded_blocks(graph.packages, extra_specs(graph, ranges), keys),
            n,
        ) is None,
    decreases n,
{
    let extras = extra_specs(graph, ranges);
    let blocks = recorded_blocks(graph.packages, extras, keys);
    if n > 0 {
        lemma_table(graph, ranges, keys, n - 1);
        let last = keys[n - 1];
        assert(graph.packages.dom().contains(last));
        lemma_block_path(graph, ranges, last);
        assert(blocks[n - 1] == recorded_block(graph.packages, extras, last));
        let was = spec_table(blocks, n - 1);
        let now = spec_table(blocks, n);
        assert forall|i: int, s: Seq<char>|
            #![trigger specs_of(graph, ranges, keys[i]).contains(s)]
            0 <= i < n && specs_of(graph, ranges, keys[i]).contains(s) implies lookup(now, s)
            == Some(keys[i]) by {
            assert(graph.packages.dom().contains(keys[i]));
            if specs_of(graph, ranges, last).contains(s) {
                assert(keys[i] == last);
            } else {
                assert(lookup(was, s) == Some(keys[i]));
            }
        }
    }
}

proof fn lemma_recorded_deps(packages: Packages, pkg: LockedPackageView, list: Seq<Seq<char>>)
    requires
        forall|i: int|
            0 <= i < list.len() ==> edge_key(
                packages,
                #[trigger] list[i],
                pkg.dependencies[list[i]],
            ) is Some && pkg.declared_dependencies.dom().contains(list[i]),
    ensures
        forall|n: Seq<char>| #[trigger]
            recorded_deps(packages, pkg, list).dom().contains(n) <==> list.contains(n),
        forall|n: Seq<char>| #[trigger]
            recorded_deps(packages, pkg, list).dom().contains(n) ==> recorded_deps(
                packages,
                pkg,
                list,
            )[n] == pkg.declared_dependencies[n],
    decreases list.len(),
{
    if list.len() > 0 {
        let front = list.drop_last();
        let last = list[list.len() - 1];
        assert(list.last() == last);
        assert forall|i: int| 0 <= i < front.len() implies edge_key(
            packages,
            #[trigger] front[i],
            pkg.dependencies[front[i]],
        ) is Some && pkg.declared_dependencies.dom().contains(front[i]) by {
            assert(front[i] == list[i]);
        }
        lemma_recorded_deps(packages, pkg, front);
        assert(edge_key(packages, last, pkg.dependencies[last]) is Some);
        let was = recorded_deps(packages, pkg, front);
        let now = recorded_deps(packages, pkg, list);
        assert(now == was.insert(last, pkg.declared_dependencies[last]));
        assert forall|n: Seq<char>| #[trigger] now.dom().contains(n) <==> list.contains(n) by {
            if front.contains(n) {
                let i = choose|i: int| 0 <= i < front.len() && front[i] == n;
                assert(list[i] == n);
            }
            if list.contains(n) && n != last {
                let i = choose|i: int| 0 <= i < list.len() && list[i] == n;
                assert(front[i] == n);
            }
            assert(list.contains(last));
        }
    }
}

/// Whether a table sends each specifier of a graph to its package.
pub open spec fn is_table(
    graph: LockfileGraphView,
    ranges: Ranges,
    table: Map<Seq<char>, Seq<char>>,
) -> bool {
    forall|k: Seq<char>, s: Seq<char>|
        #![trigger specs_of(graph, ranges, k).contains(s)]
        graph.packages.dom().contains(k) && specs_of(graph, ranges, k).contains(s) ==> lookup(
            table,
            s,
        ) == Some(k)
}

/// In a graph that a classic lockfile can tell, dep paths are keys.
proof fn lemma_own_keys(graph: LockfileGraphView, ranges: Ranges)
    requires
        are_recordable(graph, ranges),
    ensures
        forall|k: Seq<char>, n: Seq<char>|
            #![trigger edge_key(graph.packages, n, k)]
            graph.packages.dom().contains(k) ==> edge_key(graph.packages, n, k) == Some(k),
        forall|k: Seq<char>|
            #![trigger direct_key(graph.packages, k)]
            graph.packages.dom().contains(k) ==> direct_key(graph.packages, k) == Some(k),
{
    assert forall|k: Seq<char>| #[trigger] graph.packages.dom().contains(k) implies
        graph.packages[k].dep_path == k by {
        assert(is_recordable(graph, ranges, k));
    }
    lemma_index(graph.packages);
}

/// The block of a package reads as the package.
proof fn lemma_block_package(
    graph: LockfileGraphView,
    ranges: Ranges,
    key: Seq<char>,
    table: Map<Seq<char>, Seq<char>>,
)
    requires
        are_recordable(graph, ranges),
        is_table(graph, ranges, table),
        graph.packages.dom().contains(key),
    ensures
        block_package(
            recorded_block(graph.packages, extra_specs(graph, ranges), key),
            table,
        ) == recorded_package(graph, ranges, key),
{
    let p = graph.packages[key];
    let block = recorded_block(graph.packages, extra_specs(graph, ranges), key);
    assert(is_recordable(graph, ranges, key));
    lemma_block_path(graph, ranges, key);
    let list = sorted_keys(p.dependencies.dom());
    lemma_listing(p.dependencies.dom());
    lemma_own_keys(graph, ranges);
    assert forall|i: int| 0 <= i < list.len() implies edge_key(
        graph.packages,
        #[trigger] list[i],
        p.dependencies[list[i]],
    ) is Some && p.declared_dependencies.dom().contains(list[i]) by {
        assert(list.contains(list[i]));
        assert(p.dependencies.dom().contains(list[i]));
    }
    lemma_recorded_deps(graph.packages, p, list);
    let declared = p.declared_dependencies.restrict(p.dependencies.dom());
    assert(block.dependencies =~= declared) by {
        assert forall|n: Seq<char>| block.dependencies.dom().contains(n)
            <==> declared.dom().contains(n) by {
            assert(p.dependencies.dom().contains(n) <==> list.contains(n));
        }
    }
    let all = sorted_keys(p.declared_dependencies.dom());
    lemma_listing(p.declared_dependencies.dom());
    let keys = sorted_keys(graph.packages.dom());
    lemma_listing(graph.packages.dom());
    let resolved = resolved_by(block.dependencies, table);
    assert forall|n: Seq<char>| p.dependencies.dom().contains(n) implies #[trigger]
        resolved.dom().contains(n) && resolved[n] == p.dependencies[n] by {
        let child = p.dependencies[n];
        assert(edge_key(graph.packages, n, child) == Some(child));
        let spec = dep_path(n, p.declared_dependencies[n]);
        if spec != child {
            assert(all.contains(n));
            lemma_declared_pairs(graph.packages, p, all, n, child);
            assert(keys.contains(key));
            lemma_all_declared_pairs(graph.packages, keys, key, (child, spec));
            let a = root_pairs(graph.packages, ranges, root_importer(graph));
            let b = all_declared_pairs(graph.packages, keys);
            let j = choose|j: int| 0 <= j < b.len() && b[j] == (child, spec);
            assert((a + b)[a.len() + j] == (child, spec));
        }
        lemma_listed(graph, ranges, child, spec);
        assert(lookup(table, spec) == Some(child));
    }
    assert(resolved =~= p.dependencies);
}

proof fn lemma_block_packages(
    graph: LockfileGraphView,
    ranges: Ranges,
    keys: Seq<Seq<char>>,
    n: int,
    table: Map<Seq<char>, Seq<char>>,
)
    requires
        are_recordable(graph, ranges),
        is_table(graph, ranges, table),
        0 <= n <= keys.len(),
        forall|i: int| 0 <= i < keys.len() ==> graph.packages.dom().contains(#[trigger] keys[i]),
    ensures
        ({
            let m = block_packages(
                recorded_blocks(graph.packages, extra_specs(graph, ranges), keys),
                n,
                table,
            );
            &&& forall|k: Seq<char>| #[trigger] m.dom().contains(k) <==> keys.take(n).contains(k)
            &&& forall|k: Seq<char>| #[trigger]
                m.dom().contains(k) ==> m[k] == recorded_package(graph, ranges, k)
        }),
    decreases n,
{
    let extras = extra_specs(graph, ranges);
    let blocks = recorded_blocks(graph.packages, extras, keys);
    let m = block_packages(blocks, n, table);
    if n > 0 {
        lemma_block_packages(graph, ranges, keys, n - 1, table);
        let last = keys[n - 1];
        assert(graph.packages.dom().contains(last));
        lemma_block_path(graph, ranges, last);
        lemma_block_package(graph, ranges, last, table);
        assert(blocks[n - 1] == recorded_block(graph.packages, extras, last));
        let was = block_packages(blocks, n - 1, table);
        assert(keys.take(n)[n - 1] == last);
        assert forall|k: Seq<char>| #[trigger] m.dom().contains(k) <==> keys.take(n).contains(
            k,
        ) by {
            let (front, all) = (keys.take(n - 1), keys.take(n));
            if front.contains(k) {
                let i = choose|i: int| 0 <= i < front.len() && front[i] == k;
                assert(all[i] == k);
            }
            if all.contains(k) && k != last {
                let i = choose|i: int| 0 <= i < all.len() && all[i] == k;
                assert(front[i] == k);
            }
        }
    }
}

/// The direct dependencies of one type read back.
proof fn lemma_manifest_deps(
    part: Seq<DirectDepView>,
    section: Map<Seq<char>, Seq<char>>,
    table: Map<Seq<char>, Seq<char>>,
    t: DepType,
)
    requires
        forall|i: int|
            0 <= i < part.len() ==> {
                let d = #[trigger] part[i];
                d.dep_type == t && d.specifier is None && lookup(
                    table,
                    dep_path(d.name, section[d.name]),
                ) == Some(d.dep_path)
            },
    ensures
        manifest_deps(names(part), section, table, t) == part,
    decreases part.len(),
{
    if part.len() > 0 {
        let front = part.drop_last();
        let d = part[part.len() - 1];
        assert(names(part).drop_last() =~= names(front));
        assert(names(part).last() == d.name);
        assert forall|i: int| 0 <= i < front.len() implies {
            let d = #[trigger] front[i];
            d.dep_type == t && d.specifier is None && lookup(
                table,
                dep_path(d.name, section[d.name]),
            ) == Some(d.dep_path)
        } by {
            assert(front[i] == part[i]);
        }
        lemma_manifest_deps(front, section, table, t);
        assert(front.push(d) =~= part);
    } else {
        assert(manifest_deps(names(part), section, table, t) =~= part);
    }
}

proof fn lemma_section(
    graph: LockfileGraphView,
    ranges: Ranges,
    section: Map<Seq<char>, Seq<char>>,
    t: DepType,
    table: Map<Seq<char>, Seq<char>>,
)
    requires
        are_recordable(graph, ranges),
        is_table(graph, ranges, table),
        graph.importers.dom().contains("."@),
        are_classic_deps(graph, ranges, graph.importers["."@], section, t),
    ensures
        manifest_deps(sorted_keys(section.dom()), section, table, t) == of_type(
            graph.importers["."@],
            t,
        ),
{
    let deps = graph.importers["."@];
    let part = of_type(deps, t);
    assert(root_importer(graph) == deps);
    assert forall|i: int| 0 <= i < part.len() implies {
        let d = #[trigger] part[i];
        d.dep_type == t && d.specifier is None && lookup(
            table,
            dep_path(d.name, section[d.name]),
        ) == Some(d.dep_path)
    } by {
        let d = part[i];
        lemma_of_type(deps, t, i);
        let spec = dep_path(d.name, section[d.name]);
        if spec != d.dep_path {
            assert(deps.contains(d));
            lemma_own_keys(graph, ranges);
            assert(direct_key(graph.packages, d.dep_path) == Some(d.dep_path));
            lemma_root_pairs(graph.packages, ranges, deps, d, d.dep_path, section[d.name]);
            let a = root_pairs(graph.packages, ranges, deps);
            let b = all_declared_pairs(graph.packages, sorted_keys(graph.packages.dom()));
            let j = choose|j: int| 0 <= j < a.len() && a[j] == (d.dep_path, spec);
            assert((a + b)[j] == (d.dep_path, spec));
        }
        lemma_listed(graph, ranges, d.dep_path, spec);
    }
    lemma_manifest_deps(part, section, table, t);
}

/// The packages of a written file are those that were written, each with the
/// name, the version, the integrity and the dependencies that it had, and the
/// file is taken for a classic one.
pub proof fn law_packages_read_back(graph: LockfileGraphView, ranges: Ranges)
    requires
        are_recordable(graph, ranges),
    ensures
        ({
            let back = LockfileGraphView {
                importers: Map::empty().insert(
                    "."@,
                    root_deps(ranges, written_table(graph, ranges)),
                ),
                packages: Map::new(
                    |k: Seq<char>| graph.packages.dom().contains(k),
                    |k: Seq<char>| recorded_package(graph, ranges, k),
                ),
                ..default_graph()
            };
            let text = classic_text(graph, ranges);
            &&& yarn_graph(text, ranges) == Ok::<LockfileGraphView, YarnErrorView>(back)
            &&& classic_graph(text, ranges) == Ok::<LockfileGraphView, ClassicErrorView>(back)
        }),
{
    let extras = extra_specs(graph, ranges);
    lemma_canonical(graph);
    assert forall|k: Seq<char>| #[trigger] canonical(graph).dom().contains(k) implies is_writable(
        canonical(graph),
        extras,
        k,
    ) by {
        assert(is_recordable(graph, ranges, k));
    }
    law_blocks_round_trip(graph, ranges);
    let keys = sorted_keys(graph.packages.dom());
    lemma_listing(graph.packages.dom());
    assert forall|i: int| 0 <= i < keys.len() implies graph.packages.dom().contains(
        #[trigger] keys[i],
    ) by {
        assert(keys.contains(keys[i]));
    }
    let n = keys.len() as int;
    let blocks = recorded_blocks(graph.packages, extras, keys);
    let table = spec_table(blocks, n);
    lemma_table(graph, ranges, keys, n);
    lemma_is_table(graph, ranges);
    lemma_block_packages(graph, ranges, keys, n, table);
    assert(keys.take(n) =~= keys);
    let packages = Map::new(
        |k: Seq<char>| graph.packages.dom().contains(k),
        |k: Seq<char>| recorded_package(graph, ranges, k),
    );
    assert(block_packages(blocks, n, table) =~= packages) by {
        assert forall|k: Seq<char>| block_packages(blocks, n, table).dom().contains(k)
            <==> packages.dom().contains(k) by {
            assert(graph.packages.dom().contains(k) <==> keys.contains(k));
        }
    }
}

/// The specifiers of a written file resolve to their packages.
pub proof fn lemma_is_table(graph: LockfileGraphView, ranges: Ranges)
    requires
        are_recordable(graph, ranges),
    ensures
        is_table(graph, ranges, written_table(graph, ranges)),
{
    let keys = sorted_keys(graph.packages.dom());
    lemma_listing(graph.packages.dom());
    assert forall|i: int| 0 <= i < keys.len() implies graph.packages.dom().contains(
        #[trigger] keys[i],
    ) by {
        assert(keys.contains(keys[i]));
    }
    lemma_table(graph, ranges, keys, keys.len() as int);
    assert forall|k: Seq<char>, s: Seq<char>|
        #![trigger specs_of(graph, ranges, k).contains(s)]
        graph.packages.dom().contains(k) && specs_of(graph, ranges, k).contains(s) implies lookup(
        written_table(graph, ranges),
        s,
    ) == Some(k) by {
        assert(keys.contains(k));
        let i = choose|i: int| 0 <= i < keys.len() && keys[i] == k;
        assert(specs_of(graph, ranges, keys[i]).contains(s));
    }
}

/// A graph as a classic lockfile tells it is one that it can tell, and it tells
/// all of it.
proof fn lemma_classic(graph: LockfileGraphView, ranges: Ranges)
    requires
        is_classic(graph, ranges),
    ensures
        are_recordable(graph, ranges),
        forall|k: Seq<char>| #[trigger]
            graph.packages.dom().contains(k) ==> recorded_package(graph, ranges, k)
                == graph.packages[k],
{
    assert forall|k: Seq<char>| #[trigger] graph.packages.dom().contains(k) implies is_recordable(
        graph,
        ranges,
        k,
    ) && recorded_package(graph, ranges, k) == graph.packages[k] by {
        let p = graph.packages[k];
        assert(is_classic_package(graph, ranges, k));
        lemma_separator(p.name, p.version);
        reveal_strlit("@");
        assert(k.take(p.name.len() as int) =~= p.name);
        assert(p.declared_dependencies.restrict(p.dependencies.dom())
            =~= p.declared_dependencies);
    }
}

/// A graph as a classic lockfile tells it is read back as it was written, and
/// the file is taken for a classic one.
pub proof fn law_round_trip(graph: LockfileGraphView, ranges: Ranges)
    requires
        is_classic(graph, ranges),
    ensures
        yarn_graph(classic_text(graph, ranges), ranges) == Ok::<LockfileGraphView, YarnErrorView>(
            graph,
        ),
        classic_graph(classic_text(graph, ranges), ranges) == Ok::<
            LockfileGraphView,
            ClassicErrorView,
        >(graph),
{
    lemma_classic(graph, ranges);
    law_packages_read_back(graph, ranges);
    lemma_is_table(graph, ranges);
    let table = written_table(graph, ranges);
    let packages = Map::new(
        |k: Seq<char>| graph.packages.dom().contains(k),
        |k: Seq<char>| recorded_package(graph, ranges, k),
    );
    assert(packages =~= graph.packages);
    lemma_section(graph, ranges, ranges.dependencies, DepType::Production, table);
    lemma_section(graph, ranges, ranges.dev_dependencies, DepType::Dev, table);
    lemma_section(graph, ranges, ranges.optional_dependencies, DepType::Optional, table);
}

} // verus!
