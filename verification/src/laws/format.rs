//! What laying out a serialized `pnpm-lock.yaml` guarantees.
use vstd::prelude::*;
use crate::laws::classic::{is_line, lemma_lines, unlines};
use crate::pnpm::format::{
    compacted, flow_count, flow_entries, flow_key, flow_line, in_entries, is_flow_entry,
    is_flow_header, is_set_apart, is_top, lemma_flow_count_bound, parity_format, spaced,
};
use crate::text::{
    find, find_char, indent, join, lemma_find_char, lemma_find_from, lines, occurs_at, spaces,
    split_text, trim_start, without_cr,
};

verus! {

/// The lines that are not blank.
pub open spec fn non_blank(ls: Seq<Seq<char>>) -> Seq<Seq<char>>
    decreases ls.len(),
{
    if ls.len() == 0 {
        Seq::empty()
    } else if trim_start(ls.last()).len() > 0 {
        non_blank(ls.drop_last()).push(ls.last())
    } else {
        non_blank(ls.drop_last())
    }
}

/// A text on one line.
spec fn is_plain(s: Seq<char>) -> bool {
    !s.contains('\n') && !s.contains('\r')
}

proof fn lemma_plain_concat(a: Seq<char>, b: Seq<char>)
    requires
        is_plain(a),
        is_plain(b),
    ensures
        is_plain(a + b),
{
    let c = a + b;
    assert forall|i: int| 0 <= i < c.len() implies c[i] != '\n' && c[i] != '\r' by {
        if i < a.len() {
            assert(a.contains(a[i]));
            assert(c[i] == a[i]);
        } else {
            assert(b.contains(b[i - a.len()]));
            assert(c[i] == b[i - a.len()]);
        }
    }
}

proof fn lemma_plain_trim(s: Seq<char>)
    requires
        is_plain(s),
    ensures
        is_plain(trim_start(s)),
    decreases s.len(),
{
    if s.len() > 0 {
        let rest = s.drop_first();
        assert forall|i: int| 0 <= i < rest.len() implies rest[i] != '\n' && rest[i] != '\r' by {
            assert(s.contains(s[i + 1]));
        }
        lemma_plain_trim(rest);
    }
}

proof fn lemma_plain_join(parts: Seq<Seq<char>>, sep: Seq<char>)
    requires
        is_plain(sep),
        forall|i: int| 0 <= i < parts.len() ==> is_plain(#[trigger] parts[i]),
    ensures
        is_plain(join(parts, sep)),
    decreases parts.len(),
{
    if parts.len() > 0 {
        let front = parts.drop_last();
        let last = parts[parts.len() - 1];
        assert(is_plain(last));
        assert forall|i: int| 0 <= i < front.len() implies is_plain(#[trigger] front[i]) by {
            assert(front[i] == parts[i]);
        }
        lemma_plain_join(front, sep);
        lemma_plain_concat(join(front, sep), sep);
        lemma_plain_concat(join(front, sep) + sep, last);
    }
}

/// The lines of a text without carriage return.
proof fn lemma_plain_lines(s: Seq<char>)
    requires
        !s.contains('\r'),
    ensures
        forall|i: int| 0 <= i < lines(s).len() ==> is_plain(#[trigger] lines(s)[i]),
    decreases s.len(),
{
    lemma_find_char(s, '\n');
    match crate::text::find_char(s, '\n') {
        Some(k) => {
            let (first, rest) = (s.take(k), s.skip(k + 1));
            assert forall|i: int| 0 <= i < rest.len() implies rest[i] != '\r' by {
                assert(s.contains(s[k + 1 + i]));
            }
            lemma_plain_lines(rest);
            assert forall|i: int| 0 <= i < first.len() implies first[i] != '\n' && first[i]
                != '\r' by {
                assert(s.contains(s[i]));
            }
            assert(without_cr(first) == first);
            assert forall|i: int| 0 <= i < lines(s).len() implies is_plain(#[trigger] lines(s)[i]) by {
                if i > 0 {
                    assert(lines(s)[i] == lines(rest)[i - 1]);
                }
            }
        },
        None => {},
    }
}

proof fn lemma_plain_flow(all: Seq<Seq<char>>, i: int)
    requires
        0 <= i < all.len(),
        is_flow_header(all, i),
        forall|j: int| 0 <= j < all.len() ==> is_plain(#[trigger] all[j]),
    ensures
        is_plain(flow_line(all, i)),
{
    let entries = flow_entries(all, i);
    lemma_flow_count_bound(all, i + 1, indent(all[i]) + 2);
    assert forall|j: int| 0 <= j < entries.len() implies is_plain(#[trigger] entries[j]) by {
        assert(is_plain(all[i + 1 + j]));
        lemma_plain_trim(all[i + 1 + j]);
    }
    reveal_strlit(", ");
    reveal_strlit(": {");
    reveal_strlit("}");
    reveal_strlit("resolution");
    reveal_strlit("engines");
    assert(is_plain(", "@));
    assert(is_plain(": {"@));
    assert(is_plain("}"@));
    assert(is_plain("resolution"@));
    assert(is_plain("engines"@));
    let margin = spaces(indent(all[i]));
    assert(is_plain(margin));
    lemma_plain_join(entries, ", "@);
    let key = flow_key(all[i])->0;
    lemma_plain_concat(margin, key);
    lemma_plain_concat(margin + key, ": {"@);
    lemma_plain_concat(margin + key + ": {"@, join(entries, ", "@));
    lemma_plain_concat(margin + key + ": {"@ + join(entries, ", "@), "}"@);
}

proof fn lemma_plain_compacted(all: Seq<Seq<char>>, i: int)
    requires
        0 <= i,
        forall|j: int| 0 <= j < all.len() ==> is_plain(#[trigger] all[j]),
    ensures
        forall|j: int| 0 <= j < compacted(all, i).len() ==> is_plain(#[trigger] compacted(all, i)[j]),
    decreases all.len() - i,
{
    if i < all.len() {
        let (first, next) = if is_flow_header(all, i) {
            lemma_plain_flow(all, i);
            lemma_flow_count_bound(all, i + 1, indent(all[i]) + 2);
            (flow_line(all, i), i + 1 + flow_entries(all, i).len())
        } else {
            (all[i], i + 1)
        };
        lemma_plain_compacted(all, next);
        let rest = compacted(all, next);
        assert(compacted(all, i) == seq![first] + rest);
        assert forall|j: int| 0 <= j < compacted(all, i).len() implies is_plain(
            #[trigger] compacted(all, i)[j],
        ) by {
            if j > 0 {
                assert(compacted(all, i)[j] == rest[j - 1]);
            }
        }
    }
}

/// The first `n` lines, with the blank lines above them.
spec fn spaced_lines(all: Seq<Seq<char>>, n: int) -> Seq<Seq<char>>
    decreases n,
{
    if n <= 0 {
        Seq::empty()
    } else if is_set_apart(all, n - 1) {
        spaced_lines(all, n - 1).push(Seq::empty()).push(all[n - 1])
    } else {
        spaced_lines(all, n - 1).push(all[n - 1])
    }
}

proof fn lemma_spaced(all: Seq<Seq<char>>, n: int)
    requires
        0 <= n <= all.len(),
        forall|j: int| 0 <= j < all.len() ==> is_plain(#[trigger] all[j]),
    ensures
        spaced(all, n) == unlines(spaced_lines(all, n)),
        forall|j: int|
            0 <= j < spaced_lines(all, n).len() ==> is_line(#[trigger] spaced_lines(all, n)[j]),
        non_blank(spaced_lines(all, n)) == non_blank(all.take(n)),
    decreases n,
{
    if n > 0 {
        lemma_spaced(all, n - 1);
        let was = spaced_lines(all, n - 1);
        let last = all[n - 1];
        let none = Seq::<char>::empty();
        assert(is_plain(last));
        assert(is_line(last)) by {
            if last.len() > 0 {
                assert(last.contains(last.last()));
            }
        }
        assert(all.take(n).drop_last() =~= all.take(n - 1));
        assert(all.take(n).last() == last);
        assert(non_blank(all.take(n)) == if trim_start(last).len() > 0 {
            non_blank(all.take(n - 1)).push(last)
        } else {
            non_blank(all.take(n - 1))
        });
        if is_set_apart(all, n - 1) {
            let mid = was.push(none);
            assert(mid.drop_last() =~= was);
            assert(mid.push(last).drop_last() =~= mid);
            assert(unlines(mid) == unlines(was) + none + "\n"@);
            assert(unlines(was) + none + "\n"@ =~= unlines(was) + "\n"@);
            assert(trim_start(none) == none);
            assert(non_blank(mid) == non_blank(was));
            assert(spaced_lines(all, n) == mid.push(last));
        } else {
            assert(was.push(last).drop_last() =~= was);
            assert(spaced(all, n - 1) + none =~= spaced(all, n - 1));
            assert(spaced_lines(all, n) == was.push(last));
        }
    } else {
        assert(all.take(n) =~= Seq::empty());
    }
}

/// Laying out a lockfile adds nothing but blank lines to the lines that it puts
/// in flow style: without them the lines are the same, in the same order.
pub proof fn law_only_blank_lines_are_added(yaml: Seq<char>)
    requires
        !yaml.contains('\r'),
    ensures
        non_blank(lines(parity_format(yaml))) == non_blank(compacted(lines(yaml), 0)),
{
    let all = compacted(lines(yaml), 0);
    let n = all.len() as int;
    lemma_plain_lines(yaml);
    lemma_plain_compacted(lines(yaml), 0);
    lemma_spaced(all, n);
    lemma_lines(spaced_lines(all, n));
    assert(all.take(n) =~= all);
}

/// The header of a block that is laid out in flow style.
pub open spec fn is_header(line: Seq<char>) -> bool {
    trim_start(line) == "resolution:"@ || trim_start(line) == "engines:"@
}

/// A line with a key and a value at a column.
pub open spec fn is_pair(line: Seq<char>, column: nat) -> bool {
    &&& indent(line) == column
    &&& exists|i: int|
        0 <= i && i + 1 < trim_start(line).len() && #[trigger] trim_start(line)[i] == ':'
            && trim_start(line)[i + 1] == ' '
}

/// Texts with a comma and a space between them.
pub open spec fn glued(parts: Seq<Seq<char>>) -> Seq<char>
    decreases parts.len(),
{
    if parts.len() == 0 {
        Seq::empty()
    } else if parts.len() == 1 {
        parts[0]
    } else {
        parts[0] + ", "@ + glued(parts.drop_first())
    }
}

/// The lines from `a` on before `b`, without their indentation.
pub open spec fn stripped(all: Seq<Seq<char>>, a: int, b: int) -> Seq<Seq<char>> {
    Seq::new((b - a) as nat, |j: int| trim_start(all[a + j]))
}

/// Whether the lines from `a` on before `b` are laid out as a row: one line as it is,
/// or a header with all the entries under it.
pub open spec fn is_row_of(all: Seq<Seq<char>>, row: Seq<char>, a: int, b: int) -> bool {
    let inner = indent(all[a]) + 2;
    &&& 0 <= a < b <= all.len()
    &&& if is_header(all[a]) && a + 1 < all.len() && is_pair(all[a + 1], inner) {
        &&& b > a + 1
        &&& forall|j: int| a < j < b ==> is_pair(#[trigger] all[j], inner)
        &&& b < all.len() ==> !is_pair(all[b], inner)
        &&& row == spaces(indent(all[a])) + trim_start(all[a]) + " {"@ + glued(
            stripped(all, a + 1, b),
        ) + "}"@
    } else {
        b == a + 1 && row == all[a]
    }
}

/// Where the lines of a row end.
pub open spec fn end_of(all: Seq<Seq<char>>, starts: Seq<int>, k: int) -> int {
    if k + 1 < starts.len() {
        starts[k + 1]
    } else {
        all.len() as int
    }
}

/// Whether some rows lay out all lines from one on, in order: each line belongs to
/// one row.
pub open spec fn are_rows_of(
    all: Seq<Seq<char>>,
    from: int,
    rows: Seq<Seq<char>>,
    starts: Seq<int>,
) -> bool {
    &&& rows.len() == starts.len()
    &&& rows.len() == 0 <==> from == all.len()
    &&& rows.len() > 0 ==> starts[0] == from
    &&& forall|k: int|
        0 <= k < rows.len() ==> is_row_of(all, #[trigger] rows[k], starts[k], end_of(all, starts, k))
}

/// Whether a blank line stands above row `k`: it is a key of the document behind others,
/// or the header of an entry in one of the sections with entries.
pub open spec fn has_gap(rows: Seq<Seq<char>>, k: int) -> bool {
    let stripped = trim_start(rows[k]);
    ||| k > 0 && indent(rows[k]) == 0 && stripped.len() > 0
    ||| {
        &&& indent(rows[k]) == 2
        &&& stripped.len() > 0 && stripped[0] != '-' && stripped.contains(':')
        &&& exists|t: int|
            0 <= t < k && is_top_row(#[trigger] rows[t]) && (forall|u: int|
                t < u < k ==> !is_top_row(#[trigger] rows[u])) && (trim_start(rows[t])
                == "importers:"@ || trim_start(rows[t]) == "packages:"@ || trim_start(rows[t])
                == "snapshots:"@ || trim_start(rows[t]) == "catalogs:"@)
    }
}

/// A row with a key of the document.
pub open spec fn is_top_row(row: Seq<char>) -> bool {
    indent(row) == 0 && trim_start(row).len() > 0
}

/// The first `n` rows, each with its line feed, and with blank lines above those that
/// have a gap.
pub open spec fn printed(rows: Seq<Seq<char>>, n: int) -> Seq<char>
    decreases n,
{
    if n <= 0 {
        Seq::empty()
    } else if has_gap(rows, n - 1) {
        printed(rows, n - 1) + seq!['\n'] + rows[n - 1] + seq!['\n']
    } else {
        printed(rows, n - 1) + rows[n - 1] + seq!['\n']
    }
}

proof fn lemma_pair(line: Seq<char>, at: nat)
    ensures
        is_flow_entry(line, at) <==> is_pair(line, at),
{
    reveal_strlit(": ");
    let s = trim_start(line);
    lemma_find_from(s, ": "@, 0);
    if let Some(k) = find(s, ": "@) {
        assert(s.subrange(k, k + 2)[0] == s[k] && s.subrange(k, k + 2)[1] == s[k + 1]);
    }
    if is_pair(line, at) {
        let i = choose|i: int| 0 <= i && i + 1 < s.len() && #[trigger] s[i] == ':' && s[i + 1] == ' ';
        assert(s.subrange(i, i + 2) =~= ": "@);
        assert(occurs_at(s, ": "@, i));
    }
}

proof fn lemma_glued_push(parts: Seq<Seq<char>>, last: Seq<char>)
    requires
        parts.len() > 0,
    ensures
        glued(parts.push(last)) == glued(parts) + ", "@ + last,
    decreases parts.len(),
{
    let all = parts.push(last);
    assert(all.drop_first() =~= parts.drop_first().push(last));
    if parts.len() == 1 {
        assert(all.drop_first() =~= seq![last]);
        assert(glued(seq![last]) == last);
        assert(all[0] == parts[0]);
    } else {
        assert(all[0] == parts[0]);
        lemma_glued_push(parts.drop_first(), last);
        assert(parts[0] + ", "@ + (glued(parts.drop_first()) + ", "@ + last) =~= parts[0] + ", "@
            + glued(parts.drop_first()) + ", "@ + last);
    }
}

proof fn lemma_glued(parts: Seq<Seq<char>>)
    ensures
        join(parts, ", "@) == glued(parts),
    decreases parts.len(),
{
    if parts.len() > 1 {
        lemma_glued(parts.drop_last());
        lemma_glued_push(parts.drop_last(), parts.last());
        assert(parts.drop_last().push(parts.last()) =~= parts);
    }
}

proof fn lemma_flow_count(all: Seq<Seq<char>>, from: int, at: nat)
    requires
        0 <= from <= all.len(),
    ensures
        ({
            let n = flow_count(all, from, at);
            &&& from + n <= all.len()
            &&& forall|j: int| from <= j < from + n ==> is_pair(#[trigger] all[j], at)
            &&& from + n < all.len() ==> !is_pair(all[from + n], at)
        }),
    decreases all.len() - from,
{
    if from < all.len() {
        lemma_pair(all[from], at);
        if is_flow_entry(all[from], at) {
            lemma_flow_count(all, from + 1, at);
        }
    }
}

proof fn lemma_row(all: Seq<Seq<char>>, i: int)
    requires
        0 <= i < all.len(),
    ensures
        is_flow_header(all, i) ==> is_row_of(
            all,
            flow_line(all, i),
            i,
            i + 1 + flow_entries(all, i).len(),
        ),
        !is_flow_header(all, i) ==> is_row_of(all, all[i], i, i + 1),
{
    let inner = indent(all[i]) + 2;
    lemma_flow_count(all, i + 1, inner);
    if i + 1 < all.len() {
        lemma_pair(all[i + 1], inner);
    }
    if is_flow_header(all, i) {
        let n = flow_entries(all, i).len();
        let parts = flow_entries(all, i);
        assert(parts =~= stripped(all, i + 1, i + 1 + n));
        lemma_glued(parts);
        reveal_strlit("resolution");
        reveal_strlit("resolution:");
        reveal_strlit("engines");
        reveal_strlit("engines:");
        reveal_strlit(": {");
        reveal_strlit(" {");
        let key = flow_key(all[i])->0;
        assert(key + ": {"@ =~= trim_start(all[i]) + " {"@);
        let margin = spaces(indent(all[i]));
        assert(margin + key + ": {"@ =~= margin + (key + ": {"@));
        assert(margin + trim_start(all[i]) + " {"@ =~= margin + (trim_start(all[i]) + " {"@));
    }
}

proof fn lemma_rows(all: Seq<Seq<char>>, i: int) -> (starts: Seq<int>)
    requires
        0 <= i <= all.len(),
    ensures
        are_rows_of(all, i, compacted(all, i), starts),
    decreases all.len() - i,
{
    let rows = compacted(all, i);
    if i < all.len() {
        lemma_flow_count(all, i + 1, indent(all[i]) + 2);
        lemma_row(all, i);
        let next = if is_flow_header(all, i) {
            i + 1 + flow_entries(all, i).len()
        } else {
            i + 1
        };
        let rest = lemma_rows(all, next);
        let tail = compacted(all, next);
        let starts = seq![i] + rest;
        assert(rows =~= seq![rows[0]] + tail);
        assert forall|k: int| 0 <= k < rows.len() implies is_row_of(
            all,
            #[trigger] rows[k],
            starts[k],
            end_of(all, starts, k),
        ) by {
            if k > 0 {
                assert(rows[k] == tail[k - 1]);
                assert(starts[k] == rest[k - 1]);
                assert(end_of(all, starts, k) == end_of(all, rest, k - 1));
            } else {
                assert(end_of(all, starts, 0) == next);
            }
        }
        starts
    } else {
        Seq::empty()
    }
}

proof fn lemma_in_entries(rows: Seq<Seq<char>>, k: int)
    requires
        0 <= k <= rows.len(),
    ensures
        in_entries(rows, k) <==> exists|t: int|
            0 <= t < k && is_top_row(#[trigger] rows[t]) && (forall|u: int|
                t < u < k ==> !is_top_row(#[trigger] rows[u])) && (trim_start(rows[t])
                == "importers:"@ || trim_start(rows[t]) == "packages:"@ || trim_start(rows[t])
                == "snapshots:"@ || trim_start(rows[t]) == "catalogs:"@),
    decreases k,
{
    if k > 0 {
        lemma_in_entries(rows, k - 1);
        if is_top(rows[k - 1]) {
            assert(is_top_row(rows[k - 1]));
        } else {
            assert(!is_top_row(rows[k - 1]));
            if in_entries(rows, k - 1) {
                let t = choose|t: int|
                    0 <= t < k - 1 && is_top_row(#[trigger] rows[t]) && (forall|u: int|
                        t < u < k - 1 ==> !is_top_row(#[trigger] rows[u])) && (trim_start(rows[t])
                        == "importers:"@ || trim_start(rows[t]) == "packages:"@ || trim_start(
                        rows[t],
                    ) == "snapshots:"@ || trim_start(rows[t]) == "catalogs:"@);
                assert(is_top_row(rows[t]));
                assert forall|u: int| t < u < k implies !is_top_row(#[trigger] rows[u]) by {}
            }
        }
    }
}

proof fn lemma_gap(rows: Seq<Seq<char>>, k: int)
    requires
        0 <= k < rows.len(),
    ensures
        is_set_apart(rows, k) <==> has_gap(rows, k),
{
    let s = trim_start(rows[k]);
    lemma_in_entries(rows, k);
    lemma_find_char(s, ':');
    if s.contains(':') {
        let i = choose|i: int| 0 <= i < s.len() && s[i] == ':';
        assert(find_char(s, ':') is Some);
    }
    if find_char(s, ':') is Some {
        assert(s.contains(s[find_char(s, ':')->0]));
    }
}

proof fn lemma_printed(rows: Seq<Seq<char>>, n: int)
    requires
        0 <= n <= rows.len(),
    ensures
        spaced(rows, n) == printed(rows, n),
    decreases n,
{
    reveal_strlit("\n");
    assert("\n"@ =~= seq!['\n']);
    if n > 0 {
        lemma_printed(rows, n - 1);
        lemma_gap(rows, n - 1);
        assert(printed(rows, n - 1) + Seq::<char>::empty() =~= printed(rows, n - 1));
    }
}

/// Laying out a lockfile loses nothing. Each line of the text belongs to one row of the
/// result, in order. A `resolution:` or `engines:` line with entries under it makes one
/// row with all of these entries between braces, with a comma and a space between them;
/// every other line is a row as it is. Blank lines stand above the keys of the document
/// and the entries of its sections.
pub proof fn law_layout_loses_nothing(yaml: Seq<char>) -> (r: (Seq<Seq<char>>, Seq<int>))
    ensures
        are_rows_of(lines(yaml), 0, r.0, r.1),
        parity_format(yaml) == printed(r.0, r.0.len() as int),
{
    let all = lines(yaml);
    let starts = lemma_rows(all, 0);
    let rows = compacted(all, 0);
    lemma_printed(rows, rows.len() as int);
    (rows, starts)
}

/// Entries that hold no comma with a space behind it are told apart again: what stands
/// between the braces falls apart into these entries, at each comma with a space.
pub proof fn law_entries_are_told_apart(parts: Seq<Seq<char>>)
    requires
        parts.len() > 0,
        forall|i: int|
            0 <= i < parts.len() ==> find(#[trigger] parts[i], ", "@) is None && (
            parts[i].len() == 0 || parts[i].last() != ','),
    ensures
        split_text(glued(parts), ", "@) == parts,
    decreases parts.len(),
{
    reveal_strlit(", ");
    let sep = ", "@;
    let first = parts[0];
    lemma_find_from(first, sep, 0);
    if parts.len() == 1 {
        assert(glued(parts) == first);
        assert(seq![first] =~= parts);
    } else {
        let rest = parts.drop_first();
        assert forall|i: int| 0 <= i < rest.len() implies find(#[trigger] rest[i], ", "@) is None && (
        rest[i].len() == 0 || rest[i].last() != ',') by {
            assert(rest[i] == parts[i + 1]);
        }
        law_entries_are_told_apart(rest);
        let s = glued(parts);
        let n = first.len() as int;
        assert(s == first + sep + glued(rest));
        lemma_find_from(s, sep, 0);
        assert(s.subrange(n, n + 2) =~= sep);
        assert(occurs_at(s, sep, n));
        assert forall|j: int| 0 <= j < n implies !occurs_at(s, sep, j) by {
            if occurs_at(s, sep, j) {
                let part = s.subrange(j, j + 2);
                assert(part[0] == s[j] && part[1] == s[j + 1]);
                assert(s[j] == ',' && s[j + 1] == ' ');
                if j + 1 < n {
                    assert(first.subrange(j, j + 2) =~= sep);
                    assert(occurs_at(first, sep, j));
                } else {
                    assert(first.last() == s[j]);
                }
            }
        }
        assert(find(s, sep) == Some(n));
        assert(s.take(n) =~= first);
        assert(s.skip(n + 2) =~= glued(rest));
        assert(seq![first] + rest =~= parts);
    }
}

} // verus!
