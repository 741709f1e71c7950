//! The layout of a `pnpm-lock.yaml`: flow-style blocks and blank lines.
use vstd::prelude::*;
use crate::text::{
    chars, find, find_char, find_text, indent, indent_of, join, lines, position, push_chars,
    push_spaces, push_str, same, spaces, string, text_lines, texts, trim_start, trimmed_start,
};

verus! {

/// The key of a block that is written in flow style.
pub open spec fn flow_key(line: Seq<char>) -> Option<Seq<char>> {
    if trim_start(line) == "resolution:"@ {
        Some("resolution"@)
    } else if trim_start(line) == "engines:"@ {
        Some("engines"@)
    } else {
        None
    }
}

/// Whether a line is a `key: value` at the given indentation.
pub open spec fn is_flow_entry(line: Seq<char>, at: nat) -> bool {
    trim_start(line).len() > 0 && indent(line) == at && find(trim_start(line), ": "@) is Some
}

/// The number of lines from `from` on that are `key: value` entries.
pub open spec fn flow_count(all: Seq<Seq<char>>, from: int, at: nat) -> nat
    decreases all.len() - from,
{
    if 0 <= from < all.len() && is_flow_entry(all[from], at) {
        1 + flow_count(all, from + 1, at)
    } else {
        0
    }
}

/// The entries behind the header in line `i`, without their indentation.
pub open spec fn flow_entries(all: Seq<Seq<char>>, i: int) -> Seq<Seq<char>> {
    Seq::new(
        flow_count(all, i + 1, indent(all[i]) + 2),
        |j: int| trim_start(all[i + 1 + j]),
    )
}

/// The block with its header in line `i` in flow style.
pub open spec fn flow_line(all: Seq<Seq<char>>, i: int) -> Seq<char> {
    spaces(indent(all[i])) + flow_key(all[i])->0 + ": {"@ + join(flow_entries(all, i), ", "@)
        + "}"@
}

/// Whether line `i` is the header of a block that is written in flow style.
pub open spec fn is_flow_header(all: Seq<Seq<char>>, i: int) -> bool {
    flow_key(all[i]) is Some && flow_entries(all, i).len() > 0
}

/// The lines from `i` on, with `resolution:` and `engines:` blocks in flow
/// style.
pub open spec fn compacted(all: Seq<Seq<char>>, i: int) -> Seq<Seq<char>>
    decreases all.len() - i,
{
    if i < 0 || i >= all.len() {
        Seq::empty()
    } else if is_flow_header(all, i) {
        proof {
            lemma_flow_count_bound(all, i + 1, indent(all[i]) + 2);
        }
        seq![flow_line(all, i)] + compacted(all, i + 1 + flow_entries(all, i).len())
    } else {
        seq![all[i]] + compacted(all, i + 1)
    }
}

/// A line with a key of the document itself.
pub open spec fn is_top(line: Seq<char>) -> bool {
    indent(line) == 0 && trim_start(line).len() > 0
}

/// The header of a section whose entries are set apart.
pub open spec fn is_entry_section(line: Seq<char>) -> bool {
    line == "importers:"@ || line == "packages:"@ || line == "snapshots:"@ || line == "catalogs:"@
}

/// Whether line `i` stands in a section whose entries are set apart.
pub open spec fn in_entries(all: Seq<Seq<char>>, i: int) -> bool
    decreases i,
{
    if i <= 0 {
        false
    } else if is_top(all[i - 1]) {
        is_entry_section(trim_start(all[i - 1]))
    } else {
        in_entries(all, i - 1)
    }
}

/// The header of an entry in line `i`.
pub open spec fn is_entry_header(all: Seq<Seq<char>>, i: int) -> bool {
    let stripped = trim_start(all[i]);
    in_entries(all, i) && indent(all[i]) == 2 && !(stripped.len() > 0 && stripped[0] == '-')
        && find_char(stripped, ':') is Some
}

/// Whether a blank line stands above line `i`.
pub open spec fn is_set_apart(all: Seq<Seq<char>>, i: int) -> bool {
    (is_top(all[i]) && i > 0) || is_entry_header(all, i)
}

/// The first `n` lines, with blank lines above sections and entries.
pub open spec fn spaced(all: Seq<Seq<char>>, n: int) -> Seq<char>
    decreases n,
{
    if n <= 0 {
        Seq::empty()
    } else {
        spaced(all, n - 1) + (if is_set_apart(all, n - 1) {
            "\n"@
        } else {
            Seq::empty()
        }) + all[n - 1] + "\n"@
    }
}

/// A serialized lockfile in pnpm's layout.
pub open spec fn parity_format(yaml: Seq<char>) -> Seq<char> {
    let compact = compacted(lines(yaml), 0);
    spaced(compact, compact.len() as int)
}

fn flow_entry(line: &[char], at: u128) -> (r: bool)
    ensures
        r == is_flow_entry(line@, at as nat),
{
    let stripped = trimmed_start(line);
    let sep = chars(": ");
    stripped.len() > 0 && indent_of(line) == at && find_text(stripped, &sep).is_some()
}

pub proof fn lemma_flow_count_bound(all: Seq<Seq<char>>, from: int, at: nat)
    requires
        0 <= from <= all.len(),
    ensures
        from + flow_count(all, from, at) <= all.len(),
    decreases all.len() - from,
{
    if from < all.len() && is_flow_entry(all[from], at) {
        lemma_flow_count_bound(all, from + 1, at);
    }
}

/// Append the flow form of the block whose header is line `i`; gives the
/// number of entries, and appends nothing where there are none.
fn push_flow_line(all: &Vec<Vec<char>>, i: usize, out: &mut Vec<Vec<char>>) -> (r: usize)
    requires
        i < all@.len(),
    ensures
        is_flow_header(texts(all@), i as int) ==> r == flow_entries(texts(all@), i as int).len()
            && texts(final(out)@) == texts(old(out)@).push(flow_line(texts(all@), i as int)),
        !is_flow_header(texts(all@), i as int) ==> r == 0 && final(out)@ == old(out)@,
        i + 1 + r <= all@.len(),
{
    let ghost view = texts(all@);
    let n: usize = all.len();
    let header = all[i].as_slice();
    proof {
        assert(view[i as int] == header@);
    }
    let stripped = string(trimmed_start(header));
    let is_resolution = same(stripped.as_str(), "resolution:");
    if !is_resolution && !same(stripped.as_str(), "engines:") {
        return 0;
    }
    let margin: u128 = indent_of(header);
    proof {
        assert(header.len() <= usize::MAX);
    }
    let at: u128 = margin + 2;
    let mut entries: Vec<char> = Vec::new();
    let mut j: usize = i + 1;
    let ghost count = flow_count(view, i + 1, at as nat);
    let ghost listed = Seq::new(count, |k: int| trim_start(view[i + 1 + k]));
    proof {
        lemma_flow_count_bound(view, i + 1, at as nat);
        assert(listed == flow_entries(view, i as int));
        assert(join(listed.take(0), ", "@) == Seq::<char>::empty());
    }
    while j < n && flow_entry(all[j].as_slice(), at)
        invariant
            view == texts(all@),
            n == all@.len(),
            i < j <= n,
            count == (j - i - 1) + flow_count(view, j as int, at as nat),
            count == flow_count(view, i + 1, at as nat),
            i + 1 + count <= n,
            listed == Seq::new(count, |k: int| trim_start(view[i + 1 + k])),
            entries@ == join(listed.take(j - i - 1), ", "@),
        decreases n - j,
    {
        let ghost k = j - i - 1;
        proof {
            assert(view[j as int] == all@[j as int]@);
            assert(listed.take(k + 1).drop_last() == listed.take(k));
            assert(listed.take(k + 1).last() == trim_start(view[j as int]));
        }
        if j > i + 1 {
            push_str(&mut entries, ", ");
        }
        push_chars(&mut entries, trimmed_start(all[j].as_slice()));
        proof {
            assert(entries@ == join(listed.take(k + 1), ", "@));
        }
        j = j + 1;
    }
    proof {
        if j < n {
            assert(view[j as int] == all@[j as int]@);
        }
        assert(flow_count(view, j as int, at as nat) == 0);
        assert(listed.take(count as int) == listed);
    }
    if j == i + 1 {
        return 0;
    }
    let mut line: Vec<char> = Vec::new();
    push_spaces(&mut line, margin);
    if is_resolution {
        push_str(&mut line, "resolution");
    } else {
        push_str(&mut line, "engines");
    }
    push_str(&mut line, ": {");
    push_chars(&mut line, entries.as_slice());
    push_str(&mut line, "}");
    proof {
        let key = flow_key(header@)->0;
        assert(Seq::<char>::empty() + spaces(margin as nat) == spaces(margin as nat));
        assert(line@ == flow_line(view, i as int));
        assert(texts(out@.push(line)) == texts(out@).push(line@));
    }
    out.push(line);
    j - i - 1
}

/// Put `resolution:` and `engines:` blocks in flow style.
fn compact(all: &Vec<Vec<char>>) -> (r: Vec<Vec<char>>)
    ensures
        texts(r@) == compacted(texts(all@), 0),
{
    let ghost view = texts(all@);
    let mut out: Vec<Vec<char>> = Vec::new();
    let mut i: usize = 0;
    proof {
        assert(texts(out@) + compacted(view, 0) == compacted(view, 0));
    }
    while i < all.len()
        invariant
            view == texts(all@),
            i <= all@.len(),
            texts(out@) + compacted(view, i as int) == compacted(view, 0),
        decreases all.len() - i,
    {
        let ghost before = texts(out@);
        let n: usize = push_flow_line(all, i, &mut out);
        if n > 0 {
            proof {
                let line = flow_line(view, i as int);
                assert(before + (seq![line] + compacted(view, i + 1 + n)) == before.push(line)
                    + compacted(view, i + 1 + n));
            }
            i = i + 1 + n;
        } else {
            let mut line: Vec<char> = Vec::new();
            push_chars(&mut line, all[i].as_slice());
            proof {
                assert(line@ == view[i as int]);
                assert(texts(out@.push(line)) == texts(out@).push(line@));
                assert(before + (seq![line@] + compacted(view, i + 1)) == before.push(line@)
                    + compacted(view, i + 1));
            }
            out.push(line);
            i = i + 1;
        }
    }
    proof {
        assert(texts(out@) + compacted(view, all@.len() as int) == texts(out@));
    }
    out
}

/// Put a serialized lockfile into the layout that pnpm itself writes: the
/// `resolution:` and `engines:` blocks in flow style, and a blank line above
/// every section and every entry of `importers:`, `packages:`, `snapshots:`
/// and `catalogs:`.
pub fn reformat_for_pnpm_parity(yaml: &str) -> (r: String)
    ensures
        r@ == parity_format(yaml@),
{
    let all = compact(&text_lines(&chars(yaml)));
    let ghost view = compacted(lines(yaml@), 0);
    let mut out: Vec<char> = Vec::new();
    let mut inside: bool = false;
    let mut i: usize = 0;
    while i < all.len()
        invariant
            view == texts(all@),
            i <= all@.len(),
            inside == in_entries(view, i as int),
            out@ == spaced(view, i as int),
        decreases all.len() - i,
    {
        let line = all[i].as_slice();
        proof {
            assert(view[i as int] == line@);
        }
        let stripped = trimmed_start(line);
        let margin: u128 = indent_of(line);
        let top = margin == 0 && stripped.len() > 0;
        let header = inside && margin == 2 && !(stripped.len() > 0 && stripped[0] == '-')
            && position(stripped, ':').is_some();
        let ghost before = out@;
        if (top && i > 0) || header {
            push_str(&mut out, "\n");
        } else {
            proof {
                assert(before + Seq::<char>::empty() == before);
            }
        }
        push_chars(&mut out, line);
        push_str(&mut out, "\n");
        if top {
            let name = string(stripped);
            inside = same(name.as_str(), "importers:") || same(name.as_str(), "packages:") || same(
                name.as_str(),
                "snapshots:",
            ) || same(name.as_str(), "catalogs:");
        }
        i = i + 1;
    }
    string(out.as_slice())
}

} // verus!
