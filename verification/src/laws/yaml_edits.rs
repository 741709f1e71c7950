//! What the edits of a workspace yaml do to its entries and to its text.
use vstd::prelude::*;
use crate::laws::berry_block::law_get;
use crate::laws::workspace::{lemma_submap_valid, lemma_with_key, lemma_with_submap};
use crate::manifest::yaml_edit::{
    additions_of, appended, bridged, bumped_lines, change, changes, child_indent, content_end,
    depth, diff, edited_workspace, full_lines, has_mark_at, injected, inserted, is_bumped, is_item,
    is_passed_over, key_column, key_text, line_content, opening_failure, patched, patched_by,
    patches_of, placed, removal, removals, rendered_children, rendered_entry, rendered_item,
    rendered_items, rendered_lines, scalar_text, stripped, submap, with_additions,
    with_allow_builds, with_approved, with_edits, with_indented_items, with_patches,
    without_map_entry, without_patched_dependency, workspace_mapping, AdditionView, EditView,
    YamlEditErrorView,
};
use crate::manifest::yaml_source::{patched_source, payload_text, BlockView, YamlPatchView};
use crate::text::{char_index, find_char, indent, lemma_find_char, lines, spaces, trim_start};
use crate::yaml::{
    equal, find_key, get, is_valid_mapping, lemma_find_key_from, mapping, with_key, without_key,
    YamlEntries, YamlView,
};

verus! {

/// The mapping under a key is the one that stands there; where the key is missing it has
/// no entries, and another value is refused.
pub proof fn law_submap(entries: YamlEntries, key: Seq<char>, m: YamlEntries)
    requires
        is_valid_mapping(entries),
    ensures
        entries.contains((YamlView::String(key), YamlView::Mapping(m))) ==> submap(entries, key)
            == Ok::<YamlEntries, YamlEditErrorView>(m),
        (forall|v: YamlView| !(#[trigger] entries.contains((YamlView::String(key), v)))) ==> submap(
            entries,
            key,
        ) == Ok::<YamlEntries, YamlEditErrorView>(Seq::empty()),
        (exists|v: YamlView| #[trigger]
            entries.contains((YamlView::String(key), v)) && !(v is Mapping) && !(v is Tagged))
            ==> submap(entries, key) == Err::<YamlEntries, YamlEditErrorView>(
            YamlEditErrorView::ValueNotAMapping(key),
        ),
{
    law_get(entries, key, YamlView::Mapping(m));
    assert(mapping(YamlView::Mapping(m)) == Some(m));
    if exists|v: YamlView| #[trigger]
        entries.contains((YamlView::String(key), v)) && !(v is Mapping) && !(v is Tagged) {
        let v = choose|v: YamlView| #[trigger]
            entries.contains((YamlView::String(key), v)) && !(v is Mapping) && !(v is Tagged);
        law_get(entries, key, v);
    }
}

proof fn lemma_with_approved(m: YamlEntries, names: Seq<Seq<char>>, n: int, k: Seq<char>)
    requires
        is_valid_mapping(m),
        0 <= n <= names.len(),
    ensures
        is_valid_mapping(with_approved(m, names, n)),
        get(with_approved(m, names, n), k) == (if names.take(n).contains(k) {
            Some(YamlView::Bool(true))
        } else {
            get(m, k)
        }),
    decreases n,
{
    if n > 0 {
        lemma_with_approved(m, names, n - 1, k);
        lemma_with_key(with_approved(m, names, n - 1), names[n - 1], YamlView::Bool(true), k);
        let (a, b) = (names.take(n - 1), names.take(n));
        assert(b[n - 1] == names[n - 1]);
        if a.contains(k) {
            let i = choose|i: int| 0 <= i < a.len() && a[i] == k;
            assert(b[i] == k);
        }
        if b.contains(k) && k != names[n - 1] {
            let i = choose|i: int| 0 <= i < b.len() && b[i] == k;
            assert(a[i] == k);
        }
    } else {
        assert(!names.take(0).contains(k));
    }
}

/// After names were approved in a workspace yaml, `allowBuilds` is `true` for each of
/// them, and for every other name what it was. The other keys of the file are as they
/// were.
pub proof fn law_names_are_approved(
    entries: YamlEntries,
    names: Seq<Seq<char>>,
    n: Seq<char>,
    v: YamlView,
    q: Seq<char>,
)
    requires
        is_valid_mapping(entries),
        submap(entries, "allowBuilds"@) is Ok,
    ensures
        with_allow_builds(entries, names) matches Ok(after) && {
            let was = submap(entries, "allowBuilds"@)->Ok_0;
            &&& is_valid_mapping(after)
            &&& submap(after, "allowBuilds"@) matches Ok(m) && (m.contains((YamlView::String(n), v))
                <==> if names.contains(n) {
                v == YamlView::Bool(true)
            } else {
                was.contains((YamlView::String(n), v))
            })
            &&& q != "allowBuilds"@ ==> (after.contains((YamlView::String(q), v))
                <==> entries.contains((YamlView::String(q), v)))
        },
{
    let key = "allowBuilds"@;
    lemma_submap_valid(entries, key);
    let was = submap(entries, key)->Ok_0;
    let m = with_approved(was, names, names.len() as int);
    lemma_with_approved(was, names, names.len() as int, n);
    assert(names.take(names.len() as int) =~= names);
    lemma_with_submap(entries, key, m, q);
    let after = with_allow_builds(entries, names)->Ok_0;
    law_get(m, n, v);
    law_get(was, n, v);
    law_get(after, q, v);
    law_get(entries, q, v);
}

proof fn lemma_contains_concat<T>(a: Seq<T>, b: Seq<T>)
    ensures
        forall|x: T| #[trigger] a.contains(x) ==> (a + b).contains(x),
        forall|x: T| #[trigger] b.contains(x) ==> (a + b).contains(x),
{
    assert forall|x: T| #[trigger] a.contains(x) implies (a + b).contains(x) by {
        let i = choose|i: int| 0 <= i < a.len() && a[i] == x;
        assert((a + b)[i] == x);
    }
    assert forall|x: T| #[trigger] b.contains(x) implies (a + b).contains(x) by {
        let i = choose|i: int| 0 <= i < b.len() && b[i] == x;
        assert((a + b)[a.len() + i] == x);
    }
}

proof fn lemma_removal_made(
    before: YamlEntries,
    after: YamlEntries,
    route: Seq<Seq<char>>,
    from: int,
    i: int,
    key: Seq<char>,
)
    requires
        0 <= from <= i < before.len(),
        before[i].0 == YamlView::String(key),
        find_key(after, key) is None,
    ensures
        removals(before, after, route, from) matches Ok(edits) ==> edits.contains(
            removal(route, key),
        ),
    decreases i - from,
{
    if let Ok(edits) = removals(before, after, route, from) {
        let rest = removals(before, after, route, from + 1)->Ok_0;
        if from == i {
            let one = seq![removal(route, key)];
            assert(one[0] == removal(route, key));
            assert(one.contains(removal(route, key)));
            lemma_contains_concat(one, rest);
        } else {
            lemma_removal_made(before, after, route, from + 1, i, key);
            if let YamlView::String(k) = before[from].0 {
                if find_key(after, k) is None {
                    lemma_contains_concat(seq![removal(route, k)], rest);
                }
            }
        }
    }
}

proof fn lemma_change_made(
    before: YamlEntries,
    after: YamlEntries,
    route: Seq<Seq<char>>,
    from: int,
    i: int,
    key: Seq<char>,
)
    requires
        0 <= from <= i < after.len(),
        after[i].0 == YamlView::String(key),
    ensures
        changes(before, after, route, from) matches Ok(edits) ==> (change(
            before,
            after,
            route,
            i,
            key,
        ) matches Ok(made) && forall|e: EditView| #[trigger]
            made.contains(e) ==> edits.contains(e)),
    decreases i - from,
{
    if let Ok(edits) = changes(before, after, route, from) {
        if let YamlView::String(k) = after[from].0 {
            let here = change(before, after, route, from, k)->Ok_0;
            let rest = changes(before, after, route, from + 1)->Ok_0;
            lemma_contains_concat(here, rest);
            if from < i {
                lemma_change_made(before, after, route, from + 1, i, key);
                let made = change(before, after, route, i, key)->Ok_0;
                assert forall|e: EditView| #[trigger] made.contains(e) implies edits.contains(e) by {
                    assert(rest.contains(e));
                }
            }
        }
    }
}

/// Everything that differs is edited. A key that is gone is removed. A key that is new is
/// added with its value. Where a key holds another value, that value takes the place of
/// the one it held, or the differences of the two mappings are edited below the key.
pub proof fn law_differences_are_edited(
    before: YamlEntries,
    after: YamlEntries,
    route: Seq<Seq<char>>,
    key: Seq<char>,
    old_value: YamlView,
    new_value: YamlView,
)
    requires
        is_valid_mapping(before),
        is_valid_mapping(after),
    ensures
        diff(before, after, route) matches Ok(edits) ==> {
            let k = YamlView::String(key);
            let is_gone = forall|v: YamlView| !(#[trigger] after.contains((k, v)));
            let is_new = forall|v: YamlView| !(#[trigger] before.contains((k, v)));
            let below = route.push(key);
            &&& before.contains((k, old_value)) && is_gone ==> edits.contains(
                EditView::Patch(YamlPatchView { route: below, replacement: None }),
            )
            &&& after.contains((k, new_value)) && is_new ==> (bridged(new_value) matches Ok(value)
                && edits.contains(EditView::Add(AdditionView { route, key, value })))
            &&& before.contains((k, old_value)) && after.contains((k, new_value)) && !equal(
                old_value,
                new_value,
            ) ==> match (mapping(old_value), mapping(new_value)) {
                (Some(b), Some(a)) => diff(b, a, below) matches Ok(inner) && forall|e: EditView|
                 #[trigger]
                    inner.contains(e) ==> edits.contains(e),
                (None, Some(a)) if a.len() > 0 => bridged(new_value) matches Ok(value)
                    && edits.contains(EditView::Add(AdditionView { route, key, value }))
                    && edits.contains(
                    EditView::Patch(YamlPatchView { route: below, replacement: None }),
                ),
                _ => bridged(new_value) matches Ok(value) && edits.contains(
                    EditView::Patch(YamlPatchView { route: below, replacement: Some(value) }),
                ),
            }
        },
{
    let k = YamlView::String(key);
    if let Ok(edits) = diff(before, after, route) {
        let x = removals(before, after, route, 0)->Ok_0;
        let y = changes(before, after, route, 0)->Ok_0;
        lemma_contains_concat(x, y);
        law_get(before, key, old_value);
        law_get(after, key, new_value);
        if before.contains((k, old_value)) {
            let i = choose|i: int| 0 <= i < before.len() && before[i] == (k, old_value);
            if find_key(after, key) is None {
                lemma_removal_made(before, after, route, 0, i, key);
            }
        }
        if after.contains((k, new_value)) {
            let i = choose|i: int| 0 <= i < after.len() && after[i] == (k, new_value);
            lemma_change_made(before, after, route, 0, i, key);
            let made = change(before, after, route, i, key)->Ok_0;
            assert(forall|e: EditView| #[trigger] made.contains(e) ==> edits.contains(e));
            if find_key(before, key) is None {
                assert(made.contains(made[0]));
            } else if before.contains((k, old_value)) && !equal(old_value, new_value) {
                if mapping(old_value) is Some && mapping(new_value) is Some {
                } else {
                    assert(made.contains(made[0]));
                    if made.len() == 2 {
                        assert(made.contains(made[1]));
                    }
                }
            }
        }
    }
}

/// The patches among some edits are all of them, in their order.
pub proof fn law_patches_are_kept(edits: Seq<EditView>, p: YamlPatchView)
    ensures
        patches_of(edits).contains(p) <==> edits.contains(EditView::Patch(p)),
    decreases edits.len(),
{
    let r = patches_of(edits);
    let e = EditView::Patch(p);
    if edits.len() > 0 {
        let front = edits.drop_last();
        law_patches_are_kept(front, p);
        lemma_last(edits, e);
        if let EditView::Patch(q) = edits.last() {
            lemma_pushed(patches_of(front), q, p);
        }
    } else {
        assert(!r.contains(p));
        assert(!edits.contains(e));
    }
}

proof fn lemma_last<T>(s: Seq<T>, x: T)
    requires
        s.len() > 0,
    ensures
        s.contains(x) <==> s.drop_last().contains(x) || x == s.last(),
{
    let front = s.drop_last();
    assert(s[s.len() - 1] == s.last());
    if front.contains(x) {
        let i = choose|i: int| 0 <= i < front.len() && front[i] == x;
        assert(s[i] == x);
    }
    if s.contains(x) && x != s.last() {
        let i = choose|i: int| 0 <= i < s.len() && s[i] == x;
        assert(front[i] == x);
    }
}

proof fn lemma_pushed<T>(s: Seq<T>, y: T, x: T)
    ensures
        s.push(y).contains(x) <==> s.contains(x) || x == y,
{
    let r = s.push(y);
    assert(r.drop_last() =~= s);
    lemma_last(r, x);
}

proof fn lemma_placed(sorted: Seq<AdditionView>, a: AdditionView, x: AdditionView)
    ensures
        placed(sorted, a).contains(x) <==> sorted.contains(x) || x == a,
    decreases sorted.len(),
{
    if sorted.len() > 0 && sorted.last().route.len() > a.route.len() {
        lemma_placed(sorted.drop_last(), a, x);
        lemma_pushed(placed(sorted.drop_last(), a), sorted.last(), x);
        lemma_last(sorted, x);
    } else {
        lemma_pushed(sorted, a, x);
    }
}

/// The new entries among some edits are all of them.
pub proof fn law_additions_are_kept(edits: Seq<EditView>, a: AdditionView)
    ensures
        additions_of(edits).contains(a) <==> edits.contains(EditView::Add(a)),
    decreases edits.len(),
{
    let e = EditView::Add(a);
    if edits.len() > 0 {
        let front = edits.drop_last();
        law_additions_are_kept(front, a);
        lemma_last(edits, e);
        if let EditView::Add(b) = edits.last() {
            lemma_placed(additions_of(front), b, a);
        }
    } else {
        assert(!additions_of(edits).contains(a));
        assert(!edits.contains(e));
    }
}

proof fn lemma_content_end(s: Seq<char>, k: int)
    requires
        0 <= k <= s.len(),
    ensures
        0 <= content_end(s, k) <= k,
        forall|i: int| content_end(s, k) <= i < k ==> #[trigger] s[i] == '\n' || s[i] == ' ',
        content_end(s, k) > 0 ==> s[content_end(s, k) - 1] != '\n' && s[content_end(s, k) - 1]
            != ' ',
    decreases k,
{
    if k > 0 && (s[k - 1] == '\n' || s[k - 1] == ' ') {
        lemma_content_end(s, k - 1);
    }
}

/// A new entry at the end of a mapping leaves the text before and behind it as it was. It
/// stands on a line of its own behind the last character of the mapping that is no space
/// and no line feed, as deep as the entries of the mapping stand.
pub proof fn law_insertion_keeps_the_text(
    source: Seq<char>,
    block: BlockView,
    depth: nat,
    key: Seq<char>,
    value: YamlView,
    k: int,
) -> (at: int)
    requires
        char_index(source, block.end) == Some(k),
        0 <= k <= source.len(),
    ensures
        0 <= at <= k,
        forall|i: int| at <= i < k ==> #[trigger] source[i] == '\n' || source[i] == ' ',
        at > 0 ==> source[at - 1] != '\n' && source[at - 1] != ' ',
        inserted(source, block, depth, key, value) == Ok::<Seq<char>, YamlEditErrorView>(
            source.take(at) + seq!['\n'] + rendered_entry(
                key,
                value,
                spaces(child_indent(lines(block.text), depth)),
            ) + source.skip(at),
        ),
{
    reveal_strlit("\n");
    assert("\n"@ =~= seq!['\n']);
    lemma_content_end(source, k);
    content_end(source, k)
}

/// A new entry at the end of a text leaves the text as it was, and starts on a line of
/// its own.
pub proof fn law_appending_keeps_the_text(source: Seq<char>, key: Seq<char>, value: YamlView)
    ensures
        ({
            let entry = rendered_entry(key, value, Seq::empty());
            if source.len() == 0 || source.last() == '\n' {
                appended(source, key, value) == source + entry
            } else {
                appended(source, key, value) == source + seq!['\n'] + entry
            }
        }),
{
    reveal_strlit("\n");
    assert("\n"@ =~= seq!['\n']);
}

/// The entries of a mapping stand as deep as its first line that is neither blank nor a
/// comment. A mapping without such a line has two spaces for each level above it.
pub proof fn law_child_indent(all: Seq<Seq<char>>, depth: nat, i: int)
    requires
        0 <= i <= all.len(),
        forall|j: int|
            0 <= j < i ==> trim_start(#[trigger] all[j]).len() == 0 || trim_start(all[j])[0] == '#',
    ensures
        i < all.len() && trim_start(all[i]).len() > 0 && trim_start(all[i])[0] != '#'
            ==> child_indent(all, depth) == indent(all[i]),
        i == all.len() ==> child_indent(all, depth) == depth * 2,
    decreases i,
{
    if i > 0 {
        let rest = all.drop_first();
        assert(trim_start(all[0]).len() == 0 || trim_start(all[0])[0] == '#');
        assert forall|j: int| 0 <= j < i - 1 implies trim_start(#[trigger] rest[j]).len() == 0
            || trim_start(rest[j])[0] == '#' by {
            assert(rest[j] == all[j + 1]);
        }
        law_child_indent(rest, depth, i - 1);
        if i < all.len() {
            assert(rest[i - 1] == all[i]);
        }
    }
}

/// An entry is written with its key and its value behind a colon. The entries of a
/// mapping stand below their key, each of them, two spaces deeper.
pub proof fn law_entries_are_written(
    key: Seq<char>,
    value: YamlView,
    m: YamlEntries,
    pad: Seq<char>,
    n: int,
)
    requires
        0 < n <= m.len(),
        forall|i: int| 0 <= i < m.len() ==> (#[trigger] m[i]).0 is String,
    ensures
        !(value is Mapping) && !(value is Sequence) ==> rendered_entry(key, value, pad) == pad
            + key_text(key) + ": "@ + scalar_text(value) + "\n"@,
        rendered_entry(key, YamlView::Mapping(m), pad) == pad + key_text(key) + ":\n"@
            + rendered_children(m, m.len() as int, pad + "  "@),
        rendered_children(m, n, pad) == rendered_children(m, n - 1, pad) + rendered_entry(
            m[n - 1].0->String_0,
            m[n - 1].1,
            pad,
        ),
        rendered_children(m, 0, pad).len() == 0,
{
    assert(m[n - 1].0 is String);
}

/// The given lines in order, each as it is or two spaces deeper.
pub open spec fn moved(all: Seq<Seq<char>>, deeper: Seq<bool>) -> Seq<char>
    decreases all.len(),
{
    if all.len() == 0 {
        Seq::empty()
    } else {
        moved(all.drop_last(), deeper.drop_last()) + (if deeper.last() {
            seq![' ', ' ']
        } else {
            Seq::empty()
        }) + all.last()
    }
}

/// Whether a text is made of the given lines in order, each as it is or two spaces
/// deeper.
pub open spec fn is_made_of(s: Seq<char>, all: Seq<Seq<char>>, deeper: Seq<bool>) -> bool {
    s == moved(all, deeper)
}

/// Moving the items of sequences changes nothing but the spaces in front of lines that
/// start with a dash.
pub proof fn law_only_items_are_moved(s: Seq<char>, n: int) -> (deeper: Seq<bool>)
    requires
        0 <= n <= full_lines(s).len(),
    ensures
        deeper.len() == n,
        is_made_of(bumped_lines(full_lines(s), n), full_lines(s).take(n), deeper),
        forall|i: int|
            0 <= i < n && #[trigger] deeper[i] ==> exists|k: int|
                0 <= k < full_lines(s)[i].len() && #[trigger] full_lines(s)[i][k] == '-' && forall|
                    j: int,
                |
                    0 <= j < k ==> full_lines(s)[i][j] == ' ',
        n == full_lines(s).len() ==> bumped_lines(full_lines(s), n) == with_indented_items(s),
    decreases n,
{
    let all = full_lines(s);
    if n > 0 {
        let front = law_only_items_are_moved(s, n - 1);
        let deeper = front.push(is_bumped(all, n - 1));
        reveal_strlit("  ");
        assert("  "@ =~= seq![' ', ' ']);
        assert(all.take(n).drop_last() =~= all.take(n - 1));
        assert(deeper.drop_last() =~= front);
        assert(all.take(n).last() == all[n - 1]);
        assert(deeper.last() == is_bumped(all, n - 1));
        assert forall|i: int| 0 <= i < n && #[trigger] deeper[i] implies exists|k: int|
            0 <= k < all[i].len() && #[trigger] all[i][k] == '-' && forall|j: int|
                0 <= j < k ==> all[i][j] == ' ' by {
            if i < n - 1 {
                assert(front[i]);
            } else {
                lemma_item(all[i]);
            }
        }
        deeper
    } else {
        Seq::empty()
    }
}

proof fn lemma_item(line: Seq<char>)
    requires
        crate::manifest::yaml_edit::is_item(crate::manifest::yaml_edit::stripped(line)),
    ensures
        exists|k: int|
            0 <= k < line.len() && #[trigger] line[k] == '-' && forall|j: int|
                0 <= j < k ==> line[j] == ' ',
    decreases line.len(),
{
    reveal_strlit("- ");
    reveal_strlit("-\n");
    reveal_strlit("-");
    let t = crate::manifest::yaml_edit::stripped(line);
    if line.len() > 0 && line[0] == ' ' {
        let rest = line.drop_first();
        assert(crate::manifest::yaml_edit::stripped(rest) == t);
        lemma_item(rest);
        let k = choose|k: int|
            0 <= k < rest.len() && #[trigger] rest[k] == '-' && forall|j: int|
                0 <= j < k ==> rest[j] == ' ';
        assert(line[k + 1] == '-');
        assert forall|j: int| 0 <= j < k + 1 implies line[j] == ' ' by {
            if j > 0 {
                assert(rest[j - 1] == ' ');
            }
        }
    } else {
        assert(t == line);
        if "- "@.is_prefix_of(line) {
            assert(line[0] == "- "@[0]);
        }
        assert(line[0] == '-');
    }
}

/// The lines of a text, each with its line feed, are the text.
pub proof fn law_lines_make_the_text(s: Seq<char>)
    ensures
        is_made_of(
            s,
            full_lines(s),
            Seq::new(full_lines(s).len(), |i: int| false),
        ),
    decreases s.len(),
{
    lemma_lines_make(s, Seq::empty(), Seq::empty());
    let all = full_lines(s);
    assert(Seq::<Seq<char>>::empty() + all =~= all);
    assert(Seq::<char>::empty() + s =~= s);
}

proof fn lemma_lines_make(s: Seq<char>, done: Seq<char>, lines: Seq<Seq<char>>)
    requires
        is_made_of(done, lines, Seq::new(lines.len(), |i: int| false)),
    ensures
        is_made_of(
            done + s,
            lines + full_lines(s),
            Seq::new((lines + full_lines(s)).len(), |i: int| false),
        ),
    decreases s.len(),
{
    lemma_find_char(s, '\n');
    match find_char(s, '\n') {
        Some(k) => {
            let (line, rest) = (s.take(k + 1), s.skip(k + 1));
            lemma_made_push(done, lines, line);
            lemma_lines_make(rest, done + line, lines.push(line));
            assert(done + line + rest =~= done + s);
            assert(lines.push(line) + full_lines(rest) =~= lines + full_lines(s));
        },
        None => {
            if s.len() > 0 {
                lemma_made_push(done, lines, s);
                assert(lines + full_lines(s) =~= lines.push(s));
            } else {
                assert(lines + full_lines(s) =~= lines);
                assert(done + s =~= done);
            }
        },
    }
}

proof fn lemma_made_push(done: Seq<char>, lines: Seq<Seq<char>>, line: Seq<char>)
    requires
        is_made_of(done, lines, Seq::new(lines.len(), |i: int| false)),
    ensures
        is_made_of(
            done + line,
            lines.push(line),
            Seq::new(lines.push(line).len(), |i: int| false),
        ),
{
    let all = lines.push(line);
    let flags = Seq::new(all.len(), |i: int| false);
    assert(all.drop_last() =~= lines);
    assert(flags.drop_last() =~= Seq::new(lines.len(), |i: int| false));
    assert(all.last() == line && !flags.last());
    assert(done + line =~= done + Seq::<char>::empty() + line);
}

/// Patches are made one after the other, each on what the one before it left.
pub proof fn law_patches_in_turn(source: Seq<char>, ps: Seq<YamlPatchView>, p: YamlPatchView)
    requires
        opening_failure(source) is None,
    ensures
        with_patches(source, seq![p]) == patched(source, p),
        with_patches(source, Seq::empty()) == Ok::<Seq<char>, YamlEditErrorView>(source),
        ps.len() > 0 ==> with_patches(source, ps.push(p)) == match with_patches(source, ps) {
            Ok(s) => patched(s, p),
            Err(e) => Err(e),
        },
{
    let all = ps.push(p);
    lemma_patched_front(source, ps, p, ps.len() as int);
    reveal_with_fuel(patched_by, 2);
    assert(seq![p][0] == p);
    assert(all[ps.len() as int] == p);
}

proof fn lemma_patched_front(source: Seq<char>, ps: Seq<YamlPatchView>, p: YamlPatchView, n: int)
    requires
        0 <= n <= ps.len(),
    ensures
        patched_by(source, ps.push(p), n) == patched_by(source, ps, n),
    decreases n,
{
    if n > 0 {
        lemma_patched_front(source, ps, p, n - 1);
        assert(ps.push(p)[n - 1] == ps[n - 1]);
    }
}

/// A patch is made by the patcher, unless the text would become too long or too deep for
/// it.
pub proof fn law_patches_are_made(source: Seq<char>, p: YamlPatchView, t: Seq<char>)
    ensures
        patched(source, p) == Ok::<Seq<char>, YamlEditErrorView>(t) ==> patched_source(source, p)
            == Ok::<Seq<char>, Seq<char>>(t),
        patched_source(source, p) == Ok::<Seq<char>, Seq<char>>(t) ==> patched(source, p) == Ok::<
            Seq<char>,
            YamlEditErrorView,
        >(t) || patched(source, p) == Err::<Seq<char>, YamlEditErrorView>(
            YamlEditErrorView::TooLong,
        ) || patched(source, p) == Err::<Seq<char>, YamlEditErrorView>(YamlEditErrorView::TooDeep),
{
}

/// New entries are made one after the other, behind the patches.
pub proof fn law_additions_in_turn(source: Seq<char>, a: Seq<AdditionView>, n: int)
    requires
        0 < n <= a.len(),
    ensures
        with_additions(source, a, 0) == Ok::<Seq<char>, YamlEditErrorView>(source),
        with_additions(source, a, n) == match with_additions(source, a, n - 1) {
            Ok(s) => injected(s, a[n - 1]),
            Err(e) => Err(e),
        },
        a[n - 1].route.len() == 0 ==> injected(source, a[n - 1]) == Ok::<
            Seq<char>,
            YamlEditErrorView,
        >(appended(source, a[n - 1].key, a[n - 1].value)),
{
}

/// Edits are made in full: all patches, and then all new entries.
pub proof fn law_edits_in_full(source: Seq<char>, edits: Seq<EditView>)
    ensures
        with_edits(source, edits) == match with_patches(source, patches_of(edits)) {
            Ok(s) => with_additions(s, additions_of(edits), additions_of(edits).len() as int),
            Err(e) => Err(e),
        },
{
}

/// A patched dependency that is removed is an entry of `patchedDependencies` that is
/// removed.
pub proof fn law_removed_patches(entries: YamlEntries, key: Seq<char>)
    ensures
        without_patched_dependency(entries, key) matches Ok(after) ==> after == without_map_entry(
            entries,
            "patchedDependencies"@,
            key,
        ),
        without_patched_dependency(entries, key) is Ok <==> submap(
            entries,
            "patchedDependencies"@,
        ) is Ok,
{
}

proof fn lemma_depth(d: nat, s: Seq<char>)
    requires
        s.len() > 0 && s[0] != ' ',
    ensures
        stripped(spaces(d) + s) == s,
        depth(spaces(d) + s) == d,
    decreases d,
{
    let line = spaces(d) + s;
    if d > 0 {
        assert(line[0] == ' ');
        assert(line.drop_first() =~= spaces((d - 1) as nat) + s);
        lemma_depth((d - 1) as nat, s);
    } else {
        assert(line =~= s);
    }
}

/// An item right below a key on a line of its own is moved where it stands as deep as the
/// key, and stays where it stands deeper.
pub proof fn law_items_below_keys(
    all: Seq<Seq<char>>,
    i: int,
    d: nat,
    e: nat,
    key: Seq<char>,
    item: Seq<char>,
)
    requires
        0 < i < all.len(),
        key.len() > 0 && key[0] != ' ' && key[0] != '-' && key[0] != '\n',
        all[i - 1] == spaces(d) + (key + ":\n"@),
        all[i] == spaces(e) + ("- "@ + item),
        d <= e,
    ensures
        is_bumped(all, i) <==> d == e,
{
    reveal_strlit(":\n");
    reveal_strlit("- ");
    reveal_strlit("-\n");
    reveal_strlit("-");
    reveal_strlit("\n");
    let (a, b) = (key + ":\n"@, "- "@ + item);
    let line = all[i - 1];
    assert(a[0] == key[0] && b[0] == '-');
    lemma_depth(d, a);
    lemma_depth(e, b);
    assert(b.take(2) =~= "- "@);
    assert(is_item(b));
    if "- "@.is_prefix_of(a) {
        assert(a[0] == "- "@[0]);
    }
    assert(!is_item(a)) by {
        if a == "-\n"@ {
            assert(a[0] == "-\n"@[0]);
        }
        if a == "-"@ {
            assert(a[0] == "-"@[0]);
        }
    }
    assert(a.len() > 1);
    assert(a.subrange(a.len() - 2, a.len() as int) =~= ":\n"@);
    assert(line_content(line) == a);
    assert(key_column(line) == d);
    assert(!has_mark_at(line, e as int));
    assert(!is_passed_over(line, e as int));
}

/// Items of one sequence are moved together.
pub proof fn law_items_stay_together(
    all: Seq<Seq<char>>,
    i: int,
    e: nat,
    a: Seq<char>,
    b: Seq<char>,
)
    requires
        0 < i < all.len(),
        all[i - 1] == spaces(e) + ("- "@ + a),
        all[i] == spaces(e) + ("- "@ + b),
    ensures
        is_bumped(all, i) == is_bumped(all, i - 1),
{
    reveal_strlit("- ");
    let (x, y) = ("- "@ + a, "- "@ + b);
    assert(x[0] == '-' && y[0] == '-');
    lemma_depth(e, x);
    lemma_depth(e, y);
    assert(x.take(2) =~= "- "@ && y.take(2) =~= "- "@);
    assert(is_item(x) && is_item(y));
}

/// A line that is no item stays where it is.
pub proof fn law_other_lines_stay(all: Seq<Seq<char>>, i: int, e: nat, s: Seq<char>)
    requires
        0 <= i < all.len(),
        all[i] == spaces(e) + s,
        s.len() > 0 && s[0] != ' ' && s[0] != '-',
    ensures
        !is_bumped(all, i),
{
    reveal_strlit("- ");
    reveal_strlit("-\n");
    reveal_strlit("-");
    lemma_depth(e, s);
    if "- "@.is_prefix_of(s) {
        assert(s[0] == "- "@[0]);
    }
    if s == "-\n"@ {
        assert(s[0] == "-\n"@[0]);
    }
    if s == "-"@ {
        assert(s[0] == "-"@[0]);
    }
}

/// The items of a sequence stand below their key, each of them, two spaces deeper and
/// behind a dash.
pub proof fn law_items_are_written(key: Seq<char>, items: Seq<YamlView>, pad: Seq<char>, n: int)
    requires
        0 < n <= items.len(),
    ensures
        rendered_entry(key, YamlView::Sequence(items), pad) == pad + key_text(key) + ":\n"@
            + rendered_items(items, items.len() as int, pad + "  "@),
        rendered_items(items, n, pad) == rendered_items(items, n - 1, pad) + rendered_item(
            items[n - 1],
            pad,
        ),
        rendered_items(items, 0, pad).len() == 0,
        !(items[n - 1] is Mapping) && !(items[n - 1] is Sequence) ==> rendered_item(
            items[n - 1],
            pad,
        ) == pad + "- "@ + scalar_text(items[n - 1]) + "\n"@,
{
}

/// The lines of an item that is no scalar stand under one dash.
pub proof fn law_nested_items(item: YamlView, t: Seq<char>, pad: Seq<char>, n: int)
    requires
        item is Mapping || item is Sequence,
        payload_text(item) == Some(t),
        0 < n <= lines(t).len(),
    ensures
        rendered_item(item, pad) == rendered_lines(lines(t), lines(t).len() as int, pad),
        n == 1 ==> rendered_lines(lines(t), n, pad) == pad + "- "@ + lines(t)[0] + "\n"@,
        n > 1 ==> rendered_lines(lines(t), n, pad) == rendered_lines(lines(t), n - 1, pad) + (pad
            + "  "@ + lines(t)[n - 1] + "\n"@),
{
    if n == 1 {
        assert(rendered_lines(lines(t), 0, pad) =~= Seq::empty());
        assert(rendered_lines(lines(t), 1, pad) =~= pad + "- "@ + lines(t)[0] + "\n"@);
    }
}

/// A key and a scalar are written as the serializer writes them, without the line feed
/// behind them.
pub proof fn law_scalar_texts(key: Seq<char>, y: YamlView, s: Seq<char>)
    requires
        s.len() > 0 && !crate::text::is_white(s.last()),
    ensures
        payload_text(YamlView::String(key)) == Some(s + seq!['\n']) ==> key_text(key) == s,
        payload_text(y) == Some(s + seq!['\n']) ==> scalar_text(y) == s,
{
    assert((s + seq!['\n']).drop_last() =~= s);
    assert((s + seq!['\n']).last() == '\n');
    assert(crate::text::is_white('\n'));
    assert(crate::text::trim_end(s) == s);
    assert(crate::text::trim_end(s + seq!['\n']) == s);
}

/// A file that is not there, or blank, has no entries. Its new text is that of the new
/// mapping, with the items of sequences moved.
pub proof fn law_new_files(s: Seq<char>, after: YamlEntries, t: Seq<char>)
    requires
        forall|i: int| 0 <= i < s.len() ==> crate::text::is_white(#[trigger] s[i]),
    ensures
        workspace_mapping(None) == Ok::<YamlEntries, YamlEditErrorView>(Seq::empty()),
        workspace_mapping(Some(s)) == Ok::<YamlEntries, YamlEditErrorView>(Seq::empty()),
        after.len() > 0 && crate::yaml::yaml_text(YamlView::Mapping(after)) == Ok::<
            Seq<char>,
            Seq<char>,
        >(t) ==> edited_workspace(None, Seq::empty(), after) == Ok::<
            Option<Seq<char>>,
            YamlEditErrorView,
        >(Some(with_indented_items(t))) && edited_workspace(Some(s), Seq::empty(), after) == Ok::<
            Option<Seq<char>>,
            YamlEditErrorView,
        >(Some(with_indented_items(t))),
{
    let none = Seq::<(YamlView, YamlView)>::empty();
    crate::laws::text::law_trim_end(s);
    if crate::text::trim_end(s).len() > 0 {
        assert(crate::text::trim_end(s).last() == s[crate::text::trim_end(s).len() - 1]);
    }
    assert(crate::text::trim_end(s) =~= Seq::<char>::empty());
    crate::laws::equality::law_yaml_mappings(after, none);
}

/// Setting a key of a mapping keeps the order of the keys; a new one comes last. Removing
/// a key leaves the others in their order.
pub proof fn law_keys_keep_their_order(e: YamlEntries, k: Seq<char>, v: YamlView, i: int)
    requires
        0 <= i < e.len(),
    ensures
        with_key(e, k, v).len() >= e.len(),
        with_key(e, k, v)[i].0 == e[i].0,
        e[i].0 != YamlView::String(k) ==> with_key(e, k, v)[i] == e[i],
        find_key(e, k) is None ==> with_key(e, k, v) == e.push((YamlView::String(k), v)),
        find_key(e, k) is None ==> without_key(e, k) == e,
        find_key(e, k) matches Some(j) ==> without_key(e, k).len() == e.len() - 1 && (i < j
            ==> without_key(e, k)[i] == e[i]) && (i > j ==> without_key(e, k)[i - 1] == e[i]),
{
    lemma_find_key_from(e, k, 0);
}

} // verus!
