//! What the edits of a workspace yaml guarantee.
use vstd::prelude::*;
use crate::manifest::yaml_edit::{
    additions_of, change, changes, diff, edited_workspace, has_map_entry, lemma_mapping_decreases,
    placed, removals, submap, with_map_entry, with_submap, without_map_entry, AdditionView,
    EditView, YamlEditErrorView,
};
use crate::yaml::{
    distinct_keys, equal, find_key, get, has_entry_from, is_valid_mapping, lemma_find_key_from,
    lemma_get_valid, lemma_mapping_valid, lemma_valid_mapping, lemma_with_key_valid,
    lemma_with_mapping_valid, lemma_without_key_valid, mapping, with_key, with_mapping, without_key,
    YamlEntries, YamlView,
};

verus! {

/// With distinct keys, the value of a key is that of the one entry with the key.
proof fn lemma_get(e: YamlEntries, k: Seq<char>, i: int)
    requires
        distinct_keys(e),
        0 <= i < e.len(),
        e[i].0 == YamlView::String(k),
    ensures
        find_key(e, k) == Some(i),
        get(e, k) == Some(e[i].1),
{
    lemma_find_key_from(e, k, 0);
    let j = find_key(e, k)->0;
    if find_key(e, k) is None {
        assert(e[i].0 != YamlView::String(k));
    }
    if j != i {
        assert(!equal(e[i].0, e[j].0));
    }
}

proof fn lemma_get_none(e: YamlEntries, k: Seq<char>)
    requires
        forall|i: int| 0 <= i < e.len() ==> (#[trigger] e[i]).0 != YamlView::String(k),
    ensures
        find_key(e, k) is None,
        get(e, k) is None,
{
    lemma_find_key_from(e, k, 0);
}

pub proof fn lemma_with_key(e: YamlEntries, k: Seq<char>, v: YamlView, q: Seq<char>)
    requires
        is_valid_mapping(e),
        crate::yaml::is_valid(v),
    ensures
        is_valid_mapping(with_key(e, k, v)),
        get(with_key(e, k, v), k) == Some(v),
        q != k ==> get(with_key(e, k, v), q) == get(e, q),
{
    let r = with_key(e, k, v);
    lemma_with_key_valid(e, k, v);
    lemma_find_key_from(e, k, 0);
    match find_key(e, k) {
        Some(i) => {
            assert(r[i] == (YamlView::String(k), v));
            lemma_get(r, k, i);
        },
        None => {
            assert(r[e.len() as int] == (YamlView::String(k), v));
            lemma_get(r, k, e.len() as int);
        },
    }
    if q != k {
        lemma_find_key_from(e, q, 0);
        match find_key(e, q) {
            Some(j) => {
                assert(r[j] == e[j]);
                lemma_get(r, q, j);
                lemma_get(e, q, j);
            },
            None => {
                assert forall|j: int| 0 <= j < r.len() implies (#[trigger] r[j]).0
                    != YamlView::String(q) by {
                    if j < e.len() {
                        assert(e[j].0 != YamlView::String(q));
                    }
                }
                lemma_get_none(r, q);
            },
        }
    }
}

proof fn lemma_without_key(e: YamlEntries, k: Seq<char>, q: Seq<char>)
    requires
        is_valid_mapping(e),
    ensures
        is_valid_mapping(without_key(e, k)),
        find_key(without_key(e, k), k) is None,
        get(without_key(e, k), k) is None,
        q != k ==> get(without_key(e, k), q) == get(e, q),
{
    let r = without_key(e, k);
    lemma_without_key_valid(e, k);
    lemma_find_key_from(e, k, 0);
    match find_key(e, k) {
        Some(i) => {
            assert forall|j: int| 0 <= j < r.len() implies (#[trigger] r[j]).0
                != YamlView::String(k) by {
                let m = if j < i {
                    j
                } else {
                    j + 1
                };
                assert(r[j] == e[m]);
                assert(!equal(e[m].0, e[i].0));
            }
            lemma_get_none(r, k);
            if q != k {
                lemma_find_key_from(e, q, 0);
                match find_key(e, q) {
                    Some(j) => {
                        lemma_get(e, q, j);
                        if j < i {
                            assert(r[j] == e[j]);
                            lemma_get(r, q, j);
                        } else {
                            assert(r[j - 1] == e[j]);
                            lemma_get(r, q, j - 1);
                        }
                    },
                    None => {
                        assert forall|j: int| 0 <= j < r.len() implies (#[trigger] r[j]).0
                            != YamlView::String(q) by {
                            let m = if j < i {
                                j
                            } else {
                                j + 1
                            };
                            assert(r[j] == e[m]);
                        }
                        lemma_get_none(r, q);
                    },
                }
            }
        },
        None => {},
    }
}

proof fn lemma_with_mapping(y: YamlView, m: YamlEntries)
    ensures
        mapping(with_mapping(y, m)) == Some(m),
    decreases y,
{
    match y {
        YamlView::Tagged(_, value) => {
            lemma_with_mapping(*value, m);
        },
        _ => {},
    }
}

pub proof fn lemma_with_submap(entries: YamlEntries, map: Seq<char>, m: YamlEntries, q: Seq<char>)
    requires
        is_valid_mapping(entries),
        is_valid_mapping(m),
    ensures
        is_valid_mapping(with_submap(entries, map, m)),
        submap(with_submap(entries, map, m), map) == Ok::<YamlEntries, YamlEditErrorView>(m),
        q != map ==> get(with_submap(entries, map, m), q) == get(entries, q),
{
    lemma_get_valid(entries, map);
    lemma_valid_mapping(m);
    match get(entries, map) {
        Some(v) => {
            lemma_with_mapping_valid(v, m);
            lemma_with_mapping(v, m);
            lemma_with_key(entries, map, with_mapping(v, m), q);
        },
        None => {
            lemma_with_key(entries, map, YamlView::Mapping(m), q);
        },
    }
}

pub proof fn lemma_submap_valid(entries: YamlEntries, map: Seq<char>)
    requires
        is_valid_mapping(entries),
    ensures
        submap(entries, map) matches Ok(m) ==> is_valid_mapping(m),
{
    lemma_get_valid(entries, map);
    if let Some(v) = get(entries, map) {
        lemma_mapping_valid(v);
    }
}

/// An entry that was set has its value; the other entries of its map, and the
/// other keys of the file, are as they were.
pub proof fn law_set_entry_reads_back(
    entries: YamlEntries,
    map: Seq<char>,
    key: Seq<char>,
    value: YamlView,
    other_key: Seq<char>,
    other_map: Seq<char>,
)
    requires
        is_valid_mapping(entries),
        crate::yaml::is_valid(value),
    ensures
        with_map_entry(entries, map, key, value) matches Ok(after) ==> {
            &&& is_valid_mapping(after)
            &&& submap(after, map) matches Ok(m) && get(m, key) == Some(value) && (other_key != key
                ==> get(m, other_key) == get(submap(entries, map)->Ok_0, other_key))
            &&& other_map != map ==> get(after, other_map) == get(entries, other_map)
        },
{
    lemma_submap_valid(entries, map);
    if let Ok(m) = submap(entries, map) {
        lemma_with_key(m, key, value, other_key);
        lemma_with_submap(entries, map, with_key(m, key, value), other_map);
    }
}

/// An entry that was taken out is gone; the other entries of its map, and the
/// other keys of the file, are as they were.
pub proof fn law_removed_entry_is_gone(
    entries: YamlEntries,
    map: Seq<char>,
    key: Seq<char>,
    other_key: Seq<char>,
    other_map: Seq<char>,
)
    requires
        is_valid_mapping(entries),
    ensures
        ({
            let after = without_map_entry(entries, map, key);
            &&& is_valid_mapping(after)
            &&& !has_map_entry(after, map, key)
            &&& other_key != key && submap(entries, map) is Ok ==> submap(after, map) is Ok && get(
                submap(after, map)->Ok_0,
                other_key,
            ) == get(submap(entries, map)->Ok_0, other_key)
            &&& other_map != map ==> get(after, other_map) == get(entries, other_map)
        }),
{
    lemma_submap_valid(entries, map);
    if let Ok(m) = submap(entries, map) {
        let rest = without_key(m, key);
        lemma_without_key(m, key, other_key);
        lemma_without_key(entries, map, other_map);
        let none = Seq::<(YamlView, YamlView)>::empty();
        if rest.len() == 0 {
            assert(rest =~= none);
            lemma_get_none(none, key);
        } else {
            lemma_with_submap(entries, map, rest, other_map);
        }
    }
}

pub proof fn lemma_equal_reflexive(a: YamlView)
    ensures
        equal(a, a),
    decreases a, 0nat,
{
    match a {
        YamlView::Sequence(x) => {
            assert(a->Sequence_0 == x);
            assert forall|i: int| 0 <= i < x.len() implies equal(#[trigger] x[i], x[i]) by {
                assert(decreases_to!(a => a->Sequence_0));
                assert(decreases_to!(x => x[i]));
                lemma_equal_reflexive(x[i]);
            }
        },
        YamlView::Mapping(x) => {
            assert(a->Mapping_0 == x);
            assert forall|i: int| 0 <= i < x.len() implies has_entry_from(#[trigger] x[i], x, 0) by {
                assert(decreases_to!(a => a->Mapping_0));
                assert(decreases_to!(x => x[i]));
                let e = x[i];
                assert(decreases_to!(e => e.0));
                assert(decreases_to!(e => e.1));
                lemma_equal_reflexive(x[i].0);
                lemma_equal_reflexive(x[i].1);
                lemma_has_entry(x, i, 0);
            }
        },
        YamlView::Tagged(_, value) => {
            lemma_equal_reflexive(*value);
        },
        _ => {},
    }
}

proof fn lemma_has_entry(x: YamlEntries, i: int, from: int)
    requires
        0 <= from <= i < x.len(),
        equal(x[i].0, x[i].0),
        equal(x[i].1, x[i].1),
    ensures
        has_entry_from(x[i], x, from),
    decreases i - from,
{
    if from < i {
        lemma_has_entry(x, i, from + 1);
    }
}

/// An edit that changes nothing leaves the file alone.
pub proof fn law_no_change_no_write(source: Option<Seq<char>>, entries: YamlEntries)
    ensures
        edited_workspace(source, entries, entries) == Ok::<Option<Seq<char>>, YamlEditErrorView>(
            None,
        ),
{
    lemma_equal_reflexive(YamlView::Mapping(entries));
}

/// Setting an entry to the value that it has leaves the file alone.
pub proof fn law_setting_again_changes_nothing(
    source: Option<Seq<char>>,
    entries: YamlEntries,
    map: Seq<char>,
    key: Seq<char>,
    value: YamlView,
)
    requires
        is_valid_mapping(entries),
        crate::yaml::is_valid(value),
        submap(entries, map) matches Ok(m) && get(m, key) == Some(value),
    ensures
        with_map_entry(entries, map, key, value) matches Ok(after) && edited_workspace(
            source,
            entries,
            after,
        ) == Ok::<Option<Seq<char>>, YamlEditErrorView>(None),
{
    let m = submap(entries, map)->Ok_0;
    lemma_find_key_from(m, key, 0);
    lemma_find_key_from(entries, map, 0);
    assert(with_key(m, key, value) =~= m);
    match get(entries, map) {
        Some(v) => {
            lemma_same_mapping(v);
            assert(with_key(entries, map, v) =~= entries);
        },
        None => {},
    }
    lemma_equal_reflexive(YamlView::Mapping(entries));
}

proof fn lemma_same_mapping(y: YamlView)
    requires
        mapping(y) is Some,
    ensures
        with_mapping(y, mapping(y)->0) == y,
    decreases y,
{
    match y {
        YamlView::Tagged(_, value) => {
            lemma_same_mapping(*value);
        },
        _ => {},
    }
}

/// The keys that lead to what an edit changes.
pub open spec fn edit_path(e: EditView) -> Seq<Seq<char>> {
    match e {
        EditView::Patch(p) => p.route,
        EditView::Add(a) => a.route.push(a.key),
    }
}

/// Whether a key has another value in one mapping than in the other.
pub open spec fn differs(before: YamlEntries, after: YamlEntries, key: Seq<char>) -> bool {
    match (get(before, key), get(after, key)) {
        (Some(b), Some(a)) => !equal(b, a),
        (None, None) => false,
        _ => true,
    }
}

/// Whether an edit below a route is of a key that differs.
pub open spec fn is_due(
    before: YamlEntries,
    after: YamlEntries,
    route: Seq<Seq<char>>,
    e: EditView,
) -> bool {
    let path = edit_path(e);
    route.len() < path.len() && route == path.take(route.len() as int) && differs(
        before,
        after,
        path[route.len() as int],
    )
}

/// Whether all edits below a route are of keys that differ.
pub open spec fn are_due(
    before: YamlEntries,
    after: YamlEntries,
    route: Seq<Seq<char>>,
    edits: Seq<EditView>,
) -> bool {
    forall|i: int| 0 <= i < edits.len() ==> is_due(before, after, route, #[trigger] edits[i])
}

proof fn lemma_due_concat(
    before: YamlEntries,
    after: YamlEntries,
    route: Seq<Seq<char>>,
    a: Seq<EditView>,
    b: Seq<EditView>,
)
    requires
        are_due(before, after, route, a),
        are_due(before, after, route, b),
    ensures
        are_due(before, after, route, a + b),
{
    assert forall|i: int| 0 <= i < (a + b).len() implies is_due(
        before,
        after,
        route,
        #[trigger] (a + b)[i],
    ) by {
        if i < a.len() {
            assert((a + b)[i] == a[i]);
        } else {
            assert((a + b)[i] == b[i - a.len()]);
        }
    }
}

proof fn lemma_removals_due(
    before: YamlEntries,
    after: YamlEntries,
    route: Seq<Seq<char>>,
    from: int,
)
    requires
        is_valid_mapping(before),
        0 <= from,
    ensures
        removals(before, after, route, from) matches Ok(edits) ==> are_due(
            before,
            after,
            route,
            edits,
        ),
    decreases before.len() - from,
{
    if from < before.len() {
        lemma_removals_due(before, after, route, from + 1);
        if let YamlView::String(key) = before[from].0 {
            lemma_get(before, key, from);
            let one = crate::manifest::yaml_edit::removal(route, key);
            assert(route.push(key).take(route.len() as int) =~= route);
            if let Ok(rest) = removals(before, after, route, from + 1) {
                if find_key(after, key) is None {
                    assert(are_due(before, after, route, seq![one]));
                    lemma_due_concat(before, after, route, seq![one], rest);
                }
            }
        }
    }
}

proof fn lemma_changes_due(
    before: YamlEntries,
    after: YamlEntries,
    route: Seq<Seq<char>>,
    from: int,
)
    requires
        is_valid_mapping(before),
        is_valid_mapping(after),
        0 <= from,
    ensures
        changes(before, after, route, from) matches Ok(edits) ==> are_due(
            before,
            after,
            route,
            edits,
        ),
    decreases after, after.len() - from,
{
    if from < after.len() {
        lemma_changes_due(before, after, route, from + 1);
        if let YamlView::String(key) = after[from].0 {
            lemma_change_due(before, after, route, from, key);
            if let (Ok(a), Ok(b)) = (
                change(before, after, route, from, key),
                changes(before, after, route, from + 1),
            ) {
                lemma_due_concat(before, after, route, a, b);
            }
        }
    }
}

proof fn lemma_change_due(
    before: YamlEntries,
    after: YamlEntries,
    route: Seq<Seq<char>>,
    at: int,
    key: Seq<char>,
)
    requires
        is_valid_mapping(before),
        is_valid_mapping(after),
        0 <= at < after.len(),
        after[at].0 == YamlView::String(key),
    ensures
        change(before, after, route, at, key) matches Ok(edits) ==> are_due(
            before,
            after,
            route,
            edits,
        ),
    decreases after, 0int,
{
    lemma_get(after, key, at);
    lemma_get_valid(before, key);
    let new = after[at].1;
    assert(crate::yaml::is_valid(new));
    let sub = route.push(key);
    assert(sub.take(route.len() as int) =~= route);
    if let Some(held) = get(before, key) {
        if !equal(held, new) {
            if let (Some(b), Some(a)) = (mapping(held), mapping(new)) {
                lemma_mapping_valid(held);
                lemma_mapping_valid(new);
                lemma_mapping_decreases(new);
                assert(decreases_to!(after => after[at]));
                let e = after[at];
                assert(decreases_to!(e => e.1));
                lemma_removals_due(b, a, sub, 0);
                lemma_changes_due(b, a, sub, 0);
                if let (Ok(x), Ok(y)) = (removals(b, a, sub, 0), changes(b, a, sub, 0)) {
                    lemma_due_concat(b, a, sub, x, y);
                    let edits = x + y;
                    assert forall|i: int| 0 <= i < edits.len() implies is_due(
                        before,
                        after,
                        route,
                        #[trigger] edits[i],
                    ) by {
                        assert(is_due(b, a, sub, edits[i]));
                        let path = edit_path(edits[i]);
                        let n = route.len() as int;
                        assert(path.take(n + 1) == sub);
                        assert(path.take(n) =~= path.take(n + 1).take(n));
                        assert(path[n] == path.take(n + 1)[n]);
                    }
                }
            }
        }
    }
}

/// Only what differs is edited: each edit that takes one mapping to the other
/// is of a top-level key whose value is not the same in both, and so is not
/// applied to any other entry of the file.
pub proof fn law_edits_are_of_what_differs(before: YamlEntries, after: YamlEntries)
    requires
        is_valid_mapping(before),
        is_valid_mapping(after),
    ensures
        diff(before, after, Seq::empty()) matches Ok(edits) ==> are_due(
            before,
            after,
            Seq::empty(),
            edits,
        ),
{
    let route = Seq::<Seq<char>>::empty();
    lemma_removals_due(before, after, route, 0);
    lemma_changes_due(before, after, route, 0);
    if let (Ok(x), Ok(y)) = (removals(before, after, route, 0), changes(before, after, route, 0)) {
        lemma_due_concat(before, after, route, x, y);
    }
}

/// The new entries are made from the outside in: a mapping before what goes
/// into it.
pub proof fn law_additions_by_depth(edits: Seq<EditView>)
    ensures
        forall|i: int, j: int|
            0 <= i < j < additions_of(edits).len() ==> (#[trigger] additions_of(
                edits,
            )[i]).route.len() <= (#[trigger] additions_of(edits)[j]).route.len(),
    decreases edits.len(),
{
    if edits.len() > 0 {
        law_additions_by_depth(edits.drop_last());
        if let EditView::Add(a) = edits.last() {
            lemma_placed_by_depth(additions_of(edits.drop_last()), a);
        }
    }
}

proof fn lemma_placed_by_depth(sorted: Seq<AdditionView>, a: AdditionView)
    requires
        forall|i: int, j: int|
            0 <= i < j < sorted.len() ==> (#[trigger] sorted[i]).route.len() <= (
            #[trigger] sorted[j]).route.len(),
    ensures
        forall|i: int, j: int|
            0 <= i < j < placed(sorted, a).len() ==> (#[trigger] placed(sorted, a)[i]).route.len()
                <= (#[trigger] placed(sorted, a)[j]).route.len(),
        forall|i: int|
            0 <= i < placed(sorted, a).len() ==> #[trigger] placed(sorted, a)[i] == a || (exists|
                j: int,
            |
                0 <= j < sorted.len() && sorted[j] == placed(sorted, a)[i]),
    decreases sorted.len(),
{
    let r = placed(sorted, a);
    if sorted.len() > 0 && sorted.last().route.len() > a.route.len() {
        let front = sorted.drop_last();
        assert forall|i: int, j: int| 0 <= i < j < front.len() implies (
        #[trigger] front[i]).route.len() <= (#[trigger] front[j]).route.len() by {
            assert(front[i] == sorted[i] && front[j] == sorted[j]);
        }
        lemma_placed_by_depth(front, a);
        let p = placed(front, a);
        let n = sorted.len() - 1;
        assert forall|i: int| 0 <= i < r.len() implies #[trigger] r[i] == a || (exists|j: int|
            0 <= j < sorted.len() && sorted[j] == r[i]) by {
            if i < p.len() {
                assert(r[i] == p[i]);
                if p[i] != a {
                    let j = choose|j: int| 0 <= j < front.len() && front[j] == p[i];
                    assert(sorted[j] == r[i]);
                }
            } else {
                assert(sorted[n] == r[i]);
            }
        }
        assert forall|i: int, j: int| 0 <= i < j < r.len() implies (#[trigger] r[i]).route.len()
            <= (#[trigger] r[j]).route.len() by {
            if j < p.len() {
                assert(r[i] == p[i] && r[j] == p[j]);
            } else {
                assert(r[i] == p[i]);
                if p[i] != a {
                    let m = choose|m: int| 0 <= m < front.len() && front[m] == p[i];
                    assert(sorted[m] == p[i]);
                    assert(sorted[n] == sorted.last());
                }
            }
        }
    } else {
        assert forall|i: int| 0 <= i < r.len() implies #[trigger] r[i] == a || (exists|j: int|
            0 <= j < sorted.len() && sorted[j] == r[i]) by {
            if i < sorted.len() {
                assert(sorted[i] == r[i]);
            }
        }
        assert forall|i: int, j: int| 0 <= i < j < r.len() implies (#[trigger] r[i]).route.len()
            <= (#[trigger] r[j]).route.len() by {
            if j == sorted.len() {
                assert(sorted[sorted.len() - 1] == sorted.last());
                if i < sorted.len() - 1 {
                    assert(sorted[i].route.len() <= sorted[sorted.len() - 1].route.len());
                }
            } else {
                assert(r[i] == sorted[i] && r[j] == sorted[j]);
            }
        }
    }
}

} // verus!
