//! What the edits of settings in a `package.json` guarantee.
use vstd::prelude::*;
use crate::json::{
    distinct_keys, equal, find_key, get, get_object, has_entry_from, is_valid_object,
    lemma_find_key_from, lemma_get_valid, lemma_valid_object, lemma_with_key_valid,
    lemma_without_key_valid, object, with_key, without_key, Entries, JsonView,
};
use crate::manifest::setting_edit::{
    chosen_namespace, edited_text, has_setting_entry, merged_setting, ns_setting, other_namespace,
    with_all, with_setting, without_entry, without_setting, without_setting_entry, EditErrorView,
};

verus! {

/// With distinct keys, the value of a key is that of the one entry with the key.
proof fn lemma_get(e: Entries, k: Seq<char>, i: int)
    requires
        distinct_keys(e),
        0 <= i < e.len(),
        e[i].0 == k,
    ensures
        find_key(e, k) == Some(i),
        get(e, k) == Some(e[i].1),
{
    lemma_find_key_from(e, k, 0);
}

proof fn lemma_get_none(e: Entries, k: Seq<char>)
    requires
        forall|i: int| 0 <= i < e.len() ==> (#[trigger] e[i]).0 != k,
    ensures
        find_key(e, k) is None,
        get(e, k) is None,
        get_object(e, k) is None,
{
    lemma_find_key_from(e, k, 0);
}

pub proof fn lemma_with_key(e: Entries, k: Seq<char>, v: JsonView, q: Seq<char>)
    requires
        distinct_keys(e),
    ensures
        distinct_keys(with_key(e, k, v)),
        get(with_key(e, k, v), k) == Some(v),
        q != k ==> get(with_key(e, k, v), q) == get(e, q),
        q != k ==> (find_key(with_key(e, k, v), q) is Some) == (find_key(e, q) is Some),
        with_key(e, k, v).len() > 0,
{
    let r = with_key(e, k, v);
    lemma_find_key_from(e, k, 0);
    assert(distinct_keys(r));
    match find_key(e, k) {
        Some(i) => {
            assert(r[i] == (k, v));
            lemma_get(r, k, i);
        },
        None => {
            assert(r[e.len() as int] == (k, v));
            lemma_get(r, k, e.len() as int);
        },
    }
    if q != k {
        lemma_find_key_from(e, q, 0);
        match find_key(e, q) {
            Some(j) => {
                assert(r[j] == e[j]);
                lemma_get(r, q, j);
                lemma_get(e, q, j);
            },
            None => {
                assert forall|j: int| 0 <= j < r.len() implies (#[trigger] r[j]).0 != q by {
                    if j < e.len() {
                        assert(e[j].0 != q);
                    }
                }
                lemma_get_none(r, q);
            },
        }
    }
}

pub proof fn lemma_without_key(e: Entries, k: Seq<char>, q: Seq<char>)
    requires
        distinct_keys(e),
    ensures
        distinct_keys(without_key(e, k)),
        find_key(without_key(e, k), k) is None,
        get_object(without_key(e, k), k) is None,
        get(without_key(e, k), k) is None,
        q != k ==> get(without_key(e, k), q) == get(e, q),
        q != k ==> (find_key(without_key(e, k), q) is Some) == (find_key(e, q) is Some),
{
    let r = without_key(e, k);
    lemma_find_key_from(e, k, 0);
    match find_key(e, k) {
        Some(i) => {
            let n = e.len() - 1;
            assert(r == e.update(i, e.last()).drop_last());
            assert forall|j: int| 0 <= j < r.len() implies (#[trigger] r[j]) == (if j == i {
                e[n]
            } else {
                e[j]
            }) by {
            }
            assert(distinct_keys(r));
            assert forall|j: int| 0 <= j < r.len() implies (#[trigger] r[j]).0 != k by {
                assert(e[i].0 == k);
                if j == i {
                    assert(e[n].0 != k);
                } else {
                    assert(e[j].0 != k);
                }
            }
            lemma_get_none(r, k);
            if q != k {
                lemma_find_key_from(e, q, 0);
                match find_key(e, q) {
                    Some(j) => {
                        lemma_get(e, q, j);
                        if j == n {
                            assert(r[i] == e[n]);
                            lemma_get(r, q, i);
                        } else {
                            assert(r[j] == e[j]);
                            lemma_get(r, q, j);
                        }
                    },
                    None => {
                        assert forall|j: int| 0 <= j < r.len() implies (#[trigger] r[j]).0 != q by {
                            if j == i {
                                assert(e[n].0 != q);
                            } else {
                                assert(e[j].0 != q);
                            }
                        }
                        lemma_get_none(r, q);
                    },
                }
            }
        },
        None => {},
    }
}

proof fn lemma_with_all_from_nothing(map: Entries, n: int)
    requires
        distinct_keys(map),
        0 <= n <= map.len(),
    ensures
        with_all(Seq::empty(), map, n) == map.take(n),
    decreases n,
{
    if n > 0 {
        lemma_with_all_from_nothing(map, n - 1);
        let before = map.take(n - 1);
        assert forall|j: int| 0 <= j < before.len() implies (#[trigger] before[j]).0 != map[n
            - 1].0 by {
            assert(before[j] == map[j]);
            assert(map[j].0 != map[n - 1].0);
        }
        lemma_get_none(before, map[n - 1].0);
        assert(with_key(before, map[n - 1].0, map[n - 1].1) =~= map.take(n));
    } else {
        assert(with_all(Seq::empty(), map, n) =~= map.take(n));
    }
}

proof fn lemma_namespaces_differ()
    ensures
        "pnpm"@ != "aube"@,
{
    reveal_strlit("pnpm");
    reveal_strlit("aube");
    assert("pnpm"@[0] != "aube"@[0]);
}

/// One namespace without a setting: the setting is not there, and everything
/// else is as it was.
proof fn lemma_without_setting(obj: Entries, ns: Seq<char>, key: Seq<char>, q: Seq<char>)
    requires
        is_valid_object(obj),
    ensures
        is_valid_object(without_setting(obj, ns, key)),
        ns_setting(without_setting(obj, ns, key), ns, key) == Seq::<(Seq<char>, JsonView)>::empty(),
        q != ns ==> get(without_setting(obj, ns, key), q) == get(obj, q),
        q != ns ==> (find_key(without_setting(obj, ns, key), q) is Some) == (find_key(obj, q)
            is Some),
{
    lemma_get_valid(obj, ns);
    if let Some(e) = get_object(obj, ns) {
        let e2 = without_key(e, key);
        lemma_without_key_valid(e, key);
        lemma_without_key(e, key, key);
        lemma_without_key(obj, ns, q);
        lemma_without_key_valid(obj, ns);
        lemma_valid_object(e2);
        lemma_with_key_valid(obj, ns, JsonView::Object(e2));
        lemma_with_key(obj, ns, JsonView::Object(e2), q);
    }
}

/// What a write of a map setting gives back: read again, the setting is the map
/// that was written, and only one of the two namespaces holds it. Every other
/// key of the manifest is as it was.
pub proof fn law_setting_reads_back(obj: Entries, key: Seq<char>, map: Entries, q: Seq<char>)
    requires
        is_valid_object(obj),
        is_valid_object(map),
    ensures
        with_setting(obj, key, map) matches Ok(after) ==> {
            &&& is_valid_object(after)
            &&& merged_setting(after, key) == map
            &&& ns_setting(after, other_namespace(obj), key) == Seq::<
                (Seq<char>, JsonView),
            >::empty()
            &&& q != "pnpm"@ && q != "aube"@ ==> get(after, q) == get(obj, q)
        },
{
    lemma_namespaces_differ();
    let ns = chosen_namespace(obj);
    let other = other_namespace(obj);
    let rest = without_setting(obj, other, key);
    lemma_without_setting(obj, other, key, ns);
    lemma_without_setting(obj, other, key, q);
    let none = Seq::<(Seq<char>, JsonView)>::empty();
    if let Ok(after) = with_setting(obj, key, map) {
        if map.len() == 0 {
            lemma_without_setting(rest, ns, key, other);
            lemma_without_setting(rest, ns, key, q);
            assert(map =~= none);
            lemma_setting_of_get(rest, after, other, key);
        } else {
            let e = match find_key(rest, ns) {
                Some(i) => object(rest[i].1)->0,
                None => none,
            };
            lemma_get_valid(rest, ns);
            lemma_find_key_from(rest, ns, 0);
            let e2 = with_key(e, key, JsonView::Object(map));
            assert(is_valid_object(e));
            lemma_valid_object(map);
            lemma_with_key_valid(e, key, JsonView::Object(map));
            lemma_with_key(e, key, JsonView::Object(map), key);
            lemma_valid_object(e2);
            lemma_with_key_valid(rest, ns, JsonView::Object(e2));
            lemma_with_key(rest, ns, JsonView::Object(e2), other);
            lemma_with_key(rest, ns, JsonView::Object(e2), q);
            assert(ns_setting(after, ns, key) == map);
            lemma_setting_of_get(rest, after, other, key);
        }
        lemma_with_all_from_nothing(map, map.len() as int);
        assert(map.take(map.len() as int) =~= map);
        lemma_with_all_from_nothing(none, 0);
    }
}

/// The setting in a namespace depends on the namespace alone.
proof fn lemma_setting_of_get(a: Entries, b: Entries, ns: Seq<char>, key: Seq<char>)
    requires
        get(a, ns) == get(b, ns),
    ensures
        ns_setting(a, ns, key) == ns_setting(b, ns, key),
{
}

/// Whether a setting in a namespace is no empty map, and the namespace not empty.
pub open spec fn has_nothing_empty(obj: Entries, ns: Seq<char>, key: Seq<char>) -> bool {
    match get_object(obj, ns) {
        Some(e) => e.len() > 0 && match get_object(e, key) {
            Some(inner) => inner.len() > 0,
            None => true,
        },
        None => true,
    }
}

/// The entry is gone from one namespace, and the other keys are as they were.
proof fn lemma_without_entry(obj: Entries, ns: Seq<char>, key: Seq<char>, k: Seq<char>, q: Seq<char>)
    requires
        is_valid_object(obj),
    ensures
        is_valid_object(without_entry(obj, ns, key, k)),
        find_key(ns_setting(without_entry(obj, ns, key, k), ns, key), k) is None,
        has_nothing_empty(without_entry(obj, ns, key, k), ns, key),
        q != ns ==> get(without_entry(obj, ns, key, k), q) == get(obj, q),
{
    lemma_get_valid(obj, ns);
    let none = Seq::<(Seq<char>, JsonView)>::empty();
    lemma_get_none(none, k);
    if let Some(e) = get_object(obj, ns) {
        lemma_get_valid(e, key);
        let e2 = match get_object(e, key) {
            Some(inner) => if without_key(inner, k).len() == 0 {
                without_key(e, key)
            } else {
                with_key(e, key, JsonView::Object(without_key(inner, k)))
            },
            None => e,
        };
        if let Some(inner) = get_object(e, key) {
            lemma_without_key_valid(inner, k);
            lemma_without_key(inner, k, k);
            lemma_valid_object(without_key(inner, k));
            lemma_without_key_valid(e, key);
            lemma_without_key(e, key, key);
            lemma_with_key_valid(e, key, JsonView::Object(without_key(inner, k)));
            lemma_with_key(e, key, JsonView::Object(without_key(inner, k)), key);
        }
        assert(is_valid_object(e2));
        lemma_valid_object(e2);
        lemma_without_key_valid(obj, ns);
        lemma_without_key(obj, ns, q);
        lemma_with_key_valid(obj, ns, JsonView::Object(e2));
        lemma_with_key(obj, ns, JsonView::Object(e2), q);
    }
}

/// An entry that was removed is in neither namespace, no empty map and no empty
/// namespace is left, and every other key of the manifest is as it was.
pub proof fn law_removed_entry_is_gone(obj: Entries, key: Seq<char>, k: Seq<char>, q: Seq<char>)
    requires
        is_valid_object(obj),
    ensures
        ({
            let after = without_setting_entry(obj, key, k);
            &&& !has_setting_entry(after, key, k)
            &&& find_key(ns_setting(after, "pnpm"@, key), k) is None
            &&& find_key(ns_setting(after, "aube"@, key), k) is None
            &&& has_nothing_empty(after, "pnpm"@, key)
            &&& has_nothing_empty(after, "aube"@, key)
            &&& q != "pnpm"@ && q != "aube"@ ==> get(after, q) == get(obj, q)
        }),
{
    lemma_namespaces_differ();
    let first = without_entry(obj, "pnpm"@, key, k);
    let after = without_entry(first, "aube"@, key, k);
    lemma_without_entry(obj, "pnpm"@, key, k, q);
    lemma_without_entry(first, "aube"@, key, k, q);
    lemma_without_entry(first, "aube"@, key, k, "pnpm"@);
    lemma_setting_of_get(first, after, "pnpm"@, key);
    lemma_without_entry(after, "pnpm"@, key, k, "aube"@);
    let third = without_entry(after, "pnpm"@, key, k);
    lemma_setting_of_get(after, third, "aube"@, key);
}

proof fn lemma_equal_reflexive(a: JsonView)
    ensures
        equal(a, a),
    decreases a, 0nat,
{
    match a {
        JsonView::Array(x) => {
            assert(a->Array_0 == x);
            assert forall|i: int| 0 <= i < x.len() implies equal(#[trigger] x[i], x[i]) by {
                assert(decreases_to!(a => a->Array_0));
                assert(decreases_to!(x => x[i]));
                lemma_equal_reflexive(x[i]);
            }
        },
        JsonView::Object(x) => {
            assert(a->Object_0 == x);
            assert forall|i: int| 0 <= i < x.len() implies has_entry_from(#[trigger] x[i], x, 0) by {
                assert(decreases_to!(a => a->Object_0));
                assert(decreases_to!(x => x[i]));
                let e = x[i];
                assert(decreases_to!(e => e.1));
                lemma_equal_reflexive(x[i].1);
                lemma_has_entry(x, i, 0);
            }
        },
        _ => {},
    }
}

proof fn lemma_has_entry(x: Entries, i: int, from: int)
    requires
        0 <= from <= i < x.len(),
        equal(x[i].1, x[i].1),
    ensures
        has_entry_from(x[i], x, from),
    decreases i - from,
{
    if from < i {
        lemma_has_entry(x, i, from + 1);
    }
}

/// An edit that changes nothing leaves the file alone.
pub proof fn law_no_change_no_write(obj: Entries)
    ensures
        edited_text(obj, obj) == Ok::<Option<Seq<char>>, EditErrorView>(None),
{
    lemma_equal_reflexive(JsonView::Object(obj));
}

} // verus!
