//! What reading the fields of a manifest gives, told by the entries of its objects.
use vstd::prelude::*;
use crate::json::{distinct_keys, find_key, get, is_valid, lemma_find_key_from, Entries, JsonView};
use crate::laws::manifest::{is_distinct, lemma_with_new};
use crate::manifest::settings::{
    allow_build, ignored_items, injected, overrides, string_set, top_object, with_builds,
    with_catalogs, with_entries, AllowBuildView,
};
use crate::manifest::{
    architectures, direct_range, distinct_strings, engines_mismatch, items_of, list_setting,
    map_setting, namespace, object_of, peer_rule_list, string_map, strings_of, tolerant_map,
    with_new, Ranges,
};
use crate::strmap::lookup;

verus! {

/// With distinct keys, the value of a key is `v` exactly where the object holds
/// the key with `v`.
pub proof fn law_get(e: Entries, k: Seq<char>, v: JsonView)
    requires
        distinct_keys(e),
    ensures
        get(e, k) == Some(v) <==> e.contains((k, v)),
        find_key(e, k) is None <==> forall|w: JsonView| !(#[trigger] e.contains((k, w))),
{
    lemma_find_key_from(e, k, 0);
    if let Some(i) = find_key(e, k) {
        assert(e[i] == (k, e[i].1));
        assert(e.contains((k, e[i].1)));
        if e.contains((k, v)) {
            let j = choose|j: int| 0 <= j < e.len() && e[j] == (k, v);
            assert(i == j) by {
                if i < j {
                    assert(e[i].0 != e[j].0);
                } else if j < i {
                    assert(e[j].0 != e[i].0);
                }
            }
        }
    } else {
        assert forall|w: JsonView| !(#[trigger] e.contains((k, w))) by {
            if e.contains((k, w)) {
                let j = choose|j: int| 0 <= j < e.len() && e[j] == (k, w);
                assert(e[j].0 != k);
            }
        }
    }
}

/// The items of the array under a key, and the entries of the object under it, are
/// those that the object holds there. Where it holds another value there, or
/// none, there are none.
pub proof fn law_inner_values(e: Entries, k: Seq<char>)
    requires
        distinct_keys(e),
    ensures
        forall|items: Seq<JsonView>| #[trigger]
            e.contains((k, JsonView::Array(items))) ==> items_of(e, k) == items,
        forall|inner: Entries| #[trigger]
            e.contains((k, JsonView::Object(inner))) ==> object_of(e, k) == inner,
        items_of(e, k).len() > 0 ==> e.contains((k, JsonView::Array(items_of(e, k)))),
        object_of(e, k).len() > 0 ==> e.contains((k, JsonView::Object(object_of(e, k)))),
{
    assert forall|items: Seq<JsonView>| #[trigger]
        e.contains((k, JsonView::Array(items))) implies items_of(e, k) == items by {
        law_get(e, k, JsonView::Array(items));
    }
    assert forall|inner: Entries| #[trigger]
        e.contains((k, JsonView::Object(inner))) implies object_of(e, k) == inner by {
        law_get(e, k, JsonView::Object(inner));
    }
    if let Some(v) = get(e, k) {
        law_get(e, k, v);
    }
}

/// The entries of a field are those of its object. A field with another value, and
/// one that is missing, has none.
pub proof fn law_namespace(extra: Map<Seq<char>, JsonView>, ns: Seq<char>, e: Entries)
    ensures
        extra.dom().contains(ns) && extra[ns] == JsonView::Object(e) ==> namespace(extra, ns) == e
            && top_object(extra, ns) == e,
        extra.dom().contains(ns) && !(extra[ns] is Object) ==> namespace(extra, ns).len() == 0
            && top_object(extra, ns).len() == 0,
        !extra.dom().contains(ns) ==> namespace(extra, ns).len() == 0 && top_object(
            extra,
            ns,
        ).len() == 0,
{
}

proof fn lemma_string_map(e: Entries, n: int, k: Seq<char>, s: Seq<char>)
    requires
        distinct_keys(e),
        0 <= n <= e.len(),
    ensures
        lookup(string_map(e, n), k) == Some(s) <==> e.take(n).contains((k, JsonView::String(s))),
    decreases n,
{
    if n > 0 {
        lemma_string_map(e, n - 1, k, s);
        let (a, b) = (e.take(n - 1), e.take(n));
        let v = (k, JsonView::String(s));
        assert(b[n - 1] == e[n - 1]);
        if a.contains(v) {
            let i = choose|i: int| 0 <= i < a.len() && a[i] == v;
            assert(b[i] == v);
            assert(e[i].0 != e[n - 1].0);
        }
        if b.contains(v) && e[n - 1] != v {
            let i = choose|i: int| 0 <= i < b.len() && b[i] == v;
            assert(a[i] == v);
        }
        if e[n - 1].0 == k && e[n - 1] != v && string_map(e, n - 1).dom().contains(k) {
            let t = string_map(e, n - 1)[k];
            lemma_string_map(e, n - 1, k, t);
            let i = choose|i: int| 0 <= i < a.len() && a[i] == (k, JsonView::String(t));
            assert(a[i] == e[i]);
            assert(e[i].0 != e[n - 1].0);
        }
    }
}

/// A dependency section, `scripts` or `engines` maps a name to a text exactly where
/// the object holds the name with that text as a string, whatever the text is. So
/// its names are those with a string for a value.
pub proof fn law_section_holds_its_strings(e: Entries, k: Seq<char>, s: Seq<char>)
    requires
        distinct_keys(e),
    ensures
        ({
            let m = tolerant_map(Some(JsonView::Object(e)));
            &&& m.dom().contains(k) && m[k] == s <==> e.contains((k, JsonView::String(s)))
            &&& m.dom().contains(k) <==> exists|t: Seq<char>| #[trigger]
                e.contains((k, JsonView::String(t)))
            &&& strings_of(Some(e)) == m
        }),
{
    let m = tolerant_map(Some(JsonView::Object(e)));
    let n = e.len() as int;
    assert(e.take(n) =~= e);
    lemma_string_map(e, n, k, s);
    if m.dom().contains(k) {
        lemma_string_map(e, n, k, m[k]);
        assert(e.contains((k, JsonView::String(m[k]))));
    }
    assert forall|t: Seq<char>| #[trigger] e.contains((k, JsonView::String(t))) implies
        m.dom().contains(k) by {
        lemma_string_map(e, n, k, t);
    }
}

/// A section of another shape than an object holds nothing, and `engines` cannot be
/// a number or a boolean.
pub proof fn law_odd_sections_hold_nothing(v: JsonView)
    ensures
        !(v is Object) ==> tolerant_map(Some(v)) == Map::<Seq<char>, Seq<char>>::empty(),
        tolerant_map(None) == Map::<Seq<char>, Seq<char>>::empty(),
        engines_mismatch(Some(v)) is Some <==> v is Number || v is Bool,
        engines_mismatch(None) is None,
        v is Number ==> engines_mismatch(Some(v)) == Some("number"@),
        v is Bool ==> engines_mismatch(Some(v)) == Some("boolean"@),
{
}

/// Whether the object under a key of a namespace has an entry.
pub open spec fn has_setting(
    extra: Map<Seq<char>, JsonView>,
    ns: Seq<char>,
    key: Seq<char>,
    name: Seq<char>,
    v: JsonView,
) -> bool {
    &&& extra.dom().contains(ns)
    &&& extra[ns] matches JsonView::Object(e) && exists|inner: Entries| #[trigger]
        e.contains((key, JsonView::Object(inner))) && inner.contains((name, v))
}

/// Whether the array under a key of a namespace has an item.
pub open spec fn has_item(
    extra: Map<Seq<char>, JsonView>,
    ns: Seq<char>,
    key: Seq<char>,
    v: JsonView,
) -> bool {
    &&& extra.dom().contains(ns)
    &&& extra[ns] matches JsonView::Object(e) && exists|items: Seq<JsonView>| #[trigger]
        e.contains((key, JsonView::Array(items))) && items.contains(v)
}

/// Whether the array under a key of an object in a namespace has an item.
pub open spec fn has_inner_item(
    extra: Map<Seq<char>, JsonView>,
    ns: Seq<char>,
    within: Seq<char>,
    key: Seq<char>,
    v: JsonView,
) -> bool {
    exists|items: Seq<JsonView>| #[trigger]
        has_setting(extra, ns, within, key, JsonView::Array(items)) && items.contains(v)
}

/// Fields none of whose objects holds a key twice.
pub open spec fn is_clean(extra: Map<Seq<char>, JsonView>) -> bool {
    forall|k: Seq<char>| #[trigger] extra.dom().contains(k) ==> is_valid(extra[k])
}

proof fn lemma_valid_inner(e: Entries, k: Seq<char>, v: JsonView)
    requires
        is_valid(JsonView::Object(e)),
        e.contains((k, v)),
    ensures
        distinct_keys(e),
        is_valid(v),
{
    let i = choose|i: int| 0 <= i < e.len() && e[i] == (k, v);
    assert(e == JsonView::Object(e)->Object_0);
    assert(is_valid(e[i].1));
}

/// The object under a key of a namespace, by its entries.
proof fn lemma_setting(extra: Map<Seq<char>, JsonView>, ns: Seq<char>, key: Seq<char>)
    requires
        is_clean(extra),
    ensures
        distinct_keys(namespace(extra, ns)),
        distinct_keys(object_of(namespace(extra, ns), key)),
        forall|name: Seq<char>, v: JsonView|
            object_of(namespace(extra, ns), key).contains((name, v)) <==> #[trigger] has_setting(
                extra,
                ns,
                key,
                name,
                v,
            ),
        forall|v: JsonView|
            items_of(namespace(extra, ns), key).contains(v) <==> #[trigger] has_item(
                extra,
                ns,
                key,
                v,
            ),
{
    let top = namespace(extra, ns);
    if extra.dom().contains(ns) && extra[ns] is Object {
        assert(is_valid(extra[ns]));
        assert(extra[ns] == JsonView::Object(top));
        assert(top == JsonView::Object(top)->Object_0);
    }
    law_inner_values(top, key);
    let inner = object_of(top, key);
    if inner.len() > 0 {
        lemma_valid_inner(top, key, JsonView::Object(inner));
        assert(inner == JsonView::Object(inner)->Object_0);
    }
    assert forall|name: Seq<char>, v: JsonView| inner.contains((name, v)) <==> #[trigger] has_setting(
        extra,
        ns,
        key,
        name,
        v,
    ) by {
        if inner.contains((name, v)) {
            assert(top.contains((key, JsonView::Object(inner))));
        }
        if has_setting(extra, ns, key, name, v) {
            let o = choose|o: Entries| #[trigger]
                top.contains((key, JsonView::Object(o))) && o.contains((name, v));
            assert(o == inner);
        }
    }
    let items = items_of(top, key);
    assert forall|v: JsonView| items.contains(v) <==> #[trigger] has_item(extra, ns, key, v) by {
        if items.contains(v) {
            assert(top.contains((key, JsonView::Array(items))));
        }
        if has_item(extra, ns, key, v) {
            let o = choose|o: Seq<JsonView>| #[trigger]
                top.contains((key, JsonView::Array(o))) && o.contains(v);
            assert(o == items);
        }
    }
}

proof fn lemma_inner_items(
    extra: Map<Seq<char>, JsonView>,
    ns: Seq<char>,
    within: Seq<char>,
    key: Seq<char>,
)
    requires
        is_clean(extra),
    ensures
        forall|v: JsonView|
            items_of(object_of(namespace(extra, ns), within), key).contains(v)
                <==> #[trigger] has_inner_item(extra, ns, within, key, v),
{
    lemma_setting(extra, ns, within);
    let e = object_of(namespace(extra, ns), within);
    law_inner_values(e, key);
    let items = items_of(e, key);
    assert forall|v: JsonView| items.contains(v) <==> #[trigger] has_inner_item(
        extra,
        ns,
        within,
        key,
        v,
    ) by {
        if items.contains(v) {
            assert(e.contains((key, JsonView::Array(items))));
            assert(has_setting(extra, ns, within, key, JsonView::Array(items)));
        }
        if has_inner_item(extra, ns, within, key, v) {
            let o = choose|o: Seq<JsonView>| #[trigger]
                has_setting(extra, ns, within, key, JsonView::Array(o)) && o.contains(v);
            assert(e.contains((key, JsonView::Array(o))));
        }
    }
}

/// A map setting maps a name to a text exactly where the object under `aube` holds
/// it, or where that under `pnpm` does and that under `aube` has no string for the
/// name.
pub proof fn law_map_setting_entries(
    extra: Map<Seq<char>, JsonView>,
    key: Seq<char>,
    name: Seq<char>,
    s: Seq<char>,
)
    requires
        is_clean(extra),
    ensures
        lookup(map_setting(extra, key), name) == Some(s) <==> has_setting(
            extra,
            "aube"@,
            key,
            name,
            JsonView::String(s),
        ) || (has_setting(extra, "pnpm"@, key, name, JsonView::String(s)) && forall|t: Seq<char>|
            !(#[trigger] has_setting(extra, "aube"@, key, name, JsonView::String(t)))),
{
    lemma_setting(extra, "aube"@, key);
    lemma_setting(extra, "pnpm"@, key);
    let a = object_of(namespace(extra, "pnpm"@), key);
    let b = object_of(namespace(extra, "aube"@), key);
    law_section_holds_its_strings(a, name, s);
    law_section_holds_its_strings(b, name, s);
    assert forall|t: Seq<char>| b.contains((name, JsonView::String(t))) <==> #[trigger] has_setting(
        extra,
        "aube"@,
        key,
        name,
        JsonView::String(t),
    ) by {}
    let m = strings_of(Some(b));
    if m.dom().contains(name) {
        law_section_holds_its_strings(b, name, m[name]);
        assert(has_setting(extra, "aube"@, key, name, JsonView::String(m[name])));
    }
}

/// An override of a name is the first that stands with a string, of those at the
/// top, under `aube`, under `pnpm`, and in `resolutions`.
pub proof fn law_override_places(
    extra: Map<Seq<char>, JsonView>,
    top: Entries,
    yarn: Entries,
    name: Seq<char>,
    s: Seq<char>,
)
    requires
        is_clean(extra),
        extra.dom().contains("overrides"@) && extra["overrides"@] == JsonView::Object(top),
        extra.dom().contains("resolutions"@) && extra["resolutions"@] == JsonView::Object(yarn),
        name.len() > 0,
    ensures
        ({
            let r = lookup(overrides(extra), name);
            let at_top = JsonView::String(s);
            &&& top.contains((name, at_top)) ==> r == Some(s)
            &&& (forall|t: Seq<char>| !(#[trigger] top.contains((name, JsonView::String(t))))) ==> {
                &&& has_setting(extra, "aube"@, "overrides"@, name, at_top) ==> r == Some(s)
                &&& (forall|t: Seq<char>|
                    !(#[trigger] has_setting(
                        extra,
                        "aube"@,
                        "overrides"@,
                        name,
                        JsonView::String(t),
                    ))) ==> {
                    &&& has_setting(extra, "pnpm"@, "overrides"@, name, at_top) ==> r == Some(s)
                    &&& (forall|t: Seq<char>|
                        !(#[trigger] has_setting(
                            extra,
                            "pnpm"@,
                            "overrides"@,
                            name,
                            JsonView::String(t),
                        ))) ==> (r == Some(s) <==> yarn.contains((name, at_top)))
                }
            }
        }),
{
    let m = map_setting(extra, "overrides"@);
    assert(is_valid(extra["overrides"@]) && is_valid(extra["resolutions"@]));
    assert(top == JsonView::Object(top)->Object_0);
    assert(yarn == JsonView::Object(yarn)->Object_0);
    law_section_holds_its_strings(top, name, s);
    law_section_holds_its_strings(yarn, name, s);
    law_map_setting_entries(extra, "overrides"@, name, s);
    if m.dom().contains(name) {
        law_map_setting_entries(extra, "overrides"@, name, m[name]);
    }
    assert(name != Seq::<char>::empty());
}

/// Whether a text comes first in a list, before every item with another.
pub open spec fn precedes(items: Seq<JsonView>, a: Seq<char>, b: Seq<char>) -> bool {
    exists|p: int|
        0 <= p < items.len() && #[trigger] items[p] == JsonView::String(a) && forall|q: int|
            0 <= q <= p ==> #[trigger] items[q] != JsonView::String(b)
}

proof fn lemma_with_new_order(list: Seq<Seq<char>>, base: Seq<JsonView>, items: Seq<JsonView>, n: int)
    requires
        is_distinct(list),
        0 <= n <= items.len(),
        forall|s: Seq<char>| #[trigger] list.contains(s) <==> base.contains(JsonView::String(s)),
        forall|i: int, j: int| 0 <= i < j < list.len() ==> precedes(base, list[i], list[j]),
    ensures
        ({
            let r = with_new(list, items, n);
            forall|i: int, j: int|
                0 <= i < j < r.len() ==> precedes(base + items.take(n), r[i], r[j])
        }),
    decreases n,
{
    let r = with_new(list, items, n);
    let all = base + items.take(n);
    if n > 0 {
        lemma_with_new_order(list, base, items, n - 1);
        lemma_with_new(list, items, n - 1);
        let before = with_new(list, items, n - 1);
        let was = base + items.take(n - 1);
        assert(all =~= was.push(items[n - 1]));
        assert forall|i: int, j: int| 0 <= i < j < r.len() implies precedes(all, r[i], r[j]) by {
            if j < before.len() {
                assert(precedes(was, before[i], before[j]));
                let p = choose|p: int|
                    0 <= p < was.len() && #[trigger] was[p] == JsonView::String(before[i])
                        && forall|q: int|
                        0 <= q <= p ==> #[trigger] was[q] != JsonView::String(before[j]);
                assert(all[p] == JsonView::String(r[i]));
                assert forall|q: int| 0 <= q <= p implies #[trigger] all[q] != JsonView::String(
                    r[j],
                ) by {
                    assert(all[q] == was[q]);
                }
            } else {
                assert(before.contains(before[i]));
                lemma_was(list, base, items, n - 1, before[i]);
                let p = choose|p: int| 0 <= p < was.len() && was[p] == JsonView::String(before[i]);
                assert(all[p] == JsonView::String(r[i]));
                assert forall|q: int| 0 <= q <= p implies #[trigger] all[q] != JsonView::String(
                    r[j],
                ) by {
                    assert(all[q] == was[q]);
                    if was[q] == JsonView::String(r[j]) {
                        lemma_was(list, base, items, n - 1, r[j]);
                        assert(was.contains(JsonView::String(r[j])));
                        assert(before.contains(r[j]));
                    }
                }
            }
        }
    } else {
        assert(all =~= base);
    }
}

proof fn lemma_was(
    list: Seq<Seq<char>>,
    base: Seq<JsonView>,
    items: Seq<JsonView>,
    n: int,
    s: Seq<char>,
)
    requires
        is_distinct(list),
        0 <= n <= items.len(),
        list.contains(s) <==> base.contains(JsonView::String(s)),
    ensures
        with_new(list, items, n).contains(s) <==> (base + items.take(n)).contains(
            JsonView::String(s),
        ),
{
    lemma_with_new(list, items, n);
    let v = JsonView::String(s);
    let (front, all) = (items.take(n), base + items.take(n));
    if base.contains(v) {
        let i = choose|i: int| 0 <= i < base.len() && base[i] == v;
        assert(all[i] == v);
    }
    if front.contains(v) {
        let i = choose|i: int| 0 <= i < front.len() && front[i] == v;
        assert(all[base.len() + i] == v);
    }
    if all.contains(v) {
        let i = choose|i: int| 0 <= i < all.len() && all[i] == v;
        if i < base.len() {
            assert(base[i] == v);
        } else {
            assert(front[i - base.len()] == v);
        }
    }
}

/// The distinct strings of two lists: each string among the items occurs once, and
/// in the order in which the strings first occur.
pub proof fn law_distinct_strings(a: Seq<JsonView>, b: Seq<JsonView>)
    ensures
        ({
            let r = distinct_strings(a, b);
            &&& is_distinct(r)
            &&& forall|s: Seq<char>| #[trigger]
                r.contains(s) <==> a.contains(JsonView::String(s)) || b.contains(
                    JsonView::String(s),
                )
            &&& forall|i: int, j: int| 0 <= i < j < r.len() ==> precedes(a + b, r[i], r[j])
        }),
{
    let none = Seq::<Seq<char>>::empty();
    let nothing = Seq::<JsonView>::empty();
    let first = with_new(none, a, a.len() as int);
    assert forall|s: Seq<char>| #[trigger] none.contains(s) <==> nothing.contains(
        JsonView::String(s),
    ) by {}
    lemma_with_new(none, a, a.len() as int);
    lemma_with_new(first, b, b.len() as int);
    lemma_with_new_order(none, nothing, a, a.len() as int);
    assert(a.take(a.len() as int) =~= a);
    assert(b.take(b.len() as int) =~= b);
    assert(nothing + a =~= a);
    lemma_with_new_order(first, a, b, b.len() as int);
}

/// A list setting holds a text exactly where one of the two namespaces lists it.
pub proof fn law_list_setting_items(
    extra: Map<Seq<char>, JsonView>,
    key: Seq<char>,
    s: Seq<char>,
)
    requires
        is_clean(extra),
    ensures
        list_setting(extra, key).contains(s) <==> has_item(
            extra,
            "pnpm"@,
            key,
            JsonView::String(s),
        ) || has_item(extra, "aube"@, key, JsonView::String(s)),
{
    lemma_setting(extra, "pnpm"@, key);
    lemma_setting(extra, "aube"@, key);
    let a = items_of(namespace(extra, "pnpm"@), key);
    let b = items_of(namespace(extra, "aube"@), key);
    law_distinct_strings(a, b);
    assert(list_setting(extra, key).contains(s) <==> a.contains(JsonView::String(s)) || b.contains(
        JsonView::String(s),
    ));
}

/// The lists of `supportedArchitectures`, `peerDependencyRules` and `updateConfig`
/// hold the strings that stand there in either namespace.
pub proof fn law_inner_lists(
    extra: Map<Seq<char>, JsonView>,
    key: Seq<char>,
    s: Seq<char>,
)
    requires
        is_clean(extra),
    ensures
        ({
            let v = JsonView::String(s);
            let platforms = "supportedArchitectures"@;
            let rules = "peerDependencyRules"@;
            &&& architectures(extra, key).contains(s) <==> has_inner_item(
                extra,
                "pnpm"@,
                platforms,
                key,
                v,
            ) || has_inner_item(extra, "aube"@, platforms, key, v)
            &&& peer_rule_list(extra, key).contains(s) <==> has_inner_item(
                extra,
                "pnpm"@,
                rules,
                key,
                v,
            ) || has_inner_item(extra, "aube"@, rules, key, v)
            &&& ignored_items(extra, key).contains(v) <==> has_inner_item(
                extra,
                key,
                "updateConfig"@,
                "ignoreDependencies"@,
                v,
            )
        }),
{
    let v = JsonView::String(s);
    let platforms = "supportedArchitectures"@;
    let rules = "peerDependencyRules"@;
    lemma_inner_items(extra, "pnpm"@, platforms, key);
    lemma_inner_items(extra, "aube"@, platforms, key);
    lemma_inner_items(extra, "pnpm"@, rules, key);
    lemma_inner_items(extra, "aube"@, rules, key);
    lemma_inner_items(extra, key, "updateConfig"@, "ignoreDependencies"@);
    assert(has_inner_item(extra, key, "updateConfig"@, "ignoreDependencies"@, v)
        <==> ignored_items(extra, key).contains(v));
    law_distinct_strings(
        items_of(object_of(namespace(extra, "pnpm"@), platforms), key),
        items_of(object_of(namespace(extra, "aube"@), platforms), key),
    );
    law_distinct_strings(
        items_of(object_of(namespace(extra, "pnpm"@), rules), key),
        items_of(object_of(namespace(extra, "aube"@), rules), key),
    );
    assert(architectures(extra, key).contains(s) <==> has_inner_item(
        extra,
        "pnpm"@,
        platforms,
        key,
        v,
    ) || has_inner_item(extra, "aube"@, platforms, key, v));
    assert(peer_rule_list(extra, key).contains(s) <==> has_inner_item(extra, "pnpm"@, rules, key, v)
        || has_inner_item(extra, "aube"@, rules, key, v));
}

proof fn lemma_take(e: Entries, n: int, k: Seq<char>, v: JsonView)
    requires
        0 < n <= e.len(),
    ensures
        e.take(n).contains((k, v)) <==> e.take(n - 1).contains((k, v)) || e[n - 1] == (k, v),
{
    let (a, b) = (e.take(n - 1), e.take(n));
    assert(b[n - 1] == e[n - 1]);
    if a.contains((k, v)) {
        let i = choose|i: int| 0 <= i < a.len() && a[i] == (k, v);
        assert(b[i] == (k, v));
    }
    if b.contains((k, v)) && e[n - 1] != (k, v) {
        let i = choose|i: int| 0 <= i < b.len() && b[i] == (k, v);
        assert(a[i] == (k, v));
    }
}

/// Whether an object has a key.
pub open spec fn has_key(e: Entries, k: Seq<char>) -> bool {
    exists|v: JsonView| #[trigger] e.contains((k, v))
}

proof fn lemma_has_key_at(e: Entries, n: int, k: Seq<char>)
    requires
        distinct_keys(e),
        0 < n <= e.len(),
    ensures
        has_key(e.take(n), k) <==> has_key(e.take(n - 1), k) || e[n - 1].0 == k,
        e[n - 1].0 == k ==> !has_key(e.take(n - 1), k),
{
    let (a, b) = (e.take(n - 1), e.take(n));
    if has_key(a, k) {
        let v = choose|v: JsonView| #[trigger] a.contains((k, v));
        lemma_take(e, n, k, v);
        let i = choose|i: int| 0 <= i < a.len() && a[i] == (k, v);
        assert(a[i] == e[i]);
        assert(e[i].0 != e[n - 1].0);
    }
    if e[n - 1].0 == k {
        lemma_take(e, n, k, e[n - 1].1);
        assert(b.contains((k, e[n - 1].1)));
    }
    if has_key(b, k) {
        let v = choose|v: JsonView| #[trigger] b.contains((k, v));
        lemma_take(e, n, k, v);
    }
}

proof fn lemma_with_builds(
    base: Map<Seq<char>, AllowBuildView>,
    e: Entries,
    n: int,
    k: Seq<char>,
)
    requires
        distinct_keys(e),
        0 <= n <= e.len(),
    ensures
        forall|v: JsonView| #[trigger]
            e.take(n).contains((k, v)) ==> lookup(with_builds(base, e, n), k) == Some(
                allow_build(v),
            ),
        !has_key(e.take(n), k) ==> lookup(with_builds(base, e, n), k) == lookup(base, k),
    decreases n,
{
    if n > 0 {
        lemma_with_builds(base, e, n - 1, k);
        lemma_has_key_at(e, n, k);
        assert forall|v: JsonView| #[trigger] e.take(n).contains((k, v)) implies lookup(
            with_builds(base, e, n),
            k,
        ) == Some(allow_build(v)) by {
            lemma_take(e, n, k, v);
            if e[n - 1] != (k, v) {
                assert(has_key(e.take(n - 1), k));
            }
        }
    }
}

/// Of the `allowBuilds` of two namespaces, the entries of the second count, and
/// those of the first that the second does not have. A boolean stays what it is;
/// any other value is given by its text.
pub proof fn law_allow_builds(a: Entries, b: Entries, k: Seq<char>, v: JsonView)
    requires
        distinct_keys(a),
        distinct_keys(b),
    ensures
        ({
            let r = with_builds(
                with_builds(Map::empty(), a, a.len() as int),
                b,
                b.len() as int,
            );
            &&& b.contains((k, v)) || (a.contains((k, v)) && !has_key(b, k)) ==> lookup(r, k) == Some(
                match v {
                    JsonView::Bool(x) => AllowBuildView::Bool(x),
                    _ => AllowBuildView::Other(crate::json::json_text(v)),
                },
            )
            &&& r.dom().contains(k) <==> has_key(a, k) || has_key(b, k)
        }),
{
    let first = with_builds(Map::empty(), a, a.len() as int);
    lemma_with_builds(Map::empty(), a, a.len() as int, k);
    lemma_with_builds(first, b, b.len() as int, k);
    assert(a.take(a.len() as int) =~= a);
    assert(b.take(b.len() as int) =~= b);
    if has_key(a, k) {
        let w = choose|w: JsonView| #[trigger] a.contains((k, w));
        assert(lookup(first, k) is Some);
    }
    if has_key(b, k) {
        let w = choose|w: JsonView| #[trigger] b.contains((k, w));
    }
}

proof fn lemma_with_entries(base: Map<Seq<char>, JsonView>, e: Entries, n: int, k: Seq<char>)
    requires
        distinct_keys(e),
        0 <= n <= e.len(),
    ensures
        forall|v: JsonView| #[trigger]
            e.take(n).contains((k, v)) ==> lookup(with_entries(base, e, n), k) == Some(v),
        !has_key(e.take(n), k) ==> lookup(with_entries(base, e, n), k) == lookup(base, k),
    decreases n,
{
    if n > 0 {
        lemma_with_entries(base, e, n - 1, k);
        lemma_has_key_at(e, n, k);
        assert forall|v: JsonView| #[trigger] e.take(n).contains((k, v)) implies lookup(
            with_entries(base, e, n),
            k,
        ) == Some(v) by {
            lemma_take(e, n, k, v);
            if e[n - 1] != (k, v) {
                assert(has_key(e.take(n - 1), k));
            }
        }
    }
}

/// Entries that are added to a map replace those with their keys, and the others
/// stay.
pub proof fn law_added_entries(base: Map<Seq<char>, JsonView>, e: Entries, k: Seq<char>, v: JsonView)
    requires
        distinct_keys(e),
    ensures
        e.contains((k, v)) ==> lookup(with_entries(base, e, e.len() as int), k) == Some(v),
        !has_key(e, k) ==> lookup(with_entries(base, e, e.len() as int), k) == lookup(base, k),
{
    lemma_with_entries(base, e, e.len() as int, k);
    assert(e.take(e.len() as int) =~= e);
}

proof fn lemma_with_catalogs(
    base: Map<Seq<char>, Map<Seq<char>, Seq<char>>>,
    e: Entries,
    n: int,
    k: Seq<char>,
)
    requires
        distinct_keys(e),
        0 <= n <= e.len(),
    ensures
        forall|inner: Entries| #[trigger]
            e.take(n).contains((k, JsonView::Object(inner))) ==> lookup(
                with_catalogs(base, e, n),
                k,
            ) == Some(
                (match lookup(base, k) {
                    Some(c) => c,
                    None => Map::empty(),
                }).union_prefer_right(strings_of(Some(inner))),
            ),
        (forall|inner: Entries|
            !(#[trigger] e.take(n).contains((k, JsonView::Object(inner))))) ==> lookup(
            with_catalogs(base, e, n),
            k,
        ) == lookup(base, k),
    decreases n,
{
    if n > 0 {
        lemma_with_catalogs(base, e, n - 1, k);
        lemma_has_key_at(e, n, k);
        assert forall|inner: Entries| #[trigger]
            e.take(n - 1).contains((k, JsonView::Object(inner))) implies e.take(n).contains(
            (k, JsonView::Object(inner)),
        ) && has_key(e.take(n - 1), k) by {
            lemma_take(e, n, k, JsonView::Object(inner));
        }
        if let JsonView::Object(inner) = e[n - 1].1 {
            lemma_take(e, n, e[n - 1].0, e[n - 1].1);
        }
        assert forall|inner: Entries| #[trigger]
            e.take(n).contains((k, JsonView::Object(inner))) implies lookup(
            with_catalogs(base, e, n),
            k,
        ) == Some(
            (match lookup(base, k) {
                Some(c) => c,
                None => Map::empty(),
            }).union_prefer_right(strings_of(Some(inner))),
        ) by {
            lemma_take(e, n, k, JsonView::Object(inner));
            if e[n - 1] == (k, JsonView::Object(inner)) {
                assert(lookup(with_catalogs(base, e, n - 1), k) == lookup(base, k));
            }
        }
    }
}

/// A named catalog is there where either namespace has an object for it. It maps a
/// package to a text exactly where that under `aube` does with a string, or where
/// that under `pnpm` does and that under `aube` has no string for the package.
pub proof fn law_catalogs(a: Entries, b: Entries, x: Entries, y: Entries, name: Seq<char>)
    requires
        distinct_keys(a),
        distinct_keys(b),
        distinct_keys(x),
        distinct_keys(y),
        a.contains((name, JsonView::Object(x))),
        b.contains((name, JsonView::Object(y))),
    ensures
        ({
            let one = with_catalogs(Map::empty(), a, a.len() as int);
            let r = with_catalogs(one, b, b.len() as int);
            &&& one.dom().contains(name) && r.dom().contains(name)
            &&& forall|p: Seq<char>| #[trigger]
                one[name].dom().contains(p) ==> x.contains((p, JsonView::String(one[name][p])))
            &&& forall|p: Seq<char>, s: Seq<char>| #[trigger]
                x.contains((p, JsonView::String(s))) ==> lookup(one[name], p) == Some(s)
            &&& forall|p: Seq<char>, s: Seq<char>| #[trigger]
                y.contains((p, JsonView::String(s))) ==> lookup(r[name], p) == Some(s)
            &&& forall|p: Seq<char>|
                (forall|s: Seq<char>| !(#[trigger] y.contains((p, JsonView::String(s)))))
                    ==> #[trigger] lookup(r[name], p) == lookup(one[name], p)
        }),
{
    let one = with_catalogs(Map::empty(), a, a.len() as int);
    let r = with_catalogs(one, b, b.len() as int);
    assert(a.take(a.len() as int) =~= a);
    assert(b.take(b.len() as int) =~= b);
    lemma_with_catalogs(Map::empty(), a, a.len() as int, name);
    lemma_with_catalogs(one, b, b.len() as int, name);
    let none = Map::<Seq<char>, Seq<char>>::empty();
    assert(none.union_prefer_right(strings_of(Some(x))) =~= strings_of(Some(x)));
    assert(one[name] == strings_of(Some(x)));
    assert(r[name] == one[name].union_prefer_right(strings_of(Some(y))));
    assert forall|p: Seq<char>| #[trigger] one[name].dom().contains(p) implies x.contains(
        (p, JsonView::String(one[name][p])),
    ) by {
        law_section_holds_its_strings(x, p, one[name][p]);
    }
    assert forall|p: Seq<char>, s: Seq<char>| #[trigger]
        x.contains((p, JsonView::String(s))) implies lookup(one[name], p) == Some(s) by {
        law_section_holds_its_strings(x, p, s);
    }
    assert forall|p: Seq<char>, s: Seq<char>| #[trigger]
        y.contains((p, JsonView::String(s))) implies lookup(r[name], p) == Some(s) by {
        law_section_holds_its_strings(y, p, s);
    }
    assert forall|p: Seq<char>|
        (forall|s: Seq<char>|
            !(#[trigger] y.contains((p, JsonView::String(s))))) implies #[trigger] lookup(r[name], p)
        == lookup(one[name], p) by {
        law_section_holds_its_strings(y, p, Seq::empty());
    }
}

/// A catalog that is missing, or no object, in one namespace is that of the other.
pub proof fn law_missing_catalogs(
    base: Map<Seq<char>, Map<Seq<char>, Seq<char>>>,
    e: Entries,
    name: Seq<char>,
)
    requires
        distinct_keys(e),
        forall|inner: Entries| !(#[trigger] e.contains((name, JsonView::Object(inner)))),
    ensures
        lookup(with_catalogs(base, e, e.len() as int), name) == lookup(base, name),
{
    assert(e.take(e.len() as int) =~= e);
    lemma_with_catalogs(base, e, e.len() as int, name);
}

/// The injected dependencies are those whose meta data says `injected: true`.
pub proof fn law_injected(e: Entries, k: Seq<char>, meta: Entries)
    requires
        distinct_keys(e),
        distinct_keys(meta),
        e.contains((k, JsonView::Object(meta))),
    ensures
        injected(e).contains(k) <==> meta.contains(("injected"@, JsonView::Bool(true))),
{
    law_get(meta, "injected"@, JsonView::Bool(true));
    let i = choose|i: int| 0 <= i < e.len() && e[i] == (k, JsonView::Object(meta));
    assert(e[i].0 == k);
    if injected(e).contains(k) {
        let j = choose|j: int|
            0 <= j < e.len() && (#[trigger] e[j]).0 == k && crate::manifest::settings::is_injected(
                e[j].1,
            );
        if i < j {
            assert(e[i].0 != e[j].0);
        } else if j < i {
            assert(e[j].0 != e[i].0);
        }
    }
}

/// A dependency without such meta data is not injected.
pub proof fn law_not_injected(e: Entries, k: Seq<char>)
    requires
        forall|meta: Entries| !(#[trigger] e.contains((k, JsonView::Object(meta)))),
    ensures
        !injected(e).contains(k),
{
    if injected(e).contains(k) {
        let j = choose|j: int|
            0 <= j < e.len() && (#[trigger] e[j]).0 == k && crate::manifest::settings::is_injected(
                e[j].1,
            );
        assert(e[j] == (k, JsonView::Object(e[j].1->Object_0)));
        assert(e.contains((k, JsonView::Object(e[j].1->Object_0))));
    }
}

/// The strings among some items.
pub proof fn law_string_set(items: Seq<JsonView>, s: Seq<char>)
    ensures
        string_set(items).contains(s) <==> exists|i: int|
            0 <= i < items.len() && #[trigger] items[i] == JsonView::String(s),
{
}

/// The range of a direct dependency is that under `dependencies`; where it is not
/// there, that under `devDependencies`; where it is not there either, that under
/// `optionalDependencies`. Peers do not count.
pub proof fn law_direct_range(r: Ranges, name: Seq<char>)
    ensures
        r.dependencies.dom().contains(name) ==> direct_range(r, name) == Some(r.dependencies[name]),
        !r.dependencies.dom().contains(name) && r.dev_dependencies.dom().contains(name)
            ==> direct_range(r, name) == Some(r.dev_dependencies[name]),
        !r.dependencies.dom().contains(name) && !r.dev_dependencies.dom().contains(name)
            && r.optional_dependencies.dom().contains(name) ==> direct_range(r, name) == Some(
            r.optional_dependencies[name],
        ),
        direct_range(r, name) is Some ==> r.dependencies.dom().contains(name)
            || r.dev_dependencies.dom().contains(name) || r.optional_dependencies.dom().contains(
            name,
        ),
{
}

} // verus!
