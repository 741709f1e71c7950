//! What approving builds and setting entries in a manifest guarantees, told by the
//! entries of its objects.
use vstd::prelude::*;
use crate::json::{
    equal, find_key, get, get_object, has_entry_from, is_valid_object, json_pretty_text,
    lemma_find_key_from, lemma_get_valid, lemma_valid_object, lemma_with_key_valid,
    lemma_without_key_valid, object, with_key, without_key, Entries, JsonView,
};
use crate::laws::fields::{has_key, law_get};
use crate::laws::setting::{law_setting_reads_back, lemma_with_key, lemma_without_key};
use crate::manifest::config_edit::{approvals, approved_text, ConfigEditErrorView};
use crate::manifest::parse_error::{json_value, ParseErrorView};
use crate::manifest::setting_edit::{
    chosen_namespace, has_setting_entry, manifest_object, merged_setting, ns_setting,
    other_namespace, with_all, with_setting, without_entry, without_setting, without_setting_entry,
    EditErrorView,
};
use crate::manifest::workspace::ConfigWriteTarget;

verus! {

/// Whether a namespace of a manifest has a key with a value.
pub open spec fn in_namespace(obj: Entries, ns: Seq<char>, key: Seq<char>, x: JsonView) -> bool {
    exists|o: Entries| #[trigger] obj.contains((ns, JsonView::Object(o))) && o.contains((key, x))
}

/// Whether a map setting of a namespace has an entry.
pub open spec fn is_set_in(
    obj: Entries,
    ns: Seq<char>,
    key: Seq<char>,
    n: Seq<char>,
    v: JsonView,
) -> bool {
    exists|m: Entries| #[trigger]
        in_namespace(obj, ns, key, JsonView::Object(m)) && m.contains((n, v))
}

/// Whether a map setting has an entry that counts: it stands under `aube`, or it
/// stands under `pnpm` and nothing under `aube` has its name.
pub open spec fn is_set(obj: Entries, key: Seq<char>, n: Seq<char>, v: JsonView) -> bool {
    is_set_in(obj, "aube"@, key, n, v) || (is_set_in(obj, "pnpm"@, key, n, v) && forall|w: JsonView|
        !(#[trigger] is_set_in(obj, "aube"@, key, n, w)))
}

proof fn lemma_in_namespace(obj: Entries, ns: Seq<char>, key: Seq<char>, x: JsonView)
    requires
        is_valid_object(obj),
    ensures
        in_namespace(obj, ns, key, x) <==> (get_object(obj, ns) matches Some(o) && get(o, key)
            == Some(x)),
{
    lemma_get_valid(obj, ns);
    if let Some(o) = get_object(obj, ns) {
        law_get(obj, ns, JsonView::Object(o));
        law_get(o, key, x);
    }
    if in_namespace(obj, ns, key, x) {
        let o = choose|o: Entries| #[trigger]
            obj.contains((ns, JsonView::Object(o))) && o.contains((key, x));
        law_get(obj, ns, JsonView::Object(o));
        assert(get_object(obj, ns) == Some(o));
    }
}

proof fn lemma_is_set_in(obj: Entries, ns: Seq<char>, key: Seq<char>)
    requires
        is_valid_object(obj),
    ensures
        is_valid_object(ns_setting(obj, ns, key)),
        forall|n: Seq<char>, v: JsonView|
            ns_setting(obj, ns, key).contains((n, v)) <==> #[trigger] is_set_in(obj, ns, key, n, v),
{
    let s = ns_setting(obj, ns, key);
    lemma_get_valid(obj, ns);
    if let Some(o) = get_object(obj, ns) {
        lemma_get_valid(o, key);
    }
    assert forall|n: Seq<char>, v: JsonView| s.contains((n, v)) <==> #[trigger] is_set_in(
        obj,
        ns,
        key,
        n,
        v,
    ) by {
        if s.contains((n, v)) {
            lemma_in_namespace(obj, ns, key, JsonView::Object(s));
            assert(in_namespace(obj, ns, key, JsonView::Object(s)));
        }
        if is_set_in(obj, ns, key, n, v) {
            let m = choose|m: Entries| #[trigger]
                in_namespace(obj, ns, key, JsonView::Object(m)) && m.contains((n, v));
            lemma_in_namespace(obj, ns, key, JsonView::Object(m));
        }
    }
}

proof fn lemma_with_all(base: Entries, more: Entries, n: int, k: Seq<char>)
    requires
        is_valid_object(base),
        is_valid_object(more),
        0 <= n <= more.len(),
    ensures
        is_valid_object(with_all(base, more, n)),
        forall|v: JsonView| #[trigger]
            more.take(n).contains((k, v)) ==> get(with_all(base, more, n), k) == Some(v),
        !has_key(more.take(n), k) ==> get(with_all(base, more, n), k) == get(base, k),
    decreases n,
{
    if n > 0 {
        lemma_with_all(base, more, n - 1, k);
        let (a, b) = (more.take(n - 1), more.take(n));
        let last = more[n - 1];
        let before = with_all(base, more, n - 1);
        lemma_with_key_valid(before, last.0, last.1);
        lemma_with_key(before, last.0, last.1, k);
        assert(b[n - 1] == last);
        assert(b.contains((last.0, last.1)));
        assert forall|v: JsonView| #[trigger] a.contains((k, v)) implies b.contains((k, v)) by {
            let i = choose|i: int| 0 <= i < a.len() && a[i] == (k, v);
            assert(b[i] == (k, v));
        }
        assert forall|v: JsonView| #[trigger] b.contains((k, v)) implies get(
            with_all(base, more, n),
            k,
        ) == Some(v) by {
            let i = choose|i: int| 0 <= i < b.len() && b[i] == (k, v);
            assert(b[i] == more[i]);
            if i < n - 1 {
                assert(a[i] == (k, v));
                assert(a.contains((k, v)));
                assert(more[i].0 != more[n - 1].0);
            }
        }
    }
}

/// The entries of a map setting of a manifest are those that count.
pub proof fn law_setting_entries(obj: Entries, key: Seq<char>, n: Seq<char>, v: JsonView)
    requires
        is_valid_object(obj),
    ensures
        merged_setting(obj, key).contains((n, v)) <==> is_set(obj, key, n, v),
{
    let a = ns_setting(obj, "pnpm"@, key);
    let b = ns_setting(obj, "aube"@, key);
    let none = Seq::<(Seq<char>, JsonView)>::empty();
    lemma_is_set_in(obj, "pnpm"@, key);
    lemma_is_set_in(obj, "aube"@, key);
    let first = with_all(none, a, a.len() as int);
    lemma_with_all(none, a, a.len() as int, n);
    lemma_with_all(first, b, b.len() as int, n);
    assert(a.take(a.len() as int) =~= a);
    assert(b.take(b.len() as int) =~= b);
    law_get(merged_setting(obj, key), n, v);
    lemma_find_key_from(none, n, 0);
    if has_key(b, n) {
        let w = choose|w: JsonView| #[trigger] b.contains((n, w));
        assert(is_set_in(obj, "aube"@, key, n, w));
        law_get(b, n, w);
        law_get(b, n, v);
    } else {
        assert forall|w: JsonView| !(#[trigger] is_set_in(obj, "aube"@, key, n, w)) by {
            assert(!b.contains((n, w)));
        }
        assert(!b.contains((n, v)));
        if has_key(a, n) {
            let w = choose|w: JsonView| #[trigger] a.contains((n, w));
            law_get(a, n, w);
            law_get(a, n, v);
        }
    }
}

/// Setting entries of a map setting in a manifest sets these entries, and leaves the
/// others as they were.
pub proof fn law_set_entries(
    obj: Entries,
    key: Seq<char>,
    entries: Entries,
    n: Seq<char>,
    v: JsonView,
)
    requires
        is_valid_object(obj),
        is_valid_object(entries),
    ensures
        with_setting(
            obj,
            key,
            with_all(merged_setting(obj, key), entries, entries.len() as int),
        ) matches Ok(after) ==> is_valid_object(after) && (is_set(after, key, n, v)
            <==> entries.contains((n, v)) || (!has_key(entries, n) && is_set(obj, key, n, v))),
{
    let base = merged_setting(obj, key);
    let map = with_all(base, entries, entries.len() as int);
    lemma_merged_valid(obj, key);
    lemma_with_all(base, entries, entries.len() as int, n);
    assert(entries.take(entries.len() as int) =~= entries);
    law_setting_reads_back(obj, key, map, key);
    law_setting_entries(obj, key, n, v);
    law_get(base, n, v);
    law_get(map, n, v);
    law_get(entries, n, v);
    if has_key(entries, n) {
        let w = choose|w: JsonView| #[trigger] entries.contains((n, w));
        law_get(entries, n, w);
    }
    if let Ok(after) = with_setting(obj, key, map) {
        law_setting_entries(after, key, n, v);
    }
}

proof fn lemma_merged_valid(obj: Entries, key: Seq<char>)
    requires
        is_valid_object(obj),
    ensures
        is_valid_object(merged_setting(obj, key)),
{
    let a = ns_setting(obj, "pnpm"@, key);
    let b = ns_setting(obj, "aube"@, key);
    lemma_is_set_in(obj, "pnpm"@, key);
    lemma_is_set_in(obj, "aube"@, key);
    lemma_with_all(Seq::empty(), a, a.len() as int, key);
    lemma_with_all(with_all(Seq::empty(), a, a.len() as int), b, b.len() as int, key);
}

/// The approvals hold `true` for each of the names, and nothing else.
pub proof fn law_approvals(names: Seq<Seq<char>>, n: Seq<char>, v: JsonView)
    ensures
        approvals(names).contains((n, v)) <==> names.contains(n) && v == JsonView::Bool(true),
        is_valid_object(approvals(names)),
    decreases names.len(),
{
    let r = approvals(names);
    if names.len() > 0 {
        let front = names.drop_last();
        let last = names.last();
        let before = approvals(front);
        law_approvals(front, n, v);
        assert(names[names.len() - 1] == last);
        if front.contains(n) {
            let i = choose|i: int| 0 <= i < front.len() && front[i] == n;
            assert(names[i] == n);
        }
        if names.contains(n) && n != last {
            let i = choose|i: int| 0 <= i < names.len() && names[i] == n;
            assert(front[i] == n);
        }
        if !front.contains(last) {
            assert(r == before.push((last, JsonView::Bool(true))));
            assert(r[before.len() as int] == (last, JsonView::Bool(true)));
            if before.contains((n, v)) {
                let i = choose|i: int| 0 <= i < before.len() && before[i] == (n, v);
                assert(r[i] == (n, v));
            }
            if r.contains((n, v)) && (n, v) != (last, JsonView::Bool(true)) {
                let i = choose|i: int| 0 <= i < r.len() && r[i] == (n, v);
                assert(before[i] == (n, v));
            }
            assert forall|i: int| 0 <= i < before.len() implies (#[trigger] before[i]).0 != last by {
                law_approvals(front, before[i].0, before[i].1);
                assert(before.contains((before[i].0, before[i].1)));
            }
        }
    } else {
        assert(!r.contains((n, v)));
    }
}

proof fn lemma_equal_entry(x: Entries, y: Entries, k: Seq<char>, v: JsonView) -> (w: JsonView)
    requires
        equal(JsonView::Object(x), JsonView::Object(y)),
        x.contains((k, v)),
    ensures
        y.contains((k, w)),
        equal(v, w),
{
    let i = choose|i: int| 0 <= i < x.len() && x[i] == (k, v);
    assert(JsonView::Object(x)->Object_0 == x && JsonView::Object(y)->Object_0 == y);
    assert(has_entry_from(x[i], y, 0));
    lemma_entry_from(x[i], y, 0)
}

proof fn lemma_entry_from(e: (Seq<char>, JsonView), y: Entries, from: int) -> (w: JsonView)
    requires
        has_entry_from(e, y, from),
    ensures
        y.contains((e.0, w)),
        equal(e.1, w),
    decreases y.len() - from,
{
    if e.0 == y[from].0 && equal(e.1, y[from].1) {
        assert(y[from] == (e.0, y[from].1));
        y[from].1
    } else {
        lemma_entry_from(e, y, from + 1)
    }
}

proof fn lemma_equal_setting(
    after: Entries,
    obj: Entries,
    ns: Seq<char>,
    key: Seq<char>,
    n: Seq<char>,
    b: bool,
)
    requires
        equal(JsonView::Object(after), JsonView::Object(obj)),
        is_set_in(after, ns, key, n, JsonView::Bool(b)),
    ensures
        is_set_in(obj, ns, key, n, JsonView::Bool(b)),
{
    let m = choose|m: Entries| #[trigger]
        in_namespace(after, ns, key, JsonView::Object(m)) && m.contains((n, JsonView::Bool(b)));
    let o = choose|o: Entries| #[trigger]
        after.contains((ns, JsonView::Object(o))) && o.contains((key, JsonView::Object(m)));
    let p = lemma_equal_entry(after, obj, ns, JsonView::Object(o));
    let q = lemma_equal_entry(o, p->Object_0, key, JsonView::Object(m));
    let r = lemma_equal_entry(m, q->Object_0, n, JsonView::Bool(b));
    assert(r == JsonView::Bool(b));
    assert(obj.contains((ns, JsonView::Object(p->Object_0))));
    assert(in_namespace(obj, ns, key, JsonView::Object(q->Object_0)));
}

/// After names were approved in a manifest, `allowBuilds` is `true` for each of them,
/// and for every other name what it was. The new text is that of such a manifest;
/// there is none only where every name was approved before.
pub proof fn law_names_are_approved(text: Seq<char>, obj: Entries, names: Seq<Seq<char>>) -> (after:
    Entries)
    requires
        json_value(text) == Ok::<JsonView, ParseErrorView>(JsonView::Object(obj)),
        is_valid_object(obj),
    ensures
        ({
            let r = approved_text(ConfigWriteTarget::PackageJson, text, names);
            &&& r is Ok ==> forall|n: Seq<char>, v: JsonView| #[trigger]
                is_set(after, "allowBuilds"@, n, v) <==> if names.contains(n) {
                    v == JsonView::Bool(true)
                } else {
                    is_set(obj, "allowBuilds"@, n, v)
                }
            &&& r is Ok ==> forall|q: Seq<char>, v: JsonView|
                q != "pnpm"@ && q != "aube"@ ==> (#[trigger] after.contains((q, v))
                    <==> obj.contains((q, v)))
            &&& r matches Ok(Some(t)) ==> json_pretty_text(JsonView::Object(after)) == Ok::<
                Seq<char>,
                Seq<char>,
            >(t.drop_last()) && t.last() == '\n'
            &&& r == Ok::<Option<Seq<char>>, ConfigEditErrorView>(None) ==> forall|n: Seq<char>|
                names.contains(n) ==> #[trigger] is_set_in(
                    obj,
                    "pnpm"@,
                    "allowBuilds"@,
                    n,
                    JsonView::Bool(true),
                ) || is_set_in(obj, "aube"@, "allowBuilds"@, n, JsonView::Bool(true))
        }),
{
    let key = "allowBuilds"@;
    let entries = approvals(names);
    let map = with_all(merged_setting(obj, key), entries, entries.len() as int);
    law_approvals(names, key, JsonView::Null);
    match with_setting(obj, key, map) {
        Ok(after) => {
            assert forall|n: Seq<char>, v: JsonView| #[trigger] is_set(after, key, n, v)
                <==> if names.contains(n) {
                v == JsonView::Bool(true)
            } else {
                is_set(obj, key, n, v)
            } by {
                law_set_entries(obj, key, entries, n, v);
                law_approvals(names, n, v);
                law_approvals(names, n, JsonView::Bool(true));
                if has_key(entries, n) {
                    let w = choose|w: JsonView| #[trigger] entries.contains((n, w));
                    law_approvals(names, n, w);
                }
            }
            lemma_merged_valid(obj, key);
            lemma_with_all(merged_setting(obj, key), entries, entries.len() as int, key);
            assert forall|q: Seq<char>, v: JsonView| q != "pnpm"@ && q != "aube"@ implies (
            #[trigger] after.contains((q, v)) <==> obj.contains((q, v))) by {
                law_setting_reads_back(obj, key, map, q);
                law_get(after, q, v);
                law_get(obj, q, v);
            }
            let r = approved_text(ConfigWriteTarget::PackageJson, text, names);
            if let Ok(Some(t)) = r {
                let s = json_pretty_text(JsonView::Object(after))->Ok_0;
                assert(t == s.push('\n'));
                assert(t.drop_last() =~= s);
            }
            if r == Ok::<Option<Seq<char>>, ConfigEditErrorView>(None) {
                assert(equal(JsonView::Object(after), JsonView::Object(obj)));
                assert forall|n: Seq<char>| names.contains(n) implies #[trigger] is_set_in(
                    obj,
                    "pnpm"@,
                    key,
                    n,
                    JsonView::Bool(true),
                ) || is_set_in(obj, "aube"@, key, n, JsonView::Bool(true)) by {
                    assert(is_set(after, key, n, JsonView::Bool(true)));
                    if is_set_in(after, "aube"@, key, n, JsonView::Bool(true)) {
                        lemma_equal_setting(after, obj, "aube"@, key, n, true);
                    } else {
                        lemma_equal_setting(after, obj, "pnpm"@, key, n, true);
                    }
                }
            }
            after
        },
        Err(_) => obj,
    }
}

/// A setting can be written unless something other than an object stands under one
/// of the two namespaces.
pub proof fn law_settings_can_be_written(obj: Entries, key: Seq<char>, map: Entries)
    requires
        is_valid_object(obj),
        forall|v: JsonView| #[trigger] obj.contains(("pnpm"@, v)) ==> v is Object,
        forall|v: JsonView| #[trigger] obj.contains(("aube"@, v)) ==> v is Object,
    ensures
        with_setting(obj, key, map) is Ok,
{
    lemma_differ();
    let other = if find_key(obj, "pnpm"@) is Some {
        "aube"@
    } else {
        "pnpm"@
    };
    let ns = if find_key(obj, "pnpm"@) is Some {
        "pnpm"@
    } else {
        "aube"@
    };
    let rest = without_setting(obj, other, key);
    lemma_find_key_from(rest, ns, 0);
    lemma_get_valid(obj, other);
    lemma_without_key(obj, other, ns);
    if let Some(e) = get_object(obj, other) {
        lemma_with_key(obj, other, JsonView::Object(without_key(e, key)), ns);
    }
    assert(get(rest, ns) == get(obj, ns));
    if let Some(v) = get(obj, ns) {
        law_get(obj, ns, v);
    }
}

proof fn lemma_differ()
    ensures
        "pnpm"@ != "aube"@,
{
    reveal_strlit("pnpm");
    reveal_strlit("aube");
    assert("pnpm"@[0] != "aube"@[0]);
}

/// Taking an entry out of a map setting takes it out of both namespaces. Every other
/// entry, and every other key of the namespaces, stays.
pub proof fn law_removed_entry_alone(
    obj: Entries,
    key: Seq<char>,
    k: Seq<char>,
    ns: Seq<char>,
    n: Seq<char>,
    v: JsonView,
)
    requires
        is_valid_object(obj),
        ns == "pnpm"@ || ns == "aube"@,
    ensures
        ({
            let after = without_setting_entry(obj, key, k);
            &&& is_set_in(after, ns, key, n, v) <==> n != k && is_set_in(obj, ns, key, n, v)
            &&& n != key ==> (in_namespace(after, ns, n, v) <==> in_namespace(obj, ns, n, v))
        }),
{
    lemma_differ();
    let first = without_entry(obj, "pnpm"@, key, k);
    let after = without_entry(first, "aube"@, key, k);
    lemma_without_entry(obj, "pnpm"@, key, k, ns, n, v);
    lemma_without_entry(first, "aube"@, key, k, ns, n, v);
}

proof fn lemma_without_entry(
    obj: Entries,
    at: Seq<char>,
    key: Seq<char>,
    k: Seq<char>,
    ns: Seq<char>,
    n: Seq<char>,
    v: JsonView,
)
    requires
        is_valid_object(obj),
    ensures
        ({
            let after = without_entry(obj, at, key, k);
            &&& is_valid_object(after)
            &&& is_set_in(after, ns, key, n, v) <==> (ns != at || n != k) && is_set_in(
                obj,
                ns,
                key,
                n,
                v,
            )
            &&& n != key ==> (in_namespace(after, ns, n, v) <==> in_namespace(obj, ns, n, v))
        }),
{
    let after = without_entry(obj, at, key, k);
    let none = Seq::<(Seq<char>, JsonView)>::empty();
    lemma_get_valid(obj, at);
    lemma_find_key_from(none, n, 0);
    if let Some(e) = get_object(obj, at) {
        lemma_get_valid(e, key);
        let e2 = match get_object(e, key) {
            Some(inner) => if without_key(inner, k).len() == 0 {
                without_key(e, key)
            } else {
                with_key(e, key, JsonView::Object(without_key(inner, k)))
            },
            None => e,
        };
        if let Some(inner) = get_object(e, key) {
            let inner2 = without_key(inner, k);
            lemma_without_key_valid(inner, k);
            lemma_without_key(inner, k, n);
            lemma_valid_object(inner2);
            lemma_without_key_valid(e, key);
            lemma_without_key(e, key, n);
            lemma_without_key(e, key, key);
            lemma_with_key_valid(e, key, JsonView::Object(inner2));
            lemma_with_key(e, key, JsonView::Object(inner2), n);
            lemma_with_key(e, key, JsonView::Object(inner2), key);
            law_get(inner, n, v);
            law_get(inner2, n, v);
            if inner2.len() == 0 {
                assert(inner2 =~= none);
            }
        }
        assert(is_valid_object(e2));
        lemma_valid_object(e2);
        lemma_without_key_valid(obj, at);
        lemma_without_key(obj, at, ns);
        lemma_with_key_valid(obj, at, JsonView::Object(e2));
        lemma_with_key(obj, at, JsonView::Object(e2), ns);
        if e2.len() == 0 {
            assert(e2 =~= none);
        }
    }
    lemma_is_set_in(obj, ns, key);
    lemma_is_set_in(after, ns, key);
    lemma_in_namespace(obj, ns, n, v);
    lemma_in_namespace(after, ns, n, v);
    assert(is_set_in(obj, ns, key, n, v) <==> ns_setting(obj, ns, key).contains((n, v)));
    assert(is_set_in(after, ns, key, n, v) <==> ns_setting(after, ns, key).contains((n, v)));
}

/// A setting has an entry to remove where either namespace has one with that name.
pub proof fn law_entry_is_there(obj: Entries, key: Seq<char>, k: Seq<char>)
    requires
        is_valid_object(obj),
    ensures
        has_setting_entry(obj, key, k) <==> exists|v: JsonView|
            #![trigger is_set_in(obj, "pnpm"@, key, k, v)]
            #![trigger is_set_in(obj, "aube"@, key, k, v)]
            is_set_in(obj, "pnpm"@, key, k, v) || is_set_in(obj, "aube"@, key, k, v),
{
    lemma_differ();
    let first = without_entry(obj, "pnpm"@, key, k);
    lemma_without_entry(obj, "pnpm"@, key, k, "aube"@, k, JsonView::Null);
    lemma_is_set_in(obj, "pnpm"@, key);
    lemma_is_set_in(obj, "aube"@, key);
    lemma_is_set_in(first, "aube"@, key);
    let (a, b, c) = (
        ns_setting(obj, "pnpm"@, key),
        ns_setting(obj, "aube"@, key),
        ns_setting(first, "aube"@, key),
    );
    law_get(a, k, JsonView::Null);
    law_get(c, k, JsonView::Null);
    assert forall|v: JsonView| c.contains((k, v)) <==> #[trigger] is_set_in(
        obj,
        "aube"@,
        key,
        k,
        v,
    ) by {
        lemma_without_entry(obj, "pnpm"@, key, k, "aube"@, k, v);
        assert(is_set_in(first, "aube"@, key, k, v) <==> c.contains((k, v)));
    }
    if find_key(a, k) is Some {
        let v = choose|v: JsonView| #[trigger] a.contains((k, v));
        assert(is_set_in(obj, "pnpm"@, key, k, v));
    }
    if find_key(c, k) is Some {
        let v = choose|v: JsonView| #[trigger] c.contains((k, v));
        assert(is_set_in(obj, "aube"@, key, k, v));
    }
}

/// Setting a key keeps the order of the keys; a new one comes last. The other entries stay
/// as they are.
pub proof fn law_keys_keep_their_order(e: Entries, k: Seq<char>, v: JsonView, i: int)
    requires
        0 <= i < e.len(),
    ensures
        with_key(e, k, v).len() >= e.len(),
        with_key(e, k, v)[i].0 == e[i].0,
        e[i].0 != k ==> with_key(e, k, v)[i] == e[i],
        find_key(e, k) is None ==> with_key(e, k, v) == e.push((k, v)),
{
    lemma_find_key_from(e, k, 0);
}

proof fn lemma_without_setting(
    obj: Entries,
    at: Seq<char>,
    key: Seq<char>,
    ns: Seq<char>,
    k: Seq<char>,
    x: JsonView,
)
    requires
        is_valid_object(obj),
        k != key,
    ensures
        is_valid_object(without_setting(obj, at, key)),
        in_namespace(without_setting(obj, at, key), ns, k, x) <==> in_namespace(obj, ns, k, x),
{
    let after = without_setting(obj, at, key);
    let none = Seq::<(Seq<char>, JsonView)>::empty();
    lemma_get_valid(obj, at);
    lemma_find_key_from(none, k, 0);
    if let Some(e) = get_object(obj, at) {
        let e2 = without_key(e, key);
        lemma_without_key_valid(e, key);
        lemma_without_key(e, key, k);
        lemma_valid_object(e2);
        lemma_without_key_valid(obj, at);
        lemma_without_key(obj, at, ns);
        lemma_with_key_valid(obj, at, JsonView::Object(e2));
        lemma_with_key(obj, at, JsonView::Object(e2), ns);
        if e2.len() == 0 {
            assert(e2 =~= none);
        }
    }
    lemma_in_namespace(obj, ns, k, x);
    lemma_in_namespace(after, ns, k, x);
}

/// Writing a setting leaves every other key of the two namespaces as it was.
pub proof fn law_other_settings_stay(
    obj: Entries,
    key: Seq<char>,
    map: Entries,
    ns: Seq<char>,
    k: Seq<char>,
    x: JsonView,
)
    requires
        is_valid_object(obj),
        is_valid_object(map),
        k != key,
    ensures
        with_setting(obj, key, map) matches Ok(after) ==> (in_namespace(after, ns, k, x)
            <==> in_namespace(obj, ns, k, x)),
{
    let at = chosen_namespace(obj);
    let other = other_namespace(obj);
    let rest = without_setting(obj, other, key);
    let none = Seq::<(Seq<char>, JsonView)>::empty();
    lemma_without_setting(obj, other, key, ns, k, x);
    lemma_without_setting(rest, at, key, ns, k, x);
    lemma_find_key_from(none, k, 0);
    if let Ok(after) = with_setting(obj, key, map) {
        if map.len() > 0 {
            let e = match find_key(rest, at) {
                Some(i) => object(rest[i].1)->0,
                None => none,
            };
            lemma_get_valid(rest, at);
            lemma_find_key_from(rest, at, 0);
            assert(is_valid_object(e));
            lemma_valid_object(map);
            let e2 = with_key(e, key, JsonView::Object(map));
            lemma_with_key_valid(e, key, JsonView::Object(map));
            lemma_with_key(e, key, JsonView::Object(map), k);
            lemma_valid_object(e2);
            lemma_with_key_valid(rest, at, JsonView::Object(e2));
            lemma_with_key(rest, at, JsonView::Object(e2), ns);
            lemma_in_namespace(rest, ns, k, x);
            lemma_in_namespace(after, ns, k, x);
        }
    }
}

/// A setting is written under `pnpm` where the manifest has that, and else under `aube`.
pub proof fn law_where_settings_stand(
    obj: Entries,
    key: Seq<char>,
    map: Entries,
    n: Seq<char>,
    v: JsonView,
)
    requires
        is_valid_object(obj),
        is_valid_object(map),
        map.contains((n, v)),
    ensures
        with_setting(obj, key, map) matches Ok(after) ==> {
            &&& has_key(obj, "pnpm"@) ==> is_set_in(after, "pnpm"@, key, n, v) && !is_set_in(
                after,
                "aube"@,
                key,
                n,
                v,
            )
            &&& !has_key(obj, "pnpm"@) ==> is_set_in(after, "aube"@, key, n, v) && !is_set_in(
                after,
                "pnpm"@,
                key,
                n,
                v,
            )
        },
{
    law_setting_reads_back(obj, key, map, key);
    law_get(obj, "pnpm"@, v);
    if let Ok(after) = with_setting(obj, key, map) {
        law_setting_entries(after, key, n, v);
        lemma_is_set_in(after, "pnpm"@, key);
        lemma_is_set_in(after, "aube"@, key);
        let empty = ns_setting(after, other_namespace(obj), key);
        assert(!empty.contains((n, v)));
        assert(is_set(after, key, n, v));
        assert(is_set_in(after, "aube"@, key, n, v) || is_set_in(after, "pnpm"@, key, n, v));
        if find_key(obj, "pnpm"@) is Some {
            assert(has_key(obj, "pnpm"@)) by {
                lemma_find_key_from(obj, "pnpm"@, 0);
                let i = find_key(obj, "pnpm"@)->0;
                assert(obj[i] == ("pnpm"@, obj[i].1));
                assert(obj.contains(("pnpm"@, obj[i].1)));
            }
            assert(!is_set_in(after, "aube"@, key, n, v));
        } else {
            assert(!is_set_in(after, "pnpm"@, key, n, v));
        }
    }
}

/// A manifest is edited where it is an object, and refused where it is another value.
pub proof fn law_manifests_are_objects(raw: Seq<char>, v: JsonView, e: Entries)
    ensures
        json_value(raw) == Ok::<JsonView, ParseErrorView>(JsonView::Object(e)) ==> manifest_object(
            raw,
        ) == Ok::<Entries, EditErrorView>(e),
        json_value(raw) == Ok::<JsonView, ParseErrorView>(v) && !(v is Object) ==> manifest_object(
            raw,
        ) == Err::<Entries, EditErrorView>(EditErrorView::NotAnObject),
        json_value(raw) is Err ==> manifest_object(raw) is Err,
{
}

} // verus!
