//! What the settings of a manifest guarantee.
use vstd::prelude::*;
use crate::json::JsonView;
use crate::manifest::settings::{
    listed_pairs, overrides, resolved_override, resolved_overrides, top_object, unresolved,
    AllowBuildView,
};
use crate::manifest::workspace::{
    all_architectures, existing_name, with_new_texts, yaml_allow_builds,
};
use crate::yaml::YamlView;
use crate::manifest::{
    direct_range, items_of, list_setting, map_setting, namespace, object_of, strings_of, with_new,
    BundledDependencies, Ranges,
};
use crate::strmap::{lemma_listing, lookup, sorted_keys};
use crate::text::strip_prefix;

verus! {

/// No text occurs twice.
pub open spec fn is_distinct(list: Seq<Seq<char>>) -> bool {
    forall|i: int, j: int| 0 <= i < j < list.len() ==> list[i] != list[j]
}

pub proof fn lemma_with_new(list: Seq<Seq<char>>, items: Seq<JsonView>, n: int)
    requires
        is_distinct(list),
        0 <= n <= items.len(),
    ensures
        is_distinct(with_new(list, items, n)),
        list.is_prefix_of(with_new(list, items, n)),
        forall|s: Seq<char>| #[trigger]
            with_new(list, items, n).contains(s) <==> list.contains(s) || items.take(n).contains(
                JsonView::String(s),
            ),
    decreases n,
{
    let r = with_new(list, items, n);
    if n > 0 {
        lemma_with_new(list, items, n - 1);
        let before = with_new(list, items, n - 1);
        let (front, all) = (items.take(n - 1), items.take(n));
        assert(all[n - 1] == items[n - 1]);
        assert forall|v: JsonView| all.contains(v) <==> front.contains(v) || v == items[n - 1] by {
            if front.contains(v) {
                let i = choose|i: int| 0 <= i < front.len() && front[i] == v;
                assert(all[i] == v);
            }
            if all.contains(v) && v != items[n - 1] {
                let i = choose|i: int| 0 <= i < all.len() && all[i] == v;
                assert(front[i] == v);
            }
        }
        if let JsonView::String(t) = items[n - 1] {
            if !before.contains(t) {
                assert(list =~= r.take(list.len() as int)) by {
                    assert(list =~= before.take(list.len() as int));
                }
                assert forall|s: Seq<char>| r.contains(s) <==> before.contains(s) || s == t by {
                    if before.contains(s) {
                        let i = choose|i: int| 0 <= i < before.len() && before[i] == s;
                        assert(r[i] == s);
                    }
                    assert(r[before.len() as int] == t);
                }
                assert forall|i: int, j: int| 0 <= i < j < r.len() implies r[i] != r[j] by {
                    if j == before.len() {
                        assert(before.contains(before[i]));
                    }
                }
            }
        }
    } else {
        assert(list.is_prefix_of(list));
    }
}

/// A list setting holds each string of `pnpm` and of `aube` once, those of
/// `pnpm` first, and nothing else.
pub proof fn law_list_setting(extra: Map<Seq<char>, JsonView>, key: Seq<char>)
    ensures
        ({
            let a = items_of(namespace(extra, "pnpm"@), key);
            let b = items_of(namespace(extra, "aube"@), key);
            let r = list_setting(extra, key);
            &&& is_distinct(r)
            &&& forall|s: Seq<char>| #[trigger]
                r.contains(s) <==> a.contains(JsonView::String(s)) || b.contains(
                    JsonView::String(s),
                )
            &&& with_new(Seq::empty(), a, a.len() as int).is_prefix_of(r)
        }),
{
    let a = items_of(namespace(extra, "pnpm"@), key);
    let b = items_of(namespace(extra, "aube"@), key);
    let none = Seq::<Seq<char>>::empty();
    lemma_with_new(none, a, a.len() as int);
    let first = with_new(none, a, a.len() as int);
    lemma_with_new(first, b, b.len() as int);
    assert(a.take(a.len() as int) =~= a);
    assert(b.take(b.len() as int) =~= b);
    assert forall|s: Seq<char>| first.contains(s) <==> a.contains(JsonView::String(s)) by {
        assert(!none.contains(s));
    }
}

/// In a map setting `aube` wins over `pnpm`.
pub proof fn law_map_setting(extra: Map<Seq<char>, JsonView>, key: Seq<char>, name: Seq<char>)
    ensures
        ({
            let pnpm = strings_of(Some(object_of(namespace(extra, "pnpm"@), key)));
            let aube = strings_of(Some(object_of(namespace(extra, "aube"@), key)));
            lookup(map_setting(extra, key), name) == match lookup(aube, name) {
                Some(v) => Some(v),
                None => lookup(pnpm, name),
            }
        }),
{
}

/// Of the places that can override a dependency, the top-level `overrides` come
/// first, then those under `aube`, then those under `pnpm`, and `resolutions`
/// last. No override has an empty selector.
pub proof fn law_overrides(extra: Map<Seq<char>, JsonView>, name: Seq<char>)
    ensures
        ({
            let top = strings_of(Some(top_object(extra, "overrides"@)));
            let aube = strings_of(Some(object_of(namespace(extra, "aube"@), "overrides"@)));
            let pnpm = strings_of(Some(object_of(namespace(extra, "pnpm"@), "overrides"@)));
            let yarn = strings_of(Some(top_object(extra, "resolutions"@)));
            lookup(overrides(extra), name) == if name.len() == 0 {
                None
            } else if top.dom().contains(name) {
                Some(top[name])
            } else if aube.dom().contains(name) {
                Some(aube[name])
            } else if pnpm.dom().contains(name) {
                Some(pnpm[name])
            } else {
                lookup(yarn, name)
            }
        }),
{
    if name.len() == 0 {
        assert(name =~= Seq::<char>::empty());
    }
}

proof fn lemma_unresolved(
    ranges: Ranges,
    m: Map<Seq<char>, Seq<char>>,
    keys: Seq<Seq<char>>,
    k: Seq<char>,
)
    ensures
        unresolved(ranges, m, keys).contains(k) <==> keys.contains(k) && resolved_override(
            ranges,
            m[k],
        ) is None,
    decreases keys.len(),
{
    if keys.len() > 0 {
        let front = keys.drop_last();
        let last = keys.last();
        lemma_unresolved(ranges, m, front, k);
        assert(keys[keys.len() - 1] == last);
        if front.contains(k) {
            let i = choose|i: int| 0 <= i < front.len() && front[i] == k;
            assert(keys[i] == k);
        }
        if keys.contains(k) && k != last {
            let i = choose|i: int| 0 <= i < keys.len() && keys[i] == k;
            assert(front[i] == k);
        }
        let before = unresolved(ranges, m, front);
        let r = unresolved(ranges, m, keys);
        if before.contains(k) {
            let i = choose|i: int| 0 <= i < before.len() && before[i] == k;
            assert(r[i] == k);
        }
        if resolved_override(ranges, m[last]) is None {
            assert(r[before.len() as int] == last);
        }
        if r.contains(k) && !before.contains(k) {
            let i = choose|i: int| 0 <= i < r.len() && r[i] == k;
            if i < before.len() {
                assert(before[i] == k);
            }
        }
    }
}

/// A reference among the overrides is replaced by the range of the direct
/// dependency that it names. Where there is none the override is dropped and
/// reported; any other override stays as it is. So each is either kept or
/// reported.
pub proof fn law_override_references(ranges: Ranges, m: Map<Seq<char>, Seq<char>>, k: Seq<char>)
    requires
        m.dom().finite(),
    ensures
        ({
            let kept = resolved_overrides(ranges, m);
            let dropped = unresolved(ranges, m, sorted_keys(m.dom()));
            &&& m.dom().contains(k) <==> kept.dom().contains(k) || dropped.contains(k)
            &&& !(kept.dom().contains(k) && dropped.contains(k))
            &&& kept.dom().contains(k) ==> match strip_prefix(m[k], "$"@) {
                Some(name) => direct_range(ranges, name) == Some(kept[k]),
                None => kept[k] == m[k],
            }
            &&& dropped.contains(k) ==> (strip_prefix(m[k], "$"@) matches Some(name)
                && direct_range(ranges, name) is None)
        }),
{
    lemma_listing(m.dom());
    let keys = sorted_keys(m.dom());
    lemma_unresolved(ranges, m, keys, k);
    assert(m.dom().contains(k) <==> keys.contains(k));
}

/// The architectures of the manifest come first, in their order, and those of
/// the workspace follow, each once.
pub proof fn law_architectures(manifest: Seq<Seq<char>>, workspace: Seq<Seq<char>>)
    requires
        is_distinct(manifest),
    ensures
        ({
            let r = all_architectures(manifest, Some(workspace));
            &&& is_distinct(r)
            &&& manifest.is_prefix_of(r)
            &&& forall|s: Seq<char>| #[trigger]
                r.contains(s) <==> manifest.contains(s) || workspace.contains(s)
        }),
{
    lemma_with_new_texts(manifest, workspace, workspace.len() as int);
    assert(workspace.take(workspace.len() as int) =~= workspace);
}

proof fn lemma_with_new_texts(list: Seq<Seq<char>>, more: Seq<Seq<char>>, n: int)
    requires
        is_distinct(list),
        0 <= n <= more.len(),
    ensures
        is_distinct(with_new_texts(list, more, n)),
        list.is_prefix_of(with_new_texts(list, more, n)),
        forall|s: Seq<char>| #[trigger]
            with_new_texts(list, more, n).contains(s) <==> list.contains(s) || more.take(
                n,
            ).contains(s),
    decreases n,
{
    let r = with_new_texts(list, more, n);
    if n > 0 {
        lemma_with_new_texts(list, more, n - 1);
        let before = with_new_texts(list, more, n - 1);
        let t = more[n - 1];
        let (front, all) = (more.take(n - 1), more.take(n));
        assert(all[n - 1] == t);
        assert forall|v: Seq<char>| all.contains(v) <==> front.contains(v) || v == t by {
            if front.contains(v) {
                let i = choose|i: int| 0 <= i < front.len() && front[i] == v;
                assert(all[i] == v);
            }
            if all.contains(v) && v != t {
                let i = choose|i: int| 0 <= i < all.len() && all[i] == v;
                assert(front[i] == v);
            }
        }
        if !before.contains(t) {
            assert(list =~= r.take(list.len() as int)) by {
                assert(list =~= before.take(list.len() as int));
            }
            assert forall|s: Seq<char>| r.contains(s) <==> before.contains(s) || s == t by {
                if before.contains(s) {
                    let i = choose|i: int| 0 <= i < before.len() && before[i] == s;
                    assert(r[i] == s);
                }
                assert(r[before.len() as int] == t);
            }
            assert forall|i: int, j: int| 0 <= i < j < r.len() implies r[i] != r[j] by {
                if j == before.len() {
                    assert(before.contains(before[i]));
                }
            }
        }
    } else {
        assert(list.is_prefix_of(list));
    }
}

/// The bundled dependencies are those that are listed, or all of the dependencies, or none.
pub proof fn law_bundled(
    list: Vec<String>,
    deps: Map<Seq<char>, Seq<char>>,
    n: Seq<char>,
)
    requires
        deps.dom().finite(),
    ensures
        BundledDependencies::List(list).bundled(deps) == list.deep_view(),
        BundledDependencies::All(true).bundled(deps).contains(n) <==> deps.dom().contains(n),
        BundledDependencies::All(false).bundled(deps).len() == 0,
{
    lemma_listing(deps.dom());
}

/// The dependencies with their ranges: each entry of the map, and no other.
pub proof fn law_listed_pairs(m: Map<Seq<char>, Seq<char>>, n: Seq<char>, r: Seq<char>)
    requires
        m.dom().finite(),
    ensures
        listed_pairs(m).contains((n, r)) <==> m.dom().contains(n) && m[n] == r,
{
    lemma_listing(m.dom());
    let q = sorted_keys(m.dom());
    let all = listed_pairs(m);
    if all.contains((n, r)) {
        let i = choose|i: int| 0 <= i < all.len() && all[i] == (n, r);
        assert(q.contains(q[i]));
    }
    if m.dom().contains(n) && m[n] == r {
        assert(q.contains(n));
        let i = choose|i: int| 0 <= i < q.len() && q[i] == n;
        assert(all[i] == (n, r));
    }
}

/// The `allowBuilds` of a workspace yaml: a boolean stays what it is, and a text too.
pub proof fn law_workspace_builds(m: Map<Seq<char>, YamlView>, k: Seq<char>)
    ensures
        yaml_allow_builds(m).dom().contains(k) <==> m.dom().contains(k),
        m.dom().contains(k) ==> match m[k] {
            YamlView::Bool(b) => yaml_allow_builds(m)[k] == AllowBuildView::Bool(b),
            YamlView::String(s) => yaml_allow_builds(m)[k] == AllowBuildView::Other(s),
            _ => yaml_allow_builds(m)[k] is Other,
        },
{
}

/// The workspace file of a project is `aube-workspace.yaml` where that is there, and else
/// `pnpm-workspace.yaml` where that is.
pub proof fn law_workspace_files()
    ensures
        forall|has_pnpm: bool|
            #[trigger] existing_name(true, has_pnpm) == Some("aube-workspace.yaml"@),
        existing_name(false, true) == Some("pnpm-workspace.yaml"@),
        existing_name(false, false) is None,
{
}

} // verus!
