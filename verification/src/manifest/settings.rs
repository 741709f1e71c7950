//! Settings that a manifest carries in more than one place.
use vstd::prelude::*;
use crate::json::{
    compact_text, entry_trees, find_key, get, get_array_value, get_object_value, get_value,
    is_valid, json_text, lemma_find_key_from, object, tree, trees, Entries, Json, JsonView,
};
use crate::manifest::{
    direct_range, items_of, map_setting, namespace, object_of, strings_of, PackageJson, Ranges,
};
use crate::strmap::{lookup, prefix_set, sorted_keys, Dup, StrMap, StrSet};
use crate::text::{after_prefix, chars, string, strip_prefix};

verus! {

/// The value of an `allowBuilds` entry as it stands in the file.
#[derive(Debug, Clone, PartialEq, Eq)]
pub enum AllowBuildRaw {
    Bool(bool),
    /// The text of any other value.
    Other(String),
}

/// Model of [`AllowBuildRaw`].
pub enum AllowBuildView {
    Bool(bool),
    Other(Seq<char>),
}

impl DeepView for AllowBuildRaw {
    type V = AllowBuildView;

    open spec fn deep_view(&self) -> AllowBuildView {
        match self {
            AllowBuildRaw::Bool(b) => AllowBuildView::Bool(*b),
            AllowBuildRaw::Other(s) => AllowBuildView::Other(s@),
        }
    }
}

/// An `allowBuilds` value in JSON.
pub open spec fn allow_build(v: JsonView) -> AllowBuildView {
    match v {
        JsonView::Bool(b) => AllowBuildView::Bool(b),
        other => AllowBuildView::Other(json_text(other)),
    }
}

impl AllowBuildRaw {
    /// An `allowBuilds` value in JSON: a boolean, or the text of any other
    /// value.
    pub fn from_json(v: &Json) -> (r: Self)
        requires
            is_valid(tree(*v)),
        ensures
            r.deep_view() == allow_build(tree(*v)),
    {
        match v {
            Json::Bool(b) => AllowBuildRaw::Bool(*b),
            _ => AllowBuildRaw::Other(compact_text(v)),
        }
    }
}

/// The first `n` `allowBuilds` entries of an object added to a map.
pub open spec fn with_builds(
    base: Map<Seq<char>, AllowBuildView>,
    entries: Entries,
    n: int,
) -> Map<Seq<char>, AllowBuildView>
    decreases n,
{
    if n <= 0 {
        base
    } else {
        with_builds(base, entries, n - 1).insert(entries[n - 1].0, allow_build(entries[n - 1].1))
    }
}

/// The first `n` entries of an object added to a map as they are.
pub open spec fn with_entries(
    base: Map<Seq<char>, JsonView>,
    entries: Entries,
    n: int,
) -> Map<Seq<char>, JsonView>
    decreases n,
{
    if n <= 0 {
        base
    } else {
        with_entries(base, entries, n - 1).insert(entries[n - 1].0, entries[n - 1].1)
    }
}

/// The catalogs of the first `n` entries of an object merged into a map.
pub open spec fn with_catalogs(
    base: Map<Seq<char>, Map<Seq<char>, Seq<char>>>,
    entries: Entries,
    n: int,
) -> Map<Seq<char>, Map<Seq<char>, Seq<char>>>
    decreases n,
{
    if n <= 0 {
        base
    } else {
        let before = with_catalogs(base, entries, n - 1);
        let name = entries[n - 1].0;
        match object(entries[n - 1].1) {
            Some(inner) => before.insert(
                name,
                (match lookup(before, name) {
                    Some(c) => c,
                    None => Map::empty(),
                }).union_prefer_right(strings_of(Some(inner))),
            ),
            None => before,
        }
    }
}

/// The strings among some items.
pub open spec fn string_set(items: Seq<JsonView>) -> Set<Seq<char>> {
    Set::new(|s: Seq<char>| items.contains(JsonView::String(s)))
}

/// The list under a key of an object in a namespace.
pub open spec fn ignored_items(extra: Map<Seq<char>, JsonView>, ns: Seq<char>) -> Seq<JsonView> {
    items_of(object_of(namespace(extra, ns), "updateConfig"@), "ignoreDependencies"@)
}

/// The entries of a map whose key is not empty.
pub open spec fn with_valid_keys(m: Map<Seq<char>, Seq<char>>) -> Map<Seq<char>, Seq<char>> {
    m.remove(Seq::empty())
}

/// The entries of a top-level object; none where there is no such object.
pub open spec fn top_object(extra: Map<Seq<char>, JsonView>, key: Seq<char>) -> Entries {
    namespace(extra, key)
}

/// The overrides of a manifest. Later of these win: `resolutions`, `overrides`
/// under `pnpm`, under `aube`, and at the top.
pub open spec fn overrides(extra: Map<Seq<char>, JsonView>) -> Map<Seq<char>, Seq<char>> {
    with_valid_keys(
        strings_of(Some(top_object(extra, "resolutions"@))).union_prefer_right(
            map_setting(extra, "overrides"@),
        ).union_prefer_right(strings_of(Some(top_object(extra, "overrides"@)))),
    )
}

/// What an override value refers to: `$name` is the range of that direct
/// dependency, and any other value stands for itself.
pub open spec fn resolved_override(ranges: Ranges, value: Seq<char>) -> Option<Seq<char>> {
    match strip_prefix(value, "$"@) {
        Some(name) => direct_range(ranges, name),
        None => Some(value),
    }
}

/// Overrides with their references resolved; those that refer to nothing are
/// left out.
pub open spec fn resolved_overrides(ranges: Ranges, m: Map<Seq<char>, Seq<char>>) -> Map<
    Seq<char>,
    Seq<char>,
> {
    Map::new(
        |k: Seq<char>| m.dom().contains(k) && resolved_override(ranges, m[k]) is Some,
        |k: Seq<char>| resolved_override(ranges, m[k])->0,
    )
}

/// The keys among those given whose override refers to nothing.
pub open spec fn unresolved(
    ranges: Ranges,
    m: Map<Seq<char>, Seq<char>>,
    keys: Seq<Seq<char>>,
) -> Seq<Seq<char>>
    decreases keys.len(),
{
    if keys.len() == 0 {
        Seq::empty()
    } else {
        let before = unresolved(ranges, m, keys.drop_last());
        if resolved_override(ranges, m[keys.last()]) is None {
            before.push(keys.last())
        } else {
            before
        }
    }
}

/// Whether an entry of `dependenciesMeta` says `injected: true`.
pub open spec fn is_injected(meta: JsonView) -> bool {
    match object(meta) {
        Some(entries) => get(entries, "injected"@) == Some(JsonView::Bool(true)),
        None => false,
    }
}

/// The names in `dependenciesMeta` that are injected.
pub open spec fn injected(entries: Entries) -> Set<Seq<char>> {
    Set::new(
        |k: Seq<char>|
            exists|i: int|
                0 <= i < entries.len() && (#[trigger] entries[i]).0 == k && is_injected(
                    entries[i].1,
                ),
    )
}

/// Whether a key can be an override selector.
pub fn is_valid_selector_key(k: &str) -> (r: bool)
    ensures
        r == (k@.len() > 0),
{
    !k.is_empty()
}

fn insert_builds(out: &mut StrMap<AllowBuildRaw>, entries: &Vec<(String, Json)>)
    requires
        forall|i: int| 0 <= i < entries@.len() ==> is_valid(tree((#[trigger] entries@[i]).1)),
    ensures
        final(out)@ == with_builds(old(out)@, entry_trees(entries@), entries@.len() as int),
{
    let ghost out0 = out@;
    let ghost all = entry_trees(entries@);
    let mut i: usize = 0;
    while i < entries.len()
        invariant
            all == entry_trees(entries@),
            forall|i: int| 0 <= i < entries@.len() ==> is_valid(tree((#[trigger] entries@[i]).1)),
            i <= entries@.len(),
            out@ == with_builds(out0, all, i as int),
        decreases entries.len() - i,
    {
        proof {
            assert(all[i as int] == (entries@[i as int].0@, tree(entries@[i as int].1)));
        }
        out.insert(entries[i].0.clone(), AllowBuildRaw::from_json(&entries[i].1));
        i = i + 1;
    }
}

fn insert_entries(out: &mut StrMap<Json>, entries: &Vec<(String, Json)>)
    ensures
        final(out)@ == with_entries(old(out)@, entry_trees(entries@), entries@.len() as int),
{
    let ghost out0 = out@;
    let ghost all = entry_trees(entries@);
    let mut i: usize = 0;
    while i < entries.len()
        invariant
            all == entry_trees(entries@),
            i <= entries@.len(),
            out@ == with_entries(out0, all, i as int),
        decreases entries.len() - i,
    {
        proof {
            assert(all[i as int] == (entries@[i as int].0@, tree(entries@[i as int].1)));
        }
        out.insert(entries[i].0.clone(), entries[i].1.dup());
        i = i + 1;
    }
}

fn insert_catalogs(out: &mut StrMap<StrMap<String>>, entries: &Vec<(String, Json)>)
    ensures
        final(out)@ == with_catalogs(old(out)@, entry_trees(entries@), entries@.len() as int),
{
    let ghost out0 = out@;
    let ghost all = entry_trees(entries@);
    let mut i: usize = 0;
    while i < entries.len()
        invariant
            all == entry_trees(entries@),
            i <= entries@.len(),
            out@ == with_catalogs(out0, all, i as int),
        decreases entries.len() - i,
    {
        proof {
            assert(all[i as int] == (entries@[i as int].0@, tree(entries@[i as int].1)));
        }
        if let Some(inner) = entries[i].1.as_object() {
            let ghost before = out@;
            let name = &entries[i].0;
            let mut catalog = match out.remove(name.as_str()) {
                Some(c) => c,
                None => StrMap::new(),
            };
            crate::manifest::insert_strings(&mut catalog, inner);
            proof {
                assert(before.remove(name@).insert(name@, catalog@) =~= before.insert(
                    name@,
                    catalog@,
                ));
            }
            out.insert(name.clone(), catalog);
        }
        i = i + 1;
    }
}

fn insert_string_items(out: &mut StrSet, items: &Vec<Json>)
    ensures
        final(out)@ == old(out)@.union(string_set(trees(items@))),
{
    let ghost out0 = out@;
    let ghost all = trees(items@);
    let mut i: usize = 0;
    proof {
        assert(out0 =~= out0.union(string_set(all.take(0))));
    }
    while i < items.len()
        invariant
            all == trees(items@),
            i <= items@.len(),
            out@ == out0.union(string_set(all.take(i as int))),
        decreases items.len() - i,
    {
        let ghost a = all.take(i as int);
        let ghost b = all.take(i + 1);
        proof {
            assert(all[i as int] == tree(items@[i as int]));
            assert forall|v: JsonView| b.contains(v) <==> a.contains(v) || v == all[i as int] by {
                if a.contains(v) {
                    let j = choose|j: int| 0 <= j < a.len() && a[j] == v;
                    assert(b[j] == v);
                }
                assert(b[i as int] == all[i as int]);
                if b.contains(v) && v != all[i as int] {
                    let j = choose|j: int| 0 <= j < b.len() && b[j] == v;
                    assert(a[j] == v);
                }
            }
        }
        if let Some(s) = items[i].as_str() {
            proof {
                assert(all[i as int] == JsonView::String(s@));
                assert(out0.union(string_set(b)) =~= out0.union(string_set(a)).insert(s@));
            }
            out.insert(s.clone());
        } else {
            proof {
                assert(out0.union(string_set(b)) =~= out0.union(string_set(a)));
            }
        }
        i = i + 1;
    }
    proof {
        assert(all.take(all.len() as int) =~= all);
    }
}

fn read_injected(meta: &Json) -> (r: bool)
    ensures
        r == is_injected(tree(*meta)),
{
    match meta.as_object() {
        Some(entries) => match get_value(entries, "injected") {
            Some(Json::Bool(b)) => *b,
            _ => false,
        },
        None => false,
    }
}

/// The `name: range` pairs of a section, by name.
pub open spec fn listed_pairs(m: Map<Seq<char>, Seq<char>>) -> Seq<(Seq<char>, Seq<char>)> {
    sorted_keys(m.dom()).map_values(|k: Seq<char>| (k, m[k]))
}

fn push_pairs(out: &mut Vec<(String, String)>, m: &StrMap<String>)
    ensures
        final(out).deep_view() == old(out).deep_view() + listed_pairs(m@),
{
    let ghost out0 = out.deep_view();
    let ghost all = listed_pairs(m@);
    let n: usize = m.len();
    let mut i: usize = 0;
    proof {
        assert(out0 + all.take(0) =~= out0);
    }
    while i < n
        invariant
            all == listed_pairs(m@),
            n == all.len(),
            i <= n,
            out.deep_view() == out0 + all.take(i as int),
        decreases n - i,
    {
        let ghost before = out.deep_view();
        let pair = (m.key_at(i).clone(), m.value_at(i).clone());
        out.push(pair);
        proof {
            assert(out.deep_view() =~= before.push((pair.0@, pair.1@)));
            assert(all.take(i + 1) =~= all.take(i as int).push(all[i as int]));
            assert(out.deep_view() =~= out0 + all.take(i + 1));
        }
        i = i + 1;
    }
    proof {
        assert(all.take(n as int) =~= all);
    }
}

impl PackageJson {
    /// No object among the other fields holds a key twice.
    pub open spec fn is_valid(&self) -> bool {
        forall|k: Seq<char>| #[trigger]
            self.extra@.dom().contains(k) ==> is_valid(self.extra@[k])
    }

    fn ns_section(&self, ns: &str, key: &str) -> (r: Option<&Vec<(String, Json)>>)
        ensures
            match r {
                Some(e) => object_of(namespace(self.extra@, ns@), key@) == entry_trees(e@),
                None => object_of(namespace(self.extra@, ns@), key@) == Seq::<
                    (Seq<char>, JsonView),
                >::empty(),
            },
            self.is_valid() ==> (r matches Some(e) ==> forall|i: int|
                0 <= i < e@.len() ==> is_valid(tree((#[trigger] e@[i]).1))),
    {
        proof {
            assert(find_key(Seq::<(Seq<char>, JsonView)>::empty(), key@) is None);
        }
        match self.extra.get(ns) {
            Some(v) => match v.as_object() {
                Some(top) => {
                    let r = get_object_value(top, key);
                    proof {
                        if self.is_valid() && r is Some {
                            let entries = entry_trees(top@);
                            lemma_find_key_from(entries, key@, 0);
                            let k = find_key(entries, key@)->0;
                            let e = r->0;
                            assert(is_valid(tree(*v)));
                            assert(is_valid(entries[k].1));
                            assert(entries[k].1 == JsonView::Object(entry_trees(e@)));
                            assert forall|i: int| 0 <= i < e@.len() implies is_valid(
                                tree((#[trigger] e@[i]).1),
                            ) by {
                                lemma_valid_entry(entry_trees(e@), i);
                            }
                        }
                    }
                    r
                },
                None => None,
            },
            None => None,
        }
    }

    /// The packages whose build scripts may run, with the values as they stand.
    /// Entries under `aube` win over those under `pnpm`.
    pub fn pnpm_allow_builds(&self) -> (r: StrMap<AllowBuildRaw>)
        requires
            self.is_valid(),
        ensures
            r@ == ({
                let a = object_of(namespace(self.extra@, "pnpm"@), "allowBuilds"@);
                let b = object_of(namespace(self.extra@, "aube"@), "allowBuilds"@);
                with_builds(with_builds(Map::empty(), a, a.len() as int), b, b.len() as int)
            }),
    {
        let mut out: StrMap<AllowBuildRaw> = StrMap::new();
        if let Some(e) = self.ns_section("pnpm", "allowBuilds") {
            insert_builds(&mut out, e);
        }
        if let Some(e) = self.ns_section("aube", "allowBuilds") {
            insert_builds(&mut out, e);
        }
        out
    }

    /// The named catalogs. Entries under `aube` win over those under `pnpm`.
    pub fn pnpm_catalogs(&self) -> (r: StrMap<StrMap<String>>)
        ensures
            r@ == ({
                let a = object_of(namespace(self.extra@, "pnpm"@), "catalogs"@);
                let b = object_of(namespace(self.extra@, "aube"@), "catalogs"@);
                with_catalogs(with_catalogs(Map::empty(), a, a.len() as int), b, b.len() as int)
            }),
    {
        let mut out: StrMap<StrMap<String>> = StrMap::new();
        if let Some(e) = self.ns_section("pnpm", "catalogs") {
            insert_catalogs(&mut out, e);
        }
        if let Some(e) = self.ns_section("aube", "catalogs") {
            insert_catalogs(&mut out, e);
        }
        out
    }

    /// Add the strings of a list in a namespace, or in an object in it.
    fn insert_ns_items(&self, ns: &str, within: Option<&str>, key: &str, out: &mut StrSet)
        ensures
            final(out)@ == old(out)@.union(
                string_set(
                    items_of(
                        match within {
                            Some(w) => object_of(namespace(self.extra@, ns@), w@),
                            None => namespace(self.extra@, ns@),
                        },
                        key@,
                    ),
                ),
            ),
    {
        let ghost empty = Seq::<(Seq<char>, JsonView)>::empty();
        proof {
            assert(find_key(empty, key@) is None);
            assert(out@.union(string_set(Seq::empty())) =~= out@);
        }
        if let Some(v) = self.extra.get(ns) {
            if let Some(top) = v.as_object() {
                let base = match within {
                    Some(w) => get_object_value(top, w),
                    None => Some(top),
                };
                if let Some(entries) = base {
                    if let Some(items) = get_array_value(entries, key) {
                        insert_string_items(out, items);
                    }
                }
                return;
            }
        }
        proof {
            if let Some(w) = within {
                assert(find_key(empty, w@) is None);
            }
        }
    }

    /// The optional dependencies that are ignored.
    pub fn pnpm_ignored_optional_dependencies(&self) -> (r: StrSet)
        ensures
            r@ == string_set(
                items_of(namespace(self.extra@, "pnpm"@), "ignoredOptionalDependencies"@),
            ).union(
                string_set(
                    items_of(namespace(self.extra@, "aube"@), "ignoredOptionalDependencies"@),
                ),
            ),
    {
        let mut out = StrSet::new();
        self.insert_ns_items("pnpm", None, "ignoredOptionalDependencies", &mut out);
        proof {
            let a = string_set(
                items_of(namespace(self.extra@, "pnpm"@), "ignoredOptionalDependencies"@),
            );
            assert(Set::<Seq<char>>::empty().union(a) =~= a);
        }
        self.insert_ns_items("aube", None, "ignoredOptionalDependencies", &mut out);
        out
    }

    /// The dependencies that are copied into the project rather than linked.
    pub fn dependencies_meta_injected(&self) -> (r: StrSet)
        ensures
            r@ == injected(top_object(self.extra@, "dependenciesMeta"@)),
    {
        let mut out = StrSet::new();
        proof {
            assert(out@ =~= injected(Seq::empty()));
        }
        if let Some(v) = self.extra.get("dependenciesMeta") {
            if let Some(entries) = v.as_object() {
                let ghost all = entry_trees(entries@);
                let mut i: usize = 0;
                proof {
                    assert(out@ =~= injected(all.take(0)));
                }
                while i < entries.len()
                    invariant
                        all == entry_trees(entries@),
                        i <= entries@.len(),
                        out@ == injected(all.take(i as int)),
                    decreases entries.len() - i,
                {
                    let ghost a = all.take(i as int);
                    let ghost b = all.take(i + 1);
                    let ghost before = out@;
                    let here = read_injected(&entries[i].1);
                    if here {
                        out.insert(entries[i].0.clone());
                    }
                    proof {
                        let e = all[i as int];
                        assert(e == (entries@[i as int].0@, tree(entries@[i as int].1)));
                        assert forall|k: Seq<char>|
                            injected(b).contains(k) <==> injected(a).contains(k) || (here && k
                                == e.0) by {
                            if injected(a).contains(k) {
                                let j = choose|j: int|
                                    0 <= j < a.len() && (#[trigger] a[j]).0 == k && is_injected(
                                        a[j].1,
                                    );
                                assert(b[j] == a[j]);
                            }
                            if here && k == e.0 {
                                assert(b[i as int] == e);
                            }
                            if injected(b).contains(k) {
                                let j = choose|j: int|
                                    0 <= j < b.len() && (#[trigger] b[j]).0 == k && is_injected(
                                        b[j].1,
                                    );
                                if j < i {
                                    assert(a[j] == b[j]);
                                }
                            }
                        }
                        assert(out@ =~= injected(b));
                    }
                    i = i + 1;
                }
                proof {
                    assert(all.take(all.len() as int) =~= all);
                }
            }
        }
        out
    }

    /// The overrides. Later of these win: `resolutions`, `overrides` under
    /// `pnpm`, under `aube`, and at the top.
    pub fn overrides_map(&self) -> (r: StrMap<String>)
        ensures
            r@ == overrides(self.extra@),
    {
        let mut out: StrMap<String> = StrMap::new();
        if let Some(v) = self.extra.get("resolutions") {
            if let Some(e) = v.as_object() {
                crate::manifest::insert_strings(&mut out, e);
            }
        }
        let ghost r = strings_of(Some(top_object(self.extra@, "resolutions"@)));
        proof {
            assert(out@ =~= r);
        }
        let ghost a = strings_of(Some(object_of(namespace(self.extra@, "pnpm"@), "overrides"@)));
        let ghost b = strings_of(Some(object_of(namespace(self.extra@, "aube"@), "overrides"@)));
        if let Some(e) = self.ns_section("pnpm", "overrides") {
            crate::manifest::insert_strings(&mut out, e);
        }
        if let Some(e) = self.ns_section("aube", "overrides") {
            crate::manifest::insert_strings(&mut out, e);
        }
        proof {
            assert(out@ =~= r.union_prefer_right(a.union_prefer_right(b)));
        }
        if let Some(v) = self.extra.get("overrides") {
            if let Some(e) = v.as_object() {
                crate::manifest::insert_strings(&mut out, e);
            }
        }
        proof {
            let t = strings_of(Some(top_object(self.extra@, "overrides"@)));
            assert(out@ =~= r.union_prefer_right(map_setting(self.extra@, "overrides"@))
                .union_prefer_right(t));
        }
        if !is_valid_selector_key("") {
            let _ = out.remove("");
        }
        proof {
            reveal_strlit("");
            assert(""@ =~= Seq::<char>::empty());
        }
        out
    }

    /// Replace `$name` in overrides by the range of that direct dependency.
    /// Overrides that refer to nothing are taken out; their keys are given
    /// back.
    pub fn resolve_override_refs(&self, overrides: &mut StrMap<String>) -> (r: Vec<String>)
        ensures
            final(overrides)@ == resolved_overrides(self.ranges(), old(overrides)@),
            r.deep_view() == unresolved(
                self.ranges(),
                old(overrides)@,
                sorted_keys(old(overrides)@.dom()),
            ),
    {
        let ghost m = overrides@;
        let ghost ranges = self.ranges();
        let ghost keys = sorted_keys(m.dom());
        let ghost all = resolved_overrides(ranges, m);
        let mut out: StrMap<String> = StrMap::new();
        let mut r: Vec<String> = Vec::new();
        let n: usize = overrides.len();
        let mut i: usize = 0;
        proof {
            assert(out@ =~= all.restrict(prefix_set(keys, 0)));
            assert(r.deep_view() =~= unresolved(ranges, m, keys.take(0)));
        }
        while i < n
            invariant
                overrides@ == m,
                ranges == self.ranges(),
                keys == sorted_keys(m.dom()),
                all == resolved_overrides(ranges, m),
                n == keys.len(),
                i <= n,
                out@ == all.restrict(prefix_set(keys, i as int)),
                r.deep_view() == unresolved(ranges, m, keys.take(i as int)),
            decreases n - i,
        {
            let key = overrides.key_at(i);
            let value = overrides.value_at(i);
            proof {
                assert(keys.take(i + 1).drop_last() == keys.take(i as int));
                assert(keys.take(i + 1).last() == key@);
            }
            let resolved: Option<String> = match after_prefix(&chars(value.as_str()), "$") {
                Some(name) => match self.direct_dependency_range(string(name).as_str()) {
                    Some(range) => Some(range.to_owned()),
                    None => None,
                },
                None => Some(value.clone()),
            };
            match resolved {
                Some(s) => {
                    proof {
                        assert(all.restrict(prefix_set(keys, i as int + 1)) =~= all.restrict(
                            prefix_set(keys, i as int),
                        ).insert(key@, s@));
                    }
                    out.insert(key.clone(), s);
                },
                None => {
                    let ghost before = r.deep_view();
                    let k = key.clone();
                    r.push(k);
                    proof {
                        assert(r.deep_view() =~= before.push(k@));
                        assert(all.restrict(prefix_set(keys, i as int + 1)) =~= all.restrict(
                            prefix_set(keys, i as int),
                        ));
                    }
                },
            }
            i = i + 1;
        }
        proof {
            assert(keys.take(n as int) == keys);
            assert(all.restrict(prefix_set(keys, n as int)) =~= all);
        }
        *overrides = out;
        r
    }

    /// The extensions of package manifests. Later of these win: those under
    /// `pnpm`, under `aube`, and at the top.
    pub fn package_extensions(&self) -> (r: StrMap<Json>)
        ensures
            r@ == ({
                let a = object_of(namespace(self.extra@, "pnpm"@), "packageExtensions"@);
                let b = object_of(namespace(self.extra@, "aube"@), "packageExtensions"@);
                let c = top_object(self.extra@, "packageExtensions"@);
                with_entries(
                    with_entries(with_entries(Map::empty(), a, a.len() as int), b, b.len() as int),
                    c,
                    c.len() as int,
                )
            }),
    {
        let mut out: StrMap<Json> = StrMap::new();
        if let Some(e) = self.ns_section("pnpm", "packageExtensions") {
            insert_entries(&mut out, e);
        }
        if let Some(e) = self.ns_section("aube", "packageExtensions") {
            insert_entries(&mut out, e);
        }
        if let Some(v) = self.extra.get("packageExtensions") {
            if let Some(e) = v.as_object() {
                insert_entries(&mut out, e);
            }
        }
        out
    }

    /// The ranges of deprecated versions that raise no warning. Later of these
    /// win: those at the top, under `pnpm`, and under `aube`.
    pub fn allowed_deprecated_versions(&self) -> (r: StrMap<String>)
        ensures
            r@ == strings_of(
                Some(top_object(self.extra@, "allowedDeprecatedVersions"@)),
            ).union_prefer_right(map_setting(self.extra@, "allowedDeprecatedVersions"@)),
    {
        let mut out: StrMap<String> = StrMap::new();
        let ghost top = strings_of(Some(top_object(self.extra@, "allowedDeprecatedVersions"@)));
        let ghost a = strings_of(
            Some(object_of(namespace(self.extra@, "pnpm"@), "allowedDeprecatedVersions"@)),
        );
        if let Some(v) = self.extra.get("allowedDeprecatedVersions") {
            if let Some(e) = v.as_object() {
                crate::manifest::insert_strings(&mut out, e);
            }
        }
        proof {
            assert(out@ =~= top);
        }
        if let Some(e) = self.ns_section("pnpm", "allowedDeprecatedVersions") {
            crate::manifest::insert_strings(&mut out, e);
        }
        proof {
            assert(out@ =~= top.union_prefer_right(a));
        }
        if let Some(e) = self.ns_section("aube", "allowedDeprecatedVersions") {
            crate::manifest::insert_strings(&mut out, e);
        }
        proof {
            assert(out@ =~= top.union_prefer_right(
                map_setting(self.extra@, "allowedDeprecatedVersions"@),
            ));
        }
        out
    }

    /// The dependencies that are never updated, sorted.
    pub fn update_ignore_dependencies(&self) -> (r: Vec<String>)
        ensures
            r.deep_view() == sorted_keys(
                string_set(ignored_items(self.extra@, "pnpm"@)).union(
                    string_set(ignored_items(self.extra@, "aube"@)),
                ).union(
                    match self.update_config {
                        Some(c) => c.ignore_dependencies.deep_view().to_set(),
                        None => Set::empty(),
                    },
                ),
            ),
    {
        let mut set = StrSet::new();
        self.insert_ns_items("pnpm", Some("updateConfig"), "ignoreDependencies", &mut set);
        self.insert_ns_items("aube", Some("updateConfig"), "ignoreDependencies", &mut set);
        let ghost base = string_set(ignored_items(self.extra@, "pnpm"@)).union(
            string_set(ignored_items(self.extra@, "aube"@)),
        );
        proof {
            assert(set@ =~= base);
        }
        match &self.update_config {
            Some(c) => {
                insert_all(&mut set, &c.ignore_dependencies);
            },
            None => {
                proof {
                    assert(base.union(Set::empty()) =~= base);
                }
            },
        }
        sorted_list(&set)
    }

    /// The production and development dependencies with their ranges.
    pub fn all_dependencies(&self) -> (r: Vec<(String, String)>)
        ensures
            r.deep_view() == listed_pairs(self.dependencies@) + listed_pairs(
                self.dev_dependencies@,
            ),
    {
        let mut out: Vec<(String, String)> = Vec::new();
        push_pairs(&mut out, &self.dependencies);
        push_pairs(&mut out, &self.dev_dependencies);
        proof {
            assert(out.deep_view() =~= listed_pairs(self.dependencies@) + listed_pairs(
                self.dev_dependencies@,
            ));
        }
        out
    }

    /// The production dependencies with their ranges.
    pub fn production_dependencies(&self) -> (r: Vec<(String, String)>)
        ensures
            r.deep_view() == listed_pairs(self.dependencies@),
    {
        let mut out: Vec<(String, String)> = Vec::new();
        push_pairs(&mut out, &self.dependencies);
        proof {
            assert(out.deep_view() =~= listed_pairs(self.dependencies@));
        }
        out
    }
}

proof fn lemma_valid_entry(entries: Entries, i: int)
    requires
        is_valid(JsonView::Object(entries)),
        0 <= i < entries.len(),
    ensures
        is_valid(entries[i].1),
{
    assert(entries == JsonView::Object(entries)->Object_0);
}

/// Add the texts of a list to a set.
pub(crate) fn insert_all(set: &mut StrSet, list: &Vec<String>)
    ensures
        final(set)@ == old(set)@.union(list.deep_view().to_set()),
{
    let ghost set0 = set@;
    let ghost all = list.deep_view();
    let mut i: usize = 0;
    proof {
        assert(set0.union(all.take(0).to_set()) =~= set0);
    }
    while i < list.len()
        invariant
            all == list.deep_view(),
            i <= list@.len(),
            set@ == set0.union(all.take(i as int).to_set()),
        decreases list.len() - i,
    {
        set.insert(list[i].clone());
        proof {
            let k = all[i as int];
            let a = all.take(i as int);
            let b = all.take(i + 1);
            assert forall|x: Seq<char>| b.contains(x) <==> a.contains(x) || x == k by {
                if a.contains(x) {
                    let j = choose|j: int| 0 <= j < a.len() && a[j] == x;
                    assert(b[j] == x);
                }
                assert(b[i as int] == k);
                if b.contains(x) && x != k {
                    let j = choose|j: int| 0 <= j < b.len() && b[j] == x;
                    assert(a[j] == x);
                }
            }
            assert(set0.union(b.to_set()) =~= set0.union(a.to_set()).insert(k));
        }
        i = i + 1;
    }
    proof {
        assert(all.take(all.len() as int) =~= all);
    }
}

/// The members of a set in order.
pub(crate) fn sorted_list(set: &StrSet) -> (r: Vec<String>)
    ensures
        r.deep_view() == sorted_keys(set@),
{
    let mut r: Vec<String> = Vec::new();
    let n: usize = set.len();
    let mut i: usize = 0;
    let ghost keys = sorted_keys(set@);
    proof {
        assert(r.deep_view() =~= keys.take(0));
    }
    while i < n
        invariant
            keys == sorted_keys(set@),
            n == keys.len(),
            i <= n,
            r.deep_view() == keys.take(i as int),
        decreases n - i,
    {
        let ghost before = r.deep_view();
        let k = set.at(i).clone();
        r.push(k);
        proof {
            assert(r.deep_view() =~= before.push(k@));
            assert(keys.take(i + 1) =~= keys.take(i as int).push(k@));
        }
        i = i + 1;
    }
    proof {
        assert(keys.take(n as int) =~= keys);
    }
    r
}

} // verus!
