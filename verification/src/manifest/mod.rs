//! The `package.json` manifest and the settings that it carries.
use vstd::prelude::*;
use crate::json::{
    array, entry_trees, find_key, get, get_array, get_array_value, get_object, get_object_value,
    object, text, tree, trees, Entries, Json, JsonView,
};
use crate::strmap::{lookup, sorted_keys, Dup, StrMap};
use crate::text::same;

pub mod config_edit;
pub mod parse_error;
pub mod setting_edit;
pub mod settings;
pub mod workspace;
pub mod yaml_depth;
pub mod yaml_edit;
pub mod yaml_source;

verus! {

/// A `package.json` file.
#[derive(Debug)]
pub struct PackageJson {
    pub name: Option<String>,
    pub version: Option<String>,
    pub dependencies: StrMap<String>,
    pub dev_dependencies: StrMap<String>,
    pub peer_dependencies: StrMap<String>,
    pub optional_dependencies: StrMap<String>,
    pub update_config: Option<UpdateConfig>,
    pub bundled_dependencies: Option<BundledDependencies>,
    pub scripts: StrMap<String>,
    pub engines: StrMap<String>,
    pub workspaces: Option<Workspaces>,
    /// All other fields.
    pub extra: StrMap<Json>,
}

/// Settings of the `update` command.
#[derive(Debug, PartialEq)]
pub struct UpdateConfig {
    pub ignore_dependencies: Vec<String>,
}

/// The dependencies that are shipped inside a package.
#[derive(Debug, PartialEq)]
pub enum BundledDependencies {
    /// Those with the given names.
    List(Vec<String>),
    /// All of them, or none.
    All(bool),
}

/// The workspace that a manifest declares.
#[derive(Debug, PartialEq)]
pub enum Workspaces {
    String(String),
    Array(Vec<String>),
    Object {
        packages: Vec<String>,
        nohoist: Vec<String>,
        catalog: StrMap<String>,
        catalogs: StrMap<StrMap<String>>,
    },
}

/// The dependency ranges of a manifest.
pub struct Ranges {
    pub dependencies: Map<Seq<char>, Seq<char>>,
    pub dev_dependencies: Map<Seq<char>, Seq<char>>,
    pub optional_dependencies: Map<Seq<char>, Seq<char>>,
    pub peer_dependencies: Map<Seq<char>, Seq<char>>,
}

impl Default for PackageJson {
    fn default() -> (r: Self)
        ensures
            r.name is None,
            r.version is None,
            r.dependencies@ == Map::<Seq<char>, Seq<char>>::empty(),
            r.dev_dependencies@ == Map::<Seq<char>, Seq<char>>::empty(),
            r.peer_dependencies@ == Map::<Seq<char>, Seq<char>>::empty(),
            r.optional_dependencies@ == Map::<Seq<char>, Seq<char>>::empty(),
            r.update_config is None,
            r.bundled_dependencies is None,
            r.scripts@ == Map::<Seq<char>, Seq<char>>::empty(),
            r.engines@ == Map::<Seq<char>, Seq<char>>::empty(),
            r.workspaces is None,
            r.extra@ == Map::<Seq<char>, JsonView>::empty(),
    {
        PackageJson {
            name: None,
            version: None,
            dependencies: StrMap::new(),
            dev_dependencies: StrMap::new(),
            peer_dependencies: StrMap::new(),
            optional_dependencies: StrMap::new(),
            update_config: None,
            bundled_dependencies: None,
            scripts: StrMap::new(),
            engines: StrMap::new(),
            workspaces: None,
            extra: StrMap::new(),
        }
    }
}

/// `std::slice::from_ref` is a slice with one element.
pub assume_specification<T>[ std::slice::from_ref::<T> ](s: &T) -> (r: &[T])
    ensures
        r@ == seq![*s],
;

impl BundledDependencies {
    /// The names of the bundled dependencies.
    pub open spec fn bundled(&self, dependencies: Map<Seq<char>, Seq<char>>) -> Seq<Seq<char>> {
        match self {
            BundledDependencies::List(v) => v.deep_view(),
            BundledDependencies::All(all) => if *all {
                sorted_keys(dependencies.dom())
            } else {
                Seq::empty()
            },
        }
    }

    /// The names of the bundled dependencies: those that are listed, or all of
    /// `dependencies`, or none.
    pub fn names<'a>(&'a self, dependencies: &'a StrMap<String>) -> (r: Vec<&'a str>)
        ensures
            r.deep_view() == self.bundled(dependencies@),
    {
        let mut r: Vec<&'a str> = Vec::new();
        let ghost all = self.bundled(dependencies@);
        match self {
            BundledDependencies::List(v) => {
                let mut i: usize = 0;
                proof {
                    assert(r.deep_view() =~= all.take(0));
                }
                while i < v.len()
                    invariant
                        all == v.deep_view(),
                        i <= v@.len(),
                        r.deep_view() == all.take(i as int),
                    decreases v.len() - i,
                {
                    let ghost before = r.deep_view();
                    let s = v[i].as_str();
                    r.push(s);
                    proof {
                        assert(r.deep_view() =~= before.push(s@));
                        assert(all.take(i + 1) =~= all.take(i as int).push(all[i as int]));
                    }
                    i = i + 1;
                }
                proof {
                    assert(all.take(all.len() as int) =~= all);
                }
            },
            BundledDependencies::All(every) => {
                if *every {
                    let n: usize = dependencies.len();
                    let mut i: usize = 0;
                    proof {
                        assert(r.deep_view() =~= all.take(0));
                    }
                    while i < n
                        invariant
                            all == sorted_keys(dependencies@.dom()),
                            n == all.len(),
                            i <= n,
                            r.deep_view() == all.take(i as int),
                        decreases n - i,
                    {
                        let ghost before = r.deep_view();
                        let s = dependencies.key_at(i).as_str();
                        r.push(s);
                        proof {
                            assert(r.deep_view() =~= before.push(s@));
                            assert(all.take(i + 1) =~= all.take(i as int).push(all[i as int]));
                        }
                        i = i + 1;
                    }
                    proof {
                        assert(all.take(all.len() as int) =~= all);
                    }
                } else {
                    proof {
                        assert(r.deep_view() =~= Seq::<Seq<char>>::empty());
                    }
                }
            },
        }
        r
    }
}

impl Workspaces {
    /// The glob patterns of the workspace's packages.
    pub fn patterns(&self) -> (r: &[String])
        ensures
            r@ == (match self {
                Workspaces::String(s) => seq![*s],
                Workspaces::Array(v) => v@,
                Workspaces::Object { packages, .. } => packages@,
            }),
    {
        match self {
            Workspaces::String(s) => std::slice::from_ref(s),
            Workspaces::Array(v) => v.as_slice(),
            Workspaces::Object { packages, .. } => packages.as_slice(),
        }
    }

    /// The default catalog; only the object form has one.
    pub fn catalog(&self) -> (r: StrMap<String>)
        ensures
            r@ == (match self {
                Workspaces::Object { catalog, .. } => catalog@,
                _ => Map::empty(),
            }),
    {
        match self {
            Workspaces::Object { catalog, .. } => catalog.dup(),
            _ => StrMap::new(),
        }
    }

    /// The named catalogs; only the object form has them.
    pub fn catalogs(&self) -> (r: StrMap<StrMap<String>>)
        ensures
            r@ == (match self {
                Workspaces::Object { catalogs, .. } => catalogs@,
                _ => Map::empty(),
            }),
    {
        match self {
            Workspaces::Object { catalogs, .. } => catalogs.dup(),
            _ => StrMap::new(),
        }
    }
}

/// The entries of an object with string values; of two with one key the last
/// counts.
pub open spec fn string_map(entries: Entries, n: int) -> Map<Seq<char>, Seq<char>>
    decreases n,
{
    if n <= 0 {
        Map::empty()
    } else {
        match text(entries[n - 1].1) {
            Some(s) => string_map(entries, n - 1).insert(entries[n - 1].0, s),
            None => string_map(entries, n - 1),
        }
    }
}

/// The entries with string values of an object that may be missing.
pub open spec fn strings_of(entries: Option<Entries>) -> Map<Seq<char>, Seq<char>> {
    match entries {
        Some(e) => string_map(e, e.len() as int),
        None => Map::empty(),
    }
}

/// What a `dependencies`, `devDependencies` or similar field holds: the entries
/// of an object with string values. Any other value holds nothing.
pub open spec fn tolerant_map(value: Option<JsonView>) -> Map<Seq<char>, Seq<char>> {
    match value {
        Some(v) => strings_of(object(v)),
        None => Map::empty(),
    }
}

/// The kind of a value that `engines` cannot be.
pub open spec fn engines_mismatch(value: Option<JsonView>) -> Option<Seq<char>> {
    match value {
        Some(JsonView::Number(_)) => Some("number"@),
        Some(JsonView::Bool(_)) => Some("boolean"@),
        _ => None,
    }
}

/// Add the string entries of an object to a map.
pub(crate) fn insert_strings(out: &mut StrMap<String>, entries: &Vec<(String, Json)>)
    ensures
        final(out)@ == old(out)@.union_prefer_right(strings_of(Some(entry_trees(entries@)))),
{
    let ghost out0 = out@;
    let ghost all = entry_trees(entries@);
    let mut i: usize = 0;
    proof {
        assert(out0.union_prefer_right(string_map(all, 0)) =~= out0);
    }
    while i < entries.len()
        invariant
            all == entry_trees(entries@),
            i <= entries@.len(),
            out@ == out0.union_prefer_right(string_map(all, i as int)),
        decreases entries.len() - i,
    {
        proof {
            assert(all[i as int] == (entries@[i as int].0@, tree(entries@[i as int].1)));
        }
        if let Some(s) = entries[i].1.as_str() {
            out.insert(entries[i].0.clone(), s.clone());
            proof {
                assert(out@ =~= out0.union_prefer_right(string_map(all, i + 1)));
            }
        }
        i = i + 1;
    }
}

/// The entries of a dependency section. Values of another shape than an object
/// are tolerated, as are entries with another value than a string: they are
/// left out.
pub fn deps_tolerant(value: &Option<Json>) -> (r: StrMap<String>)
    ensures
        r@ == tolerant_map(value.deep_view()),
{
    let mut r: StrMap<String> = StrMap::new();
    if let Some(v) = value {
        if let Some(entries) = v.as_object() {
            insert_strings(&mut r, entries);
            proof {
                assert(r@ =~= strings_of(Some(entry_trees(entries@))));
            }
        }
    }
    r
}

/// The entries of `scripts`, with the same tolerance as dependency sections.
pub fn scripts_tolerant(value: &Option<Json>) -> (r: StrMap<String>)
    ensures
        r@ == tolerant_map(value.deep_view()),
{
    deps_tolerant(value)
}

/// The entries of `engines`. The array and string forms of old packages hold
/// nothing; a number or a boolean is an error, given by its message.
pub fn engines_tolerant(value: &Option<Json>) -> (r: Result<StrMap<String>, String>)
    ensures
        match r {
            Ok(m) => engines_mismatch(value.deep_view()) is None && m@ == tolerant_map(
                value.deep_view(),
            ),
            Err(e) => engines_mismatch(value.deep_view()) is Some && e@
                == "engines: expected a map, got "@ + engines_mismatch(value.deep_view())->0,
        },
{
    match value {
        Some(Json::Number(_)) => Err(crate::text::concat("engines: expected a map, got ", "number")),
        Some(Json::Bool(_)) => Err(crate::text::concat("engines: expected a map, got ", "boolean")),
        _ => Ok(deps_tolerant(value)),
    }
}

/// The object under a namespace; without entries where there is none.
pub open spec fn namespace(extra: Map<Seq<char>, JsonView>, ns: Seq<char>) -> Entries {
    match lookup(extra, ns) {
        Some(v) => match object(v) {
            Some(e) => e,
            None => Seq::empty(),
        },
        None => Seq::empty(),
    }
}

/// The list under a key; without items where there is none.
pub open spec fn items_of(entries: Entries, key: Seq<char>) -> Seq<JsonView> {
    match get_array(entries, key) {
        Some(items) => items,
        None => Seq::empty(),
    }
}

/// The object under a key; without entries where there is none.
pub open spec fn object_of(entries: Entries, key: Seq<char>) -> Entries {
    match get_object(entries, key) {
        Some(e) => e,
        None => Seq::empty(),
    }
}

/// A list with the strings among the first `n` items added that it does not
/// hold yet.
pub open spec fn with_new(list: Seq<Seq<char>>, items: Seq<JsonView>, n: int) -> Seq<Seq<char>>
    decreases n,
{
    if n <= 0 {
        list
    } else {
        let before = with_new(list, items, n - 1);
        match text(items[n - 1]) {
            Some(s) => if before.contains(s) {
                before
            } else {
                before.push(s)
            },
            None => before,
        }
    }
}

/// The distinct strings of two lists, in the order in which they first occur.
pub open spec fn distinct_strings(a: Seq<JsonView>, b: Seq<JsonView>) -> Seq<Seq<char>> {
    with_new(with_new(Seq::empty(), a, a.len() as int), b, b.len() as int)
}

/// A list setting: the strings under `pnpm`, then those under `aube`.
pub open spec fn list_setting(extra: Map<Seq<char>, JsonView>, key: Seq<char>) -> Seq<Seq<char>> {
    distinct_strings(
        items_of(namespace(extra, "pnpm"@), key),
        items_of(namespace(extra, "aube"@), key),
    )
}

/// A map setting with string values: the entries under `pnpm`, and those under
/// `aube`, which win.
pub open spec fn map_setting(extra: Map<Seq<char>, JsonView>, key: Seq<char>) -> Map<
    Seq<char>,
    Seq<char>,
> {
    strings_of(Some(object_of(namespace(extra, "pnpm"@), key))).union_prefer_right(
        strings_of(Some(object_of(namespace(extra, "aube"@), key))),
    )
}

/// Whether a list holds a text.
pub(crate) fn holds(list: &Vec<String>, s: &str) -> (r: bool)
    ensures
        r == list.deep_view().contains(s@),
{
    let mut i: usize = 0;
    while i < list.len()
        invariant
            i <= list@.len(),
            forall|j: int| 0 <= j < i ==> list@[j]@ != s@,
        decreases list.len() - i,
    {
        if same(list[i].as_str(), s) {
            proof {
                assert(list.deep_view()[i as int] == s@);
            }
            return true;
        }
        i = i + 1;
    }
    proof {
        if list.deep_view().contains(s@) {
            let j = choose|j: int| 0 <= j < list.deep_view().len() && list.deep_view()[j] == s@;
            assert(list@[j]@ == s@);
        }
    }
    false
}

/// Add the strings of an array that a list does not hold yet, in the order in
/// which they first occur.
fn push_unique_strs(dst: &mut Vec<String>, items: &Vec<Json>)
    ensures
        final(dst).deep_view() == with_new(
            old(dst).deep_view(),
            trees(items@),
            items@.len() as int,
        ),
{
    let ghost dst0 = dst.deep_view();
    let ghost all = trees(items@);
    let mut i: usize = 0;
    while i < items.len()
        invariant
            all == trees(items@),
            i <= items@.len(),
            dst.deep_view() == with_new(dst0, all, i as int),
        decreases items.len() - i,
    {
        proof {
            assert(all[i as int] == tree(items@[i as int]));
        }
        if let Some(s) = items[i].as_str() {
            if !holds(dst, s.as_str()) {
                let ghost before = dst.deep_view();
                let t = s.clone();
                dst.push(t);
                proof {
                    assert(dst.deep_view() =~= before.push(t@));
                }
            }
        }
        i = i + 1;
    }
}

impl PackageJson {
    /// The dependency ranges of the manifest.
    pub open spec fn ranges(&self) -> Ranges {
        Ranges {
            dependencies: self.dependencies@,
            dev_dependencies: self.dev_dependencies@,
            optional_dependencies: self.optional_dependencies@,
            peer_dependencies: self.peer_dependencies@,
        }
    }

    /// The object under a namespace.
    fn ns_object(&self, ns: &str) -> (r: Option<&Vec<(String, Json)>>)
        ensures
            match r {
                Some(e) => namespace(self.extra@, ns@) == entry_trees(e@),
                None => namespace(self.extra@, ns@) == Seq::<(Seq<char>, JsonView)>::empty(),
            },
    {
        match self.extra.get(ns) {
            Some(v) => v.as_object(),
            None => None,
        }
    }

    /// The list under a key of a namespace, or of an object in it.
    fn push_ns_list(&self, ns: &str, within: Option<&str>, key: &str, out: &mut Vec<String>)
        ensures
            final(out).deep_view() == ({
                let base = match within {
                    Some(w) => object_of(namespace(self.extra@, ns@), w@),
                    None => namespace(self.extra@, ns@),
                };
                let items = items_of(base, key@);
                with_new(old(out).deep_view(), items, items.len() as int)
            }),
    {
        let ghost empty = Seq::<(Seq<char>, JsonView)>::empty();
        proof {
            assert(find_key(empty, key@) is None);
        }
        if let Some(top) = self.ns_object(ns) {
            let base = match within {
                Some(w) => get_object_value(top, w),
                None => Some(top),
            };
            if let Some(entries) = base {
                if let Some(items) = get_array_value(entries, key) {
                    push_unique_strs(out, items);
                }
            }
        } else {
            proof {
                if let Some(w) = within {
                    assert(find_key(empty, w@) is None);
                }
            }
        }
    }

    /// A list setting.
    fn read_list(&self, within: Option<&str>, key: &str) -> (r: Vec<String>)
        ensures
            r.deep_view() == (match within {
                Some(w) => distinct_strings(
                    items_of(object_of(namespace(self.extra@, "pnpm"@), w@), key@),
                    items_of(object_of(namespace(self.extra@, "aube"@), w@), key@),
                ),
                None => list_setting(self.extra@, key@),
            }),
    {
        let mut out: Vec<String> = Vec::new();
        proof {
            assert(out.deep_view() =~= Seq::<Seq<char>>::empty());
        }
        self.push_ns_list("pnpm", within, key, &mut out);
        self.push_ns_list("aube", within, key, &mut out);
        out
    }

    /// Add the string entries of a map setting in one namespace.
    fn insert_ns_map(&self, ns: &str, within: Option<&str>, key: &str, out: &mut StrMap<String>)
        ensures
            final(out)@ == old(out)@.union_prefer_right(
                strings_of(
                    Some(
                        object_of(
                            match within {
                                Some(w) => object_of(namespace(self.extra@, ns@), w@),
                                None => namespace(self.extra@, ns@),
                            },
                            key@,
                        ),
                    ),
                ),
            ),
    {
        let ghost out0 = out@;
        let ghost empty = Seq::<(Seq<char>, JsonView)>::empty();
        proof {
            assert(find_key(empty, key@) is None);
            assert(out0.union_prefer_right(strings_of(Some(empty))) =~= out0);
        }
        if let Some(top) = self.ns_object(ns) {
            let base = match within {
                Some(w) => get_object_value(top, w),
                None => Some(top),
            };
            if let Some(entries) = base {
                if let Some(section) = get_object_value(entries, key) {
                    insert_strings(out, section);
                }
            }
        } else {
            proof {
                if let Some(w) = within {
                    assert(find_key(empty, w@) is None);
                }
            }
        }
    }

    /// A map setting with string values.
    fn read_map(&self, key: &str) -> (r: StrMap<String>)
        ensures
            r@ == map_setting(self.extra@, key@),
    {
        let mut out: StrMap<String> = StrMap::new();
        self.insert_ns_map("pnpm", None, key, &mut out);
        self.insert_ns_map("aube", None, key, &mut out);
        proof {
            let a = strings_of(Some(object_of(namespace(self.extra@, "pnpm"@), key@)));
            assert(Map::<Seq<char>, Seq<char>>::empty().union_prefer_right(a) =~= a);
        }
        out
    }

    /// The packages whose build scripts may run.
    pub fn pnpm_only_built_dependencies(&self) -> (r: Vec<String>)
        ensures
            r.deep_view() == list_setting(self.extra@, "onlyBuiltDependencies"@),
    {
        self.read_list(None, "onlyBuiltDependencies")
    }

    /// The packages whose build scripts never run.
    pub fn pnpm_never_built_dependencies(&self) -> (r: Vec<String>)
        ensures
            r.deep_view() == list_setting(self.extra@, "neverBuiltDependencies"@),
    {
        self.read_list(None, "neverBuiltDependencies")
    }

    /// The distinct strings of the top-level `trustedDependencies`.
    pub fn trusted_dependencies(&self) -> (r: Vec<String>)
        ensures
            r.deep_view() == (match lookup(self.extra@, "trustedDependencies"@) {
                Some(v) => match array(v) {
                    Some(items) => distinct_strings(items, Seq::empty()),
                    None => Seq::empty(),
                },
                None => Seq::empty(),
            }),
    {
        let mut out: Vec<String> = Vec::new();
        proof {
            assert(out.deep_view() =~= Seq::<Seq<char>>::empty());
        }
        if let Some(v) = self.extra.get("trustedDependencies") {
            if let Some(items) = v.as_array() {
                push_unique_strs(&mut out, items);
            }
        }
        out
    }

    /// The default catalog.
    pub fn pnpm_catalog(&self) -> (r: StrMap<String>)
        ensures
            r@ == map_setting(self.extra@, "catalog"@),
    {
        self.read_map("catalog")
    }

    /// The patch file of each patched package.
    pub fn pnpm_patched_dependencies(&self) -> (r: StrMap<String>)
        ensures
            r@ == map_setting(self.extra@, "patchedDependencies"@),
    {
        self.read_map("patchedDependencies")
    }

    /// The platforms that are supported besides the current one: operating
    /// systems, processors and C libraries.
    pub fn pnpm_supported_architectures(&self) -> (r: (Vec<String>, Vec<String>, Vec<String>))
        ensures
            r.0.deep_view() == architectures(self.extra@, "os"@),
            r.1.deep_view() == architectures(self.extra@, "cpu"@),
            r.2.deep_view() == architectures(self.extra@, "libc"@),
    {
        (
            self.read_list(Some("supportedArchitectures"), "os"),
            self.read_list(Some("supportedArchitectures"), "cpu"),
            self.read_list(Some("supportedArchitectures"), "libc"),
        )
    }

    /// The peers that may be missing, as glob patterns.
    pub fn pnpm_peer_dependency_rules_ignore_missing(&self) -> (r: Vec<String>)
        ensures
            r.deep_view() == peer_rule_list(self.extra@, "ignoreMissing"@),
    {
        self.read_list(Some("peerDependencyRules"), "ignoreMissing")
    }

    /// The peers that may have any version, as glob patterns.
    pub fn pnpm_peer_dependency_rules_allow_any(&self) -> (r: Vec<String>)
        ensures
            r.deep_view() == peer_rule_list(self.extra@, "allowAny"@),
    {
        self.read_list(Some("peerDependencyRules"), "allowAny")
    }

    /// Further ranges that peers may have.
    pub fn pnpm_peer_dependency_rules_allowed_versions(&self) -> (r: StrMap<String>)
        ensures
            r@ == strings_of(
                Some(
                    object_of(
                        object_of(namespace(self.extra@, "pnpm"@), "peerDependencyRules"@),
                        "allowedVersions"@,
                    ),
                ),
            ).union_prefer_right(
                strings_of(
                    Some(
                        object_of(
                            object_of(namespace(self.extra@, "aube"@), "peerDependencyRules"@),
                            "allowedVersions"@,
                        ),
                    ),
                ),
            ),
    {
        let mut out: StrMap<String> = StrMap::new();
        self.insert_ns_map("pnpm", Some("peerDependencyRules"), "allowedVersions", &mut out);
        proof {
            let a = strings_of(
                Some(
                    object_of(
                        object_of(namespace(self.extra@, "pnpm"@), "peerDependencyRules"@),
                        "allowedVersions"@,
                    ),
                ),
            );
            assert(Map::<Seq<char>, Seq<char>>::empty().union_prefer_right(a) =~= a);
        }
        self.insert_ns_map("aube", Some("peerDependencyRules"), "allowedVersions", &mut out);
        out
    }

    /// The range of a direct dependency.
    pub fn direct_dependency_range(&self, name: &str) -> (r: Option<&str>)
        ensures
            (match r {
                Some(s) => Some(s@),
                None => None,
            }) == direct_range(self.ranges(), name@),
    {
        if let Some(s) = self.dependencies.get(name) {
            return Some(s.as_str());
        }
        if let Some(s) = self.dev_dependencies.get(name) {
            return Some(s.as_str());
        }
        match self.optional_dependencies.get(name) {
            Some(s) => Some(s.as_str()),
            None => None,
        }
    }
}

/// The platforms of one axis that a manifest declares as supported.
pub open spec fn architectures(extra: Map<Seq<char>, JsonView>, axis: Seq<char>) -> Seq<
    Seq<char>,
> {
    distinct_strings(
        items_of(object_of(namespace(extra, "pnpm"@), "supportedArchitectures"@), axis),
        items_of(object_of(namespace(extra, "aube"@), "supportedArchitectures"@), axis),
    )
}

/// A list of the peer dependency rules.
pub open spec fn peer_rule_list(extra: Map<Seq<char>, JsonView>, field: Seq<char>) -> Seq<
    Seq<char>,
> {
    distinct_strings(
        items_of(object_of(namespace(extra, "pnpm"@), "peerDependencyRules"@), field),
        items_of(object_of(namespace(extra, "aube"@), "peerDependencyRules"@), field),
    )
}

/// The range of a direct dependency: production before development before
/// optional.
pub open spec fn direct_range(ranges: Ranges, name: Seq<char>) -> Option<Seq<char>> {
    if ranges.dependencies.dom().contains(name) {
        Some(ranges.dependencies[name])
    } else if ranges.dev_dependencies.dom().contains(name) {
        Some(ranges.dev_dependencies[name])
    } else {
        lookup(ranges.optional_dependencies, name)
    }
}

} // verus!
