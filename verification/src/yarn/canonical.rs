//! The packages of a graph without their peer contexts, as both `yarn.lock`
//! formats record them.
use vstd::prelude::*;
use crate::graph::{LockedPackage, LockedPackageView, LockfileGraph, LockfileGraphView};
use crate::manifest::{PackageJson, Ranges};
use crate::pnpm::dep_path::{dep_path, dep_path_tail, tail, version_to_dep_path};
use crate::strmap::{lookup, sorted_keys, Dup, StrMap, StrSet};
use crate::text::{chars, string, until, up_to};

verus! {

/// The packages under the given keys by `name@version`; of two peer contexts of
/// one package the first counts.
pub open spec fn canonical_among(
    packages: Map<Seq<char>, LockedPackageView>,
    keys: Seq<Seq<char>>,
) -> Map<Seq<char>, LockedPackageView>
    decreases keys.len(),
{
    if keys.len() == 0 {
        Map::empty()
    } else {
        let before = canonical_among(packages, keys.drop_last());
        let pkg = packages[keys.last()];
        let key = dep_path(pkg.name, pkg.version);
        if before.dom().contains(key) {
            before
        } else {
            before.insert(key, pkg)
        }
    }
}

/// The packages of a graph by `name@version`.
pub open spec fn canonical(graph: LockfileGraphView) -> Map<Seq<char>, LockedPackageView> {
    canonical_among(graph.packages, sorted_keys(graph.packages.dom()))
}

/// The version that a dependency value names: the value may be a dep path or a
/// version, with or without peer suffix.
pub open spec fn dep_version(name: Seq<char>, value: Seq<char>) -> Seq<char> {
    until(tail(value, name), '(')
}

/// The `name@version` that a dependency refers to.
pub open spec fn child_key(name: Seq<char>, value: Seq<char>) -> Seq<char> {
    dep_path(name, dep_version(name, value))
}

/// The keys of packages by the dep paths that they have in the graph.
pub open spec fn path_keys(
    packages: Map<Seq<char>, LockedPackageView>,
    keys: Seq<Seq<char>>,
) -> Map<Seq<char>, Seq<char>>
    decreases keys.len(),
{
    if keys.len() == 0 {
        Map::empty()
    } else {
        path_keys(packages, keys.drop_last()).insert(packages[keys.last()].dep_path, keys.last())
    }
}

/// The key of each package by its dep path.
pub open spec fn path_index(packages: Map<Seq<char>, LockedPackageView>) -> Map<
    Seq<char>,
    Seq<char>,
> {
    path_keys(packages, sorted_keys(packages.dom()))
}

/// The key of the package that a direct dependency leads to: the one with its dep
/// path, or else the one with its name and version.
pub open spec fn direct_key(
    packages: Map<Seq<char>, LockedPackageView>,
    path: Seq<char>,
) -> Option<Seq<char>> {
    match lookup(path_index(packages), path) {
        Some(key) => Some(key),
        None => if packages.dom().contains(until(path, '(')) {
            Some(until(path, '('))
        } else {
            None
        },
    }
}

/// The key of the package that a dependency leads to: the one with the dep path
/// that it names, or else the one with its name and version.
pub open spec fn edge_key(
    packages: Map<Seq<char>, LockedPackageView>,
    name: Seq<char>,
    value: Seq<char>,
) -> Option<Seq<char>> {
    match lookup(path_index(packages), value) {
        Some(key) => Some(key),
        None => if packages.dom().contains(child_key(name, value)) {
            Some(child_key(name, value))
        } else {
            None
        },
    }
}

/// The range of a dependency in a manifest, in whichever section it stands.
pub open spec fn manifest_range(ranges: Ranges, name: Seq<char>) -> Option<Seq<char>> {
    if ranges.dependencies.dom().contains(name) {
        Some(ranges.dependencies[name])
    } else if ranges.dev_dependencies.dom().contains(name) {
        Some(ranges.dev_dependencies[name])
    } else if ranges.optional_dependencies.dom().contains(name) {
        Some(ranges.optional_dependencies[name])
    } else {
        lookup(ranges.peer_dependencies, name)
    }
}

/// The texts that stand behind a key in a list of pairs.
pub open spec fn listed_for(pairs: Seq<(Seq<char>, Seq<char>)>, key: Seq<char>) -> Set<Seq<char>> {
    Set::new(|s: Seq<char>| pairs.contains((key, s)))
}

/// The texts behind each key of a list of pairs.
pub open spec fn grouped(pairs: Seq<(Seq<char>, Seq<char>)>) -> Map<Seq<char>, Set<Seq<char>>> {
    Map::new(
        |k: Seq<char>| exists|s: Seq<char>| pairs.contains((k, s)),
        |k: Seq<char>| listed_for(pairs, k),
    )
}

/// The packages of a graph by `name@version`.
pub fn build_canonical_map(graph: &LockfileGraph) -> (r: StrMap<LockedPackage>)
    ensures
        r@ == canonical(graph.deep_view()),
{
    let mut r: StrMap<LockedPackage> = StrMap::new();
    let n: usize = graph.packages.len();
    let mut i: usize = 0;
    let ghost keys = sorted_keys(graph.packages@.dom());
    while i < n
        invariant
            keys == sorted_keys(graph.packages@.dom()),
            n == keys.len(),
            i <= n,
            r@ == canonical_among(graph.packages@, keys.take(i as int)),
        decreases n - i,
    {
        let pkg = graph.packages.value_at(i);
        proof {
            assert(keys.take(i + 1).drop_last() == keys.take(i as int));
            assert(keys.take(i + 1).last() == keys[i as int]);
        }
        let key = version_to_dep_path(pkg.name.as_str(), pkg.version.as_str());
        if !r.contains_key(key.as_str()) {
            r.insert(key, pkg.dup());
        }
        i = i + 1;
    }
    proof {
        assert(keys.take(n as int) == keys);
    }
    r
}

/// A dep path without its peer suffix.
pub fn canonical_key_from_dep_path(path: &str) -> (r: String)
    ensures
        r@ == until(path@, '('),
{
    string(up_to(&chars(path), '('))
}

/// The version that a dependency value names.
pub fn dep_value_as_version(name: &str, value: &str) -> (r: String)
    ensures
        r@ == dep_version(name@, value@),
{
    string(up_to(&chars(dep_path_tail(value, name).as_str()), '('))
}

/// The `name@version` that a dependency refers to.
pub fn child_canonical_key(name: &str, value: &str) -> (r: String)
    ensures
        r@ == child_key(name@, value@),
{
    version_to_dep_path(name, dep_value_as_version(name, value).as_str())
}

/// The range of a dependency in a manifest.
pub(crate) fn find_manifest_range<'a>(manifest: &'a PackageJson, name: &str) -> (r: Option<
    &'a String,
>)
    ensures
        (match r {
            Some(s) => Some(s@),
            None => None,
        }) == manifest_range(manifest.ranges(), name@),
{
    if let Some(s) = manifest.dependencies.get(name) {
        return Some(s);
    }
    if let Some(s) = manifest.dev_dependencies.get(name) {
        return Some(s);
    }
    if let Some(s) = manifest.optional_dependencies.get(name) {
        return Some(s);
    }
    manifest.peer_dependencies.get(name)
}

/// Add a text behind a key.
pub(crate) fn insert_pair(
    m: &mut StrMap<StrSet>,
    key: String,
    text: String,
    Ghost(pairs): Ghost<Seq<(Seq<char>, Seq<char>)>>,
)
    requires
        old(m)@ == grouped(pairs),
    ensures
        final(m)@ == grouped(pairs.push((key@, text@))),
{
    let ghost after = pairs.push((key@, text@));
    proof {
        assert forall|k: Seq<char>, s: Seq<char>|
            after.contains((k, s)) <==> pairs.contains((k, s)) || (k, s) == (key@, text@) by {
            if pairs.contains((k, s)) {
                let i = choose|i: int| 0 <= i < pairs.len() && pairs[i] == (k, s);
                assert(after[i] == (k, s));
            }
            assert(after[pairs.len() as int] == (key@, text@));
        }
        assert(listed_for(after, key@) =~= listed_for(pairs, key@).insert(text@));
        assert(after.contains((key@, text@)));
    }
    let mut set = match m.remove(key.as_str()) {
        Some(s) => s,
        None => {
            let s = StrSet::new();
            proof {
                assert forall|t: Seq<char>| !pairs.contains((key@, t)) by {
                    if pairs.contains((key@, t)) {
                        assert(grouped(pairs).dom().contains(key@));
                    }
                }
                assert(s@ =~= listed_for(pairs, key@));
            }
            s
        },
    };
    set.insert(text);
    m.insert(key, set);
    proof {
        assert forall|k: Seq<char>| k != key@ implies listed_for(after, k) =~= listed_for(pairs, k) by {
        }
        assert forall|k: Seq<char>|
            grouped(after).dom().contains(k) <==> grouped(pairs).dom().contains(k) || k == key@ by {
            if grouped(pairs).dom().contains(k) {
                let s = choose|s: Seq<char>| pairs.contains((k, s));
                assert(after.contains((k, s)));
            }
            if grouped(after).dom().contains(k) && k != key@ {
                let s = choose|s: Seq<char>| after.contains((k, s));
                assert(pairs.contains((k, s)));
            }
        }
        assert(m@ =~= grouped(after));
    }
}

proof fn lemma_path_keys(packages: Map<Seq<char>, LockedPackageView>, keys: Seq<Seq<char>>)
    requires
        forall|i: int| 0 <= i < keys.len() ==> packages.dom().contains(#[trigger] keys[i]),
    ensures
        forall|v: Seq<char>| #[trigger]
            path_keys(packages, keys).dom().contains(v) ==> packages.dom().contains(
                path_keys(packages, keys)[v],
            ),
    decreases keys.len(),
{
    if keys.len() > 0 {
        let front = keys.drop_last();
        assert forall|i: int| 0 <= i < front.len() implies packages.dom().contains(
            #[trigger] front[i],
        ) by {
            assert(front[i] == keys[i]);
        }
        lemma_path_keys(packages, front);
        let last = keys[keys.len() - 1];
        let was = path_keys(packages, front);
        let now = path_keys(packages, keys);
        assert(now == was.insert(packages[last].dep_path, last));
        assert forall|v: Seq<char>| #[trigger] now.dom().contains(v) implies packages.dom().contains(
            now[v],
        ) by {
            if v != packages[last].dep_path {
                assert(was.dom().contains(v));
            }
        }
    }
}

/// The key of each package by its dep path.
pub(crate) fn build_path_index(packages: &StrMap<LockedPackage>) -> (r: StrMap<String>)
    ensures
        r@ == path_index(packages@),
        is_index(r@, packages@),
{
    let mut r: StrMap<String> = StrMap::new();
    let ghost keys = sorted_keys(packages@.dom());
    let n: usize = packages.len();
    let mut i: usize = 0;
    while i < n
        invariant
            keys == sorted_keys(packages@.dom()),
            n == keys.len(),
            i <= n,
            r@ == path_keys(packages@, keys.take(i as int)),
            forall|j: int| 0 <= j < i ==> packages@.dom().contains(#[trigger] keys[j]),
        decreases n - i,
    {
        let key = packages.key_at(i);
        let pkg = packages.value_at(i);
        proof {
            assert(keys.take(i + 1).drop_last() == keys.take(i as int));
            assert(keys.take(i + 1).last() == key@);
        }
        r.insert(pkg.dep_path.clone(), key.clone());
        i = i + 1;
    }
    proof {
        assert(keys.take(n as int) == keys);
        lemma_path_keys(packages@, keys);
    }
    r
}

/// Whether a map leads to keys of packages, by their dep paths.
pub open spec fn is_index(
    index: Map<Seq<char>, Seq<char>>,
    packages: Map<Seq<char>, LockedPackageView>,
) -> bool {
    index == path_index(packages) && forall|v: Seq<char>| #[trigger]
        index.dom().contains(v) ==> packages.dom().contains(index[v])
}

/// The package with a dep path, or else under a key, and its own key.
pub(crate) fn find_target<'a>(
    packages: &'a StrMap<LockedPackage>,
    index: &StrMap<String>,
    path: &str,
    other: String,
) -> (r: Option<(String, &'a LockedPackage)>)
    requires
        is_index(index@, packages@),
    ensures
        match r {
            Some((key, pkg)) => packages@.dom().contains(key@) && pkg.deep_view() == packages@[key@]
                && key@ == (match lookup(index@, path@) {
                Some(k) => k,
                None => other@,
            }),
            None => lookup(index@, path@) is None && !packages@.dom().contains(other@),
        },
{
    let key = match index.get(path) {
        Some(k) => k.clone(),
        None => other,
    };
    match packages.get(key.as_str()) {
        Some(pkg) => Some((key, pkg)),
        None => None,
    }
}

} // verus!
