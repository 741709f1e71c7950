//! Writing a graph as a classic `yarn.lock`.
use vstd::prelude::*;
use crate::graph::{
    DirectDep, DirectDepView, LockedPackage, LockedPackageView, LockfileGraph, LockfileGraphView,
};
use crate::manifest::{PackageJson, Ranges};
use crate::pnpm::dep_path::{dep_path, version_to_dep_path};
use crate::strmap::{lookup, sorted_keys, StrMap, StrSet};
use crate::text::same;
use crate::yarn::canonical::{
    build_canonical_map, build_path_index, canonical, canonical_key_from_dep_path,
    child_canonical_key, dep_value_as_version, dep_version, direct_key, edge_key,
    find_manifest_range, find_target, grouped, insert_pair, is_index, manifest_range,
};

verus! {

/// A package and a specifier that resolves to it.
pub type Pair = (Seq<char>, Seq<char>);

/// The ranges in the manifest of the direct dependencies.
pub open spec fn root_pairs(
    packages: Map<Seq<char>, LockedPackageView>,
    ranges: Ranges,
    deps: Seq<DirectDepView>,
) -> Seq<Pair>
    decreases deps.len(),
{
    if deps.len() == 0 {
        Seq::empty()
    } else {
        let before = root_pairs(packages, ranges, deps.drop_last());
        let dep = deps.last();
        match (direct_key(packages, dep.dep_path), manifest_range(ranges, dep.name)) {
            (Some(key), Some(range)) => if dep_path(dep.name, range) != key {
                before.push((key, dep_path(dep.name, range)))
            } else {
                before
            },
            _ => before,
        }
    }
}

/// The ranges that a package declares for the dependencies with the given
/// names.
pub open spec fn declared_pairs(
    packages: Map<Seq<char>, LockedPackageView>,
    pkg: LockedPackageView,
    names: Seq<Seq<char>>,
) -> Seq<Pair>
    decreases names.len(),
{
    if names.len() == 0 {
        Seq::empty()
    } else {
        let before = declared_pairs(packages, pkg, names.drop_last());
        let name = names.last();
        let spec = dep_path(name, pkg.declared_dependencies[name]);
        match lookup(pkg.dependencies, name) {
            Some(value) => match edge_key(packages, name, value) {
                Some(key) => if spec != key {
                    before.push((key, spec))
                } else {
                    before
                },
                None => before,
            },
            None => before,
        }
    }
}

/// The ranges that the packages under the given keys declare.
pub open spec fn all_declared_pairs(
    packages: Map<Seq<char>, LockedPackageView>,
    keys: Seq<Seq<char>>,
) -> Seq<Pair>
    decreases keys.len(),
{
    if keys.len() == 0 {
        Seq::empty()
    } else {
        let pkg = packages[keys.last()];
        all_declared_pairs(packages, keys.drop_last()) + declared_pairs(
            packages,
            pkg,
            sorted_keys(pkg.declared_dependencies.dom()),
        )
    }
}

/// The direct dependencies of the workspace root.
pub open spec fn root_importer(graph: LockfileGraphView) -> Seq<DirectDepView> {
    match lookup(graph.importers, "."@) {
        Some(deps) => deps,
        None => Seq::empty(),
    }
}

/// The specifiers besides `name@version` that resolve to each package.
pub open spec fn extra_specs(graph: LockfileGraphView, ranges: Ranges) -> Map<
    Seq<char>,
    Set<Seq<char>>,
> {
    let packages = canonical(graph);
    grouped(
        root_pairs(packages, ranges, root_importer(graph)) + all_declared_pairs(
            packages,
            sorted_keys(packages.dom()),
        ),
    )
}

/// Specifiers in quotes, each behind a comma.
pub open spec fn quoted_specs(specs: Seq<Seq<char>>) -> Seq<char>
    decreases specs.len(),
{
    if specs.len() == 0 {
        Seq::empty()
    } else {
        quoted_specs(specs.drop_last()) + ", \""@ + specs.last() + "\""@
    }
}

/// The header of a block: `name@version` and the other specifiers.
pub open spec fn header_text(key: Seq<char>, extras: Map<Seq<char>, Set<Seq<char>>>) -> Seq<char> {
    "\""@ + key + "\""@ + (match lookup(extras, key) {
        Some(specs) => quoted_specs(sorted_keys(specs)),
        None => Seq::empty(),
    }) + ":\n"@
}

/// The range of a dependency: as declared, or else its version.
pub open spec fn rendered_range(pkg: LockedPackageView, name: Seq<char>) -> Seq<char> {
    match lookup(pkg.declared_dependencies, name) {
        Some(range) => range,
        None => dep_version(name, pkg.dependencies[name]),
    }
}

/// The lines of the dependencies with the given names that are in the graph.
pub open spec fn dep_lines(
    packages: Map<Seq<char>, LockedPackageView>,
    pkg: LockedPackageView,
    names: Seq<Seq<char>>,
) -> Seq<char>
    decreases names.len(),
{
    if names.len() == 0 {
        Seq::empty()
    } else {
        let before = dep_lines(packages, pkg, names.drop_last());
        let name = names.last();
        if edge_key(packages, name, pkg.dependencies[name]) is Some {
            before + "    "@ + name + " \""@ + rendered_range(pkg, name) + "\"\n"@
        } else {
            before
        }
    }
}

/// The `dependencies:` section of a block.
pub open spec fn deps_text(
    packages: Map<Seq<char>, LockedPackageView>,
    pkg: LockedPackageView,
) -> Seq<char> {
    let body = dep_lines(packages, pkg, sorted_keys(pkg.dependencies.dom()));
    if body.len() == 0 {
        Seq::empty()
    } else {
        "  dependencies:\n"@ + body
    }
}

/// One block.
pub open spec fn block_text(
    packages: Map<Seq<char>, LockedPackageView>,
    extras: Map<Seq<char>, Set<Seq<char>>>,
    key: Seq<char>,
) -> Seq<char> {
    let pkg = packages[key];
    header_text(key, extras) + "  version \""@ + pkg.version + "\"\n"@ + (match pkg.integrity {
        Some(i) => "  integrity "@ + i + "\n"@,
        None => Seq::empty(),
    }) + deps_text(packages, pkg) + "\n"@
}

/// The blocks of the packages under the given keys.
pub open spec fn blocks_text(
    packages: Map<Seq<char>, LockedPackageView>,
    extras: Map<Seq<char>, Set<Seq<char>>>,
    keys: Seq<Seq<char>>,
) -> Seq<char>
    decreases keys.len(),
{
    if keys.len() == 0 {
        Seq::empty()
    } else {
        blocks_text(packages, extras, keys.drop_last()) + block_text(packages, extras, keys.last())
    }
}

/// The comment at the head of the file.
pub open spec fn banner() -> Seq<char> {
    "# THIS IS AN AUTOGENERATED FILE. DO NOT EDIT THIS FILE DIRECTLY.\n"@
        + "# yarn lockfile v1\n\n\n"@
}

/// The classic lockfile of a graph.
pub open spec fn classic_text(graph: LockfileGraphView, ranges: Ranges) -> Seq<char> {
    let packages = canonical(graph);
    banner() + blocks_text(packages, extra_specs(graph, ranges), sorted_keys(packages.dom()))
}

fn collect_root_pairs(
    packages: &StrMap<LockedPackage>,
    index: &StrMap<String>,
    manifest: &PackageJson,
    deps: &Vec<DirectDep>,
    extras: &mut StrMap<StrSet>,
)
    requires
        is_index(index@, packages@),
        old(extras)@ == grouped(Seq::<Pair>::empty()),
    ensures
        final(extras)@ == grouped(
            root_pairs(packages@, manifest.ranges(), deps.deep_view()),
        ),
{
    let ghost all = deps.deep_view();
    let ghost ranges = manifest.ranges();
    let mut i: usize = 0;
    while i < deps.len()
        invariant
            is_index(index@, packages@),
            all == deps.deep_view(),
            ranges == manifest.ranges(),
            i <= deps@.len(),
            extras@ == grouped(root_pairs(packages@, ranges, all.take(i as int))),
        decreases deps.len() - i,
    {
        let dep = &deps[i];
        proof {
            assert(all[i as int] == dep.deep_view());
            assert(all.take(i + 1).drop_last() == all.take(i as int));
            assert(all.take(i + 1).last() == dep.deep_view());
        }
        let path = dep.dep_path.as_str();
        let other = canonical_key_from_dep_path(path);
        if let Some((key, _)) = find_target(packages, index, path, other) {
            if let Some(range) = find_manifest_range(manifest, dep.name.as_str()) {
                let spec = version_to_dep_path(dep.name.as_str(), range.as_str());
                if !same(spec.as_str(), key.as_str()) {
                    insert_pair(
                        extras,
                        key,
                        spec,
                        Ghost(root_pairs(packages@, ranges, all.take(i as int))),
                    );
                }
            }
        }
        i = i + 1;
    }
    proof {
        assert(all.take(all.len() as int) == all);
    }
}

fn collect_declared_pairs(
    packages: &StrMap<LockedPackage>,
    index: &StrMap<String>,
    pkg: &LockedPackage,
    extras: &mut StrMap<StrSet>,
    Ghost(pairs): Ghost<Seq<Pair>>,
)
    requires
        is_index(index@, packages@),
        old(extras)@ == grouped(pairs),
    ensures
        final(extras)@ == grouped(
            pairs + declared_pairs(
                packages@,
                pkg.deep_view(),
                sorted_keys(pkg.declared_dependencies@.dom()),
            ),
        ),
{
    let ghost p = pkg.deep_view();
    let ghost names = sorted_keys(pkg.declared_dependencies@.dom());
    let n: usize = pkg.declared_dependencies.len();
    let mut i: usize = 0;
    proof {
        assert(pairs + declared_pairs(packages@, p, names.take(0)) == pairs);
    }
    while i < n
        invariant
            is_index(index@, packages@),
            p == pkg.deep_view(),
            names == sorted_keys(pkg.declared_dependencies@.dom()),
            n == names.len(),
            i <= n,
            extras@ == grouped(pairs + declared_pairs(packages@, p, names.take(i as int))),
        decreases n - i,
    {
        let name = pkg.declared_dependencies.key_at(i);
        let range = pkg.declared_dependencies.value_at(i);
        let ghost before = pairs + declared_pairs(packages@, p, names.take(i as int));
        proof {
            assert(names.take(i + 1).drop_last() == names.take(i as int));
            assert(names.take(i + 1).last() == name@);
        }
        if let Some(value) = pkg.dependencies.get(name.as_str()) {
            let other = child_canonical_key(name.as_str(), value.as_str());
            if let Some((target, _)) = find_target(packages, index, value.as_str(), other) {
                let spec = version_to_dep_path(name.as_str(), range.as_str());
                if !same(spec.as_str(), target.as_str()) {
                    proof {
                        assert(before.push((target@, spec@)) =~= pairs + declared_pairs(
                            packages@,
                            p,
                            names.take(i + 1),
                        ));
                    }
                    insert_pair(extras, target, spec, Ghost(before));
                }
            }
        }
        i = i + 1;
    }
    proof {
        assert(names.take(n as int) == names);
    }
}

fn collect_all_declared_pairs(
    packages: &StrMap<LockedPackage>,
    index: &StrMap<String>,
    extras: &mut StrMap<StrSet>,
    Ghost(pairs): Ghost<Seq<Pair>>,
)
    requires
        is_index(index@, packages@),
        old(extras)@ == grouped(pairs),
    ensures
        final(extras)@ == grouped(
            pairs + all_declared_pairs(packages@, sorted_keys(packages@.dom())),
        ),
{
    let ghost keys = sorted_keys(packages@.dom());
    let n: usize = packages.len();
    let mut i: usize = 0;
    proof {
        assert(pairs + all_declared_pairs(packages@, keys.take(0)) == pairs);
    }
    while i < n
        invariant
            is_index(index@, packages@),
            keys == sorted_keys(packages@.dom()),
            n == keys.len(),
            i <= n,
            extras@ == grouped(pairs + all_declared_pairs(packages@, keys.take(i as int))),
        decreases n - i,
    {
        let pkg = packages.value_at(i);
        let ghost before = pairs + all_declared_pairs(packages@, keys.take(i as int));
        proof {
            assert(keys.take(i + 1).drop_last() == keys.take(i as int));
            assert(keys.take(i + 1).last() == keys[i as int]);
        }
        collect_declared_pairs(packages, index, pkg, extras, Ghost(before));
        proof {
            assert(before + declared_pairs(
                packages@,
                pkg.deep_view(),
                sorted_keys(pkg.declared_dependencies@.dom()),
            ) =~= pairs + all_declared_pairs(packages@, keys.take(i + 1)));
        }
        i = i + 1;
    }
    proof {
        assert(keys.take(n as int) == keys);
    }
}

fn push_header(out: &mut String, key: &str, extras: &StrMap<StrSet>)
    ensures
        final(out)@ == old(out)@ + header_text(key@, extras@),
{
    let ghost out0 = out@;
    out.append("\"");
    out.append(key);
    out.append("\"");
    let ghost start = out@;
    if let Some(specs) = extras.get(key) {
        let ghost keys = sorted_keys(specs@);
        let n: usize = specs.len();
        let mut i: usize = 0;
        proof {
            assert(start + quoted_specs(keys.take(0)) == start);
        }
        while i < n
            invariant
                keys == sorted_keys(specs@),
                n == keys.len(),
                i <= n,
                out@ == start + quoted_specs(keys.take(i as int)),
            decreases n - i,
        {
            let spec = specs.at(i);
            out.append(", \"");
            out.append(spec.as_str());
            out.append("\"");
            proof {
                assert(keys.take(i + 1).drop_last() == keys.take(i as int));
                assert(out@ =~= start + quoted_specs(keys.take(i + 1)));
            }
            i = i + 1;
        }
        proof {
            assert(keys.take(n as int) == keys);
        }
    } else {
        proof {
            assert(start + Seq::<char>::empty() == start);
        }
    }
    out.append(":\n");
    proof {
        assert(out@ =~= out0 + header_text(key@, extras@));
    }
}

fn push_deps(
    out: &mut String,
    packages: &StrMap<LockedPackage>,
    index: &StrMap<String>,
    pkg: &LockedPackage,
)
    requires
        is_index(index@, packages@),
    ensures
        final(out)@ == old(out)@ + deps_text(packages@, pkg.deep_view()),
{
    let ghost out0 = out@;
    let ghost p = pkg.deep_view();
    let ghost names = sorted_keys(pkg.dependencies@.dom());
    let n: usize = pkg.dependencies.len();
    let mut body: String = String::new();
    let mut i: usize = 0;
    while i < n
        invariant
            is_index(index@, packages@),
            p == pkg.deep_view(),
            names == sorted_keys(pkg.dependencies@.dom()),
            n == names.len(),
            i <= n,
            body@ == dep_lines(packages@, p, names.take(i as int)),
        decreases n - i,
    {
        let name = pkg.dependencies.key_at(i);
        let value = pkg.dependencies.value_at(i);
        proof {
            assert(names.take(i + 1).drop_last() == names.take(i as int));
            assert(names.take(i + 1).last() == name@);
        }
        let other = child_canonical_key(name.as_str(), value.as_str());
        if find_target(packages, index, value.as_str(), other).is_some() {
            body.append("    ");
            body.append(name.as_str());
            body.append(" \"");
            match pkg.declared_dependencies.get(name.as_str()) {
                Some(range) => body.append(range.as_str()),
                None => body.append(dep_value_as_version(name.as_str(), value.as_str()).as_str()),
            }
            body.append("\"\n");
        }
        i = i + 1;
    }
    proof {
        assert(names.take(n as int) == names);
    }
    if !body.as_str().is_empty() {
        out.append("  dependencies:\n");
        out.append(body.as_str());
        proof {
            assert(out@ =~= out0 + ("  dependencies:\n"@ + body@));
        }
    } else {
        proof {
            assert(out0 + Seq::<char>::empty() == out0);
        }
    }
}

fn push_block(
    out: &mut String,
    packages: &StrMap<LockedPackage>,
    index: &StrMap<String>,
    extras: &StrMap<StrSet>,
    key: &str,
    pkg: &LockedPackage,
)
    requires
        is_index(index@, packages@),
        packages@[key@] == pkg.deep_view(),
    ensures
        final(out)@ == old(out)@ + block_text(packages@, extras@, key@),
{
    let ghost out0 = out@;
    push_header(out, key, extras);
    out.append("  version \"");
    out.append(pkg.version.as_str());
    out.append("\"\n");
    let ghost head = header_text(key@, extras@) + "  version \""@ + pkg.version@ + "\"\n"@;
    proof {
        assert(out@ =~= out0 + head);
    }
    let ghost integrity = match pkg.deep_view().integrity {
        Some(i) => "  integrity "@ + i + "\n"@,
        None => Seq::<char>::empty(),
    };
    if let Some(i) = &pkg.integrity {
        out.append("  integrity ");
        out.append(i.as_str());
        out.append("\n");
    }
    proof {
        assert(out@ =~= out0 + (head + integrity));
    }
    push_deps(out, packages, index, pkg);
    out.append("\n");
    proof {
        assert(out@ =~= out0 + (head + integrity + deps_text(packages@, pkg.deep_view()) + "\n"@));
    }
}

/// The classic lockfile of a graph. The manifest is that of the workspace
/// root, whose ranges go into the block headers.
pub fn write_classic(graph: &LockfileGraph, manifest: &PackageJson) -> (r: String)
    ensures
        r@ == classic_text(graph.deep_view(), manifest.ranges()),
{
    let ghost g = graph.deep_view();
    let packages = build_canonical_map(graph);
    let index = build_path_index(&packages);
    let mut extras: StrMap<StrSet> = StrMap::new();
    proof {
        assert(extras@ =~= grouped(Seq::<Pair>::empty()));
    }
    let ghost roots = root_pairs(packages@, manifest.ranges(), root_importer(g));
    if let Some(deps) = graph.importers.get(".") {
        collect_root_pairs(&packages, &index, manifest, deps, &mut extras);
    }
    proof {
        assert(extras@ == grouped(roots));
    }
    collect_all_declared_pairs(&packages, &index, &mut extras, Ghost(roots));
    let mut out = "# THIS IS AN AUTOGENERATED FILE. DO NOT EDIT THIS FILE DIRECTLY.\n".to_owned();
    out.append("# yarn lockfile v1\n\n\n");
    let ghost keys = sorted_keys(packages@.dom());
    let n: usize = packages.len();
    let mut i: usize = 0;
    proof {
        assert(out@ =~= banner() + blocks_text(packages@, extras@, keys.take(0)));
    }
    while i < n
        invariant
            is_index(index@, packages@),
            keys == sorted_keys(packages@.dom()),
            n == keys.len(),
            i <= n,
            out@ == banner() + blocks_text(packages@, extras@, keys.take(i as int)),
        decreases n - i,
    {
        let key = packages.key_at(i);
        let pkg = packages.value_at(i);
        push_block(&mut out, &packages, &index, &extras, key.as_str(), pkg);
        proof {
            assert(keys.take(i + 1).drop_last() == keys.take(i as int));
            assert(out@ =~= banner() + blocks_text(packages@, extras@, keys.take(i + 1)));
        }
        i = i + 1;
    }
    proof {
        assert(keys.take(n as int) == keys);
    }
    out
}

} // verus!
