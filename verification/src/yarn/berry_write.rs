//! Writing a graph as a berry `yarn.lock`.
use vstd::prelude::*;
use crate::graph::{
    DirectDep, DirectDepView, LockedPackage, LockedPackageView, LockfileGraph, LockfileGraphView,
    PeerDepMeta, PeerDepMetaView,
};
use crate::manifest::{PackageJson, Ranges};
use crate::source::{LocalSource, LocalSourceView};
use crate::strmap::{lookup, sorted_keys, StrMap, StrSet};
use crate::text::{chars, concat3, find_char, join, lemma_concat_assoc, position, same};
use crate::yarn::berry::{has_protocol, range_has_protocol};
use crate::yarn::canonical::{
    build_canonical_map, build_path_index, canonical, canonical_key_from_dep_path,
    child_canonical_key, dep_value_as_version, dep_version, direct_key, edge_key,
    find_manifest_range, find_target, grouped, insert_pair, is_index, manifest_range,
};
use crate::yarn::classic_write::{root_importer, Pair};

verus! {

/// A text with backslashes and double quotes escaped.
pub open spec fn escaped(s: Seq<char>) -> Seq<char>
    decreases s.len(),
{
    if s.len() == 0 {
        Seq::empty()
    } else if s.last() == '\\' || s.last() == '"' {
        escaped(s.drop_last()).push('\\').push(s.last())
    } else {
        escaped(s.drop_last()).push(s.last())
    }
}

/// A text as a double-quoted scalar.
pub open spec fn quoted(s: Seq<char>) -> Seq<char> {
    "\""@ + escaped(s) + "\""@
}

/// The specifier of a dependency with a range; a range without protocol is an
/// `npm:` range.
pub open spec fn ranged_spec(name: Seq<char>, range: Seq<char>) -> Seq<char> {
    if has_protocol(range) {
        name + "@"@ + range
    } else {
        name + "@npm:"@ + range
    }
}

/// The specifier that names exactly one package.
pub open spec fn exact_spec(pkg: LockedPackageView) -> Seq<char> {
    match pkg.local_source {
        None => pkg.name + "@npm:"@ + pkg.version,
        Some(source) => pkg.name + "@"@ + source.specifier(),
    }
}

/// A specifier of a package, where it is not the exact one.
pub open spec fn spec_pair(
    packages: Map<Seq<char>, LockedPackageView>,
    key: Seq<char>,
    spec: Seq<char>,
) -> Seq<Pair> {
    if spec != exact_spec(packages[key]) {
        seq![(key, spec)]
    } else {
        Seq::empty()
    }
}

/// The ranges in the manifest of the direct dependencies.
pub open spec fn berry_root_pairs(
    packages: Map<Seq<char>, LockedPackageView>,
    ranges: Ranges,
    deps: Seq<DirectDepView>,
) -> Seq<Pair>
    decreases deps.len(),
{
    if deps.len() == 0 {
        Seq::empty()
    } else {
        let before = berry_root_pairs(packages, ranges, deps.drop_last());
        let dep = deps.last();
        match (direct_key(packages, dep.dep_path), manifest_range(ranges, dep.name)) {
            (Some(key), Some(range)) => before + spec_pair(
                packages,
                key,
                ranged_spec(dep.name, range),
            ),
            _ => before,
        }
    }
}

/// The specifiers by which a dependency leads to its package: with the range that
/// is declared, and as its line says it.
pub open spec fn edge_pairs(
    packages: Map<Seq<char>, LockedPackageView>,
    declared: Map<Seq<char>, Seq<char>>,
    deps: Map<Seq<char>, Seq<char>>,
    name: Seq<char>,
) -> Seq<Pair> {
    match lookup(deps, name) {
        Some(value) => match edge_key(packages, name, value) {
            Some(key) => spec_pair(packages, key, ranged_spec(name, declared[name])) + spec_pair(
                packages,
                key,
                name + "@"@ + dep_body(declared, packages[key], name, value),
            ),
            None => Seq::empty(),
        },
        None => Seq::empty(),
    }
}

/// The ranges that a package declares for the dependencies with the given
/// names, optional ones among them.
pub open spec fn berry_declared_pairs(
    packages: Map<Seq<char>, LockedPackageView>,
    pkg: LockedPackageView,
    names: Seq<Seq<char>>,
) -> Seq<Pair>
    decreases names.len(),
{
    if names.len() == 0 {
        Seq::empty()
    } else {
        let before = berry_declared_pairs(packages, pkg, names.drop_last());
        let name = names.last();
        before + edge_pairs(packages, pkg.declared_dependencies, pkg.dependencies, name)
            + edge_pairs(packages, pkg.declared_dependencies, pkg.optional_dependencies, name)
    }
}

/// The ranges that the packages under the given keys declare.
pub open spec fn berry_all_declared_pairs(
    packages: Map<Seq<char>, LockedPackageView>,
    keys: Seq<Seq<char>>,
) -> Seq<Pair>
    decreases keys.len(),
{
    if keys.len() == 0 {
        Seq::empty()
    } else {
        let pkg = packages[keys.last()];
        berry_all_declared_pairs(packages, keys.drop_last()) + berry_declared_pairs(
            packages,
            pkg,
            sorted_keys(pkg.declared_dependencies.dom()),
        )
    }
}

/// The specifiers besides the exact one that resolve to each package.
pub open spec fn berry_extra_specs(graph: LockfileGraphView, ranges: Ranges) -> Map<
    Seq<char>,
    Set<Seq<char>>,
> {
    let packages = canonical(graph);
    grouped(
        berry_root_pairs(packages, ranges, root_importer(graph)) + berry_all_declared_pairs(
            packages,
            sorted_keys(packages.dom()),
        ),
    )
}

/// The specifiers of a block header.
pub open spec fn berry_header_specs(
    key: Seq<char>,
    pkg: LockedPackageView,
    extras: Map<Seq<char>, Set<Seq<char>>>,
) -> Seq<Seq<char>> {
    seq![exact_spec(pkg)] + (match lookup(extras, key) {
        Some(specs) => sorted_keys(specs),
        None => Seq::empty(),
    })
}

/// What a dependency line says: the range as declared, or else the version,
/// with a protocol; the specifier of a package that is not from a registry.
pub open spec fn dep_body(
    pkg_declared: Map<Seq<char>, Seq<char>>,
    target: LockedPackageView,
    name: Seq<char>,
    value: Seq<char>,
) -> Seq<char> {
    match target.local_source {
        Some(source) => source.specifier(),
        None => {
            let range = match lookup(pkg_declared, name) {
                Some(r) => r,
                None => dep_version(name, value),
            };
            if find_char(range, ':') is Some {
                range
            } else {
                "npm:"@ + range
            }
        },
    }
}

/// One `name: value` line of a section.
pub open spec fn entry_line(name: Seq<char>, value: Seq<char>) -> Seq<char> {
    "    "@ + quoted(name) + ": "@ + quoted(value) + "\n"@
}

/// The lines of the dependencies with the given names that are in the graph.
pub open spec fn berry_dep_lines(
    packages: Map<Seq<char>, LockedPackageView>,
    declared: Map<Seq<char>, Seq<char>>,
    deps: Map<Seq<char>, Seq<char>>,
    names: Seq<Seq<char>>,
) -> Seq<char>
    decreases names.len(),
{
    if names.len() == 0 {
        Seq::empty()
    } else {
        let before = berry_dep_lines(packages, declared, deps, names.drop_last());
        let name = names.last();
        match edge_key(packages, name, deps[name]) {
            Some(key) => before + entry_line(
                name,
                dep_body(declared, packages[key], name, deps[name]),
            ),
            None => before,
        }
    }
}

/// A section with dependencies; left out where it has no line.
pub open spec fn berry_deps_text(
    section: Seq<char>,
    packages: Map<Seq<char>, LockedPackageView>,
    declared: Map<Seq<char>, Seq<char>>,
    deps: Map<Seq<char>, Seq<char>>,
) -> Seq<char> {
    let body = berry_dep_lines(packages, declared, deps, sorted_keys(deps.dom()));
    if body.len() == 0 {
        Seq::empty()
    } else {
        "  "@ + section + ":\n"@ + body
    }
}

/// The lines of peer dependencies.
pub open spec fn peer_lines(peers: Map<Seq<char>, Seq<char>>, names: Seq<Seq<char>>) -> Seq<char>
    decreases names.len(),
{
    if names.len() == 0 {
        Seq::empty()
    } else {
        peer_lines(peers, names.drop_last()) + entry_line(names.last(), peers[names.last()])
    }
}

/// The `peerDependencies:` section.
pub open spec fn peers_text(peers: Map<Seq<char>, Seq<char>>) -> Seq<char> {
    if peers == Map::<Seq<char>, Seq<char>>::empty() {
        Seq::empty()
    } else {
        "  peerDependencies:\n"@ + peer_lines(peers, sorted_keys(peers.dom()))
    }
}

/// The lines about peers.
pub open spec fn meta_lines(meta: Map<Seq<char>, PeerDepMetaView>, names: Seq<Seq<char>>) -> Seq<
    char,
>
    decreases names.len(),
{
    if names.len() == 0 {
        Seq::empty()
    } else {
        meta_lines(meta, names.drop_last()) + "    "@ + quoted(names.last())
            + ":\n      optional: "@ + (if meta[names.last()].optional {
            "true"@
        } else {
            "false"@
        }) + "\n"@
    }
}

/// The `peerDependenciesMeta:` section.
pub open spec fn meta_text(meta: Map<Seq<char>, PeerDepMetaView>) -> Seq<char> {
    if meta == Map::<Seq<char>, PeerDepMetaView>::empty() {
        Seq::empty()
    } else {
        "  peerDependenciesMeta:\n"@ + meta_lines(meta, sorted_keys(meta.dom()))
    }
}

/// The checksum line.
pub open spec fn checksum_text(checksum: Option<Seq<char>>) -> Seq<char> {
    match checksum {
        Some(c) => "  checksum: "@ + quoted(c) + "\n"@,
        None => Seq::empty(),
    }
}

/// `soft` for a link, which is not copied; else `hard`.
pub open spec fn link_type(pkg: LockedPackageView) -> Seq<char> {
    match pkg.local_source {
        Some(LocalSourceView::Link(_)) => "soft"@,
        _ => "hard"@,
    }
}

/// One block.
pub open spec fn berry_block_text(
    packages: Map<Seq<char>, LockedPackageView>,
    extras: Map<Seq<char>, Set<Seq<char>>>,
    key: Seq<char>,
) -> Seq<char> {
    let pkg = packages[key];
    berry_block_head(pkg, extras, key) + berry_deps_text(
        "dependencies"@,
        packages,
        pkg.declared_dependencies,
        pkg.dependencies,
    ) + berry_deps_text(
        "optionalDependencies"@,
        packages,
        pkg.declared_dependencies,
        pkg.optional_dependencies,
    ) + peers_text(pkg.peer_dependencies) + meta_text(pkg.peer_dependencies_meta)
        + berry_block_tail(pkg)
}

/// The blocks of the packages under the given keys.
pub open spec fn berry_blocks_text(
    packages: Map<Seq<char>, LockedPackageView>,
    extras: Map<Seq<char>, Set<Seq<char>>>,
    keys: Seq<Seq<char>>,
) -> Seq<char>
    decreases keys.len(),
{
    if keys.len() == 0 {
        Seq::empty()
    } else {
        berry_blocks_text(packages, extras, keys.drop_last()) + berry_block_text(
            packages,
            extras,
            keys.last(),
        )
    }
}

/// The comment and the metadata at the head of the file.
pub open spec fn berry_banner() -> Seq<char> {
    "# This file is generated by running \"yarn install\" inside your project.\n"@
        + "# Manual changes might be lost - proceed with caution!\n\n"@
        + "__metadata:\n  version: 8\n  cacheKey: 10c0\n\n"@
}

/// The berry lockfile of a graph.
pub open spec fn berry_text(graph: LockfileGraphView, ranges: Ranges) -> Seq<char> {
    let packages = canonical(graph);
    berry_banner() + berry_blocks_text(
        packages,
        berry_extra_specs(graph, ranges),
        sorted_keys(packages.dom()),
    )
}

/// A text as a double-quoted scalar.
pub fn quote_yaml_scalar(s: &str) -> (r: String)
    ensures
        r@ == quoted(s@),
{
    let text = chars(s);
    let mut r = "\"".to_owned();
    let mut i: usize = 0;
    proof {
        assert("\""@ + escaped(s@.take(0)) =~= "\""@);
    }
    while i < text.len()
        invariant
            text@ == s@,
            i <= text@.len(),
            r@ == "\""@ + escaped(s@.take(i as int)),
        decreases text.len() - i,
    {
        let c = text[i];
        proof {
            assert(s@.take(i + 1).drop_last() == s@.take(i as int));
            assert(s@.take(i + 1).last() == c);
        }
        if c == '\\' || c == '"' {
            r.push('\\');
        }
        r.push(c);
        proof {
            assert(r@ =~= "\""@ + escaped(s@.take(i + 1)));
        }
        i = i + 1;
    }
    proof {
        assert(s@.take(s@.len() as int) == s@);
    }
    r.append("\"");
    r
}

fn format_berry_spec(name: &str, range: &str) -> (r: String)
    ensures
        r@ == ranged_spec(name@, range@),
{
    if range_has_protocol(range) {
        concat3(name, "@", range)
    } else {
        concat3(name, "@npm:", range)
    }
}

/// The specifier that names exactly one package.
fn berry_exact_spec(pkg: &LockedPackage) -> (r: String)
    ensures
        r@ == exact_spec(pkg.deep_view()),
{
    match &pkg.local_source {
        None => concat3(pkg.name.as_str(), "@npm:", pkg.version.as_str()),
        Some(source) => concat3(pkg.name.as_str(), "@", source.specifier().as_str()),
    }
}

fn collect_spec(
    pkg: &LockedPackage,
    key: &String,
    spec: String,
    extras: &mut StrMap<StrSet>,
    Ghost(packages): Ghost<Map<Seq<char>, LockedPackageView>>,
    Ghost(pairs): Ghost<Seq<Pair>>,
)
    requires
        old(extras)@ == grouped(pairs),
        packages[key@] == pkg.deep_view(),
    ensures
        final(extras)@ == grouped(pairs + spec_pair(packages, key@, spec@)),
{
    if !same(spec.as_str(), berry_exact_spec(pkg).as_str()) {
        proof {
            assert(pairs.push((key@, spec@)) =~= pairs + seq![(key@, spec@)]);
        }
        insert_pair(extras, key.clone(), spec, Ghost(pairs));
    } else {
        proof {
            assert(pairs + Seq::<Pair>::empty() =~= pairs);
        }
    }
}

fn collect_root_pairs(
    packages: &StrMap<LockedPackage>,
    index: &StrMap<String>,
    manifest: &PackageJson,
    deps: &Vec<DirectDep>,
    extras: &mut StrMap<StrSet>,
)
    requires
        is_index(index@, packages@),
        old(extras)@ == grouped(Seq::<Pair>::empty()),
    ensures
        final(extras)@ == grouped(
            berry_root_pairs(packages@, manifest.ranges(), deps.deep_view()),
        ),
{
    let ghost all = deps.deep_view();
    let ghost ranges = manifest.ranges();
    let mut i: usize = 0;
    while i < deps.len()
        invariant
            is_index(index@, packages@),
            all == deps.deep_view(),
            ranges == manifest.ranges(),
            i <= deps@.len(),
            extras@ == grouped(berry_root_pairs(packages@, ranges, all.take(i as int))),
        decreases deps.len() - i,
    {
        let dep = &deps[i];
        proof {
            assert(all[i as int] == dep.deep_view());
            assert(all.take(i + 1).drop_last() == all.take(i as int));
            assert(all.take(i + 1).last() == dep.deep_view());
        }
        let path = dep.dep_path.as_str();
        let other = canonical_key_from_dep_path(path);
        if let Some((key, pkg)) = find_target(packages, index, path, other) {
            if let Some(range) = find_manifest_range(manifest, dep.name.as_str()) {
                let spec = format_berry_spec(dep.name.as_str(), range.as_str());
                let ghost before = berry_root_pairs(packages@, ranges, all.take(i as int));
                collect_spec(pkg, &key, spec, extras, Ghost(packages@), Ghost(before));
            }
        }
        i = i + 1;
    }
    proof {
        assert(all.take(all.len() as int) == all);
    }
}

fn collect_edge(
    packages: &StrMap<LockedPackage>,
    index: &StrMap<String>,
    declared: &StrMap<String>,
    deps: &StrMap<String>,
    name: &String,
    range: &String,
    extras: &mut StrMap<StrSet>,
    Ghost(pairs): Ghost<Seq<Pair>>,
)
    requires
        is_index(index@, packages@),
        declared@.dom().contains(name@),
        declared@[name@] == range@,
        old(extras)@ == grouped(pairs),
    ensures
        final(extras)@ == grouped(pairs + edge_pairs(packages@, declared@, deps@, name@)),
{
    proof {
        assert(pairs + Seq::<Pair>::empty() =~= pairs);
    }
    if let Some(value) = deps.get(name.as_str()) {
        let other = child_canonical_key(name.as_str(), value.as_str());
        if let Some((key, target)) = find_target(packages, index, value.as_str(), other) {
            let spec = format_berry_spec(name.as_str(), range.as_str());
            let body = render_dep_body(declared, target, name.as_str(), value.as_str());
            let line = concat3(name.as_str(), "@", body.as_str());
            let ghost a = spec_pair(packages@, key@, spec@);
            let ghost b = spec_pair(packages@, key@, line@);
            collect_spec(target, &key, spec, extras, Ghost(packages@), Ghost(pairs));
            collect_spec(target, &key, line, extras, Ghost(packages@), Ghost(pairs + a));
            proof {
                assert(pairs + a + b =~= pairs + (a + b));
            }
        }
    }
}

fn collect_declared_pairs(
    packages: &StrMap<LockedPackage>,
    index: &StrMap<String>,
    pkg: &LockedPackage,
    extras: &mut StrMap<StrSet>,
    Ghost(pairs): Ghost<Seq<Pair>>,
)
    requires
        is_index(index@, packages@),
        old(extras)@ == grouped(pairs),
    ensures
        final(extras)@ == grouped(
            pairs + berry_declared_pairs(
                packages@,
                pkg.deep_view(),
                sorted_keys(pkg.declared_dependencies@.dom()),
            ),
        ),
{
    let ghost p = pkg.deep_view();
    let ghost names = sorted_keys(pkg.declared_dependencies@.dom());
    let n: usize = pkg.declared_dependencies.len();
    let mut i: usize = 0;
    proof {
        assert(pairs + berry_declared_pairs(packages@, p, names.take(0)) == pairs);
    }
    while i < n
        invariant
            is_index(index@, packages@),
            p == pkg.deep_view(),
            names == sorted_keys(pkg.declared_dependencies@.dom()),
            n == names.len(),
            i <= n,
            extras@ == grouped(pairs + berry_declared_pairs(packages@, p, names.take(i as int))),
        decreases n - i,
    {
        let name = pkg.declared_dependencies.key_at(i);
        let range = pkg.declared_dependencies.value_at(i);
        let ghost before = pairs + berry_declared_pairs(packages@, p, names.take(i as int));
        proof {
            assert(names.take(i + 1).drop_last() == names.take(i as int));
            assert(names.take(i + 1).last() == name@);
        }
        let declared = &pkg.declared_dependencies;
        let ghost a = edge_pairs(packages@, declared@, p.dependencies, name@);
        let ghost b = edge_pairs(packages@, declared@, p.optional_dependencies, name@);
        collect_edge(
            packages,
            index,
            declared,
            &pkg.dependencies,
            name,
            range,
            extras,
            Ghost(before),
        );
        collect_edge(
            packages,
            index,
            declared,
            &pkg.optional_dependencies,
            name,
            range,
            extras,
            Ghost(before + a),
        );
        proof {
            assert(before + a + b =~= pairs + berry_declared_pairs(
                packages@,
                p,
                names.take(i + 1),
            ));
        }
        i = i + 1;
    }
    proof {
        assert(names.take(n as int) == names);
    }
}

fn collect_all_declared_pairs(
    packages: &StrMap<LockedPackage>,
    index: &StrMap<String>,
    extras: &mut StrMap<StrSet>,
    Ghost(pairs): Ghost<Seq<Pair>>,
)
    requires
        is_index(index@, packages@),
        old(extras)@ == grouped(pairs),
    ensures
        final(extras)@ == grouped(
            pairs + berry_all_declared_pairs(packages@, sorted_keys(packages@.dom())),
        ),
{
    let ghost keys = sorted_keys(packages@.dom());
    let n: usize = packages.len();
    let mut i: usize = 0;
    proof {
        assert(pairs + berry_all_declared_pairs(packages@, keys.take(0)) == pairs);
    }
    while i < n
        invariant
            is_index(index@, packages@),
            keys == sorted_keys(packages@.dom()),
            n == keys.len(),
            i <= n,
            extras@ == grouped(pairs + berry_all_declared_pairs(packages@, keys.take(i as int))),
        decreases n - i,
    {
        let pkg = packages.value_at(i);
        let ghost before = pairs + berry_all_declared_pairs(packages@, keys.take(i as int));
        proof {
            assert(keys.take(i + 1).drop_last() == keys.take(i as int));
            assert(keys.take(i + 1).last() == keys[i as int]);
        }
        collect_declared_pairs(packages, index, pkg, extras, Ghost(before));
        proof {
            assert(before + berry_declared_pairs(
                packages@,
                pkg.deep_view(),
                sorted_keys(pkg.declared_dependencies@.dom()),
            ) =~= pairs + berry_all_declared_pairs(packages@, keys.take(i + 1)));
        }
        i = i + 1;
    }
    proof {
        assert(keys.take(n as int) == keys);
    }
}

/// The specifiers of a block header, joined.
fn header_line(key: &str, pkg: &LockedPackage, extras: &StrMap<StrSet>) -> (r: String)
    ensures
        r@ == join(berry_header_specs(key@, pkg.deep_view(), extras@), ", "@),
{
    let ghost specs = berry_header_specs(key@, pkg.deep_view(), extras@);
    let mut r = berry_exact_spec(pkg);
    proof {
        assert(specs.take(1) =~= seq![exact_spec(pkg.deep_view())]);
    }
    if let Some(set) = extras.get(key) {
        let ghost keys = sorted_keys(set@);
        let n: usize = set.len();
        let mut i: usize = 0;
        while i < n
            invariant
                keys == sorted_keys(set@),
                n == keys.len(),
                i <= n,
                specs == seq![exact_spec(pkg.deep_view())] + keys,
                r@ == join(specs.take(i + 1), ", "@),
            decreases n - i,
        {
            let spec = set.at(i);
            proof {
                assert(specs.take(i + 2).drop_last() =~= specs.take(i + 1));
                assert(specs.take(i + 2).last() == spec@);
            }
            r.append(", ");
            r.append(spec.as_str());
            i = i + 1;
        }
        proof {
            assert(specs.take(n + 1) =~= specs);
        }
    } else {
        proof {
            assert(specs =~= specs.take(1));
        }
    }
    r
}

fn push_entry(out: &mut String, name: &str, value: &str)
    ensures
        final(out)@ == old(out)@ + entry_line(name@, value@),
{
    let ghost out0 = out@;
    out.append("    ");
    out.append(quote_yaml_scalar(name).as_str());
    out.append(": ");
    out.append(quote_yaml_scalar(value).as_str());
    out.append("\n");
    proof {
        assert(out@ =~= out0 + entry_line(name@, value@));
    }
}

fn render_dep_body(
    declared: &StrMap<String>,
    target: &LockedPackage,
    name: &str,
    value: &str,
) -> (r: String)
    ensures
        r@ == dep_body(declared@, target.deep_view(), name@, value@),
{
    match &target.local_source {
        Some(source) => source.specifier(),
        None => {
            let range = match declared.get(name) {
                Some(r) => r.clone(),
                None => dep_value_as_version(name, value),
            };
            if position(&chars(range.as_str()), ':').is_some() {
                range
            } else {
                crate::text::concat("npm:", range.as_str())
            }
        },
    }
}

/// A section with dependencies.
fn write_berry_dep_map(
    out: &mut String,
    section: &str,
    deps: &StrMap<String>,
    declared: &StrMap<String>,
    packages: &StrMap<LockedPackage>,
    index: &StrMap<String>,
)
    requires
        is_index(index@, packages@),
    ensures
        final(out)@ == old(out)@ + berry_deps_text(section@, packages@, declared@, deps@),
{
    let ghost out0 = out@;
    let ghost names = sorted_keys(deps@.dom());
    let n: usize = deps.len();
    let mut body: String = String::new();
    let mut i: usize = 0;
    while i < n
        invariant
            is_index(index@, packages@),
            names == sorted_keys(deps@.dom()),
            n == names.len(),
            i <= n,
            body@ == berry_dep_lines(packages@, declared@, deps@, names.take(i as int)),
        decreases n - i,
    {
        let name = deps.key_at(i);
        let value = deps.value_at(i);
        proof {
            assert(names.take(i + 1).drop_last() == names.take(i as int));
            assert(names.take(i + 1).last() == name@);
        }
        let other = child_canonical_key(name.as_str(), value.as_str());
        if let Some((_, target)) = find_target(packages, index, value.as_str(), other) {
            let text = render_dep_body(declared, target, name.as_str(), value.as_str());
            push_entry(&mut body, name.as_str(), text.as_str());
        }
        i = i + 1;
    }
    proof {
        assert(names.take(n as int) == names);
    }
    if !body.as_str().is_empty() {
        out.append("  ");
        out.append(section);
        out.append(":\n");
        out.append(body.as_str());
        proof {
            assert(out@ =~= out0 + ("  "@ + section@ + ":\n"@ + body@));
        }
    } else {
        proof {
            assert(out0 + Seq::<char>::empty() == out0);
        }
    }
}

fn write_berry_peer_deps(out: &mut String, peers: &StrMap<String>)
    ensures
        final(out)@ == old(out)@ + peers_text(peers@),
{
    let ghost out0 = out@;
    if peers.is_empty() {
        proof {
            assert(out0 + Seq::<char>::empty() == out0);
        }
        return;
    }
    out.append("  peerDependencies:\n");
    let ghost head = out0 + "  peerDependencies:\n"@;
    let ghost names = sorted_keys(peers@.dom());
    let n: usize = peers.len();
    let mut i: usize = 0;
    proof {
        assert(head + peer_lines(peers@, names.take(0)) == head);
    }
    while i < n
        invariant
            names == sorted_keys(peers@.dom()),
            n == names.len(),
            i <= n,
            out@ == head + peer_lines(peers@, names.take(i as int)),
        decreases n - i,
    {
        let name = peers.key_at(i);
        push_entry(out, name.as_str(), peers.value_at(i).as_str());
        proof {
            assert(names.take(i + 1).drop_last() == names.take(i as int));
            assert(out@ =~= head + peer_lines(peers@, names.take(i + 1)));
        }
        i = i + 1;
    }
    proof {
        assert(names.take(n as int) == names);
        assert(out@ =~= out0 + peers_text(peers@));
    }
}

fn write_berry_peer_meta(out: &mut String, meta: &StrMap<PeerDepMeta>)
    ensures
        final(out)@ == old(out)@ + meta_text(meta@),
{
    let ghost out0 = out@;
    if meta.is_empty() {
        proof {
            assert(out0 + Seq::<char>::empty() == out0);
        }
        return;
    }
    out.append("  peerDependenciesMeta:\n");
    let ghost head = out0 + "  peerDependenciesMeta:\n"@;
    let ghost names = sorted_keys(meta@.dom());
    let n: usize = meta.len();
    let mut i: usize = 0;
    proof {
        assert(head + meta_lines(meta@, names.take(0)) == head);
    }
    while i < n
        invariant
            names == sorted_keys(meta@.dom()),
            n == names.len(),
            i <= n,
            out@ == head + meta_lines(meta@, names.take(i as int)),
        decreases n - i,
    {
        let name = meta.key_at(i);
        let m = meta.value_at(i);
        out.append("    ");
        out.append(quote_yaml_scalar(name.as_str()).as_str());
        out.append(":\n      optional: ");
        if m.optional {
            out.append("true");
        } else {
            out.append("false");
        }
        out.append("\n");
        proof {
            assert(names.take(i + 1).drop_last() == names.take(i as int));
            assert(out@ =~= head + meta_lines(meta@, names.take(i + 1)));
        }
        i = i + 1;
    }
    proof {
        assert(names.take(n as int) == names);
        assert(out@ =~= out0 + meta_text(meta@));
    }
}

/// The header, the version and the resolution of a block.
pub open spec fn berry_block_head(
    pkg: LockedPackageView,
    extras: Map<Seq<char>, Set<Seq<char>>>,
    key: Seq<char>,
) -> Seq<char> {
    quoted(join(berry_header_specs(key, pkg, extras), ", "@)) + ":\n  version: "@ + quoted(
        pkg.version,
    ) + "\n  resolution: "@ + quoted(exact_spec(pkg)) + "\n"@
}

fn push_block_head(out: &mut String, extras: &StrMap<StrSet>, key: &str, pkg: &LockedPackage)
    ensures
        final(out)@ == old(out)@ + berry_block_head(pkg.deep_view(), extras@, key@),
{
    let ghost out0 = out@;
    let mut text = quote_yaml_scalar(header_line(key, pkg, extras).as_str());
    text.append(":\n  version: ");
    text.append(quote_yaml_scalar(pkg.version.as_str()).as_str());
    text.append("\n  resolution: ");
    text.append(quote_yaml_scalar(berry_exact_spec(pkg).as_str()).as_str());
    text.append("\n");
    out.append(text.as_str());
}

/// The checksum and the link type of a block.
pub open spec fn berry_block_tail(pkg: LockedPackageView) -> Seq<char> {
    checksum_text(pkg.yarn_checksum) + "  languageName: node\n  linkType: "@ + link_type(pkg)
        + "\n\n"@
}

fn push_block_tail(out: &mut String, pkg: &LockedPackage)
    ensures
        final(out)@ == old(out)@ + berry_block_tail(pkg.deep_view()),
{
    let mut text = match &pkg.yarn_checksum {
        Some(checksum) => concat3(
            "  checksum: ",
            quote_yaml_scalar(checksum.as_str()).as_str(),
            "\n",
        ),
        None => String::new(),
    };
    text.append("  languageName: node\n  linkType: ");
    match &pkg.local_source {
        Some(LocalSource::Link(_)) => text.append("soft"),
        _ => text.append("hard"),
    }
    text.append("\n\n");
    out.append(text.as_str());
}

fn push_block(
    out: &mut String,
    packages: &StrMap<LockedPackage>,
    index: &StrMap<String>,
    extras: &StrMap<StrSet>,
    key: &str,
    pkg: &LockedPackage,
)
    requires
        is_index(index@, packages@),
        packages@[key@] == pkg.deep_view(),
    ensures
        final(out)@ == old(out)@ + berry_block_text(packages@, extras@, key@),
{
    let ghost out0 = out@;
    let ghost p = pkg.deep_view();
    push_block_head(out, extras, key, pkg);
    write_berry_dep_map(
        out,
        "dependencies",
        &pkg.dependencies,
        &pkg.declared_dependencies,
        packages,
        index,
    );
    write_berry_dep_map(
        out,
        "optionalDependencies",
        &pkg.optional_dependencies,
        &pkg.declared_dependencies,
        packages,
        index,
    );
    write_berry_peer_deps(out, &pkg.peer_dependencies);
    write_berry_peer_meta(out, &pkg.peer_dependencies_meta);
    push_block_tail(out, pkg);
    proof {
        let t1 = berry_block_head(p, extras@, key@);
        let d = berry_deps_text(
            "dependencies"@,
            packages@,
            p.declared_dependencies,
            p.dependencies,
        );
        let o = berry_deps_text(
            "optionalDependencies"@,
            packages@,
            p.declared_dependencies,
            p.optional_dependencies,
        );
        let q = peers_text(p.peer_dependencies);
        let m = meta_text(p.peer_dependencies_meta);
        lemma_concat_assoc(out0, t1, d);
        lemma_concat_assoc(out0, t1 + d, o);
        lemma_concat_assoc(out0, t1 + d + o, q);
        lemma_concat_assoc(out0, t1 + d + o + q, m);
        lemma_concat_assoc(out0, t1 + d + o + q + m, berry_block_tail(p));
    }
}

/// The berry lockfile of a graph. The manifest is that of the workspace root,
/// whose ranges go into the block headers.
pub fn write_berry(graph: &LockfileGraph, manifest: &PackageJson) -> (r: String)
    ensures
        r@ == berry_text(graph.deep_view(), manifest.ranges()),
{
    let ghost g = graph.deep_view();
    let packages = build_canonical_map(graph);
    let index = build_path_index(&packages);
    let mut extras: StrMap<StrSet> = StrMap::new();
    proof {
        assert(extras@ =~= grouped(Seq::<Pair>::empty()));
    }
    let ghost roots = berry_root_pairs(packages@, manifest.ranges(), root_importer(g));
    if let Some(deps) = graph.importers.get(".") {
        collect_root_pairs(&packages, &index, manifest, deps, &mut extras);
    }
    proof {
        assert(extras@ == grouped(roots));
    }
    collect_all_declared_pairs(&packages, &index, &mut extras, Ghost(roots));
    let mut out =
        "# This file is generated by running \"yarn install\" inside your project.\n".to_owned();
    out.append("# Manual changes might be lost - proceed with caution!\n\n");
    out.append("__metadata:\n  version: 8\n  cacheKey: 10c0\n\n");
    let ghost keys = sorted_keys(packages@.dom());
    let n: usize = packages.len();
    let mut i: usize = 0;
    proof {
        assert(out@ =~= berry_banner() + berry_blocks_text(packages@, extras@, keys.take(0)));
    }
    while i < n
        invariant
            is_index(index@, packages@),
            keys == sorted_keys(packages@.dom()),
            n == keys.len(),
            i <= n,
            out@ == berry_banner() + berry_blocks_text(packages@, extras@, keys.take(i as int)),
        decreases n - i,
    {
        let key = packages.key_at(i);
        let pkg = packages.value_at(i);
        push_block(&mut out, &packages, &index, &extras, key.as_str(), pkg);
        proof {
            assert(keys.take(i + 1).drop_last() == keys.take(i as int));
            assert(out@ =~= berry_banner() + berry_blocks_text(packages@, extras@, keys.take(i + 1)));
        }
        i = i + 1;
    }
    proof {
        assert(keys.take(n as int) == keys);
    }
    out
}

} // verus!
