//! What a `pnpm-lock.yaml` gives back of a graph whose direct dependencies stand
//! in any order.
use vstd::prelude::*;
use crate::graph::{DepType, DirectDepView, LockedPackageView, LockfileGraphView};
use crate::laws::pnpm::{
    are_storable_direct_deps, in_order, is_name, is_storable, is_storable_dep, is_storable_package,
    is_storable_value, law_dep_path_is_injective, law_round_trip, names, of_type,
};
use crate::pnpm::dep_path::{
    alias_remap, dep_path, dep_path_parts, tail, version_separator, without_slash,
};
use crate::pnpm::document::PnpmDepSpecView;
use crate::pnpm::read::{direct_source, graph_of, opaque_bin, ReadErrorView};
use crate::pnpm::write::{
    document_of, info_key, is_left_out, is_link, skipped_section, snapshot_key, unless_empty,
    written_dep, written_deps, written_importers, written_info, written_packages, written_section,
    written_snapshot, written_snapshots, written_value, Input,
};
use crate::source::{component, is_github_shorthand, is_http_url, local_source, scp_url};
use crate::strmap::{is_listing, lemma_listing, lookup, sorted_keys};
use crate::text::{find_char, is_digit, lemma_find_char, split_once, until};

verus! {

/// The dependencies of one type by name. Of two with one name the last counts,
/// and links that are excluded do not.
pub open spec fn by_name(graph: LockfileGraphView, deps: Seq<DirectDepView>, t: DepType) -> Map<
    Seq<char>,
    DirectDepView,
>
    decreases deps.len(),
{
    if deps.len() == 0 {
        Map::empty()
    } else {
        let before = by_name(graph, deps.drop_last(), t);
        let d = deps.last();
        if d.dep_type == t && !is_left_out(graph, d) {
            before.insert(d.name, d)
        } else {
            before
        }
    }
}

/// The dependencies of one type in the order of their names.
pub open spec fn ordered(graph: LockfileGraphView, deps: Seq<DirectDepView>, t: DepType) -> Seq<
    DirectDepView,
> {
    let m = by_name(graph, deps, t);
    sorted_keys(m.dom()).map_values(|n: Seq<char>| m[n])
}

/// Direct dependencies in the order of a lockfile: by type, and by name within a
/// type.
pub open spec fn lockfile_order(graph: LockfileGraphView, deps: Seq<DirectDepView>) -> Seq<
    DirectDepView,
> {
    ordered(graph, deps, DepType::Production) + ordered(graph, deps, DepType::Dev) + ordered(
        graph,
        deps,
        DepType::Optional,
    )
}

/// What a lockfile keeps of a package: of its commands only whether it has any,
/// and nothing of what other formats record.
pub open spec fn stored_package(p: LockedPackageView) -> LockedPackageView {
    LockedPackageView {
        bin: opaque_bin(p.bin != Map::<Seq<char>, Seq<char>>::empty()),
        yarn_checksum: None,
        declared_dependencies: Map::empty(),
        ..p
    }
}

/// What a lockfile keeps of a graph: the direct dependencies in its own order,
/// and of the skipped ones those of its workspace packages.
pub open spec fn stored_graph(graph: LockfileGraphView) -> LockfileGraphView {
    LockfileGraphView {
        importers: Map::new(
            |path: Seq<char>| graph.importers.dom().contains(path),
            |path: Seq<char>| lockfile_order(graph, graph.importers[path]),
        ),
        packages: Map::new(
            |k: Seq<char>| graph.packages.dom().contains(k),
            |k: Seq<char>| stored_package(graph.packages[k]),
        ),
        skipped_optional_dependencies: Map::new(
            |path: Seq<char>|
                graph.importers.dom().contains(path)
                    && graph.skipped_optional_dependencies.dom().contains(path)
                    && graph.skipped_optional_dependencies[path] != Map::<
                    Seq<char>,
                    Seq<char>,
                >::empty(),
            |path: Seq<char>| graph.skipped_optional_dependencies[path],
        ),
        ..graph
    }
}

/// What is written, with the graph that a lockfile keeps.
pub open spec fn stored(input: Input) -> Input {
    Input { graph: stored_graph(input.graph), ..input }
}

proof fn lemma_left_out(graph: LockfileGraphView, d: DirectDepView)
    ensures
        is_left_out(stored_graph(graph), d) == is_left_out(graph, d),
{
}

/// The dependencies by name are those that are listed.
pub proof fn lemma_by_name(graph: LockfileGraphView, deps: Seq<DirectDepView>, t: DepType)
    ensures
        by_name(graph, deps, t).dom().finite(),
        forall|n: Seq<char>| #[trigger]
            by_name(graph, deps, t).dom().contains(n) ==> {
                let d = by_name(graph, deps, t)[n];
                deps.contains(d) && d.name == n && d.dep_type == t && !is_left_out(graph, d)
            },
        forall|i: int|
            0 <= i < deps.len() && (#[trigger] deps[i]).dep_type == t && !is_left_out(
                graph,
                deps[i],
            ) ==> by_name(graph, deps, t).dom().contains(deps[i].name),
    decreases deps.len(),
{
    if deps.len() > 0 {
        let front = deps.drop_last();
        lemma_by_name(graph, front, t);
        let was = by_name(graph, front, t);
        let now = by_name(graph, deps, t);
        assert(deps[deps.len() - 1] == deps.last());
        assert forall|n: Seq<char>| #[trigger] now.dom().contains(n) implies {
            let d = now[n];
            deps.contains(d) && d.name == n && d.dep_type == t && !is_left_out(graph, d)
        } by {
            let d = now[n];
            if d == deps.last() && n == deps.last().name && deps.last().dep_type == t
                && !is_left_out(graph, deps.last()) {
                assert(deps.contains(deps[deps.len() - 1]));
            } else {
                assert(was.dom().contains(n) && was[n] == d);
                let i = choose|i: int| 0 <= i < front.len() && front[i] == d;
                assert(deps[i] == d);
            }
        }
        assert forall|i: int|
            0 <= i < deps.len() && (#[trigger] deps[i]).dep_type == t && !is_left_out(
                graph,
                deps[i],
            ) implies now.dom().contains(deps[i].name) by {
            if i < front.len() {
                assert(front[i] == deps[i]);
            }
        }
    }
}

/// The dependencies of one type in order are those by name.
proof fn lemma_ordered(graph: LockfileGraphView, deps: Seq<DirectDepView>, t: DepType)
    ensures
        is_listing(names(ordered(graph, deps, t)), by_name(graph, deps, t).dom()),
        forall|i: int|
            0 <= i < ordered(graph, deps, t).len() ==> {
                let d = #[trigger] ordered(graph, deps, t)[i];
                &&& d.dep_type == t
                &&& !is_left_out(graph, d)
                &&& by_name(graph, deps, t).dom().contains(d.name)
                &&& by_name(graph, deps, t)[d.name] == d
            },
        forall|n: Seq<char>| #[trigger]
            by_name(graph, deps, t).dom().contains(n) ==> ordered(graph, deps, t).contains(
                by_name(graph, deps, t)[n],
            ),
{
    let m = by_name(graph, deps, t);
    lemma_by_name(graph, deps, t);
    lemma_listing(m.dom());
    let q = sorted_keys(m.dom());
    let all = ordered(graph, deps, t);
    assert forall|i: int| 0 <= i < all.len() implies {
        let d = #[trigger] all[i];
        &&& d.dep_type == t
        &&& !is_left_out(graph, d)
        &&& m.dom().contains(d.name)
        &&& m[d.name] == d
        &&& d.name == q[i]
    } by {
        assert(q.contains(q[i]));
        assert(m.dom().contains(q[i]));
    }
    assert(names(all) =~= q);
    assert forall|n: Seq<char>| #[trigger] m.dom().contains(n) implies all.contains(m[n]) by {
        assert(q.contains(n));
        let i = choose|i: int| 0 <= i < q.len() && q[i] == n;
        assert(all[i] == m[n]);
    }
}

/// In the order of a lockfile each type has its dependencies.
proof fn lemma_order(graph: LockfileGraphView, deps: Seq<DirectDepView>, t: DepType)
    ensures
        by_name(stored_graph(graph), lockfile_order(graph, deps), t) == by_name(graph, deps, t),
{
    let all = lockfile_order(graph, deps);
    let s = stored_graph(graph);
    let m = by_name(graph, deps, t);
    let w = by_name(s, all, t);
    let (a, b, c) = (
        ordered(graph, deps, DepType::Production),
        ordered(graph, deps, DepType::Dev),
        ordered(graph, deps, DepType::Optional),
    );
    lemma_ordered(graph, deps, DepType::Production);
    lemma_ordered(graph, deps, DepType::Dev);
    lemma_ordered(graph, deps, DepType::Optional);
    lemma_by_name(s, all, t);
    assert forall|i: int| 0 <= i < all.len() implies {
        let d = #[trigger] all[i];
        d.dep_type == t ==> m.dom().contains(d.name) && m[d.name] == d
    } by {
        if i < a.len() {
            assert(all[i] == a[i]);
        } else if i < a.len() + b.len() {
            assert(all[i] == b[i - a.len()]);
        } else {
            assert(all[i] == c[i - a.len() - b.len()]);
        }
    }
    assert forall|n: Seq<char>| w.dom().contains(n) implies m.dom().contains(n) && w[n] == m[n] by {
        let i = choose|i: int| 0 <= i < all.len() && all[i] == w[n];
        assert(all[i].dep_type == t);
    }
    assert forall|n: Seq<char>| m.dom().contains(n) implies w.dom().contains(n) by {
        let part = ordered(graph, deps, t);
        assert(part.contains(m[n]));
        let j = choose|j: int| 0 <= j < part.len() && part[j] == m[n];
        lemma_by_name(graph, deps, t);
        let i = if t == DepType::Production {
            j
        } else if t == DepType::Dev {
            a.len() + j
        } else {
            a.len() + b.len() + j
        };
        assert(all[i] == part[j]);
        lemma_left_out(graph, all[i]);
    }
    assert(w =~= m);
}

/// A section holds what is written for the dependencies by name.
pub proof fn lemma_section(input: Input, importer: Seq<char>, deps: Seq<DirectDepView>, t: DepType)
    ensures
        ({
            let m = by_name(input.graph, deps, t);
            let w = written_section(input, importer, deps, t);
            &&& w is Some <==> m != Map::<Seq<char>, DirectDepView>::empty()
            &&& w is Some ==> w->0.dom() == m.dom() && forall|n: Seq<char>| #[trigger]
                m.dom().contains(n) ==> w->0[n] == written_dep(input, importer, m[n])
        }),
    decreases deps.len(),
{
    if deps.len() > 0 {
        let front = deps.drop_last();
        lemma_section(input, importer, front, t);
        let m = by_name(input.graph, deps, t);
        let was = by_name(input.graph, front, t);
        let w = written_section(input, importer, deps, t);
        let d = deps.last();
        if d.dep_type == t && !is_left_out(input.graph, d) {
            assert(m.dom().contains(d.name));
            let base = match written_section(input, importer, front, t) {
                Some(b) => b,
                None => Map::empty(),
            };
            assert(base.dom() =~= was.dom());
            assert(w->0.dom() =~= m.dom());
        }
    }
}

proof fn lemma_written_section(
    input: Input,
    importer: Seq<char>,
    deps: Seq<DirectDepView>,
    t: DepType,
)
    ensures
        written_section(stored(input), importer, lockfile_order(input.graph, deps), t)
            == written_section(input, importer, deps, t),
{
    let s = stored(input);
    let order = lockfile_order(input.graph, deps);
    lemma_section(input, importer, deps, t);
    lemma_section(s, importer, order, t);
    lemma_order(input.graph, deps, t);
    let a = written_section(s, importer, order, t);
    let b = written_section(input, importer, deps, t);
    if a is Some {
        assert(a->0 =~= b->0);
    }
}

proof fn lemma_info(input: Input, p: LockedPackageView)
    ensures
        info_key(stored(input), stored_package(p)) == info_key(input, p),
        written_info(stored(input), stored_package(p)) == written_info(input, p),
{
    let one = opaque_bin(true);
    assert(one.dom().contains(Seq::empty()));
    assert(one != Map::<Seq<char>, Seq<char>>::empty());
}

proof fn lemma_snapshot(input: Input, k: Seq<char>, p: LockedPackageView)
    ensures
        snapshot_key(stored(input), k, stored_package(p)) == snapshot_key(input, k, p),
        written_snapshot(stored(input), stored_package(p)) == written_snapshot(input, p),
{
    let s = stored(input);
    assert forall|n: Seq<char>, v: Seq<char>| #[trigger]
        written_value(s, n, v) == written_value(input, n, v) by {
    }
    assert(written_deps(s, p.dependencies) =~= written_deps(input, p.dependencies));
    assert(written_deps(s, p.optional_dependencies) =~= written_deps(
        input,
        p.optional_dependencies,
    ));
}

proof fn lemma_packages(input: Input, keys: Seq<Seq<char>>)
    requires
        forall|i: int|
            0 <= i < keys.len() ==> input.graph.packages.dom().contains(#[trigger] keys[i]),
    ensures
        written_packages(stored(input), keys) == written_packages(input, keys),
        written_snapshots(stored(input), keys) == written_snapshots(input, keys),
    decreases keys.len(),
{
    if keys.len() > 0 {
        let front = keys.drop_last();
        assert forall|i: int| 0 <= i < front.len() implies input.graph.packages.dom().contains(
            #[trigger] front[i],
        ) by {
            assert(front[i] == keys[i]);
        }
        lemma_packages(input, front);
        let k = keys[keys.len() - 1];
        assert(input.graph.packages.dom().contains(k));
        let p = input.graph.packages[k];
        lemma_info(input, p);
        lemma_snapshot(input, k, p);
        assert(is_link(stored_package(p)) == is_link(p));
    }
}

/// The lockfile is that of the graph that it keeps.
proof fn lemma_document(input: Input)
    requires
        input.graph.packages.dom().finite(),
    ensures
        document_of(stored(input)) == document_of(input),
{
    let g = input.graph;
    let s = stored(input);
    assert(s.graph.packages.dom() =~= g.packages.dom());
    let keys = sorted_keys(g.packages.dom());
    lemma_listing(g.packages.dom());
    assert forall|i: int| 0 <= i < keys.len() implies g.packages.dom().contains(
        #[trigger] keys[i],
    ) by {
        assert(keys.contains(keys[i]));
    }
    lemma_packages(input, keys);
    let (a, b) = (written_importers(s), written_importers(input));
    assert(a =~= b) by {
        assert forall|path: Seq<char>| g.importers.dom().contains(path) implies #[trigger] a[path]
            == b[path] by {
            let deps = g.importers[path];
            lemma_written_section(input, path, deps, DepType::Production);
            lemma_written_section(input, path, deps, DepType::Dev);
            lemma_written_section(input, path, deps, DepType::Optional);
            lemma_skipped(g.skipped_optional_dependencies[path]);
        }
    }
}

proof fn lemma_skipped(ranges: Map<Seq<char>, Seq<char>>)
    ensures
        ranges == Map::<Seq<char>, Seq<char>>::empty() ==> unless_empty(
            skipped_section(ranges),
        ) is None,
{
    if ranges == Map::<Seq<char>, Seq<char>>::empty() {
        assert(skipped_section(ranges) =~= Map::<
            Seq<char>,
            PnpmDepSpecView,
        >::empty());
    }
}

/// What is read of a written lockfile is what a lockfile keeps of the graph,
/// whatever the order of its direct dependencies and the commands of its
/// packages.
pub proof fn law_stored_graph_reads_back(input: Input)
    requires
        input.graph.packages.dom().finite(),
        is_storable(stored(input)),
    ensures
        graph_of(document_of(input)) == Ok::<LockfileGraphView, ReadErrorView>(
            stored_graph(input.graph),
        ),
{
    lemma_document(input);
    law_round_trip(stored(input));
}

proof fn lemma_of_type_concat(a: Seq<DirectDepView>, b: Seq<DirectDepView>, t: DepType)
    ensures
        of_type(a + b, t) == of_type(a, t) + of_type(b, t),
    decreases b.len(),
{
    if b.len() == 0 {
        assert(a + b =~= a);
        assert(of_type(a, t) + of_type(b, t) =~= of_type(a, t));
    } else {
        lemma_of_type_concat(a, b.drop_last(), t);
        assert((a + b).drop_last() =~= a + b.drop_last());
        assert((a + b).last() == b.last());
        assert(of_type(a + b, t) =~= of_type(a, t) + of_type(b, t));
    }
}

proof fn lemma_of_one_type(a: Seq<DirectDepView>, t: DepType, other: DepType)
    requires
        forall|i: int| 0 <= i < a.len() ==> (#[trigger] a[i]).dep_type == t,
    ensures
        of_type(a, other) == (if other == t {
            a
        } else {
            Seq::empty()
        }),
    decreases a.len(),
{
    if a.len() > 0 {
        let front = a.drop_last();
        assert forall|i: int| 0 <= i < front.len() implies (#[trigger] front[i]).dep_type == t by {
            assert(front[i] == a[i]);
        }
        lemma_of_one_type(front, t, other);
        assert(a[a.len() - 1].dep_type == t);
        assert(front.push(a.last()) =~= a);
    } else {
        assert(a =~= Seq::empty());
    }
}

/// The order of a lockfile is one.
pub proof fn law_lockfile_order(graph: LockfileGraphView, deps: Seq<DirectDepView>)
    ensures
        in_order(lockfile_order(graph, deps)),
{
    let (a, b, c) = (
        ordered(graph, deps, DepType::Production),
        ordered(graph, deps, DepType::Dev),
        ordered(graph, deps, DepType::Optional),
    );
    lemma_ordered(graph, deps, DepType::Production);
    lemma_ordered(graph, deps, DepType::Dev);
    lemma_ordered(graph, deps, DepType::Optional);
    lemma_parts(a, b, c, DepType::Production);
    lemma_parts(a, b, c, DepType::Dev);
    lemma_parts(a, b, c, DepType::Optional);
}

proof fn lemma_parts(
    a: Seq<DirectDepView>,
    b: Seq<DirectDepView>,
    c: Seq<DirectDepView>,
    t: DepType,
)
    requires
        forall|i: int| 0 <= i < a.len() ==> (#[trigger] a[i]).dep_type == DepType::Production,
        forall|i: int| 0 <= i < b.len() ==> (#[trigger] b[i]).dep_type == DepType::Dev,
        forall|i: int| 0 <= i < c.len() ==> (#[trigger] c[i]).dep_type == DepType::Optional,
    ensures
        of_type(a + b + c, t) == (match t {
            DepType::Production => a,
            DepType::Dev => b,
            DepType::Optional => c,
        }),
{
    lemma_of_type_concat(a + b, c, t);
    lemma_of_type_concat(a, b, t);
    lemma_of_one_type(a, DepType::Production, t);
    lemma_of_one_type(b, DepType::Dev, t);
    lemma_of_one_type(c, DepType::Optional, t);
    assert(of_type(a + b + c, t) =~= (match t {
        DepType::Production => a,
        DepType::Dev => b,
        DepType::Optional => c,
    }));
}

/// A version number of a registry, such as `1.2.3-beta.1+build`.
pub open spec fn is_plain_version(v: Seq<char>) -> bool {
    &&& v.len() > 0
    &&& is_digit(v[0])
    &&& !v.contains('/')
    &&& !v.contains(':')
    &&& !v.contains('@')
    &&& !v.contains('(')
}

/// A package that comes from the registry under its own name, with a version
/// number, and whose dependencies lead to version numbers.
pub open spec fn is_registry_package(key: Seq<char>, p: LockedPackageView) -> bool {
    &&& is_name(p.name)
    &&& p.dep_path == key
    &&& key == dep_path(p.name, tail(key, p.name))
    &&& until(tail(key, p.name), '(') == p.version
    &&& is_plain_version(p.version)
    &&& p.local_source is None
    &&& p.alias_of is None
    &&& p.tarball_url is None
    &&& p.dependencies.dom().finite()
    &&& p.optional_dependencies.submap_of(p.dependencies)
    &&& forall|n: Seq<char>| #[trigger]
        p.dependencies.dom().contains(n) ==> is_plain_version(until(p.dependencies[n], '('))
}

/// Whether two packages agree on all that a lockfile tells of a version apart
/// from its peers.
pub open spec fn is_same_release(a: LockedPackageView, b: LockedPackageView) -> bool {
    &&& a.integrity == b.integrity
    &&& a.engines == b.engines
    &&& a.os == b.os
    &&& a.cpu == b.cpu
    &&& a.libc == b.libc
    &&& a.bin == Map::<Seq<char>, Seq<char>>::empty() <==> b.bin == Map::<
        Seq<char>,
        Seq<char>,
    >::empty()
    &&& a.peer_dependencies == b.peer_dependencies
    &&& a.peer_dependencies_meta == b.peer_dependencies_meta
}

/// Direct dependencies with ranges, each on a package of the graph with its name,
/// and of one type no two with one name.
pub open spec fn are_registry_deps(graph: LockfileGraphView, deps: Seq<DirectDepView>) -> bool {
    &&& forall|i: int|
        0 <= i < deps.len() ==> {
            let d = #[trigger] deps[i];
            &&& d.specifier is Some
            &&& lookup(graph.packages, d.dep_path) matches Some(p) && p.name == d.name
        }
    &&& forall|i: int, j: int|
        0 <= i < j < deps.len() && (#[trigger] deps[i]).dep_type == (
        #[trigger] deps[j]).dep_type ==> deps[i].name != deps[j].name
}

/// A graph of packages that all come from the registry.
pub open spec fn is_registry_graph(graph: LockfileGraphView) -> bool {
    &&& graph.packages.dom().finite()
    &&& graph.importers.dom().finite()
    &&& graph.ignored_optional_dependencies.finite()
    &&& forall|k: Seq<char>| #[trigger]
        graph.packages.dom().contains(k) ==> is_registry_package(k, graph.packages[k])
    &&& forall|a: Seq<char>, b: Seq<char>| #[trigger]
        graph.packages.dom().contains(a) && #[trigger] graph.packages.dom().contains(b)
            && graph.packages[a].name == graph.packages[b].name && graph.packages[a].version
            == graph.packages[b].version ==> is_same_release(graph.packages[a], graph.packages[b])
    &&& forall|path: Seq<char>| #[trigger]
        graph.importers.dom().contains(path) ==> path.len() > 0 && are_registry_deps(
            graph,
            graph.importers[path],
        )
}

/// A version number names no source outside the registry.
proof fn lemma_plain_source(v: Seq<char>)
    requires
        is_plain_version(v),
    ensures
        local_source(v, false) is None,
        !is_http_url(v),
{
    reveal_strlit("git+");
    reveal_strlit("git://");
    reveal_strlit("github:");
    reveal_strlit("gitlab:");
    reveal_strlit("bitbucket:");
    reveal_strlit("https://");
    reveal_strlit("http://");
    reveal_strlit("ssh://");
    reveal_strlit("file://");
    reveal_strlit("file:");
    reveal_strlit("link:");
    assert forall|p: Seq<char>| p.len() > 0 && !is_digit(p[0]) implies !(
    #[trigger] p.is_prefix_of(v)) by {
        if p.is_prefix_of(v) {
            assert(p[0] == v[0]);
        }
    }
    let body = match split_once(v, '#') {
        Some((body, _)) => body,
        None => v,
    };
    lemma_find_char(v, '#');
    assert forall|i: int| 0 <= i < body.len() implies body[i] == v[i] by {}
    assert forall|p: Seq<char>| p.len() > 0 && !is_digit(p[0]) implies !(
    #[trigger] p.is_prefix_of(body)) by {
        if p.is_prefix_of(body) {
            assert(p[0] == body[0]);
        }
    }
    assert forall|c: char| body.contains(c) implies v.contains(c) by {
        let i = choose|i: int| 0 <= i < body.len() && body[i] == c;
        assert(v[i] == c);
    }
    assert(scp_url(body) is None) by {
        lemma_scp_needs_colon(body);
    }
    assert(!is_github_shorthand(body)) by {
        lemma_find_char(body, '/');
        if find_char(body, '/') is Some {
            assert(body.contains('/'));
        }
    }
}

proof fn lemma_scp_needs_colon(body: Seq<char>)
    requires
        !body.contains(':'),
    ensures
        scp_url(body) is None,
{
    lemma_find_char(body, ':');
}

/// What stands behind the name of a registry package is no alias.
proof fn lemma_plain_tail(n: Seq<char>, v: Seq<char>)
    requires
        is_plain_version(until(v, '(')),
    ensures
        alias_remap(n, v) is None,
{
    let bare = until(v, '(');
    lemma_find_char(bare, '@');
    lemma_find_char(bare, '(');
    assert(version_separator(bare) is None);
    assert(without_slash(bare) == bare);
    assert(dep_path_parts(bare) is None);
}

proof fn lemma_plain_direct(v: Seq<char>)
    requires
        is_plain_version(v),
    ensures
        direct_source(v) is None,
{
    lemma_find_char(v, '(');
    assert(until(v, '(') == v);
    lemma_plain_source(v);
}

proof fn lemma_registry_package(input: Input, k: Seq<char>)
    requires
        is_registry_graph(input.graph),
        input.graph.packages.dom().contains(k),
    ensures
        is_storable_package(stored(input), k, stored_package(input.graph.packages[k])),
{
    let g = input.graph;
    let p = g.packages[k];
    let s = stored(input);
    assert(is_registry_package(k, p));
    lemma_plain_source(p.version);
    assert forall|n: Seq<char>| p.dependencies.dom().contains(n) implies is_storable_value(
        s,
        n,
        #[trigger] p.dependencies[n],
    ) by {
        let v = p.dependencies[n];
        lemma_plain_tail(n, v);
        let (a, b) = (dep_path(n, v), dep_path(n, until(v, '(')));
        let c = dep_path(component(n), until(v, '('));
        if g.packages.dom().contains(a) {
            assert(is_registry_package(a, g.packages[a]));
        } else if g.packages.dom().contains(b) {
            assert(is_registry_package(b, g.packages[b]));
        } else if g.packages.dom().contains(c) {
            assert(is_registry_package(c, g.packages[c]));
        }
        assert(written_value(s, n, v) == v);
    }
    let one = opaque_bin(true);
    assert(one.dom().contains(Seq::empty()));
    assert(one != Map::<Seq<char>, Seq<char>>::empty());
}

proof fn lemma_registry_deps(input: Input, path: Seq<char>)
    requires
        is_registry_graph(input.graph),
        input.graph.importers.dom().contains(path),
    ensures
        are_storable_direct_deps(stored(input), lockfile_order(
            input.graph,
            input.graph.importers[path],
        )),
        forall|d: DirectDepView|
            lockfile_order(input.graph, input.graph.importers[path]).contains(d)
                <==> #[trigger] input.graph.importers[path].contains(d),
{
    let g = input.graph;
    let deps = g.importers[path];
    let all = lockfile_order(g, deps);
    let s = stored(input);
    law_lockfile_order(g, deps);
    assert(are_registry_deps(g, deps));
    lemma_order_members(g, deps);
    assert forall|i: int| 0 <= i < all.len() implies is_storable_dep(s, #[trigger] all[i]) by {
        let d = all[i];
        assert(all.contains(d));
        assert(deps.contains(d));
        let j = choose|j: int| 0 <= j < deps.len() && deps[j] == d;
        let p = g.packages[d.dep_path];
        assert(lookup(g.packages, deps[j].dep_path) is Some);
        assert(is_registry_package(d.dep_path, p));
        lemma_plain_direct(p.version);
        lemma_plain_tail(d.name, tail(d.dep_path, d.name));
        assert(lookup(s.graph.packages, d.dep_path) == Some(stored_package(p)));
    }
}

/// Where no two dependencies of a type have one name, the order of a lockfile
/// keeps them all.
proof fn lemma_order_members(g: LockfileGraphView, deps: Seq<DirectDepView>)
    requires
        are_registry_deps(g, deps),
        forall|k: Seq<char>| #[trigger]
            g.packages.dom().contains(k) ==> is_registry_package(k, g.packages[k]),
    ensures
        forall|d: DirectDepView|
            lockfile_order(g, deps).contains(d) <==> #[trigger] deps.contains(d),
{
    let all = lockfile_order(g, deps);
    let (a, b, c) = (
        ordered(g, deps, DepType::Production),
        ordered(g, deps, DepType::Dev),
        ordered(g, deps, DepType::Optional),
    );
    lemma_ordered(g, deps, DepType::Production);
    lemma_ordered(g, deps, DepType::Dev);
    lemma_ordered(g, deps, DepType::Optional);
    lemma_by_name(g, deps, DepType::Production);
    lemma_by_name(g, deps, DepType::Dev);
    lemma_by_name(g, deps, DepType::Optional);
    assert forall|d: DirectDepView| all.contains(d) implies #[trigger] deps.contains(d) by {
        let i = choose|i: int| 0 <= i < all.len() && all[i] == d;
        if i < a.len() {
            assert(all[i] == a[i]);
        } else if i < a.len() + b.len() {
            assert(all[i] == b[i - a.len()]);
        } else {
            assert(all[i] == c[i - a.len() - b.len()]);
        }
    }
    assert forall|d: DirectDepView| #[trigger] deps.contains(d) implies all.contains(d) by {
        let i = choose|i: int| 0 <= i < deps.len() && deps[i] == d;
        let t = d.dep_type;
        let p = g.packages[d.dep_path];
        assert(lookup(g.packages, deps[i].dep_path) is Some);
        assert(is_registry_package(d.dep_path, p));
        assert(!is_left_out(g, d));
        let m = by_name(g, deps, t);
        assert(m.dom().contains(d.name));
        let e = m[d.name];
        assert(deps.contains(e));
        let j = choose|j: int| 0 <= j < deps.len() && deps[j] == e;
        assert(i == j);
        let part = ordered(g, deps, t);
        assert(part.contains(e));
        let q = choose|q: int| 0 <= q < part.len() && part[q] == e;
        let at = if t == DepType::Production {
            q
        } else if t == DepType::Dev {
            a.len() + q
        } else {
            a.len() + b.len() + q
        };
        assert(all[at] == d);
    }
}

proof fn lemma_registry_graph(input: Input)
    requires
        is_registry_graph(input.graph),
    ensures
        is_storable(stored(input)),
{
    let g = input.graph;
    let s = stored(input);
    assert(s.graph.packages.dom() =~= g.packages.dom());
    assert(s.graph.importers.dom() =~= g.importers.dom());
    assert forall|k: Seq<char>| #[trigger]
        s.graph.packages.dom().contains(k) implies is_storable_package(
        s,
        k,
        s.graph.packages[k],
    ) by {
        lemma_registry_package(input, k);
    }
    assert forall|a: Seq<char>, b: Seq<char>| #[trigger]
        s.graph.packages.dom().contains(a) && #[trigger] s.graph.packages.dom().contains(b)
            && info_key(s, s.graph.packages[a]) == info_key(
            s,
            s.graph.packages[b],
        ) implies written_info(s, s.graph.packages[a]) == written_info(
        s,
        s.graph.packages[b],
    ) by {
        let (p, q) = (g.packages[a], g.packages[b]);
        assert(is_registry_package(a, p) && is_registry_package(b, q));
        lemma_info(input, p);
        lemma_info(input, q);
        law_dep_path_is_injective(p.name, p.version, q.name, q.version);
        assert(is_same_release(p, q));
    }
    assert forall|path: Seq<char>| #[trigger]
        s.graph.importers.dom().contains(path) implies path.len() > 0 && are_storable_direct_deps(
        s,
        s.graph.importers[path],
    ) by {
        lemma_registry_deps(input, path);
    }
}

/// A graph of registry packages comes back from its lockfile: the same packages,
/// each with all that it had but the names of its commands, and for each
/// workspace package the same direct dependencies.
pub proof fn law_registry_graph_reads_back(input: Input)
    requires
        is_registry_graph(input.graph),
    ensures
        graph_of(document_of(input)) matches Ok(h) && {
            let g = input.graph;
            &&& h.packages.dom() == g.packages.dom()
            &&& forall|k: Seq<char>| #[trigger]
                g.packages.dom().contains(k) ==> h.packages[k] == stored_package(g.packages[k])
            &&& h.importers.dom() == g.importers.dom()
            &&& forall|path: Seq<char>, d: DirectDepView|
                g.importers.dom().contains(path) ==> (h.importers[path].contains(d)
                    <==> #[trigger] g.importers[path].contains(d))
        },
{
    let g = input.graph;
    let h = stored_graph(g);
    lemma_registry_graph(input);
    law_stored_graph_reads_back(input);
    assert(h.packages.dom() =~= g.packages.dom());
    assert(h.importers.dom() =~= g.importers.dom());
    assert forall|path: Seq<char>, d: DirectDepView|
        g.importers.dom().contains(path) implies (h.importers[path].contains(d)
        <==> #[trigger] g.importers[path].contains(d)) by {
        lemma_registry_deps(input, path);
    }
}

} // verus!
