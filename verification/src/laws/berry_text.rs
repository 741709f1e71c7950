//! How the text of a berry `yarn.lock` spells out its entries.
use vstd::prelude::*;
use crate::graph::{LockedPackageView, LockfileGraphView, PeerDepMetaView};
use crate::laws::berry::{
    berry_entries, block_entry, dep_entries, entry, meta_entries, meta_entries_of, meta_value,
    metadata_entry, peer_entries, section_field, text_entries, text_field, Packages,
};
use crate::manifest::Ranges;
use crate::strmap::{lemma_listing, sorted_keys};
use crate::text::join;
use crate::yaml::{YamlEntries, YamlView};
use crate::yarn::berry_write::{
    berry_block_text, berry_blocks_text, berry_dep_lines, berry_deps_text, berry_extra_specs,
    berry_header_specs, berry_text, checksum_text, dep_body, entry_line, escaped, exact_spec,
    link_type, meta_lines, meta_text, peer_lines, peers_text, quoted,
};
use crate::yarn::canonical::{canonical, edge_key};

verus! {

/// The characters of a text with a backslash in front of each backslash and each double
/// quote.
pub open spec fn guarded(s: Seq<char>) -> Seq<char>
    decreases s.len(),
{
    if s.len() == 0 {
        Seq::empty()
    } else {
        (if s[0] == '\\' || s[0] == '"' {
            seq!['\\', s[0]]
        } else {
            seq![s[0]]
        }) + guarded(s.drop_first())
    }
}

/// A text between double quotes.
pub open spec fn in_quotes(s: Seq<char>) -> Seq<char> {
    seq!['"'] + guarded(s) + seq!['"']
}

proof fn lemma_guarded_push(s: Seq<char>, c: char)
    ensures
        guarded(s.push(c)) == guarded(s) + (if c == '\\' || c == '"' {
            seq!['\\', c]
        } else {
            seq![c]
        }),
    decreases s.len(),
{
    let t = s.push(c);
    if s.len() == 0 {
        assert(t[0] == c);
        assert(t.drop_first() =~= Seq::empty());
        assert(guarded(t.drop_first()) =~= Seq::empty());
        assert(guarded(t) =~= guarded(s) + (if c == '\\' || c == '"' {
            seq!['\\', c]
        } else {
            seq![c]
        }));
    } else {
        assert(t[0] == s[0]);
        assert(t.drop_first() =~= s.drop_first().push(c));
        lemma_guarded_push(s.drop_first(), c);
        assert(guarded(t) =~= guarded(s) + (if c == '\\' || c == '"' {
            seq!['\\', c]
        } else {
            seq![c]
        }));
    }
}

proof fn lemma_escaped(s: Seq<char>)
    ensures
        escaped(s) == guarded(s),
    decreases s.len(),
{
    if s.len() > 0 {
        lemma_escaped(s.drop_last());
        lemma_guarded_push(s.drop_last(), s.last());
        assert(s.drop_last().push(s.last()) =~= s);
        assert(escaped(s) =~= guarded(s));
    }
}

/// A scalar is written between double quotes, with a backslash in front of each backslash
/// and each double quote.
pub proof fn law_scalars_are_quoted(s: Seq<char>)
    ensures
        quoted(s) == in_quotes(s),
{
    reveal_strlit("\"");
    assert("\""@ =~= seq!['"']);
    lemma_escaped(s);
}

/// The line of an entry of a section.
pub open spec fn inner_line(e: (YamlView, YamlView)) -> Seq<char> {
    match e {
        (YamlView::String(k), YamlView::String(v)) => "    "@ + in_quotes(k) + ": "@ + in_quotes(v)
            + "\n"@,
        (YamlView::String(k), YamlView::Mapping(m)) => "    "@ + in_quotes(k)
            + ":\n      optional: "@ + (if m.contains(
            (YamlView::String("optional"@), YamlView::Bool(true)),
        ) {
            "true"@
        } else {
            "false"@
        }) + "\n"@,
        _ => Seq::empty(),
    }
}

/// The lines of the entries of a section.
pub open spec fn inner_lines(e: YamlEntries) -> Seq<char>
    decreases e.len(),
{
    if e.len() == 0 {
        Seq::empty()
    } else {
        inner_lines(e.drop_last()) + inner_line(e.last())
    }
}

/// The lines of a field of a block.
pub open spec fn field_lines(e: (YamlView, YamlView)) -> Seq<char> {
    match e {
        (YamlView::String(k), YamlView::String(v)) => if k == "languageName"@ || k == "linkType"@ {
            "  "@ + k + ": "@ + v + "\n"@
        } else {
            "  "@ + k + ": "@ + in_quotes(v) + "\n"@
        },
        (YamlView::String(k), YamlView::Mapping(m)) => "  "@ + k + ":\n"@ + inner_lines(m),
        _ => Seq::empty(),
    }
}

/// The lines of the fields of a block.
pub open spec fn fields_text(e: YamlEntries) -> Seq<char>
    decreases e.len(),
{
    if e.len() == 0 {
        Seq::empty()
    } else {
        fields_text(e.drop_last()) + field_lines(e.last())
    }
}

/// A block: its header, its fields and a blank line.
pub open spec fn block_lines(e: (YamlView, YamlView)) -> Seq<char> {
    match e {
        (YamlView::String(header), YamlView::Mapping(m)) => in_quotes(header) + ":\n"@ + fields_text(
            m,
        ) + "\n"@,
        _ => Seq::empty(),
    }
}

/// Some blocks.
pub open spec fn all_block_lines(e: YamlEntries) -> Seq<char>
    decreases e.len(),
{
    if e.len() == 0 {
        Seq::empty()
    } else {
        all_block_lines(e.drop_last()) + block_lines(e.last())
    }
}

proof fn lemma_fields_concat(a: YamlEntries, b: YamlEntries)
    ensures
        fields_text(a + b) == fields_text(a) + fields_text(b),
    decreases b.len(),
{
    if b.len() == 0 {
        assert(a + b =~= a);
        assert(fields_text(a) + fields_text(b) =~= fields_text(a));
    } else {
        assert((a + b).drop_last() =~= a + b.drop_last());
        assert((a + b).last() == b.last());
        lemma_fields_concat(a, b.drop_last());
        assert(fields_text(a) + (fields_text(b.drop_last()) + field_lines(b.last()))
            =~= fields_text(a) + fields_text(b.drop_last()) + field_lines(b.last()));
    }
}

proof fn lemma_one_field(e: (YamlView, YamlView))
    ensures
        fields_text(seq![e]) == field_lines(e),
{
    assert(seq![e].drop_last() =~= Seq::empty());
    assert(seq![e].last() == e);
    assert(fields_text(seq![e].drop_last()) =~= Seq::empty());
    assert(Seq::<char>::empty() + field_lines(e) =~= field_lines(e));
}

proof fn lemma_entry_line(name: Seq<char>, value: Seq<char>)
    ensures
        entry_line(name, value) == inner_line(entry(name, YamlView::String(value))),
        entry_line(name, value).len() > 0,
{
    law_scalars_are_quoted(name);
    law_scalars_are_quoted(value);
    reveal_strlit("    ");
}

proof fn lemma_dep_lines(
    packages: Packages,
    declared: Map<Seq<char>, Seq<char>>,
    deps: Map<Seq<char>, Seq<char>>,
    names: Seq<Seq<char>>,
)
    ensures
        berry_dep_lines(packages, declared, deps, names) == inner_lines(
            dep_entries(packages, declared, deps, names),
        ),
        dep_entries(packages, declared, deps, names).len() == 0 <==> berry_dep_lines(
            packages,
            declared,
            deps,
            names,
        ).len() == 0,
    decreases names.len(),
{
    if names.len() > 0 {
        let front = names.drop_last();
        let name = names.last();
        lemma_dep_lines(packages, declared, deps, front);
        if let Some(key) = edge_key(packages, name, deps[name]) {
            let body = dep_body(declared, packages[key], name, deps[name]);
            let before = dep_entries(packages, declared, deps, front);
            let e = entry(name, YamlView::String(body));
            assert(before.push(e).drop_last() =~= before);
            assert(before.push(e).last() == e);
            lemma_entry_line(name, body);
        }
    }
}

proof fn lemma_deps_field(
    section: Seq<char>,
    packages: Packages,
    declared: Map<Seq<char>, Seq<char>>,
    deps: Map<Seq<char>, Seq<char>>,
)
    ensures
        berry_deps_text(section, packages, declared, deps) == fields_text(
            section_field(
                section,
                dep_entries(packages, declared, deps, sorted_keys(deps.dom())),
            ),
        ),
{
    let names = sorted_keys(deps.dom());
    lemma_dep_lines(packages, declared, deps, names);
    let m = dep_entries(packages, declared, deps, names);
    if m.len() > 0 {
        lemma_one_field(entry(section, YamlView::Mapping(m)));
    }
}

proof fn lemma_peer_lines(peers: Map<Seq<char>, Seq<char>>, names: Seq<Seq<char>>)
    ensures
        peer_lines(peers, names) == inner_lines(text_entries(names, peers)),
    decreases names.len(),
{
    let e = text_entries(names, peers);
    if names.len() > 0 {
        lemma_peer_lines(peers, names.drop_last());
        assert(e.drop_last() =~= text_entries(names.drop_last(), peers));
        assert(e.last() == entry(names.last(), YamlView::String(peers[names.last()])));
        lemma_entry_line(names.last(), peers[names.last()]);
    }
}

proof fn lemma_empty_map<V>(m: Map<Seq<char>, V>)
    requires
        m.dom().finite(),
    ensures
        m == Map::<Seq<char>, V>::empty() <==> sorted_keys(m.dom()).len() == 0,
{
    let q = sorted_keys(m.dom());
    lemma_listing(m.dom());
    if q.len() > 0 {
        assert(q.contains(q[0]));
        assert(m.dom().contains(q[0]));
    } else {
        assert forall|k: Seq<char>| !(#[trigger] m.dom().contains(k)) by {
            assert(m.dom().contains(k) <==> q.contains(k));
        }
        assert(m =~= Map::<Seq<char>, V>::empty());
    }
}

proof fn lemma_peers_field(peers: Map<Seq<char>, Seq<char>>)
    requires
        peers.dom().finite(),
    ensures
        peers_text(peers) == fields_text(section_field("peerDependencies"@, peer_entries(peers))),
{
    let names = sorted_keys(peers.dom());
    lemma_empty_map(peers);
    lemma_peer_lines(peers, names);
    let m = peer_entries(peers);
    if m.len() > 0 {
        lemma_one_field(entry("peerDependencies"@, YamlView::Mapping(m)));
        reveal_strlit("  peerDependencies:\n");
        reveal_strlit("peerDependencies");
        reveal_strlit("  ");
        reveal_strlit(":\n");
        assert("  peerDependencies:\n"@ =~= "  "@ + "peerDependencies"@ + ":\n"@);
    }
}

proof fn lemma_meta_lines(meta: Map<Seq<char>, PeerDepMetaView>, names: Seq<Seq<char>>)
    ensures
        meta_lines(meta, names) == inner_lines(meta_entries_of(names, meta)),
    decreases names.len(),
{
    let e = meta_entries_of(names, meta);
    if names.len() > 0 {
        let name = names.last();
        lemma_meta_lines(meta, names.drop_last());
        assert(e.drop_last() =~= meta_entries_of(names.drop_last(), meta));
        assert(e.last() == entry(name, meta_value(meta[name])));
        law_scalars_are_quoted(name);
        let inner = seq![entry("optional"@, YamlView::Bool(meta[name].optional))];
        assert(inner[0] == (YamlView::String("optional"@), YamlView::Bool(meta[name].optional)));
        assert(inner.contains((YamlView::String("optional"@), YamlView::Bool(true)))
            == meta[name].optional) by {
            if meta[name].optional {
                assert(inner.contains(inner[0]));
            }
        }
        let front = meta_lines(meta, names.drop_last());
        let flag = if meta[name].optional {
            "true"@
        } else {
            "false"@
        };
        assert(front + "    "@ + quoted(name) + ":\n      optional: "@ + flag + "\n"@ =~= front + (
        "    "@ + quoted(name) + ":\n      optional: "@ + flag + "\n"@));
    }
}

proof fn lemma_meta_field(meta: Map<Seq<char>, PeerDepMetaView>)
    requires
        meta.dom().finite(),
    ensures
        meta_text(meta) == fields_text(section_field("peerDependenciesMeta"@, meta_entries(meta))),
{
    let names = sorted_keys(meta.dom());
    lemma_empty_map(meta);
    lemma_meta_lines(meta, names);
    let m = meta_entries(meta);
    if m.len() > 0 {
        lemma_one_field(entry("peerDependenciesMeta"@, YamlView::Mapping(m)));
        reveal_strlit("  peerDependenciesMeta:\n");
        reveal_strlit("peerDependenciesMeta");
        reveal_strlit("  ");
        reveal_strlit(":\n");
        assert("  peerDependenciesMeta:\n"@ =~= "  "@ + "peerDependenciesMeta"@ + ":\n"@);
    }
}

proof fn lemma_words()
    ensures
        "version"@ != "languageName"@ && "version"@ != "linkType"@,
        "resolution"@ != "languageName"@ && "resolution"@ != "linkType"@,
        "checksum"@ != "languageName"@ && "checksum"@ != "linkType"@,
{
    reveal_strlit("version");
    reveal_strlit("resolution");
    reveal_strlit("checksum");
    reveal_strlit("languageName");
    reveal_strlit("linkType");
    assert("version"@[0] == 'v' && "resolution"@[0] == 'r' && "checksum"@[0] == 'c'
        && "languageName"@[0] == 'l' && "linkType"@[0] == 'l');
}

proof fn lemma_head(pkg: LockedPackageView, header: Seq<char>)
    ensures
        quoted(header) + ":\n  version: "@ + quoted(pkg.version) + "\n  resolution: "@ + quoted(
            exact_spec(pkg),
        ) + "\n"@ == in_quotes(header) + ":\n"@ + (fields_text(
            text_field("version"@, Some(pkg.version)),
        ) + fields_text(text_field("resolution"@, Some(exact_spec(pkg))))),
{
    lemma_words();
    law_scalars_are_quoted(header);
    law_scalars_are_quoted(pkg.version);
    law_scalars_are_quoted(exact_spec(pkg));
    lemma_one_field(entry("version"@, YamlView::String(pkg.version)));
    lemma_one_field(entry("resolution"@, YamlView::String(exact_spec(pkg))));
    reveal_strlit(":\n  version: ");
    reveal_strlit("\n  resolution: ");
    reveal_strlit(":\n");
    reveal_strlit("\n");
    reveal_strlit("  ");
    reveal_strlit(": ");
    reveal_strlit("version");
    reveal_strlit("resolution");
    assert(":\n  version: "@ =~= ":\n"@ + ("  "@ + "version"@ + ": "@));
    assert("\n  resolution: "@ =~= "\n"@ + ("  "@ + "resolution"@ + ": "@));
    let (h, v, r) = (in_quotes(header), in_quotes(pkg.version), in_quotes(exact_spec(pkg)));
    assert(h + ":\n  version: "@ + v + "\n  resolution: "@ + r + "\n"@ =~= h + ":\n"@ + (("  "@
        + "version"@ + ": "@ + v + "\n"@) + ("  "@ + "resolution"@ + ": "@ + r + "\n"@)));
}

proof fn lemma_tail(pkg: LockedPackageView)
    ensures
        checksum_text(pkg.yarn_checksum) + "  languageName: node\n  linkType: "@ + link_type(pkg)
            + "\n\n"@ == fields_text(text_field("checksum"@, pkg.yarn_checksum)) + fields_text(
            text_field("languageName"@, Some("node"@)),
        ) + fields_text(text_field("linkType"@, Some(link_type(pkg)))) + "\n"@,
{
    lemma_words();
    if let Some(c) = pkg.yarn_checksum {
        law_scalars_are_quoted(c);
        lemma_one_field(entry("checksum"@, YamlView::String(c)));
        reveal_strlit("  checksum: ");
        reveal_strlit("checksum");
        reveal_strlit("  ");
        reveal_strlit(": ");
        assert("  checksum: "@ =~= "  "@ + "checksum"@ + ": "@);
    } else {
        assert(text_field("checksum"@, pkg.yarn_checksum) =~= Seq::empty());
    }
    lemma_one_field(entry("languageName"@, YamlView::String("node"@)));
    lemma_one_field(entry("linkType"@, YamlView::String(link_type(pkg))));
    reveal_strlit("  languageName: node\n  linkType: ");
    reveal_strlit("languageName");
    reveal_strlit("linkType");
    reveal_strlit("node");
    reveal_strlit("\n\n");
    reveal_strlit("\n");
    reveal_strlit("  ");
    reveal_strlit(": ");
    let a = fields_text(text_field("checksum"@, pkg.yarn_checksum));
    let t = link_type(pkg);
    assert("  languageName: node\n  linkType: "@ =~= ("  "@ + "languageName"@ + ": "@ + "node"@
        + "\n"@) + ("  "@ + "linkType"@ + ": "@));
    assert(a + "  languageName: node\n  linkType: "@ + t + "\n\n"@ =~= a + ("  "@ + "languageName"@
        + ": "@ + "node"@ + "\n"@) + ("  "@ + "linkType"@ + ": "@ + t + "\n"@) + "\n"@);
}

proof fn lemma_block(packages: Packages, extras: Map<Seq<char>, Set<Seq<char>>>, key: Seq<char>)
    requires
        packages[key].peer_dependencies.dom().finite(),
        packages[key].peer_dependencies_meta.dom().finite(),
    ensures
        berry_block_text(packages, extras, key) == block_lines(block_entry(packages, extras, key)),
{
    let pkg = packages[key];
    let header = join(berry_header_specs(key, pkg, extras), ", "@);
    let deps = dep_entries(
        packages,
        pkg.declared_dependencies,
        pkg.dependencies,
        sorted_keys(pkg.dependencies.dom()),
    );
    let optional = dep_entries(
        packages,
        pkg.declared_dependencies,
        pkg.optional_dependencies,
        sorted_keys(pkg.optional_dependencies.dom()),
    );
    let (a, b) = (
        text_field("version"@, Some(pkg.version)),
        text_field("resolution"@, Some(exact_spec(pkg))),
    );
    let (c, d, e, f) = (
        section_field("dependencies"@, deps),
        section_field("optionalDependencies"@, optional),
        section_field("peerDependencies"@, peer_entries(pkg.peer_dependencies)),
        section_field("peerDependenciesMeta"@, meta_entries(pkg.peer_dependencies_meta)),
    );
    let (g, h, i) = (
        text_field("checksum"@, pkg.yarn_checksum),
        text_field("languageName"@, Some("node"@)),
        text_field("linkType"@, Some(link_type(pkg))),
    );
    lemma_head(pkg, header);
    lemma_tail(pkg);
    lemma_deps_field("dependencies"@, packages, pkg.declared_dependencies, pkg.dependencies);
    lemma_deps_field(
        "optionalDependencies"@,
        packages,
        pkg.declared_dependencies,
        pkg.optional_dependencies,
    );
    lemma_peers_field(pkg.peer_dependencies);
    lemma_meta_field(pkg.peer_dependencies_meta);
    lemma_nine_fields(a, b, c, d, e, f, g, h, i);
    let head = in_quotes(header) + ":\n"@;
    lemma_nine_texts(
        head,
        fields_text(a) + fields_text(b),
        fields_text(c),
        fields_text(d),
        fields_text(e),
        fields_text(f),
        fields_text(g) + fields_text(h) + fields_text(i),
        "\n"@,
    );
    let (tg, th, ti) = (fields_text(g), fields_text(h), fields_text(i));
    let most = fields_text(a) + fields_text(b) + fields_text(c) + fields_text(d) + fields_text(e)
        + fields_text(f);
    assert(most + (tg + th + ti) == most + tg + th + ti) by {
        lemma_three(most, tg, th, ti);
    }
}

proof fn lemma_three(m: Seq<char>, a: Seq<char>, b: Seq<char>, c: Seq<char>)
    ensures
        m + (a + b + c) == m + a + b + c,
{
    assert(m + (a + b + c) =~= m + a + b + c);
}

proof fn lemma_nine_texts(
    head: Seq<char>,
    a: Seq<char>,
    c: Seq<char>,
    d: Seq<char>,
    e: Seq<char>,
    f: Seq<char>,
    g: Seq<char>,
    n: Seq<char>,
)
    ensures
        head + a + c + d + e + f + (g + n) == head + (a + c + d + e + f + g) + n,
{
    assert(head + a + c + d + e + f + (g + n) =~= head + (a + c + d + e + f + g) + n);
}

proof fn lemma_nine_fields(
    a: YamlEntries,
    b: YamlEntries,
    c: YamlEntries,
    d: YamlEntries,
    e: YamlEntries,
    f: YamlEntries,
    g: YamlEntries,
    h: YamlEntries,
    i: YamlEntries,
)
    ensures
        fields_text(a + b + c + d + e + f + g + h + i) == fields_text(a) + fields_text(b)
            + fields_text(c) + fields_text(d) + fields_text(e) + fields_text(f) + fields_text(g)
            + fields_text(h) + fields_text(i),
{
    lemma_fields_concat(a, b);
    lemma_fields_concat(a + b, c);
    lemma_fields_concat(a + b + c, d);
    lemma_fields_concat(a + b + c + d, e);
    lemma_fields_concat(a + b + c + d + e, f);
    lemma_fields_concat(a + b + c + d + e + f, g);
    lemma_fields_concat(a + b + c + d + e + f + g, h);
    lemma_fields_concat(a + b + c + d + e + f + g + h, i);
}

proof fn lemma_blocks(
    packages: Packages,
    extras: Map<Seq<char>, Set<Seq<char>>>,
    keys: Seq<Seq<char>>,
)
    requires
        forall|i: int|
            0 <= i < keys.len() ==> packages[#[trigger] keys[i]].peer_dependencies.dom().finite()
                && packages[keys[i]].peer_dependencies_meta.dom().finite(),
    ensures
        berry_blocks_text(packages, extras, keys) == all_block_lines(
            keys.map_values(|k: Seq<char>| block_entry(packages, extras, k)),
        ),
    decreases keys.len(),
{
    let e = keys.map_values(|k: Seq<char>| block_entry(packages, extras, k));
    if keys.len() > 0 {
        let front = keys.drop_last();
        assert forall|i: int| 0 <= i < front.len() implies packages[
        #[trigger] front[i]].peer_dependencies.dom().finite()
            && packages[front[i]].peer_dependencies_meta.dom().finite() by {
            assert(front[i] == keys[i]);
        }
        lemma_blocks(packages, extras, front);
        assert(e.drop_last() =~= front.map_values(
            |k: Seq<char>| block_entry(packages, extras, k),
        ));
        assert(keys[keys.len() - 1] == keys.last());
        assert(e.last() == block_entry(packages, extras, keys.last()));
        lemma_block(packages, extras, keys.last());
    }
}

/// The text of a berry lockfile spells out each of its entries, in their order and in
/// full: behind the notice and the metadata each package has a block with its header and
/// all its fields, and each section has a line for each of its entries.
pub proof fn law_text_spells_the_entries(graph: LockfileGraphView, ranges: Ranges)
    requires
        graph.packages.dom().finite(),
        forall|k: Seq<char>| #[trigger]
            canonical(graph).dom().contains(k) ==> canonical(
                graph,
            )[k].peer_dependencies.dom().finite() && canonical(
                graph,
            )[k].peer_dependencies_meta.dom().finite(),
        canonical(graph).dom().finite(),
    ensures
        berry_text(graph, ranges)
            == "# This file is generated by running \"yarn install\" inside your project.\n"@
            + "# Manual changes might be lost - proceed with caution!\n\n"@
            + "__metadata:\n  version: 8\n  cacheKey: 10c0\n\n"@ + all_block_lines(
            berry_entries(graph, ranges).skip(1),
        ),
        berry_entries(graph, ranges)[0] == metadata_entry(),
        berry_entries(graph, ranges).len() == sorted_keys(canonical(graph).dom()).len() + 1,
{
    let packages = canonical(graph);
    let extras = berry_extra_specs(graph, ranges);
    let keys = sorted_keys(packages.dom());
    lemma_listing(packages.dom());
    assert forall|i: int| 0 <= i < keys.len() implies packages[
    #[trigger] keys[i]].peer_dependencies.dom().finite()
        && packages[keys[i]].peer_dependencies_meta.dom().finite() by {
        assert(keys.contains(keys[i]));
        assert(packages.dom().contains(keys[i]));
    }
    lemma_blocks(packages, extras, keys);
    let blocks = keys.map_values(|k: Seq<char>| block_entry(packages, extras, k));
    assert(berry_entries(graph, ranges).skip(1) =~= blocks);
}

} // verus!
