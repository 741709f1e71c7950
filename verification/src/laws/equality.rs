//! When two values are taken for the same.
use vstd::prelude::*;
use crate::json::{Entries, JsonView};
use crate::yaml::{YamlEntries, YamlView};

verus! {

/// Two JSON values are the same only where they are of one kind. Texts and booleans are
/// where they are equal, arrays where their items are in turn.
pub proof fn law_json_values(
    a: JsonView,
    b: JsonView,
    s: Seq<char>,
    t: Seq<char>,
    x: Seq<JsonView>,
    y: Seq<JsonView>,
)
    ensures
        crate::json::equal(JsonView::String(s), JsonView::String(t)) <==> s == t,
        crate::json::equal(a, b) && a is String ==> b == a,
        crate::json::equal(a, b) && a is Bool ==> b == a,
        crate::json::equal(a, b) && a is Null ==> b == a,
        crate::json::equal(a, b) && a is Number ==> b is Number,
        crate::json::equal(a, b) && a is Array ==> b is Array,
        crate::json::equal(a, b) && a is Object ==> b is Object,
        crate::json::equal(JsonView::Array(x), JsonView::Array(y)) <==> x.len() == y.len()
            && forall|i: int| 0 <= i < x.len() ==> crate::json::equal(#[trigger] x[i], y[i]),
{
    assert(JsonView::Array(x)->Array_0 == x && JsonView::Array(y)->Array_0 == y);
}

/// Whether a JSON object has an entry that is the same as a given one.
pub open spec fn has_same_entry(y: Entries, k: Seq<char>, v: JsonView) -> bool {
    exists|i: int| 0 <= i < y.len() && (#[trigger] y[i]).0 == k && crate::json::equal(v, y[i].1)
}

proof fn lemma_json_entry(e: (Seq<char>, JsonView), y: Entries, from: int)
    requires
        0 <= from,
    ensures
        crate::json::has_entry_from(e, y, from) <==> exists|i: int|
            from <= i < y.len() && (#[trigger] y[i]).0 == e.0 && crate::json::equal(e.1, y[i].1),
    decreases y.len() - from,
{
    if from < y.len() {
        lemma_json_entry(e, y, from + 1);
        if e.0 == y[from].0 && crate::json::equal(e.1, y[from].1) {
            assert(y[from].0 == e.0);
        }
    }
}

/// Two JSON objects are the same where they have as many entries, and each entry of the
/// one is an entry of the other, in whatever order.
pub proof fn law_json_objects(x: Entries, y: Entries)
    ensures
        crate::json::equal(JsonView::Object(x), JsonView::Object(y)) <==> x.len() == y.len()
            && forall|i: int|
            0 <= i < x.len() ==> has_same_entry(y, (#[trigger] x[i]).0, x[i].1),
{
    assert(JsonView::Object(x)->Object_0 == x && JsonView::Object(y)->Object_0 == y);
    assert forall|i: int| 0 <= i < x.len() implies crate::json::has_entry_from(x[i], y, 0)
        == has_same_entry(y, (#[trigger] x[i]).0, x[i].1) by {
        lemma_json_entry(x[i], y, 0);
    }
    if x.len() == y.len() && forall|i: int|
        0 <= i < x.len() ==> has_same_entry(y, (#[trigger] x[i]).0, x[i].1) {
        assert forall|i: int| 0 <= i < x.len() implies crate::json::has_entry_from(
            #[trigger] x[i],
            y,
            0,
        ) by {
            assert(has_same_entry(y, x[i].0, x[i].1));
        }
    }
    if crate::json::equal(JsonView::Object(x), JsonView::Object(y)) {
        assert forall|i: int| 0 <= i < x.len() implies has_same_entry(
            y,
            (#[trigger] x[i]).0,
            x[i].1,
        ) by {
            assert(crate::json::has_entry_from(x[i], y, 0));
        }
    }
}

/// Two YAML values are the same only where they are of one kind. Texts and booleans are
/// where they are equal, sequences where their items are in turn, and values with a tag
/// where the tags are equal and the values the same.
pub proof fn law_yaml_values(
    a: YamlView,
    b: YamlView,
    s: Seq<char>,
    t: Seq<char>,
    x: Seq<YamlView>,
    y: Seq<YamlView>,
)
    ensures
        crate::yaml::equal(YamlView::String(s), YamlView::String(t)) <==> s == t,
        crate::yaml::equal(a, b) && a is String ==> b == a,
        crate::yaml::equal(a, b) && a is Bool ==> b == a,
        crate::yaml::equal(a, b) && a is Null ==> b == a,
        crate::yaml::equal(a, b) && a is Number ==> b is Number,
        crate::yaml::equal(a, b) && a is Sequence ==> b is Sequence,
        crate::yaml::equal(a, b) && a is Mapping ==> b is Mapping,
        crate::yaml::equal(
            YamlView::Tagged(s, Box::new(a)),
            YamlView::Tagged(t, Box::new(b)),
        ) <==> s == t && crate::yaml::equal(a, b),
        crate::yaml::equal(YamlView::Sequence(x), YamlView::Sequence(y)) <==> x.len() == y.len()
            && forall|i: int| 0 <= i < x.len() ==> crate::yaml::equal(#[trigger] x[i], y[i]),
{
    assert(YamlView::Sequence(x)->Sequence_0 == x && YamlView::Sequence(y)->Sequence_0 == y);
}

/// Whether a YAML mapping has an entry that is the same as a given one.
pub open spec fn has_same_pair(y: YamlEntries, k: YamlView, v: YamlView) -> bool {
    exists|i: int|
        0 <= i < y.len() && crate::yaml::equal(k, (#[trigger] y[i]).0) && crate::yaml::equal(
            v,
            y[i].1,
        )
}

proof fn lemma_yaml_entry(e: (YamlView, YamlView), y: YamlEntries, from: int)
    requires
        0 <= from,
    ensures
        crate::yaml::has_entry_from(e, y, from) <==> exists|i: int|
            from <= i < y.len() && crate::yaml::equal(e.0, (#[trigger] y[i]).0)
                && crate::yaml::equal(e.1, y[i].1),
    decreases y.len() - from,
{
    if from < y.len() {
        lemma_yaml_entry(e, y, from + 1);
        if crate::yaml::equal(e.0, y[from].0) && crate::yaml::equal(e.1, y[from].1) {
            assert(crate::yaml::equal(e.0, y[from].0));
        }
    }
}

/// Two YAML mappings are the same where they have as many entries, and each entry of the
/// one is an entry of the other, in whatever order.
pub proof fn law_yaml_mappings(x: YamlEntries, y: YamlEntries)
    ensures
        crate::yaml::equal(YamlView::Mapping(x), YamlView::Mapping(y)) <==> x.len() == y.len()
            && forall|i: int|
            0 <= i < x.len() ==> has_same_pair(y, (#[trigger] x[i]).0, x[i].1),
{
    assert(YamlView::Mapping(x)->Mapping_0 == x && YamlView::Mapping(y)->Mapping_0 == y);
    if x.len() == y.len() && forall|i: int|
        0 <= i < x.len() ==> has_same_pair(y, (#[trigger] x[i]).0, x[i].1) {
        assert forall|i: int| 0 <= i < x.len() implies crate::yaml::has_entry_from(
            #[trigger] x[i],
            y,
            0,
        ) by {
            lemma_yaml_entry(x[i], y, 0);
            assert(has_same_pair(y, x[i].0, x[i].1));
        }
    }
    if crate::yaml::equal(YamlView::Mapping(x), YamlView::Mapping(y)) {
        assert forall|i: int| 0 <= i < x.len() implies has_same_pair(
            y,
            (#[trigger] x[i]).0,
            x[i].1,
        ) by {
            lemma_yaml_entry(x[i], y, 0);
            assert(crate::yaml::has_entry_from(x[i], y, 0));
        }
    }
}

} // verus!
