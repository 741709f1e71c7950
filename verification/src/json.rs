//! JSON values as plain data.
use vstd::prelude::*;
use crate::strmap::Dup;
use crate::text::same;

verus! {

/// `serde_json::Number`. Numbers are carried through, never looked into.
#[verifier::external_type_specification]
#[verifier::external_body]
pub struct ExJsonNumber(serde_json::Number);

/// A JSON value.
#[derive(Debug)]
pub enum Json {
    Null,
    Bool(bool),
    Number(serde_json::Number),
    String(String),
    Array(Vec<Json>),
    /// Entries in the order of the document.
    Object(Vec<(String, Json)>),
}

/// Model of [`Json`].
pub enum JsonView {
    Null,
    Bool(bool),
    Number(serde_json::Number),
    String(Seq<char>),
    Array(Seq<JsonView>),
    Object(Seq<(Seq<char>, JsonView)>),
}

/// The entries of an object.
pub type Entries = Seq<(Seq<char>, JsonView)>;

/// The model of a value.
pub open spec fn tree(j: Json) -> JsonView
    decreases j,
{
    match j {
        Json::Null => JsonView::Null,
        Json::Bool(b) => JsonView::Bool(b),
        Json::Number(n) => JsonView::Number(n),
        Json::String(s) => JsonView::String(s@),
        Json::Array(items) => JsonView::Array(
            Seq::new(
                items@.len(),
                |i: int|
                    if 0 <= i < items@.len() {
                        tree(items@[i])
                    } else {
                        JsonView::Null
                    },
            ),
        ),
        Json::Object(entries) => JsonView::Object(
            Seq::new(
                entries@.len(),
                |i: int|
                    if 0 <= i < entries@.len() {
                        (entries@[i].0@, tree(entries@[i].1))
                    } else {
                        (Seq::empty(), JsonView::Null)
                    },
            ),
        ),
    }
}

impl DeepView for Json {
    type V = JsonView;

    open spec fn deep_view(&self) -> JsonView {
        tree(*self)
    }
}

/// The model of a list of values.
pub open spec fn trees(items: Seq<Json>) -> Seq<JsonView> {
    items.map_values(|j: Json| tree(j))
}

/// The model of a list of entries.
pub open spec fn entry_trees(entries: Seq<(String, Json)>) -> Entries {
    entries.map_values(|e: (String, Json)| (e.0@, tree(e.1)))
}

pub proof fn lemma_array_tree(items: Vec<Json>)
    ensures
        tree(Json::Array(items)) == JsonView::Array(trees(items@)),
{
    assert(tree(Json::Array(items))->Array_0 =~= trees(items@));
}

pub proof fn lemma_object_tree(entries: Vec<(String, Json)>)
    ensures
        tree(Json::Object(entries)) == JsonView::Object(entry_trees(entries@)),
{
    assert(tree(Json::Object(entries))->Object_0 =~= entry_trees(entries@));
}

/// The entries of an object.
pub open spec fn object(j: JsonView) -> Option<Entries> {
    match j {
        JsonView::Object(entries) => Some(entries),
        _ => None,
    }
}

/// The items of an array.
pub open spec fn array(j: JsonView) -> Option<Seq<JsonView>> {
    match j {
        JsonView::Array(items) => Some(items),
        _ => None,
    }
}

/// The text of a string.
pub open spec fn text(j: JsonView) -> Option<Seq<char>> {
    match j {
        JsonView::String(s) => Some(s),
        _ => None,
    }
}

/// The position of a key among entries from `from` on.
pub open spec fn find_key_from(entries: Entries, key: Seq<char>, from: int) -> Option<int>
    decreases entries.len() - from,
{
    if from < 0 || from >= entries.len() {
        None
    } else if entries[from].0 == key {
        Some(from)
    } else {
        find_key_from(entries, key, from + 1)
    }
}

/// The position of a key.
pub open spec fn find_key(entries: Entries, key: Seq<char>) -> Option<int> {
    find_key_from(entries, key, 0)
}

/// The value of a key.
pub open spec fn get(entries: Entries, key: Seq<char>) -> Option<JsonView> {
    match find_key(entries, key) {
        Some(i) => Some(entries[i].1),
        None => None,
    }
}

/// The entries of the object under a key.
pub open spec fn get_object(entries: Entries, key: Seq<char>) -> Option<Entries> {
    match get(entries, key) {
        Some(v) => object(v),
        None => None,
    }
}

/// The items of the array under a key.
pub open spec fn get_array(entries: Entries, key: Seq<char>) -> Option<Seq<JsonView>> {
    match get(entries, key) {
        Some(v) => array(v),
        None => None,
    }
}

pub proof fn lemma_find_key_from(entries: Entries, key: Seq<char>, from: int)
    requires
        0 <= from,
    ensures
        match find_key_from(entries, key, from) {
            Some(k) => from <= k < entries.len() && entries[k].0 == key && forall|j: int|
                from <= j < k ==> (#[trigger] entries[j]).0 != key,
            None => forall|j: int| from <= j < entries.len() ==> (#[trigger] entries[j]).0 != key,
        },
    decreases entries.len() - from,
{
    if from < entries.len() && entries[from].0 != key {
        lemma_find_key_from(entries, key, from + 1);
    }
}

impl Json {
    /// The entries of an object.
    pub fn as_object(&self) -> (r: Option<&Vec<(String, Json)>>)
        ensures
            (match r {
                Some(entries) => Some(entry_trees(entries@)),
                None => None,
            }) == object(tree(*self)),
    {
        match self {
            Json::Object(entries) => {
                proof {
                    lemma_object_tree(*entries);
                }
                Some(entries)
            },
            _ => None,
        }
    }

    /// The items of an array.
    pub fn as_array(&self) -> (r: Option<&Vec<Json>>)
        ensures
            (match r {
                Some(items) => Some(trees(items@)),
                None => None,
            }) == array(tree(*self)),
    {
        match self {
            Json::Array(items) => {
                proof {
                    lemma_array_tree(*items);
                }
                Some(items)
            },
            _ => None,
        }
    }

    /// The text of a string.
    pub fn as_str(&self) -> (r: Option<&String>)
        ensures
            (match r {
                Some(s) => Some(s@),
                None => None,
            }) == text(tree(*self)),
    {
        match self {
            Json::String(s) => Some(s),
            _ => None,
        }
    }
}

/// The position of a key.
pub fn key_position(entries: &Vec<(String, Json)>, key: &str) -> (r: Option<usize>)
    ensures
        match r {
            Some(i) => find_key(entry_trees(entries@), key@) == Some(i as int) && i
                < entries@.len(),
            None => find_key(entry_trees(entries@), key@) is None,
        },
{
    let mut i: usize = 0;
    while i < entries.len()
        invariant
            i <= entries@.len(),
            find_key(entry_trees(entries@), key@) == find_key_from(
                entry_trees(entries@),
                key@,
                i as int,
            ),
        decreases entries.len() - i,
    {
        if same(entries[i].0.as_str(), key) {
            return Some(i);
        }
        i = i + 1;
    }
    None
}

/// The value of a key.
pub fn get_value<'a>(entries: &'a Vec<(String, Json)>, key: &str) -> (r: Option<&'a Json>)
    ensures
        (match r {
            Some(v) => Some(tree(*v)),
            None => None,
        }) == get(entry_trees(entries@), key@),
{
    match key_position(entries, key) {
        Some(i) => Some(&entries[i].1),
        None => None,
    }
}

/// The entries of the object under a key.
pub fn get_object_value<'a>(entries: &'a Vec<(String, Json)>, key: &str) -> (r: Option<
    &'a Vec<(String, Json)>,
>)
    ensures
        (match r {
            Some(v) => Some(entry_trees(v@)),
            None => None,
        }) == get_object(entry_trees(entries@), key@),
{
    match get_value(entries, key) {
        Some(v) => v.as_object(),
        None => None,
    }
}

/// The items of the array under a key.
pub fn get_array_value<'a>(entries: &'a Vec<(String, Json)>, key: &str) -> (r: Option<
    &'a Vec<Json>,
>)
    ensures
        (match r {
            Some(v) => Some(trees(v@)),
            None => None,
        }) == get_array(entry_trees(entries@), key@),
{
    match get_value(entries, key) {
        Some(v) => v.as_array(),
        None => None,
    }
}

/// `serde_json::Number::clone` gives the same number.
#[verifier::external_body]
fn clone_number(n: &serde_json::Number) -> (r: serde_json::Number)
    ensures
        r == *n,
{
    n.clone()
}

impl Dup for Json {
    fn dup(&self) -> (r: Self)
        decreases self,
    {
        match self {
            Json::Null => Json::Null,
            Json::Bool(b) => Json::Bool(*b),
            Json::Number(n) => Json::Number(clone_number(n)),
            Json::String(s) => Json::String(s.clone()),
            Json::Array(items) => {
                let mut out: Vec<Json> = Vec::new();
                let mut i: usize = 0;
                while i < items.len()
                    invariant
                        *self == Json::Array(*items),
                        i <= items@.len(),
                        out@.len() == i,
                        forall|j: int| 0 <= j < i ==> tree(#[trigger] out@[j]) == tree(items@[j]),
                    decreases items.len() - i,
                {
                    proof {
                        let whole = *self;
                        assert(whole->Array_0 == *items);
                        assert(decreases_to!(whole => whole->Array_0));
                        assert(decreases_to!(*items => items[i as int]));
                    }
                    out.push(items[i].dup());
                    i = i + 1;
                }
                let r = Json::Array(out);
                proof {
                    assert(tree(r)->Array_0 =~= tree(*self)->Array_0);
                }
                r
            },
            Json::Object(entries) => {
                let mut out: Vec<(String, Json)> = Vec::new();
                let mut i: usize = 0;
                while i < entries.len()
                    invariant
                        *self == Json::Object(*entries),
                        i <= entries@.len(),
                        out@.len() == i,
                        forall|j: int|
                            0 <= j < i ==> (#[trigger] out@[j]).0@ == entries@[j].0@ && tree(
                                out@[j].1,
                            ) == tree(entries@[j].1),
                    decreases entries.len() - i,
                {
                    proof {
                        let whole = *self;
                        assert(whole->Object_0 == *entries);
                        assert(decreases_to!(whole => whole->Object_0));
                        assert(decreases_to!(*entries => entries[i as int]));
                        let e = entries@[i as int];
                        assert(decreases_to!(e => e.1));
                    }
                    out.push((entries[i].0.clone(), entries[i].1.dup()));
                    i = i + 1;
                }
                let r = Json::Object(out);
                proof {
                    assert(tree(r)->Object_0 =~= tree(*self)->Object_0);
                }
                r
            },
        }
    }
}

/// No key occurs twice.
pub open spec fn distinct_keys(entries: Entries) -> bool {
    forall|i: int, j: int|
        0 <= i < j < entries.len() ==> (#[trigger] entries[i]).0 != (#[trigger] entries[j]).0
}

/// A value none of whose objects holds a key twice.
pub open spec fn is_valid(j: JsonView) -> bool
    decreases j,
{
    match j {
        JsonView::Array(items) => forall|i: int|
            0 <= i < items.len() ==> is_valid(#[trigger] items[i]),
        JsonView::Object(entries) => distinct_keys(entries) && forall|i: int|
            #![trigger entries[i]]
            0 <= i < entries.len() ==> is_valid(entries[i].1),
        _ => true,
    }
}

proof fn lemma_valid_item(items: Seq<JsonView>, i: int)
    requires
        is_valid(JsonView::Array(items)),
        0 <= i < items.len(),
    ensures
        is_valid(items[i]),
{
    assert(items == JsonView::Array(items)->Array_0);
}

/// `serde_json::Value`, a parsed document.
#[verifier::external_type_specification]
#[verifier::external_body]
pub struct ExJsonValue(serde_json::Value);

/// What a `serde_json::Value` holds.
pub uninterp spec fn value_tree(v: serde_json::Value) -> JsonView;

/// The top level of a value.
pub enum JsonNode {
    Null,
    Bool(bool),
    Number(serde_json::Number),
    String(String),
    Array(Vec<serde_json::Value>),
    Object(Vec<(String, serde_json::Value)>),
}

/// The entries of an object, by what its values hold.
pub open spec fn value_entries(entries: Seq<(String, serde_json::Value)>) -> Entries {
    entries.map_values(|e: (String, serde_json::Value)| (e.0@, value_tree(e.1)))
}

/// The model of a value with the given top level.
pub open spec fn node_tree(node: JsonNode) -> JsonView {
    match node {
        JsonNode::Null => JsonView::Null,
        JsonNode::Bool(b) => JsonView::Bool(b),
        JsonNode::Number(n) => JsonView::Number(n),
        JsonNode::String(s) => JsonView::String(s@),
        JsonNode::Array(items) => JsonView::Array(
            items@.map_values(|v: serde_json::Value| value_tree(v)),
        ),
        JsonNode::Object(entries) => JsonView::Object(value_entries(entries@)),
    }
}

/// Takes the top level of a `serde_json::Value` apart, one variant each. An
/// object is given by its entries in order; it holds no key twice.
#[verifier::external_body]
fn open_value(v: serde_json::Value) -> (r: JsonNode)
    ensures
        node_tree(r) == value_tree(v),
        r matches JsonNode::Object(entries) ==> distinct_keys(value_entries(entries@)),
{
    match v {
        serde_json::Value::Null => JsonNode::Null,
        serde_json::Value::Bool(b) => JsonNode::Bool(b),
        serde_json::Value::Number(n) => JsonNode::Number(n),
        serde_json::Value::String(s) => JsonNode::String(s),
        serde_json::Value::Array(items) => JsonNode::Array(items),
        serde_json::Value::Object(m) => JsonNode::Object(m.into_iter().collect()),
    }
}

/// Puts a `serde_json::Value` together from its top level, one variant each. An
/// object keeps the order of its entries.
#[verifier::external_body]
fn close_value(node: JsonNode) -> (r: serde_json::Value)
    requires
        node matches JsonNode::Object(entries) ==> distinct_keys(value_entries(entries@)),
    ensures
        value_tree(r) == node_tree(node),
{
    match node {
        JsonNode::Null => serde_json::Value::Null,
        JsonNode::Bool(b) => serde_json::Value::Bool(b),
        JsonNode::Number(n) => serde_json::Value::Number(n),
        JsonNode::String(s) => serde_json::Value::String(s),
        JsonNode::Array(items) => serde_json::Value::Array(items),
        JsonNode::Object(entries) => serde_json::Value::Object(entries.into_iter().collect()),
    }
}

/// The plain form of a `serde_json::Value`.
fn read_value(v: serde_json::Value) -> (r: Json)
    ensures
        tree(r) == value_tree(v),
        is_valid(tree(r)),
    decreases value_tree(v),
{
    match open_value(v) {
        JsonNode::Null => Json::Null,
        JsonNode::Bool(b) => Json::Bool(b),
        JsonNode::Number(n) => Json::Number(n),
        JsonNode::String(s) => Json::String(s),
        JsonNode::Array(items) => {
            let ghost all = items@;
            let ghost model = all.map_values(|v: serde_json::Value| value_tree(v));
            let mut out: Vec<Json> = Vec::new();
            for item in iter: items
                invariant
                    iter.seq() == all,
                    value_tree(v) == JsonView::Array(model),
                    model == all.map_values(|v: serde_json::Value| value_tree(v)),
                    out@.len() == iter.index(),
                    forall|i: int|
                        0 <= i < out@.len() ==> tree(#[trigger] out@[i]) == model[i] && is_valid(
                            model[i],
                        ),
            {
                proof {
                    let parent = value_tree(v);
                    assert(model[iter.index() as int] == value_tree(item));
                    assert(parent->Array_0 == model);
                    assert(decreases_to!(parent => parent->Array_0));
                    assert(decreases_to!(model => model[iter.index() as int]));
                }
                out.push(read_value(item));
            }
            let r = Json::Array(out);
            proof {
                assert(tree(r)->Array_0 =~= model);
                assert forall|i: int| 0 <= i < model.len() implies is_valid(#[trigger] model[i]) by {
                    assert(tree(out@[i]) == model[i]);
                }
            }
            r
        },
        JsonNode::Object(entries) => {
            let ghost all = entries@;
            let ghost model = value_entries(all);
            let mut out: Vec<(String, Json)> = Vec::new();
            for entry in iter: entries
                invariant
                    iter.seq() == all,
                    value_tree(v) == JsonView::Object(model),
                    model == value_entries(all),
                    out@.len() == iter.index(),
                    forall|i: int|
                        0 <= i < out@.len() ==> (#[trigger] out@[i]).0@ == model[i].0 && tree(
                            out@[i].1,
                        ) == model[i].1 && is_valid(model[i].1),
            {
                proof {
                    let i = iter.index() as int;
                    let parent = value_tree(v);
                    assert(model[i] == (entry.0@, value_tree(entry.1)));
                    assert(parent->Object_0 == model);
                    assert(decreases_to!(parent => parent->Object_0));
                    assert(decreases_to!(model => model[i]));
                    let pair = model[i];
                    assert(decreases_to!(pair => pair.1));
                }
                let (key, value) = entry;
                let value = read_value(value);
                out.push((key, value));
            }
            let r = Json::Object(out);
            proof {
                assert(tree(r)->Object_0 =~= model);
                assert forall|i: int|
                    #![trigger model[i]]
                    0 <= i < model.len() implies is_valid(model[i].1) by {
                    assert(tree(out@[i].1) == model[i].1);
                }
            }
            r
        },
    }
}

/// The `serde_json::Value` of a plain value.
fn write_value(j: &Json) -> (r: serde_json::Value)
    requires
        is_valid(tree(*j)),
    ensures
        value_tree(r) == tree(*j),
    decreases j,
{
    match j {
        Json::Null => close_value(JsonNode::Null),
        Json::Bool(b) => close_value(JsonNode::Bool(*b)),
        Json::Number(n) => close_value(JsonNode::Number(clone_number(n))),
        Json::String(s) => close_value(JsonNode::String(s.clone())),
        Json::Array(items) => {
            let mut out: Vec<serde_json::Value> = Vec::new();
            let mut i: usize = 0;
            proof {
                lemma_array_tree(*items);
            }
            while i < items.len()
                invariant
                    *j == Json::Array(*items),
                    is_valid(JsonView::Array(trees(items@))),
                    i <= items@.len(),
                    out@.len() == i,
                    forall|k: int|
                        0 <= k < i ==> value_tree(#[trigger] out@[k]) == tree(items@[k]),
                decreases items.len() - i,
            {
                proof {
                    let whole = *j;
                    assert(whole->Array_0 == *items);
                    assert(decreases_to!(whole => whole->Array_0));
                    assert(decreases_to!(*items => items[i as int]));
                    let views = trees(items@);
                    assert(views.len() == items@.len());
                    lemma_valid_item(views, i as int);
                    assert(views[i as int] == tree(items@[i as int]));
                }
                out.push(write_value(&items[i]));
                i = i + 1;
            }
            proof {
                assert(out@.map_values(|v: serde_json::Value| value_tree(v)) =~= trees(items@));
            }
            close_value(JsonNode::Array(out))
        },
        Json::Object(entries) => {
            let mut out: Vec<(String, serde_json::Value)> = Vec::new();
            let mut i: usize = 0;
            proof {
                lemma_object_tree(*entries);
            }
            while i < entries.len()
                invariant
                    *j == Json::Object(*entries),
                    is_valid(JsonView::Object(entry_trees(entries@))),
                    i <= entries@.len(),
                    out@.len() == i,
                    forall|k: int|
                        0 <= k < i ==> (#[trigger] out@[k]).0@ == entries@[k].0@ && value_tree(
                            out@[k].1,
                        ) == tree(entries@[k].1),
                decreases entries.len() - i,
            {
                proof {
                    let whole = *j;
                    assert(whole->Object_0 == *entries);
                    assert(decreases_to!(whole => whole->Object_0));
                    assert(decreases_to!(*entries => entries[i as int]));
                    let e = entries@[i as int];
                    assert(decreases_to!(e => e.1));
                    assert(is_valid(entry_trees(entries@)[i as int].1));
                }
                out.push((entries[i].0.clone(), write_value(&entries[i].1)));
                i = i + 1;
            }
            proof {
                assert(value_entries(out@) =~= entry_trees(entries@));
            }
            close_value(JsonNode::Object(out))
        },
    }
}

/// The compact text of a value.
pub uninterp spec fn json_text(j: JsonView) -> Seq<char>;

/// `Display` of `serde_json::Value`. The text is a function of what the value
/// holds; how values are written is left unsaid.
#[verifier::external_body]
fn display_value(v: &serde_json::Value) -> (r: String)
    ensures
        r@ == json_text(value_tree(*v)),
{
    v.to_string()
}

/// The indented text of a value.
pub uninterp spec fn json_pretty_text(j: JsonView) -> Result<Seq<char>, Seq<char>>;

/// `serde_json::to_string_pretty` of a `serde_json::Value`. The outcome is a
/// function of what the value holds; how values are written is left unsaid. A
/// failure is given by its `Display` text.
#[verifier::external_body]
fn pretty_value(v: &serde_json::Value) -> (r: Result<String, String>)
    ensures
        match r {
            Ok(s) => json_pretty_text(value_tree(*v)) == Ok::<Seq<char>, Seq<char>>(s@),
            Err(e) => json_pretty_text(value_tree(*v)) == Err::<Seq<char>, Seq<char>>(e@),
        },
{
    serde_json::to_string_pretty(v).map_err(|e| e.to_string())
}

/// Why a text is no JSON document, and where: line and column from one on.
#[derive(Debug, PartialEq)]
pub struct JsonFailure {
    pub message: String,
    pub line: usize,
    pub column: usize,
}

/// Model of [`JsonFailure`].
pub struct JsonFailureView {
    pub message: Seq<char>,
    pub line: usize,
    pub column: usize,
}

impl DeepView for JsonFailure {
    type V = JsonFailureView;

    open spec fn deep_view(&self) -> JsonFailureView {
        JsonFailureView { message: self.message@, line: self.line, column: self.column }
    }
}

/// The document that a text holds, as `serde_json` reads it.
pub uninterp spec fn json_document(text: Seq<char>) -> Result<JsonView, JsonFailureView>;

/// `serde_json::from_str` into a `serde_json::Value`. The outcome is a function
/// of the text alone; the grammar is left unsaid. A failure is given by its
/// `Display` text, its line and its column.
#[verifier::external_body]
fn value_from_text(text: &str) -> (r: Result<serde_json::Value, JsonFailure>)
    ensures
        match r {
            Ok(v) => json_document(text@) == Ok::<JsonView, JsonFailureView>(value_tree(v)),
            Err(e) => json_document(text@) == Err::<JsonView, JsonFailureView>(e.deep_view()),
        },
{
    let parsed: Result<serde_json::Value, serde_json::Error> = serde_json::from_str(text);
    parsed.map_err(
        |e| JsonFailure { message: e.to_string(), line: e.line(), column: e.column() },
    )
}

/// Parse a JSON document.
pub fn parse_document(text: &str) -> (r: Result<Json, JsonFailure>)
    ensures
        match r {
            Ok(j) => json_document(text@) == Ok::<JsonView, JsonFailureView>(tree(j)) && is_valid(
                tree(j),
            ),
            Err(e) => json_document(text@) == Err::<JsonView, JsonFailureView>(e.deep_view()),
        },
{
    match value_from_text(text) {
        Ok(v) => Ok(read_value(v)),
        Err(e) => Err(e),
    }
}

/// The compact text of a value.
pub fn compact_text(j: &Json) -> (r: String)
    requires
        is_valid(tree(*j)),
    ensures
        r@ == json_text(tree(*j)),
{
    display_value(&write_value(j))
}

/// The indented text of a value.
pub fn pretty_text(j: &Json) -> (r: Result<String, String>)
    requires
        is_valid(tree(*j)),
    ensures
        match r {
            Ok(s) => json_pretty_text(tree(*j)) == Ok::<Seq<char>, Seq<char>>(s@),
            Err(e) => json_pretty_text(tree(*j)) == Err::<Seq<char>, Seq<char>>(e@),
        },
{
    pretty_value(&write_value(j))
}

/// Equality of numbers.
pub uninterp spec fn equal_numbers(a: serde_json::Number, b: serde_json::Number) -> bool;

/// `==` of `serde_json::Number`. A number equals itself; which others are equal
/// is left unsaid.
#[verifier::external_body]
fn same_numbers(a: &serde_json::Number, b: &serde_json::Number) -> (r: bool)
    ensures
        r == equal_numbers(*a, *b),
        *a == *b ==> r,
{
    a == b
}

/// Equality of values. The order of an object's entries does not count.
pub open spec fn equal(a: JsonView, b: JsonView) -> bool
    decreases a, 0int,
{
    match (a, b) {
        (JsonView::Null, JsonView::Null) => true,
        (JsonView::Bool(x), JsonView::Bool(y)) => x == y,
        (JsonView::Number(x), JsonView::Number(y)) => x == y || equal_numbers(x, y),
        (JsonView::String(x), JsonView::String(y)) => x == y,
        (JsonView::Array(x), JsonView::Array(y)) => x.len() == y.len() && forall|i: int|
            0 <= i < x.len() ==> equal(#[trigger] x[i], y[i]),
        (JsonView::Object(x), JsonView::Object(y)) => x.len() == y.len() && forall|i: int|
            0 <= i < x.len() ==> has_entry_from(#[trigger] x[i], y, 0),
        _ => false,
    }
}

/// Whether some entry from `from` on equals the given one.
pub open spec fn has_entry_from(e: (Seq<char>, JsonView), y: Entries, from: int) -> bool
    decreases e, y.len() - from,
{
    0 <= from < y.len() && ((e.0 == y[from].0 && equal(e.1, y[from].1)) || has_entry_from(
        e,
        y,
        from + 1,
    ))
}

/// Equality of objects.
pub open spec fn equal_entries(x: Entries, y: Entries) -> bool {
    equal(JsonView::Object(x), JsonView::Object(y))
}

proof fn lemma_equal_arrays(x: Seq<JsonView>, y: Seq<JsonView>)
    ensures
        equal(JsonView::Array(x), JsonView::Array(y)) <==> x.len() == y.len() && forall|i: int|
            0 <= i < x.len() ==> equal(#[trigger] x[i], y[i]),
{
    let a = JsonView::Array(x);
    let b = JsonView::Array(y);
    assert(a->Array_0 == x && b->Array_0 == y);
}

proof fn lemma_equal_objects(x: Entries, y: Entries)
    ensures
        equal_entries(x, y) <==> x.len() == y.len() && forall|i: int|
            0 <= i < x.len() ==> has_entry_from(#[trigger] x[i], y, 0),
{
    let a = JsonView::Object(x);
    let b = JsonView::Object(y);
    assert(a->Object_0 == x && b->Object_0 == y);
}

/// Whether two values are equal.
pub fn same_value(a: &Json, b: &Json) -> (r: bool)
    ensures
        r == equal(tree(*a), tree(*b)),
    decreases a, 1nat,
{
    match (a, b) {
        (Json::Null, Json::Null) => true,
        (Json::Bool(x), Json::Bool(y)) => *x == *y,
        (Json::Number(x), Json::Number(y)) => same_numbers(x, y),
        (Json::String(x), Json::String(y)) => same(x.as_str(), y.as_str()),
        (Json::Array(x), Json::Array(y)) => {
            proof {
                lemma_array_tree(*x);
                lemma_array_tree(*y);
                lemma_equal_arrays(trees(x@), trees(y@));
            }
            if x.len() != y.len() {
                return false;
            }
            let mut i: usize = 0;
            while i < x.len()
                invariant
                    *a == Json::Array(*x),
                    x@.len() == y@.len(),
                    i <= x@.len(),
                    forall|j: int| 0 <= j < i ==> equal(#[trigger] trees(x@)[j], trees(y@)[j]),
                    equal(tree(*a), tree(*b)) <==> trees(x@).len() == trees(y@).len() && forall|
                        i: int,
                    |
                        0 <= i < trees(x@).len() ==> equal(#[trigger] trees(x@)[i], trees(y@)[i]),
                decreases x.len() - i,
            {
                proof {
                    let whole = *a;
                    assert(whole->Array_0 == *x);
                    assert(decreases_to!(whole => whole->Array_0));
                    assert(decreases_to!(*x => x[i as int]));
                }
                if !same_value(&x[i], &y[i]) {
                    proof {
                        assert(trees(x@)[i as int] == tree(x@[i as int]));
                    }
                    return false;
                }
                i = i + 1;
            }
            true
        },
        (Json::Object(x), Json::Object(y)) => {
            proof {
                lemma_object_tree(*x);
                lemma_object_tree(*y);
                let whole = *a;
                assert(whole->Object_0 == *x);
                assert(decreases_to!(whole => whole->Object_0));
            }
            same_entries(x, y)
        },
        _ => false,
    }
}

/// Whether two objects are equal, whatever the order of their entries.
pub fn same_entries(x: &Vec<(String, Json)>, y: &Vec<(String, Json)>) -> (r: bool)
    ensures
        r == equal_entries(entry_trees(x@), entry_trees(y@)),
    decreases x, 0nat,
{
    let ghost xs = entry_trees(x@);
    let ghost ys = entry_trees(y@);
    proof {
        lemma_equal_objects(xs, ys);
    }
    if x.len() != y.len() {
        return false;
    }
    let mut i: usize = 0;
    while i < x.len()
        invariant
            xs == entry_trees(x@),
            ys == entry_trees(y@),
            x@.len() == y@.len(),
            i <= x@.len(),
            forall|k: int| 0 <= k < i ==> has_entry_from(#[trigger] xs[k], ys, 0),
            equal_entries(xs, ys) <==> xs.len() == ys.len() && forall|i: int|
                0 <= i < xs.len() ==> has_entry_from(#[trigger] xs[i], ys, 0),
        decreases x.len() - i,
    {
        proof {
            assert(decreases_to!(*x => x[i as int]));
            let e = x@[i as int];
            assert(decreases_to!(e => e.1));
            assert(xs[i as int] == (e.0@, tree(e.1)));
        }
        let mut j: usize = 0;
        while j < y.len() && !(same(x[i].0.as_str(), y[j].0.as_str()) && same_value(
            &x[i].1,
            &y[j].1,
        ))
            invariant
                i < x@.len(),
                ys == entry_trees(y@),
                xs[i as int] == (x@[i as int].0@, tree(x@[i as int].1)),
                decreases_to!(*x => x@[i as int].1),
                j <= y@.len(),
                has_entry_from(xs[i as int], ys, 0) == has_entry_from(xs[i as int], ys, j as int),
            decreases y.len() - j,
        {
            proof {
                assert(ys[j as int] == (y@[j as int].0@, tree(y@[j as int].1)));
            }
            j = j + 1;
        }
        if j == y.len() {
            proof {
                assert(!has_entry_from(xs[i as int], ys, 0));
            }
            return false;
        }
        proof {
            assert(ys[j as int] == (y@[j as int].0@, tree(y@[j as int].1)));
        }
        i = i + 1;
    }
    true
}

/// An object with the value of a key replaced, or with the key added at the
/// end.
pub open spec fn with_key(entries: Entries, key: Seq<char>, value: JsonView) -> Entries {
    match find_key(entries, key) {
        Some(i) => entries.update(i, (key, value)),
        None => entries.push((key, value)),
    }
}

/// An object without a key; the last entry takes the place of the one that
/// leaves, as in `serde_json::Map::remove`.
pub open spec fn without_key(entries: Entries, key: Seq<char>) -> Entries {
    match find_key(entries, key) {
        Some(i) => entries.update(i, entries.last()).drop_last(),
        None => entries,
    }
}

/// Set the value of a key.
pub fn set_key(entries: &mut Vec<(String, Json)>, key: &str, value: Json)
    ensures
        entry_trees(final(entries)@) == with_key(entry_trees(old(entries)@), key@, tree(value)),
{
    let ghost before = entry_trees(entries@);
    match key_position(entries, key) {
        Some(i) => {
            entries[i] = (key.to_owned(), value);
            proof {
                assert(entry_trees(entries@) =~= before.update(i as int, (key@, tree(value))));
            }
        },
        None => {
            entries.push((key.to_owned(), value));
            proof {
                assert(entry_trees(entries@) =~= before.push((key@, tree(value))));
            }
        },
    }
}

/// Take a key out of an object.
pub fn remove_key(entries: &mut Vec<(String, Json)>, key: &str) -> (r: bool)
    ensures
        entry_trees(final(entries)@) == without_key(entry_trees(old(entries)@), key@),
        r == (find_key(entry_trees(old(entries)@), key@) is Some),
{
    let ghost before = entry_trees(entries@);
    match key_position(entries, key) {
        Some(i) => {
            let _ = entries.swap_remove(i);
            proof {
                assert(entry_trees(entries@) =~= before.update(
                    i as int,
                    before.last(),
                ).drop_last());
            }
            true
        },
        None => false,
    }
}

/// An object with distinct keys and valid values.
pub open spec fn is_valid_object(entries: Entries) -> bool {
    distinct_keys(entries) && forall|i: int|
        #![trigger entries[i]]
        0 <= i < entries.len() ==> is_valid(entries[i].1)
}

pub proof fn lemma_valid_object(entries: Entries)
    ensures
        is_valid(JsonView::Object(entries)) == is_valid_object(entries),
{
    assert(JsonView::Object(entries)->Object_0 == entries);
}

pub proof fn lemma_with_key_valid(entries: Entries, key: Seq<char>, value: JsonView)
    requires
        is_valid_object(entries),
        is_valid(value),
    ensures
        is_valid_object(with_key(entries, key, value)),
{
    lemma_find_key_from(entries, key, 0);
}

pub proof fn lemma_without_key_valid(entries: Entries, key: Seq<char>)
    requires
        is_valid_object(entries),
    ensures
        is_valid_object(without_key(entries, key)),
{
    lemma_find_key_from(entries, key, 0);
}

pub proof fn lemma_get_valid(entries: Entries, key: Seq<char>)
    requires
        is_valid_object(entries),
    ensures
        get(entries, key) matches Some(v) ==> is_valid(v),
        get_object(entries, key) matches Some(e) ==> is_valid_object(e),
{
    lemma_find_key_from(entries, key, 0);
    if let Some(e) = get_object(entries, key) {
        lemma_valid_object(e);
    }
}

} // verus!
