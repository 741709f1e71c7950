//! YAML values as plain data.
use vstd::prelude::*;
use crate::strmap::Dup;
use crate::text::same;

verus! {

/// A YAML value.
#[derive(Debug)]
pub enum Yaml {
    Null,
    Bool(bool),
    Number(yaml_serde::Number),
    String(String),
    Sequence(Vec<Yaml>),
    /// Entries in the order of the document; no key occurs twice.
    Mapping(Vec<(Yaml, Yaml)>),
    /// A value with a tag.
    Tagged(String, Box<Yaml>),
}

/// `yaml_serde::Number`, an integer or a floating-point number.
#[verifier::external_type_specification]
#[verifier::external_body]
pub struct ExYamlNumber(yaml_serde::Number);

/// The canonical text of a number.
pub uninterp spec fn number_text(n: yaml_serde::Number) -> Seq<char>;

/// The value of a number that is a non-negative integer.
pub uninterp spec fn number_unsigned(n: yaml_serde::Number) -> Option<u64>;

/// `Display` of `yaml_serde::Number`. The text is a function of the number
/// alone; how a number is written is left unsaid.
#[verifier::external_body]
pub(crate) fn display_number(n: &yaml_serde::Number) -> (r: String)
    ensures
        r@ == number_text(*n),
{
    n.to_string()
}

/// `yaml_serde::Number::as_u64`: the value of a non-negative integer, `None`
/// for any other number.
#[verifier::external_body]
fn unsigned_number(n: &yaml_serde::Number) -> (r: Option<u64>)
    ensures
        r == number_unsigned(*n),
{
    n.as_u64()
}

/// Model of [`Yaml`].
pub enum YamlView {
    Null,
    Bool(bool),
    /// Canonical text, and the value of a non-negative integer.
    Number(Seq<char>, Option<u64>),
    String(Seq<char>),
    Sequence(Seq<YamlView>),
    Mapping(Seq<(YamlView, YamlView)>),
    Tagged(Seq<char>, Box<YamlView>),
}

/// The model of a value.
pub open spec fn tree(y: Yaml) -> YamlView
    decreases y,
{
    match y {
        Yaml::Null => YamlView::Null,
        Yaml::Bool(b) => YamlView::Bool(b),
        Yaml::Number(n) => YamlView::Number(number_text(n), number_unsigned(n)),
        Yaml::String(s) => YamlView::String(s@),
        Yaml::Sequence(items) => YamlView::Sequence(
            Seq::new(
                items@.len(),
                |i: int|
                    if 0 <= i < items@.len() {
                        tree(items@[i])
                    } else {
                        YamlView::Null
                    },
            ),
        ),
        Yaml::Mapping(entries) => YamlView::Mapping(
            Seq::new(
                entries@.len(),
                |i: int|
                    if 0 <= i < entries@.len() {
                        (tree(entries@[i].0), tree(entries@[i].1))
                    } else {
                        (YamlView::Null, YamlView::Null)
                    },
            ),
        ),
        Yaml::Tagged(tag, value) => YamlView::Tagged(tag@, Box::new(tree(*value))),
    }
}

impl DeepView for Yaml {
    type V = YamlView;

    open spec fn deep_view(&self) -> YamlView {
        tree(*self)
    }
}

/// `yaml_serde::Value`, a parsed document.
#[verifier::external_type_specification]
#[verifier::external_body]
pub struct ExYamlValue(yaml_serde::Value);

/// What a `yaml_serde::Value` holds.
pub uninterp spec fn value_tree(v: yaml_serde::Value) -> YamlView;

/// The top level of a value.
pub enum YamlNode {
    Null,
    Bool(bool),
    Number(yaml_serde::Number),
    String(String),
    Sequence(Vec<yaml_serde::Value>),
    Mapping(Vec<(yaml_serde::Value, yaml_serde::Value)>),
    Tagged(String, yaml_serde::Value),
}

/// The entries of a mapping, by what its keys and values hold.
pub open spec fn value_entries(entries: Seq<(yaml_serde::Value, yaml_serde::Value)>) -> YamlEntries {
    entries.map_values(
        |e: (yaml_serde::Value, yaml_serde::Value)| (value_tree(e.0), value_tree(e.1)),
    )
}

/// The model of a value with the given top level.
pub open spec fn node_tree(node: YamlNode) -> YamlView {
    match node {
        YamlNode::Null => YamlView::Null,
        YamlNode::Bool(b) => YamlView::Bool(b),
        YamlNode::Number(n) => YamlView::Number(number_text(n), number_unsigned(n)),
        YamlNode::String(s) => YamlView::String(s@),
        YamlNode::Sequence(items) => YamlView::Sequence(
            items@.map_values(|v: yaml_serde::Value| value_tree(v)),
        ),
        YamlNode::Mapping(entries) => YamlView::Mapping(value_entries(entries@)),
        YamlNode::Tagged(tag, value) => YamlView::Tagged(tag@, Box::new(value_tree(value))),
    }
}

/// Takes the top level of a `yaml_serde::Value` apart, one variant each. A
/// mapping is given by its entries in order; it holds no key twice. A tag is
/// given by its `Display` text, an exclamation mark and the name.
#[verifier::external_body]
fn open_value(v: yaml_serde::Value) -> (r: YamlNode)
    ensures
        node_tree(r) == value_tree(v),
        r matches YamlNode::Mapping(entries) ==> distinct_keys(value_entries(entries@)),
        r matches YamlNode::Tagged(tag, _) ==> is_tag(tag@),
{
    match v {
        yaml_serde::Value::Null => YamlNode::Null,
        yaml_serde::Value::Bool(b) => YamlNode::Bool(b),
        yaml_serde::Value::Number(n) => YamlNode::Number(n),
        yaml_serde::Value::String(s) => YamlNode::String(s),
        yaml_serde::Value::Sequence(items) => YamlNode::Sequence(items),
        yaml_serde::Value::Mapping(m) => YamlNode::Mapping(m.into_iter().collect()),
        yaml_serde::Value::Tagged(t) => YamlNode::Tagged(t.tag.to_string(), t.value),
    }
}

/// The plain form of a `yaml_serde::Value`.
fn read_value(v: yaml_serde::Value) -> (r: Yaml)
    ensures
        tree(r) == value_tree(v),
        is_valid(tree(r)),
    decreases value_tree(v),
{
    match open_value(v) {
        YamlNode::Null => Yaml::Null,
        YamlNode::Bool(b) => Yaml::Bool(b),
        YamlNode::Number(n) => Yaml::Number(n),
        YamlNode::String(s) => Yaml::String(s),
        YamlNode::Sequence(items) => {
            let ghost all = items@;
            let ghost model = all.map_values(|v: yaml_serde::Value| value_tree(v));
            let mut out: Vec<Yaml> = Vec::new();
            for item in iter: items
                invariant
                    iter.seq() == all,
                    value_tree(v) == YamlView::Sequence(model),
                    model == all.map_values(|v: yaml_serde::Value| value_tree(v)),
                    out@.len() == iter.index(),
                    forall|i: int|
                        0 <= i < out@.len() ==> tree(#[trigger] out@[i]) == model[i] && is_valid(
                            model[i],
                        ),
            {
                proof {
                    assert(model[iter.index() as int] == value_tree(item));
                    let parent = value_tree(v);
                    assert(parent->Sequence_0 == model);
                    assert(decreases_to!(parent => parent->Sequence_0));
                    assert(decreases_to!(model => model[iter.index() as int]));
                }
                out.push(read_value(item));
            }
            let r = Yaml::Sequence(out);
            proof {
                assert(tree(r)->Sequence_0 =~= model);
                assert forall|i: int| 0 <= i < model.len() implies is_valid(#[trigger] model[i]) by {
                    assert(tree(out@[i]) == model[i]);
                }
            }
            r
        },
        YamlNode::Mapping(entries) => {
            let ghost all = entries@;
            let ghost model = value_entries(all);
            let mut out: Vec<(Yaml, Yaml)> = Vec::new();
            for entry in iter: entries
                invariant
                    iter.seq() == all,
                    value_tree(v) == YamlView::Mapping(model),
                    model == value_entries(all),
                    out@.len() == iter.index(),
                    forall|i: int|
                        0 <= i < out@.len() ==> tree((#[trigger] out@[i]).0) == model[i].0 && tree(
                            out@[i].1,
                        ) == model[i].1 && is_valid(model[i].0) && is_valid(model[i].1),
            {
                proof {
                    let i = iter.index() as int;
                    assert(model[i] == (value_tree(entry.0), value_tree(entry.1)));
                    let parent = value_tree(v);
                    assert(parent->Mapping_0 == model);
                    assert(decreases_to!(parent => parent->Mapping_0));
                    assert(decreases_to!(model => model[i]));
                    let pair = model[i];
                    assert(decreases_to!(pair => pair.0));
                    assert(decreases_to!(pair => pair.1));
                }
                let (key, value) = entry;
                let key = read_value(key);
                let value = read_value(value);
                out.push((key, value));
            }
            let r = Yaml::Mapping(out);
            proof {
                assert(tree(r)->Mapping_0 =~= model);
                assert forall|i: int|
                    #![trigger model[i]]
                    0 <= i < model.len() implies is_valid(model[i].0) && is_valid(model[i].1) by {
                    assert(tree(out@[i].1) == model[i].1);
                }
            }
            r
        },
        YamlNode::Tagged(tag, value) => {
            proof {
                let parent = value_tree(v);
                assert(*(parent->Tagged_1) == value_tree(value));
                assert(decreases_to!(parent => parent->Tagged_1));
            }
            Yaml::Tagged(tag, Box::new(read_value(value)))
        },
    }
}

/// Why a text is no YAML document.
#[derive(Debug, PartialEq)]
pub struct YamlFailure {
    pub message: String,
    /// The byte offset, where it is known.
    pub offset: Option<usize>,
}

/// Model of [`YamlFailure`].
pub struct YamlFailureView {
    pub message: Seq<char>,
    pub offset: Option<usize>,
}

impl DeepView for YamlFailure {
    type V = YamlFailureView;

    open spec fn deep_view(&self) -> YamlFailureView {
        YamlFailureView { message: self.message@, offset: self.offset }
    }
}

/// The document that a text holds, as `yaml_serde` reads it.
pub uninterp spec fn yaml_document(text: Seq<char>) -> Result<YamlView, YamlFailureView>;

/// `yaml_serde::from_str` into a `yaml_serde::Value`. The outcome is a function
/// of the text alone; the grammar is left unsaid. A failure is given by its
/// `Display` text and the index of its location.
#[verifier::external_body]
fn value_from_text(text: &str) -> (r: Result<yaml_serde::Value, YamlFailure>)
    ensures
        match r {
            Ok(v) => yaml_document(text@) == Ok::<YamlView, YamlFailureView>(value_tree(v)),
            Err(e) => yaml_document(text@) == Err::<YamlView, YamlFailureView>(e.deep_view()),
        },
{
    let parsed: Result<yaml_serde::Value, yaml_serde::Error> = yaml_serde::from_str(text);
    parsed.map_err(
        |e| YamlFailure { message: e.to_string(), offset: e.location().map(|l| l.index()) },
    )
}

/// Parse a YAML document.
pub fn parse_document(text: &str) -> (r: Result<Yaml, YamlFailure>)
    ensures
        match r {
            Ok(y) => yaml_document(text@) == Ok::<YamlView, YamlFailureView>(tree(y)) && is_valid(
                tree(y),
            ),
            Err(e) => yaml_document(text@) == Err::<YamlView, YamlFailureView>(e.deep_view()),
        },
{
    match value_from_text(text) {
        Ok(v) => Ok(read_value(v)),
        Err(e) => Err(e),
    }
}

/// A value without its tags.
pub open spec fn untagged(y: YamlView) -> YamlView
    decreases y,
{
    match y {
        YamlView::Tagged(_, value) => untagged(*value),
        _ => y,
    }
}

/// The entries of a mapping.
pub open spec fn mapping(y: YamlView) -> Option<YamlEntries> {
    match untagged(y) {
        YamlView::Mapping(entries) => Some(entries),
        _ => None,
    }
}

/// The text of a string.
pub open spec fn text(y: YamlView) -> Option<Seq<char>> {
    match untagged(y) {
        YamlView::String(s) => Some(s),
        _ => None,
    }
}

/// The value of a non-negative integer.
pub open spec fn unsigned(y: YamlView) -> Option<u64> {
    match untagged(y) {
        YamlView::Number(_, n) => n,
        _ => None,
    }
}

/// The value of a boolean.
pub open spec fn boolean(y: YamlView) -> Option<bool> {
    match untagged(y) {
        YamlView::Bool(b) => Some(b),
        _ => None,
    }
}

/// The first entry with a string key at or after `from`.
pub open spec fn find_key_from(entries: YamlEntries, key: Seq<char>, from: int) -> Option<int>
    decreases entries.len() - from,
{
    if from < 0 || from >= entries.len() {
        None
    } else if entries[from].0 == YamlView::String(key) {
        Some(from)
    } else {
        find_key_from(entries, key, from + 1)
    }
}

/// The position of a string key.
pub open spec fn find_key(entries: YamlEntries, key: Seq<char>) -> Option<int> {
    find_key_from(entries, key, 0)
}

/// The value of a string key.
pub open spec fn get(entries: YamlEntries, key: Seq<char>) -> Option<YamlView> {
    match find_key(entries, key) {
        Some(i) => Some(entries[i].1),
        None => None,
    }
}

pub proof fn lemma_find_key_from(entries: YamlEntries, key: Seq<char>, from: int)
    requires
        0 <= from,
    ensures
        match find_key_from(entries, key, from) {
            Some(i) => from <= i < entries.len() && entries[i].0 == YamlView::String(key),
            None => forall|j: int|
                from <= j < entries.len() ==> (#[trigger] entries[j]).0 != YamlView::String(key),
        },
    decreases entries.len() - from,
{
    if from < entries.len() && entries[from].0 != YamlView::String(key) {
        lemma_find_key_from(entries, key, from + 1);
    }
}

/// The model of mapping entries.
pub open spec fn entry_trees(entries: Seq<(Yaml, Yaml)>) -> YamlEntries {
    entries.map_values(|e: (Yaml, Yaml)| (tree(e.0), tree(e.1)))
}

pub proof fn lemma_mapping_tree(entries: Vec<(Yaml, Yaml)>)
    ensures
        tree(Yaml::Mapping(entries)) == YamlView::Mapping(entry_trees(entries@)),
{
    assert(tree(Yaml::Mapping(entries))->Mapping_0 =~= entry_trees(entries@));
}

impl Yaml {
    /// The value without its tags.
    pub fn untag(&self) -> (r: &Yaml)
        ensures
            tree(*r) == untagged(tree(*self)),
            !(r is Tagged),
        decreases self,
    {
        match self {
            Yaml::Tagged(_, value) => value.untag(),
            _ => self,
        }
    }

    /// The entries of a mapping.
    pub fn as_mapping(&self) -> (r: Option<&Vec<(Yaml, Yaml)>>)
        ensures
            (match r {
                Some(entries) => Some(entry_trees(entries@)),
                None => None,
            }) == mapping(tree(*self)),
    {
        match self.untag() {
            Yaml::Mapping(entries) => {
                proof {
                    lemma_mapping_tree(*entries);
                }
                Some(entries)
            },
            _ => None,
        }
    }

    /// The text of a string.
    pub fn as_str(&self) -> (r: Option<&String>)
        ensures
            (match r {
                Some(s) => Some(s@),
                None => None,
            }) == text(tree(*self)),
    {
        match self.untag() {
            Yaml::String(s) => Some(s),
            _ => None,
        }
    }

    /// The value of a non-negative integer.
    pub fn as_u64(&self) -> (r: Option<u64>)
        ensures
            r == unsigned(tree(*self)),
    {
        match self.untag() {
            Yaml::Number(n) => unsigned_number(n),
            _ => None,
        }
    }

    /// The value of a boolean.
    pub fn as_bool(&self) -> (r: Option<bool>)
        ensures
            r == boolean(tree(*self)),
    {
        match self.untag() {
            Yaml::Bool(b) => Some(*b),
            _ => None,
        }
    }
}

/// The position of a string key.
pub fn key_position(entries: &Vec<(Yaml, Yaml)>, key: &str) -> (r: Option<usize>)
    ensures
        match r {
            Some(i) => find_key(entry_trees(entries@), key@) == Some(i as int) && i
                < entries@.len(),
            None => find_key(entry_trees(entries@), key@) is None,
        },
{
    let mut i: usize = 0;
    while i < entries.len()
        invariant
            i <= entries@.len(),
            find_key(entry_trees(entries@), key@) == find_key_from(
                entry_trees(entries@),
                key@,
                i as int,
            ),
        decreases entries.len() - i,
    {
        match &entries[i].0 {
            Yaml::String(s) => {
                if same(s.as_str(), key) {
                    return Some(i);
                }
            },
            _ => {},
        }
        i = i + 1;
    }
    None
}

/// The value of a string key.
pub fn get_value<'a>(entries: &'a Vec<(Yaml, Yaml)>, key: &str) -> (r: Option<&'a Yaml>)
    ensures
        (match r {
            Some(v) => Some(tree(*v)),
            None => None,
        }) == get(entry_trees(entries@), key@),
{
    match key_position(entries, key) {
        Some(i) => Some(&entries[i].1),
        None => None,
    }
}

/// Whether two canonical texts are of equal numbers: zero has two.
pub open spec fn equal_numbers(a: Seq<char>, b: Seq<char>) -> bool {
    a == b || ((a == "0.0"@ || a == "-0.0"@) && (b == "0.0"@ || b == "-0.0"@))
}

/// Equality of values. The order of a mapping's entries does not count.
pub open spec fn equal(a: YamlView, b: YamlView) -> bool
    decreases a, 0int,
{
    match (a, b) {
        (YamlView::Null, YamlView::Null) => true,
        (YamlView::Bool(x), YamlView::Bool(y)) => x == y,
        (YamlView::Number(x, _), YamlView::Number(y, _)) => equal_numbers(x, y),
        (YamlView::String(x), YamlView::String(y)) => x == y,
        (YamlView::Sequence(x), YamlView::Sequence(y)) => x.len() == y.len() && forall|i: int|
            0 <= i < x.len() ==> equal(#[trigger] x[i], y[i]),
        (YamlView::Mapping(x), YamlView::Mapping(y)) => x.len() == y.len() && forall|i: int|
            0 <= i < x.len() ==> has_entry_from(#[trigger] x[i], y, 0),
        (YamlView::Tagged(s, x), YamlView::Tagged(t, y)) => s == t && equal(*x, *y),
        _ => false,
    }
}

/// Whether some entry from `from` on equals the given one.
pub open spec fn has_entry_from(e: (YamlView, YamlView), y: YamlEntries, from: int) -> bool
    decreases e, y.len() - from,
{
    0 <= from < y.len() && ((equal(e.0, y[from].0) && equal(e.1, y[from].1)) || has_entry_from(
        e,
        y,
        from + 1,
    ))
}

/// Equality of mappings.
pub open spec fn equal_entries(x: YamlEntries, y: YamlEntries) -> bool {
    equal(YamlView::Mapping(x), YamlView::Mapping(y))
}

/// The entries of a mapping.
pub type YamlEntries = Seq<(YamlView, YamlView)>;

/// No key occurs twice.
pub open spec fn distinct_keys(entries: YamlEntries) -> bool {
    forall|i: int, j: int|
        #![trigger entries[i], entries[j]]
        0 <= i < entries.len() && 0 <= j < entries.len() && i != j ==> !equal(
            entries[i].0,
            entries[j].0,
        )
}

/// The canonical text of a tag: an exclamation mark and something behind it.
pub open spec fn is_tag(tag: Seq<char>) -> bool {
    tag.len() >= 2 && tag[0] == '!'
}

/// A value none of whose mappings holds a key twice, and whose tags are
/// canonical.
pub open spec fn is_valid(y: YamlView) -> bool
    decreases y,
{
    match y {
        YamlView::Sequence(items) => forall|i: int|
            0 <= i < items.len() ==> is_valid(#[trigger] items[i]),
        YamlView::Mapping(entries) => distinct_keys(entries) && forall|i: int|
            #![trigger entries[i]]
            0 <= i < entries.len() ==> is_valid(entries[i].0) && is_valid(entries[i].1),
        YamlView::Tagged(tag, value) => is_tag(tag) && is_valid(*value),
        _ => true,
    }
}

/// The model of a list of values.
pub open spec fn trees(items: Seq<Yaml>) -> Seq<YamlView> {
    items.map_values(|y: Yaml| tree(y))
}

pub proof fn lemma_sequence_tree(items: Vec<Yaml>)
    ensures
        tree(Yaml::Sequence(items)) == YamlView::Sequence(trees(items@)),
{
    assert(tree(Yaml::Sequence(items))->Sequence_0 =~= trees(items@));
}

fn same_numbers(a: &yaml_serde::Number, b: &yaml_serde::Number) -> (r: bool)
    ensures
        r == equal_numbers(number_text(*a), number_text(*b)),
{
    let x = display_number(a);
    let y = display_number(b);
    same(x.as_str(), y.as_str()) || ((same(x.as_str(), "0.0") || same(x.as_str(), "-0.0")) && (same(
        y.as_str(),
        "0.0",
    ) || same(y.as_str(), "-0.0")))
}

proof fn lemma_equal_sequences(x: Seq<YamlView>, y: Seq<YamlView>)
    ensures
        equal(YamlView::Sequence(x), YamlView::Sequence(y)) <==> x.len() == y.len() && forall|
            i: int,
        |
            0 <= i < x.len() ==> equal(#[trigger] x[i], y[i]),
{
    let a = YamlView::Sequence(x);
    let b = YamlView::Sequence(y);
    assert(a->Sequence_0 == x && b->Sequence_0 == y);
}

proof fn lemma_equal_mappings(x: YamlEntries, y: YamlEntries)
    ensures
        equal_entries(x, y) <==> x.len() == y.len() && forall|i: int|
            0 <= i < x.len() ==> has_entry_from(#[trigger] x[i], y, 0),
{
    let a = YamlView::Mapping(x);
    let b = YamlView::Mapping(y);
    assert(a->Mapping_0 == x && b->Mapping_0 == y);
}

/// Whether two values are equal.
pub fn same_value(a: &Yaml, b: &Yaml) -> (r: bool)
    ensures
        r == equal(tree(*a), tree(*b)),
    decreases a, 1nat,
{
    match (a, b) {
        (Yaml::Null, Yaml::Null) => true,
        (Yaml::Bool(x), Yaml::Bool(y)) => *x == *y,
        (Yaml::Number(x), Yaml::Number(y)) => same_numbers(x, y),
        (Yaml::String(x), Yaml::String(y)) => same(x.as_str(), y.as_str()),
        (Yaml::Sequence(x), Yaml::Sequence(y)) => {
            proof {
                lemma_sequence_tree(*x);
                lemma_sequence_tree(*y);
                lemma_equal_sequences(trees(x@), trees(y@));
            }
            if x.len() != y.len() {
                return false;
            }
            let mut i: usize = 0;
            while i < x.len()
                invariant
                    *a == Yaml::Sequence(*x),
                    x@.len() == y@.len(),
                    i <= x@.len(),
                    forall|j: int| 0 <= j < i ==> equal(#[trigger] trees(x@)[j], trees(y@)[j]),
                    equal(tree(*a), tree(*b)) <==> trees(x@).len() == trees(y@).len() && forall|
                        i: int,
                    |
                        0 <= i < trees(x@).len() ==> equal(#[trigger] trees(x@)[i], trees(y@)[i]),
                decreases x.len() - i,
            {
                proof {
                    let whole = *a;
                    assert(whole->Sequence_0 == *x);
                    assert(decreases_to!(whole => whole->Sequence_0));
                    assert(decreases_to!(*x => x[i as int]));
                }
                if !same_value(&x[i], &y[i]) {
                    proof {
                        assert(trees(x@)[i as int] == tree(x@[i as int]));
                    }
                    return false;
                }
                i = i + 1;
            }
            true
        },
        (Yaml::Mapping(x), Yaml::Mapping(y)) => {
            proof {
                lemma_mapping_tree(*x);
                lemma_mapping_tree(*y);
                let whole = *a;
                assert(whole->Mapping_0 == *x);
                assert(decreases_to!(whole => whole->Mapping_0));
            }
            same_entries(x, y)
        },
        (Yaml::Tagged(s, x), Yaml::Tagged(t, y)) => {
            if !same(s.as_str(), t.as_str()) {
                return false;
            }
            proof {
                let whole = *a;
                assert(whole->Tagged_1 == *x);
                assert(decreases_to!(whole => whole->Tagged_1));
            }
            same_value(x, y)
        },
        _ => false,
    }
}

/// Whether two mappings are equal, whatever the order of their entries.
pub fn same_entries(x: &Vec<(Yaml, Yaml)>, y: &Vec<(Yaml, Yaml)>) -> (r: bool)
    ensures
        r == equal_entries(entry_trees(x@), entry_trees(y@)),
    decreases x, 0nat,
{
    let ghost xs = entry_trees(x@);
    let ghost ys = entry_trees(y@);
    proof {
        lemma_equal_mappings(xs, ys);
    }
    if x.len() != y.len() {
        return false;
    }
    let mut i: usize = 0;
    while i < x.len()
        invariant
            xs == entry_trees(x@),
            ys == entry_trees(y@),
            x@.len() == y@.len(),
            i <= x@.len(),
            forall|k: int| 0 <= k < i ==> has_entry_from(#[trigger] xs[k], ys, 0),
            equal_entries(xs, ys) <==> xs.len() == ys.len() && forall|i: int|
                0 <= i < xs.len() ==> has_entry_from(#[trigger] xs[i], ys, 0),
        decreases x.len() - i,
    {
        proof {
            assert(decreases_to!(*x => x[i as int]));
            let e = x@[i as int];
            assert(decreases_to!(e => e.0));
            assert(decreases_to!(e => e.1));
            assert(xs[i as int] == (tree(e.0), tree(e.1)));
        }
        let mut j: usize = 0;
        while j < y.len() && !(same_value(&x[i].0, &y[j].0) && same_value(&x[i].1, &y[j].1))
            invariant
                i < x@.len(),
                ys == entry_trees(y@),
                xs[i as int] == (tree(x@[i as int].0), tree(x@[i as int].1)),
                decreases_to!(*x => x@[i as int].0),
                decreases_to!(*x => x@[i as int].1),
                j <= y@.len(),
                has_entry_from(xs[i as int], ys, 0) == has_entry_from(xs[i as int], ys, j as int),
            decreases y.len() - j,
        {
            proof {
                assert(ys[j as int] == (tree(y@[j as int].0), tree(y@[j as int].1)));
            }
            j = j + 1;
        }
        if j == y.len() {
            proof {
                assert(!has_entry_from(xs[i as int], ys, 0));
            }
            return false;
        }
        proof {
            assert(ys[j as int] == (tree(y@[j as int].0), tree(y@[j as int].1)));
        }
        i = i + 1;
    }
    true
}

proof fn lemma_valid_item(items: Seq<YamlView>, i: int)
    requires
        is_valid(YamlView::Sequence(items)),
        0 <= i < items.len(),
    ensures
        is_valid(items[i]),
{
    assert(items == YamlView::Sequence(items)->Sequence_0);
}

pub proof fn lemma_valid_entry(entries: YamlEntries, i: int)
    requires
        is_valid(YamlView::Mapping(entries)),
        0 <= i < entries.len(),
    ensures
        is_valid(entries[i].0),
        is_valid(entries[i].1),
        distinct_keys(entries),
{
    assert(entries == YamlView::Mapping(entries)->Mapping_0);
}

/// `yaml_serde::Number::clone` gives the same number.
#[verifier::external_body]
fn clone_number(n: &yaml_serde::Number) -> (r: yaml_serde::Number)
    ensures
        r == *n,
{
    n.clone()
}

impl Dup for Yaml {
    fn dup(&self) -> (r: Self)
        decreases self,
    {
        match self {
            Yaml::Null => Yaml::Null,
            Yaml::Bool(b) => Yaml::Bool(*b),
            Yaml::Number(n) => Yaml::Number(clone_number(n)),
            Yaml::String(s) => Yaml::String(s.clone()),
            Yaml::Sequence(items) => {
                let mut out: Vec<Yaml> = Vec::new();
                let mut i: usize = 0;
                while i < items.len()
                    invariant
                        *self == Yaml::Sequence(*items),
                        i <= items@.len(),
                        out@.len() == i,
                        forall|j: int| 0 <= j < i ==> tree(#[trigger] out@[j]) == tree(items@[j]),
                    decreases items.len() - i,
                {
                    proof {
                        let whole = *self;
                        assert(whole->Sequence_0 == *items);
                        assert(decreases_to!(whole => whole->Sequence_0));
                        assert(decreases_to!(*items => items[i as int]));
                    }
                    out.push(items[i].dup());
                    i = i + 1;
                }
                let r = Yaml::Sequence(out);
                proof {
                    assert(tree(r)->Sequence_0 =~= tree(*self)->Sequence_0);
                }
                r
            },
            Yaml::Mapping(entries) => {
                let mut out: Vec<(Yaml, Yaml)> = Vec::new();
                let mut i: usize = 0;
                while i < entries.len()
                    invariant
                        *self == Yaml::Mapping(*entries),
                        i <= entries@.len(),
                        out@.len() == i,
                        forall|j: int|
                            0 <= j < i ==> tree((#[trigger] out@[j]).0) == tree(entries@[j].0)
                                && tree(out@[j].1) == tree(entries@[j].1),
                    decreases entries.len() - i,
                {
                    proof {
                        let whole = *self;
                        assert(whole->Mapping_0 == *entries);
                        assert(decreases_to!(whole => whole->Mapping_0));
                        assert(decreases_to!(*entries => entries[i as int]));
                        let e = entries@[i as int];
                        assert(decreases_to!(e => e.0));
                        assert(decreases_to!(e => e.1));
                    }
                    out.push((entries[i].0.dup(), entries[i].1.dup()));
                    i = i + 1;
                }
                let r = Yaml::Mapping(out);
                proof {
                    assert(tree(r)->Mapping_0 =~= tree(*self)->Mapping_0);
                }
                r
            },
            Yaml::Tagged(tag, value) => {
                proof {
                    let whole = *self;
                    assert(whole->Tagged_1 == *value);
                    assert(decreases_to!(whole => whole->Tagged_1));
                }
                let copy: Yaml = (**value).dup();
                Yaml::Tagged(tag.clone(), Box::new(copy))
            },
        }
    }
}

/// Puts a `yaml_serde::Value` together from its top level, one variant each. A
/// mapping keeps the order of its entries.
#[verifier::external_body]
fn close_value(node: YamlNode) -> (r: yaml_serde::Value)
    requires
        node matches YamlNode::Mapping(entries) ==> distinct_keys(value_entries(entries@)),
        node matches YamlNode::Tagged(tag, _) ==> is_tag(tag@),
    ensures
        value_tree(r) == node_tree(node),
{
    match node {
        YamlNode::Null => yaml_serde::Value::Null,
        YamlNode::Bool(b) => yaml_serde::Value::Bool(b),
        YamlNode::Number(n) => yaml_serde::Value::Number(n),
        YamlNode::String(s) => yaml_serde::Value::String(s),
        YamlNode::Sequence(items) => yaml_serde::Value::Sequence(items),
        YamlNode::Mapping(entries) => yaml_serde::Value::Mapping(entries.into_iter().collect()),
        YamlNode::Tagged(tag, value) => yaml_serde::Value::Tagged(
            Box::new(
                yaml_serde::value::TaggedValue { tag: yaml_serde::value::Tag::new(tag), value },
            ),
        ),
    }
}

/// The `yaml_serde::Value` of a plain value.
fn write_value(y: &Yaml) -> (r: yaml_serde::Value)
    requires
        is_valid(tree(*y)),
    ensures
        value_tree(r) == tree(*y),
    decreases y,
{
    match y {
        Yaml::Null => close_value(YamlNode::Null),
        Yaml::Bool(b) => close_value(YamlNode::Bool(*b)),
        Yaml::Number(n) => close_value(YamlNode::Number(clone_number(n))),
        Yaml::String(s) => close_value(YamlNode::String(s.clone())),
        Yaml::Sequence(items) => {
            let mut out: Vec<yaml_serde::Value> = Vec::new();
            let mut i: usize = 0;
            proof {
                lemma_sequence_tree(*items);
            }
            while i < items.len()
                invariant
                    *y == Yaml::Sequence(*items),
                    is_valid(YamlView::Sequence(trees(items@))),
                    i <= items@.len(),
                    out@.len() == i,
                    forall|k: int|
                        0 <= k < i ==> value_tree(#[trigger] out@[k]) == tree(items@[k]),
                decreases items.len() - i,
            {
                proof {
                    let whole = *y;
                    assert(whole->Sequence_0 == *items);
                    assert(decreases_to!(whole => whole->Sequence_0));
                    assert(decreases_to!(*items => items[i as int]));
                    lemma_valid_item(trees(items@), i as int);
                    assert(trees(items@)[i as int] == tree(items@[i as int]));
                }
                out.push(write_value(&items[i]));
                i = i + 1;
            }
            proof {
                assert(out@.map_values(|v: yaml_serde::Value| value_tree(v)) =~= trees(items@));
            }
            close_value(YamlNode::Sequence(out))
        },
        Yaml::Mapping(entries) => {
            let mut out: Vec<(yaml_serde::Value, yaml_serde::Value)> = Vec::new();
            let mut i: usize = 0;
            proof {
                lemma_mapping_tree(*entries);
            }
            while i < entries.len()
                invariant
                    *y == Yaml::Mapping(*entries),
                    is_valid(YamlView::Mapping(entry_trees(entries@))),
                    i <= entries@.len(),
                    out@.len() == i,
                    forall|k: int|
                        0 <= k < i ==> value_tree((#[trigger] out@[k]).0) == tree(entries@[k].0)
                            && value_tree(out@[k].1) == tree(entries@[k].1),
                decreases entries.len() - i,
            {
                proof {
                    let whole = *y;
                    assert(whole->Mapping_0 == *entries);
                    assert(decreases_to!(whole => whole->Mapping_0));
                    assert(decreases_to!(*entries => entries[i as int]));
                    let e = entries@[i as int];
                    assert(decreases_to!(e => e.0));
                    assert(decreases_to!(e => e.1));
                    lemma_valid_entry(entry_trees(entries@), i as int);
                    assert(entry_trees(entries@)[i as int] == (tree(e.0), tree(e.1)));
                }
                out.push((write_value(&entries[i].0), write_value(&entries[i].1)));
                i = i + 1;
            }
            proof {
                assert(value_entries(out@) =~= entry_trees(entries@));
                assert(distinct_keys(YamlView::Mapping(entry_trees(entries@))->Mapping_0));
            }
            close_value(YamlNode::Mapping(out))
        },
        Yaml::Tagged(tag, value) => {
            proof {
                let whole = *y;
                assert(whole->Tagged_1 == *value);
                assert(decreases_to!(whole => whole->Tagged_1));
            }
            let inner = write_value(value);
            close_value(YamlNode::Tagged(tag.clone(), inner))
        },
    }
}

/// The document text of a value, as `yaml_serde` writes it.
pub uninterp spec fn yaml_text(y: YamlView) -> Result<Seq<char>, Seq<char>>;

/// `yaml_serde::to_string` of a `yaml_serde::Value`. The outcome is a function
/// of what the value holds; how values are written is left unsaid. A failure is
/// given by its `Display` text.
#[verifier::external_body]
fn value_to_text(v: &yaml_serde::Value) -> (r: Result<String, String>)
    ensures
        match r {
            Ok(s) => yaml_text(value_tree(*v)) == Ok::<Seq<char>, Seq<char>>(s@),
            Err(e) => yaml_text(value_tree(*v)) == Err::<Seq<char>, Seq<char>>(e@),
        },
{
    yaml_serde::to_string(v).map_err(|e| e.to_string())
}

/// The document text of a value.
pub fn document_text(y: &Yaml) -> (r: Result<String, String>)
    requires
        is_valid(tree(*y)),
    ensures
        match r {
            Ok(s) => yaml_text(tree(*y)) == Ok::<Seq<char>, Seq<char>>(s@),
            Err(e) => yaml_text(tree(*y)) == Err::<Seq<char>, Seq<char>>(e@),
        },
{
    value_to_text(&write_value(y))
}

/// A value as `{:?}` writes it.
pub uninterp spec fn yaml_debug(y: YamlView) -> Seq<char>;

/// `Debug` of `yaml_serde::Value`. The text is a function of what the value
/// holds; which it is is left unsaid.
#[verifier::external_body]
fn value_debug(v: &yaml_serde::Value) -> (r: String)
    ensures
        r@ == yaml_debug(value_tree(*v)),
{
    format!("{:?}", v)
}

/// A value as `{:?}` writes it.
pub fn debug_text(y: &Yaml) -> (r: String)
    requires
        is_valid(tree(*y)),
    ensures
        r@ == yaml_debug(tree(*y)),
{
    value_debug(&write_value(y))
}

/// A mapping with the value of a string key replaced, or with the key added at
/// the end.
pub open spec fn with_key(entries: YamlEntries, key: Seq<char>, value: YamlView) -> YamlEntries {
    match find_key(entries, key) {
        Some(i) => entries.update(i, (YamlView::String(key), value)),
        None => entries.push((YamlView::String(key), value)),
    }
}

/// A mapping without a string key; the other entries keep their order.
pub open spec fn without_key(entries: YamlEntries, key: Seq<char>) -> YamlEntries {
    match find_key(entries, key) {
        Some(i) => entries.remove(i),
        None => entries,
    }
}

/// Set the value of a string key.
pub fn set_key(entries: &mut Vec<(Yaml, Yaml)>, key: &str, value: Yaml)
    ensures
        entry_trees(final(entries)@) == with_key(entry_trees(old(entries)@), key@, tree(value)),
{
    let ghost before = entry_trees(entries@);
    match key_position(entries, key) {
        Some(i) => {
            entries[i] = (Yaml::String(key.to_owned()), value);
            proof {
                assert(entry_trees(entries@) =~= before.update(
                    i as int,
                    (YamlView::String(key@), tree(value)),
                ));
            }
        },
        None => {
            entries.push((Yaml::String(key.to_owned()), value));
            proof {
                assert(entry_trees(entries@) =~= before.push(
                    (YamlView::String(key@), tree(value)),
                ));
            }
        },
    }
}

/// Take a string key out of a mapping.
pub fn remove_key(entries: &mut Vec<(Yaml, Yaml)>, key: &str) -> (r: bool)
    ensures
        entry_trees(final(entries)@) == without_key(entry_trees(old(entries)@), key@),
        r == (find_key(entry_trees(old(entries)@), key@) is Some),
{
    let ghost before = entry_trees(entries@);
    match key_position(entries, key) {
        Some(i) => {
            let _ = entries.remove(i);
            proof {
                assert(entry_trees(entries@) =~= before.remove(i as int));
            }
            true
        },
        None => false,
    }
}

/// A value with the entries of the mapping under its tags replaced.
pub open spec fn with_mapping(y: YamlView, entries: YamlEntries) -> YamlView
    decreases y,
{
    match y {
        YamlView::Tagged(tag, value) => YamlView::Tagged(
            tag,
            Box::new(with_mapping(*value, entries)),
        ),
        _ => YamlView::Mapping(entries),
    }
}

impl Yaml {
    /// The value with the entries of the mapping under its tags replaced.
    pub fn replace_mapping(&self, entries: Vec<(Yaml, Yaml)>) -> (r: Yaml)
        ensures
            tree(r) == with_mapping(tree(*self), entry_trees(entries@)),
        decreases self,
    {
        match self {
            Yaml::Tagged(tag, value) => {
                proof {
                    let whole = *self;
                    assert(whole->Tagged_1 == *value);
                    assert(decreases_to!(whole => whole->Tagged_1));
                }
                Yaml::Tagged(tag.clone(), Box::new(value.replace_mapping(entries)))
            },
            _ => {
                proof {
                    lemma_mapping_tree(entries);
                }
                Yaml::Mapping(entries)
            },
        }
    }
}

/// A mapping with distinct keys, and valid keys and values.
pub open spec fn is_valid_mapping(entries: YamlEntries) -> bool {
    distinct_keys(entries) && forall|i: int|
        #![trigger entries[i]]
        0 <= i < entries.len() ==> is_valid(entries[i].0) && is_valid(entries[i].1)
}

pub proof fn lemma_valid_mapping(entries: YamlEntries)
    ensures
        is_valid(YamlView::Mapping(entries)) == is_valid_mapping(entries),
{
    assert(YamlView::Mapping(entries)->Mapping_0 == entries);
}

pub proof fn lemma_with_key_valid(entries: YamlEntries, key: Seq<char>, value: YamlView)
    requires
        is_valid_mapping(entries),
        is_valid(value),
    ensures
        is_valid_mapping(with_key(entries, key, value)),
{
    lemma_find_key_from(entries, key, 0);
    let r = with_key(entries, key, value);
    assert forall|i: int, j: int|
        #![trigger r[i], r[j]]
        0 <= i < r.len() && 0 <= j < r.len() && i != j implies !equal(r[i].0, r[j].0) by {
        let s = YamlView::String(key);
        if i < entries.len() {
            assert(equal(entries[i].0, s) <==> entries[i].0 == s);
        }
        if j < entries.len() {
            assert(equal(s, entries[j].0) <==> entries[j].0 == s);
        }
    }
}

pub proof fn lemma_without_key_valid(entries: YamlEntries, key: Seq<char>)
    requires
        is_valid_mapping(entries),
    ensures
        is_valid_mapping(without_key(entries, key)),
{
    lemma_find_key_from(entries, key, 0);
}

pub proof fn lemma_get_valid(entries: YamlEntries, key: Seq<char>)
    requires
        is_valid_mapping(entries),
    ensures
        get(entries, key) matches Some(v) ==> is_valid(v),
{
    lemma_find_key_from(entries, key, 0);
}

pub proof fn lemma_with_mapping_valid(y: YamlView, entries: YamlEntries)
    requires
        is_valid(y),
        is_valid_mapping(entries),
    ensures
        is_valid(with_mapping(y, entries)),
    decreases y,
{
    match y {
        YamlView::Tagged(_, value) => {
            lemma_with_mapping_valid(*value, entries);
        },
        _ => {
            lemma_valid_mapping(entries);
        },
    }
}

pub proof fn lemma_mapping_valid(y: YamlView)
    requires
        is_valid(y),
    ensures
        mapping(y) matches Some(e) ==> is_valid_mapping(e),
    decreases y,
{
    match y {
        YamlView::Tagged(_, value) => {
            lemma_mapping_valid(*value);
        },
        YamlView::Mapping(entries) => {
            lemma_valid_mapping(entries);
        },
        _ => {},
    }
}

} // verus!
