//! The outside parsers behind the comment-preserving edits of a workspace yaml.
use vstd::prelude::*;
use crate::manifest::yaml_depth::{joined_levels, levels};
use crate::text::{byte_len, char_index, count_char, rfind_char};
use crate::yaml::{YamlEntries, YamlView};

verus! {

/// `serde_yaml::Value`, the form in which `yamlpatch` takes values.
#[verifier::external_type_specification]
#[verifier::external_body]
pub struct ExPayload(serde_yaml::Value);

/// `yamlpath::Document`, a parsed text that keeps its comments.
#[verifier::external_type_specification]
#[verifier::external_body]
pub struct ExDocument(yamlpath::Document);

/// `yamlpath::Feature`, a part of a document that a route leads to.
#[verifier::external_type_specification]
#[verifier::external_body]
pub struct ExFeature<'a>(yamlpath::Feature<'a>);

/// What a `serde_yaml::Value` holds.
pub uninterp spec fn payload_tree(v: serde_yaml::Value) -> YamlView;

/// What the items of a sequence hold.
pub open spec fn payload_items(items: Seq<serde_yaml::Value>) -> Seq<YamlView> {
    items.map_values(|v: serde_yaml::Value| payload_tree(v))
}

/// What the entries of a mapping hold.
pub open spec fn payload_entries(
    entries: Seq<(serde_yaml::Value, serde_yaml::Value)>,
) -> YamlEntries {
    entries.map_values(
        |e: (serde_yaml::Value, serde_yaml::Value)| (payload_tree(e.0), payload_tree(e.1)),
    )
}

/// The top level of a payload, as far as the layout depends on it.
pub enum PayloadNode {
    String(String),
    Sequence(Vec<serde_yaml::Value>),
    Mapping(Vec<(serde_yaml::Value, serde_yaml::Value)>),
    Other,
}

/// Copies the top level of a `serde_yaml::Value` out of it. A mapping is given
/// by its entries in order.
#[verifier::external_body]
pub(crate) fn open_payload(v: &serde_yaml::Value) -> (r: PayloadNode)
    ensures
        match r {
            PayloadNode::String(s) => payload_tree(*v) == YamlView::String(s@),
            PayloadNode::Sequence(items) => payload_tree(*v) == YamlView::Sequence(
                payload_items(items@),
            ),
            PayloadNode::Mapping(entries) => payload_tree(*v) == YamlView::Mapping(
                payload_entries(entries@),
            ),
            PayloadNode::Other => !(payload_tree(*v) is String) && !(payload_tree(*v) is Sequence)
                && !(payload_tree(*v) is Mapping),
        },
{
    match v {
        serde_yaml::Value::String(s) => PayloadNode::String(s.clone()),
        serde_yaml::Value::Sequence(items) => PayloadNode::Sequence(items.clone()),
        serde_yaml::Value::Mapping(m) => PayloadNode::Mapping(m.clone().into_iter().collect()),
        serde_yaml::Value::Null => PayloadNode::Other,
        serde_yaml::Value::Bool(_) => PayloadNode::Other,
        serde_yaml::Value::Number(_) => PayloadNode::Other,
        serde_yaml::Value::Tagged(_) => PayloadNode::Other,
    }
}

/// The variant `serde_yaml::Value::String`.
#[verifier::external_body]
pub(crate) fn string_payload(s: &str) -> (r: serde_yaml::Value)
    ensures
        payload_tree(r) == YamlView::String(s@),
{
    serde_yaml::Value::String(s.to_string())
}

/// The value that a text holds, as `serde_yaml` reads it.
pub uninterp spec fn payload_document(text: Seq<char>) -> Result<YamlView, Seq<char>>;

/// `serde_yaml::from_str` into a `serde_yaml::Value`. The outcome is a function
/// of the text alone; the grammar is left unsaid. A failure is given by its
/// `Display` text.
#[verifier::external_body]
pub(crate) fn payload_from_text(text: &str) -> (r: Result<serde_yaml::Value, String>)
    ensures
        match r {
            Ok(v) => payload_document(text@) == Ok::<YamlView, Seq<char>>(payload_tree(v)),
            Err(e) => payload_document(text@) == Err::<YamlView, Seq<char>>(e@),
        },
{
    let parsed: Result<serde_yaml::Value, serde_yaml::Error> = serde_yaml::from_str(text);
    parsed.map_err(|e| e.to_string())
}

/// The text of a value, as `serde_yaml` writes it.
pub uninterp spec fn payload_text(y: YamlView) -> Option<Seq<char>>;

/// `serde_yaml::to_string` of a `serde_yaml::Value`. The outcome is a function
/// of what the value holds; how values are written is left unsaid.
#[verifier::external_body]
pub(crate) fn payload_to_text(v: &serde_yaml::Value) -> (r: Option<String>)
    ensures
        (match r {
            Some(s) => Some(s@),
            None => None,
        }) == payload_text(payload_tree(*v)),
{
    serde_yaml::to_string(v).ok()
}

/// The text that a `yamlpath::Document` was made of.
pub uninterp spec fn document_source(d: yamlpath::Document) -> Seq<char>;

/// Why `yamlpath` takes a text for no YAML document; `None` where it is one.
pub uninterp spec fn document_failure(source: Seq<char>) -> Option<Seq<char>>;

/// The number of open block levels that the parser behind `yamlpath` has no room
/// for: its scanner writes ten bytes, and four for each level, into 1024.
pub const MAX_LEVELS: u128 = 254;

/// `yamlpath::Document::new`. The document keeps its text. Whether there is one
/// is a function of the text alone; the grammar is left unsaid. A failure is
/// given by its `Display` text. The document holds offsets of 32 bits, and the
/// call does not return on a text of `u32::MAX` bytes or more, nor on one that
/// opens `MAX_LEVELS` block levels.
#[verifier::external_body]
pub(crate) fn new_document(source: &str) -> (r: Result<yamlpath::Document, String>)
    requires
        byte_len(source@) < u32::MAX,
        levels(source@) < MAX_LEVELS,
    ensures
        match r {
            Ok(d) => document_failure(source@) is None && document_source(d) == source@,
            Err(e) => document_failure(source@) == Some(e@),
        },
{
    yamlpath::Document::new(source).map_err(|e| e.to_string())
}

/// `yamlpath::Document::source`: the text that the document was made of.
#[verifier::external_body]
pub(crate) fn source_text(d: &yamlpath::Document) -> (r: String)
    ensures
        r@ == document_source(*d),
{
    d.source().to_string()
}

/// A part of a document.
pub struct Block {
    /// Its text, with the spaces in front of it.
    pub text: String,
    /// The byte offset behind it.
    pub end: usize,
}

/// Model of [`Block`].
pub struct BlockView {
    pub text: Seq<char>,
    pub end: nat,
}

impl DeepView for Block {
    type V = BlockView;

    open spec fn deep_view(&self) -> BlockView {
        BlockView { text: self.text@, end: self.end as nat }
    }
}

/// The byte offsets at which a `yamlpath::Feature` starts and ends.
pub uninterp spec fn feature_span(f: yamlpath::Feature<'_>) -> (nat, nat);

/// Where the value at a route starts and ends, as `yamlpath` finds it: nowhere
/// where the key at the end of the route has no value.
pub uninterp spec fn span_at(source: Seq<char>, route: Seq<Seq<char>>) -> Result<
    Option<(nat, nat)>,
    Seq<char>,
>;

/// `yamlpath::Document::query_exact` on a route of keys, with a failure as its
/// `Display` text. Where the value stands is a function of the text of the
/// document and the route; how routes are followed is left unsaid.
#[verifier::external_body]
pub(crate) fn query_route<'a>(d: &'a yamlpath::Document, route: &Vec<String>) -> (r: Result<
    Option<yamlpath::Feature<'a>>,
    String,
>)
    ensures
        match r {
            Ok(Some(f)) => span_at(document_source(*d), route.deep_view()) == Ok::<
                Option<(nat, nat)>,
                Seq<char>,
            >(Some(feature_span(f))),
            Ok(None) => span_at(document_source(*d), route.deep_view()) == Ok::<
                Option<(nat, nat)>,
                Seq<char>,
            >(None),
            Err(e) => span_at(document_source(*d), route.deep_view()) == Err::<
                Option<(nat, nat)>,
                Seq<char>,
            >(e@),
        },
{
    let keys: Vec<yamlpath::Component> = route.iter().cloned().map(|k| k.into()).collect();
    d.query_exact(&yamlpath::Route::from(keys)).map_err(|e| e.to_string())
}

/// The byte span in the location of a `yamlpath::Feature`.
#[verifier::external_body]
pub(crate) fn span_of(f: &yamlpath::Feature<'_>) -> (r: (usize, usize))
    ensures
        feature_span(*f) == (r.0 as nat, r.1 as nat),
{
    f.location.byte_span
}

/// A span of a text: neither end is inside a character.
pub open spec fn is_span(source: Seq<char>, span: (nat, nat)) -> bool {
    span.0 <= span.1 && char_index(source, span.0) is Some && char_index(source, span.1) is Some
}

/// The text of a span. Where only spaces stand between the start of its line and
/// the span, they belong to it, except on the first line.
pub open spec fn span_text(source: Seq<char>, span: (nat, nat)) -> Seq<char> {
    let a = char_index(source, span.0)->0;
    let b = char_index(source, span.1)->0;
    match rfind_char(source.take(a), '\n') {
        Some(i) => if forall|j: int| i < j < a ==> #[trigger] source[j] == ' ' {
            source.subrange(i + 1, b)
        } else {
            source.subrange(a, b)
        },
        None => source.subrange(a, b),
    }
}

/// `yamlpath::Document::extract_with_leading_whitespace`, which panics on a span
/// that is none of the document: the text of the span, with the spaces in front
/// of it where nothing else stands there.
#[verifier::external_body]
pub(crate) fn extract(d: &yamlpath::Document, f: &yamlpath::Feature<'_>) -> (r: String)
    requires
        is_span(document_source(*d), feature_span(*f)),
    ensures
        r@ == span_text(document_source(*d), feature_span(*f)),
{
    d.extract_with_leading_whitespace(f).to_string()
}

/// One change that `yamlpatch` makes.
pub struct YamlPatch {
    pub route: Vec<String>,
    /// The new value, or `None` where the entry goes.
    pub replacement: Option<serde_yaml::Value>,
}

/// Model of [`YamlPatch`].
pub struct YamlPatchView {
    pub route: Seq<Seq<char>>,
    pub replacement: Option<YamlView>,
}

impl DeepView for YamlPatch {
    type V = YamlPatchView;

    open spec fn deep_view(&self) -> YamlPatchView {
        YamlPatchView {
            route: self.route.deep_view(),
            replacement: match self.replacement {
                Some(v) => Some(payload_tree(v)),
                None => None,
            },
        }
    }
}

/// The number of bytes that one change adds at most to a text of `len` bytes. A
/// value is written as `serde_yaml` writes it, with a few signs around it. In
/// place of a literal block the lines of a string are written, each indented by
/// two more than the line of its key. A line feed may come at the end.
pub open spec fn growth(len: nat, replacement: Option<YamlView>) -> nat {
    match replacement {
        None => 1,
        Some(v) => 8 + (match payload_text(v) {
            Some(s) => byte_len(s),
            None => 0,
        }) + (match v {
            YamlView::String(s) => byte_len(s) + (count_char(s, '\n') + 1) * (len + 3),
            _ => 0,
        }),
    }
}

/// The text of a value, where it has one.
pub open spec fn written_text(v: YamlView) -> Seq<char> {
    match payload_text(v) {
        Some(s) => s,
        None => Seq::empty(),
    }
}

/// The characters of a string.
pub open spec fn raw_text(v: YamlView) -> Seq<char> {
    match v {
        YamlView::String(s) => s,
        _ => Seq::empty(),
    }
}

/// The number of block levels that are open at once at most after one change.
/// Where an entry goes, rows go with it. A value is written as `serde_yaml`
/// writes it, or in place of a literal block by the lines of a string.
pub open spec fn changed_levels(source: Seq<char>, replacement: Option<YamlView>) -> nat {
    match replacement {
        None => levels(source),
        Some(v) => joined_levels(source, written_text(v), raw_text(v)),
    }
}

/// A text after a change, as `yamlpatch` makes it.
pub uninterp spec fn patched_source(source: Seq<char>, patch: YamlPatchView) -> Result<
    Seq<char>,
    Seq<char>,
>;

/// `yamlpatch::apply_yaml_patches` with one `Op::Replace` or `Op::Remove`. The
/// outcome is a function of the text of the document and the change; how the text
/// is changed is left unsaid. A failure is given by its `Display` text. The new
/// text is parsed, and the call does not return where it has `u32::MAX` bytes or
/// more, or opens `MAX_LEVELS` block levels.
#[verifier::external_body]
pub(crate) fn patch_document(d: &yamlpath::Document, patch: YamlPatch) -> (r: Result<
    yamlpath::Document,
    String,
>)
    requires
        byte_len(document_source(*d)) + growth(
            byte_len(document_source(*d)),
            patch.deep_view().replacement,
        ) < u32::MAX,
        changed_levels(document_source(*d), patch.deep_view().replacement) < MAX_LEVELS,
    ensures
        match r {
            Ok(after) => patched_source(document_source(*d), patch.deep_view()) == Ok::<
                Seq<char>,
                Seq<char>,
            >(document_source(after)),
            Err(e) => patched_source(document_source(*d), patch.deep_view()) == Err::<
                Seq<char>,
                Seq<char>,
            >(e@),
        },
{
    let route: Vec<yamlpath::Component> = patch.route.into_iter().map(|k| k.into()).collect();
    let change = yamlpatch::Patch {
        route: yamlpath::Route::from(route),
        operation: match patch.replacement {
            Some(v) => yamlpatch::Op::Replace(v),
            None => yamlpatch::Op::Remove,
        },
    };
    yamlpatch::apply_yaml_patches(d, &[change]).map_err(|e| e.to_string())
}

} // verus!
