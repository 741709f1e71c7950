//! Editing a workspace yaml so that its comments and its layout survive.
//!
//! The mapping before an edit and the mapping after it are compared, and only
//! what differs is changed in the text.
use vstd::prelude::*;
use crate::manifest::parse_error::{parse_yaml, yaml_value, ParseError, ParseErrorView};
use crate::manifest::yaml_depth::{joined_levels_of, levels, levels_of};
use crate::manifest::yaml_source::{
    changed_levels, document_failure, document_source, extract, growth, is_span, new_document,
    open_payload, patch_document, patched_source, payload_document, payload_entries,
    payload_from_text, payload_items, payload_text, payload_to_text, payload_tree, query_route,
    raw_text, source_text, span_at, span_of, span_text, string_payload, written_text, Block,
    BlockView, MAX_LEVELS, PayloadNode, YamlPatch, YamlPatchView,
};
use crate::strmap::Dup;
use crate::text::{
    byte_len, bytes_of, char_index, chars, concat, concat3, count_of, debug_list, debug_list_text,
    ends_with, find, find_char, find_text, indent, indent_of, index_of_byte, lemma_find_char,
    lemma_find_char_at, lines, push_chars, push_spaces, push_str, same, spaces, starts_with, string,
    substring, text_lines, texts, trim, trim_end, trim_start, trim_start_char, trimmed, trimmed_end,
    trimmed_start, without_leading,
};
use crate::yaml::{
    debug_text, document_text, entry_trees, equal, equal_entries, find_key, get, get_value,
    is_valid, is_valid_mapping, key_position, lemma_get_valid, lemma_mapping_tree,
    lemma_mapping_valid, lemma_valid_mapping, lemma_with_key_valid, lemma_with_mapping_valid,
    lemma_without_key_valid, mapping, remove_key, same_entries, same_value, set_key, tree, with_key,
    with_mapping, without_key, yaml_debug, yaml_text, Yaml, YamlEntries, YamlView,
};

verus! {

/// Why a workspace yaml cannot be edited.
#[derive(Debug, PartialEq)]
pub enum YamlEditError {
    Parse(ParseError),
    /// The document is not a mapping.
    NotAMapping,
    /// The value of a top-level key is not a mapping.
    ValueNotAMapping(String),
    /// A key is not a string: the key as `{:?}` writes it.
    KeyNotAString(String),
    /// A mapping that an entry is to be added to is not in the text.
    ParentNotFound(Vec<String>),
    /// The text has more bytes than an offset can count.
    TooLong,
    /// The blocks of the text may be nested too deeply for its parser.
    TooDeep,
    /// A mapping ends inside a character.
    SplitCharacter,
    /// What a parser of the text says.
    Yaml(String),
}

/// Model of [`YamlEditError`].
pub enum YamlEditErrorView {
    Parse(ParseErrorView),
    NotAMapping,
    ValueNotAMapping(Seq<char>),
    KeyNotAString(Seq<char>),
    ParentNotFound(Seq<Seq<char>>),
    TooLong,
    TooDeep,
    SplitCharacter,
    Yaml(Seq<char>),
}

impl DeepView for YamlEditError {
    type V = YamlEditErrorView;

    open spec fn deep_view(&self) -> YamlEditErrorView {
        match self {
            YamlEditError::Parse(e) => YamlEditErrorView::Parse(e.deep_view()),
            YamlEditError::NotAMapping => YamlEditErrorView::NotAMapping,
            YamlEditError::ValueNotAMapping(key) => YamlEditErrorView::ValueNotAMapping(key@),
            YamlEditError::KeyNotAString(key) => YamlEditErrorView::KeyNotAString(key@),
            YamlEditError::ParentNotFound(route) => YamlEditErrorView::ParentNotFound(
                route.deep_view(),
            ),
            YamlEditError::TooLong => YamlEditErrorView::TooLong,
            YamlEditError::TooDeep => YamlEditErrorView::TooDeep,
            YamlEditError::SplitCharacter => YamlEditErrorView::SplitCharacter,
            YamlEditError::Yaml(message) => YamlEditErrorView::Yaml(message@),
        }
    }
}

impl YamlEditErrorView {
    /// The message for the user.
    pub open spec fn message(self) -> Seq<char> {
        match self {
            YamlEditErrorView::Parse(e) => e.message,
            YamlEditErrorView::NotAMapping => "top-level yaml must be a mapping"@,
            YamlEditErrorView::ValueNotAMapping(key) => "`"@ + key + "` must be a mapping"@,
            YamlEditErrorView::KeyNotAString(key) =>
                "workspace yaml mapping key must be a string, got "@ + key,
            YamlEditErrorView::ParentNotFound(route) => "parent route "@ + debug_list(route)
                + " not found in source"@,
            YamlEditErrorView::TooLong => "workspace yaml is too long to edit"@,
            YamlEditErrorView::TooDeep => "workspace yaml is nested too deeply to edit"@,
            YamlEditErrorView::SplitCharacter => "parent route ends inside a character"@,
            YamlEditErrorView::Yaml(message) => message,
        }
    }
}

impl YamlEditError {
    /// The message for the user.
    pub fn message(&self) -> (r: String)
        ensures
            r@ == self.deep_view().message(),
    {
        match self {
            YamlEditError::Parse(e) => e.message.clone(),
            YamlEditError::NotAMapping => "top-level yaml must be a mapping".to_owned(),
            YamlEditError::ValueNotAMapping(key) => concat3(
                "`",
                key.as_str(),
                "` must be a mapping",
            ),
            YamlEditError::KeyNotAString(key) => concat(
                "workspace yaml mapping key must be a string, got ",
                key.as_str(),
            ),
            YamlEditError::ParentNotFound(route) => concat3(
                "parent route ",
                debug_list_text(route).as_str(),
                " not found in source",
            ),
            YamlEditError::TooLong => "workspace yaml is too long to edit".to_owned(),
            YamlEditError::TooDeep => "workspace yaml is nested too deeply to edit".to_owned(),
            YamlEditError::SplitCharacter => "parent route ends inside a character".to_owned(),
            YamlEditError::Yaml(message) => message.clone(),
        }
    }
}

/// The number of spaces that a child is indented by.
pub const INDENT_STEP: u128 = 2;

/// The indentation of the children of a mapping, from its lines: that of the
/// first line that is neither blank nor a comment.
pub open spec fn child_indent(lines: Seq<Seq<char>>, depth: nat) -> nat
    decreases lines.len(),
{
    if lines.len() == 0 {
        depth * 2
    } else {
        let line = lines[0];
        let text = trim_start(line);
        if text.len() == 0 || text[0] == '#' {
            child_indent(lines.drop_first(), depth)
        } else {
            indent(line)
        }
    }
}

/// The indentation of the children of the mapping with the given text. Where
/// the text shows none, two spaces for each level above them.
pub fn detect_child_indent(parent_content: &str, parent_depth: usize) -> (r: u128)
    ensures
        r == child_indent(lines(parent_content@), parent_depth as nat),
{
    let text = chars(parent_content);
    let all = text_lines(text.as_slice());
    let ghost ls = texts(all@);
    let mut i: usize = 0;
    proof {
        assert(ls.skip(0) == ls);
    }
    while i < all.len()
        invariant
            ls == texts(all@),
            ls == lines(parent_content@),
            i <= all@.len(),
            child_indent(ls, parent_depth as nat) == child_indent(
                ls.skip(i as int),
                parent_depth as nat,
            ),
        decreases all.len() - i,
    {
        let line = all[i].as_slice();
        let content = trimmed_start(line);
        proof {
            let rest = ls.skip(i as int);
            assert(rest[0] == all@[i as int]@);
            assert(rest.drop_first() == ls.skip(i + 1));
        }
        if content.len() == 0 || content[0] == '#' {
            i = i + 1;
        } else {
            return indent_of(line);
        }
    }
    proof {
        assert(ls.skip(i as int).len() == 0);
    }
    parent_depth as u128 * INDENT_STEP
}

/// The text of a scalar without the line break behind it.
pub open spec fn scalar_text(y: YamlView) -> Seq<char> {
    match payload_text(y) {
        Some(s) => trim_end(s),
        None => trim_end(Seq::empty()),
    }
}

/// The text of a key.
pub open spec fn key_text(key: Seq<char>) -> Seq<char> {
    match payload_text(YamlView::String(key)) {
        Some(s) => trim_end(s),
        None => trim_end(key.push('\n')),
    }
}

fn render_scalar(value: &serde_yaml::Value) -> (r: String)
    ensures
        r@ == scalar_text(payload_tree(*value)),
{
    match payload_to_text(value) {
        Some(s) => {
            let s = chars(s.as_str());
            string(trimmed_end(s.as_slice()))
        },
        None => String::new(),
    }
}

/// The text of a key, with quotes where it needs them.
fn scalar_key_str(key: &str) -> (r: String)
    ensures
        r@ == key_text(key@),
{
    let raw = match payload_to_text(&string_payload(key)) {
        Some(s) => s,
        None => {
            let mut s = key.to_owned();
            s.push('\n');
            s
        },
    };
    let raw = chars(raw.as_str());
    string(trimmed_end(raw.as_slice()))
}

/// The key of an entry of a mapping.
pub open spec fn child_key(key: YamlView) -> Seq<char> {
    match key {
        YamlView::String(s) => s,
        _ => scalar_text(key),
    }
}

/// An entry as block-style lines, each with `pad` in front of it.
pub open spec fn rendered_entry(key: Seq<char>, y: YamlView, pad: Seq<char>) -> Seq<char>
    decreases y, 0int,
{
    match y {
        YamlView::Mapping(m) if m.len() > 0 => pad + key_text(key) + ":\n"@ + rendered_children(
            m,
            m.len() as int,
            pad + "  "@,
        ),
        YamlView::Sequence(items) if items.len() > 0 => pad + key_text(key) + ":\n"@
            + rendered_items(items, items.len() as int, pad + "  "@),
        _ => pad + key_text(key) + ": "@ + scalar_text(y) + "\n"@,
    }
}

/// The first `n` entries of a mapping.
pub open spec fn rendered_children(m: YamlEntries, n: int, pad: Seq<char>) -> Seq<char>
    decreases m, n,
{
    if 0 < n <= m.len() {
        rendered_children(m, n - 1, pad) + rendered_entry(child_key(m[n - 1].0), m[n - 1].1, pad)
    } else {
        Seq::empty()
    }
}

/// The first `n` items of a sequence.
pub open spec fn rendered_items(items: Seq<YamlView>, n: int, pad: Seq<char>) -> Seq<char>
    decreases n,
{
    if 0 < n <= items.len() {
        rendered_items(items, n - 1, pad) + rendered_item(items[n - 1], pad)
    } else {
        Seq::empty()
    }
}

/// An item of a sequence. The lines of a nested mapping or sequence stand under
/// one dash.
pub open spec fn rendered_item(item: YamlView, pad: Seq<char>) -> Seq<char> {
    if item is Mapping || item is Sequence {
        let ls = lines(
            match payload_text(item) {
                Some(s) => s,
                None => Seq::empty(),
            },
        );
        rendered_lines(ls, ls.len() as int, pad)
    } else {
        pad + "- "@ + scalar_text(item) + "\n"@
    }
}

/// The first `n` lines of a nested item.
pub open spec fn rendered_lines(ls: Seq<Seq<char>>, n: int, pad: Seq<char>) -> Seq<char>
    decreases n,
{
    if 0 < n <= ls.len() {
        rendered_lines(ls, n - 1, pad) + (pad + (if n == 1 {
            "- "@
        } else {
            "  "@
        }) + ls[n - 1] + "\n"@)
    } else {
        Seq::empty()
    }
}

fn render_lines(raw: &str, pad: &Vec<char>, out: &mut Vec<char>)
    ensures
        final(out)@ == old(out)@ + rendered_lines(
            lines(raw@),
            lines(raw@).len() as int,
            pad@,
        ),
{
    let text = chars(raw);
    let all = text_lines(text.as_slice());
    let ghost ls = texts(all@);
    let ghost start = out@;
    let mut i: usize = 0;
    while i < all.len()
        invariant
            ls == texts(all@),
            i <= all@.len(),
            out@ == start + rendered_lines(ls, i as int, pad@),
        decreases all.len() - i,
    {
        let ghost before = out@;
        push_chars(out, pad.as_slice());
        if i == 0 {
            push_str(out, "- ");
        } else {
            push_str(out, "  ");
        }
        push_chars(out, all[i].as_slice());
        push_str(out, "\n");
        proof {
            let mark = if i == 0 {
                "- "@
            } else {
                "  "@
            };
            assert(ls[i as int] == all@[i as int]@);
            assert(out@ =~= before + (pad@ + mark + ls[i as int] + "\n"@));
            assert(out@ =~= start + rendered_lines(ls, i + 1, pad@));
        }
        i = i + 1;
    }
}

fn render_item(item: &serde_yaml::Value, pad: &Vec<char>, out: &mut Vec<char>)
    ensures
        final(out)@ == old(out)@ + rendered_item(payload_tree(*item), pad@),
{
    let ghost start = out@;
    let nested = match open_payload(item) {
        PayloadNode::Sequence(_) => true,
        PayloadNode::Mapping(_) => true,
        PayloadNode::String(_) => false,
        PayloadNode::Other => false,
    };
    if nested {
        let raw = match payload_to_text(item) {
            Some(s) => s,
            None => String::new(),
        };
        render_lines(raw.as_str(), pad, out);
    } else {
        push_chars(out, pad.as_slice());
        push_str(out, "- ");
        push_str(out, render_scalar(item).as_str());
        push_str(out, "\n");
        proof {
            assert(out@ =~= start + rendered_item(payload_tree(*item), pad@));
        }
    }
}

fn render_head(key: &str, pad: &Vec<char>, end: &str, out: &mut Vec<char>)
    ensures
        final(out)@ == old(out)@ + (pad@ + key_text(key@) + end@),
{
    let ghost start = out@;
    push_chars(out, pad.as_slice());
    push_str(out, scalar_key_str(key).as_str());
    push_str(out, end);
    proof {
        assert(out@ =~= start + (pad@ + key_text(key@) + end@));
    }
}

fn deeper(pad: &Vec<char>) -> (r: Vec<char>)
    ensures
        r@ == pad@ + "  "@,
{
    let mut r: Vec<char> = Vec::new();
    push_chars(&mut r, pad.as_slice());
    push_str(&mut r, "  ");
    proof {
        assert(r@ =~= pad@ + "  "@);
    }
    r
}

/// Write an entry as block-style lines.
pub fn render_entry(key: &str, value: &serde_yaml::Value, pad: &Vec<char>, out: &mut Vec<char>)
    ensures
        final(out)@ == old(out)@ + rendered_entry(key@, payload_tree(*value), pad@),
    decreases payload_tree(*value),
{
    let ghost start = out@;
    let ghost y = payload_tree(*value);
    match open_payload(value) {
        PayloadNode::Mapping(entries) if entries.len() > 0 => {
            let ghost m = payload_entries(entries@);
            render_head(key, pad, ":\n", out);
            let ghost head = pad@ + key_text(key@) + ":\n"@;
            let inner = deeper(pad);
            let mut i: usize = 0;
            proof {
                assert(out@ =~= start + (head + rendered_children(m, 0, inner@)));
            }
            while i < entries.len()
                invariant
                    y == payload_tree(*value),
                    y == YamlView::Mapping(m),
                    m == payload_entries(entries@),
                    i <= entries@.len(),
                    out@ == start + (head + rendered_children(m, i as int, inner@)),
                decreases entries.len() - i,
            {
                let ghost before = out@;
                let child = match open_payload(&entries[i].0) {
                    PayloadNode::String(s) => s,
                    PayloadNode::Sequence(_) => render_scalar(&entries[i].0),
                    PayloadNode::Mapping(_) => render_scalar(&entries[i].0),
                    PayloadNode::Other => render_scalar(&entries[i].0),
                };
                proof {
                    assert(m[i as int] == (
                        payload_tree(entries@[i as int].0),
                        payload_tree(entries@[i as int].1),
                    ));
                    assert(child@ == child_key(m[i as int].0));
                    assert(y->Mapping_0 == m);
                    assert(decreases_to!(y => y->Mapping_0));
                    assert(decreases_to!(m => m[i as int]));
                    let e = m[i as int];
                    assert(decreases_to!(e => e.1));
                }
                render_entry(child.as_str(), &entries[i].1, &inner, out);
                proof {
                    assert(out@ =~= start + (head + rendered_children(m, i + 1, inner@)));
                }
                i = i + 1;
            }
            proof {
                assert(head + rendered_children(m, m.len() as int, inner@) == rendered_entry(
                    key@,
                    y,
                    pad@,
                ));
            }
        },
        PayloadNode::Sequence(items) if items.len() > 0 => {
            let ghost all = payload_items(items@);
            render_head(key, pad, ":\n", out);
            let ghost head = pad@ + key_text(key@) + ":\n"@;
            let inner = deeper(pad);
            let mut i: usize = 0;
            proof {
                assert(out@ =~= start + (head + rendered_items(all, 0, inner@)));
            }
            while i < items.len()
                invariant
                    all == payload_items(items@),
                    i <= items@.len(),
                    out@ == start + (head + rendered_items(all, i as int, inner@)),
                decreases items.len() - i,
            {
                render_item(&items[i], &inner, out);
                proof {
                    assert(all[i as int] == payload_tree(items@[i as int]));
                    assert(out@ =~= start + (head + rendered_items(all, i + 1, inner@)));
                }
                i = i + 1;
            }
        },
        _ => {
            render_head(key, pad, ": ", out);
            push_str(out, render_scalar(value).as_str());
            push_str(out, "\n");
            proof {
                assert(out@ =~= start + (pad@ + key_text(key@) + ": "@ + scalar_text(y) + "\n"@));
            }
        },
    }
}

/// One difference between two mappings.
pub enum Edit {
    /// A change of what is in the text.
    Patch(YamlPatch),
    /// A new entry at the end of the mapping at a route.
    Add(Addition),
}

/// A new entry.
pub struct Addition {
    pub route: Vec<String>,
    pub key: String,
    pub value: serde_yaml::Value,
}

/// Model of [`Edit`].
pub enum EditView {
    Patch(YamlPatchView),
    Add(AdditionView),
}

/// Model of [`Addition`].
pub struct AdditionView {
    pub route: Seq<Seq<char>>,
    pub key: Seq<char>,
    pub value: YamlView,
}

impl DeepView for Addition {
    type V = AdditionView;

    open spec fn deep_view(&self) -> AdditionView {
        AdditionView {
            route: self.route.deep_view(),
            key: self.key@,
            value: payload_tree(self.value),
        }
    }
}

impl DeepView for Edit {
    type V = EditView;

    open spec fn deep_view(&self) -> EditView {
        match self {
            Edit::Patch(p) => EditView::Patch(p.deep_view()),
            Edit::Add(a) => EditView::Add(a.deep_view()),
        }
    }
}

/// A value in the form that the patcher takes.
pub open spec fn bridged(y: YamlView) -> Result<YamlView, YamlEditErrorView> {
    match yaml_text(y) {
        Ok(s) => match payload_document(s) {
            Ok(v) => Ok(v),
            Err(e) => Err(YamlEditErrorView::Yaml(e)),
        },
        Err(e) => Err(YamlEditErrorView::Yaml(e)),
    }
}

fn bridge(value: &Yaml) -> (r: Result<serde_yaml::Value, YamlEditError>)
    requires
        is_valid(tree(*value)),
    ensures
        match r {
            Ok(v) => bridged(tree(*value)) == Ok::<YamlView, YamlEditErrorView>(payload_tree(v)),
            Err(e) => bridged(tree(*value)) == Err::<YamlView, YamlEditErrorView>(e.deep_view()),
        },
{
    match document_text(value) {
        Ok(s) => match payload_from_text(s.as_str()) {
            Ok(v) => Ok(v),
            Err(e) => Err(YamlEditError::Yaml(e)),
        },
        Err(e) => Err(YamlEditError::Yaml(e)),
    }
}

/// The removal of a key.
pub open spec fn removal(route: Seq<Seq<char>>, key: Seq<char>) -> EditView {
    EditView::Patch(YamlPatchView { route: route.push(key), replacement: None })
}

/// The removals of the entries at or after `from` that are gone.
pub open spec fn removals(
    before: YamlEntries,
    after: YamlEntries,
    route: Seq<Seq<char>>,
    from: int,
) -> Result<Seq<EditView>, YamlEditErrorView>
    decreases before.len() - from,
{
    if from < 0 || from >= before.len() {
        Ok(Seq::empty())
    } else {
        match before[from].0 {
            YamlView::String(key) => match removals(before, after, route, from + 1) {
                Ok(rest) => if find_key(after, key) is None {
                    Ok(seq![removal(route, key)] + rest)
                } else {
                    Ok(rest)
                },
                Err(e) => Err(e),
            },
            other => Err(YamlEditErrorView::KeyNotAString(yaml_debug(other))),
        }
    }
}

/// The differences between two mappings.
pub open spec fn diff(before: YamlEntries, after: YamlEntries, route: Seq<Seq<char>>) -> Result<
    Seq<EditView>,
    YamlEditErrorView,
>
    decreases after, after.len() + 1, 0int,
{
    match removals(before, after, route, 0) {
        Ok(gone) => match changes(before, after, route, 0) {
            Ok(changed) => Ok(gone + changed),
            Err(e) => Err(e),
        },
        Err(e) => Err(e),
    }
}

/// The changes of the entries at or after `from`, and the new ones.
pub open spec fn changes(
    before: YamlEntries,
    after: YamlEntries,
    route: Seq<Seq<char>>,
    from: int,
) -> Result<Seq<EditView>, YamlEditErrorView>
    decreases after, after.len() - from, 1int,
{
    if from < 0 || from >= after.len() {
        Ok(Seq::empty())
    } else {
        match after[from].0 {
            YamlView::String(key) => match change(before, after, route, from, key) {
                Ok(edits) => match changes(before, after, route, from + 1) {
                    Ok(rest) => Ok(edits + rest),
                    Err(e) => Err(e),
                },
                Err(e) => Err(e),
            },
            other => Err(YamlEditErrorView::KeyNotAString(yaml_debug(other))),
        }
    }
}

/// The change of one entry: an addition where the key is new; the differences
/// of the two mappings where it held one and holds one; the removal and an
/// addition where it holds entries now; and else a replacement.
pub open spec fn change(
    before: YamlEntries,
    after: YamlEntries,
    route: Seq<Seq<char>>,
    at: int,
    key: Seq<char>,
) -> Result<Seq<EditView>, YamlEditErrorView>
    decreases after, after.len() - at, 0int,
    when 0 <= at < after.len()
{
    proof {
        lemma_mapping_decreases(after[at].1);
        let e = after[at];
        assert(decreases_to!(after => after[at]));
        assert(decreases_to!(e => e.1));
    }
    let new = after[at].1;
    match get(before, key) {
        None => match bridged(new) {
            Ok(value) => Ok(seq![EditView::Add(AdditionView { route, key, value })]),
            Err(e) => Err(e),
        },
        Some(held) => if equal(held, new) {
            Ok(Seq::empty())
        } else {
            match (mapping(held), mapping(new)) {
                (Some(b), Some(a)) => diff(b, a, route.push(key)),
                (None, Some(a)) if a.len() > 0 => match bridged(new) {
                    Ok(value) => Ok(
                        seq![
                            removal(route, key),
                            EditView::Add(AdditionView { route, key, value }),
                        ],
                    ),
                    Err(e) => Err(e),
                },
                _ => match bridged(new) {
                    Ok(value) => Ok(
                        seq![
                            EditView::Patch(
                                YamlPatchView { route: route.push(key), replacement: Some(value) },
                            ),
                        ],
                    ),
                    Err(e) => Err(e),
                },
            }
        },
    }
}

pub proof fn lemma_mapping_decreases(y: YamlView)
    ensures
        mapping(y) matches Some(entries) ==> decreases_to!(y => entries),
    decreases y,
{
    match y {
        YamlView::Tagged(_, value) => {
            lemma_mapping_decreases(*value);
        },
        _ => {},
    }
}

/// Edits behind edits.
pub open spec fn behind(done: Seq<EditView>, rest: Result<Seq<EditView>, YamlEditErrorView>) -> Result<
    Seq<EditView>,
    YamlEditErrorView,
> {
    match rest {
        Ok(edits) => Ok(done + edits),
        Err(e) => Err(e),
    }
}

proof fn lemma_behind(
    a: Seq<EditView>,
    b: Seq<EditView>,
    rest: Result<Seq<EditView>, YamlEditErrorView>,
)
    ensures
        behind(a, behind(b, rest)) == behind(a + b, rest),
        behind(Seq::empty(), rest) == rest,
{
    if let Ok(edits) = rest {
        assert(a + (b + edits) =~= a + b + edits);
        assert(Seq::<EditView>::empty() + edits =~= edits);
    }
}

fn dup_route(route: &Vec<String>) -> (r: Vec<String>)
    ensures
        r.deep_view() == route.deep_view(),
{
    let mut r: Vec<String> = Vec::new();
    let mut i: usize = 0;
    while i < route.len()
        invariant
            i <= route@.len(),
            r@.len() == i,
            forall|j: int| 0 <= j < i ==> (#[trigger] r@[j])@ == route@[j]@,
        decreases route.len() - i,
    {
        r.push(route[i].clone());
        i = i + 1;
    }
    proof {
        assert(r.deep_view() =~= route.deep_view());
    }
    r
}

fn below(route: &Vec<String>, key: &str) -> (r: Vec<String>)
    ensures
        r.deep_view() == route.deep_view().push(key@),
{
    let mut r = dup_route(route);
    let ghost before = r.deep_view();
    r.push(key.to_owned());
    proof {
        assert(r.deep_view() =~= before.push(key@));
    }
    r
}

fn push_edit(out: &mut Vec<Edit>, edit: Edit)
    ensures
        final(out).deep_view() == old(out).deep_view() + seq![edit.deep_view()],
{
    let ghost before = out.deep_view();
    out.push(edit);
    proof {
        assert(out.deep_view() =~= before + seq![edit.deep_view()]);
    }
}

/// Collect the removals of the entries that are gone.
fn removals_into(
    before: &Vec<(Yaml, Yaml)>,
    after: &Vec<(Yaml, Yaml)>,
    route: &Vec<String>,
    out: &mut Vec<Edit>,
) -> (r: Result<(), YamlEditError>)
    requires
        is_valid_mapping(entry_trees(before@)),
    ensures
        match r {
            Ok(()) => removals(
                entry_trees(before@),
                entry_trees(after@),
                route.deep_view(),
                0,
            ) matches Ok(edits) && final(out).deep_view() == old(out).deep_view() + edits,
            Err(e) => removals(
                entry_trees(before@),
                entry_trees(after@),
                route.deep_view(),
                0,
            ) == Err::<Seq<EditView>, YamlEditErrorView>(e.deep_view()),
        },
{
    let ghost b = entry_trees(before@);
    let ghost a = entry_trees(after@);
    let ghost at = route.deep_view();
    let ghost start = out.deep_view();
    let ghost mut done = Seq::<EditView>::empty();
    let mut i: usize = 0;
    proof {
        lemma_behind(done, done, removals(b, a, at, 0));
        assert(start + done =~= start);
    }
    while i < before.len()
        invariant
            b == entry_trees(before@),
            a == entry_trees(after@),
            at == route.deep_view(),
            is_valid_mapping(b),
            i <= before@.len(),
            out.deep_view() == start + done,
            removals(b, a, at, 0) == behind(done, removals(b, a, at, i as int)),
        decreases before.len() - i,
    {
        proof {
            assert(b[i as int].0 == tree(before@[i as int].0));
        }
        match &before[i].0 {
            Yaml::String(key) => {
                let gone = key_position(after, key.as_str()).is_none();
                if gone {
                    let ghost one = seq![removal(at, key@)];
                    push_edit(
                        out,
                        Edit::Patch(
                            YamlPatch { route: below(route, key.as_str()), replacement: None },
                        ),
                    );
                    proof {
                        lemma_behind(done, one, removals(b, a, at, i + 1));
                        assert(start + done + one =~= start + (done + one));
                        done = done + one;
                    }
                }
            },
            other => {
                return Err(YamlEditError::KeyNotAString(debug_text(other)));
            },
        }
        i = i + 1;
    }
    proof {
        assert(done + Seq::<EditView>::empty() =~= done);
    }
    Ok(())
}

/// Collect the differences between two mappings.
fn diff_into(
    before: &Vec<(Yaml, Yaml)>,
    after: &Vec<(Yaml, Yaml)>,
    route: &Vec<String>,
    out: &mut Vec<Edit>,
) -> (r: Result<(), YamlEditError>)
    requires
        is_valid_mapping(entry_trees(before@)),
        is_valid_mapping(entry_trees(after@)),
    ensures
        match r {
            Ok(()) => diff(
                entry_trees(before@),
                entry_trees(after@),
                route.deep_view(),
            ) matches Ok(edits) && final(out).deep_view() == old(out).deep_view() + edits,
            Err(e) => diff(
                entry_trees(before@),
                entry_trees(after@),
                route.deep_view(),
            ) == Err::<Seq<EditView>, YamlEditErrorView>(e.deep_view()),
        },
    decreases entry_trees(after@), 1nat,
{
    let ghost b = entry_trees(before@);
    let ghost a = entry_trees(after@);
    let ghost at = route.deep_view();
    let ghost start = out.deep_view();
    match removals_into(before, after, route, out) {
        Ok(()) => {},
        Err(e) => {
            return Err(e);
        },
    }
    let ghost gone = removals(b, a, at, 0)->Ok_0;
    let ghost mut done = Seq::<EditView>::empty();
    let mut i: usize = 0;
    proof {
        lemma_behind(done, done, changes(b, a, at, 0));
        assert(start + gone + done =~= start + gone);
    }
    while i < after.len()
        invariant
            b == entry_trees(before@),
            a == entry_trees(after@),
            at == route.deep_view(),
            is_valid_mapping(b),
            is_valid_mapping(a),
            removals(b, a, at, 0) == Ok::<Seq<EditView>, YamlEditErrorView>(gone),
            i <= after@.len(),
            out.deep_view() == start + gone + done,
            changes(b, a, at, 0) == behind(done, changes(b, a, at, i as int)),
        decreases after.len() - i,
    {
        proof {
            assert(a[i as int].0 == tree(after@[i as int].0));
        }
        match &after[i].0 {
            Yaml::String(key) => {
                match change_into(before, after, route, i, key.as_str(), out) {
                    Ok(()) => {},
                    Err(e) => {
                        return Err(e);
                    },
                }
                proof {
                    let one = change(b, a, at, i as int, key@)->Ok_0;
                    lemma_behind(done, one, changes(b, a, at, i + 1));
                    assert(start + gone + done + one =~= start + gone + (done + one));
                    done = done + one;
                }
            },
            other => {
                return Err(YamlEditError::KeyNotAString(debug_text(other)));
            },
        }
        i = i + 1;
    }
    proof {
        assert(done + Seq::<EditView>::empty() =~= done);
        assert(start + gone + done =~= start + (gone + done));
    }
    Ok(())
}

/// Collect the change of one entry.
fn change_into(
    before: &Vec<(Yaml, Yaml)>,
    after: &Vec<(Yaml, Yaml)>,
    route: &Vec<String>,
    i: usize,
    key: &str,
    out: &mut Vec<Edit>,
) -> (r: Result<(), YamlEditError>)
    requires
        is_valid_mapping(entry_trees(before@)),
        is_valid_mapping(entry_trees(after@)),
        i < after@.len(),
    ensures
        match r {
            Ok(()) => change(
                entry_trees(before@),
                entry_trees(after@),
                route.deep_view(),
                i as int,
                key@,
            ) matches Ok(edits) && final(out).deep_view() == old(out).deep_view() + edits,
            Err(e) => change(
                entry_trees(before@),
                entry_trees(after@),
                route.deep_view(),
                i as int,
                key@,
            ) == Err::<Seq<EditView>, YamlEditErrorView>(e.deep_view()),
        },
    decreases entry_trees(after@), 0nat,
{
    let ghost b = entry_trees(before@);
    let ghost a = entry_trees(after@);
    let ghost at = route.deep_view();
    let ghost start = out.deep_view();
    let new = &after[i].1;
    proof {
        assert(a[i as int] == (tree(after@[i as int].0), tree(*new)));
        assert(is_valid(a[i as int].1));
        lemma_get_valid(b, key@);
        lemma_mapping_valid(tree(*new));
        lemma_mapping_decreases(tree(*new));
        assert(decreases_to!(a => a[i as int]));
        let e = a[i as int];
        assert(decreases_to!(e => e.1));
        assert(start + Seq::<EditView>::empty() =~= start);
    }
    let held = match get_value(before, key) {
        Some(v) => v,
        None => {
            return match bridge(new) {
                Ok(value) => {
                    push_edit(
                        out,
                        Edit::Add(
                            Addition { route: dup_route(route), key: key.to_owned(), value },
                        ),
                    );
                    Ok(())
                },
                Err(e) => Err(e),
            };
        },
    };
    if same_value(held, new) {
        return Ok(());
    }
    proof {
        lemma_mapping_valid(tree(*held));
    }
    match (held.as_mapping(), new.as_mapping()) {
        (Some(old_map), Some(new_map)) => {
            let sub = below(route, key);
            diff_into(old_map, new_map, &sub, out)
        },
        (None, Some(new_map)) if new_map.len() > 0 => {
            let value = match bridge(new) {
                Ok(value) => value,
                Err(e) => {
                    return Err(e);
                },
            };
            push_edit(
                out,
                Edit::Patch(YamlPatch { route: below(route, key), replacement: None }),
            );
            push_edit(
                out,
                Edit::Add(Addition { route: dup_route(route), key: key.to_owned(), value }),
            );
            proof {
                let first = removal(at, key@);
                let second = EditView::Add(
                    AdditionView { route: at, key: key@, value: payload_tree(value) },
                );
                assert(start + seq![first] + seq![second] =~= start + seq![first, second]);
            }
            Ok(())
        },
        _ => match bridge(new) {
            Ok(value) => {
                push_edit(
                    out,
                    Edit::Patch(
                        YamlPatch { route: below(route, key), replacement: Some(value) },
                    ),
                );
                Ok(())
            },
            Err(e) => Err(e),
        },
    }
}

/// The patches among some edits.
pub open spec fn patches_of(edits: Seq<EditView>) -> Seq<YamlPatchView>
    decreases edits.len(),
{
    if edits.len() == 0 {
        Seq::empty()
    } else {
        match edits.last() {
            EditView::Patch(p) => patches_of(edits.drop_last()).push(p),
            EditView::Add(_) => patches_of(edits.drop_last()),
        }
    }
}

/// A new entry in its place: behind those that lie as deep or less deep.
pub open spec fn placed(sorted: Seq<AdditionView>, a: AdditionView) -> Seq<AdditionView>
    decreases sorted.len(),
{
    if sorted.len() > 0 && sorted.last().route.len() > a.route.len() {
        placed(sorted.drop_last(), a).push(sorted.last())
    } else {
        sorted.push(a)
    }
}

/// The new entries among some edits, the less deep first. Those of one depth
/// keep their order.
pub open spec fn additions_of(edits: Seq<EditView>) -> Seq<AdditionView>
    decreases edits.len(),
{
    if edits.len() == 0 {
        Seq::empty()
    } else {
        match edits.last() {
            EditView::Patch(_) => additions_of(edits.drop_last()),
            EditView::Add(a) => placed(additions_of(edits.drop_last()), a),
        }
    }
}

proof fn lemma_placed(sorted: Seq<AdditionView>, a: AdditionView, j: int)
    requires
        0 <= j <= sorted.len(),
        forall|k: int| j <= k < sorted.len() ==> (#[trigger] sorted[k]).route.len() > a.route.len(),
        j > 0 ==> sorted[j - 1].route.len() <= a.route.len(),
    ensures
        placed(sorted, a) == sorted.insert(j, a),
    decreases sorted.len(),
{
    if j == sorted.len() {
        assert(sorted.insert(j, a) =~= sorted.push(a));
    } else {
        let rest = sorted.drop_last();
        assert forall|k: int| j <= k < rest.len() implies (#[trigger] rest[k]).route.len()
            > a.route.len() by {
            assert(rest[k] == sorted[k]);
        }
        assert(sorted[sorted.len() - 1].route.len() > a.route.len());
        lemma_placed(rest, a, j);
        assert(rest.insert(j, a).push(sorted.last()) =~= sorted.insert(j, a));
    }
}

/// Put a new entry in its place.
fn place(sorted: &mut Vec<Addition>, a: Addition)
    ensures
        final(sorted).deep_view() == placed(old(sorted).deep_view(), a.deep_view()),
{
    let ghost before = sorted.deep_view();
    let mut j: usize = sorted.len();
    while j > 0 && sorted[j - 1].route.len() > a.route.len()
        invariant
            before == sorted.deep_view(),
            j <= sorted@.len(),
            forall|k: int|
                j <= k < before.len() ==> (#[trigger] before[k]).route.len()
                    > a.deep_view().route.len(),
        decreases j,
    {
        proof {
            assert(before[j - 1] == sorted@[j - 1].deep_view());
        }
        j = j - 1;
    }
    proof {
        if j > 0 {
            assert(before[j - 1] == sorted@[j - 1].deep_view());
        }
        lemma_placed(before, a.deep_view(), j as int);
    }
    sorted.insert(j, a);
    proof {
        assert(sorted.deep_view() =~= before.insert(j as int, a.deep_view()));
    }
}

/// Part the edits into the patches and the new entries.
fn part(edits: Vec<Edit>) -> (r: (Vec<YamlPatch>, Vec<Addition>))
    ensures
        r.0.deep_view() == patches_of(edits.deep_view()),
        r.1.deep_view() == additions_of(edits.deep_view()),
{
    let ghost all = edits.deep_view();
    let mut patches: Vec<YamlPatch> = Vec::new();
    let mut additions: Vec<Addition> = Vec::new();
    proof {
        assert(patches.deep_view() =~= patches_of(all.take(0)));
        assert(additions.deep_view() =~= additions_of(all.take(0)));
    }
    for edit in iter: edits
        invariant
            all == Seq::new(iter.seq().len(), |k: int| iter.seq()[k].deep_view()),
            patches.deep_view() == patches_of(all.take(iter.index())),
            additions.deep_view() == additions_of(all.take(iter.index())),
    {
        let ghost n = iter.index();
        let ghost before = patches.deep_view();
        proof {
            assert(all.take(n + 1).drop_last() =~= all.take(n));
            assert(all.take(n + 1).last() == edit.deep_view());
        }
        match edit {
            Edit::Patch(p) => {
                patches.push(p);
                proof {
                    assert(patches.deep_view() =~= before.push(p.deep_view()));
                }
            },
            Edit::Add(a) => {
                place(&mut additions, a);
            },
        }
    }
    proof {
        assert(all.take(all.len() as int) =~= all);
    }
    (patches, additions)
}

/// Why no document can be made of a text.
pub open spec fn opening_failure(source: Seq<char>) -> Option<YamlEditErrorView> {
    if byte_len(source) >= u32::MAX {
        Some(YamlEditErrorView::TooLong)
    } else if levels(source) >= MAX_LEVELS {
        Some(YamlEditErrorView::TooDeep)
    } else {
        match document_failure(source) {
            Some(e) => Some(YamlEditErrorView::Yaml(e)),
            None => None,
        }
    }
}

/// A text after a patch.
pub open spec fn patched(source: Seq<char>, patch: YamlPatchView) -> Result<
    Seq<char>,
    YamlEditErrorView,
> {
    if byte_len(source) + growth(byte_len(source), patch.replacement) >= u32::MAX {
        Err(YamlEditErrorView::TooLong)
    } else if changed_levels(source, patch.replacement) >= MAX_LEVELS {
        Err(YamlEditErrorView::TooDeep)
    } else {
        match patched_source(source, patch) {
            Ok(s) => Ok(s),
            Err(e) => Err(YamlEditErrorView::Yaml(e)),
        }
    }
}

/// A text after the first `n` patches.
pub open spec fn patched_by(source: Seq<char>, patches: Seq<YamlPatchView>, n: int) -> Result<
    Seq<char>,
    YamlEditErrorView,
>
    decreases n,
{
    if 0 < n <= patches.len() {
        match patched_by(source, patches, n - 1) {
            Ok(s) => patched(s, patches[n - 1]),
            Err(e) => Err(e),
        }
    } else {
        Ok(source)
    }
}

/// A text after some patches.
pub open spec fn with_patches(source: Seq<char>, patches: Seq<YamlPatchView>) -> Result<
    Seq<char>,
    YamlEditErrorView,
> {
    if patches.len() == 0 {
        Ok(source)
    } else {
        match opening_failure(source) {
            Some(e) => Err(e),
            None => patched_by(source, patches, patches.len() as int),
        }
    }
}

fn open_document(source: &str) -> (r: Result<yamlpath::Document, YamlEditError>)
    ensures
        match r {
            Ok(d) => opening_failure(source@) is None && document_source(d) == source@,
            Err(e) => opening_failure(source@) == Some(e.deep_view()),
        },
{
    let text = chars(source);
    if bytes_of(text.as_slice()) >= 0xffff_ffff {
        return Err(YamlEditError::TooLong);
    }
    if levels_of(text.as_slice()) >= MAX_LEVELS {
        return Err(YamlEditError::TooDeep);
    }
    match new_document(source) {
        Ok(d) => Ok(d),
        Err(e) => Err(YamlEditError::Yaml(e)),
    }
}

proof fn lemma_patches_fail(source: Seq<char>, patches: Seq<YamlPatchView>, i: int, n: int)
    requires
        0 <= i <= n <= patches.len(),
        patched_by(source, patches, i) is Err,
    ensures
        patched_by(source, patches, n) == patched_by(source, patches, i),
    decreases n,
{
    if i < n {
        lemma_patches_fail(source, patches, i, n - 1);
    }
}

fn growth_of(len: u128, replacement: &Option<serde_yaml::Value>) -> (r: u128)
    requires
        len < u32::MAX,
    ensures
        r == growth(
            len as nat,
            (match *replacement {
                Some(v) => Some(payload_tree(v)),
                None => None,
            }),
        ),
        r < 0x1_0000_0000_0000_0000_0000_0000_0000,
{
    match replacement {
        None => 1,
        Some(v) => {
            let text: u128 = match payload_to_text(v) {
                Some(s) => bytes_of(chars(s.as_str()).as_slice()),
                None => 0,
            };
            let block: u128 = match open_payload(v) {
                PayloadNode::String(s) => {
                    let c = chars(s.as_str());
                    let n: u128 = count_of(c.as_slice(), '\n') as u128;
                    let m: u128 = len + 3;
                    proof {
                        assert((n + 1) * m <= 0x1_0000_0000_0000_0000 * 0x1_0000_0002)
                            by (nonlinear_arith)
                            requires
                                n + 1 <= 0x1_0000_0000_0000_0000,
                                m <= 0x1_0000_0002,
                        ;
                    }
                    bytes_of(c.as_slice()) + (n + 1) * m
                },
                _ => 0,
            };
            8 + text + block
        },
    }
}

fn changed_levels_of(source: &[char], replacement: &Option<serde_yaml::Value>) -> (r: u128)
    ensures
        r == changed_levels(
            source@,
            (match *replacement {
                Some(v) => Some(payload_tree(v)),
                None => None,
            }),
        ),
{
    match replacement {
        None => levels_of(source),
        Some(v) => {
            let written = match payload_to_text(v) {
                Some(s) => chars(s.as_str()),
                None => Vec::new(),
            };
            let raw = match open_payload(v) {
                PayloadNode::String(s) => chars(s.as_str()),
                _ => Vec::new(),
            };
            proof {
                assert(written@ =~= written_text(payload_tree(*v)));
                assert(raw@ =~= raw_text(payload_tree(*v)));
            }
            joined_levels_of(source, written.as_slice(), raw.as_slice())
        },
    }
}

/// Make one change in a document.
fn apply_patch(d: &yamlpath::Document, patch: YamlPatch) -> (r: Result<
    yamlpath::Document,
    YamlEditError,
>)
    ensures
        match r {
            Ok(after) => patched(document_source(*d), patch.deep_view()) == Ok::<
                Seq<char>,
                YamlEditErrorView,
            >(document_source(after)),
            Err(e) => patched(document_source(*d), patch.deep_view()) == Err::<
                Seq<char>,
                YamlEditErrorView,
            >(e.deep_view()),
        },
{
    let source = source_text(d);
    let text = chars(source.as_str());
    let len: u128 = bytes_of(text.as_slice());
    if len >= 0xffff_ffff || len + growth_of(len, &patch.replacement) >= 0xffff_ffff {
        return Err(YamlEditError::TooLong);
    }
    if changed_levels_of(text.as_slice(), &patch.replacement) >= MAX_LEVELS {
        return Err(YamlEditError::TooDeep);
    }
    match patch_document(d, patch) {
        Ok(after) => Ok(after),
        Err(e) => Err(YamlEditError::Yaml(e)),
    }
}

fn apply_patches(source: &str, patches: Vec<YamlPatch>) -> (r: Result<String, YamlEditError>)
    ensures
        match r {
            Ok(s) => with_patches(source@, patches.deep_view()) == Ok::<
                Seq<char>,
                YamlEditErrorView,
            >(s@),
            Err(e) => with_patches(source@, patches.deep_view()) == Err::<
                Seq<char>,
                YamlEditErrorView,
            >(e.deep_view()),
        },
{
    if patches.len() == 0 {
        return Ok(source.to_owned());
    }
    let ghost all = patches.deep_view();
    let mut current = match open_document(source) {
        Ok(d) => d,
        Err(e) => {
            return Err(e);
        },
    };
    for patch in iter: patches
        invariant
            all == Seq::new(iter.seq().len(), |k: int| iter.seq()[k].deep_view()),
            opening_failure(source@) is None,
            patched_by(source@, all, iter.index()) == Ok::<Seq<char>, YamlEditErrorView>(
                document_source(current),
            ),
    {
        let ghost n = iter.index();
        proof {
            assert(all[n] == patch.deep_view());
        }
        match apply_patch(&current, patch) {
            Ok(d) => {
                current = d;
            },
            Err(e) => {
                proof {
                    lemma_patches_fail(source@, all, n + 1, all.len() as int);
                }
                return Err(e);
            },
        }
    }
    Ok(source_text(&current))
}

/// The end of what stands before `k`, without line feeds and spaces.
pub open spec fn content_end(s: Seq<char>, k: int) -> int
    decreases k,
{
    if 0 < k <= s.len() && (s[k - 1] == '\n' || s[k - 1] == ' ') {
        content_end(s, k - 1)
    } else {
        k
    }
}

/// A text with a new entry at the end of a mapping that ends at a byte offset.
pub open spec fn inserted(
    source: Seq<char>,
    block: BlockView,
    depth: nat,
    key: Seq<char>,
    value: YamlView,
) -> Result<Seq<char>, YamlEditErrorView> {
    match char_index(source, block.end) {
        None => Err(YamlEditErrorView::SplitCharacter),
        Some(k) => {
            let at = content_end(source, k);
            let pad = spaces(child_indent(lines(block.text), depth));
            Ok(source.take(at) + "\n"@ + rendered_entry(key, value, pad) + source.skip(at))
        },
    }
}

/// A text with a new entry at its end.
pub open spec fn appended(source: Seq<char>, key: Seq<char>, value: YamlView) -> Seq<char> {
    let entry = rendered_entry(key, value, Seq::empty());
    if source.len() > 0 && source.last() != '\n' {
        source + "\n"@ + entry
    } else {
        source + entry
    }
}

/// A text with a new entry.
pub open spec fn injected(source: Seq<char>, a: AdditionView) -> Result<
    Seq<char>,
    YamlEditErrorView,
> {
    if a.route.len() == 0 {
        Ok(appended(source, a.key, a.value))
    } else {
        match opening_failure(source) {
            Some(e) => Err(e),
            None => match span_at(source, a.route) {
                Ok(Some(span)) => if is_span(source, span) {
                    let block = BlockView { text: span_text(source, span), end: span.1 };
                    inserted(source, block, a.route.len(), a.key, a.value)
                } else {
                    Err(YamlEditErrorView::SplitCharacter)
                },
                Ok(None) => Err(YamlEditErrorView::ParentNotFound(a.route)),
                Err(e) => Err(YamlEditErrorView::Yaml(e)),
            },
        }
    }
}

/// Put a new entry at the end of a text.
pub fn append_entry(source: &str, key: &str, value: &serde_yaml::Value) -> (r: String)
    ensures
        r@ == appended(source@, key@, payload_tree(*value)),
{
    let mut out = chars(source);
    if out.len() > 0 && out[out.len() - 1] != '\n' {
        push_str(&mut out, "\n");
    }
    let pad: Vec<char> = Vec::new();
    render_entry(key, value, &pad, &mut out);
    proof {
        assert(pad@ =~= Seq::<char>::empty());
    }
    string(out.as_slice())
}

/// Put a new entry at the end of a mapping in a text.
pub fn insert_entry(
    source: &str,
    block: &Block,
    depth: usize,
    key: &str,
    value: &serde_yaml::Value,
) -> (r: Result<String, YamlEditError>)
    ensures
        match r {
            Ok(s) => inserted(
                source@,
                block.deep_view(),
                depth as nat,
                key@,
                payload_tree(*value),
            ) == Ok::<Seq<char>, YamlEditErrorView>(s@),
            Err(e) => inserted(
                source@,
                block.deep_view(),
                depth as nat,
                key@,
                payload_tree(*value),
            ) == Err::<Seq<char>, YamlEditErrorView>(e.deep_view()),
        },
{
    let text = chars(source);
    let k: usize = match index_of_byte(text.as_slice(), block.end) {
        Some(k) => k,
        None => {
            return Err(YamlEditError::SplitCharacter);
        },
    };
    let mut at: usize = k;
    while at > 0 && (text[at - 1] == '\n' || text[at - 1] == ' ')
        invariant
            at <= k <= text@.len(),
            content_end(text@, k as int) == content_end(text@, at as int),
        decreases at,
    {
        at = at - 1;
    }
    let mut pad: Vec<char> = Vec::new();
    let n: u128 = detect_child_indent(block.text.as_str(), depth);
    push_spaces(&mut pad, n);
    let mut out = chars(substring(text.as_slice(), 0, at).as_str());
    push_str(&mut out, "\n");
    render_entry(key, value, &pad, &mut out);
    push_str(&mut out, substring(text.as_slice(), at, text.len()).as_str());
    proof {
        assert(pad@ =~= spaces(n as nat));
        assert(text@.subrange(0, at as int) =~= source@.take(at as int));
        assert(text@.subrange(at as int, text@.len() as int) =~= source@.skip(at as int));
    }
    Ok(string(out.as_slice()))
}

/// Put a new entry into a text.
fn inject_entry(source: &str, a: &Addition) -> (r: Result<String, YamlEditError>)
    ensures
        match r {
            Ok(s) => injected(source@, a.deep_view()) == Ok::<Seq<char>, YamlEditErrorView>(s@),
            Err(e) => injected(source@, a.deep_view()) == Err::<Seq<char>, YamlEditErrorView>(
                e.deep_view(),
            ),
        },
{
    if a.route.len() == 0 {
        return Ok(append_entry(source, a.key.as_str(), &a.value));
    }
    let document = match open_document(source) {
        Ok(d) => d,
        Err(e) => {
            return Err(e);
        },
    };
    match query_route(&document, &a.route) {
        Ok(Some(feature)) => {
            let (start, end): (usize, usize) = span_of(&feature);
            let text = chars(source);
            if start > end || index_of_byte(text.as_slice(), start).is_none() || index_of_byte(
                text.as_slice(),
                end,
            ).is_none() {
                return Err(YamlEditError::SplitCharacter);
            }
            let block = Block { text: extract(&document, &feature), end };
            insert_entry(source, &block, a.route.len(), a.key.as_str(), &a.value)
        },
        Ok(None) => Err(YamlEditError::ParentNotFound(dup_route(&a.route))),
        Err(e) => Err(YamlEditError::Yaml(e)),
    }
}

/// A text with the first `n` new entries.
pub open spec fn with_additions(source: Seq<char>, additions: Seq<AdditionView>, n: int) -> Result<
    Seq<char>,
    YamlEditErrorView,
>
    decreases n,
{
    if 0 < n <= additions.len() {
        match with_additions(source, additions, n - 1) {
            Ok(s) => injected(s, additions[n - 1]),
            Err(e) => Err(e),
        }
    } else {
        Ok(source)
    }
}

/// A text after some edits: the patches first, and then the new entries.
pub open spec fn with_edits(source: Seq<char>, edits: Seq<EditView>) -> Result<
    Seq<char>,
    YamlEditErrorView,
> {
    let additions = additions_of(edits);
    match with_patches(source, patches_of(edits)) {
        Ok(s) => with_additions(s, additions, additions.len() as int),
        Err(e) => Err(e),
    }
}

proof fn lemma_additions_fail(source: Seq<char>, additions: Seq<AdditionView>, i: int, n: int)
    requires
        0 <= i <= n <= additions.len(),
        with_additions(source, additions, i) is Err,
    ensures
        with_additions(source, additions, n) == with_additions(source, additions, i),
    decreases n,
{
    if i < n {
        lemma_additions_fail(source, additions, i, n - 1);
    }
}

/// Apply edits to a text.
pub fn apply_edits(source: &str, edits: Vec<Edit>) -> (r: Result<String, YamlEditError>)
    ensures
        match r {
            Ok(s) => with_edits(source@, edits.deep_view()) == Ok::<Seq<char>, YamlEditErrorView>(
                s@,
            ),
            Err(e) => with_edits(source@, edits.deep_view()) == Err::<
                Seq<char>,
                YamlEditErrorView,
            >(e.deep_view()),
        },
{
    let (patches, additions) = part(edits);
    let ghost all = additions.deep_view();
    let mut current = match apply_patches(source, patches) {
        Ok(s) => s,
        Err(e) => {
            return Err(e);
        },
    };
    let ghost start = current@;
    let mut i: usize = 0;
    while i < additions.len()
        invariant
            all == additions.deep_view(),
            all == additions_of(edits.deep_view()),
            with_edits(source@, edits.deep_view()) == with_additions(
                start,
                all,
                all.len() as int,
            ),
            i <= additions@.len(),
            with_additions(start, all, i as int) == Ok::<Seq<char>, YamlEditErrorView>(current@),
        decreases additions.len() - i,
    {
        proof {
            assert(all[i as int] == additions@[i as int].deep_view());
        }
        match inject_entry(current.as_str(), &additions[i]) {
            Ok(s) => {
                current = s;
            },
            Err(e) => {
                proof {
                    lemma_additions_fail(start, all, i + 1, all.len() as int);
                }
                return Err(e);
            },
        }
        i = i + 1;
    }
    Ok(current)
}

/// Whether a line, without the spaces in front, is an item of a sequence.
pub open spec fn is_item(line: Seq<char>) -> bool {
    "- "@.is_prefix_of(line) || line == "-\n"@ || line == "-"@
}

/// The lines of a text, each with its line feed.
pub open spec fn full_lines(s: Seq<char>) -> Seq<Seq<char>>
    decreases s.len(),
    via full_lines_decreases
{
    match find_char(s, '\n') {
        Some(i) => seq![s.take(i + 1)] + full_lines(s.skip(i + 1)),
        None => if s.len() == 0 {
            Seq::empty()
        } else {
            seq![s]
        },
    }
}

#[via_fn]
proof fn full_lines_decreases(s: Seq<char>) {
    lemma_find_char(s, '\n');
}

/// A line without the spaces in front.
pub open spec fn stripped(line: Seq<char>) -> Seq<char> {
    trim_start_char(line, ' ')
}

/// The number of spaces in front of a line.
pub open spec fn depth(line: Seq<char>) -> int {
    line.len() - stripped(line).len()
}

/// A line without spaces and marks of items in front.
pub open spec fn line_content(line: Seq<char>) -> Seq<char>
    decreases line.len(),
    via line_content_decreases
{
    if "- "@.is_prefix_of(stripped(line)) {
        line_content(stripped(line).skip(2))
    } else {
        stripped(line)
    }
}

#[via_fn]
proof fn line_content_decreases(line: Seq<char>) {
    reveal_strlit("- ");
    lemma_stripped(line);
}

pub proof fn lemma_stripped(line: Seq<char>)
    ensures
        stripped(line).len() <= line.len(),
    decreases line.len(),
{
    if line.len() > 0 && line[0] == ' ' {
        lemma_stripped(line.drop_first());
    }
}

/// Whether an item of a sequence starts at a column of a line.
pub open spec fn has_mark_at(line: Seq<char>, column: int) -> bool
    decreases line.len(),
    via has_mark_at_decreases
{
    "- "@.is_prefix_of(stripped(line)) && (depth(line) == column || has_mark_at(
        stripped(line).skip(2),
        column - depth(line) - 2,
    ))
}

#[via_fn]
proof fn has_mark_at_decreases(line: Seq<char>, column: int) {
    reveal_strlit("- ");
    lemma_stripped(line);
}

/// An item without a value on its line.
pub open spec fn is_bare_item(line: Seq<char>) -> bool {
    line == "-\n"@ || line == "-"@
}

/// Whether the content of a line has a key in front.
pub open spec fn has_key(content: Seq<char>) -> bool {
    ":\n"@.is_suffix_of(content) || ":"@.is_suffix_of(content) || find(content, ": "@) is Some
}

/// The column of the key in a line, or of the line itself if it has none.
pub open spec fn key_column(line: Seq<char>) -> int {
    if has_key(line_content(line)) {
        line.len() - line_content(line).len()
    } else {
        depth(line)
    }
}

/// Whether a line says nothing of where an item at a depth belongs: it is blank
/// or deeper, or an item beside it.
pub open spec fn is_passed_over(line: Seq<char>, d: int) -> bool {
    ||| stripped(line).len() == 0 || stripped(line) == "\n"@
    ||| depth(line) > d
    ||| depth(line) == d && is_item(stripped(line))
}

/// Whether an item at a depth, behind the first `i` lines, stands no deeper than
/// the key that it belongs to. The items of a sequence without key stand as the
/// item that holds them.
pub open spec fn is_shallow(all: Seq<Seq<char>>, i: int, d: int) -> bool
    decreases i, 0int,
{
    if i <= 0 {
        d == 0
    } else {
        let line = all[i - 1];
        if is_passed_over(line, d) {
            is_shallow(all, i - 1, d)
        } else if has_mark_at(line, d) || is_bare_item(stripped(line)) {
            is_bumped(all, i - 1)
        } else {
            d <= key_column(line)
        }
    }
}

/// Whether a line is moved: it is an item that stands no deeper than its key.
pub open spec fn is_bumped(all: Seq<Seq<char>>, i: int) -> bool
    decreases i, 1int,
{
    is_item(stripped(all[i])) && is_shallow(all, i, depth(all[i]))
}

/// The first `n` lines, two spaces deeper where they are moved.
pub open spec fn bumped_lines(all: Seq<Seq<char>>, n: int) -> Seq<char>
    decreases n,
{
    if n <= 0 {
        Seq::empty()
    } else {
        bumped_lines(all, n - 1) + (if is_bumped(all, n - 1) {
            "  "@
        } else {
            Seq::empty()
        }) + all[n - 1]
    }
}

/// A text with the items of its sequences two spaces deeper, where they stand no
/// deeper than their key.
pub open spec fn with_indented_items(s: Seq<char>) -> Seq<char> {
    bumped_lines(full_lines(s), full_lines(s).len() as int)
}

fn split_full_lines(text: &[char]) -> (r: Vec<Vec<char>>)
    ensures
        texts(r@) == full_lines(text@),
{
    let ghost s = text@;
    let mut r: Vec<Vec<char>> = Vec::new();
    let n: usize = text.len();
    let mut start: usize = 0;
    let mut i: usize = 0;
    proof {
        assert(s.skip(0) =~= s);
        assert(texts(r@) + full_lines(s) =~= full_lines(s));
    }
    while i < n
        invariant
            s == text@,
            n == s.len(),
            start <= i <= n,
            forall|j: int| start <= j < i ==> s[j] != '\n',
            full_lines(s) == texts(r@) + full_lines(s.skip(start as int)),
        decreases n - i,
    {
        if text[i] == '\n' {
            let ghost before = texts(r@);
            let mut line: Vec<char> = Vec::new();
            push_chars(&mut line, vstd::slice::slice_subrange(text, start, i + 1));
            proof {
                assert(line@ =~= s.subrange(start as int, i + 1));
            }
            r.push(line);
            proof {
                let t = s.skip(start as int);
                let k = i - start;
                assert forall|j: int| 0 <= j < k implies t[j] != '\n' by {
                    assert(t[j] == s[start + j]);
                }
                lemma_find_char_at(t, '\n', k);
                assert(t.take(k + 1) =~= line@);
                assert(t.skip(k + 1) =~= s.skip(i + 1));
                assert(texts(r@) =~= before.push(line@));
                assert(before + (seq![line@] + full_lines(s.skip(i + 1))) =~= texts(r@)
                    + full_lines(s.skip(i + 1)));
            }
            start = i + 1;
        }
        i = i + 1;
    }
    proof {
        let t = s.skip(start as int);
        lemma_find_char(t, '\n');
        if find_char(t, '\n') is Some {
            let k = find_char(t, '\n')->0;
            assert(t[k] == s[start + k]);
        }
    }
    if start < n {
        let ghost before = texts(r@);
        let mut line: Vec<char> = Vec::new();
        push_chars(&mut line, vstd::slice::slice_subrange(text, start, n));
        r.push(line);
        proof {
            assert(line@ =~= s.skip(start as int));
            assert(texts(r@) =~= before + seq![line@]);
        }
    } else {
        proof {
            assert(s.skip(start as int).len() == 0);
            assert(texts(r@) + full_lines(s.skip(start as int)) =~= texts(r@));
        }
    }
    r
}

fn bare_item(line: &[char]) -> (r: bool)
    ensures
        r == is_bare_item(line@),
{
    same(string(line).as_str(), "-\n") || same(string(line).as_str(), "-")
}

fn item(line: &[char]) -> (r: bool)
    ensures
        r == is_item(line@),
{
    starts_with(line, "- ") || bare_item(line)
}

fn depth_of(line: &[char]) -> (r: usize)
    ensures
        r == depth(line@),
{
    proof {
        lemma_stripped(line@);
    }
    line.len() - without_leading(line, ' ').len()
}

fn mark_at(line: &[char], column: usize) -> (r: bool)
    ensures
        r == has_mark_at(line@, column as int),
    decreases line@.len(),
{
    proof {
        lemma_stripped(line@);
        reveal_strlit("- ");
    }
    let d: usize = depth_of(line);
    let rest = without_leading(line, ' ');
    if !starts_with(rest, "- ") {
        return false;
    }
    if d == column {
        return true;
    }
    let n: usize = rest.len();
    let tail = vstd::slice::slice_subrange(rest, 2, n);
    proof {
        assert(tail@ =~= stripped(line@).skip(2));
        lemma_mark_in_front(tail@, column - d - 2);
    }
    if column < d || column - d < 2 {
        return false;
    }
    mark_at(tail, column - d - 2)
}

/// No item starts in front of a line.
proof fn lemma_mark_in_front(line: Seq<char>, column: int)
    ensures
        column < 0 ==> !has_mark_at(line, column),
    decreases line.len(),
{
    reveal_strlit("- ");
    lemma_stripped(line);
    if "- "@.is_prefix_of(stripped(line)) {
        lemma_mark_in_front(stripped(line).skip(2), column - depth(line) - 2);
    }
}

fn content_of<'a>(line: &'a [char]) -> (r: &'a [char])
    ensures
        r@ == line_content(line@),
        r@.len() <= line@.len(),
    decreases line@.len(),
{
    proof {
        lemma_stripped(line@);
        reveal_strlit("- ");
    }
    let rest = without_leading(line, ' ');
    if starts_with(rest, "- ") {
        let n: usize = rest.len();
        let tail = vstd::slice::slice_subrange(rest, 2, n);
        proof {
            assert(tail@ =~= stripped(line@).skip(2));
        }
        content_of(tail)
    } else {
        rest
    }
}

fn key_column_of(line: &[char]) -> (r: usize)
    ensures
        r == key_column(line@),
{
    let content = content_of(line);
    let sep = chars(": ");
    if ends_with(content, ":\n") || ends_with(content, ":") || find_text(content, &sep).is_some() {
        line.len() - content.len()
    } else {
        depth_of(line)
    }
}

/// Whether line `i` is moved, with what is known of the lines before it.
fn line_is_bumped(all: &Vec<Vec<char>>, i: usize, moved: &Vec<bool>) -> (r: bool)
    requires
        i < all@.len(),
        moved@.len() == i,
        forall|j: int| 0 <= j < i ==> #[trigger] moved@[j] == is_bumped(texts(all@), j),
    ensures
        r == is_bumped(texts(all@), i as int),
{
    let ghost view = texts(all@);
    proof {
        assert(view[i as int] == all@[i as int]@);
    }
    let line = all[i].as_slice();
    if !item(without_leading(line, ' ')) {
        return false;
    }
    let d: usize = depth_of(line);
    let mut k: usize = i;
    while k > 0
        invariant
            view == texts(all@),
            k <= i < all@.len(),
            moved@.len() == i,
            forall|j: int| 0 <= j < i ==> #[trigger] moved@[j] == is_bumped(view, j),
            is_bumped(view, i as int) == is_shallow(view, k as int, d as int),
        decreases k,
    {
        let above = all[k - 1].as_slice();
        proof {
            assert(view[k - 1] == above@);
        }
        let rest = without_leading(above, ' ');
        let e: usize = depth_of(above);
        let blank = rest.len() == 0 || same(string(rest).as_str(), "\n");
        if !(blank || e > d || (e == d && item(rest))) {
            if mark_at(above, d) || bare_item(rest) {
                return moved[k - 1];
            }
            return d <= key_column_of(above);
        }
        k = k - 1;
    }
    d == 0
}

/// Put the items of the sequences in a text two spaces deeper, where they stand
/// no deeper than their key.
pub fn indent_block_sequences(input: &str) -> (r: String)
    ensures
        r@ == with_indented_items(input@),
{
    let all = split_full_lines(&chars(input));
    let ghost view = texts(all@);
    let n: usize = all.len();
    let mut moved: Vec<bool> = Vec::new();
    let mut out: Vec<char> = Vec::new();
    let mut i: usize = 0;
    while i < n
        invariant
            view == texts(all@),
            n == all@.len(),
            i <= n,
            moved@.len() == i,
            forall|j: int| 0 <= j < i ==> #[trigger] moved@[j] == is_bumped(view, j),
            out@ == bumped_lines(view, i as int),
        decreases n - i,
    {
        let ghost before = out@;
        let bump = line_is_bumped(&all, i, &moved);
        if bump {
            push_str(&mut out, "  ");
        }
        push_chars(&mut out, all[i].as_slice());
        proof {
            assert(view[i as int] == all@[i as int]@);
            assert(before + Seq::<char>::empty() =~= before);
        }
        moved.push(bump);
        i = i + 1;
    }
    string(out.as_slice())
}

/// The text of a workspace yaml; none where it is blank.
pub open spec fn workspace_source(source: Option<Seq<char>>) -> Option<Seq<char>> {
    match source {
        Some(s) => if trim(s).len() == 0 {
            None
        } else {
            Some(s)
        },
        None => None,
    }
}

/// The mapping that a workspace yaml holds; without entries where there is no
/// text.
pub open spec fn workspace_mapping(source: Option<Seq<char>>) -> Result<
    YamlEntries,
    YamlEditErrorView,
> {
    match workspace_source(source) {
        Some(s) => match yaml_value(s) {
            Ok(y) => match mapping(y) {
                Some(m) => Ok(m),
                None => Err(YamlEditErrorView::NotAMapping),
            },
            Err(e) => Err(YamlEditErrorView::Parse(e)),
        },
        None => Ok(Seq::empty()),
    }
}

/// The text of a workspace yaml whose mapping was `before` and is to be
/// `after`; none where nothing changes.
pub open spec fn edited_workspace(
    source: Option<Seq<char>>,
    before: YamlEntries,
    after: YamlEntries,
) -> Result<Option<Seq<char>>, YamlEditErrorView> {
    if equal_entries(after, before) {
        Ok(None)
    } else {
        match workspace_source(source) {
            Some(s) => match diff(before, after, Seq::empty()) {
                Ok(edits) => match with_edits(s, edits) {
                    Ok(t) => Ok(Some(t)),
                    Err(e) => Err(e),
                },
                Err(e) => Err(e),
            },
            None => match yaml_text(YamlView::Mapping(after)) {
                Ok(t) => Ok(Some(with_indented_items(t))),
                Err(e) => Err(YamlEditErrorView::Yaml(e)),
            },
        }
    }
}

fn blank(source: &str) -> (r: bool)
    ensures
        r == (trim(source@).len() == 0),
{
    let text = chars(source);
    trimmed(text.as_slice()).len() == 0
}

/// The mapping that a workspace yaml holds.
pub fn parse_workspace_mapping(source: Option<&str>) -> (r: Result<
    Vec<(Yaml, Yaml)>,
    YamlEditError,
>)
    ensures
        match r {
            Ok(m) => workspace_mapping(source.deep_view()) == Ok::<YamlEntries, YamlEditErrorView>(
                entry_trees(m@),
            ) && is_valid_mapping(entry_trees(m@)),
            Err(e) => workspace_mapping(source.deep_view()) == Err::<
                YamlEntries,
                YamlEditErrorView,
            >(e.deep_view()),
        },
{
    let content = match source {
        Some(s) => if blank(s) {
            None
        } else {
            Some(s)
        },
        None => None,
    };
    match content {
        Some(s) => match parse_yaml(s) {
            Ok(y) => {
                proof {
                    lemma_mapping_valid(tree(y));
                }
                match y.as_mapping() {
                    Some(m) => Ok(dup_entries(m)),
                    None => Err(YamlEditError::NotAMapping),
                }
            },
            Err(e) => Err(YamlEditError::Parse(e)),
        },
        None => {
            let m: Vec<(Yaml, Yaml)> = Vec::new();
            proof {
                assert(entry_trees(m@) =~= Seq::<(YamlView, YamlView)>::empty());
            }
            Ok(m)
        },
    }
}

/// The entries of a mapping, copied.
fn dup_entries(entries: &Vec<(Yaml, Yaml)>) -> (r: Vec<(Yaml, Yaml)>)
    ensures
        entry_trees(r@) == entry_trees(entries@),
{
    let mut r: Vec<(Yaml, Yaml)> = Vec::new();
    let mut i: usize = 0;
    while i < entries.len()
        invariant
            i <= entries@.len(),
            r@.len() == i,
            forall|j: int|
                0 <= j < i ==> tree((#[trigger] r@[j]).0) == tree(entries@[j].0) && tree(r@[j].1)
                    == tree(entries@[j].1),
        decreases entries.len() - i,
    {
        r.push((entries[i].0.dup(), entries[i].1.dup()));
        i = i + 1;
    }
    proof {
        assert(entry_trees(r@) =~= entry_trees(entries@));
    }
    r
}

/// Write a workspace yaml whose mapping was `before` and is to be `after`.
/// Gives the new text, or `None` where nothing changes. What the two mappings
/// have in common keeps its comments and its layout.
pub fn edit_workspace_yaml(
    source: Option<&str>,
    before: &Vec<(Yaml, Yaml)>,
    after: &Vec<(Yaml, Yaml)>,
) -> (r: Result<Option<String>, YamlEditError>)
    requires
        is_valid_mapping(entry_trees(before@)),
        is_valid_mapping(entry_trees(after@)),
    ensures
        match r {
            Ok(t) => edited_workspace(
                source.deep_view(),
                entry_trees(before@),
                entry_trees(after@),
            ) == Ok::<Option<Seq<char>>, YamlEditErrorView>(t.deep_view()),
            Err(e) => edited_workspace(
                source.deep_view(),
                entry_trees(before@),
                entry_trees(after@),
            ) == Err::<Option<Seq<char>>, YamlEditErrorView>(e.deep_view()),
        },
{
    if same_entries(after, before) {
        return Ok(None);
    }
    let content = match source {
        Some(s) => if blank(s) {
            None
        } else {
            Some(s)
        },
        None => None,
    };
    match content {
        Some(s) => {
            let mut edits: Vec<Edit> = Vec::new();
            let route: Vec<String> = Vec::new();
            proof {
                assert(route.deep_view() =~= Seq::<Seq<char>>::empty());
                assert(edits.deep_view() =~= Seq::<EditView>::empty());
            }
            match diff_into(before, after, &route, &mut edits) {
                Ok(()) => {
                    proof {
                        let d = diff(
                            entry_trees(before@),
                            entry_trees(after@),
                            Seq::empty(),
                        )->Ok_0;
                        assert(Seq::<EditView>::empty() + d =~= d);
                    }
                    match apply_edits(s, edits) {
                        Ok(t) => Ok(Some(t)),
                        Err(e) => Err(e),
                    }
                },
                Err(e) => Err(e),
            }
        },
        None => {
            let copy = dup_entries(after);
            proof {
                lemma_mapping_tree(copy);
                lemma_valid_mapping(entry_trees(copy@));
            }
            match document_text(&Yaml::Mapping(copy)) {
                Ok(t) => Ok(Some(indent_block_sequences(t.as_str()))),
                Err(e) => Err(YamlEditError::Yaml(e)),
            }
        },
    }
}

/// The mapping under a top-level key; without entries where the key is absent.
pub open spec fn submap(entries: YamlEntries, key: Seq<char>) -> Result<
    YamlEntries,
    YamlEditErrorView,
> {
    match get(entries, key) {
        Some(v) => match mapping(v) {
            Some(m) => Ok(m),
            None => Err(YamlEditErrorView::ValueNotAMapping(key)),
        },
        None => Ok(Seq::empty()),
    }
}

/// The entries with the mapping under a top-level key replaced.
pub open spec fn with_submap(entries: YamlEntries, key: Seq<char>, m: YamlEntries) -> YamlEntries {
    match get(entries, key) {
        Some(v) => with_key(entries, key, with_mapping(v, m)),
        None => with_key(entries, key, YamlView::Mapping(m)),
    }
}

/// The mapping under a top-level key.
fn workspace_yaml_submap(entries: &Vec<(Yaml, Yaml)>, key: &str) -> (r: Result<
    Vec<(Yaml, Yaml)>,
    YamlEditError,
>)
    ensures
        match r {
            Ok(m) => submap(entry_trees(entries@), key@) == Ok::<YamlEntries, YamlEditErrorView>(
                entry_trees(m@),
            ) && (is_valid_mapping(entry_trees(entries@)) ==> is_valid_mapping(entry_trees(m@))),
            Err(e) => submap(entry_trees(entries@), key@) == Err::<YamlEntries, YamlEditErrorView>(
                e.deep_view(),
            ),
        },
{
    proof {
        if is_valid_mapping(entry_trees(entries@)) {
            lemma_get_valid(entry_trees(entries@), key@);
            if let Some(v) = get(entry_trees(entries@), key@) {
                lemma_mapping_valid(v);
            }
        }
    }
    match get_value(entries, key) {
        Some(v) => match v.as_mapping() {
            Some(m) => Ok(dup_entries(m)),
            None => Err(YamlEditError::ValueNotAMapping(key.to_owned())),
        },
        None => {
            let m: Vec<(Yaml, Yaml)> = Vec::new();
            proof {
                assert(entry_trees(m@) =~= Seq::<(YamlView, YamlView)>::empty());
            }
            Ok(m)
        },
    }
}

fn set_submap(entries: &Vec<(Yaml, Yaml)>, key: &str, m: Vec<(Yaml, Yaml)>) -> (r: Vec<
    (Yaml, Yaml),
>)
    requires
        is_valid_mapping(entry_trees(entries@)),
        is_valid_mapping(entry_trees(m@)),
    ensures
        entry_trees(r@) == with_submap(entry_trees(entries@), key@, entry_trees(m@)),
        is_valid_mapping(entry_trees(r@)),
{
    let ghost e = entry_trees(entries@);
    let ghost inner = entry_trees(m@);
    let mut out = dup_entries(entries);
    proof {
        lemma_get_valid(e, key@);
        lemma_mapping_tree(m);
        lemma_valid_mapping(inner);
        if let Some(v) = get(e, key@) {
            lemma_with_mapping_valid(v, inner);
            lemma_with_key_valid(e, key@, with_mapping(v, inner));
        }
        lemma_with_key_valid(e, key@, YamlView::Mapping(inner));
    }
    let value = match get_value(entries, key) {
        Some(v) => v.replace_mapping(m),
        None => Yaml::Mapping(m),
    };
    set_key(&mut out, key, value);
    out
}

/// The mapping of a workspace yaml in which an entry of a map has been set.
pub open spec fn with_map_entry(
    entries: YamlEntries,
    map: Seq<char>,
    key: Seq<char>,
    value: YamlView,
) -> Result<YamlEntries, YamlEditErrorView> {
    match submap(entries, map) {
        Ok(m) => Ok(with_submap(entries, map, with_key(m, key, value))),
        Err(e) => Err(e),
    }
}

/// The text of a workspace yaml whose mapping is to be `after`.
pub open spec fn rewritten(
    source: Option<Seq<char>>,
    after: spec_fn(YamlEntries) -> Result<YamlEntries, YamlEditErrorView>,
) -> Result<Option<Seq<char>>, YamlEditErrorView> {
    match workspace_mapping(source) {
        Ok(before) => match after(before) {
            Ok(entries) => edited_workspace(source, before, entries),
            Err(e) => Err(e),
        },
        Err(e) => Err(e),
    }
}

/// Set an entry of a map in a workspace yaml. Gives the new text, or `None`
/// where nothing changes.
pub fn upsert_workspace_map_entry(
    source: Option<&str>,
    map_name: &str,
    entry_key: &str,
    value: Yaml,
) -> (r: Result<Option<String>, YamlEditError>)
    requires
        is_valid(tree(value)),
    ensures
        match r {
            Ok(t) => rewritten(
                source.deep_view(),
                |m: YamlEntries| with_map_entry(m, map_name@, entry_key@, tree(value)),
            ) == Ok::<Option<Seq<char>>, YamlEditErrorView>(t.deep_view()),
            Err(e) => rewritten(
                source.deep_view(),
                |m: YamlEntries| with_map_entry(m, map_name@, entry_key@, tree(value)),
            ) == Err::<Option<Seq<char>>, YamlEditErrorView>(e.deep_view()),
        },
{
    let before = match parse_workspace_mapping(source) {
        Ok(m) => m,
        Err(e) => {
            return Err(e);
        },
    };
    let mut inner = match workspace_yaml_submap(&before, map_name) {
        Ok(m) => m,
        Err(e) => {
            return Err(e);
        },
    };
    proof {
        lemma_with_key_valid(entry_trees(inner@), entry_key@, tree(value));
    }
    set_key(&mut inner, entry_key, value);
    let after = set_submap(&before, map_name, inner);
    edit_workspace_yaml(source, &before, &after)
}

/// Set an entry of `patchedDependencies` in a workspace yaml. Gives the new
/// text, or `None` where nothing changes.
pub fn upsert_workspace_patched_dependency(
    source: Option<&str>,
    key: &str,
    rel_patch_path: &str,
) -> (r: Result<Option<String>, YamlEditError>)
    ensures
        match r {
            Ok(t) => rewritten(
                source.deep_view(),
                |m: YamlEntries|
                    with_map_entry(
                        m,
                        "patchedDependencies"@,
                        key@,
                        YamlView::String(rel_patch_path@),
                    ),
            ) == Ok::<Option<Seq<char>>, YamlEditErrorView>(t.deep_view()),
            Err(e) => rewritten(
                source.deep_view(),
                |m: YamlEntries|
                    with_map_entry(
                        m,
                        "patchedDependencies"@,
                        key@,
                        YamlView::String(rel_patch_path@),
                    ),
            ) == Err::<Option<Seq<char>>, YamlEditErrorView>(e.deep_view()),
        },
{
    upsert_workspace_map_entry(
        source,
        "patchedDependencies",
        key,
        Yaml::String(rel_patch_path.to_owned()),
    )
}

/// A mapping in which the first `n` names are set to `true`.
pub open spec fn with_approved(m: YamlEntries, names: Seq<Seq<char>>, n: int) -> YamlEntries
    decreases n,
{
    if 0 < n <= names.len() {
        with_key(with_approved(m, names, n - 1), names[n - 1], YamlView::Bool(true))
    } else {
        m
    }
}

/// The mapping of a workspace yaml in which names have been approved.
pub open spec fn with_allow_builds(entries: YamlEntries, names: Seq<Seq<char>>) -> Result<
    YamlEntries,
    YamlEditErrorView,
> {
    match submap(entries, "allowBuilds"@) {
        Ok(m) => Ok(
            with_submap(entries, "allowBuilds"@, with_approved(m, names, names.len() as int)),
        ),
        Err(e) => Err(e),
    }
}

/// Approve names in the `allowBuilds` of a workspace yaml. Gives the new text,
/// or `None` where nothing changes.
pub fn write_allow_builds_yaml(source: Option<&str>, names: &Vec<String>) -> (r: Result<
    Option<String>,
    YamlEditError,
>)
    ensures
        match r {
            Ok(t) => rewritten(
                source.deep_view(),
                |m: YamlEntries| with_allow_builds(m, names.deep_view()),
            ) == Ok::<Option<Seq<char>>, YamlEditErrorView>(t.deep_view()),
            Err(e) => rewritten(
                source.deep_view(),
                |m: YamlEntries| with_allow_builds(m, names.deep_view()),
            ) == Err::<Option<Seq<char>>, YamlEditErrorView>(e.deep_view()),
        },
{
    let ghost all = names.deep_view();
    let before = match parse_workspace_mapping(source) {
        Ok(m) => m,
        Err(e) => {
            return Err(e);
        },
    };
    let mut inner = match workspace_yaml_submap(&before, "allowBuilds") {
        Ok(m) => m,
        Err(e) => {
            return Err(e);
        },
    };
    let ghost base = entry_trees(inner@);
    let mut i: usize = 0;
    while i < names.len()
        invariant
            all == names.deep_view(),
            i <= names@.len(),
            entry_trees(inner@) == with_approved(base, all, i as int),
            is_valid_mapping(entry_trees(inner@)),
        decreases names.len() - i,
    {
        proof {
            lemma_with_key_valid(entry_trees(inner@), names@[i as int]@, YamlView::Bool(true));
            assert(all[i as int] == names@[i as int]@);
        }
        set_key(&mut inner, names[i].as_str(), Yaml::Bool(true));
        i = i + 1;
    }
    let after = set_submap(&before, "allowBuilds", inner);
    edit_workspace_yaml(source, &before, &after)
}

/// The mapping of a workspace yaml without an entry of a map; a map that is
/// left empty goes too.
pub open spec fn without_submap_entry(
    entries: YamlEntries,
    map: Seq<char>,
    m: YamlEntries,
    key: Seq<char>,
) -> YamlEntries {
    if without_key(m, key).len() == 0 {
        without_key(entries, map)
    } else {
        with_submap(entries, map, without_key(m, key))
    }
}

/// The mapping of a workspace yaml without an entry of `patchedDependencies`.
pub open spec fn without_patched_dependency(entries: YamlEntries, key: Seq<char>) -> Result<
    YamlEntries,
    YamlEditErrorView,
> {
    match submap(entries, "patchedDependencies"@) {
        Ok(m) => Ok(without_submap_entry(entries, "patchedDependencies"@, m, key)),
        Err(e) => Err(e),
    }
}

/// The mapping of a workspace yaml without an entry of a map.
pub open spec fn without_map_entry(
    entries: YamlEntries,
    map: Seq<char>,
    key: Seq<char>,
) -> YamlEntries {
    match submap(entries, map) {
        Ok(m) => without_submap_entry(entries, map, m, key),
        Err(_) => entries,
    }
}

/// Whether a map of a workspace yaml has an entry.
pub open spec fn has_map_entry(entries: YamlEntries, map: Seq<char>, key: Seq<char>) -> bool {
    match submap(entries, map) {
        Ok(m) => find_key(m, key) is Some,
        Err(_) => false,
    }
}

fn drop_submap_entry(
    entries: &Vec<(Yaml, Yaml)>,
    map: &str,
    m: Vec<(Yaml, Yaml)>,
    key: &str,
) -> (r: (bool, Vec<(Yaml, Yaml)>))
    requires
        is_valid_mapping(entry_trees(entries@)),
        is_valid_mapping(entry_trees(m@)),
    ensures
        r.0 == (find_key(entry_trees(m@), key@) is Some),
        entry_trees(r.1@) == without_submap_entry(
            entry_trees(entries@),
            map@,
            entry_trees(m@),
            key@,
        ),
        is_valid_mapping(entry_trees(r.1@)),
{
    proof {
        lemma_without_key_valid(entry_trees(m@), key@);
        lemma_without_key_valid(entry_trees(entries@), map@);
    }
    let mut m = m;
    let existed = remove_key(&mut m, key);
    if m.len() == 0 {
        let mut out = dup_entries(entries);
        let _ = remove_key(&mut out, map);
        (existed, out)
    } else {
        (existed, set_submap(entries, map, m))
    }
}

/// Take an entry out of the `patchedDependencies` of a workspace yaml. Gives
/// whether it was there, and the new text, or `None` where nothing changes.
pub fn remove_workspace_patched_dependency(source: Option<&str>, key: &str) -> (r: Result<
    (bool, Option<String>),
    YamlEditError,
>)
    ensures
        match r {
            Ok((existed, t)) => rewritten(
                source.deep_view(),
                |m: YamlEntries| without_patched_dependency(m, key@),
            ) == Ok::<Option<Seq<char>>, YamlEditErrorView>(t.deep_view()) && existed
                == has_map_entry(
                workspace_mapping(source.deep_view())->Ok_0,
                "patchedDependencies"@,
                key@,
            ),
            Err(e) => rewritten(
                source.deep_view(),
                |m: YamlEntries| without_patched_dependency(m, key@),
            ) == Err::<Option<Seq<char>>, YamlEditErrorView>(e.deep_view()),
        },
{
    let before = match parse_workspace_mapping(source) {
        Ok(m) => m,
        Err(e) => {
            return Err(e);
        },
    };
    let inner = match workspace_yaml_submap(&before, "patchedDependencies") {
        Ok(m) => m,
        Err(e) => {
            return Err(e);
        },
    };
    let (existed, after) = drop_submap_entry(&before, "patchedDependencies", inner, key);
    match edit_workspace_yaml(source, &before, &after) {
        Ok(t) => Ok((existed, t)),
        Err(e) => Err(e),
    }
}

/// Take an entry out of a map of a workspace yaml. A value that is no map stays
/// as it is. Gives whether the entry was there, and the new text, or `None`
/// where nothing changes.
pub fn remove_map_entry(source: Option<&str>, map_name: &str, entry_key: &str) -> (r: Result<
    (bool, Option<String>),
    YamlEditError,
>)
    ensures
        match r {
            Ok((existed, t)) => rewritten(
                source.deep_view(),
                |m: YamlEntries|
                    Ok::<YamlEntries, YamlEditErrorView>(without_map_entry(m, map_name@, entry_key@)),
            ) == Ok::<Option<Seq<char>>, YamlEditErrorView>(t.deep_view()) && existed
                == has_map_entry(
                workspace_mapping(source.deep_view())->Ok_0,
                map_name@,
                entry_key@,
            ),
            Err(e) => rewritten(
                source.deep_view(),
                |m: YamlEntries|
                    Ok::<YamlEntries, YamlEditErrorView>(without_map_entry(m, map_name@, entry_key@)),
            ) == Err::<Option<Seq<char>>, YamlEditErrorView>(e.deep_view()),
        },
{
    let before = match parse_workspace_mapping(source) {
        Ok(m) => m,
        Err(e) => {
            return Err(e);
        },
    };
    let (existed, after) = match workspace_yaml_submap(&before, map_name) {
        Ok(m) => drop_submap_entry(&before, map_name, m, entry_key),
        Err(_) => (false, dup_entries(&before)),
    };
    match edit_workspace_yaml(source, &before, &after) {
        Ok(t) => Ok((existed, t)),
        Err(e) => Err(e),
    }
}

} // verus!
