//! What the places in parse errors guarantee.
use vstd::prelude::*;
use vstd::utf8::encode_utf8;
use crate::json::JsonFailureView;
use crate::manifest::parse_error::{
    find_line_feed, json_error, manifest_error, message_error, offset_of, skip_lines, without_bom,
    yaml_error, ParseErrorView,
};
use crate::text::trim_start;
use crate::yaml::YamlFailureView;

verus! {

/// Whether the bytes that an error points at lie in a text.
pub open spec fn is_inside(content: Seq<char>, e: ParseErrorView) -> bool {
    e.offset + e.len <= encode_utf8(content).len()
}

proof fn lemma_find_line_feed(bytes: Seq<u8>, from: int)
    ensures
        find_line_feed(bytes, from) matches Some(i) ==> from <= i < bytes.len(),
    decreases bytes.len() - from,
{
    if 0 <= from < bytes.len() && bytes[from] != 10 {
        lemma_find_line_feed(bytes, from + 1);
    }
}

proof fn lemma_skip_lines(bytes: Seq<u8>, from: int, n: nat)
    requires
        0 <= from,
    ensures
        skip_lines(bytes, from, n) matches Some(i) ==> 0 <= i,
    decreases n,
{
    if n > 0 {
        lemma_find_line_feed(bytes, from);
        if let Some(i) = find_line_feed(bytes, from) {
            lemma_skip_lines(bytes, i + 1, (n - 1) as nat);
        }
    }
}

/// What an error points at lies in the text, whatever place the parser names: an
/// error at the end of the text points at no byte.
pub proof fn law_errors_point_inside(
    content: Seq<char>,
    json: JsonFailureView,
    yaml: YamlFailureView,
    message: Seq<char>,
)
    ensures
        is_inside(content, json_error(content, json)),
        is_inside(content, manifest_error(content, json)),
        is_inside(content, yaml_error(content, yaml)),
        is_inside(content, message_error(content, message)),
{
    if json.line > 0 {
        lemma_skip_lines(encode_utf8(content), 0, (json.line - 1) as nat);
    }
}

/// The number of line feeds among the first `n` bytes.
pub open spec fn line_feeds(bytes: Seq<u8>, n: int) -> nat
    decreases n,
{
    if n <= 0 {
        0
    } else {
        line_feeds(bytes, n - 1) + if bytes[n - 1] == 10 {
            1nat
        } else {
            0nat
        }
    }
}

proof fn lemma_no_line_feed(bytes: Seq<u8>, from: int, to: int)
    requires
        0 <= from <= to <= bytes.len(),
        forall|i: int| from <= i < to ==> bytes[i] != 10,
    ensures
        line_feeds(bytes, to) == line_feeds(bytes, from),
    decreases to - from,
{
    if from < to {
        lemma_no_line_feed(bytes, from, to - 1);
    }
}

proof fn lemma_next_line_feed(bytes: Seq<u8>, from: int)
    requires
        0 <= from <= bytes.len(),
    ensures
        find_line_feed(bytes, from) matches Some(i) ==> from <= i < bytes.len() && bytes[i] == 10
            && forall|j: int| from <= j < i ==> bytes[j] != 10,
        find_line_feed(bytes, from) is None ==> forall|j: int|
            from <= j < bytes.len() ==> bytes[j] != 10,
    decreases bytes.len() - from,
{
    if from < bytes.len() && bytes[from] != 10 {
        lemma_next_line_feed(bytes, from + 1);
    }
}

proof fn lemma_line_start(bytes: Seq<u8>, from: int, n: nat)
    requires
        0 <= from <= bytes.len(),
        from == 0 || bytes[from - 1] == 10,
    ensures
        skip_lines(bytes, from, n) matches Some(s) ==> from <= s <= bytes.len() && (s == 0
            || bytes[s - 1] == 10) && line_feeds(bytes, s) == line_feeds(bytes, from) + n,
        skip_lines(bytes, from, n) is None ==> line_feeds(bytes, bytes.len() as int) < line_feeds(
            bytes,
            from,
        ) + n,
    decreases n,
{
    if n > 0 {
        lemma_next_line_feed(bytes, from);
        match find_line_feed(bytes, from) {
            Some(i) => {
                lemma_no_line_feed(bytes, from, i);
                lemma_line_start(bytes, i + 1, (n - 1) as nat);
            },
            None => {
                lemma_no_line_feed(bytes, from, bytes.len() as int);
            },
        }
    }
}

/// The place of a line and a column is found in the text: behind as many line feeds as
/// there are lines before it, and as many bytes on as there are columns before it. A
/// place behind the end of the text is its end.
pub proof fn law_places(bytes: Seq<u8>, line: nat, column: nat) -> (start: int)
    requires
        line > 0,
        column > 0,
    ensures
        line_feeds(bytes, bytes.len() as int) + 1 >= line ==> {
            &&& 0 <= start <= bytes.len()
            &&& start == 0 || bytes[start - 1] == 10
            &&& line_feeds(bytes, start) + 1 == line
            &&& offset_of(bytes, line, column) == if start + column - 1 <= bytes.len() {
                (start + column - 1) as nat
            } else {
                bytes.len()
            }
        },
        line_feeds(bytes, bytes.len() as int) + 1 < line ==> offset_of(bytes, line, column)
            == bytes.len(),
{
    lemma_line_start(bytes, 0, (line - 1) as nat);
    match skip_lines(bytes, 0, (line - 1) as nat) {
        Some(s) => {
            lemma_more_line_feeds(bytes, s, bytes.len() as int);
            s
        },
        None => 0,
    }
}

proof fn lemma_more_line_feeds(bytes: Seq<u8>, from: int, to: int)
    requires
        0 <= from <= to <= bytes.len(),
    ensures
        line_feeds(bytes, from) <= line_feeds(bytes, to),
    decreases to - from,
{
    if from < to {
        lemma_more_line_feeds(bytes, from, to - 1);
    }
}

/// A byte order mark in front of a text does not belong to it.
pub proof fn law_byte_order_mark(s: Seq<char>)
    ensures
        without_bom(seq!['\u{feff}'] + s) == s,
        s.len() > 0 && s[0] != '\u{feff}' ==> without_bom(s) == s,
{
    assert((seq!['\u{feff}'] + s).drop_first() =~= s);
}

/// A manifest that cannot be read and starts with a comment is refused for the comment; any
/// other for what the parser says.
pub proof fn law_comments(content: Seq<char>, e: JsonFailureView)
    ensures
        "//"@.is_prefix_of(trim_start(content)) || "/*"@.is_prefix_of(trim_start(content))
            ==> manifest_error(content, e).message
            == "package.json cannot contain JSON comments. Remove any `//` or `/* */` lines. aube does not support JSONC for package.json"@,
        !("//"@.is_prefix_of(trim_start(content)) || "/*"@.is_prefix_of(trim_start(content)))
            ==> manifest_error(content, e).message == e.message,
{
}

} // verus!
