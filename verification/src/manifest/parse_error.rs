//! Parse failures with the place in the file that they point at.
use vstd::prelude::*;
use vstd::utf8::encode_utf8;
use crate::json::{
    is_valid, json_document, parse_document, tree, Json, JsonFailure, JsonFailureView, JsonView,
};
use crate::text::{chars, starts_with, string, trim_start, trimmed_start};
use crate::yaml::{Yaml, YamlFailure, YamlFailureView, YamlView};

verus! {

/// A file that could not be parsed: the message, and the bytes that it points
/// at.
#[derive(Debug, PartialEq)]
pub struct ParseError {
    pub message: String,
    pub offset: usize,
    pub len: usize,
}

/// Model of [`ParseError`].
pub struct ParseErrorView {
    pub message: Seq<char>,
    pub offset: nat,
    pub len: nat,
}

impl DeepView for ParseError {
    type V = ParseErrorView;

    open spec fn deep_view(&self) -> ParseErrorView {
        ParseErrorView {
            message: self.message@,
            offset: self.offset as nat,
            len: self.len as nat,
        }
    }
}

/// The first line feed at or after `from`.
pub open spec fn find_line_feed(bytes: Seq<u8>, from: int) -> Option<int>
    decreases bytes.len() - from,
{
    if from < 0 || from >= bytes.len() {
        None
    } else if bytes[from] == 10 {
        Some(from)
    } else {
        find_line_feed(bytes, from + 1)
    }
}

/// The offset behind the next `n` line feeds from `from` on.
pub open spec fn skip_lines(bytes: Seq<u8>, from: int, n: nat) -> Option<int>
    decreases n,
{
    if n == 0 {
        Some(from)
    } else {
        match find_line_feed(bytes, from) {
            Some(i) => skip_lines(bytes, i + 1, (n - 1) as nat),
            None => None,
        }
    }
}

/// The offset of a line and column, both from one on. Places behind the end of
/// the text are its end, and line zero is its start.
pub open spec fn offset_of(bytes: Seq<u8>, line: nat, column: nat) -> nat {
    let n = bytes.len();
    if line == 0 {
        0
    } else {
        match skip_lines(bytes, 0, (line - 1) as nat) {
            None => n,
            Some(start) => {
                let at = start + (if column == 0 {
                    0
                } else {
                    column - 1
                });
                if at <= n {
                    at as nat
                } else {
                    n
                }
            },
        }
    }
}

/// One byte, or none at the end of the text.
pub open spec fn span_len(bytes: Seq<u8>, offset: nat) -> nat {
    if offset >= bytes.len() {
        0
    } else {
        1
    }
}

/// The byte offset of a line and column.
pub fn line_col_to_byte_offset(content: &str, line: usize, column: usize) -> (r: usize)
    ensures
        r as nat == offset_of(encode_utf8(content@), line as nat, column as nat),
        r <= encode_utf8(content@).len(),
{
    let bytes = content.as_bytes();
    let n: usize = bytes.len();
    if line == 0 {
        return 0;
    }
    let mut start: usize = 0;
    let mut left: usize = line - 1;
    while left > 0
        invariant
            bytes@ == encode_utf8(content@),
            n == bytes@.len(),
            start <= n,
            line > 0,
            skip_lines(bytes@, 0, (line - 1) as nat) == skip_lines(
                bytes@,
                start as int,
                left as nat,
            ),
        decreases left,
    {
        let mut i: usize = start;
        while i < n && bytes[i] != 10
            invariant
                n == bytes@.len(),
                start <= i <= n,
                find_line_feed(bytes@, start as int) == find_line_feed(bytes@, i as int),
            decreases n - i,
        {
            i = i + 1;
        }
        if i >= n {
            return n;
        }
        start = i + 1;
        left = left - 1;
    }
    let shift: usize = if column == 0 {
        0
    } else {
        column - 1
    };
    if shift > n - start {
        n
    } else {
        start + shift
    }
}

/// What `serde_json` says about a text, as a place in it.
pub open spec fn json_error(content: Seq<char>, err: JsonFailureView) -> ParseErrorView {
    let bytes = encode_utf8(content);
    let offset = offset_of(bytes, err.line as nat, err.column as nat);
    ParseErrorView { message: err.message, offset, len: span_len(bytes, offset) }
}

/// What a YAML parser says about a text, as a place in it: the start where it
/// names none.
pub open spec fn yaml_error(content: Seq<char>, err: YamlFailureView) -> ParseErrorView {
    let bytes = encode_utf8(content);
    match err.offset {
        Some(i) => {
            let offset = if i <= bytes.len() {
                i as nat
            } else {
                bytes.len()
            };
            ParseErrorView { message: err.message, offset, len: span_len(bytes, offset) }
        },
        None => ParseErrorView { message: err.message, offset: 0, len: 0 },
    }
}

/// A message about a whole text.
pub open spec fn message_error(content: Seq<char>, message: Seq<char>) -> ParseErrorView {
    ParseErrorView { message, offset: 0, len: span_len(encode_utf8(content), 0) }
}

/// The message about comments in a manifest.
pub open spec fn comment_message() -> Seq<char> {
    "package.json cannot contain JSON comments. Remove any `//` or `/* */` lines. aube does not support JSONC for package.json"@
}

/// A text without its byte order mark.
pub open spec fn without_bom(content: Seq<char>) -> Seq<char> {
    if content.len() > 0 && content[0] == '\u{feff}' {
        content.drop_first()
    } else {
        content
    }
}

/// A text that starts with a comment.
pub open spec fn starts_with_comment(content: Seq<char>) -> bool {
    "//"@.is_prefix_of(trim_start(content)) || "/*"@.is_prefix_of(trim_start(content))
}

/// Why a text is no manifest: the failure of the parser, unless the text starts
/// with a comment.
pub open spec fn manifest_error(content: Seq<char>, err: JsonFailureView) -> ParseErrorView {
    if starts_with_comment(content) {
        message_error(content, comment_message())
    } else {
        json_error(content, err)
    }
}

/// The JSON value that a file holds, or why there is none.
pub open spec fn json_value(content: Seq<char>) -> Result<JsonView, ParseErrorView> {
    let plain = without_bom(content);
    match json_document(plain) {
        Ok(v) => Ok(v),
        Err(e) => Err(manifest_error(plain, e)),
    }
}

impl ParseError {
    /// The failure of a JSON parser as a place in the text. The place never
    /// reaches behind the end of the text.
    pub fn from_json_err(content: &str, err: &JsonFailure) -> (r: Self)
        ensures
            r.deep_view() == json_error(content@, err.deep_view()),
            r.offset + r.len <= encode_utf8(content@).len(),
    {
        let offset: usize = line_col_to_byte_offset(content, err.line, err.column);
        let len: usize = if offset >= content.as_bytes().len() {
            0
        } else {
            1
        };
        ParseError { message: err.message.clone(), offset, len }
    }

    /// The failure of a YAML parser as a place in the text. The place never
    /// reaches behind the end of the text.
    pub fn from_yaml_err(content: &str, err: &YamlFailure) -> (r: Self)
        ensures
            r.deep_view() == yaml_error(content@, err.deep_view()),
            r.offset + r.len <= encode_utf8(content@).len(),
    {
        let n: usize = content.as_bytes().len();
        match err.offset {
            Some(i) => {
                let offset: usize = if i <= n {
                    i
                } else {
                    n
                };
                let len: usize = if offset >= n {
                    0
                } else {
                    1
                };
                ParseError { message: err.message.clone(), offset, len }
            },
            None => ParseError { message: err.message.clone(), offset: 0, len: 0 },
        }
    }

    /// A message about a whole text, which points at its first byte.
    pub fn parse_msg(content: &str, message: String) -> (r: Self)
        ensures
            r.deep_view() == message_error(content@, message@),
            r.offset + r.len <= encode_utf8(content@).len(),
    {
        let len: usize = if content.as_bytes().len() == 0 {
            0
        } else {
            1
        };
        ParseError { message, offset: 0, len }
    }

    /// Why a text is no manifest. A text that starts with a comment gets a
    /// message of its own.
    pub fn from_manifest_err(content: &str, err: &JsonFailure) -> (r: Self)
        ensures
            r.deep_view() == manifest_error(content@, err.deep_view()),
            r.offset + r.len <= encode_utf8(content@).len(),
    {
        let text = chars(content);
        let trimmed = trimmed_start(&text);
        if starts_with(trimmed, "//") || starts_with(trimmed, "/*") {
            return Self::parse_msg(
                content,
                "package.json cannot contain JSON comments. Remove any `//` or `/* */` lines. aube does not support JSONC for package.json".to_owned(),
            );
        }
        Self::from_json_err(content, err)
    }
}

/// A text without its byte order mark.
pub fn strip_bom(content: &str) -> (r: String)
    ensures
        r@ == without_bom(content@),
{
    let text = chars(content);
    if text.len() > 0 && text[0] == '\u{feff}' {
        let rest = vstd::slice::slice_subrange(text.as_slice(), 1, text.len());
        proof {
            assert(rest@ == content@.drop_first());
        }
        string(rest)
    } else {
        content.to_owned()
    }
}

/// Parse the JSON value in a file.
pub fn parse_json(content: &str) -> (r: Result<Json, ParseError>)
    ensures
        match r {
            Ok(j) => json_value(content@) == Ok::<JsonView, ParseErrorView>(tree(j)) && is_valid(
                tree(j),
            ),
            Err(e) => json_value(content@) == Err::<JsonView, ParseErrorView>(e.deep_view()),
        },
{
    let plain = strip_bom(content);
    match parse_document(plain.as_str()) {
        Ok(j) => Ok(j),
        Err(e) => Err(ParseError::from_manifest_err(plain.as_str(), &e)),
    }
}

/// The YAML document that a file holds, or why there is none.
pub open spec fn yaml_value(content: Seq<char>) -> Result<YamlView, ParseErrorView> {
    match crate::yaml::yaml_document(content) {
        Ok(v) => Ok(v),
        Err(e) => Err(yaml_error(content, e)),
    }
}

/// Parse the YAML document in a file.
pub fn parse_yaml(content: &str) -> (r: Result<Yaml, ParseError>)
    ensures
        match r {
            Ok(y) => yaml_value(content@) == Ok::<YamlView, ParseErrorView>(crate::yaml::tree(y))
                && crate::yaml::is_valid(crate::yaml::tree(y)),
            Err(e) => yaml_value(content@) == Err::<YamlView, ParseErrorView>(e.deep_view()),
        },
{
    match crate::yaml::parse_document(content) {
        Ok(y) => Ok(y),
        Err(e) => Err(ParseError::from_yaml_err(content, &e)),
    }
}

} // verus!
