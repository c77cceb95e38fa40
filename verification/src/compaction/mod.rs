//! Content-aware compaction of large tool outputs.
//!
//! A tool's output is routed by the tool's name (and, for unknown tools, by
//! the shape of the text) to a structural compressor. The original is kept
//! whenever compaction is disabled, the output is small, no compressor
//! applies, or the compressed form would not be smaller, so compaction can
//! only ever shrink what enters the model context.

pub mod json_crusher;
pub mod search;
pub mod store;

use vstd::prelude::*;
use crate::text::{byte_len, chars_of, chars_eq_str, trim, trim_chars, utf8_len};

verus! {

/// Outputs below this many bytes are never compressed.
pub const MIN_BYTES_TO_COMPRESS: usize = 2048;

/// The kinds of tool output this stage knows how to compress.
#[derive(Debug, Clone, Copy, PartialEq, Eq)]
pub enum ContentType {
    /// `path:line:content` search results.
    Search,
    /// A JSON array (possibly of objects).
    JsonArray,
    /// Anything else; passed through.
    PlainText,
}

/// The content type a tool's name announces, if any.
pub open spec fn tool_hint(tool: Seq<char>) -> Option<ContentType> {
    if tool == "grep"@ || tool == "ripgrep"@ || tool == "search"@ {
        Some(ContentType::Search)
    } else {
        None
    }
}

/// The content type used for `content` produced by `tool`: the tool's hint,
/// else a JSON array when the text starts with `[`, else plain text.
pub open spec fn content_type(tool: Seq<char>, content: Seq<char>) -> ContentType {
    match tool_hint(tool) {
        Some(t) => t,
        None => if trim(content).len() > 0 && trim(content)[0] == '[' {
            ContentType::JsonArray
        } else {
            ContentType::PlainText
        },
    }
}

/// What the compressor for `ct` makes of `content`.
pub open spec fn candidate(ct: ContentType, content: Seq<char>) -> Option<Seq<char>> {
    match ct {
        ContentType::Search => search::compressed(content),
        ContentType::JsonArray => json_crusher::crushed(content),
        ContentType::PlainText => None,
    }
}

/// What `compact_tool_output` returns.
pub open spec fn compacted(content: Seq<char>, tool: Seq<char>, enabled: bool) -> Seq<char> {
    if !enabled || byte_len(content) < MIN_BYTES_TO_COMPRESS {
        content
    } else {
        match candidate(content_type(tool, content), content) {
            Some(out) => if byte_len(out) < byte_len(content) {
                out
            } else {
                content
            },
            None => content,
        }
    }
}

/// The content type a tool's name announces.
pub fn hint_for_tool(tool_name: &str) -> (r: Option<ContentType>)
    ensures
        r == tool_hint(tool_name@),
{
    let t = chars_of(tool_name);
    if chars_eq_str(&t, "grep") || chars_eq_str(&t, "ripgrep") || chars_eq_str(&t, "search") {
        Some(ContentType::Search)
    } else {
        None
    }
}

/// The content type to compress `content` as.
pub fn resolve(hint: Option<ContentType>, content: &Vec<char>) -> (r: ContentType)
    ensures
        r == match hint {
            Some(t) => t,
            None => if trim(content@).len() > 0 && trim(content@)[0] == '[' {
                ContentType::JsonArray
            } else {
                ContentType::PlainText
            },
        },
{
    match hint {
        Some(t) => t,
        None => {
            let t = trim_chars(content);
            if t.len() > 0 && t[0] == '[' {
                ContentType::JsonArray
            } else {
                ContentType::PlainText
            }
        },
    }
}

/// Compress a tool's output for the model context, routed by the tool name.
///
/// Falls back to the original when compaction is disabled, the output is
/// small, the content type is not one this stage compresses, or compression
/// would not shrink it.
pub fn compact_tool_output(content: String, tool_name: &str, enabled: bool) -> (r: String)
    ensures
        r@ == compacted(content@, tool_name@, enabled),
        byte_len(r@) <= byte_len(content@),
        !enabled ==> r@ == content@,
{
    if !enabled {
        return content;
    }
    let chars = chars_of(content.as_str());
    let size = utf8_len(&chars);
    if size < MIN_BYTES_TO_COMPRESS as u128 {
        return content;
    }
    let hint = hint_for_tool(tool_name);
    let ct = resolve(hint, &chars);
    let compressed = match ct {
        ContentType::Search => search::compress(content.as_str()),
        ContentType::JsonArray => json_crusher::compress(content.as_str()),
        ContentType::PlainText => None,
    };
    match compressed {
        Some(out) => {
            let out_chars = chars_of(out.as_str());
            if utf8_len(&out_chars) < size {
                out
            } else {
                content
            }
        },
        None => content,
    }
}

} // verus!
