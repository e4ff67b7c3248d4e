//! The sources a diagnostic points into, and the line arithmetic over them.
//!
//! The sources themselves live in a `source_lang::SourceMap`; line and column
//! resolution is `span_lang::LineIndex`. This module states, over plain
//! values, what the renderer takes from each of them.
use source_lang::SourceMap;
use span_lang::{BytePos, LineIndex};
use vstd::prelude::*;
use vstd::string::*;
use vstd::utf8::*;

use crate::text::floor_to_boundary;

verus! {

#[verifier::external_type_specification]
#[verifier::external_body]
pub struct ExSourceMap(SourceMap);

/// The sources `map` holds, in the order they were added: each one's name and
/// text.
pub uninterp spec fn loaded_sources(map: SourceMap) -> Seq<(Seq<char>, Seq<char>)>;

/// The length in bytes of a source's text.
pub open spec fn source_len(src: (Seq<char>, Seq<char>)) -> int {
    encode_utf8(src.1).len() as int
}

/// The global position at which source `i` begins: sources sit end to end in
/// the order they were added, so this is the total length of those before it.
pub open spec fn source_base(sources: Seq<(Seq<char>, Seq<char>)>, i: int) -> int
    decreases i,
{
    if i <= 0 {
        0
    } else {
        source_base(sources, i - 1) + source_len(sources[i - 1])
    }
}

/// The source that global position `at` falls in, with `at`'s offset inside
/// it: the last source that begins at or before `at`, provided `at` does not
/// lie past the end of everything loaded (the very end counts as inside).
pub open spec fn locate_in(sources: Seq<(Seq<char>, Seq<char>)>, at: int) -> Option<(int, int)>
    decreases sources.len(),
{
    if sources.len() == 0 {
        None
    } else {
        let last = sources.len() - 1;
        let base = source_base(sources, last);
        if base <= at {
            if at <= base + source_len(sources[last]) {
                Some((last, at - base))
            } else {
                None
            }
        } else {
            locate_in(sources.drop_last(), at)
        }
    }
}

/// The number of `\n` bytes in `bytes`.
pub open spec fn newline_count(bytes: Seq<u8>) -> nat
    decreases bytes.len(),
{
    if bytes.len() == 0 {
        0
    } else {
        newline_count(bytes.drop_last()) + if bytes.last() == 10 {
            1nat
        } else {
            0nat
        }
    }
}

/// The offset at which the line holding offset `at` begins: just after the
/// last `\n` before `at`, or `0`.
pub open spec fn line_begin(bytes: Seq<u8>, at: int) -> int
    decreases at,
{
    if at <= 0 {
        0
    } else if bytes[at - 1] == 10 {
        at
    } else {
        line_begin(bytes, at - 1)
    }
}

/// `n`, or `u32::MAX` where `n` does not fit.
pub open spec fn saturate_u32(n: int) -> u32 {
    if n > u32::MAX {
        u32::MAX
    } else {
        n as u32
    }
}

/// The 1-based line and column of byte offset `pos`: the offset is first
/// clamped into the text and floored onto a character boundary; the line
/// counts the line breaks before it, the column the characters between the
/// start of its line and it.
pub open spec fn line_col_at(bytes: Seq<u8>, pos: int) -> (u32, u32) {
    let at = floor_to_boundary(bytes, pos);
    let begin = line_begin(bytes, at);
    (
        saturate_u32(newline_count(bytes.take(at)) + 1int),
        saturate_u32(decode_utf8(bytes.subrange(begin, at)).len() + 1int),
    )
}

/// The offsets at which lines begin: `0`, and one past every `\n`.
pub open spec fn line_starts(bytes: Seq<u8>) -> Seq<int>
    decreases bytes.len(),
{
    if bytes.len() == 0 {
        seq![0int]
    } else {
        let starts = line_starts(bytes.drop_last());
        if bytes.last() == 10 {
            starts.push(bytes.len() as int)
        } else {
            starts
        }
    }
}

/// The byte range of the text of 1-based line `line`, without its `\n` or
/// `\r\n` terminator; `None` for line `0` or a line past the last.
pub open spec fn line_range(bytes: Seq<u8>, line: u32) -> Option<(int, int)> {
    let starts = line_starts(bytes);
    if line == 0 || line > starts.len() {
        None
    } else {
        let start = starts[line - 1];
        let end = if line < starts.len() {
            starts[line as int]
        } else {
            bytes.len() as int
        };
        if end > start && bytes[end - 1] == 10 {
            if end - 1 > start && bytes[end - 2] == 13 {
                Some((start, end - 2))
            } else {
                Some((start, end - 1))
            }
        } else {
            Some((start, end))
        }
    }
}

/// Resolves global position `at` against `map`: `SourceMap::locate`, returning
/// the source's index and the offset inside it. The contract claims that the
/// sources lie end to end in the order they were added, and that the last one
/// starting at or before `at` is returned, the end of all sources included.
#[verifier::external_body]
pub(crate) fn locate(map: &SourceMap, at: u32) -> (res: Option<(u32, u32)>)
    ensures
        match res {
            Some((index, local)) => locate_in(loaded_sources(*map), at as int) == Some(
                (index as int, local as int),
            ),
            None => locate_in(loaded_sources(*map), at as int) is None,
        },
{
    match map.locate(BytePos::new(at)) {
        Some((id, local)) => Some((id.to_u32(), local.to_u32())),
        None => None,
    }
}

/// Every source of `map` with its name, text and global start:
/// `SourceMap::iter`. The contract claims that the sources come in the order
/// they were added, each starting where the one before it ended, and that all
/// of them together fit in the 32-bit position space.
#[verifier::external_body]
pub(crate) fn sources_of(map: &SourceMap) -> (res: Vec<(&str, &str, u32)>)
    ensures
        res@.len() == loaded_sources(*map).len(),
        forall|i: int|
            #![trigger res@[i]]
            0 <= i < res@.len() ==> {
                &&& res@[i].0@ == loaded_sources(*map)[i].0
                &&& res@[i].1@ == loaded_sources(*map)[i].1
                &&& res@[i].2 == source_base(loaded_sources(*map), i)
                &&& res@[i].2 + res@[i].1.spec_bytes().len() <= u32::MAX
            },
{
    map.iter().map(|(_, file)| (file.name(), file.text(), file.span().start().to_u32())).collect()
}

/// The line and column of byte offset `pos` in `text`:
/// `LineIndex::line_col` on the index of `text`. The contract claims what the
/// crate documents: clamping, flooring onto a character boundary, lines split
/// at `\n`, and columns counted in characters.
#[verifier::external_body]
pub(crate) fn line_col(text: &str, pos: u32) -> (res: (u32, u32))
    requires
        text.spec_bytes().len() <= u32::MAX,
    ensures
        res == line_col_at(text.spec_bytes(), pos as int),
{
    let lc = LineIndex::new(text).line_col(BytePos::new(pos));
    (lc.line, lc.col)
}

/// The byte range of line `line` of `text`, terminator excluded:
/// `LineIndex::line_span` on the index of `text`.
#[verifier::external_body]
pub(crate) fn line_span(text: &str, line: u32) -> (res: Option<(u32, u32)>)
    requires
        text.spec_bytes().len() <= u32::MAX,
    ensures
        match res {
            Some((lo, hi)) => line_range(text.spec_bytes(), line) == Some((lo as int, hi as int)),
            None => line_range(text.spec_bytes(), line) is None,
        },
{
    match LineIndex::new(text).line_span(line) {
        Some(span) => Some((span.start().to_u32(), span.end().to_u32())),
        None => None,
    }
}

} // verus!
