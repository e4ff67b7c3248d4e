//! Turning a [`Diagnostic`] into caret-annotated text.
use source_lang::SourceMap;
use vstd::prelude::*;
use vstd::string::*;
use vstd::utf8::*;

use crate::diagnostic::{Diagnostic, DiagnosticView};
use crate::label::Label;
use crate::plain::law_unstyled_is_plain;
use crate::severity::{severity_word, Severity};
use crate::sources::{line_col, line_col_at, line_range, line_span, loaded_sources, locate, locate_in, source_base, sources_of};
use crate::span::Span;
use crate::text::{
    column_count, decimal, decimal_width, expand_tabs, expanded, floor_boundary, floor_to_boundary,
    push_char, push_decimal, push_repeat, repeat_char, str_get, visual_columns,
};

verus! {

broadcast use {encode_utf8_valid_utf8, encode_utf8_decode_utf8};

// ---------------------------------------------------------------------------
// What a rendering consists of.
// ---------------------------------------------------------------------------
/// A label as the renderer sees it: its span and its message.
pub type LabelParts = (Span, Seq<char>);

/// A label that resolved into a source: the source's index, whether the label
/// is the primary one, and the label.
pub type Placed = (int, bool, LabelParts);

/// One label's underline on one line.
pub struct MarkView {
    /// The 1-based line the underline sits under.
    pub line: u32,
    /// Columns of line text before the underline.
    pub lead: nat,
    /// Columns the underline covers; at least one.
    pub width: nat,
    /// Drawn with `^` for the primary label, `-` for a secondary one.
    pub primary: bool,
    /// The label's message, present only on the last line it covers.
    pub message: Option<Seq<char>>,
}

/// The primary label, then every secondary label in the order they were
/// added, each flagged with whether it is the primary.
pub open spec fn labels_of(d: DiagnosticView) -> Seq<(bool, LabelParts)> {
    seq![(true, d.primary)] + d.secondary.map_values(|l: LabelParts| (false, l))
}

/// The labels whose start falls inside a loaded source, in order, each with
/// that source's index.
pub open spec fn placed_labels(
    srcs: Seq<(Seq<char>, Seq<char>)>,
    labels: Seq<(bool, LabelParts)>,
) -> Seq<Placed>
    decreases labels.len(),
{
    if labels.len() == 0 {
        Seq::empty()
    } else {
        let rest = placed_labels(srcs, labels.drop_last());
        let (primary, label) = labels.last();
        match locate_in(srcs, label.0.lo() as int) {
            Some((index, _)) => rest.push((index, primary, label)),
            None => rest,
        }
    }
}

/// The labels whose start falls outside every loaded source, in order.
pub open spec fn stray_labels(
    srcs: Seq<(Seq<char>, Seq<char>)>,
    labels: Seq<(bool, LabelParts)>,
) -> Seq<LabelParts>
    decreases labels.len(),
{
    if labels.len() == 0 {
        Seq::empty()
    } else {
        let rest = stray_labels(srcs, labels.drop_last());
        let label = labels.last().1;
        match locate_in(srcs, label.0.lo() as int) {
            Some(_) => rest,
            None => rest.push(label),
        }
    }
}

/// Whether some placed label lies in source `index`.
pub open spec fn has_label_in(placed: Seq<Placed>, index: int) -> bool {
    exists|k: int| 0 <= k < placed.len() && #[trigger] placed[k].0 == index
}

/// The sources below `count` that get a frame after the primary's: those a
/// label lies in, other than `first`, in map order.
pub open spec fn later_frames(placed: Seq<Placed>, first: Option<int>, count: int) -> Seq<int>
    decreases count,
{
    if count <= 0 {
        Seq::empty()
    } else {
        let rest = later_frames(placed, first, count - 1);
        if has_label_in(placed, count - 1) && first != Some(count - 1) {
            rest.push(count - 1)
        } else {
            rest
        }
    }
}

/// The sources that get a frame, in order: the primary label's source first,
/// then every other source a label lies in, in map order.
pub open spec fn frame_order(placed: Seq<Placed>, first: Option<int>, count: int) -> Seq<int> {
    match first {
        Some(p) => seq![p] + later_frames(placed, first, count),
        None => later_frames(placed, first, count),
    }
}

/// The offset of global position `pos` inside a source starting at `base`,
/// or `0` before it.
pub open spec fn local_offset(pos: u32, base: int) -> int {
    if pos >= base {
        pos - base
    } else {
        0
    }
}

/// The start of `span` inside its source.
pub open spec fn local_start(span: Span, base: int) -> int {
    local_offset(span.lo(), base)
}

/// The end of `span` inside its source, clamped to the source's length.
pub open spec fn local_end(bytes: Seq<u8>, span: Span, base: int) -> int {
    let e = local_offset(span.hi(), base);
    if e < bytes.len() {
        e
    } else {
        bytes.len() as int
    }
}

/// The last line a label covering `start..end` underlines: the line of its
/// final byte, or the start line for a zero-width label.
pub open spec fn last_line(bytes: Seq<u8>, start: int, end: int) -> u32 {
    if end > start {
        line_col_at(bytes, end - 1).0
    } else {
        line_col_at(bytes, start).0
    }
}

/// The underline a label covering `start..end` draws on `line`, if that line
/// exists: the label's range intersected with the line, floored to character
/// boundaries, measured in display columns, at least one column wide.
#[verifier::opaque]
pub open spec fn mark_on(
    bytes: Seq<u8>,
    start: int,
    end: int,
    line: u32,
    final_line: u32,
    primary: bool,
    message: Seq<char>,
) -> Option<MarkView> {
    match line_range(bytes, line) {
        None => None,
        Some((lo, hi)) => {
            if lo <= hi && is_char_boundary(bytes, lo) && is_char_boundary(bytes, hi) {
                let text = bytes.subrange(lo, hi);
                let seg_start = if start > lo {
                    start
                } else {
                    lo
                };
                let seg_end0 = if end < hi {
                    end
                } else {
                    hi
                };
                let seg_end = if seg_end0 > seg_start {
                    seg_end0
                } else {
                    seg_start
                };
                let a = floor_to_boundary(text, seg_start - lo);
                let b0 = floor_to_boundary(text, seg_end - lo);
                let b = if b0 > a {
                    b0
                } else {
                    a
                };
                let lead = visual_columns(decode_utf8(text.take(a)));
                let full = visual_columns(decode_utf8(text.take(b)));
                Some(
                    MarkView {
                        line,
                        lead,
                        width: if full > lead {
                            (full - lead) as nat
                        } else {
                            1
                        },
                        primary,
                        message: if line == final_line && message.len() > 0 {
                            Some(message)
                        } else {
                            None
                        },
                    },
                )
            } else {
                None
            }
        },
    }
}

/// The underlines a label draws on lines `first..upto`.
pub open spec fn marks_upto(
    bytes: Seq<u8>,
    start: int,
    end: int,
    first: u32,
    upto: int,
    final_line: u32,
    primary: bool,
    message: Seq<char>,
) -> Seq<MarkView>
    decreases upto - first,
{
    if upto <= first {
        Seq::empty()
    } else {
        let rest = marks_upto(bytes, start, end, first, upto - 1, final_line, primary, message);
        match mark_on(bytes, start, end, (upto - 1) as u32, final_line, primary, message) {
            Some(m) => rest.push(m),
            None => rest,
        }
    }
}

/// The underlines of one label in a source starting at `base`: one on every
/// line its span touches, with its message on the last.
pub open spec fn label_marks(bytes: Seq<u8>, base: int, primary: bool, label: LabelParts) -> Seq<
    MarkView,
> {
    let start = local_start(label.0, base);
    let end = local_end(bytes, label.0, base);
    let first = line_col_at(bytes, start).0;
    let final_line = last_line(bytes, start, end);
    marks_upto(bytes, start, end, first, final_line + 1, final_line, primary, label.1)
}

/// The underlines of every placed label that lies in source `id`, in label
/// order.
pub open spec fn frame_marks(bytes: Seq<u8>, base: int, id: int, placed: Seq<Placed>) -> Seq<
    MarkView,
>
    decreases placed.len(),
{
    if placed.len() == 0 {
        Seq::empty()
    } else {
        let rest = frame_marks(bytes, base, id, placed.drop_last());
        let (index, primary, label) = placed.last();
        if index == id {
            rest + label_marks(bytes, base, primary, label)
        } else {
            rest
        }
    }
}

/// Where a frame's location line points: the primary label if it lies in this
/// source, else the earliest label in it (the first of equals). The flag says
/// whether the point is the primary label's.
pub open spec fn frame_anchor(bytes: Seq<u8>, base: int, id: int, placed: Seq<Placed>) -> (
    Option<(u32, u32)>,
    bool,
)
    decreases placed.len(),
{
    if placed.len() == 0 {
        (None, false)
    } else {
        let (anchor, anchor_primary) = frame_anchor(bytes, base, id, placed.drop_last());
        let (index, primary, label) = placed.last();
        if index != id {
            (anchor, anchor_primary)
        } else {
            let here = line_col_at(bytes, local_start(label.0, base));
            let better = match anchor {
                None => true,
                Some(a) => if primary && !anchor_primary {
                    true
                } else if !primary && anchor_primary {
                    false
                } else {
                    here.0 < a.0 || (here.0 == a.0 && here.1 < a.1)
                },
            };
            if better {
                (Some(here), primary)
            } else {
                (anchor, anchor_primary)
            }
        }
    }
}

/// The first position in the ascending `lines` holding a line at or after `l`.
pub open spec fn line_slot(lines: Seq<u32>, l: u32) -> int
    decreases lines.len(),
{
    if lines.len() == 0 || lines[0] >= l {
        0
    } else {
        1 + line_slot(lines.drop_first(), l)
    }
}

/// `lines` with `l` added in ascending position, if not already there.
pub open spec fn insert_line(lines: Seq<u32>, l: u32) -> Seq<u32> {
    let k = line_slot(lines, l);
    if k < lines.len() && lines[k] == l {
        lines
    } else {
        lines.insert(k, l)
    }
}

/// The lines the underlines sit on, ascending, each once.
pub open spec fn marked_lines(marks: Seq<MarkView>) -> Seq<u32>
    decreases marks.len(),
{
    if marks.len() == 0 {
        Seq::empty()
    } else {
        insert_line(marked_lines(marks.drop_last()), marks.last().line)
    }
}

/// Whether `p` comes before `q` in byte order, both agreeing before `i`: the
/// first byte at or after `i` where they differ decides, and a proper prefix
/// comes first.
pub open spec fn bytes_before_from(p: Seq<u8>, q: Seq<u8>, i: int) -> bool
    decreases p.len() - i,
{
    if i >= p.len() {
        i < q.len()
    } else if i >= q.len() {
        false
    } else if p[i] != q[i] {
        p[i] < q[i]
    } else {
        bytes_before_from(p, q, i + 1)
    }
}

/// Whether `p` comes before `q` in byte order.
pub open spec fn bytes_before(p: Seq<u8>, q: Seq<u8>) -> bool {
    bytes_before_from(p, q, 0)
}

/// Whether message `x` comes before `y`: no message first, then messages in
/// the byte order of their UTF-8 text.
pub open spec fn message_before(x: Option<Seq<char>>, y: Option<Seq<char>>) -> bool {
    match (x, y) {
        (None, Some(_)) => true,
        (Some(p), Some(q)) => bytes_before(encode_utf8(p), encode_utf8(q)),
        _ => false,
    }
}

/// Whether underline `a` is drawn above `b` on their line: further left
/// first, the primary label's ahead of a secondary one at the same column,
/// then the narrower one, then by message, so that any two different
/// underlines on a line have one order whatever order they were made in.
#[verifier::opaque]
pub open spec fn stacks_before(a: MarkView, b: MarkView) -> bool {
    ||| a.lead < b.lead
    ||| a.lead == b.lead && a.primary && !b.primary
    ||| a.lead == b.lead && a.primary == b.primary && a.width < b.width
    ||| a.lead == b.lead && a.primary == b.primary && a.width == b.width && message_before(
        a.message,
        b.message,
    )
}

/// The position at which `m` joins the stacked `row`: before the first
/// underline it stacks before, after every other one.
pub open spec fn row_slot(row: Seq<MarkView>, m: MarkView) -> int
    decreases row.len(),
{
    if row.len() == 0 || stacks_before(m, row[0]) {
        0
    } else {
        1 + row_slot(row.drop_first(), m)
    }
}

/// The underlines on `line`, stacked in the order of [`stacks_before`]; equal
/// underlines keep the order they were made in.
pub open spec fn line_row(marks: Seq<MarkView>, line: u32) -> Seq<MarkView>
    decreases marks.len(),
{
    if marks.len() == 0 {
        Seq::empty()
    } else {
        let row = line_row(marks.drop_last(), line);
        let m = marks.last();
        if m.line == line {
            row.insert(row_slot(row, m), m)
        } else {
            row
        }
    }
}

/// The text of `line`, or nothing where the line does not exist.
#[verifier::opaque]
pub open spec fn line_chars(bytes: Seq<u8>, line: u32) -> Seq<char> {
    match line_range(bytes, line) {
        Some((lo, hi)) => if lo <= hi && is_char_boundary(bytes, lo) && is_char_boundary(
            bytes,
            hi,
        ) {
            decode_utf8(bytes.subrange(lo, hi))
        } else {
            Seq::empty()
        },
        None => Seq::empty(),
    }
}

/// `n` right-aligned in a field `width` characters wide.
pub open spec fn right_aligned(n: nat, width: nat) -> Seq<char> {
    let digits = decimal(n);
    let pad = if width > digits.len() {
        (width - digits.len()) as nat
    } else {
        0
    };
    repeat_char(' ', pad) + digits
}

/// The gutter that begins every line of a frame but the numbered ones.
pub open spec fn gutter(gw: nat) -> Seq<char> {
    repeat_char(' ', gw) + seq![' ', '|']
}

/// The line drawing one underline under a source line.
pub open spec fn mark_text(m: MarkView, gw: nat) -> Seq<char> {
    gutter(gw) + seq![' '] + repeat_char(' ', m.lead) + repeat_char(
        if m.primary {
            '^'
        } else {
            '-'
        },
        m.width,
    ) + match m.message {
        Some(msg) => seq![' '] + msg + seq!['\n'],
        None => seq!['\n'],
    }
}

/// The lines drawing the stacked underlines of `row`.
pub open spec fn row_text(row: Seq<MarkView>, gw: nat) -> Seq<char>
    decreases row.len(),
{
    if row.len() == 0 {
        Seq::empty()
    } else {
        row_text(row.drop_last(), gw) + mark_text(row.last(), gw)
    }
}

/// A numbered source line, tabs expanded.
pub open spec fn numbered_line(bytes: Seq<u8>, line: u32, gw: nat) -> Seq<char> {
    right_aligned(line as nat, gw) + seq![' ', '|', ' '] + expanded(line_chars(bytes, line)) + seq![
        '\n',
    ]
}

/// One numbered source line with its underlines stacked beneath.
pub open spec fn line_block(bytes: Seq<u8>, marks: Seq<MarkView>, line: u32, gw: nat) -> Seq<char> {
    numbered_line(bytes, line, gw) + row_text(line_row(marks, line), gw)
}

/// The numbered lines of a frame, in the order of `lines`.
pub open spec fn lines_block(bytes: Seq<u8>, marks: Seq<MarkView>, lines: Seq<u32>, gw: nat) -> Seq<
    char,
>
    decreases lines.len(),
{
    if lines.len() == 0 {
        Seq::empty()
    } else {
        lines_block(bytes, marks, lines.drop_last(), gw) + line_block(
            bytes,
            marks,
            lines.last(),
            gw,
        )
    }
}

/// The head of a frame: the `--> name:line:col` location line and an empty
/// gutter line.
pub open spec fn location_line(name: Seq<char>, line: u32, col: u32, gw: nat) -> Seq<char> {
    repeat_char(' ', gw) + seq!['-', '-', '>', ' '] + name + seq![':'] + decimal(line as nat) + seq![
        ':',
    ] + decimal(col as nat) + seq!['\n'] + gutter(gw) + seq!['\n']
}

/// The frame of one source: a `--> name:line:col` location line, then every
/// line a label in it touches, each once and ascending, with the underlines
/// stacked beneath. The gutter is as wide as the largest line number shown.
pub open spec fn frame_text(
    name: Seq<char>,
    text: Seq<char>,
    base: int,
    id: int,
    placed: Seq<Placed>,
) -> Seq<char> {
    let bytes = encode_utf8(text);
    let marks = frame_marks(bytes, base, id, placed);
    match frame_anchor(bytes, base, id, placed).0 {
        None => Seq::empty(),
        Some((line, col)) => {
            let lines = marked_lines(marks);
            let max_line = if lines.len() > 0 {
                lines.last()
            } else {
                line
            };
            let gw = decimal(max_line as nat).len();
            location_line(name, line, col, gw) + lines_block(bytes, marks, lines, gw) + gutter(gw)
                + seq!['\n']
        },
    }
}

/// The frames of the sources `ids`, in that order.
pub open spec fn frames_text(
    srcs: Seq<(Seq<char>, Seq<char>)>,
    placed: Seq<Placed>,
    ids: Seq<int>,
) -> Seq<char>
    decreases ids.len(),
{
    if ids.len() == 0 {
        Seq::empty()
    } else {
        let id = ids.last();
        frames_text(srcs, placed, ids.drop_last()) + frame_text(
            srcs[id].0,
            srcs[id].1,
            source_base(srcs, id),
            id,
            placed,
        )
    }
}

/// The note reporting a label that points outside the loaded sources.
pub open spec fn stray_note(label: LabelParts) -> Seq<char> {
    " = note: span "@ + decimal(label.0.lo() as nat) + seq!['.', '.'] + decimal(
        label.0.hi() as nat,
    ) + " is outside the loaded sources"@ + seq!['\n']
}

/// The notes for every label outside the loaded sources, in order.
pub open spec fn stray_notes(labels: Seq<LabelParts>) -> Seq<char>
    decreases labels.len(),
{
    if labels.len() == 0 {
        Seq::empty()
    } else {
        stray_notes(labels.drop_last()) + stray_note(labels.last())
    }
}

/// `prefix` and each of `lines` on a line of its own, in order.
pub open spec fn trailing_lines(prefix: Seq<char>, lines: Seq<Seq<char>>) -> Seq<char>
    decreases lines.len(),
{
    if lines.len() == 0 {
        Seq::empty()
    } else {
        trailing_lines(prefix, lines.drop_last()) + prefix + lines.last() + seq!['\n']
    }
}

/// The source index of the primary label, if it lies in a loaded source.
pub open spec fn primary_source(srcs: Seq<(Seq<char>, Seq<char>)>, d: DiagnosticView) -> Option<
    int,
> {
    match locate_in(srcs, d.primary.0.lo() as int) {
        Some((index, _)) => Some(index),
        None => None,
    }
}

/// The complete rendering of `d` against the sources `srcs`: the
/// `severity: message` header, one frame per source a label lies in, a note
/// for each label outside every source, then the note and help lines.
#[verifier::opaque]
pub open spec fn rendered(d: DiagnosticView, srcs: Seq<(Seq<char>, Seq<char>)>) -> Seq<char> {
    let labels = labels_of(d);
    let placed = placed_labels(srcs, labels);
    let ids = frame_order(placed, primary_source(srcs, d), srcs.len() as int);
    severity_word(d.severity) + seq![':', ' '] + d.message + seq!['\n'] + frames_text(
        srcs,
        placed,
        ids,
    ) + stray_notes(stray_labels(srcs, labels)) + trailing_lines(" = note: "@, d.notes)
        + trailing_lines(" = help: "@, d.help)
}

// ---------------------------------------------------------------------------
// Styled for a terminal.
// ---------------------------------------------------------------------------
/// The escape sequence that sets terminal style `code`: `ESC [ code m`.
pub open spec fn sgr(code: Seq<char>) -> Seq<char> {
    seq!['\u{1b}', '['] + code + seq!['m']
}

/// `t` in style `code`, reset after it, where `color`; else `t` as it is.
pub open spec fn paint(color: bool, code: Seq<char>, t: Seq<char>) -> Seq<char> {
    if color {
        sgr(code) + t + sgr(seq!['0'])
    } else {
        t
    }
}

/// Bold blue: the gutter, the arrow, line numbers, secondary underlines and
/// the `=` of notes.
pub open spec fn accent() -> Seq<char> {
    seq!['1', ';', '3', '4']
}

/// Bold, in the colour of level `s`: red, yellow, green or cyan.
pub open spec fn severity_code(s: Severity) -> Seq<char> {
    match s {
        Severity::Error => seq!['1', ';', '3', '1'],
        Severity::Warning => seq!['1', ';', '3', '3'],
        Severity::Note => seq!['1', ';', '3', '2'],
        Severity::Help => seq!['1', ';', '3', '6'],
    }
}

/// A gutter line's leading part, its bar styled where `color`.
pub open spec fn gutter_in(gw: nat, color: bool) -> Seq<char> {
    repeat_char(' ', gw) + seq![' '] + paint(color, accent(), seq!['|'])
}

/// The line drawing underline `m`; where `color`, the underline and its
/// message are styled in the level's colour for the primary label and in the
/// accent for a secondary one.
pub open spec fn mark_in(m: MarkView, gw: nat, color: bool, level: Severity) -> Seq<char> {
    gutter_in(gw, color) + seq![' '] + repeat_char(' ', m.lead) + paint(
        color,
        if m.primary {
            severity_code(level)
        } else {
            accent()
        },
        repeat_char(
            if m.primary {
                '^'
            } else {
                '-'
            },
            m.width,
        ) + match m.message {
            Some(msg) => seq![' '] + msg,
            None => Seq::empty(),
        },
    ) + seq!['\n']
}

/// The lines drawing the stacked underlines of `row`.
pub open spec fn row_in(row: Seq<MarkView>, gw: nat, color: bool, level: Severity) -> Seq<char>
    decreases row.len(),
{
    if row.len() == 0 {
        Seq::empty()
    } else {
        row_in(row.drop_last(), gw, color, level) + mark_in(row.last(), gw, color, level)
    }
}

/// A numbered source line, tabs expanded, its number and bar styled where
/// `color`.
pub open spec fn numbered_in(bytes: Seq<u8>, line: u32, gw: nat, color: bool) -> Seq<char> {
    paint(color, accent(), right_aligned(line as nat, gw)) + seq![' '] + paint(
        color,
        accent(),
        seq!['|'],
    ) + seq![' '] + expanded(line_chars(bytes, line)) + seq!['\n']
}

/// One numbered source line with its underlines stacked beneath.
pub open spec fn line_block_in(
    bytes: Seq<u8>,
    marks: Seq<MarkView>,
    line: u32,
    gw: nat,
    color: bool,
    level: Severity,
) -> Seq<char> {
    numbered_in(bytes, line, gw, color) + row_in(line_row(marks, line), gw, color, level)
}

/// The numbered lines of a frame, in the order of `lines`.
pub open spec fn lines_block_in(
    bytes: Seq<u8>,
    marks: Seq<MarkView>,
    lines: Seq<u32>,
    gw: nat,
    color: bool,
    level: Severity,
) -> Seq<char>
    decreases lines.len(),
{
    if lines.len() == 0 {
        Seq::empty()
    } else {
        lines_block_in(bytes, marks, lines.drop_last(), gw, color, level) + line_block_in(
            bytes,
            marks,
            lines.last(),
            gw,
            color,
            level,
        )
    }
}

/// The head of a frame, its arrow and bar styled where `color`.
pub open spec fn location_in(name: Seq<char>, line: u32, col: u32, gw: nat, color: bool) -> Seq<
    char,
> {
    repeat_char(' ', gw) + paint(color, accent(), seq!['-', '-', '>']) + seq![' '] + name + seq![
        ':',
    ] + decimal(line as nat) + seq![':'] + decimal(col as nat) + seq!['\n'] + gutter_in(gw, color)
        + seq!['\n']
}

/// The frame of one source, styled where `color`.
#[verifier::opaque]
pub open spec fn frame_in(
    name: Seq<char>,
    text: Seq<char>,
    base: int,
    id: int,
    placed: Seq<Placed>,
    color: bool,
    level: Severity,
) -> Seq<char> {
    let bytes = encode_utf8(text);
    let marks = frame_marks(bytes, base, id, placed);
    match frame_anchor(bytes, base, id, placed).0 {
        None => Seq::empty(),
        Some((line, col)) => {
            let lines = marked_lines(marks);
            let max_line = if lines.len() > 0 {
                lines.last()
            } else {
                line
            };
            let gw = decimal(max_line as nat).len();
            location_in(name, line, col, gw, color) + lines_block_in(
                bytes,
                marks,
                lines,
                gw,
                color,
                level,
            ) + gutter_in(gw, color) + seq!['\n']
        },
    }
}

/// The frames of the sources `ids`, in that order.
pub open spec fn frames_in(
    srcs: Seq<(Seq<char>, Seq<char>)>,
    placed: Seq<Placed>,
    ids: Seq<int>,
    color: bool,
    level: Severity,
) -> Seq<char>
    decreases ids.len(),
{
    if ids.len() == 0 {
        Seq::empty()
    } else {
        let id = ids.last();
        frames_in(srcs, placed, ids.drop_last(), color, level) + frame_in(
            srcs[id].0,
            srcs[id].1,
            source_base(srcs, id),
            id,
            placed,
            color,
            level,
        )
    }
}

/// The note reporting a label outside the loaded sources, its `=` styled
/// where `color`.
pub open spec fn stray_note_in(label: LabelParts, color: bool) -> Seq<char> {
    seq![' '] + paint(color, accent(), seq!['=']) + " note: span "@ + decimal(label.0.lo() as nat)
        + seq!['.', '.'] + decimal(label.0.hi() as nat) + " is outside the loaded sources"@
        + seq!['\n']
}

/// The notes for every label outside the loaded sources, in order.
pub open spec fn stray_notes_in(labels: Seq<LabelParts>, color: bool) -> Seq<char>
    decreases labels.len(),
{
    if labels.len() == 0 {
        Seq::empty()
    } else {
        stray_notes_in(labels.drop_last(), color) + stray_note_in(labels.last(), color)
    }
}

/// Each of `lines` after ` = ` and `kind`, on a line of its own, the `=`
/// styled where `color`.
pub open spec fn trailing_in(kind: Seq<char>, lines: Seq<Seq<char>>, color: bool) -> Seq<char>
    decreases lines.len(),
{
    if lines.len() == 0 {
        Seq::empty()
    } else {
        trailing_in(kind, lines.drop_last(), color) + seq![' '] + paint(color, accent(), seq!['='])
            + kind + lines.last() + seq!['\n']
    }
}

/// The rendering of `d` against `srcs`, styled for a terminal where `color`:
/// the same text as [`rendered`], with the level word, the gutter, the
/// arrows, the line numbers, the underlines with their messages and the `=`
/// of notes wrapped in escape sequences.
#[verifier::opaque]
pub open spec fn styled(d: DiagnosticView, srcs: Seq<(Seq<char>, Seq<char>)>, color: bool) -> Seq<
    char,
> {
    let labels = labels_of(d);
    let placed = placed_labels(srcs, labels);
    let ids = frame_order(placed, primary_source(srcs, d), srcs.len() as int);
    paint(color, severity_code(d.severity), severity_word(d.severity)) + seq![':', ' '] + d.message
        + seq!['\n'] + frames_in(srcs, placed, ids, color, d.severity) + stray_notes_in(
        stray_labels(srcs, labels),
        color,
    ) + trailing_in(" note: "@, d.notes, color) + trailing_in(" help: "@, d.help, color)
}

// ---------------------------------------------------------------------------
// Building it.
// ---------------------------------------------------------------------------
/// One label's underline on one line, as the renderer builds it.
#[derive(Clone, Copy)]
struct Mark<'a> {
    line: u32,
    lead: u64,
    width: u64,
    primary: bool,
    message: Option<&'a str>,
}

impl<'a> View for Mark<'a> {
    type V = MarkView;

    closed spec fn view(&self) -> MarkView {
        MarkView {
            line: self.line,
            lead: self.lead as nat,
            width: self.width as nat,
            primary: self.primary,
            message: match self.message {
                Some(m) => Some(m@),
                None => None,
            },
        }
    }
}

/// The underlines `marks` stand for.
spec fn marks_view<'a>(marks: Seq<Mark<'a>>) -> Seq<MarkView> {
    marks.map_values(|m: Mark<'a>| m@)
}

/// A string is never longer in characters than its encoding is in bytes.
proof fn lemma_chars_within_bytes(s: Seq<char>)
    ensures
        s.len() <= encode_utf8(s).len(),
    decreases s.len(),
{
    if s.len() > 0 {
        lemma_chars_within_bytes(s.drop_first());
    }
}

/// The columns of a string of at most `u32::MAX` bytes fit in a `u64`.
proof fn lemma_columns_fit(s: &str)
    requires
        s.spec_bytes().len() <= u32::MAX,
    ensures
        visual_columns(s@) <= 4 * (u32::MAX as int),
{
    lemma_chars_within_bytes(s@);
    crate::text::lemma_columns_bound(s@);
}

/// Where `l` goes in `lines`: after the lines before it that are smaller, at
/// the first that is not; the one position with that property.
pub(crate) proof fn lemma_line_slot(lines: Seq<u32>, l: u32, k: int)
    ensures
        0 <= line_slot(lines, l) <= lines.len(),
        forall|j: int| 0 <= j < line_slot(lines, l) ==> #[trigger] lines[j] < l,
        line_slot(lines, l) < lines.len() ==> lines[line_slot(lines, l)] >= l,
        0 <= k <= lines.len() && (forall|j: int| 0 <= j < k ==> #[trigger] lines[j] < l) && (k
            == lines.len() || lines[k] >= l) ==> k == line_slot(lines, l),
    decreases lines.len(),
{
    if lines.len() > 0 && lines[0] < l {
        lemma_line_slot(lines.drop_first(), l, 0);
        assert forall|j: int| 0 <= j < line_slot(lines, l) implies #[trigger] lines[j] < l by {
            if j > 0 {
                assert(lines[j] == lines.drop_first()[j - 1]);
            }
        }
    }
    if 0 <= k <= lines.len() && (forall|j: int| 0 <= j < k ==> #[trigger] lines[j] < l) && (k
        == lines.len() || lines[k] >= l) {
        let s = line_slot(lines, l);
        if k < s {
            assert(lines[k] < l);
        } else if s < k {
            assert(lines[s] < l);
        }
    }
}

/// Where `m` joins `row`: after the underlines before it that it does not
/// stack before, at the first that it does; the one position with that
/// property.
pub(crate) proof fn lemma_row_slot(row: Seq<MarkView>, m: MarkView, k: int)
    ensures
        0 <= row_slot(row, m) <= row.len(),
        forall|j: int| 0 <= j < row_slot(row, m) ==> !stacks_before(m, #[trigger] row[j]),
        row_slot(row, m) < row.len() ==> stacks_before(m, row[row_slot(row, m)]),
        0 <= k <= row.len() && (forall|j: int| 0 <= j < k ==> !stacks_before(m, #[trigger] row[j]))
            && (k == row.len() || stacks_before(m, row[k])) ==> k == row_slot(row, m),
    decreases row.len(),
{
    if row.len() > 0 && !stacks_before(m, row[0]) {
        lemma_row_slot(row.drop_first(), m, 0);
        assert forall|j: int| 0 <= j < row_slot(row, m) implies !stacks_before(
            m,
            #[trigger] row[j],
        ) by {
            if j > 0 {
                assert(row[j] == row.drop_first()[j - 1]);
            }
        }
    }
    if 0 <= k <= row.len() && (forall|j: int| 0 <= j < k ==> !stacks_before(m, #[trigger] row[j]))
        && (k == row.len() || stacks_before(m, row[k])) {
        let s = row_slot(row, m);
        if k < s {
            assert(!stacks_before(m, row[k]));
        } else if s < k {
            assert(!stacks_before(m, row[s]));
        }
    }
}

/// Adds line `l` to the ascending `lines`, keeping each line once.
fn add_line(lines: &mut Vec<u32>, l: u32)
    ensures
        final(lines)@ == insert_line(old(lines)@, l),
{
    let mut k: usize = 0;
    while k < lines.len() && lines[k] < l
        invariant
            k <= lines.len(),
            forall|j: int| 0 <= j < k ==> lines@[j] < l,
        decreases lines.len() - k,
    {
        k = k + 1;
    }
    proof {
        lemma_line_slot(lines@, l, k as int);
    }
    if k < lines.len() && lines[k] == l {
    } else {
        lines.insert(k, l);
    }
}

/// Whether `p` comes before `q` in byte order.
fn bytes_in_order(p: &[u8], q: &[u8]) -> (res: bool)
    ensures
        res == bytes_before(p@, q@),
{
    let mut i: usize = 0;
    while i < p.len() && i < q.len() && p[i] == q[i]
        invariant
            i <= p.len(),
            i <= q.len(),
            bytes_before_from(p@, q@, i as int) == bytes_before(p@, q@),
        decreases p.len() - i,
    {
        i = i + 1;
    }
    if i >= p.len() {
        i < q.len()
    } else if i >= q.len() {
        false
    } else {
        p[i] < q[i]
    }
}

/// Whether underline `a` stacks before `b`.
fn mark_before(a: &Mark, b: &Mark) -> (res: bool)
    ensures
        res == stacks_before(a@, b@),
{
    reveal(stacks_before);
    if a.lead != b.lead {
        a.lead < b.lead
    } else if a.primary != b.primary {
        a.primary
    } else if a.width != b.width {
        a.width < b.width
    } else {
        match (a.message, b.message) {
            (None, Some(_)) => true,
            (Some(p), Some(q)) => bytes_in_order(p.as_bytes(), q.as_bytes()),
            _ => false,
        }
    }
}

/// The underlines of `marks` on `line`, stacked.
fn stacked_row<'a>(marks: &Vec<Mark<'a>>, line: u32) -> (row: Vec<Mark<'a>>)
    ensures
        marks_view(row@) == line_row(marks_view(marks@), line),
{
    let mut row: Vec<Mark<'a>> = Vec::new();
    let mut j: usize = 0;
    while j < marks.len()
        invariant
            j <= marks.len(),
            marks_view(row@) == line_row(marks_view(marks@.take(j as int)), line),
        decreases marks.len() - j,
    {
        let m = marks[j];
        proof {
            assert(marks@.take(j + 1).drop_last() =~= marks@.take(j as int));
            assert(marks_view(marks@.take(j + 1)).drop_last() =~= marks_view(
                marks@.take(j as int),
            ));
        }
        if m.line == line {
            let mut k: usize = 0;
            while k < row.len() && !mark_before(&m, &row[k])
                invariant
                    k <= row.len(),
                    forall|i: int|
                        0 <= i < k ==> !stacks_before(m@, #[trigger] marks_view(row@)[i]),
                decreases row.len() - k,
            {
                k = k + 1;
            }
            proof {
                lemma_row_slot(marks_view(row@), m@, k as int);
            }
            let ghost before = row@;
            row.insert(k, m);
            assert(marks_view(row@) =~= marks_view(before).insert(k as int, m@));
        }
        j = j + 1;
    }
    assert(marks@.take(marks@.len() as int) =~= marks@);
    row
}

/// The underline a label covering `start..end` of `text` draws on `line`.
fn mark_at<'a>(
    text: &str,
    start: u32,
    end: u32,
    line: u32,
    final_line: u32,
    primary: bool,
    message: &'a str,
) -> (res: Option<Mark<'a>>)
    requires
        text.spec_bytes().len() <= u32::MAX,
    ensures
        match res {
            Some(m) => mark_on(
                text.spec_bytes(),
                start as int,
                end as int,
                line,
                final_line,
                primary,
                message@,
            ) == Some(m@),
            None => mark_on(
                text.spec_bytes(),
                start as int,
                end as int,
                line,
                final_line,
                primary,
                message@,
            ) is None,
        },
{
    proof {
        reveal(mark_on);
    }
    match line_span(text, line) {
        None => None,
        Some((lo, hi)) => {
            match str_get(text, lo as usize, hi as usize) {
                None => None,
                Some(line_text) => {
                    let seg_start = if start > lo {
                        start
                    } else {
                        lo
                    };
                    let seg_end0 = if end < hi {
                        end
                    } else {
                        hi
                    };
                    let seg_end = if seg_end0 > seg_start {
                        seg_end0
                    } else {
                        seg_start
                    };
                    let a = floor_boundary(line_text, (seg_start - lo) as usize);
                    let b0 = floor_boundary(line_text, (seg_end - lo) as usize);
                    let b = if b0 > a {
                        b0
                    } else {
                        a
                    };
                    let head = str_get(line_text, 0, a).unwrap();
                    let covered = str_get(line_text, 0, b).unwrap();
                    proof {
                        lemma_columns_fit(head);
                        lemma_columns_fit(covered);
                    }
                    let lead = column_count(head);
                    let full = column_count(covered);
                    let width = if full > lead {
                        full - lead
                    } else {
                        1
                    };
                    let shown = if line == final_line && !message.is_empty() {
                        Some(message)
                    } else {
                        None
                    };
                    Some(Mark { line, lead, width, primary, message: shown })
                },
            }
        },
    }
}

/// Appends the literal `s` to `out`.
fn push_str(out: &mut String, s: &str)
    ensures
        final(out)@ == old(out)@ + s@,
{
    out.append(s);
}

/// Appends the escape sequence that sets style `code`.
fn push_sgr(out: &mut String, code: &str)
    ensures
        final(out)@ == old(out)@ + sgr(code@),
{
    push_char(out, '\u{1b}');
    push_char(out, '[');
    push_str(out, code);
    push_char(out, 'm');
    assert(out@ =~= old(out)@ + sgr(code@));
}

/// Opens style `code`, where `color`.
fn push_style(out: &mut String, color: bool, code: &str)
    ensures
        final(out)@ == old(out)@ + if color {
            sgr(code@)
        } else {
            Seq::empty()
        },
{
    if color {
        push_sgr(out, code);
    } else {
        assert(out@ =~= old(out)@ + Seq::<char>::empty());
    }
}

/// Resets the style, where `color`.
fn push_reset(out: &mut String, color: bool)
    ensures
        final(out)@ == old(out)@ + if color {
            sgr(seq!['0'])
        } else {
            Seq::empty()
        },
{
    proof {
        reveal_strlit("0");
    }
    push_style(out, color, "0");
}

/// The accent style: bold blue.
fn accent_code() -> (code: &'static str)
    ensures
        code@ == accent(),
{
    proof {
        reveal_strlit("1;34");
    }
    "1;34"
}

/// The style of level `level`: bold, in its colour.
fn level_code(level: Severity) -> (code: &'static str)
    ensures
        code@ == severity_code(level),
{
    proof {
        reveal_strlit("1;31");
        reveal_strlit("1;33");
        reveal_strlit("1;32");
        reveal_strlit("1;36");
    }
    match level {
        Severity::Error => "1;31",
        Severity::Warning => "1;33",
        Severity::Note => "1;32",
        Severity::Help => "1;36",
    }
}

/// Appends `c`, styled in the accent where `color`.
fn push_accented(out: &mut String, color: bool, c: char)
    ensures
        final(out)@ == old(out)@ + paint(color, accent(), seq![c]),
{
    push_style(out, color, accent_code());
    push_char(out, c);
    push_reset(out, color);
    assert(out@ =~= old(out)@ + paint(color, accent(), seq![c]));
}

/// Appends a gutter line's leading part: `gw` spaces, a space and the bar.
fn push_gutter(out: &mut String, gw: u64, color: bool)
    ensures
        final(out)@ == old(out)@ + gutter_in(gw as nat, color),
{
    push_repeat(out, ' ', gw);
    push_char(out, ' ');
    push_accented(out, color, '|');
    assert(out@ =~= old(out)@ + gutter_in(gw as nat, color));
}

/// The labels `placed` stands for.
spec fn placed_view<'a>(placed: Seq<(u32, bool, &'a Label)>) -> Seq<Placed> {
    placed.map_values(|e: (u32, bool, &'a Label)| (e.0 as int, e.1, e.2@))
}

/// Appends to `marks` the underlines of a label covering `start..end` of
/// `text`, whose start lies on line `first`.
fn push_marks<'a>(
    marks: &mut Vec<Mark<'a>>,
    text: &str,
    start: u32,
    end: u32,
    first: u32,
    primary: bool,
    message: &'a str,
)
    requires
        text.spec_bytes().len() <= u32::MAX,
        first == line_col_at(text.spec_bytes(), start as int).0,
    ensures
        marks_view(final(marks)@) == marks_view(old(marks)@) + marks_upto(
            text.spec_bytes(),
            start as int,
            end as int,
            first,
            last_line(text.spec_bytes(), start as int, end as int) + 1,
            last_line(text.spec_bytes(), start as int, end as int),
            primary,
            message@,
        ),
{
    let final_line = if end > start {
        line_col(text, end - 1).0
    } else {
        first
    };
    let ghost bytes = text.spec_bytes();
    let ghost limit: int = if final_line + 1 > first {
        final_line + 1
    } else {
        first as int
    };
    let mut line: u64 = first as u64;
    while line <= final_line as u64
        invariant
            first <= line <= limit,
            limit == (if final_line + 1 > first {
                final_line + 1
            } else {
                first as int
            }),
            final_line == last_line(bytes, start as int, end as int),
            bytes == text.spec_bytes(),
            text.spec_bytes().len() <= u32::MAX,
            marks_view(marks@) == marks_view(old(marks)@) + marks_upto(
                bytes,
                start as int,
                end as int,
                first,
                line as int,
                final_line,
                primary,
                message@,
            ),
        decreases final_line + 1 - line,
    {
        let ghost before = marks@;
        match mark_at(text, start, end, line as u32, final_line, primary, message) {
            Some(m) => {
                marks.push(m);
                assert(marks_view(marks@) =~= marks_view(before).push(m@));
            },
            None => {},
        }
        line = line + 1;
    }
}

/// Appends the line drawing underline `m` in a gutter `gw` wide.
fn push_mark(out: &mut String, m: &Mark, gw: u64, color: bool, level: Severity)
    ensures
        final(out)@ == old(out)@ + mark_in(m@, gw as nat, color, level),
{
    push_gutter(out, gw, color);
    push_char(out, ' ');
    push_repeat(out, ' ', m.lead);
    let ghost before = out@;
    let code = if m.primary {
        level_code(level)
    } else {
        accent_code()
    };
    push_style(out, color, code);
    let ghost opened = out@;
    push_repeat(
        out,
        if m.primary {
            '^'
        } else {
            '-'
        },
        m.width,
    );
    match m.message {
        Some(message) => {
            push_char(out, ' ');
            push_str(out, message);
        },
        None => {},
    }
    let ghost body = out@.subrange(opened.len() as int, out@.len() as int);
    assert(body =~= repeat_char(
        if m.primary {
            '^'
        } else {
            '-'
        },
        m.width as nat,
    ) + match m@.message {
        Some(msg) => seq![' '] + msg,
        None => Seq::<char>::empty(),
    });
    assert(out@ =~= opened + body);
    push_reset(out, color);
    push_char(out, '\n');
    assert(out@ =~= old(out)@ + mark_in(m@, gw as nat, color, level));
}

/// Appends the number `line`, right-aligned in a field `gw` wide, in the
/// accent where `color`.
fn push_line_number(out: &mut String, line: u32, gw: u64, color: bool)
    ensures
        final(out)@ == old(out)@ + paint(color, accent(), right_aligned(line as nat, gw as nat)),
{
    let digits = decimal_width(line) as u64;
    let pad = if gw > digits {
        gw - digits
    } else {
        0
    };
    push_style(out, color, accent_code());
    let ghost opened = out@;
    push_repeat(out, ' ', pad);
    push_decimal(out, line as u64);
    assert(out@ =~= opened + right_aligned(line as nat, gw as nat));
    push_reset(out, color);
    assert(out@ =~= old(out)@ + paint(color, accent(), right_aligned(line as nat, gw as nat)));
}

/// Appends numbered line `line` of `text`, tabs expanded.
fn push_numbered_line(out: &mut String, text: &str, line: u32, gw: u64, color: bool)
    requires
        text.spec_bytes().len() <= u32::MAX,
    ensures
        final(out)@ == old(out)@ + numbered_in(text.spec_bytes(), line, gw as nat, color),
{
    push_line_number(out, line, gw, color);
    push_char(out, ' ');
    push_accented(out, color, '|');
    push_char(out, ' ');
    let ghost with_number = out@;
    proof {
        reveal(line_chars);
    }
    match line_span(text, line) {
        Some((lo, hi)) => match str_get(text, lo as usize, hi as usize) {
            Some(line_text) => {
                proof {
                    lemma_columns_fit(line_text);
                }
                expand_tabs(line_text, out);
            },
            None => {},
        },
        None => {},
    }
    assert(out@ =~= with_number + expanded(line_chars(text.spec_bytes(), line)));
    push_char(out, '\n');
    assert(out@ =~= old(out)@ + numbered_in(text.spec_bytes(), line, gw as nat, color));
}

/// Appends the lines drawing the stacked underlines of `row`.
fn push_row(out: &mut String, row: &Vec<Mark>, gw: u64, color: bool, level: Severity)
    ensures
        final(out)@ == old(out)@ + row_in(marks_view(row@), gw as nat, color, level),
{
    let ghost row_v = marks_view(row@);
    let mut i: usize = 0;
    while i < row.len()
        invariant
            i <= row.len(),
            row_v == marks_view(row@),
            out@ == old(out)@ + row_in(row_v.take(i as int), gw as nat, color, level),
        decreases row.len() - i,
    {
        push_mark(out, &row[i], gw, color, level);
        assert(row_v.take(i + 1).drop_last() =~= row_v.take(i as int));
        i = i + 1;
    }
    assert(row_v.take(row.len() as int) =~= row_v);
}

/// Appends numbered line `line` of `text` with the underlines of `marks` on
/// it stacked beneath.
fn push_line(
    out: &mut String,
    text: &str,
    marks: &Vec<Mark>,
    line: u32,
    gw: u64,
    color: bool,
    level: Severity,
)
    requires
        text.spec_bytes().len() <= u32::MAX,
    ensures
        final(out)@ == old(out)@ + line_block_in(
            text.spec_bytes(),
            marks_view(marks@),
            line,
            gw as nat,
            color,
            level,
        ),
{
    push_numbered_line(out, text, line, gw, color);
    let row = stacked_row(marks, line);
    push_row(out, &row, gw, color, level);
    assert(out@ =~= old(out)@ + line_block_in(
        text.spec_bytes(),
        marks_view(marks@),
        line,
        gw as nat,
        color,
        level,
    ));
}

/// The underlines of the labels of `placed` that lie in source `id`, and
/// where the frame's location line points.
fn collect_marks<'a>(text: &str, base: u32, id: u32, placed: &Vec<(u32, bool, &'a Label)>) -> (res:
    (Vec<Mark<'a>>, Option<(u32, u32)>))
    requires
        base + text.spec_bytes().len() <= u32::MAX,
    ensures
        marks_view(res.0@) == frame_marks(
            text.spec_bytes(),
            base as int,
            id as int,
            placed_view(placed@),
        ),
        res.1 == frame_anchor(text.spec_bytes(), base as int, id as int, placed_view(placed@)).0,
{
    let ghost bytes = text.spec_bytes();
    let ghost all = placed_view(placed@);
    let mut marks: Vec<Mark<'a>> = Vec::new();
    let mut anchor: Option<(u32, u32)> = None;
    let mut anchor_primary = false;
    let mut k: usize = 0;
    while k < placed.len()
        invariant
            k <= placed.len(),
            bytes == text.spec_bytes(),
            base + bytes.len() <= u32::MAX,
            all == placed_view(placed@),
            marks_view(marks@) == frame_marks(bytes, base as int, id as int, all.take(k as int)),
            (anchor, anchor_primary) == frame_anchor(
                bytes,
                base as int,
                id as int,
                all.take(k as int),
            ),
        decreases placed.len() - k,
    {
        proof {
            assert(all.take(k + 1).drop_last() =~= all.take(k as int));
        }
        let (index, primary, label) = placed[k];
        if index == id {
            let span = label.span();
            let s = span.start();
            let e = span.end();
            let start = if s >= base {
                s - base
            } else {
                0
            };
            let e0 = if e >= base {
                e - base
            } else {
                0
            };
            let end = if (e0 as usize) < text.len() {
                e0
            } else {
                text.len() as u32
            };
            let here = line_col(text, start);
            let better = match anchor {
                None => true,
                Some(a) => if primary && !anchor_primary {
                    true
                } else if !primary && anchor_primary {
                    false
                } else {
                    here.0 < a.0 || (here.0 == a.0 && here.1 < a.1)
                },
            };
            if better {
                anchor = Some(here);
                anchor_primary = primary;
            }
            push_marks(&mut marks, text, start, end, here.0, primary, label.message());
            assert(marks_view(marks@) =~= frame_marks(
                bytes,
                base as int,
                id as int,
                all.take(k + 1),
            ));
        }
        k = k + 1;
    }
    assert(all.take(placed.len() as int) =~= all);
    (marks, anchor)
}

/// The lines `marks` sit on, ascending, each once.
fn collect_lines(marks: &Vec<Mark>) -> (lines: Vec<u32>)
    ensures
        lines@ == marked_lines(marks_view(marks@)),
{
    let ghost marks_v = marks_view(marks@);
    let mut lines: Vec<u32> = Vec::new();
    let mut j: usize = 0;
    while j < marks.len()
        invariant
            j <= marks.len(),
            marks_v == marks_view(marks@),
            lines@ == marked_lines(marks_v.take(j as int)),
        decreases marks.len() - j,
    {
        add_line(&mut lines, marks[j].line);
        assert(marks_v.take(j + 1).drop_last() =~= marks_v.take(j as int));
        j = j + 1;
    }
    assert(marks_v.take(marks.len() as int) =~= marks_v);
    lines
}

/// Appends a frame's location line and the empty gutter line after it.
fn push_location(out: &mut String, name: &str, line: u32, col: u32, gw: u64, color: bool)
    ensures
        final(out)@ == old(out)@ + location_in(name@, line, col, gw as nat, color),
{
    push_repeat(out, ' ', gw);
    let ghost before = out@;
    push_style(out, color, accent_code());
    push_char(out, '-');
    push_char(out, '-');
    push_char(out, '>');
    push_reset(out, color);
    assert(out@ =~= before + paint(color, accent(), seq!['-', '-', '>']));
    push_char(out, ' ');
    push_str(out, name);
    push_char(out, ':');
    push_decimal(out, line as u64);
    push_char(out, ':');
    push_decimal(out, col as u64);
    push_char(out, '\n');
    push_gutter(out, gw, color);
    push_char(out, '\n');
    assert(out@ =~= old(out)@ + location_in(name@, line, col, gw as nat, color));
}

/// Appends the frame of the source `id`, named `name`, holding `text` from
/// global position `base`, for the labels of `placed` that lie in it.
fn push_frame<'a>(
    out: &mut String,
    name: &str,
    text: &str,
    base: u32,
    id: u32,
    placed: &Vec<(u32, bool, &'a Label)>,
    color: bool,
    level: Severity,
)
    requires
        base + text.spec_bytes().len() <= u32::MAX,
    ensures
        final(out)@ == old(out)@ + frame_in(
            name@,
            text@,
            base as int,
            id as int,
            placed_view(placed@),
            color,
            level,
        ),
{
    reveal(frame_in);
    let ghost bytes = text.spec_bytes();
    let (marks, anchor) = collect_marks(text, base, id, placed);
    let ghost marks_v = marks_view(marks@);
    let lines = collect_lines(&marks);
    match anchor {
        None => {},
        Some((line, col)) => {
            let max_line = if lines.len() > 0 {
                lines[lines.len() - 1]
            } else {
                line
            };
            let gw = decimal_width(max_line) as u64;
            let ghost start = out@;
            push_location(out, name, line, col, gw, color);
            let ghost head = out@;
            let mut i: usize = 0;
            while i < lines.len()
                invariant
                    i <= lines.len(),
                    bytes == text.spec_bytes(),
                    bytes.len() <= u32::MAX,
                    marks_v == marks_view(marks@),
                    out@ == head + lines_block_in(
                        bytes,
                        marks_v,
                        lines@.take(i as int),
                        gw as nat,
                        color,
                        level,
                    ),
                decreases lines.len() - i,
            {
                push_line(out, text, &marks, lines[i], gw, color, level);
                assert(lines@.take(i + 1).drop_last() =~= lines@.take(i as int));
                i = i + 1;
            }
            assert(lines@.take(lines.len() as int) =~= lines@);
            push_gutter(out, gw, color);
            push_char(out, '\n');
            assert(out@ =~= start + frame_in(
                name@,
                text@,
                base as int,
                id as int,
                placed_view(placed@),
                color,
                level,
            ));
        },
    }
}

/// A source index that `locate_in` returns names a loaded source.
pub(crate) proof fn lemma_located_index(srcs: Seq<(Seq<char>, Seq<char>)>, at: int)
    ensures
        locate_in(srcs, at) matches Some((index, _)) ==> 0 <= index < srcs.len(),
    decreases srcs.len(),
{
    if srcs.len() > 0 {
        lemma_located_index(srcs.drop_last(), at);
    }
}

/// Whether a label of `placed` lies in source `index`.
fn has_label<'a>(placed: &Vec<(u32, bool, &'a Label)>, index: usize) -> (res: bool)
    ensures
        res == has_label_in(placed_view(placed@), index as int),
{
    let mut k: usize = 0;
    while k < placed.len()
        invariant
            k <= placed.len(),
            forall|j: int| 0 <= j < k ==> #[trigger] placed@[j].0 != index,
        decreases placed.len() - k,
    {
        if placed[k].0 as usize == index {
            assert(placed_view(placed@)[k as int].0 == index);
            return true;
        }
        k = k + 1;
    }
    assert forall|j: int| 0 <= j < placed_view(placed@).len() implies #[trigger] placed_view(
        placed@,
    )[j].0 != index by {
        assert(placed@[j].0 != index);
    }
    false
}

/// The labels `stray` stands for.
spec fn stray_view<'a>(stray: Seq<&'a Label>) -> Seq<LabelParts> {
    stray.map_values(|l: &'a Label| l@)
}

#[verifier::external_type_specification]
#[verifier::external_body]
pub struct ExFmtError(core::fmt::Error);

/// Renders a [`Diagnostic`] against a [`SourceMap`] into aligned,
/// caret-annotated text in the style of a modern toolchain: `^` under the
/// primary label, `-` under secondary ones, aligned in display columns (a
/// multi-byte character is one column, a tab advances to the next multiple of
/// four). The output is deterministic and always ends with a newline. After
/// [`with_color`](Renderer::with_color) the same text comes wrapped in
/// terminal styling; stripping the styling gives the plain text back.
#[non_exhaustive]
#[derive(Clone, Debug)]
pub struct Renderer {
    color: bool,
}

impl Renderer {
    /// Whether this renderer styles its output for a terminal.
    pub closed spec fn colored(&self) -> bool {
        self.color
    }
}

impl Default for Renderer {
    fn default() -> (renderer: Renderer)
        ensures
            !renderer.colored(),
    {
        Renderer { color: false }
    }
}

impl Renderer {
    /// A renderer with the default layout, producing plain output.
    pub fn new() -> (renderer: Renderer)
        ensures
            !renderer.colored(),
    {
        Renderer { color: false }
    }

    /// This renderer, styling its output for a terminal: the level word and
    /// the primary underline in the level's colour, the gutter, arrows, line
    /// numbers, secondary underlines and the `=` of notes in bold blue.
    pub fn with_color(self) -> (renderer: Renderer)
        ensures
            renderer.colored(),
    {
        Renderer { color: true }
    }

    /// Renders `diag` against `map` into a fresh string.
    pub fn render(&self, diag: &Diagnostic, map: &SourceMap) -> (out: String)
        ensures
            out@ == styled(diag@, loaded_sources(*map), self.colored()),
            !self.colored() ==> out@ == rendered(diag@, loaded_sources(*map)),
    {
        let mut out = String::new();
        let _ = self.render_to(&mut out, diag, map);
        assert(out@ =~= styled(diag@, loaded_sources(*map), self.colored()));
        out
    }

    /// Renders `diag` against `map`, appending to `out`: a buffer reused
    /// across diagnostics avoids an allocation each. Writing into a string
    /// never fails.
    pub fn render_to(&self, out: &mut String, diag: &Diagnostic, map: &SourceMap) -> (res:
        core::fmt::Result)
        ensures
            final(out)@ == old(out)@ + styled(diag@, loaded_sources(*map), self.colored()),
            !self.colored() ==> final(out)@ == old(out)@ + rendered(diag@, loaded_sources(*map)),
            res is Ok,
    {
        let ghost d = diag@;
        let ghost srcs_v = loaded_sources(*map);
        let ghost labels = labels_of(d);
        let color = self.color;
        push_header(out, diag, color);
        let stray = push_all_frames(out, map, diag, color);
        push_closing(out, diag, &stray, color);
        proof {
            lemma_styled_parts(d, srcs_v, color);
            law_unstyled_is_plain(d, srcs_v);
        }
        assert(out@ =~= old(out)@ + styled(d, srcs_v, color));
        Ok(())
    }
}

/// The `level: message` line that opens a rendering, the level word styled
/// where `color`.
pub open spec fn header_in(d: DiagnosticView, color: bool) -> Seq<char> {
    paint(color, severity_code(d.severity), severity_word(d.severity)) + seq![':', ' '] + d.message
        + seq!['\n']
}

/// What closes a rendering: a note for each label outside the sources, then
/// the note and help lines.
pub open spec fn closing_in(d: DiagnosticView, srcs: Seq<(Seq<char>, Seq<char>)>, color: bool) -> Seq<
    char,
> {
    stray_notes_in(stray_labels(srcs, labels_of(d)), color) + trailing_in(" note: "@, d.notes, color)
        + trailing_in(" help: "@, d.help, color)
}

/// A styled rendering is its header, its frames and its closing lines.
pub(crate) proof fn lemma_styled_parts(d: DiagnosticView, srcs: Seq<(Seq<char>, Seq<char>)>, color: bool)
    ensures
        styled(d, srcs, color) == header_in(d, color) + frames_in(
            srcs,
            placed_labels(srcs, labels_of(d)),
            frame_order(
                placed_labels(srcs, labels_of(d)),
                primary_source(srcs, d),
                srcs.len() as int,
            ),
            color,
            d.severity,
        ) + closing_in(d, srcs, color),
{
    let f = frames_in(
        srcs,
        placed_labels(srcs, labels_of(d)),
        frame_order(placed_labels(srcs, labels_of(d)), primary_source(srcs, d), srcs.len() as int),
        color,
        d.severity,
    );
    reveal(styled);
    assert(styled(d, srcs, color) =~= header_in(d, color) + f + closing_in(d, srcs, color));
}

/// Appends the frames of `diag` against `map`, and returns the labels that
/// lie outside every source, in order.
fn push_all_frames<'a>(out: &mut String, map: &SourceMap, diag: &'a Diagnostic, color: bool) -> (stray:
    Vec<&'a Label>)
    ensures
        final(out)@ == old(out)@ + frames_in(
            loaded_sources(*map),
            placed_labels(loaded_sources(*map), labels_of(diag@)),
            frame_order(
                placed_labels(loaded_sources(*map), labels_of(diag@)),
                primary_source(loaded_sources(*map), diag@),
                loaded_sources(*map).len() as int,
            ),
            color,
            diag@.severity,
        ),
        stray_view(stray@) == stray_labels(loaded_sources(*map), labels_of(diag@)),
{
    let srcs = sources_of(map);
    let (placed, stray, first) = sort_labels(map, diag);
    proof {
        lemma_located_index(loaded_sources(*map), diag@.primary.0.lo() as int);
    }
    push_frames(out, map, &srcs, &placed, first, color, diag.severity());
    stray
}

/// Appends the `level: message` line.
fn push_header(out: &mut String, diag: &Diagnostic, color: bool)
    ensures
        final(out)@ == old(out)@ + header_in(diag@, color),
{
    let level = diag.severity();
    push_style(out, color, level_code(level));
    push_str(out, level.as_str());
    push_reset(out, color);
    assert(out@ =~= old(out)@ + paint(color, severity_code(level), severity_word(level)));
    push_char(out, ':');
    push_char(out, ' ');
    push_str(out, diag.message());
    push_char(out, '\n');
    assert(out@ =~= old(out)@ + header_in(diag@, color));
}

/// Appends the notes for the labels of `stray`, then the note and help lines
/// of `diag`.
fn push_closing<'a>(out: &mut String, diag: &Diagnostic, stray: &Vec<&'a Label>, color: bool)
    ensures
        final(out)@ == old(out)@ + stray_notes_in(stray_view(stray@), color) + trailing_in(
            " note: "@,
            diag@.notes,
            color,
        ) + trailing_in(" help: "@, diag@.help, color),
{
    let ghost d = diag@;
    push_strays(out, stray, color);
    let ghost after_strays = out@;
    let notes = diag.notes();
    assert(notes@.map_values(|s: String| s@) =~= d.notes);
    proof {
        reveal_strlit(" note: ");
        reveal_strlit(" help: ");
    }
    push_trailing(out, " note: ", notes, color);
    let help = diag.help();
    assert(help@.map_values(|s: String| s@) =~= d.help);
    push_trailing(out, " help: ", help, color);
    assert(out@ =~= old(out)@ + stray_notes_in(stray_view(stray@), color) + trailing_in(
        " note: "@,
        d.notes,
        color,
    ) + trailing_in(" help: "@, d.help, color));
}

/// Splits the labels of `diag` into those a source of `map` holds, with that
/// source's index, and those none does; also returns the primary label's
/// source, if any.
fn sort_labels<'a>(map: &SourceMap, diag: &'a Diagnostic) -> (res: (
    Vec<(u32, bool, &'a Label)>,
    Vec<&'a Label>,
    Option<u32>,
))
    ensures
        placed_view(res.0@) == placed_labels(loaded_sources(*map), labels_of(diag@)),
        stray_view(res.1@) == stray_labels(loaded_sources(*map), labels_of(diag@)),
        (match res.2 {
            Some(p) => Some(p as int),
            None => None::<int>,
        }) == primary_source(loaded_sources(*map), diag@),
{
    let ghost d = diag@;
    let ghost srcs_v = loaded_sources(*map);
    let ghost labels = labels_of(d);
    let mut placed: Vec<(u32, bool, &Label)> = Vec::new();
    let mut stray: Vec<&Label> = Vec::new();
    let primary = diag.primary();
    let first = match locate(map, primary.span().start()) {
        Some((index, _)) => {
            placed.push((index, true, primary));
            Some(index)
        },
        None => {
            stray.push(primary);
            None
        },
    };
    proof {
        assert(labels.take(1) =~= seq![(true, d.primary)]);
        assert(labels.take(1).drop_last() =~= Seq::<(bool, LabelParts)>::empty());
        assert(placed_labels(srcs_v, Seq::<(bool, LabelParts)>::empty()) == Seq::<Placed>::empty());
        assert(stray_labels(srcs_v, Seq::<(bool, LabelParts)>::empty()) == Seq::<LabelParts>::empty());
        assert(labels.take(1).last() == (true, d.primary));
        assert(d.primary == primary@);
        assert(placed_view(placed@) =~= placed_labels(srcs_v, labels.take(1)));
        assert(stray_view(stray@) =~= stray_labels(srcs_v, labels.take(1)));
    }
    let secondary = diag.secondary();
    let mut i: usize = 0;
    while i < secondary.len()
        invariant
            i <= secondary.len(),
            d == diag@,
            srcs_v == loaded_sources(*map),
            labels == labels_of(d),
            secondary@.len() == d.secondary.len(),
            forall|j: int| 0 <= j < secondary@.len() ==> #[trigger] secondary@[j]@ == d.secondary[j],
            placed_view(placed@) == placed_labels(srcs_v, labels.take(i + 1)),
            stray_view(stray@) == stray_labels(srcs_v, labels.take(i + 1)),
        decreases secondary.len() - i,
    {
        let label = &secondary[i];
        proof {
            assert(labels.take(i + 2).drop_last() =~= labels.take(i + 1));
            assert(labels.take(i + 2).last() == (false, d.secondary[i as int]));
        }
        let ghost placed_before = placed@;
        let ghost stray_before = stray@;
        match locate(map, label.span().start()) {
            Some((index, _)) => {
                placed.push((index, false, label));
                assert(placed_view(placed@) =~= placed_view(placed_before).push(
                    (index as int, false, label@),
                ));
            },
            None => {
                stray.push(label);
                assert(stray_view(stray@) =~= stray_view(stray_before).push(label@));
            },
        }
        i = i + 1;
    }
    proof {
        assert(labels.take(secondary.len() + 1) =~= labels);
    }
    (placed, stray, first)
}

/// Appends one frame per source a label of `placed` lies in: the source
/// `first` first, then the others in map order.
fn push_frames<'a>(
    out: &mut String,
    map: &SourceMap,
    srcs: &Vec<(&str, &str, u32)>,
    placed: &Vec<(u32, bool, &'a Label)>,
    first: Option<u32>,
    color: bool,
    level: Severity,
)
    requires
        srcs@.len() == loaded_sources(*map).len(),
        forall|j: int|
            #![trigger srcs@[j]]
            0 <= j < srcs@.len() ==> {
                &&& srcs@[j].0@ == loaded_sources(*map)[j].0
                &&& srcs@[j].1@ == loaded_sources(*map)[j].1
                &&& srcs@[j].2 == source_base(loaded_sources(*map), j)
                &&& srcs@[j].2 + srcs@[j].1.spec_bytes().len() <= u32::MAX
            },
        first matches Some(p) ==> p < srcs@.len(),
    ensures
        final(out)@ == old(out)@ + frames_in(
            loaded_sources(*map),
            placed_view(placed@),
            frame_order(
                placed_view(placed@),
                match first {
                    Some(p) => Some(p as int),
                    None => None::<int>,
                },
                loaded_sources(*map).len() as int,
            ),
            color,
            level,
        ),
{
    let ghost srcs_v = loaded_sources(*map);
    let ghost placed_v = placed_view(placed@);
    let ghost first_v: Option<int> = match first {
        Some(p) => Some(p as int),
        None => None,
    };
    match first {
        Some(p) => {
            let (name, text, base) = srcs[p as usize];
            assert(srcs@[p as int].0@ == srcs_v[p as int].0);
            push_frame(out, name, text, base, p, placed, color, level);
            assert(seq![p as int].drop_last() =~= Seq::<int>::empty());
            assert(frames_in(srcs_v, placed_v, Seq::<int>::empty(), color, level)
                == Seq::<char>::empty());
            assert(out@ =~= old(out)@ + frames_in(srcs_v, placed_v, seq![p as int], color, level));
        },
        None => {
            assert(frames_in(srcs_v, placed_v, Seq::<int>::empty(), color, level)
                == Seq::<char>::empty());
            assert(out@ =~= old(out)@ + frames_in(
                srcs_v,
                placed_v,
                Seq::<int>::empty(),
                color,
                level,
            ));
        },
    }
    let ghost lead_ids: Seq<int> = match first {
        Some(p) => seq![p as int],
        None => Seq::empty(),
    };
    let mut k: usize = 0;
    while k < srcs.len()
        invariant
            k <= srcs.len(),
            srcs@.len() == srcs_v.len(),
            srcs_v == loaded_sources(*map),
            placed_v == placed_view(placed@),
            first_v == (match first {
                Some(p) => Some(p as int),
                None => None::<int>,
            }),
            forall|j: int|
                #![trigger srcs@[j]]
                0 <= j < srcs@.len() ==> {
                    &&& srcs@[j].0@ == srcs_v[j].0
                    &&& srcs@[j].1@ == srcs_v[j].1
                    &&& srcs@[j].2 == source_base(srcs_v, j)
                    &&& srcs@[j].2 + srcs@[j].1.spec_bytes().len() <= u32::MAX
                },
            out@ == old(out)@ + frames_in(
                srcs_v,
                placed_v,
                lead_ids + later_frames(placed_v, first_v, k as int),
                color,
                level,
            ),
        decreases srcs.len() - k,
    {
        let wanted = match first {
            Some(p) => p as usize != k,
            None => true,
        };
        if wanted && has_label(placed, k) {
            let index = k as u32;
            let (name, text, base) = srcs[k];
            push_frame(out, name, text, base, index, placed, color, level);
            proof {
                assert(has_label_in(placed_v, k as int));
                assert(first_v != Some(k as int));
                assert(later_frames(placed_v, first_v, k + 1) == later_frames(
                    placed_v,
                    first_v,
                    k as int,
                ).push(k as int));
                let ids = lead_ids + later_frames(placed_v, first_v, k as int);
                assert((lead_ids + later_frames(placed_v, first_v, k + 1)).drop_last() =~= ids);
            }
        } else {
            assert(lead_ids + later_frames(placed_v, first_v, k + 1) =~= lead_ids + later_frames(
                placed_v,
                first_v,
                k as int,
            ));
        }
        k = k + 1;
    }
    assert(lead_ids + later_frames(placed_v, first_v, srcs_v.len() as int) =~= frame_order(
        placed_v,
        first_v,
        srcs_v.len() as int,
    ));
}

/// Appends a note for each label of `stray`, naming its span.
fn push_strays(out: &mut String, stray: &Vec<&Label>, color: bool)
    ensures
        final(out)@ == old(out)@ + stray_notes_in(stray_view(stray@), color),
{
    let ghost strays = stray_view(stray@);
    let mut s: usize = 0;
    while s < stray.len()
        invariant
            s <= stray.len(),
            strays == stray_view(stray@),
            out@ == old(out)@ + stray_notes_in(strays.take(s as int), color),
        decreases stray.len() - s,
    {
        let ghost before = out@;
        let span = stray[s].span();
        push_char(out, ' ');
        push_accented(out, color, '=');
        push_str(out, " note: span ");
        push_decimal(out, span.start() as u64);
        push_char(out, '.');
        push_char(out, '.');
        push_decimal(out, span.end() as u64);
        push_str(out, " is outside the loaded sources");
        push_char(out, '\n');
        assert(out@ =~= before + stray_note_in(strays[s as int], color));
        assert(strays.take(s + 1).drop_last() =~= strays.take(s as int));
        s = s + 1;
        assert(out@ =~= old(out)@ + stray_notes_in(strays.take(s as int), color));
    }
    assert(strays.take(stray.len() as int) =~= strays);
}

/// Appends each of `lines` after ` = ` and `kind`, on a line of its own.
fn push_trailing(out: &mut String, kind: &str, lines: &[String], color: bool)
    ensures
        final(out)@ == old(out)@ + trailing_in(
            kind@,
            lines@.map_values(|s: String| s@),
            color,
        ),
{
    let ghost all = lines@.map_values(|s: String| s@);
    let mut i: usize = 0;
    while i < lines.len()
        invariant
            i <= lines.len(),
            all == lines@.map_values(|s: String| s@),
            out@ == old(out)@ + trailing_in(kind@, all.take(i as int), color),
        decreases lines.len() - i,
    {
        push_char(out, ' ');
        push_accented(out, color, '=');
        push_str(out, kind);
        push_str(out, lines[i].as_str());
        push_char(out, '\n');
        assert(all.take(i + 1).drop_last() =~= all.take(i as int));
        i = i + 1;
        assert(out@ =~= old(out)@ + trailing_in(kind@, all.take(i as int), color));
    }
    assert(all.take(lines.len() as int) =~= all);
}

} // verus!
