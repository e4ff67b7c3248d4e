//! The plain rendering styles nothing: it holds an escape character only
//! where one of the texts it was given does.
use vstd::prelude::*;
use vstd::string::*;
use vstd::utf8::*;

use crate::diagnostic::DiagnosticView;
use crate::properties::{
    law_label_underlines_top_to_bottom_message_last, law_row_stacks_left_to_right,
};
use crate::render::{
    accent, closing_in, frame_in, frame_marks, frame_text, frames_in, frames_text, gutter,
    gutter_in, header_in, label_marks, labels_of, lemma_styled_parts, line_block, line_chars,
    line_row, lines_block, lines_block_in, location_in, location_line, mark_in, mark_text,
    numbered_in, numbered_line, paint, placed_labels, rendered, right_aligned, row_in, row_text,
    severity_code, sgr, stray_labels, stray_note, stray_note_in, stray_notes, stray_notes_in,
    styled, trailing_in, trailing_lines, LabelParts, MarkView, Placed,
};
use crate::severity::{severity_word, Severity};
use crate::sources::line_range;
use crate::text::{decimal, digit_char, expanded, repeat_char};

verus! {

broadcast use {encode_utf8_valid_utf8, encode_utf8_decode_utf8};

/// Whether `c` is a character the renderer writes of its own accord: a
/// printable ASCII character or a line break.
pub open spec fn printable(c: char) -> bool {
    (0x20 <= c as u32 <= 0x7e) || c == '\n'
}

/// Whether `pool` holds every printable character.
pub open spec fn covers_printable(pool: spec_fn(char) -> bool) -> bool {
    forall|c: char| printable(c) ==> #[trigger] pool(c)
}

/// Whether every character of `s` is one of `pool`.
pub open spec fn drawn_from(s: Seq<char>, pool: spec_fn(char) -> bool) -> bool {
    forall|i: int| 0 <= i < s.len() ==> pool(#[trigger] s[i])
}

/// Every character but the escape character (`U+001B`, which starts a
/// terminal styling sequence).
pub open spec fn no_escape() -> spec_fn(char) -> bool {
    |c: char| c != '\u{1b}'
}

/// Whether `s` holds no escape character.
pub open spec fn escape_free(s: Seq<char>) -> bool {
    drawn_from(s, no_escape())
}

proof fn lemma_no_escape_covers()
    ensures
        covers_printable(no_escape()),
{
    assert forall|c: char| printable(c) implies #[trigger] no_escape()(c) by {
        if c == '\u{1b}' {
            assert(c as u32 == 0x1b);
        }
    }
}

proof fn lemma_concat_drawn(a: Seq<char>, b: Seq<char>, pool: spec_fn(char) -> bool)
    ensures
        drawn_from(a, pool) && drawn_from(b, pool) ==> drawn_from(a + b, pool),
        drawn_from(a + b, pool) ==> drawn_from(a, pool) && drawn_from(b, pool),
{
    if drawn_from(a, pool) && drawn_from(b, pool) {
        assert forall|i: int| 0 <= i < (a + b).len() implies pool((a + b)[i]) by {
            if i >= a.len() {
                assert((a + b)[i] == b[i - a.len()]);
            }
        }
    }
    if drawn_from(a + b, pool) {
        assert forall|i: int| 0 <= i < a.len() implies pool(a[i]) by {
            assert((a + b)[i] == a[i]);
        }
        assert forall|i: int| 0 <= i < b.len() implies pool(b[i]) by {
            assert((a + b)[a.len() + i] == b[i]);
        }
    }
}

proof fn lemma_repeat_drawn(c: char, n: nat, pool: spec_fn(char) -> bool)
    requires
        covers_printable(pool),
        pool(c),
    ensures
        drawn_from(repeat_char(c, n), pool),
{
}

proof fn lemma_decimal_drawn(n: nat, pool: spec_fn(char) -> bool)
    requires
        covers_printable(pool),
    ensures
        drawn_from(decimal(n), pool),
    decreases n,
{
    assert(digit_char(n % 10) as u32 == 48 + n % 10);
    if n >= 10 {
        lemma_decimal_drawn(n / 10, pool);
    }
}

proof fn lemma_expanded_drawn(s: Seq<char>, pool: spec_fn(char) -> bool)
    requires
        covers_printable(pool),
        drawn_from(s, pool),
    ensures
        drawn_from(expanded(s), pool),
    decreases s.len(),
{
    if s.len() > 0 {
        assert forall|i: int| 0 <= i < s.drop_last().len() implies pool(
            s.drop_last()[i],
        ) by {
            assert(s.drop_last()[i] == s[i]);
        }
        lemma_expanded_drawn(s.drop_last(), pool);
        assert(pool(s[s.len() - 1]));
    }
}

/// A boundary of valid UTF-8 past `lo` stays a boundary of the text from
/// boundary `lo` on.
pub(crate) proof fn lemma_boundary_in_suffix(bytes: Seq<u8>, lo: int, i: int)
    requires
        valid_utf8(bytes),
        is_char_boundary(bytes, lo),
        is_char_boundary(bytes, i),
        lo <= i,
    ensures
        is_char_boundary(bytes.subrange(lo, bytes.len() as int), i - lo),
    decreases lo,
{
    if lo == 0 {
        assert(bytes.subrange(0, bytes.len() as int) =~= bytes);
    } else {
        let n = length_of_first_scalar(bytes);
        let rest = pop_first_scalar(bytes);
        assert(is_char_boundary(rest, lo - n));
        assert(is_char_boundary(rest, i - n));
        lemma_boundary_in_suffix(rest, lo - n, i - n);
        assert(rest.subrange(lo - n, rest.len() as int) =~= bytes.subrange(lo, bytes.len() as int));
    }
}

/// The text of a line is a piece of the source's text, so it draws only on
/// the characters the source holds.
proof fn lemma_line_chars_drawn(text: Seq<char>, l: u32, pool: spec_fn(char) -> bool)
    requires
        drawn_from(text, pool),
    ensures
        drawn_from(line_chars(encode_utf8(text), l), pool),
{
    let bytes = encode_utf8(text);
    reveal(line_chars);
    if let Some((lo, hi)) = line_range(bytes, l) {
        if lo <= hi && is_char_boundary(bytes, lo) && is_char_boundary(bytes, hi) {
            decode_utf8_split(bytes, lo);
            let rest = bytes.subrange(lo, bytes.len() as int);
            valid_utf8_split(bytes, lo);
            lemma_boundary_in_suffix(bytes, lo, hi);
            decode_utf8_split(rest, hi - lo);
            assert(rest.subrange(0, hi - lo) =~= bytes.subrange(lo, hi));
            lemma_concat_drawn(decode_utf8(bytes.subrange(0, lo)), decode_utf8(rest), pool);
            lemma_concat_drawn(
                decode_utf8(rest.subrange(0, hi - lo)),
                decode_utf8(rest.subrange(hi - lo, rest.len() as int)),
                pool,
            );
        }
    }
}

/// Whether the message an underline carries, if any, is escape free.
spec fn message_drawn(m: MarkView, pool: spec_fn(char) -> bool) -> bool {
    match m.message {
        Some(t) => drawn_from(t, pool),
        None => true,
    }
}

/// Whether every message the underlines carry is escape free.
spec fn messages_drawn(marks: Seq<MarkView>, pool: spec_fn(char) -> bool) -> bool {
    forall|k: int| 0 <= k < marks.len() ==> message_drawn(#[trigger] marks[k], pool)
}

/// Whether every placed label's message is escape free.
spec fn placed_drawn(placed: Seq<Placed>, pool: spec_fn(char) -> bool) -> bool {
    forall|k: int| 0 <= k < placed.len() ==> drawn_from((#[trigger] placed[k]).2.1, pool)
}

proof fn lemma_placed_drawn(
    srcs: Seq<(Seq<char>,
    Seq<char>)>,
    labels: Seq<(bool, LabelParts)>,
    pool: spec_fn(char) -> bool,
)
    requires
        forall|k: int| 0 <= k < labels.len() ==> drawn_from((#[trigger] labels[k]).1.1, pool),
    ensures
        placed_drawn(placed_labels(srcs, labels), pool),
    decreases labels.len(),
{
    if labels.len() > 0 {
        let prev = labels.drop_last();
        assert forall|k: int| 0 <= k < prev.len() implies drawn_from((#[trigger] prev[k]).1.1, pool) by {
            assert(prev[k] == labels[k]);
        }
        lemma_placed_drawn(srcs, prev, pool);
        assert(drawn_from(labels[labels.len() - 1].1.1, pool));
    }
}

proof fn lemma_frame_marks_drawn(
    bytes: Seq<u8>,
    base: int,
    id: int,
    placed: Seq<Placed>,
    pool: spec_fn(char) -> bool,
)
    requires
        placed_drawn(placed, pool),
    ensures
        messages_drawn(frame_marks(bytes, base, id, placed), pool),
    decreases placed.len(),
{
    if placed.len() > 0 {
        let prev = placed.drop_last();
        assert forall|k: int| 0 <= k < prev.len() implies drawn_from((#[trigger] prev[k]).2.1, pool) by {
            assert(prev[k] == placed[k]);
        }
        lemma_frame_marks_drawn(bytes, base, id, prev, pool);
        let (index, primary, label) = placed.last();
        assert(drawn_from(placed[placed.len() - 1].2.1, pool));
        if index == id {
            let rest = frame_marks(bytes, base, id, prev);
            let ms = label_marks(bytes, base, primary, label);
            law_label_underlines_top_to_bottom_message_last(bytes, base, primary, label);
            let all = rest + ms;
            assert forall|k: int| 0 <= k < all.len() implies message_drawn(#[trigger] all[k], pool) by {
                if k >= rest.len() {
                    assert(all[k] == ms[k - rest.len()]);
                } else {
                    assert(all[k] == rest[k]);
                }
            }
        }
    }
}

proof fn lemma_row_text_drawn(row: Seq<MarkView>, gw: nat, pool: spec_fn(char) -> bool)
    requires
        covers_printable(pool),
        messages_drawn(row, pool),
    ensures
        drawn_from(row_text(row, gw), pool),
    decreases row.len(),
{
    if row.len() > 0 {
        let prev = row.drop_last();
        assert forall|k: int| 0 <= k < prev.len() implies message_drawn(#[trigger] prev[k], pool) by {
            assert(prev[k] == row[k]);
        }
        lemma_row_text_drawn(prev, gw, pool);
        let m = row[row.len() - 1];
        lemma_mark_text_drawn(m, gw, pool);
        lemma_concat_drawn(row_text(prev, gw), mark_text(m, gw), pool);
    }
}

proof fn lemma_gutter_drawn(gw: nat, pool: spec_fn(char) -> bool)
    requires
        covers_printable(pool),
    ensures
        drawn_from(gutter(gw), pool),
{
    lemma_repeat_drawn(' ', gw, pool);
    lemma_concat_drawn(repeat_char(' ', gw), seq![' ', '|'], pool);
}

proof fn lemma_mark_text_drawn(m: MarkView, gw: nat, pool: spec_fn(char) -> bool)
    requires
        covers_printable(pool),
        message_drawn(m, pool),
    ensures
        drawn_from(mark_text(m, gw), pool),
{
    lemma_gutter_drawn(gw, pool);
    lemma_repeat_drawn(' ', m.lead, pool);
    let marker = if m.primary {
        '^'
    } else {
        '-'
    };
    lemma_repeat_drawn(marker, m.width, pool);
    let tail = match m.message {
        Some(msg) => seq![' '] + msg + seq!['\n'],
        None => seq!['\n'],
    };
    if let Some(msg) = m.message {
        lemma_concat_drawn(seq![' '], msg, pool);
        lemma_concat_drawn(seq![' '] + msg, seq!['\n'], pool);
    }
    let a = gutter(gw) + seq![' '];
    lemma_concat_drawn(gutter(gw), seq![' '], pool);
    lemma_concat_drawn(a, repeat_char(' ', m.lead), pool);
    lemma_concat_drawn(a + repeat_char(' ', m.lead), repeat_char(marker, m.width), pool);
    lemma_concat_drawn(a + repeat_char(' ', m.lead) + repeat_char(marker, m.width), tail, pool);
}

proof fn lemma_right_aligned_drawn(n: nat, width: nat, pool: spec_fn(char) -> bool)
    requires
        covers_printable(pool),
    ensures
        drawn_from(right_aligned(n, width), pool),
{
    lemma_decimal_drawn(n, pool);
    let digits = decimal(n);
    let pad = if width > digits.len() {
        (width - digits.len()) as nat
    } else {
        0
    };
    lemma_repeat_drawn(' ', pad, pool);
    lemma_concat_drawn(repeat_char(' ', pad), digits, pool);
}

proof fn lemma_lines_block_drawn(
    text: Seq<char>,
    marks: Seq<MarkView>,
    lines: Seq<u32>,
    gw: nat,
    pool: spec_fn(char) -> bool,
)
    requires
        covers_printable(pool),
        drawn_from(text, pool),
        messages_drawn(marks, pool),
    ensures
        drawn_from(lines_block(encode_utf8(text), marks, lines, gw), pool),
    decreases lines.len(),
{
    let bytes = encode_utf8(text);
    if lines.len() > 0 {
        lemma_lines_block_drawn(text, marks, lines.drop_last(), gw, pool);
        let line = lines.last();
        lemma_right_aligned_drawn(line as nat, gw, pool);
        lemma_line_chars_drawn(text, line, pool);
        lemma_expanded_drawn(line_chars(bytes, line), pool);
        let a = right_aligned(line as nat, gw);
        let e = expanded(line_chars(bytes, line));
        lemma_concat_drawn(a, seq![' ', '|', ' '], pool);
        lemma_concat_drawn(a + seq![' ', '|', ' '], e, pool);
        lemma_concat_drawn(a + seq![' ', '|', ' '] + e, seq!['\n'], pool);
        assert(numbered_line(bytes, line, gw) == a + seq![' ', '|', ' '] + e + seq!['\n']);
        let row = line_row(marks, line);
        law_row_stacks_left_to_right(marks, line);
        assert forall|k: int| 0 <= k < row.len() implies message_drawn(#[trigger] row[k], pool) by {
            assert(row.contains(row[k]));
            let q = choose|q: int| 0 <= q < marks.len() && marks[q] == row[k];
            assert(marks[q].message == row[k].message);
        }
        lemma_row_text_drawn(row, gw, pool);
        lemma_concat_drawn(numbered_line(bytes, line, gw), row_text(row, gw), pool);
        lemma_concat_drawn(
            lines_block(bytes, marks, lines.drop_last(), gw),
            line_block(bytes, marks, line, gw),
            pool,
        );
    }
}

proof fn lemma_location_drawn(
    name: Seq<char>,
    line: u32,
    col: u32,
    gw: nat,
    pool: spec_fn(char) -> bool,
)
    requires
        covers_printable(pool),
        drawn_from(name, pool),
    ensures
        drawn_from(location_line(name, line, col, gw), pool),
{
    lemma_repeat_drawn(' ', gw, pool);
    lemma_decimal_drawn(line as nat, pool);
    lemma_decimal_drawn(col as nat, pool);
    lemma_gutter_drawn(gw, pool);
    let p0 = repeat_char(' ', gw) + seq!['-', '-', '>', ' '];
    lemma_concat_drawn(repeat_char(' ', gw), seq!['-', '-', '>', ' '], pool);
    lemma_concat_drawn(p0, name, pool);
    lemma_concat_drawn(p0 + name, seq![':'], pool);
    lemma_concat_drawn(p0 + name + seq![':'], decimal(line as nat), pool);
    lemma_concat_drawn(p0 + name + seq![':'] + decimal(line as nat), seq![':'], pool);
    let p1 = p0 + name + seq![':'] + decimal(line as nat) + seq![':'];
    lemma_concat_drawn(p1, decimal(col as nat), pool);
    lemma_concat_drawn(p1 + decimal(col as nat), seq!['\n'], pool);
    lemma_concat_drawn(p1 + decimal(col as nat) + seq!['\n'], gutter(gw), pool);
    lemma_concat_drawn(p1 + decimal(col as nat) + seq!['\n'] + gutter(gw), seq!['\n'], pool);
}

proof fn lemma_frame_drawn(
    name: Seq<char>,
    text: Seq<char>,
    base: int,
    id: int,
    placed: Seq<Placed>,
    pool: spec_fn(char) -> bool,
)
    requires
        covers_printable(pool),
        drawn_from(name, pool),
        drawn_from(text, pool),
        placed_drawn(placed, pool),
    ensures
        drawn_from(frame_text(name, text, base, id, placed), pool),
{
    let bytes = encode_utf8(text);
    let marks = frame_marks(bytes, base, id, placed);
    lemma_frame_marks_drawn(bytes, base, id, placed, pool);
    if let Some((line, col)) = crate::render::frame_anchor(bytes, base, id, placed).0 {
        let lines = crate::render::marked_lines(marks);
        let max_line = if lines.len() > 0 {
            lines.last()
        } else {
            line
        };
        let gw = decimal(max_line as nat).len();
        lemma_location_drawn(name, line, col, gw, pool);
        lemma_lines_block_drawn(text, marks, lines, gw, pool);
        lemma_gutter_drawn(gw, pool);
        let l = location_line(name, line, col, gw);
        let b = lines_block(bytes, marks, lines, gw);
        lemma_concat_drawn(l, b, pool);
        lemma_concat_drawn(l + b, gutter(gw), pool);
        lemma_concat_drawn(l + b + gutter(gw), seq!['\n'], pool);
    }
}

proof fn lemma_frames_drawn(
    srcs: Seq<(Seq<char>,
    Seq<char>)>,
    placed: Seq<Placed>,
    ids: Seq<int>,
    pool: spec_fn(char) -> bool,
)
    requires
        covers_printable(pool),
        forall|k: int|
            0 <= k < srcs.len() ==> drawn_from((#[trigger] srcs[k]).0, pool) && drawn_from(srcs[k].1, pool),
        forall|k: int| 0 <= k < ids.len() ==> 0 <= #[trigger] ids[k] < srcs.len(),
        placed_drawn(placed, pool),
    ensures
        drawn_from(frames_text(srcs, placed, ids), pool),
    decreases ids.len(),
{
    if ids.len() > 0 {
        let prev = ids.drop_last();
        assert forall|k: int| 0 <= k < prev.len() implies 0 <= #[trigger] prev[k] < srcs.len() by {
            assert(prev[k] == ids[k]);
        }
        lemma_frames_drawn(srcs, placed, prev, pool);
        let id = ids.last();
        assert(id == ids[ids.len() - 1]);
        let f = frame_text(srcs[id].0, srcs[id].1, crate::sources::source_base(srcs, id), id, placed);
        lemma_frame_drawn(srcs[id].0, srcs[id].1, crate::sources::source_base(srcs, id), id, placed, pool);
        lemma_concat_drawn(frames_text(srcs, placed, prev), f, pool);
    }
}

proof fn lemma_stray_notes_drawn(labels: Seq<LabelParts>, pool: spec_fn(char) -> bool)
    requires
        covers_printable(pool),
    ensures
        drawn_from(stray_notes(labels), pool),
    decreases labels.len(),
{
    if labels.len() > 0 {
        lemma_stray_notes_drawn(labels.drop_last(), pool);
        let label = labels.last();
        reveal_strlit(" = note: span ");
        reveal_strlit(" is outside the loaded sources");
        lemma_decimal_drawn(label.0.lo() as nat, pool);
        lemma_decimal_drawn(label.0.hi() as nat, pool);
        let a = " = note: span "@;
        let z = " is outside the loaded sources"@;
        let lo = decimal(label.0.lo() as nat);
        let hi = decimal(label.0.hi() as nat);
        lemma_concat_drawn(a, lo, pool);
        lemma_concat_drawn(a + lo, seq!['.', '.'], pool);
        lemma_concat_drawn(a + lo + seq!['.', '.'], hi, pool);
        lemma_concat_drawn(a + lo + seq!['.', '.'] + hi, z, pool);
        lemma_concat_drawn(a + lo + seq!['.', '.'] + hi + z, seq!['\n'], pool);
        lemma_concat_drawn(stray_notes(labels.drop_last()), stray_note(label), pool);
    }
}

proof fn lemma_trailing_drawn(prefix: Seq<char>, lines: Seq<Seq<char>>, pool: spec_fn(char) -> bool)
    requires
        covers_printable(pool),
        drawn_from(prefix, pool),
        forall|k: int| 0 <= k < lines.len() ==> drawn_from(#[trigger] lines[k], pool),
    ensures
        drawn_from(trailing_lines(prefix, lines), pool),
    decreases lines.len(),
{
    if lines.len() > 0 {
        let prev = lines.drop_last();
        assert forall|k: int| 0 <= k < prev.len() implies drawn_from(#[trigger] prev[k], pool) by {
            assert(prev[k] == lines[k]);
        }
        lemma_trailing_drawn(prefix, prev, pool);
        let last = lines[lines.len() - 1];
        let t = trailing_lines(prefix, prev);
        lemma_concat_drawn(t, prefix, pool);
        lemma_concat_drawn(t + prefix, last, pool);
        lemma_concat_drawn(t + prefix + last, seq!['\n'], pool);
    }
}

proof fn lemma_word_drawn(s: Severity, pool: spec_fn(char) -> bool)
    requires
        covers_printable(pool),
    ensures
        drawn_from(severity_word(s), pool),
{
    reveal_strlit("error");
    reveal_strlit("warning");
    reveal_strlit("note");
    reveal_strlit("help");
}

/// Whether `c` occurs in a text the diagnostic or the sources hold: the
/// headline, a label's message, a note, a help line, a source's name or text.
pub open spec fn input_char(d: DiagnosticView, srcs: Seq<(Seq<char>, Seq<char>)>, c: char) -> bool {
    ||| d.message.contains(c)
    ||| d.primary.1.contains(c)
    ||| exists|k: int| 0 <= k < d.secondary.len() && (#[trigger] d.secondary[k]).1.contains(c)
    ||| exists|k: int| 0 <= k < d.notes.len() && (#[trigger] d.notes[k]).contains(c)
    ||| exists|k: int| 0 <= k < d.help.len() && (#[trigger] d.help[k]).contains(c)
    ||| exists|k: int|
        0 <= k < srcs.len() && ((#[trigger] srcs[k]).0.contains(c) || srcs[k].1.contains(c))
}

/// The plain rendering draws on the printable characters and on the
/// characters its inputs hold, where those are all in `pool`.
proof fn lemma_rendered_drawn(
    d: DiagnosticView,
    srcs: Seq<(Seq<char>, Seq<char>)>,
    pool: spec_fn(char) -> bool,
)
    requires
        covers_printable(pool),
        drawn_from(d.message, pool),
        drawn_from(d.primary.1, pool),
        forall|k: int| 0 <= k < d.secondary.len() ==> drawn_from((#[trigger] d.secondary[k]).1, pool),
        forall|k: int| 0 <= k < d.notes.len() ==> drawn_from(#[trigger] d.notes[k], pool),
        forall|k: int| 0 <= k < d.help.len() ==> drawn_from(#[trigger] d.help[k], pool),
        forall|k: int|
            0 <= k < srcs.len() ==> drawn_from((#[trigger] srcs[k]).0, pool) && drawn_from(
                srcs[k].1,
                pool,
            ),
    ensures
        drawn_from(rendered(d, srcs), pool),
{
    reveal(rendered);
    let labels = labels_of(d);
    assert forall|k: int| 0 <= k < labels.len() implies drawn_from((#[trigger] labels[k]).1.1, pool) by {
        if k > 0 {
            assert(labels[k].1 == d.secondary[k - 1]);
        }
    }
    let placed = placed_labels(srcs, labels);
    lemma_placed_drawn(srcs, labels, pool);
    let first = crate::render::primary_source(srcs, d);
    let ids = crate::render::frame_order(placed, first, srcs.len() as int);
    crate::properties::law_frames_primary_first_then_map_order(placed, first, srcs.len() as int);
    crate::render::lemma_located_index(srcs, d.primary.0.lo() as int);
    assert forall|k: int| 0 <= k < ids.len() implies 0 <= #[trigger] ids[k] < srcs.len() by {
        let later = crate::render::later_frames(placed, first, srcs.len() as int);
        match first {
            Some(p) => {
                if k > 0 {
                    assert(ids[k] == later[k - 1]);
                }
            },
            None => {
                assert(ids[k] == later[k]);
            },
        }
    }
    lemma_frames_drawn(srcs, placed, ids, pool);
    lemma_stray_notes_drawn(stray_labels(srcs, labels), pool);
    reveal_strlit(" = note: ");
    reveal_strlit(" = help: ");
    lemma_trailing_drawn(" = note: "@, d.notes, pool);
    lemma_trailing_drawn(" = help: "@, d.help, pool);
    lemma_word_drawn(d.severity, pool);
    let h = severity_word(d.severity) + seq![':', ' '] + d.message + seq!['\n'];
    lemma_concat_drawn(severity_word(d.severity), seq![':', ' '], pool);
    lemma_concat_drawn(severity_word(d.severity) + seq![':', ' '], d.message, pool);
    lemma_concat_drawn(severity_word(d.severity) + seq![':', ' '] + d.message, seq!['\n'], pool);
    let f = frames_text(srcs, placed, ids);
    let st = stray_notes(stray_labels(srcs, labels));
    let n = trailing_lines(" = note: "@, d.notes);
    let hp = trailing_lines(" = help: "@, d.help);
    lemma_concat_drawn(h, f, pool);
    lemma_concat_drawn(h + f, st, pool);
    lemma_concat_drawn(h + f + st, n, pool);
    lemma_concat_drawn(h + f + st + n, hp, pool);
}


/// The plain rendering adds no styling: every character of it is one the
/// renderer writes of its own accord (printable ASCII or a line break) or one
/// that an input text holds (the headline, a label's message, a note, a help
/// line, a source's name or text). So it holds an escape character only where
/// an input text does.
pub proof fn law_rendering_draws_on_its_inputs(
    d: DiagnosticView,
    srcs: Seq<(Seq<char>, Seq<char>)>,
)
    ensures
        forall|i: int|
            0 <= i < rendered(d, srcs).len() ==> printable(#[trigger] rendered(d, srcs)[i])
                || input_char(d, srcs, rendered(d, srcs)[i]),
        rendered(d, srcs).contains('\u{1b}') ==> input_char(d, srcs, '\u{1b}'),
{
    let pool = |c: char| printable(c) || input_char(d, srcs, c);
    assert forall|i: int| 0 <= i < d.message.len() implies pool(#[trigger] d.message[i]) by {
        assert(d.message.contains(d.message[i]));
    }
    assert forall|i: int| 0 <= i < d.primary.1.len() implies pool(#[trigger] d.primary.1[i]) by {
        assert(d.primary.1.contains(d.primary.1[i]));
    }
    assert forall|k: int| 0 <= k < d.secondary.len() implies drawn_from(
        (#[trigger] d.secondary[k]).1,
        pool,
    ) by {
        let t = d.secondary[k].1;
        assert forall|i: int| 0 <= i < t.len() implies pool(#[trigger] t[i]) by {
            assert(t.contains(t[i]));
        }
    }
    assert forall|k: int| 0 <= k < d.notes.len() implies drawn_from(#[trigger] d.notes[k], pool) by {
        let t = d.notes[k];
        assert forall|i: int| 0 <= i < t.len() implies pool(#[trigger] t[i]) by {
            assert(t.contains(t[i]));
        }
    }
    assert forall|k: int| 0 <= k < d.help.len() implies drawn_from(#[trigger] d.help[k], pool) by {
        let t = d.help[k];
        assert forall|i: int| 0 <= i < t.len() implies pool(#[trigger] t[i]) by {
            assert(t.contains(t[i]));
        }
    }
    assert forall|k: int| 0 <= k < srcs.len() implies drawn_from((#[trigger] srcs[k]).0, pool)
        && drawn_from(srcs[k].1, pool) by {
        let a = srcs[k].0;
        let b = srcs[k].1;
        assert forall|i: int| 0 <= i < a.len() implies pool(#[trigger] a[i]) by {
            assert(a.contains(a[i]));
        }
        assert forall|i: int| 0 <= i < b.len() implies pool(#[trigger] b[i]) by {
            assert(b.contains(b[i]));
        }
    }
    lemma_rendered_drawn(d, srcs, pool);
    let r = rendered(d, srcs);
    if r.contains('\u{1b}') {
        let i = choose|i: int| 0 <= i < r.len() && r[i] == '\u{1b}';
        assert(pool(r[i]));
        assert(('\u{1b}' as u32) == 0x1b);
    }
}

/// Where no input text holds an escape character, neither does the plain
/// rendering.
pub proof fn law_plain_rendering_adds_no_escape(
    d: DiagnosticView,
    srcs: Seq<(Seq<char>,
    Seq<char>)>,
)
    requires
        escape_free(d.message),
        escape_free(d.primary.1),
        forall|k: int| 0 <= k < d.secondary.len() ==> escape_free((#[trigger] d.secondary[k]).1),
        forall|k: int| 0 <= k < d.notes.len() ==> escape_free(#[trigger] d.notes[k]),
        forall|k: int| 0 <= k < d.help.len() ==> escape_free(#[trigger] d.help[k]),
        forall|k: int|
            0 <= k < srcs.len() ==> escape_free((#[trigger] srcs[k]).0) && escape_free(srcs[k].1),
    ensures
        escape_free(rendered(d, srcs)),
{
    lemma_no_escape_covers();
    lemma_rendered_drawn(d, srcs, no_escape());
}

proof fn lemma_gutter_unstyled(gw: nat)
    ensures
        gutter_in(gw, false) == gutter(gw),
{
    assert(gutter_in(gw, false) =~= gutter(gw));
}

proof fn lemma_mark_unstyled(m: MarkView, gw: nat, level: Severity)
    ensures
        mark_in(m, gw, false, level) == mark_text(m, gw),
{
    lemma_gutter_unstyled(gw);
    assert(mark_in(m, gw, false, level) =~= mark_text(m, gw));
}

proof fn lemma_row_unstyled(row: Seq<MarkView>, gw: nat, level: Severity)
    ensures
        row_in(row, gw, false, level) == row_text(row, gw),
    decreases row.len(),
{
    if row.len() > 0 {
        lemma_row_unstyled(row.drop_last(), gw, level);
        lemma_mark_unstyled(row.last(), gw, level);
    }
}

proof fn lemma_lines_unstyled(
    bytes: Seq<u8>,
    marks: Seq<MarkView>,
    lines: Seq<u32>,
    gw: nat,
    level: Severity,
)
    ensures
        lines_block_in(bytes, marks, lines, gw, false, level) == lines_block(bytes, marks, lines, gw),
    decreases lines.len(),
{
    if lines.len() > 0 {
        lemma_lines_unstyled(bytes, marks, lines.drop_last(), gw, level);
        let line = lines.last();
        lemma_row_unstyled(line_row(marks, line), gw, level);
        assert(numbered_in(bytes, line, gw, false) =~= numbered_line(bytes, line, gw));
    }
}

proof fn lemma_frame_unstyled(
    name: Seq<char>,
    text: Seq<char>,
    base: int,
    id: int,
    placed: Seq<Placed>,
    level: Severity,
)
    ensures
        frame_in(name, text, base, id, placed, false, level) == frame_text(name, text, base, id, placed),
{
    reveal(frame_in);
    let bytes = encode_utf8(text);
    let marks = frame_marks(bytes, base, id, placed);
    if let Some((line, col)) = crate::render::frame_anchor(bytes, base, id, placed).0 {
        let lines = crate::render::marked_lines(marks);
        let max_line = if lines.len() > 0 {
            lines.last()
        } else {
            line
        };
        let gw = decimal(max_line as nat).len();
        lemma_lines_unstyled(bytes, marks, lines, gw, level);
        lemma_gutter_unstyled(gw);
        assert(location_in(name, line, col, gw, false) =~= location_line(name, line, col, gw));
    }
}

proof fn lemma_frames_unstyled(
    srcs: Seq<(Seq<char>, Seq<char>)>,
    placed: Seq<Placed>,
    ids: Seq<int>,
    level: Severity,
)
    ensures
        frames_in(srcs, placed, ids, false, level) == frames_text(srcs, placed, ids),
    decreases ids.len(),
{
    if ids.len() > 0 {
        lemma_frames_unstyled(srcs, placed, ids.drop_last(), level);
        let id = ids.last();
        lemma_frame_unstyled(
            srcs[id].0,
            srcs[id].1,
            crate::sources::source_base(srcs, id),
            id,
            placed,
            level,
        );
    }
}

proof fn lemma_strays_unstyled(labels: Seq<LabelParts>)
    ensures
        stray_notes_in(labels, false) == stray_notes(labels),
    decreases labels.len(),
{
    if labels.len() > 0 {
        lemma_strays_unstyled(labels.drop_last());
        reveal_strlit(" note: span ");
        reveal_strlit(" = note: span ");
        assert(stray_note_in(labels.last(), false) =~= stray_note(labels.last()));
    }
}

proof fn lemma_trailing_unstyled(kind: Seq<char>, prefix: Seq<char>, lines: Seq<Seq<char>>)
    requires
        prefix == seq![' ', '='] + kind,
    ensures
        trailing_in(kind, lines, false) == trailing_lines(prefix, lines),
    decreases lines.len(),
{
    if lines.len() > 0 {
        lemma_trailing_unstyled(kind, prefix, lines.drop_last());
        assert(trailing_in(kind, lines, false) =~= trailing_lines(prefix, lines));
    }
}

/// Unstyled, the styled rendering is the plain one.
pub proof fn law_unstyled_is_plain(d: DiagnosticView, srcs: Seq<(Seq<char>, Seq<char>)>)
    ensures
        styled(d, srcs, false) == rendered(d, srcs),
{
    reveal(rendered);
    reveal(styled);
    let labels = labels_of(d);
    let placed = placed_labels(srcs, labels);
    let ids = crate::render::frame_order(
        placed,
        crate::render::primary_source(srcs, d),
        srcs.len() as int,
    );
    lemma_frames_unstyled(srcs, placed, ids, d.severity);
    lemma_strays_unstyled(stray_labels(srcs, labels));
    reveal_strlit(" note: ");
    reveal_strlit(" help: ");
    reveal_strlit(" = note: ");
    reveal_strlit(" = help: ");
    assert(" = note: "@ =~= seq![' ', '='] + " note: "@);
    assert(" = help: "@ =~= seq![' ', '='] + " help: "@);
    lemma_trailing_unstyled(" note: "@, " = note: "@, d.notes);
    lemma_trailing_unstyled(" help: "@, " = help: "@, d.help);
    assert(styled(d, srcs, false) =~= rendered(d, srcs));
}

/// `s` read from a point inside an escape sequence or not, with every escape
/// sequence (an escape character through the next `m`) taken out.
pub open spec fn strip_from(s: Seq<char>, inside: bool) -> Seq<char>
    decreases s.len(),
{
    if s.len() == 0 {
        Seq::empty()
    } else if inside {
        strip_from(s.drop_first(), s[0] != 'm')
    } else if s[0] == '\u{1b}' {
        strip_from(s.drop_first(), true)
    } else {
        seq![s[0]] + strip_from(s.drop_first(), false)
    }
}

/// `s` with every escape sequence taken out: the text it styles.
pub open spec fn strip_styles(s: Seq<char>) -> Seq<char> {
    strip_from(s, false)
}

/// Whether an escape sequence is still open after `s`, read from a point
/// inside one or not.
pub open spec fn inside_after(s: Seq<char>, inside: bool) -> bool
    decreases s.len(),
{
    if s.len() == 0 {
        inside
    } else if inside {
        inside_after(s.drop_first(), s[0] != 'm')
    } else {
        inside_after(s.drop_first(), s[0] == '\u{1b}')
    }
}

proof fn lemma_strip_concat(a: Seq<char>, b: Seq<char>, inside: bool)
    ensures
        strip_from(a + b, inside) == strip_from(a, inside) + strip_from(b, inside_after(a, inside)),
        inside_after(a + b, inside) == inside_after(b, inside_after(a, inside)),
    decreases a.len(),
{
    if a.len() == 0 {
        assert(a + b =~= b);
        assert(strip_from(a, inside) + strip_from(b, inside) =~= strip_from(b, inside));
    } else {
        assert((a + b).drop_first() =~= a.drop_first() + b);
        assert((a + b)[0] == a[0]);
        let next = if inside {
            a[0] != 'm'
        } else {
            a[0] == '\u{1b}'
        };
        lemma_strip_concat(a.drop_first(), b, next);
        if !inside && a[0] != '\u{1b}' {
            assert(strip_from(a + b, inside) =~= strip_from(a, inside) + strip_from(
                b,
                inside_after(a, inside),
            ));
        }
    }
}

/// Whether `styled` strips to `plain` and leaves no escape sequence open.
spec fn strips_to(styled: Seq<char>, plain: Seq<char>) -> bool {
    strip_from(styled, false) == plain && !inside_after(styled, false)
}

proof fn lemma_strips_concat(a: Seq<char>, pa: Seq<char>, b: Seq<char>, pb: Seq<char>)
    requires
        strips_to(a, pa),
        strips_to(b, pb),
    ensures
        strips_to(a + b, pa + pb),
{
    lemma_strip_concat(a, b, false);
}

proof fn lemma_strips_free(t: Seq<char>)
    requires
        escape_free(t),
    ensures
        strips_to(t, t),
    decreases t.len(),
{
    if t.len() > 0 {
        assert forall|i: int| 0 <= i < t.drop_first().len() implies t.drop_first()[i]
            != '\u{1b}' by {
            assert(t.drop_first()[i] == t[i + 1]);
        }
        lemma_strips_free(t.drop_first());
        assert(t[0] != '\u{1b}');
        assert(strip_from(t, false) == seq![t[0]] + strip_from(t.drop_first(), false));
        assert(inside_after(t, false) == inside_after(t.drop_first(), false));
        assert(seq![t[0]] + t.drop_first() =~= t);
        assert(strip_from(t, false) =~= t);
    } else {
        assert(strip_from(t, false) =~= t);
    }
}

proof fn lemma_skip_code(code: Seq<char>)
    requires
        forall|i: int| 0 <= i < code.len() ==> code[i] != 'm',
    ensures
        strip_from(code, true) == Seq::<char>::empty(),
        inside_after(code, true),
    decreases code.len(),
{
    if code.len() > 0 {
        assert(code[0] != 'm');
        assert forall|i: int| 0 <= i < code.drop_first().len() implies code.drop_first()[i]
            != 'm' by {
            assert(code.drop_first()[i] == code[i + 1]);
        }
        lemma_skip_code(code.drop_first());
    }
}

proof fn lemma_strips_sgr(code: Seq<char>)
    requires
        forall|i: int| 0 <= i < code.len() ==> code[i] != 'm',
    ensures
        strips_to(sgr(code), Seq::empty()),
{
    let head = seq!['\u{1b}', '['];
    let tail = seq!['m'];
    lemma_skip_code(code);
    reveal_with_fuel(strip_from, 3);
    reveal_with_fuel(inside_after, 3);
    assert(head.drop_first() =~= seq!['[']);
    assert(seq!['['].drop_first() =~= Seq::<char>::empty());
    assert(strip_from(seq!['['], true) == Seq::<char>::empty());
    assert(strip_from(head, false) == Seq::<char>::empty());
    assert(inside_after(head, false));
    lemma_strip_concat(head, code, false);
    assert(tail.drop_first() =~= Seq::<char>::empty());
    lemma_strip_concat(head + code, tail, false);
    assert(sgr(code) == head + code + tail);
}

proof fn lemma_strips_paint(code: Seq<char>, t: Seq<char>)
    requires
        forall|i: int| 0 <= i < code.len() ==> code[i] != 'm',
        escape_free(t),
    ensures
        strips_to(paint(true, code, t), t),
{
    lemma_strips_sgr(code);
    lemma_strips_sgr(seq!['0']);
    lemma_strips_free(t);
    lemma_strips_concat(sgr(code), Seq::empty(), t, t);
    assert(Seq::<char>::empty() + t =~= t);
    lemma_strips_concat(sgr(code) + t, t, sgr(seq!['0']), Seq::empty());
    assert(t + Seq::<char>::empty() =~= t);
}

proof fn lemma_codes_without_m(level: Severity)
    ensures
        forall|i: int| 0 <= i < accent().len() ==> accent()[i] != 'm',
        forall|i: int| 0 <= i < severity_code(level).len() ==> severity_code(level)[i] != 'm',
{
}

proof fn lemma_gutter_strips(gw: nat)
    ensures
        strips_to(gutter_in(gw, true), gutter_in(gw, false)),
{
    lemma_no_escape_covers();
    lemma_codes_without_m(Severity::Error);
    lemma_repeat_drawn(' ', gw, no_escape());
    let a = repeat_char(' ', gw) + seq![' '];
    lemma_concat_drawn(repeat_char(' ', gw), seq![' '], no_escape());
    lemma_strips_free(a);
    lemma_strips_paint(accent(), seq!['|']);
    lemma_strips_concat(a, a, paint(true, accent(), seq!['|']), seq!['|']);
}

proof fn lemma_mark_strips(m: MarkView, gw: nat, level: Severity)
    requires
        message_drawn(m, no_escape()),
    ensures
        strips_to(mark_in(m, gw, true, level), mark_in(m, gw, false, level)),
{
    lemma_no_escape_covers();
    lemma_codes_without_m(level);
    lemma_gutter_strips(gw);
    let lead = seq![' '] + repeat_char(' ', m.lead);
    lemma_repeat_drawn(' ', m.lead, no_escape());
    lemma_concat_drawn(seq![' '], repeat_char(' ', m.lead), no_escape());
    lemma_strips_free(lead);
    let marker = if m.primary {
        '^'
    } else {
        '-'
    };
    let tail = match m.message {
        Some(msg) => seq![' '] + msg,
        None => Seq::empty(),
    };
    if let Some(msg) = m.message {
        lemma_concat_drawn(seq![' '], msg, no_escape());
    }
    lemma_repeat_drawn(marker, m.width, no_escape());
    let body = repeat_char(marker, m.width) + tail;
    lemma_concat_drawn(repeat_char(marker, m.width), tail, no_escape());
    let code = if m.primary {
        severity_code(level)
    } else {
        accent()
    };
    lemma_strips_paint(code, body);
    lemma_strips_free(seq!['\n']);
    lemma_strips_concat(gutter_in(gw, true), gutter_in(gw, false), lead, lead);
    lemma_strips_concat(
        gutter_in(gw, true) + lead,
        gutter_in(gw, false) + lead,
        paint(true, code, body),
        body,
    );
    lemma_strips_concat(
        gutter_in(gw, true) + lead + paint(true, code, body),
        gutter_in(gw, false) + lead + body,
        seq!['\n'],
        seq!['\n'],
    );
    assert(mark_in(m, gw, true, level) =~= gutter_in(gw, true) + lead + paint(true, code, body)
        + seq!['\n']);
    assert(mark_in(m, gw, false, level) =~= gutter_in(gw, false) + lead + body + seq!['\n']);
}

proof fn lemma_row_strips(row: Seq<MarkView>, gw: nat, level: Severity)
    requires
        messages_drawn(row, no_escape()),
    ensures
        strips_to(row_in(row, gw, true, level), row_in(row, gw, false, level)),
    decreases row.len(),
{
    if row.len() == 0 {
        lemma_strips_free(Seq::empty());
    } else {
        let prev = row.drop_last();
        assert forall|k: int| 0 <= k < prev.len() implies message_drawn(#[trigger] prev[k], no_escape()) by {
            assert(prev[k] == row[k]);
        }
        lemma_row_strips(prev, gw, level);
        assert(message_drawn(row[row.len() - 1], no_escape()));
        lemma_mark_strips(row.last(), gw, level);
        lemma_strips_concat(
            row_in(prev, gw, true, level),
            row_in(prev, gw, false, level),
            mark_in(row.last(), gw, true, level),
            mark_in(row.last(), gw, false, level),
        );
    }
}

proof fn lemma_numbered_strips(text: Seq<char>, line: u32, gw: nat)
    requires
        escape_free(text),
    ensures
        strips_to(numbered_in(encode_utf8(text), line, gw, true), numbered_in(encode_utf8(text), line, gw, false)),
{
    lemma_no_escape_covers();
    let bytes = encode_utf8(text);
    lemma_codes_without_m(Severity::Error);
    lemma_right_aligned_drawn(line as nat, gw, no_escape());
    let num = right_aligned(line as nat, gw);
    lemma_strips_paint(accent(), num);
    lemma_strips_paint(accent(), seq!['|']);
    lemma_line_chars_drawn(text, line, no_escape());
    lemma_expanded_drawn(line_chars(bytes, line), no_escape());
    let e = seq![' '] + expanded(line_chars(bytes, line)) + seq!['\n'];
    lemma_concat_drawn(seq![' '], expanded(line_chars(bytes, line)), no_escape());
    lemma_concat_drawn(seq![' '] + expanded(line_chars(bytes, line)), seq!['\n'], no_escape());
    lemma_strips_free(e);
    lemma_strips_free(seq![' ']);
    lemma_strips_concat(paint(true, accent(), num), num, seq![' '], seq![' ']);
    lemma_strips_concat(
        paint(true, accent(), num) + seq![' '],
        num + seq![' '],
        paint(true, accent(), seq!['|']),
        seq!['|'],
    );
    lemma_strips_concat(
        paint(true, accent(), num) + seq![' '] + paint(true, accent(), seq!['|']),
        num + seq![' '] + seq!['|'],
        e,
        e,
    );
    assert(numbered_in(bytes, line, gw, true) =~= paint(true, accent(), num) + seq![' '] + paint(
        true,
        accent(),
        seq!['|'],
    ) + e);
    assert(numbered_in(bytes, line, gw, false) =~= num + seq![' '] + seq!['|'] + e);
}

proof fn lemma_lines_strips(
    text: Seq<char>,
    marks: Seq<MarkView>,
    lines: Seq<u32>,
    gw: nat,
    level: Severity,
)
    requires
        escape_free(text),
        messages_drawn(marks, no_escape()),
    ensures
        strips_to(
            lines_block_in(encode_utf8(text), marks, lines, gw, true, level),
            lines_block_in(encode_utf8(text), marks, lines, gw, false, level),
        ),
    decreases lines.len(),
{
    let bytes = encode_utf8(text);
    if lines.len() == 0 {
        lemma_strips_free(Seq::empty());
    } else {
        lemma_lines_strips(text, marks, lines.drop_last(), gw, level);
        let line = lines.last();
        lemma_numbered_strips(text, line, gw);
        let row = line_row(marks, line);
        law_row_stacks_left_to_right(marks, line);
        assert forall|k: int| 0 <= k < row.len() implies message_drawn(#[trigger] row[k], no_escape()) by {
            assert(row.contains(row[k]));
            let q = choose|q: int| 0 <= q < marks.len() && marks[q] == row[k];
            assert(marks[q].message == row[k].message);
        }
        lemma_row_strips(row, gw, level);
        lemma_strips_concat(
            numbered_in(bytes, line, gw, true),
            numbered_in(bytes, line, gw, false),
            row_in(row, gw, true, level),
            row_in(row, gw, false, level),
        );
        lemma_strips_concat(
            lines_block_in(bytes, marks, lines.drop_last(), gw, true, level),
            lines_block_in(bytes, marks, lines.drop_last(), gw, false, level),
            crate::render::line_block_in(bytes, marks, line, gw, true, level),
            crate::render::line_block_in(bytes, marks, line, gw, false, level),
        );
    }
}

proof fn lemma_location_strips(name: Seq<char>, line: u32, col: u32, gw: nat)
    requires
        escape_free(name),
    ensures
        strips_to(location_in(name, line, col, gw, true), location_in(name, line, col, gw, false)),
{
    lemma_no_escape_covers();
    lemma_codes_without_m(Severity::Error);
    lemma_repeat_drawn(' ', gw, no_escape());
    lemma_strips_free(repeat_char(' ', gw));
    lemma_strips_paint(accent(), seq!['-', '-', '>']);
    lemma_decimal_drawn(line as nat, no_escape());
    lemma_decimal_drawn(col as nat, no_escape());
    let mid = seq![' '] + name + seq![':'] + decimal(line as nat) + seq![':'] + decimal(col as nat)
        + seq!['\n'];
    lemma_concat_drawn(seq![' '], name, no_escape());
    lemma_concat_drawn(seq![' '] + name, seq![':'], no_escape());
    lemma_concat_drawn(seq![' '] + name + seq![':'], decimal(line as nat), no_escape());
    lemma_concat_drawn(seq![' '] + name + seq![':'] + decimal(line as nat), seq![':'], no_escape());
    lemma_concat_drawn(
        seq![' '] + name + seq![':'] + decimal(line as nat) + seq![':'],
        decimal(col as nat),
        no_escape(),
    );
    lemma_concat_drawn(
        seq![' '] + name + seq![':'] + decimal(line as nat) + seq![':'] + decimal(col as nat),
        seq!['\n'],
        no_escape(),
    );
    lemma_strips_free(mid);
    lemma_gutter_strips(gw);
    lemma_strips_free(seq!['\n']);
    let sp = repeat_char(' ', gw);
    let arrow = paint(true, accent(), seq!['-', '-', '>']);
    lemma_strips_concat(sp, sp, arrow, seq!['-', '-', '>']);
    lemma_strips_concat(sp + arrow, sp + seq!['-', '-', '>'], mid, mid);
    lemma_strips_concat(
        sp + arrow + mid,
        sp + seq!['-', '-', '>'] + mid,
        gutter_in(gw, true),
        gutter_in(gw, false),
    );
    lemma_strips_concat(
        sp + arrow + mid + gutter_in(gw, true),
        sp + seq!['-', '-', '>'] + mid + gutter_in(gw, false),
        seq!['\n'],
        seq!['\n'],
    );
    assert(location_in(name, line, col, gw, true) =~= sp + arrow + mid + gutter_in(gw, true)
        + seq!['\n']);
    assert(location_in(name, line, col, gw, false) =~= sp + seq!['-', '-', '>'] + mid + gutter_in(
        gw,
        false,
    ) + seq!['\n']);
}

proof fn lemma_frame_strips(
    name: Seq<char>,
    text: Seq<char>,
    base: int,
    id: int,
    placed: Seq<Placed>,
    level: Severity,
)
    requires
        escape_free(name),
        escape_free(text),
        placed_drawn(placed, no_escape()),
    ensures
        strips_to(
            frame_in(name, text, base, id, placed, true, level),
            frame_in(name, text, base, id, placed, false, level),
        ),
{
    lemma_no_escape_covers();
    reveal(frame_in);
    let bytes = encode_utf8(text);
    let marks = frame_marks(bytes, base, id, placed);
    lemma_frame_marks_drawn(bytes, base, id, placed, no_escape());
    match crate::render::frame_anchor(bytes, base, id, placed).0 {
        None => {
            lemma_strips_free(Seq::empty());
        },
        Some((line, col)) => {
            let lines = crate::render::marked_lines(marks);
            let max_line = if lines.len() > 0 {
                lines.last()
            } else {
                line
            };
            let gw = decimal(max_line as nat).len();
            lemma_location_strips(name, line, col, gw);
            lemma_lines_strips(text, marks, lines, gw, level);
            lemma_gutter_strips(gw);
            lemma_strips_free(seq!['\n']);
            let l1 = location_in(name, line, col, gw, true);
            let l0 = location_in(name, line, col, gw, false);
            let b1 = lines_block_in(bytes, marks, lines, gw, true, level);
            let b0 = lines_block_in(bytes, marks, lines, gw, false, level);
            lemma_strips_concat(l1, l0, b1, b0);
            lemma_strips_concat(l1 + b1, l0 + b0, gutter_in(gw, true), gutter_in(gw, false));
            lemma_strips_concat(
                l1 + b1 + gutter_in(gw, true),
                l0 + b0 + gutter_in(gw, false),
                seq!['\n'],
                seq!['\n'],
            );
        },
    }
}

proof fn lemma_frames_strips(
    srcs: Seq<(Seq<char>, Seq<char>)>,
    placed: Seq<Placed>,
    ids: Seq<int>,
    level: Severity,
)
    requires
        forall|k: int|
            0 <= k < srcs.len() ==> escape_free((#[trigger] srcs[k]).0) && escape_free(srcs[k].1),
        forall|k: int| 0 <= k < ids.len() ==> 0 <= #[trigger] ids[k] < srcs.len(),
        placed_drawn(placed, no_escape()),
    ensures
        strips_to(frames_in(srcs, placed, ids, true, level), frames_in(srcs, placed, ids, false, level)),
    decreases ids.len(),
{
    if ids.len() == 0 {
        lemma_strips_free(Seq::empty());
    } else {
        let prev = ids.drop_last();
        assert forall|k: int| 0 <= k < prev.len() implies 0 <= #[trigger] prev[k] < srcs.len() by {
            assert(prev[k] == ids[k]);
        }
        lemma_frames_strips(srcs, placed, prev, level);
        let id = ids.last();
        assert(id == ids[ids.len() - 1]);
        let base = crate::sources::source_base(srcs, id);
        lemma_frame_strips(srcs[id].0, srcs[id].1, base, id, placed, level);
        lemma_strips_concat(
            frames_in(srcs, placed, prev, true, level),
            frames_in(srcs, placed, prev, false, level),
            frame_in(srcs[id].0, srcs[id].1, base, id, placed, true, level),
            frame_in(srcs[id].0, srcs[id].1, base, id, placed, false, level),
        );
    }
}

proof fn lemma_equals_strips(kind: Seq<char>, rest: Seq<char>)
    requires
        escape_free(kind),
        escape_free(rest),
    ensures
        strips_to(
            seq![' '] + paint(true, accent(), seq!['=']) + kind + rest,
            seq![' '] + paint(false, accent(), seq!['=']) + kind + rest,
        ),
{
    lemma_no_escape_covers();
    lemma_codes_without_m(Severity::Error);
    lemma_strips_free(seq![' ']);
    lemma_strips_paint(accent(), seq!['=']);
    lemma_concat_drawn(kind, rest, no_escape());
    lemma_strips_free(kind + rest);
    lemma_strips_concat(seq![' '], seq![' '], paint(true, accent(), seq!['=']), seq!['=']);
    lemma_strips_concat(
        seq![' '] + paint(true, accent(), seq!['=']),
        seq![' '] + seq!['='],
        kind + rest,
        kind + rest,
    );
    assert(seq![' '] + paint(true, accent(), seq!['=']) + kind + rest =~= seq![' '] + paint(
        true,
        accent(),
        seq!['='],
    ) + (kind + rest));
    assert(seq![' '] + paint(false, accent(), seq!['=']) + kind + rest =~= seq![' '] + seq!['=']
        + (kind + rest));
}

proof fn lemma_strays_strips(labels: Seq<LabelParts>)
    ensures
        strips_to(stray_notes_in(labels, true), stray_notes_in(labels, false)),
    decreases labels.len(),
{
    lemma_no_escape_covers();
    if labels.len() == 0 {
        lemma_strips_free(Seq::empty());
    } else {
        lemma_strays_strips(labels.drop_last());
        let label = labels.last();
        reveal_strlit(" note: span ");
        reveal_strlit(" is outside the loaded sources");
        lemma_decimal_drawn(label.0.lo() as nat, no_escape());
        lemma_decimal_drawn(label.0.hi() as nat, no_escape());
        let a = " note: span "@;
        let lo = decimal(label.0.lo() as nat);
        let hi = decimal(label.0.hi() as nat);
        let z = " is outside the loaded sources"@;
        let rest = lo + seq!['.', '.'] + hi + z + seq!['\n'];
        lemma_concat_drawn(lo, seq!['.', '.'], no_escape());
        lemma_concat_drawn(lo + seq!['.', '.'], hi, no_escape());
        lemma_concat_drawn(lo + seq!['.', '.'] + hi, z, no_escape());
        lemma_concat_drawn(lo + seq!['.', '.'] + hi + z, seq!['\n'], no_escape());
        lemma_equals_strips(a, rest);
        assert(stray_note_in(label, true) =~= seq![' '] + paint(true, accent(), seq!['=']) + a
            + rest);
        assert(stray_note_in(label, false) =~= seq![' '] + paint(false, accent(), seq!['=']) + a
            + rest);
        lemma_strips_concat(
            stray_notes_in(labels.drop_last(), true),
            stray_notes_in(labels.drop_last(), false),
            stray_note_in(label, true),
            stray_note_in(label, false),
        );
    }
}

proof fn lemma_trailing_strips(kind: Seq<char>, lines: Seq<Seq<char>>)
    requires
        escape_free(kind),
        forall|k: int| 0 <= k < lines.len() ==> escape_free(#[trigger] lines[k]),
    ensures
        strips_to(trailing_in(kind, lines, true), trailing_in(kind, lines, false)),
    decreases lines.len(),
{
    lemma_no_escape_covers();
    if lines.len() == 0 {
        lemma_strips_free(Seq::empty());
    } else {
        let prev = lines.drop_last();
        assert forall|k: int| 0 <= k < prev.len() implies escape_free(#[trigger] prev[k]) by {
            assert(prev[k] == lines[k]);
        }
        lemma_trailing_strips(kind, prev);
        let last = lines[lines.len() - 1];
        let rest = last + seq!['\n'];
        lemma_concat_drawn(last, seq!['\n'], no_escape());
        lemma_equals_strips(kind, rest);
        let t1 = trailing_in(kind, prev, true);
        let t0 = trailing_in(kind, prev, false);
        let e1 = seq![' '] + paint(true, accent(), seq!['=']) + kind + rest;
        let e0 = seq![' '] + paint(false, accent(), seq!['=']) + kind + rest;
        lemma_strips_concat(t1, t0, e1, e0);
        assert(trailing_in(kind, lines, true) =~= t1 + e1);
        assert(trailing_in(kind, lines, false) =~= t0 + e0);
    }
}

proof fn lemma_header_strips(d: DiagnosticView)
    requires
        escape_free(d.message),
    ensures
        strips_to(header_in(d, true), header_in(d, false)),
{
    lemma_no_escape_covers();
    lemma_codes_without_m(d.severity);
    lemma_word_drawn(d.severity, no_escape());
    let word = severity_word(d.severity);
    lemma_strips_paint(severity_code(d.severity), word);
    let rest = seq![':', ' '] + d.message + seq!['\n'];
    lemma_concat_drawn(seq![':', ' '], d.message, no_escape());
    lemma_concat_drawn(seq![':', ' '] + d.message, seq!['\n'], no_escape());
    lemma_strips_free(rest);
    lemma_strips_concat(paint(true, severity_code(d.severity), word), word, rest, rest);
    assert(header_in(d, true) =~= paint(true, severity_code(d.severity), word) + rest);
    assert(header_in(d, false) =~= word + rest);
}

proof fn lemma_closing_strips(d: DiagnosticView, srcs: Seq<(Seq<char>, Seq<char>)>)
    requires
        forall|k: int| 0 <= k < d.notes.len() ==> escape_free(#[trigger] d.notes[k]),
        forall|k: int| 0 <= k < d.help.len() ==> escape_free(#[trigger] d.help[k]),
    ensures
        strips_to(closing_in(d, srcs, true), closing_in(d, srcs, false)),
{
    let labels = labels_of(d);
    lemma_strays_strips(stray_labels(srcs, labels));
    reveal_strlit(" note: ");
    reveal_strlit(" help: ");
    lemma_trailing_strips(" note: "@, d.notes);
    lemma_trailing_strips(" help: "@, d.help);
    let s1 = stray_notes_in(stray_labels(srcs, labels), true);
    let s0 = stray_notes_in(stray_labels(srcs, labels), false);
    let n1 = trailing_in(" note: "@, d.notes, true);
    let n0 = trailing_in(" note: "@, d.notes, false);
    let p1 = trailing_in(" help: "@, d.help, true);
    let p0 = trailing_in(" help: "@, d.help, false);
    lemma_strips_concat(s1, s0, n1, n0);
    lemma_strips_concat(s1 + n1, s0 + n0, p1, p0);
}

/// Styling only adds: where the headline, the labels' messages, the notes,
/// the help lines and the sources' names and texts hold no escape character,
/// taking every escape sequence out of the styled rendering gives the plain
/// rendering back, character for character.
pub proof fn law_stripping_styles_gives_plain(d: DiagnosticView, srcs: Seq<(Seq<char>, Seq<char>)>)
    requires
        escape_free(d.message),
        escape_free(d.primary.1),
        forall|k: int| 0 <= k < d.secondary.len() ==> escape_free((#[trigger] d.secondary[k]).1),
        forall|k: int| 0 <= k < d.notes.len() ==> escape_free(#[trigger] d.notes[k]),
        forall|k: int| 0 <= k < d.help.len() ==> escape_free(#[trigger] d.help[k]),
        forall|k: int|
            0 <= k < srcs.len() ==> escape_free((#[trigger] srcs[k]).0) && escape_free(srcs[k].1),
    ensures
        strip_styles(styled(d, srcs, true)) == rendered(d, srcs),
{
    lemma_no_escape_covers();
    let labels = labels_of(d);
    assert forall|k: int| 0 <= k < labels.len() implies escape_free((#[trigger] labels[k]).1.1) by {
        if k > 0 {
            assert(labels[k].1 == d.secondary[k - 1]);
        }
    }
    let placed = placed_labels(srcs, labels);
    lemma_placed_drawn(srcs, labels, no_escape());
    let first = crate::render::primary_source(srcs, d);
    let ids = crate::render::frame_order(placed, first, srcs.len() as int);
    crate::properties::law_frames_primary_first_then_map_order(placed, first, srcs.len() as int);
    crate::render::lemma_located_index(srcs, d.primary.0.lo() as int);
    assert forall|k: int| 0 <= k < ids.len() implies 0 <= #[trigger] ids[k] < srcs.len() by {
        let later = crate::render::later_frames(placed, first, srcs.len() as int);
        match first {
            Some(p) => {
                if k > 0 {
                    assert(ids[k] == later[k - 1]);
                }
            },
            None => {
                assert(ids[k] == later[k]);
            },
        }
    }
    lemma_header_strips(d);
    lemma_frames_strips(srcs, placed, ids, d.severity);
    lemma_closing_strips(d, srcs);
    let f1 = frames_in(srcs, placed, ids, true, d.severity);
    let f0 = frames_in(srcs, placed, ids, false, d.severity);
    lemma_strips_concat(header_in(d, true), header_in(d, false), f1, f0);
    lemma_strips_concat(
        header_in(d, true) + f1,
        header_in(d, false) + f0,
        closing_in(d, srcs, true),
        closing_in(d, srcs, false),
    );
    lemma_styled_parts(d, srcs, true);
    lemma_styled_parts(d, srcs, false);
    law_unstyled_is_plain(d, srcs);
}

} // verus!
