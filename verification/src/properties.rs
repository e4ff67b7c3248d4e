//! What every rendering guarantees, whatever the diagnostic and the sources.
use vstd::prelude::*;

use crate::diagnostic::DiagnosticView;
use crate::render::{
    bytes_before, bytes_before_from, frame_order, frame_text, frames_text, has_label_in,
    insert_line, labels_of, later_frames, label_marks, last_line, frame_anchor, frame_marks,
    gutter, lines_block, location_line, numbered_line, lemma_line_slot, lemma_row_slot,
    line_chars, line_row, line_slot, local_end, local_start, mark_on, marked_lines, marks_upto,
    placed_labels, rendered, row_slot, stacks_before, stray_labels, stray_note, stray_notes,
    trailing_lines, LabelParts, MarkView, Placed,
};
use crate::severity::severity_word;
use crate::sources::{line_begin, line_col_at, line_range, line_starts, locate_in, newline_count};
use crate::text::{
    decimal, expanded, floor_to_boundary, law_expanded_fills_columns, law_expanded_keeps_prefixes,
    lemma_decimal_monotone, repeat_char, visual_columns,
};
use vstd::utf8::*;
use crate::span::Span;

verus! {

broadcast use encode_utf8_valid_utf8;

/// Text made of whole lines: empty, or ending in a newline.
pub open spec fn whole_lines(s: Seq<char>) -> bool {
    s.len() == 0 || s.last() == '\n'
}

/// The `severity: message` line every rendering opens with.
pub open spec fn header_line(d: DiagnosticView) -> Seq<char> {
    severity_word(d.severity) + seq![':', ' '] + d.message + seq!['\n']
}

proof fn lemma_whole_lines_concat(a: Seq<char>, b: Seq<char>)
    requires
        whole_lines(a),
        whole_lines(b),
    ensures
        whole_lines(a + b),
        b.len() > 0 ==> (a + b).last() == '\n',
        a.len() > 0 ==> (a + b).len() > 0 && (a + b).last() == '\n',
{
    if b.len() == 0 {
        assert(a + b =~= a);
    }
}

proof fn lemma_frames_whole(srcs: Seq<(Seq<char>, Seq<char>)>, placed: Seq<Placed>, ids: Seq<int>)
    ensures
        whole_lines(frames_text(srcs, placed, ids)),
    decreases ids.len(),
{
    if ids.len() > 0 {
        let id = ids.last();
        lemma_frames_whole(srcs, placed, ids.drop_last());
        let f = frame_text(srcs[id].0, srcs[id].1, crate::sources::source_base(srcs, id), id, placed);
        assert(whole_lines(f));
        lemma_whole_lines_concat(frames_text(srcs, placed, ids.drop_last()), f);
    }
}

proof fn lemma_strays_whole(labels: Seq<LabelParts>)
    ensures
        whole_lines(stray_notes(labels)),
    decreases labels.len(),
{
    if labels.len() > 0 {
        lemma_strays_whole(labels.drop_last());
        lemma_whole_lines_concat(stray_notes(labels.drop_last()), stray_note(labels.last()));
    }
}

proof fn lemma_trailing_whole(prefix: Seq<char>, lines: Seq<Seq<char>>)
    ensures
        whole_lines(trailing_lines(prefix, lines)),
    decreases lines.len(),
{
    if lines.len() > 0 {
        lemma_trailing_whole(prefix, lines.drop_last());
    }
}

/// Every rendering opens with the `severity: message` line and ends with a
/// newline, whatever the diagnostic and the sources.
pub proof fn law_rendering_opens_with_header_and_ends_with_newline(
    d: DiagnosticView,
    srcs: Seq<(Seq<char>, Seq<char>)>,
)
    ensures
        rendered(d, srcs).len() > 0,
        rendered(d, srcs).last() == '\n',
        rendered(d, srcs).take(header_line(d).len() as int) == header_line(d),
{
    reveal(rendered);
    let labels = labels_of(d);
    let placed = placed_labels(srcs, labels);
    let ids = frame_order(placed, crate::render::primary_source(srcs, d), srcs.len() as int);
    let h = header_line(d);
    let f = frames_text(srcs, placed, ids);
    let st = stray_notes(stray_labels(srcs, labels));
    let n = trailing_lines(" = note: "@, d.notes);
    let hp = trailing_lines(" = help: "@, d.help);
    lemma_frames_whole(srcs, placed, ids);
    lemma_strays_whole(stray_labels(srcs, labels));
    lemma_trailing_whole(" = note: "@, d.notes);
    lemma_trailing_whole(" = help: "@, d.help);
    lemma_whole_lines_concat(h, f);
    lemma_whole_lines_concat(h + f, st);
    lemma_whole_lines_concat(h + f + st, n);
    lemma_whole_lines_concat(h + f + st + n, hp);
    assert(rendered(d, srcs) =~= h + (f + st + n + hp));
    assert(rendered(d, srcs).take(h.len() as int) =~= h);
}

/// The rendering is a function of the diagnostic and the sources alone: the
/// same diagnostic against the same sources renders the same text every time.
pub proof fn law_rendering_is_deterministic(
    d1: DiagnosticView,
    d2: DiagnosticView,
    srcs1: Seq<(Seq<char>, Seq<char>)>,
    srcs2: Seq<(Seq<char>, Seq<char>)>,
)
    requires
        d1 == d2,
        srcs1 == srcs2,
    ensures
        rendered(d1, srcs1) == rendered(d2, srcs2),
{
}

proof fn lemma_nothing_placed(labels: Seq<(bool, LabelParts)>)
    ensures
        placed_labels(Seq::empty(), labels) == Seq::<Placed>::empty(),
        stray_labels(Seq::empty(), labels) == labels.map_values(|l: (bool, LabelParts)| l.1),
    decreases labels.len(),
{
    if labels.len() > 0 {
        lemma_nothing_placed(labels.drop_last());
        assert(labels.drop_last().map_values(|l: (bool, LabelParts)| l.1).push(labels.last().1)
            =~= labels.map_values(|l: (bool, LabelParts)| l.1));
    }
}

/// Against an empty map nothing can be located: the rendering is the header,
/// then a note for each label naming its span, primary first, then the note
/// and help lines.
pub proof fn law_no_sources_renders_only_notes(d: DiagnosticView)
    ensures
        rendered(d, Seq::empty()) == header_line(d) + stray_notes(
            labels_of(d).map_values(|l: (bool, LabelParts)| l.1),
        ) + trailing_lines(" = note: "@, d.notes) + trailing_lines(" = help: "@, d.help),
{
    reveal(rendered);
    let srcs = Seq::<(Seq<char>, Seq<char>)>::empty();
    lemma_nothing_placed(labels_of(d));
    assert(later_frames(Seq::<Placed>::empty(), None, 0) == Seq::<int>::empty());
    assert(locate_in(srcs, d.primary.0.lo() as int) is None);
    assert(frames_text(srcs, Seq::<Placed>::empty(), Seq::<int>::empty()) == Seq::<char>::empty());
    assert(rendered(d, srcs) =~= header_line(d) + stray_notes(
        labels_of(d).map_values(|l: (bool, LabelParts)| l.1),
    ) + trailing_lines(" = note: "@, d.notes) + trailing_lines(" = help: "@, d.help));
}

/// Frames come one per source a label lies in: the primary label's source
/// first, then every other such source once, in map order.
pub proof fn law_frames_primary_first_then_map_order(
    placed: Seq<Placed>,
    first: Option<int>,
    count: int,
)
    ensures
        first matches Some(p) ==> frame_order(placed, first, count).len() > 0 && frame_order(
            placed,
            first,
            count,
        )[0] == p,
        forall|i: int, j: int|
            0 <= i < j < later_frames(placed, first, count).len() ==> #[trigger] later_frames(
                placed,
                first,
                count,
            )[i] < #[trigger] later_frames(placed, first, count)[j],
        forall|i: int|
            0 <= i < later_frames(placed, first, count).len() ==> {
                let s = #[trigger] later_frames(placed, first, count)[i];
                &&& 0 <= s < count
                &&& has_label_in(placed, s)
                &&& first != Some(s)
            },
        forall|s: int|
            0 <= s < count && #[trigger] has_label_in(placed, s) && first != Some(s)
                ==> later_frames(placed, first, count).contains(s),
    decreases count,
{
    if count > 0 {
        law_frames_primary_first_then_map_order(placed, first, count - 1);
        let prev = later_frames(placed, first, count - 1);
        let cur = later_frames(placed, first, count);
        assert forall|s: int|
            0 <= s < count && #[trigger] has_label_in(placed, s) && first != Some(s) implies cur.contains(
            s,
        ) by {
            if s < count - 1 {
                let k = choose|k: int| 0 <= k < prev.len() && prev[k] == s;
                assert(cur[k] == s);
            } else {
                assert(cur[cur.len() - 1] == s);
            }
        }
    }
}

/// Strictly ascending.
pub open spec fn ascending(lines: Seq<u32>) -> bool {
    forall|i: int, j: int| 0 <= i < j < lines.len() ==> #[trigger] lines[i] < #[trigger] lines[j]
}

proof fn lemma_insert_line(lines: Seq<u32>, l: u32)
    requires
        ascending(lines),
    ensures
        ascending(insert_line(lines, l)),
        forall|x: u32| #[trigger] insert_line(lines, l).contains(x) <==> (lines.contains(x) || x == l),
{
    lemma_line_slot(lines, l, 0);
    let k = line_slot(lines, l);
    let r = insert_line(lines, l);
    if k < lines.len() && lines[k] == l {
    } else {
        assert forall|x: u32| #[trigger] r.contains(x) <==> (lines.contains(x) || x == l) by {
            if r.contains(x) {
                let i = choose|i: int| 0 <= i < r.len() && r[i] == x;
                if i < k {
                    assert(lines[i] == x);
                } else if i > k {
                    assert(lines[i - 1] == x);
                }
            }
            if lines.contains(x) {
                let i = choose|i: int| 0 <= i < lines.len() && lines[i] == x;
                if i < k {
                    assert(r[i] == x);
                } else {
                    assert(r[i + 1] == x);
                }
            }
            if x == l {
                assert(r[k] == x);
            }
        }
    }
}

/// The lines a frame shows run top to bottom, each once: exactly the lines
/// the underlines sit on, whatever order the labels were added in.
pub proof fn law_lines_ascend_each_once(marks: Seq<MarkView>)
    ensures
        ascending(marked_lines(marks)),
        forall|l: u32|
            #[trigger] marked_lines(marks).contains(l) <==> exists|k: int|
                0 <= k < marks.len() && #[trigger] marks[k].line == l,
    decreases marks.len(),
{
    if marks.len() > 0 {
        let prev = marks.drop_last();
        law_lines_ascend_each_once(prev);
        lemma_insert_line(marked_lines(prev), marks.last().line);
        assert forall|l: u32|
            #[trigger] marked_lines(marks).contains(l) <==> exists|k: int|
                0 <= k < marks.len() && #[trigger] marks[k].line == l by {
            if marked_lines(marks).contains(l) {
                if marked_lines(prev).contains(l) {
                    let k = choose|k: int| 0 <= k < prev.len() && #[trigger] prev[k].line == l;
                    assert(marks[k].line == l);
                } else {
                    assert(marks[marks.len() - 1].line == l);
                }
            }
            if exists|k: int| 0 <= k < marks.len() && #[trigger] marks[k].line == l {
                let k = choose|k: int| 0 <= k < marks.len() && #[trigger] marks[k].line == l;
                if k < marks.len() - 1 {
                    assert(prev[k].line == l);
                }
            }
        }
    }
}

/// The order underlines stack in: column first, then primary ahead of
/// secondary.
pub open spec fn stack_key(m: MarkView) -> int {
    2 * m.lead + if m.primary {
        0int
    } else {
        1int
    }
}

proof fn lemma_bytes_before_irreflexive(p: Seq<u8>, i: int)
    ensures
        !bytes_before_from(p, p, i),
    decreases p.len() - i,
{
    if i < p.len() {
        lemma_bytes_before_irreflexive(p, i + 1);
    }
}

proof fn lemma_bytes_before_asymmetric(p: Seq<u8>, q: Seq<u8>, i: int)
    requires
        bytes_before_from(p, q, i),
    ensures
        !bytes_before_from(q, p, i),
    decreases p.len() - i,
{
    if i < p.len() && i < q.len() && p[i] == q[i] {
        lemma_bytes_before_asymmetric(p, q, i + 1);
    }
}

proof fn lemma_bytes_before_transitive(p: Seq<u8>, q: Seq<u8>, r: Seq<u8>, i: int)
    requires
        bytes_before_from(p, q, i),
        bytes_before_from(q, r, i),
    ensures
        bytes_before_from(p, r, i),
    decreases p.len() - i,
{
    if i < p.len() && i < q.len() && i < r.len() && p[i] == q[i] && q[i] == r[i] {
        lemma_bytes_before_transitive(p, q, r, i + 1);
    }
}

proof fn lemma_bytes_before_total(p: Seq<u8>, q: Seq<u8>, i: int)
    requires
        0 <= i <= p.len(),
        i <= q.len(),
        forall|j: int| 0 <= j < i ==> p[j] == q[j],
        p != q,
    ensures
        bytes_before_from(p, q, i) || bytes_before_from(q, p, i),
    decreases p.len() - i,
{
    if i == p.len() && i == q.len() {
        assert(p =~= q);
    } else if i < p.len() && i < q.len() && p[i] == q[i] {
        lemma_bytes_before_total(p, q, i + 1);
    }
}

/// Stacking is a strict order, and a total one on the underlines of a line:
/// two different underlines on one line always stack one way round.
pub proof fn law_stacking_is_a_total_order(a: MarkView, b: MarkView, c: MarkView)
    ensures
        !stacks_before(a, a),
        stacks_before(a, b) ==> !stacks_before(b, a),
        stacks_before(a, b) && stacks_before(b, c) ==> stacks_before(a, c),
        a.line == b.line && a != b ==> stacks_before(a, b) || stacks_before(b, a),
{
    broadcast use encode_utf8_decode_utf8;

    reveal(stacks_before);
    if let Some(p) = a.message {
        lemma_bytes_before_irreflexive(encode_utf8(p), 0);
    }
    if stacks_before(a, b) {
        if let (Some(p), Some(q)) = (a.message, b.message) {
            if bytes_before(encode_utf8(p), encode_utf8(q)) {
                lemma_bytes_before_asymmetric(encode_utf8(p), encode_utf8(q), 0);
            }
        }
    }
    if stacks_before(a, b) && stacks_before(b, c) {
        if let (Some(p), Some(q), Some(r)) = (a.message, b.message, c.message) {
            if bytes_before(encode_utf8(p), encode_utf8(q)) && bytes_before(
                encode_utf8(q),
                encode_utf8(r),
            ) {
                lemma_bytes_before_transitive(encode_utf8(p), encode_utf8(q), encode_utf8(r), 0);
            }
        }
    }
    if a.line == b.line && a != b {
        if let (Some(p), Some(q)) = (a.message, b.message) {
            if p != q {
                assert(decode_utf8(encode_utf8(p)) == p);
                assert(decode_utf8(encode_utf8(q)) == q);
                lemma_bytes_before_total(encode_utf8(p), encode_utf8(q), 0);
            }
        }
    }
}

/// No underline of `row` stacks before one above it.
pub open spec fn stacked(row: Seq<MarkView>) -> bool {
    forall|i: int, j: int|
        0 <= i < j < row.len() ==> !stacks_before(#[trigger] row[j], #[trigger] row[i])
}

/// Inserting an underline where it stacks keeps a row stacked.
proof fn lemma_insert_keeps_stacked(row: Seq<MarkView>, m: MarkView)
    requires
        stacked(row),
    ensures
        stacked(row.insert(row_slot(row, m), m)),
{
    lemma_row_slot(row, m, 0);
    let k = row_slot(row, m);
    let r = row.insert(k, m);
    assert forall|i: int, j: int| 0 <= i < j < r.len() implies !stacks_before(
        #[trigger] r[j],
        #[trigger] r[i],
    ) by {
        if j < k {
            assert(r[i] == row[i] && r[j] == row[j]);
        } else if j == k {
            assert(r[i] == row[i]);
        } else if i == k {
            assert(r[j] == row[j - 1]);
            law_stacking_is_a_total_order(m, row[k], row[k]);
            law_stacking_is_a_total_order(row[j - 1], m, row[k]);
            if j - 1 > k {
                assert(!stacks_before(row[j - 1], row[k]));
            }
        } else if i < k {
            assert(r[i] == row[i] && r[j] == row[j - 1]);
        } else {
            assert(r[i] == row[i - 1] && r[j] == row[j - 1]);
        }
    }
}

/// A line's row is stacked.
proof fn lemma_row_stacked(marks: Seq<MarkView>, line: u32)
    ensures
        stacked(line_row(marks, line)),
    decreases marks.len(),
{
    if marks.len() > 0 {
        lemma_row_stacked(marks.drop_last(), line);
        if marks.last().line == line {
            lemma_insert_keeps_stacked(line_row(marks.drop_last(), line), marks.last());
        }
    }
}

/// In a stacked row the columns never go back, and at one column the primary
/// label's underline comes first.
proof fn lemma_stacked_keys(row: Seq<MarkView>)
    requires
        stacked(row),
    ensures
        forall|i: int, j: int|
            0 <= i < j < row.len() ==> stack_key(#[trigger] row[i]) <= stack_key(#[trigger] row[j]),
{
    assert forall|i: int, j: int| 0 <= i < j < row.len() implies stack_key(#[trigger] row[i])
        <= stack_key(#[trigger] row[j]) by {
        assert(!stacks_before(row[j], row[i]));
        reveal(stacks_before);
    }
}

/// Underlines stack left to right, the primary label's ahead of a secondary
/// one at the same column, then the narrower first, then by message: no
/// underline of the row stacks before one above it, and the row holds exactly
/// the underlines on its line, each as often as it occurs.
pub proof fn law_row_stacks_left_to_right(marks: Seq<MarkView>, line: u32)
    ensures
        stacked(line_row(marks, line)),
        forall|i: int, j: int|
            0 <= i < j < line_row(marks, line).len() ==> stack_key(
                #[trigger] line_row(marks, line)[i],
            ) <= stack_key(#[trigger] line_row(marks, line)[j]),
        forall|m: MarkView|
            #[trigger] line_row(marks, line).contains(m) <==> (marks.contains(m) && m.line == line),
    decreases marks.len(),
{
    lemma_row_stacked(marks, line);
    lemma_stacked_keys(line_row(marks, line));
    if marks.len() > 0 {
        let prev = marks.drop_last();
        law_row_stacks_left_to_right(prev, line);
        let row = line_row(prev, line);
        let m = marks.last();
        if m.line == line {
            lemma_row_slot(row, m, 0);
            let k = row_slot(row, m);
            let r = row.insert(k, m);
            assert(line_row(marks, line) == r);
            assert forall|x: MarkView| #[trigger] r.contains(x) <==> (marks.contains(x) && x.line
                == line) by {
                if r.contains(x) {
                    let i = choose|i: int| 0 <= i < r.len() && r[i] == x;
                    if i == k {
                        assert(marks[marks.len() - 1] == x);
                    } else {
                        if i < k {
                            assert(row[i] == x);
                        } else {
                            assert(row[i - 1] == x);
                        }
                        assert(row.contains(x));
                        let q = choose|q: int| 0 <= q < prev.len() && prev[q] == x;
                        assert(marks[q] == x);
                    }
                }
                if marks.contains(x) && x.line == line {
                    let q = choose|q: int| 0 <= q < marks.len() && marks[q] == x;
                    if q < marks.len() - 1 {
                        assert(prev[q] == x);
                        assert(prev.contains(x));
                        assert(row.contains(x));
                        let i = choose|i: int| 0 <= i < row.len() && row[i] == x;
                        if i < k {
                            assert(r[i] == x);
                        } else {
                            assert(r[i + 1] == x);
                        }
                    } else {
                        assert(r[k] == x);
                    }
                }
            }
        } else {
            assert forall|x: MarkView| #[trigger] row.contains(x) <==> (marks.contains(x) && x.line
                == line) by {
                if row.contains(x) {
                    let q = choose|q: int| 0 <= q < prev.len() && prev[q] == x;
                    assert(marks[q] == x);
                }
                if marks.contains(x) && x.line == line {
                    let q = choose|q: int| 0 <= q < marks.len() && marks[q] == x;
                    assert(q < marks.len() - 1);
                    assert(prev[q] == x);
                }
            }
        }
    }
}

/// Text without a line break.
pub open spec fn single_line(bytes: Seq<u8>) -> bool {
    forall|i: int| 0 <= i < bytes.len() ==> bytes[i] != 10
}

proof fn lemma_single_line_positions(bytes: Seq<u8>, x: int)
    requires
        single_line(bytes),
        0 <= x <= bytes.len(),
    ensures
        newline_count(bytes.take(x)) == 0,
        line_begin(bytes, x) == 0,
    decreases x,
{
    if x > 0 {
        lemma_single_line_positions(bytes, x - 1);
        assert(bytes.take(x).drop_last() =~= bytes.take(x - 1));
    }
}

proof fn lemma_single_line_starts(bytes: Seq<u8>)
    requires
        single_line(bytes),
    ensures
        line_starts(bytes) == seq![0int],
    decreases bytes.len(),
{
    if bytes.len() > 0 {
        lemma_single_line_starts(bytes.drop_last());
    }
}

proof fn lemma_floor_within(bytes: Seq<u8>, idx: int)
    ensures
        0 <= floor_to_boundary(bytes, idx) <= bytes.len(),
        idx >= 0 ==> floor_to_boundary(bytes, idx) <= idx,
    decreases idx,
{
    if idx > bytes.len() {
        lemma_floor_within(bytes, bytes.len() as int);
    } else if idx > 0 {
        lemma_floor_within(bytes, idx - 1);
    }
}

proof fn lemma_columns_grow(x: Seq<char>, y: Seq<char>)
    ensures
        visual_columns(x + y) >= visual_columns(x) + y.len(),
    decreases y.len(),
{
    if y.len() > 0 {
        lemma_columns_grow(x, y.drop_last());
        assert((x + y).drop_last() =~= x + y.drop_last());
    } else {
        assert(x + y =~= x);
    }
}

/// A longer prefix ending on a character boundary is strictly wider.
proof fn lemma_prefix_wider(bytes: Seq<u8>, s: int, e: int)
    requires
        valid_utf8(bytes),
        0 <= s < e <= bytes.len(),
        is_char_boundary(bytes, s),
        is_char_boundary(bytes, e),
    ensures
        visual_columns(decode_utf8(bytes.take(e))) > visual_columns(decode_utf8(bytes.take(s))),
{
    let prefix = bytes.take(e);
    valid_utf8_split(bytes, e);
    assert(prefix =~= bytes.subrange(0, e));
    if s > 0 {
        is_char_boundary_iff_not_is_continuation_byte(bytes, s);
        is_char_boundary_iff_not_is_continuation_byte(prefix, s);
    }
    assert(is_char_boundary(prefix, s));
    decode_utf8_split(prefix, s);
    valid_utf8_split(prefix, s);
    let rest = prefix.subrange(s, e);
    assert(prefix.subrange(0, s) =~= bytes.take(s));
    assert(rest.len() > 0);
    assert(decode_utf8(rest).len() > 0);
    lemma_columns_grow(decode_utf8(bytes.take(s)), decode_utf8(rest));
}

/// On a line of its own, a label draws one underline, on line 1, as many
/// columns wide as the text it covers (tabs expanded, a multi-byte character
/// counting once) and never narrower than one column; it starts where that
/// text starts on screen and carries the label's message, if it has one.
pub proof fn law_single_line_underline_spans_its_text(
    text: Seq<char>,
    base: int,
    primary: bool,
    label: LabelParts,
)
    requires
        single_line(encode_utf8(text)),
        base <= label.0.lo() < label.0.hi() <= base + encode_utf8(text).len(),
        is_char_boundary(encode_utf8(text), label.0.lo() - base),
        is_char_boundary(encode_utf8(text), label.0.hi() - base),
    ensures
        ({
            let bytes = encode_utf8(text);
            let lead = visual_columns(decode_utf8(bytes.take(label.0.lo() - base)));
            let full = visual_columns(decode_utf8(bytes.take(label.0.hi() - base)));
            &&& full > lead
            &&& label_marks(bytes, base, primary, label) == seq![
                MarkView {
                    line: 1,
                    lead,
                    width: (full - lead) as nat,
                    primary,
                    message: if label.1.len() > 0 {
                        Some(label.1)
                    } else {
                        None
                    },
                },
            ]
        }),
{
    let bytes = encode_utf8(text);
    let s = label.0.lo() - base;
    let e = label.0.hi() - base;
    assert(local_start(label.0, base) == s);
    assert(local_end(bytes, label.0, base) == e);
    lemma_single_line_positions(bytes, s);
    assert(floor_to_boundary(bytes, s) == s);
    assert(line_col_at(bytes, s).0 == 1);
    lemma_floor_within(bytes, e - 1);
    lemma_single_line_positions(bytes, floor_to_boundary(bytes, e - 1));
    assert(line_col_at(bytes, e - 1).0 == 1);
    assert(last_line(bytes, s, e) == 1);
    lemma_single_line_starts(bytes);
    assert(line_range(bytes, 1) == Some((0int, bytes.len() as int)));
    is_char_boundary_start_end_of_seq(bytes);
    let line_text = bytes.subrange(0, bytes.len() as int);
    assert(line_text =~= bytes);
    assert(floor_to_boundary(line_text, s) == s);
    assert(floor_to_boundary(line_text, e) == e);
    lemma_prefix_wider(bytes, s, e);
    reveal(mark_on);
    let lead = visual_columns(decode_utf8(bytes.take(s)));
    let full = visual_columns(decode_utf8(bytes.take(e)));
    let expected = MarkView {
        line: 1,
        lead,
        width: (full - lead) as nat,
        primary,
        message: if label.1.len() > 0 {
            Some(label.1)
        } else {
            None
        },
    };
    assert(mark_on(bytes, s, e, 1, 1, primary, label.1) == Some(expected));
    assert(marks_upto(bytes, s, e, 1, 1, 1, primary, label.1) == Seq::<MarkView>::empty());
    assert(label_marks(bytes, base, primary, label) =~= seq![expected]);
}

proof fn lemma_marks_upto_shape(
    bytes: Seq<u8>,
    start: int,
    end: int,
    first: u32,
    upto: int,
    final_line: u32,
    primary: bool,
    message: Seq<char>,
)
    requires
        upto <= u32::MAX + 1,
    ensures
        ({
            let marks = marks_upto(bytes, start, end, first, upto, final_line, primary, message);
            &&& forall|i: int|
                0 <= i < marks.len() ==> {
                    let m = #[trigger] marks[i];
                    &&& first <= m.line < upto
                    &&& m.width >= 1
                    &&& m.primary == primary
                    &&& m.message is Some ==> m.line == final_line && m.message == Some(message)
                }
            &&& forall|i: int, j: int|
                0 <= i < j < marks.len() ==> #[trigger] marks[i].line < #[trigger] marks[j].line
        }),
    decreases upto - first,
{
    reveal(mark_on);
    if upto > first {
        lemma_marks_upto_shape(bytes, start, end, first, upto - 1, final_line, primary, message);
        let prev = marks_upto(bytes, start, end, first, upto - 1, final_line, primary, message);
        let marks = marks_upto(bytes, start, end, first, upto, final_line, primary, message);
        match mark_on(bytes, start, end, (upto - 1) as u32, final_line, primary, message) {
            Some(m) => {
                assert(marks == prev.push(m));
                assert(m.line == upto - 1);
            },
            None => {
                assert(marks == prev);
            },
        }
    }
}

/// A label underlines the lines its span touches, top to bottom, each once
/// and never narrower than one column, and only the underline on its last
/// line carries its message.
pub proof fn law_label_underlines_top_to_bottom_message_last(
    bytes: Seq<u8>,
    base: int,
    primary: bool,
    label: LabelParts,
)
    ensures
        ({
            let marks = label_marks(bytes, base, primary, label);
            let first = line_col_at(bytes, local_start(label.0, base)).0;
            let last = last_line(bytes, local_start(label.0, base), local_end(bytes, label.0, base));
            &&& forall|i: int|
                0 <= i < marks.len() ==> {
                    let m = #[trigger] marks[i];
                    &&& first <= m.line <= last
                    &&& m.width >= 1
                    &&& m.primary == primary
                    &&& m.message is Some ==> m.line == last && m.message == Some(label.1)
                }
            &&& forall|i: int, j: int|
                0 <= i < j < marks.len() ==> #[trigger] marks[i].line < #[trigger] marks[j].line
        }),
{
    let start = local_start(label.0, base);
    let end = local_end(bytes, label.0, base);
    let first = line_col_at(bytes, start).0;
    let last = last_line(bytes, start, end);
    lemma_marks_upto_shape(bytes, start, end, first, last + 1, last, primary, label.1);
}

/// Splitting valid UTF-8 in two and joining the parts keeps every boundary
/// of the second part a boundary, shifted by the length of the first.
proof fn lemma_concat_boundary(a: Seq<u8>, b: Seq<u8>, j: int)
    requires
        valid_utf8(a),
        valid_utf8(b),
        is_char_boundary(b, j),
    ensures
        is_char_boundary(a + b, a.len() + j),
    decreases a.len(),
{
    valid_utf8_concat(a, b);
    if a.len() == 0 {
        assert(a + b =~= b);
    } else {
        let n = length_of_first_scalar(a);
        assert(1 <= n <= a.len());
        let rest = pop_first_scalar(a);
        assert(rest.len() == a.len() - n);
        assert((a + b).subrange(0, n) =~= a.subrange(0, n));
        assert(length_of_first_scalar(a + b) == n);
        assert(pop_first_scalar(a + b) =~= rest + b);
        if j < 0 || j > b.len() {
            assert(!is_char_boundary(b, j));
        }
        lemma_concat_boundary(rest, b, j);
        assert(is_char_boundary(rest + b, rest.len() + j));
    }
}

/// The position just after an ASCII byte of valid UTF-8 is a character
/// boundary.
proof fn lemma_boundary_after_ascii(bytes: Seq<u8>, q: int)
    requires
        valid_utf8(bytes),
        0 <= q < bytes.len(),
        is_leading_byte_width_1(bytes[q]),
    ensures
        is_char_boundary(bytes, q + 1),
{
    is_char_boundary_iff_not_is_continuation_byte(bytes, q);
    valid_utf8_split(bytes, q);
    let a = bytes.subrange(0, q);
    let b = bytes.subrange(q, bytes.len() as int);
    assert(b[0] == bytes[q]);
    assert(length_of_first_scalar(b) == 1);
    reveal_with_fuel(is_char_boundary, 2);
    assert(is_char_boundary(b, 1));
    lemma_concat_boundary(a, b, 1);
    assert(a + b =~= bytes);
}

/// Line breaks counted in a prefix never exceed those in a longer one.
proof fn lemma_newline_count_prefix(bytes: Seq<u8>, x: int, y: int)
    requires
        0 <= x <= y <= bytes.len(),
    ensures
        newline_count(bytes.take(x)) <= newline_count(bytes.take(y)),
    decreases y - x,
{
    if x < y {
        lemma_newline_count_prefix(bytes, x, y - 1);
        assert(bytes.take(y).drop_last() =~= bytes.take(y - 1));
    }
}

/// There are no more line breaks than bytes.
proof fn lemma_newline_count_bound(bytes: Seq<u8>)
    ensures
        newline_count(bytes) <= bytes.len(),
    decreases bytes.len(),
{
    if bytes.len() > 0 {
        lemma_newline_count_bound(bytes.drop_last());
    }
}

/// Flooring onto a character boundary keeps the order of positions.
proof fn lemma_floor_monotone(bytes: Seq<u8>, x: int, y: int)
    requires
        x <= y,
    ensures
        floor_to_boundary(bytes, x) <= floor_to_boundary(bytes, y),
    decreases y,
{
    lemma_floor_within(bytes, x);
    lemma_floor_within(bytes, y);
    if y > bytes.len() {
        if x > bytes.len() {
        } else {
            lemma_floor_monotone(bytes, x, bytes.len() as int);
        }
    } else if y <= 0 {
    } else if is_char_boundary(bytes, y) {
    } else if x < y {
        lemma_floor_monotone(bytes, x, y - 1);
    }
}

/// The offsets at which lines begin: the first at `0`, each later one just
/// after a `\n`, strictly ascending, one more than there are line breaks.
proof fn lemma_line_starts_shape(bytes: Seq<u8>)
    ensures
        line_starts(bytes).len() == newline_count(bytes) + 1,
        line_starts(bytes)[0] == 0,
        forall|k: int|
            0 <= k < line_starts(bytes).len() ==> 0 <= #[trigger] line_starts(bytes)[k]
                <= bytes.len(),
        forall|k: int|
            1 <= k < line_starts(bytes).len() ==> bytes[#[trigger] line_starts(bytes)[k] - 1]
                == 10,
        forall|k: int|
            1 <= k < line_starts(bytes).len() ==> line_starts(bytes)[k - 1] < #[trigger] line_starts(
                bytes,
            )[k],
        bytes.len() > 0 && bytes.last() == 10 ==> line_starts(bytes).last() == bytes.len(),
    decreases bytes.len(),
{
    if bytes.len() > 0 {
        let prev = bytes.drop_last();
        lemma_line_starts_shape(prev);
        let ps = line_starts(prev);
        let st = line_starts(bytes);
        assert(forall|k: int| 0 <= k < ps.len() ==> #[trigger] st[k] == ps[k]);
        assert forall|k: int| 1 <= k < st.len() implies bytes[#[trigger] st[k] - 1] == 10 by {
            if k < ps.len() {
                assert(ps[k] - 1 < prev.len());
                assert(bytes[ps[k] - 1] == prev[ps[k] - 1]);
            }
        }
        assert forall|k: int| 1 <= k < st.len() implies st[k - 1] < #[trigger] st[k] by {
            if k < ps.len() {
                assert(st[k - 1] == ps[k - 1]);
            } else {
                assert(st[k - 1] == ps[k - 1]);
                assert(ps[k - 1] <= prev.len());
            }
        }
    }
}

/// Whether line `l` exists, its text bounded by character boundaries.
spec fn line_has_text(bytes: Seq<u8>, l: u32) -> bool {
    match line_range(bytes, l) {
        Some((lo, hi)) => lo <= hi && is_char_boundary(bytes, lo) && is_char_boundary(bytes, hi),
        None => false,
    }
}

/// Every line from the first to the last has its text, bounded by character
/// boundaries.
proof fn lemma_line_range_whole(bytes: Seq<u8>, l: u32)
    requires
        valid_utf8(bytes),
        1 <= l <= line_starts(bytes).len(),
    ensures
        line_has_text(bytes, l),
{
    lemma_line_starts_shape(bytes);
    is_char_boundary_start_end_of_seq(bytes);
    let starts = line_starts(bytes);
    let start = starts[l - 1];
    let end = if l < starts.len() {
        starts[l as int]
    } else {
        bytes.len() as int
    };
    if l >= 2 {
        assert(bytes[starts[l - 1] - 1] == 10);
        lemma_boundary_after_ascii(bytes, start - 1);
    }
    assert(is_char_boundary(bytes, start));
    if l < starts.len() {
        assert(start < end);
        assert(bytes[end - 1] == 10);
        lemma_boundary_after_ascii(bytes, end - 1);
    }
    assert(is_char_boundary(bytes, end));
    if end > start && bytes[end - 1] == 10 {
        is_char_boundary_iff_not_is_continuation_byte(bytes, end - 1);
        if end - 1 > start && bytes[end - 2] == 13 {
            is_char_boundary_iff_not_is_continuation_byte(bytes, end - 2);
        }
    }
}

/// On a line that has its text, a label draws an underline on that line,
/// carrying its message only on its last line.
proof fn lemma_mark_on_line(
    bytes: Seq<u8>,
    start: int,
    end: int,
    l: u32,
    final_line: u32,
    primary: bool,
    message: Seq<char>,
)
    requires
        line_has_text(bytes, l),
    ensures
        mark_on(bytes, start, end, l, final_line, primary, message) is Some,
        mark_on(bytes, start, end, l, final_line, primary, message)->0.line == l,
        mark_on(bytes, start, end, l, final_line, primary, message)->0.message == if l
            == final_line && message.len() > 0 {
            Some(message)
        } else {
            None
        },
{
    reveal(mark_on);
}

/// A label draws one underline on each line from its first to its last, in
/// order, when each of those lines has its text.
proof fn lemma_marks_upto_complete(
    bytes: Seq<u8>,
    start: int,
    end: int,
    first: u32,
    upto: int,
    final_line: u32,
    primary: bool,
    message: Seq<char>,
)
    requires
        first <= upto <= u32::MAX + 1,
        forall|l: int| first <= l < upto ==> #[trigger] line_has_text(bytes, l as u32),
    ensures
        marks_upto(bytes, start, end, first, upto, final_line, primary, message).len() == upto
            - first,
        forall|i: int|
            0 <= i < upto - first ==> #[trigger] marks_upto(
                bytes,
                start,
                end,
                first,
                upto,
                final_line,
                primary,
                message,
            )[i] == mark_on(bytes, start, end, (first + i) as u32, final_line, primary, message)->0,
    decreases upto - first,
{
    if upto > first {
        lemma_marks_upto_complete(bytes, start, end, first, upto - 1, final_line, primary, message);
        let l = (upto - 1) as u32;
        assert(line_has_text(bytes, l));
        lemma_mark_on_line(bytes, start, end, l, final_line, primary, message);
    }
}

/// A label on valid text underlines every line its span touches, from the
/// line it starts on to the line of its last byte, one underline per line in
/// order, and the underline on the last line carries the label's message,
/// if it has one.
pub proof fn law_label_underlines_every_line_it_touches(
    text: Seq<char>,
    base: int,
    primary: bool,
    label: LabelParts,
)
    requires
        encode_utf8(text).len() < u32::MAX,
    ensures
        ({
            let bytes = encode_utf8(text);
            let marks = label_marks(bytes, base, primary, label);
            let first = line_col_at(bytes, local_start(label.0, base)).0;
            let last = last_line(bytes, local_start(label.0, base), local_end(bytes, label.0, base));
            &&& 1 <= first <= last
            &&& marks.len() == last - first + 1
            &&& forall|i: int| 0 <= i < marks.len() ==> (#[trigger] marks[i]).line == first + i
            &&& marks.last().message == if label.1.len() > 0 {
                Some(label.1)
            } else {
                None
            }
        }),
{
    let bytes = encode_utf8(text);
    let start = local_start(label.0, base);
    let end = local_end(bytes, label.0, base);
    let first = line_col_at(bytes, start).0;
    let last = last_line(bytes, start, end);
    let count = line_starts(bytes).len();
    lemma_line_starts_shape(bytes);
    lemma_newline_count_bound(bytes);
    assert(bytes.take(bytes.len() as int) =~= bytes);
    lemma_floor_within(bytes, start);
    lemma_newline_count_prefix(bytes, floor_to_boundary(bytes, start), bytes.len() as int);
    assert(first == newline_count(bytes.take(floor_to_boundary(bytes, start))) + 1);
    if end > start {
        lemma_floor_within(bytes, end - 1);
        lemma_floor_monotone(bytes, start, end - 1);
        lemma_newline_count_prefix(
            bytes,
            floor_to_boundary(bytes, start),
            floor_to_boundary(bytes, end - 1),
        );
        lemma_newline_count_prefix(bytes, floor_to_boundary(bytes, end - 1), bytes.len() as int);
        assert(last == newline_count(bytes.take(floor_to_boundary(bytes, end - 1))) + 1);
    }
    assert(1 <= first <= last <= count);
    assert forall|l: int| first <= l < last + 1 implies #[trigger] line_has_text(bytes, l as u32) by {
        lemma_line_range_whole(bytes, l as u32);
    }
    lemma_marks_upto_complete(bytes, start, end, first, last + 1, last, primary, label.1);
    let marks = label_marks(bytes, base, primary, label);
    assert forall|i: int| 0 <= i < marks.len() implies (#[trigger] marks[i]).line == first + i by {
        assert(marks[i] == mark_on(bytes, start, end, (first + i) as u32, last, primary, label.1)->0);
        assert(line_has_text(bytes, (first + i) as u32));
        lemma_mark_on_line(bytes, start, end, (first + i) as u32, last, primary, label.1);
    }
    assert(marks.last() == marks[marks.len() - 1]);
    assert(marks[marks.len() - 1] == mark_on(bytes, start, end, last, last, primary, label.1)->0);
    assert(line_has_text(bytes, last));
    lemma_mark_on_line(bytes, start, end, last, last, primary, label.1);
}

/// On a line of its own, a label's underline sits under its text: of the
/// printed line (tabs expanded), the columns before the underline print
/// exactly the text before the label, and the columns through its end print
/// exactly the text through the label's end.
pub proof fn law_single_line_underline_sits_under_its_text(
    text: Seq<char>,
    base: int,
    primary: bool,
    label: LabelParts,
)
    requires
        single_line(encode_utf8(text)),
        base <= label.0.lo() < label.0.hi() <= base + encode_utf8(text).len(),
        is_char_boundary(encode_utf8(text), label.0.lo() - base),
        is_char_boundary(encode_utf8(text), label.0.hi() - base),
    ensures
        ({
            let bytes = encode_utf8(text);
            let mark = label_marks(bytes, base, primary, label)[0];
            let shown = expanded(line_chars(bytes, 1));
            &&& mark.lead + mark.width <= shown.len()
            &&& shown.take(mark.lead as int) == expanded(
                decode_utf8(bytes.take(label.0.lo() - base)),
            )
            &&& shown.take((mark.lead + mark.width) as int) == expanded(
                decode_utf8(bytes.take(label.0.hi() - base)),
            )
        }),
{
    let bytes = encode_utf8(text);
    let s = label.0.lo() - base;
    let e = label.0.hi() - base;
    law_single_line_underline_spans_its_text(text, base, primary, label);
    lemma_single_line_starts(bytes);
    assert(line_range(bytes, 1) == Some((0int, bytes.len() as int)));
    is_char_boundary_start_end_of_seq(bytes);
    reveal(line_chars);
    assert(bytes.subrange(0, bytes.len() as int) =~= bytes);
    let chars = decode_utf8(bytes);
    assert(line_chars(bytes, 1) == chars);
    decode_utf8_split(bytes, s);
    decode_utf8_split(bytes, e);
    assert(bytes.subrange(0, s) =~= bytes.take(s));
    assert(bytes.subrange(0, e) =~= bytes.take(e));
    let ps = decode_utf8(bytes.take(s));
    let pe = decode_utf8(bytes.take(e));
    assert(chars.take(ps.len() as int) =~= ps);
    assert(chars.take(pe.len() as int) =~= pe);
    law_expanded_keeps_prefixes(chars, ps.len() as int);
    law_expanded_keeps_prefixes(chars, pe.len() as int);
    law_expanded_fills_columns(chars);
}

/// A numbered line starts with its number right-aligned in a field as wide
/// as the gutter: spaces, then the digits ending exactly at column `gw`, then
/// ` | ` and the line's text with its tabs expanded.
pub proof fn law_numbered_line_is_right_aligned(bytes: Seq<u8>, line: u32, gw: nat)
    requires
        decimal(line as nat).len() <= gw,
    ensures
        numbered_line(bytes, line, gw) == repeat_char(' ', (gw - decimal(line as nat).len()) as nat)
            + decimal(line as nat) + seq![' ', '|', ' '] + expanded(line_chars(bytes, line))
            + seq!['\n'],
        numbered_line(bytes, line, gw).take(gw as int) == repeat_char(
            ' ',
            (gw - decimal(line as nat).len()) as nat,
        ) + decimal(line as nat),
        numbered_line(bytes, line, gw)[gw as int] == ' ',
        numbered_line(bytes, line, gw)[gw + 1int] == '|',
{
    let d = decimal(line as nat);
    let pad = repeat_char(' ', (gw - d.len()) as nat);
    let n = numbered_line(bytes, line, gw);
    assert(n =~= pad + d + seq![' ', '|', ' '] + expanded(line_chars(bytes, line)) + seq!['\n']);
    assert(n.take(gw as int) =~= pad + d);
    assert(n[gw as int] == (pad + d + seq![' ', '|', ' '] + expanded(line_chars(bytes, line)))[gw as int]);
}

/// A label underlines no line past the one holding its last byte: every
/// underline of a label covering `start..end` with `end > start` sits on a
/// line no later than one past the line breaks before byte `end - 1`.
pub proof fn law_label_underlines_end_at_its_last_byte(
    bytes: Seq<u8>,
    base: int,
    primary: bool,
    label: LabelParts,
)
    ensures
        local_end(bytes, label.0, base) > local_start(label.0, base) ==> forall|k: int|
            0 <= k < label_marks(bytes, base, primary, label).len() ==> (#[trigger] label_marks(
                bytes,
                base,
                primary,
                label,
            )[k]).line <= newline_count(bytes.take(local_end(bytes, label.0, base) - 1)) + 1,
{
    let start = local_start(label.0, base);
    let end = local_end(bytes, label.0, base);
    law_label_underlines_top_to_bottom_message_last(bytes, base, primary, label);
    if end > start {
        let x = end - 1;
        lemma_floor_within(bytes, x);
        let f = floor_to_boundary(bytes, x);
        lemma_newline_count_prefix(bytes, f, x);
        assert(last_line(bytes, start, end) == line_col_at(bytes, x).0);
        assert(line_col_at(bytes, x).0 <= newline_count(bytes.take(f)) + 1);
    }
}

/// A frame's gutter is as wide as the largest line number the frame shows:
/// the frame is laid out with a gutter `gw` wide that every shown line number
/// fits, and that one of them fills (the location's line where the frame
/// shows no line).
pub proof fn law_frame_gutter_fits_its_largest_line(
    name: Seq<char>,
    text: Seq<char>,
    base: int,
    id: int,
    placed: Seq<Placed>,
)
    ensures
        ({
            let bytes = encode_utf8(text);
            let marks = frame_marks(bytes, base, id, placed);
            let lines = marked_lines(marks);
            frame_anchor(bytes, base, id, placed).0 matches Some((line, col)) ==> exists|gw: nat|
                {
                    &&& frame_text(name, text, base, id, placed) == location_line(
                        name,
                        line,
                        col,
                        gw,
                    ) + lines_block(bytes, marks, lines, gw) + gutter(gw) + seq!['\n']
                    &&& forall|k: int|
                        0 <= k < lines.len() ==> decimal(#[trigger] lines[k] as nat).len() <= gw
                    &&& lines.len() > 0 ==> exists|k: int|
                        0 <= k < lines.len() && decimal(#[trigger] lines[k] as nat).len() == gw
                    &&& lines.len() == 0 ==> gw == decimal(line as nat).len()
                }
        }),
{
    let bytes = encode_utf8(text);
    let marks = frame_marks(bytes, base, id, placed);
    let lines = marked_lines(marks);
    if let Some((line, col)) = frame_anchor(bytes, base, id, placed).0 {
        law_lines_ascend_each_once(marks);
        let max_line = if lines.len() > 0 {
            lines.last()
        } else {
            line
        };
        let gw = decimal(max_line as nat).len();
        assert forall|k: int| 0 <= k < lines.len() implies decimal(#[trigger] lines[k] as nat).len()
            <= gw by {
            if k < lines.len() - 1 {
                assert(lines[k] < lines[lines.len() - 1]);
            }
            lemma_decimal_monotone(lines[k] as nat, max_line as nat);
        }
        if lines.len() > 0 {
            assert(decimal(lines[lines.len() - 1] as nat).len() == gw);
        }
        assert(frame_text(name, text, base, id, placed) == location_line(name, line, col, gw)
            + lines_block(bytes, marks, lines, gw) + gutter(gw) + seq!['\n']);
        assert({
            &&& frame_text(name, text, base, id, placed) == location_line(name, line, col, gw)
                + lines_block(bytes, marks, lines, gw) + gutter(gw) + seq!['\n']
            &&& forall|k: int|
                0 <= k < lines.len() ==> decimal(#[trigger] lines[k] as nat).len() <= gw
            &&& lines.len() > 0 ==> exists|k: int|
                0 <= k < lines.len() && decimal(#[trigger] lines[k] as nat).len() == gw
            &&& lines.len() == 0 ==> gw == decimal(line as nat).len()
        });
    }
}

/// Whether underline `m` of a label covering `start..end` sits under that
/// label's text on its line, in display columns: of the printed line (tabs
/// expanded), the columns before the underline print exactly the line's text
/// before the covered part, and the columns through its end print exactly the
/// text through the covered part's end; a label covering nothing of the line
/// draws one column.
pub open spec fn sits_under_its_text(bytes: Seq<u8>, start: int, end: int, m: MarkView) -> bool {
    match line_range(bytes, m.line) {
        None => false,
        Some((lo, hi)) => {
            let t = bytes.subrange(lo, hi);
            let from = if start > lo {
                start
            } else {
                lo
            };
            let to0 = if end < hi {
                end
            } else {
                hi
            };
            let to = if to0 > from {
                to0
            } else {
                from
            };
            let a = floor_to_boundary(t, from - lo);
            let b0 = floor_to_boundary(t, to - lo);
            let b = if b0 > a {
                b0
            } else {
                a
            };
            let shown = expanded(line_chars(bytes, m.line));
            &&& m.lead <= shown.len()
            &&& shown.take(m.lead as int) == expanded(decode_utf8(t.take(a)))
            &&& b > a ==> m.lead + m.width <= shown.len() && shown.take((m.lead + m.width) as int)
                == expanded(decode_utf8(t.take(b)))
            &&& b == a ==> m.width == 1
        },
    }
}

/// Each underline a label draws is what `mark_on` gives for some line.
proof fn lemma_marks_come_from_lines(
    bytes: Seq<u8>,
    start: int,
    end: int,
    first: u32,
    upto: int,
    final_line: u32,
    primary: bool,
    message: Seq<char>,
)
    ensures
        forall|k: int|
            #![trigger marks_upto(bytes, start, end, first, upto, final_line, primary, message)[k]]
            0 <= k < marks_upto(bytes, start, end, first, upto, final_line, primary, message).len()
                ==> exists|l: u32|
                #[trigger] mark_on(bytes, start, end, l, final_line, primary, message) == Some(
                    marks_upto(bytes, start, end, first, upto, final_line, primary, message)[k],
                ),
    decreases upto - first,
{
    if upto > first {
        lemma_marks_come_from_lines(bytes, start, end, first, upto - 1, final_line, primary, message);
        let prev = marks_upto(bytes, start, end, first, upto - 1, final_line, primary, message);
        let marks = marks_upto(bytes, start, end, first, upto, final_line, primary, message);
        let l = (upto - 1) as u32;
        match mark_on(bytes, start, end, l, final_line, primary, message) {
            Some(m) => {
                assert(marks == prev.push(m));
                assert forall|k: int| #![trigger marks[k]] 0 <= k < marks.len() implies exists|l2: u32|
                    #[trigger] mark_on(bytes, start, end, l2, final_line, primary, message) == Some(
                        marks[k],
                    ) by {
                    if k < prev.len() {
                        assert(marks[k] == prev[k]);
                    } else {
                        assert(mark_on(bytes, start, end, l, final_line, primary, message) == Some(
                            marks[k],
                        ));
                    }
                }
            },
            None => {
                assert(marks == prev);
            },
        }
    }
}

/// An underline that `mark_on` draws on valid text sits under its text.
proof fn lemma_mark_sits_under(
    bytes: Seq<u8>,
    start: int,
    end: int,
    l: u32,
    final_line: u32,
    primary: bool,
    message: Seq<char>,
)
    requires
        valid_utf8(bytes),
        mark_on(bytes, start, end, l, final_line, primary, message) is Some,
    ensures
        sits_under_its_text(
            bytes,
            start,
            end,
            mark_on(bytes, start, end, l, final_line, primary, message)->0,
        ),
{
    reveal(mark_on);
    reveal(line_chars);
    let m = mark_on(bytes, start, end, l, final_line, primary, message)->0;
    let (lo, hi) = line_range(bytes, l)->0;
    let t = bytes.subrange(lo, hi);
    let from = if start > lo {
        start
    } else {
        lo
    };
    let to0 = if end < hi {
        end
    } else {
        hi
    };
    let to = if to0 > from {
        to0
    } else {
        from
    };
    let a = floor_to_boundary(t, from - lo);
    let b0 = floor_to_boundary(t, to - lo);
    let b = if b0 > a {
        b0
    } else {
        a
    };
    valid_utf8_split(bytes, lo);
    let rest = bytes.subrange(lo, bytes.len() as int);
    crate::plain::lemma_boundary_in_suffix(bytes, lo, hi);
    valid_utf8_split(rest, hi - lo);
    assert(rest.subrange(0, hi - lo) =~= t);
    assert(valid_utf8(t));
    crate::text::lemma_floor_shape(t, from - lo);
    crate::text::lemma_floor_shape(t, to - lo);
    is_char_boundary_start_end_of_seq(t);
    assert(is_char_boundary(t, a));
    assert(is_char_boundary(t, b));
    let chars = decode_utf8(t);
    assert(line_chars(bytes, l) == chars);
    decode_utf8_split(t, a);
    decode_utf8_split(t, b);
    assert(t.subrange(0, a) =~= t.take(a));
    assert(t.subrange(0, b) =~= t.take(b));
    let pa = decode_utf8(t.take(a));
    let pb = decode_utf8(t.take(b));
    assert(chars.take(pa.len() as int) =~= pa);
    assert(chars.take(pb.len() as int) =~= pb);
    law_expanded_keeps_prefixes(chars, pa.len() as int);
    law_expanded_keeps_prefixes(chars, pb.len() as int);
    law_expanded_fills_columns(chars);
    if b > a {
        lemma_prefix_wider(t, a, b);
    }
}

/// On every line a label covers, in any valid text, its underline sits under
/// the text it covers on that line, aligned in display columns (a tab moves
/// to the next multiple of four, any other character is one column).
pub proof fn law_underlines_sit_under_their_text(
    text: Seq<char>,
    base: int,
    primary: bool,
    label: LabelParts,
)
    ensures
        forall|k: int|
            0 <= k < label_marks(encode_utf8(text), base, primary, label).len()
                ==> sits_under_its_text(
                encode_utf8(text),
                local_start(label.0, base),
                local_end(encode_utf8(text), label.0, base),
                #[trigger] label_marks(encode_utf8(text), base, primary, label)[k],
            ),
{
    let bytes = encode_utf8(text);
    let start = local_start(label.0, base);
    let end = local_end(bytes, label.0, base);
    let first = line_col_at(bytes, start).0;
    let final_line = last_line(bytes, start, end);
    lemma_marks_come_from_lines(bytes, start, end, first, final_line + 1, final_line, primary, label.1);
    let marks = label_marks(bytes, base, primary, label);
    assert forall|k: int| 0 <= k < marks.len() implies sits_under_its_text(
        bytes,
        start,
        end,
        #[trigger] marks[k],
    ) by {
        let l = choose|l: u32|
            #[trigger] mark_on(bytes, start, end, l, final_line, primary, label.1) == Some(marks[k]);
        lemma_mark_sits_under(bytes, start, end, l, final_line, primary, label.1);
    }
}

} // verus!
