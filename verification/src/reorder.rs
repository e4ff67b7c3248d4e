//! What the order in which secondary labels were added does, and does not,
//! change in a rendering.
use vstd::prelude::*;
use vstd::seq_lib::*;
use vstd::utf8::*;

use crate::diagnostic::DiagnosticView;
use crate::properties::{
    ascending, law_lines_ascend_each_once, law_row_stacks_left_to_right,
    law_stacking_is_a_total_order, stacked,
};
use crate::render::{
    frame_anchor, frame_marks, frame_order, frame_text, frames_text, has_label_in, label_marks,
    labels_of, later_frames, lemma_located_index, lemma_row_slot, line_row, lines_block,
    local_start, marked_lines, placed_labels, primary_source, rendered, stacks_before,
    stray_labels, stray_notes, LabelParts, MarkView, Placed,
};
use crate::sources::{line_col_at, locate_in, source_base};
use crate::span::Span;

verus! {

/// Whether `label` starts inside source `s` of `srcs`.
pub open spec fn lands_in(srcs: Seq<(Seq<char>, Seq<char>)>, label: LabelParts, s: int) -> bool {
    match locate_in(srcs, label.0.lo() as int) {
        Some((index, _)) => index == s,
        None => false,
    }
}

/// The later frames depend on the placed labels only through which sources
/// they lie in.
proof fn lemma_later_frames_by_sources(
    p1: Seq<Placed>,
    p2: Seq<Placed>,
    first: Option<int>,
    count: int,
)
    requires
        forall|s: int| #[trigger] has_label_in(p1, s) == has_label_in(p2, s),
    ensures
        later_frames(p1, first, count) == later_frames(p2, first, count),
    decreases count,
{
    if count > 0 {
        lemma_later_frames_by_sources(p1, p2, first, count - 1);
        assert(has_label_in(p1, count - 1) == has_label_in(p2, count - 1));
    }
}

/// A placed label lies in source `s` exactly when one of the labels starts
/// inside it.
proof fn lemma_placed_sources(
    srcs: Seq<(Seq<char>, Seq<char>)>,
    labels: Seq<(bool, LabelParts)>,
    s: int,
)
    ensures
        has_label_in(placed_labels(srcs, labels), s) <==> exists|k: int|
            0 <= k < labels.len() && lands_in(srcs, #[trigger] labels[k].1, s),
    decreases labels.len(),
{
    if labels.len() > 0 {
        let prev = labels.drop_last();
        lemma_placed_sources(srcs, prev, s);
        let rest = placed_labels(srcs, prev);
        let p = placed_labels(srcs, labels);
        let last = labels.len() - 1;
        assert(p.len() >= rest.len());
        assert(forall|q: int| 0 <= q < rest.len() ==> #[trigger] p[q] == rest[q]);
        if has_label_in(p, s) {
            let k = choose|k: int| 0 <= k < p.len() && #[trigger] p[k].0 == s;
            if k < rest.len() {
                assert(rest[k].0 == s);
                assert(has_label_in(rest, s));
                let j = choose|j: int|
                    0 <= j < prev.len() && lands_in(srcs, #[trigger] prev[j].1, s);
                assert(labels[j] == prev[j]);
            } else {
                assert(lands_in(srcs, labels[last].1, s));
            }
        }
        if exists|k: int| 0 <= k < labels.len() && lands_in(srcs, #[trigger] labels[k].1, s) {
            let k = choose|k: int|
                0 <= k < labels.len() && lands_in(srcs, #[trigger] labels[k].1, s);
            if k < last {
                assert(prev[k] == labels[k]);
                assert(has_label_in(rest, s));
                let q = choose|q: int| 0 <= q < rest.len() && #[trigger] rest[q].0 == s;
                assert(p[q].0 == s);
            } else {
                assert(p[rest.len() as int].0 == s);
            }
        }
    }
}

/// A source some label of `d1` starts in holds a label of `d2` too, when the
/// two share their primary label and their secondary labels up to order.
proof fn lemma_landing_carries_over(
    d1: DiagnosticView,
    d2: DiagnosticView,
    srcs: Seq<(Seq<char>, Seq<char>)>,
    s: int,
)
    requires
        d1.primary == d2.primary,
        d1.secondary.to_multiset() == d2.secondary.to_multiset(),
        exists|k: int|
            0 <= k < labels_of(d1).len() && lands_in(srcs, #[trigger] labels_of(d1)[k].1, s),
    ensures
        exists|k: int|
            0 <= k < labels_of(d2).len() && lands_in(srcs, #[trigger] labels_of(d2)[k].1, s),
{
    broadcast use group_to_multiset_ensures;

    let l1 = labels_of(d1);
    let l2 = labels_of(d2);
    let k = choose|k: int| 0 <= k < l1.len() && lands_in(srcs, #[trigger] l1[k].1, s);
    if k == 0 {
        assert(l2[0].1 == d2.primary);
    } else {
        let x = d1.secondary[k - 1];
        assert(l1[k].1 == x);
        assert(d1.secondary.contains(x));
        assert(d1.secondary.to_multiset().count(x) > 0);
        assert(d2.secondary.contains(x));
        let j = choose|j: int| 0 <= j < d2.secondary.len() && d2.secondary[j] == x;
        assert(l2[j + 1].1 == x);
    }
}

/// `g` applied to each item of `s`, the results joined in order.
spec fn concat_map<A, B>(s: Seq<A>, g: spec_fn(A) -> Seq<B>) -> Seq<B>
    decreases s.len(),
{
    if s.len() == 0 {
        Seq::empty()
    } else {
        concat_map(s.drop_last(), g) + g(s.last())
    }
}

proof fn lemma_concat_map_append<A, B>(a: Seq<A>, b: Seq<A>, g: spec_fn(A) -> Seq<B>)
    ensures
        concat_map(a + b, g) == concat_map(a, g) + concat_map(b, g),
    decreases b.len(),
{
    if b.len() == 0 {
        assert(a + b =~= a);
        assert(concat_map(a, g) + concat_map(b, g) =~= concat_map(a, g));
    } else {
        lemma_concat_map_append(a, b.drop_last(), g);
        assert((a + b).drop_last() =~= a + b.drop_last());
        assert((a + b).last() == b.last());
        assert(concat_map(a + b, g) =~= concat_map(a, g) + concat_map(b, g));
    }
}

proof fn lemma_concat_map_single<A, B>(x: A, g: spec_fn(A) -> Seq<B>)
    ensures
        concat_map(seq![x], g) == g(x),
{
    let one = seq![x];
    assert(one.drop_last() =~= Seq::<A>::empty());
    assert(concat_map(one.drop_last(), g) == Seq::<B>::empty());
    assert(one.last() == x);
    assert(Seq::<B>::empty() + g(x) =~= g(x));
}

/// Taking one item out of `s` takes its results out of the joined results.
proof fn lemma_concat_map_remove<A, B>(s: Seq<A>, j: int, g: spec_fn(A) -> Seq<B>)
    requires
        0 <= j < s.len(),
    ensures
        concat_map(s, g).to_multiset() == concat_map(s.remove(j), g).to_multiset().add(
            g(s[j]).to_multiset(),
        ),
{
    broadcast use vstd::multiset::group_multiset_axioms;

    let a = s.take(j);
    let b = s.skip(j + 1);
    let one = seq![s[j]];
    assert(s =~= (a + one) + b);
    assert(s.remove(j) =~= a + b);
    lemma_concat_map_append(a + one, b, g);
    lemma_concat_map_append(a, one, g);
    lemma_concat_map_append(a, b, g);
    lemma_concat_map_single(s[j], g);
    let ca = concat_map(a, g);
    let cb = concat_map(b, g);
    let cx = g(s[j]);
    lemma_multiset_commutative(ca + cx, cb);
    lemma_multiset_commutative(ca, cx);
    lemma_multiset_commutative(ca, cb);
    assert(concat_map(s, g).to_multiset() =~= concat_map(s.remove(j), g).to_multiset().add(
        cx.to_multiset(),
    ));
}

/// The joined results hold the same items, however `s` is reordered.
proof fn lemma_concat_map_permutation<A, B>(s1: Seq<A>, s2: Seq<A>, g: spec_fn(A) -> Seq<B>)
    requires
        s1.to_multiset() == s2.to_multiset(),
    ensures
        concat_map(s1, g).to_multiset() == concat_map(s2, g).to_multiset(),
    decreases s1.len(),
{
    broadcast use group_to_multiset_ensures;
    broadcast use vstd::multiset::group_multiset_axioms;

    if s1.len() == 0 {
        assert(s1.to_multiset().len() == 0);
        assert(s2.to_multiset().len() == s2.len());
        assert(s2.len() == 0);
        assert(s1 =~= s2);
    } else {
        let x = s1.last();
        assert(s1[s1.len() - 1] == x);
        assert(s1.to_multiset().count(x) > 0);
        assert(s2.contains(x));
        let j = choose|j: int| 0 <= j < s2.len() && s2[j] == x;
        let r1 = s1.drop_last();
        assert(r1 =~= s1.remove(s1.len() - 1));
        assert(r1.to_multiset() == s1.to_multiset().remove(x));
        assert(s2.remove(j).to_multiset() == s2.to_multiset().remove(x));
        lemma_concat_map_permutation(r1, s2.remove(j), g);
        lemma_concat_map_remove(s2, j, g);
        lemma_multiset_commutative(concat_map(r1, g), g(x));
    }
}

/// Mapping every item keeps two reorderings of each other reorderings.
proof fn lemma_map_values_permutation<A, B>(s1: Seq<A>, s2: Seq<A>, f: spec_fn(A) -> B)
    requires
        s1.to_multiset() == s2.to_multiset(),
    ensures
        s1.map_values(f).to_multiset() == s2.map_values(f).to_multiset(),
{
    let g = |x: A| seq![f(x)];
    lemma_map_values_is_concat_map(s1, f);
    lemma_map_values_is_concat_map(s2, f);
    lemma_concat_map_permutation(s1, s2, g);
}

proof fn lemma_map_values_is_concat_map<A, B>(s: Seq<A>, f: spec_fn(A) -> B)
    ensures
        s.map_values(f) == concat_map(s, |x: A| seq![f(x)]),
    decreases s.len(),
{
    if s.len() > 0 {
        lemma_map_values_is_concat_map(s.drop_last(), f);
        assert(s.map_values(f) =~= s.drop_last().map_values(f) + seq![f(s.last())]);
    } else {
        assert(s.map_values(f) =~= Seq::<B>::empty());
    }
}

/// The placed entry, if any, that one label contributes.
spec fn place_one(srcs: Seq<(Seq<char>, Seq<char>)>, l: (bool, LabelParts)) -> Seq<Placed> {
    match locate_in(srcs, l.1.0.lo() as int) {
        Some((index, _)) => seq![(index, l.0, l.1)],
        None => Seq::empty(),
    }
}

proof fn lemma_placed_is_concat_map(
    srcs: Seq<(Seq<char>, Seq<char>)>,
    labels: Seq<(bool, LabelParts)>,
)
    ensures
        placed_labels(srcs, labels) == concat_map(
            labels,
            |l: (bool, LabelParts)| place_one(srcs, l),
        ),
    decreases labels.len(),
{
    if labels.len() > 0 {
        lemma_placed_is_concat_map(srcs, labels.drop_last());
        let rest = placed_labels(srcs, labels.drop_last());
        assert(placed_labels(srcs, labels) =~= rest + place_one(srcs, labels.last()));
    }
}

/// The underlines, if any, that one placed label draws in source `id`.
spec fn marks_in(bytes: Seq<u8>, base: int, id: int, pl: Placed) -> Seq<MarkView> {
    if pl.0 == id {
        label_marks(bytes, base, pl.1, pl.2)
    } else {
        Seq::empty()
    }
}

proof fn lemma_frame_marks_is_concat_map(bytes: Seq<u8>, base: int, id: int, placed: Seq<Placed>)
    ensures
        frame_marks(bytes, base, id, placed) == concat_map(
            placed,
            |pl: Placed| marks_in(bytes, base, id, pl),
        ),
    decreases placed.len(),
{
    if placed.len() > 0 {
        lemma_frame_marks_is_concat_map(bytes, base, id, placed.drop_last());
        let rest = frame_marks(bytes, base, id, placed.drop_last());
        assert(frame_marks(bytes, base, id, placed) =~= rest + marks_in(
            bytes,
            base,
            id,
            placed.last(),
        ));
    }
}

/// The labels that land in some source hold the same items, whatever order
/// the secondary labels were added in.
proof fn lemma_placed_permutation(
    d1: DiagnosticView,
    d2: DiagnosticView,
    srcs: Seq<(Seq<char>, Seq<char>)>,
)
    requires
        d1.primary == d2.primary,
        d1.secondary.to_multiset() == d2.secondary.to_multiset(),
    ensures
        placed_labels(srcs, labels_of(d1)).to_multiset() == placed_labels(
            srcs,
            labels_of(d2),
        ).to_multiset(),
{
    let f = |l: LabelParts| (false, l);
    lemma_map_values_permutation(d1.secondary, d2.secondary, f);
    let head = seq![(true, d1.primary)];
    lemma_multiset_commutative(head, d1.secondary.map_values(f));
    lemma_multiset_commutative(head, d2.secondary.map_values(f));
    assert(labels_of(d1) == head + d1.secondary.map_values(f));
    assert(labels_of(d2) == head + d2.secondary.map_values(f));
    let l1 = labels_of(d1);
    let l2 = labels_of(d2);
    assert(l1.to_multiset() == l2.to_multiset());
    lemma_placed_is_concat_map(srcs, l1);
    lemma_placed_is_concat_map(srcs, l2);
    lemma_concat_map_permutation(l1, l2, |l: (bool, LabelParts)| place_one(srcs, l));
}

/// The underlines of a frame hold the same items, whatever order the placed
/// labels come in.
proof fn lemma_marks_permutation(
    bytes: Seq<u8>,
    base: int,
    id: int,
    p1: Seq<Placed>,
    p2: Seq<Placed>,
)
    requires
        p1.to_multiset() == p2.to_multiset(),
    ensures
        frame_marks(bytes, base, id, p1).to_multiset() == frame_marks(
            bytes,
            base,
            id,
            p2,
        ).to_multiset(),
{
    lemma_frame_marks_is_concat_map(bytes, base, id, p1);
    lemma_frame_marks_is_concat_map(bytes, base, id, p2);
    lemma_concat_map_permutation(p1, p2, |pl: Placed| marks_in(bytes, base, id, pl));
}

/// Two strictly ascending sequences with the same items are equal.
proof fn lemma_ascending_unique(a: Seq<u32>, b: Seq<u32>)
    requires
        ascending(a),
        ascending(b),
        forall|x: u32|
            #![trigger a.contains(x)]
            #![trigger b.contains(x)]
            a.contains(x) == b.contains(x),
    ensures
        a == b,
    decreases a.len(),
{
    if a.len() == 0 {
        if b.len() > 0 {
            assert(b.contains(b[0]));
        }
        assert(a =~= b);
    } else {
        assert(a.contains(a[0]));
        let k = choose|k: int| 0 <= k < b.len() && b[k] == a[0];
        assert(b.contains(b[0]));
        let j = choose|j: int| 0 <= j < a.len() && a[j] == b[0];
        if j > 0 {
            assert(a[0] < a[j]);
        }
        if k > 0 {
            assert(b[0] < b[k]);
        }
        assert(a[0] == b[0]);
        let a1 = a.drop_first();
        let b1 = b.drop_first();
        assert forall|x: u32| #![trigger a1.contains(x)] #![trigger b1.contains(x)] a1.contains(x)
            == b1.contains(x) by {
            if a1.contains(x) {
                let i = choose|i: int| 0 <= i < a1.len() && a1[i] == x;
                assert(a[i + 1] == x);
                assert(a.contains(x));
                let q = choose|q: int| 0 <= q < b.len() && b[q] == x;
                assert(q != 0);
                assert(b1[q - 1] == x);
            }
            if b1.contains(x) {
                let i = choose|i: int| 0 <= i < b1.len() && b1[i] == x;
                assert(b[i + 1] == x);
                assert(b.contains(x));
                let q = choose|q: int| 0 <= q < a.len() && a[q] == x;
                assert(q != 0);
                assert(a1[q - 1] == x);
            }
        }
        lemma_ascending_unique(a1, b1);
        assert(a =~= seq![a[0]] + a1);
        assert(b =~= seq![b[0]] + b1);
    }
}

/// The lines a frame shows depend only on which underlines there are.
proof fn lemma_marked_lines_permutation(m1: Seq<MarkView>, m2: Seq<MarkView>)
    requires
        m1.to_multiset() == m2.to_multiset(),
    ensures
        marked_lines(m1) == marked_lines(m2),
{
    broadcast use group_to_multiset_ensures;

    law_lines_ascend_each_once(m1);
    law_lines_ascend_each_once(m2);
    let a = marked_lines(m1);
    let b = marked_lines(m2);
    assert forall|l: u32| #[trigger] a.contains(l) == b.contains(l) by {
        if a.contains(l) {
            let k = choose|k: int| 0 <= k < m1.len() && #[trigger] m1[k].line == l;
            assert(m1.contains(m1[k]));
            assert(m1.to_multiset().count(m1[k]) > 0);
            assert(m2.contains(m1[k]));
            let j = choose|j: int| 0 <= j < m2.len() && m2[j] == m1[k];
            assert(m2[j].line == l);
        }
        if b.contains(l) {
            let k = choose|k: int| 0 <= k < m2.len() && #[trigger] m2[k].line == l;
            assert(m2.contains(m2[k]));
            assert(m2.to_multiset().count(m2[k]) > 0);
            assert(m1.contains(m2[k]));
            let j = choose|j: int| 0 <= j < m1.len() && m1[j] == m2[k];
            assert(m1[j].line == l);
        }
    }
    lemma_ascending_unique(a, b);
}

/// The underline `m` if it sits on `line`.
spec fn on_line(m: MarkView, line: u32) -> Seq<MarkView> {
    if m.line == line {
        seq![m]
    } else {
        Seq::empty()
    }
}

/// A stacked row holds the underlines on its line, each as often as it occurs.
proof fn lemma_line_row_items(marks: Seq<MarkView>, line: u32)
    ensures
        line_row(marks, line).to_multiset() == concat_map(
            marks,
            |m: MarkView| on_line(m, line),
        ).to_multiset(),
    decreases marks.len(),
{
    broadcast use group_to_multiset_ensures;

    let g = |m: MarkView| on_line(m, line);
    if marks.len() == 0 {
        assert(line_row(marks, line) =~= concat_map(marks, g));
    } else {
        let prev = marks.drop_last();
        lemma_line_row_items(prev, line);
        let row = line_row(prev, line);
        let m = marks.last();
        let c = concat_map(prev, g);
        if m.line == line {
            lemma_row_slot(row, m, 0);
            assert(c + g(m) =~= c.push(m));
            assert(line_row(marks, line).to_multiset() == row.to_multiset().insert(m));
        } else {
            assert(c + g(m) =~= c);
        }
    }
}

/// Two stacked rows of one line with the same items are equal.
proof fn lemma_stacked_unique(x: Seq<MarkView>, y: Seq<MarkView>, line: u32)
    requires
        stacked(x),
        stacked(y),
        x.to_multiset() == y.to_multiset(),
        forall|a: MarkView| #[trigger] x.contains(a) ==> a.line == line,
    ensures
        x == y,
    decreases x.len(),
{
    broadcast use group_to_multiset_ensures;

    if x.len() == 0 || y.len() == 0 {
        assert(x.to_multiset().len() == x.len());
        assert(y.to_multiset().len() == y.len());
        assert(x =~= y);
    } else {
        assert(x.contains(x[0]));
        assert(x.to_multiset().count(x[0]) > 0);
        assert(y.contains(x[0]));
        let i = choose|i: int| 0 <= i < y.len() && y[i] == x[0];
        assert(y.contains(y[0]));
        assert(y.to_multiset().count(y[0]) > 0);
        assert(x.contains(y[0]));
        let j = choose|j: int| 0 <= j < x.len() && x[j] == y[0];
        law_stacking_is_a_total_order(x[0], y[0], y[0]);
        if x[0] != y[0] {
            assert(i > 0 && j > 0);
            assert(!stacks_before(y[i], y[0]));
            assert(!stacks_before(x[j], x[0]));
        }
        assert(x[0] == y[0]);
        let x1 = x.drop_first();
        let y1 = y.drop_first();
        assert(x1 =~= x.remove(0));
        assert(y1 =~= y.remove(0));
        assert(x1.to_multiset() == y1.to_multiset());
        assert forall|p: int, q: int| 0 <= p < q < x1.len() implies !stacks_before(
            #[trigger] x1[q],
            #[trigger] x1[p],
        ) by {
            assert(x1[p] == x[p + 1] && x1[q] == x[q + 1]);
        }
        assert forall|p: int, q: int| 0 <= p < q < y1.len() implies !stacks_before(
            #[trigger] y1[q],
            #[trigger] y1[p],
        ) by {
            assert(y1[p] == y[p + 1] && y1[q] == y[q + 1]);
        }
        assert forall|a: MarkView| #[trigger] x1.contains(a) implies a.line == line by {
            let p = choose|p: int| 0 <= p < x1.len() && x1[p] == a;
            assert(x[p + 1] == a);
            assert(x.contains(a));
        }
        lemma_stacked_unique(x1, y1, line);
        assert(x =~= seq![x[0]] + x1);
        assert(y =~= seq![y[0]] + y1);
    }
}

/// The stacked row of a line depends only on which underlines there are.
proof fn lemma_line_row_permutation(m1: Seq<MarkView>, m2: Seq<MarkView>, line: u32)
    requires
        m1.to_multiset() == m2.to_multiset(),
    ensures
        line_row(m1, line) == line_row(m2, line),
{
    let r1 = line_row(m1, line);
    let r2 = line_row(m2, line);
    law_row_stacks_left_to_right(m1, line);
    law_row_stacks_left_to_right(m2, line);
    lemma_line_row_items(m1, line);
    lemma_line_row_items(m2, line);
    lemma_concat_map_permutation(m1, m2, |m: MarkView| on_line(m, line));
    lemma_stacked_unique(r1, r2, line);
}

/// Where a frame's location line points for the placed label `pl`.
spec fn anchor_pos(bytes: Seq<u8>, base: int, pl: Placed) -> (u32, u32) {
    line_col_at(bytes, local_start(pl.2.0, base))
}

/// Whether position `a` comes at or before `b`: an earlier line, or the same
/// line at or before its column.
spec fn at_or_before(a: (u32, u32), b: (u32, u32)) -> bool {
    a.0 < b.0 || (a.0 == b.0 && a.1 <= b.1)
}

/// Whether placed entry `k` lies in source `id`.
spec fn in_frame(placed: Seq<Placed>, id: int, k: int) -> bool {
    0 <= k < placed.len() && placed[k].0 == id
}

/// A frame's location line points at the primary label where it lies in the
/// frame, else at the earliest label in it; the flag says which.
proof fn lemma_anchor_shape(bytes: Seq<u8>, base: int, id: int, placed: Seq<Placed>)
    ensures
        frame_anchor(bytes, base, id, placed).1 == exists|k: int|
            #[trigger] in_frame(placed, id, k) && placed[k].1,
        frame_anchor(bytes, base, id, placed).0 is None <==> !exists|k: int|
            #[trigger] in_frame(placed, id, k),
        frame_anchor(bytes, base, id, placed).0 is Some ==> exists|k: int|
            #[trigger] in_frame(placed, id, k) && placed[k].1 == frame_anchor(
                bytes,
                base,
                id,
                placed,
            ).1 && anchor_pos(bytes, base, placed[k]) == frame_anchor(
                bytes,
                base,
                id,
                placed,
            ).0.unwrap(),
        frame_anchor(bytes, base, id, placed).0 is Some ==> forall|k: int|
            #[trigger] in_frame(placed, id, k) && placed[k].1 == frame_anchor(
                bytes,
                base,
                id,
                placed,
            ).1 ==> at_or_before(
                frame_anchor(bytes, base, id, placed).0.unwrap(),
                anchor_pos(bytes, base, placed[k]),
            ),
    decreases placed.len(),
{
    if placed.len() > 0 {
        let prev = placed.drop_last();
        lemma_anchor_shape(bytes, base, id, prev);
        let n = placed.len() - 1;
        let e = placed[n];
        assert(e == placed.last());
        assert forall|k: int| 0 <= k < n implies #[trigger] in_frame(placed, id, k) == in_frame(
            prev,
            id,
            k,
        ) && placed[k] == prev[k] by {}
        let (a0, ap0) = frame_anchor(bytes, base, id, prev);
        let (a, ap) = frame_anchor(bytes, base, id, placed);
        if exists|k: int| #[trigger] in_frame(prev, id, k) {
            let k = choose|k: int| #[trigger] in_frame(prev, id, k);
            assert(in_frame(placed, id, k));
        }
        if exists|k: int| #[trigger] in_frame(prev, id, k) && prev[k].1 {
            let k = choose|k: int| #[trigger] in_frame(prev, id, k) && prev[k].1;
            assert(in_frame(placed, id, k));
        }
        if a0 is Some {
            let k = choose|k: int|
                #[trigger] in_frame(prev, id, k) && prev[k].1 == ap0 && anchor_pos(
                    bytes,
                    base,
                    prev[k],
                ) == a0.unwrap();
            assert(in_frame(placed, id, k));
        }
        if e.0 != id {
            assert(!in_frame(placed, id, n));
        } else {
            assert(in_frame(placed, id, n));
            let here = anchor_pos(bytes, base, e);
            assert forall|k: int|
                #[trigger] in_frame(placed, id, k) && placed[k].1 == ap implies at_or_before(
                a.unwrap(),
                anchor_pos(bytes, base, placed[k]),
            ) by {
                if k < n {
                    assert(in_frame(prev, id, k));
                }
            }
        }
    }
}

/// Where a frame's location line points depends only on which labels there
/// are, not on their order.
proof fn lemma_anchor_permutation(
    bytes: Seq<u8>,
    base: int,
    id: int,
    p1: Seq<Placed>,
    p2: Seq<Placed>,
)
    requires
        forall|x: Placed| #[trigger] p1.contains(x) == p2.contains(x),
    ensures
        frame_anchor(bytes, base, id, p1).0 == frame_anchor(bytes, base, id, p2).0,
{
    lemma_anchor_shape(bytes, base, id, p1);
    lemma_anchor_shape(bytes, base, id, p2);
    lemma_anchor_carries_over(id, p1, p2);
    lemma_anchor_carries_over(id, p2, p1);
    let (a1, f1) = frame_anchor(bytes, base, id, p1);
    let (a2, f2) = frame_anchor(bytes, base, id, p2);
    if a1 is Some && a2 is Some {
        let k1 = choose|k: int|
            #[trigger] in_frame(p1, id, k) && p1[k].1 == f1 && anchor_pos(bytes, base, p1[k])
                == a1.unwrap();
        let k2 = choose|k: int|
            #[trigger] in_frame(p2, id, k) && p2[k].1 == f2 && anchor_pos(bytes, base, p2[k])
                == a2.unwrap();
        assert(p1.contains(p1[k1]));
        assert(p2.contains(p1[k1]));
        let j2 = choose|j: int| 0 <= j < p2.len() && p2[j] == p1[k1];
        assert(in_frame(p2, id, j2));
        assert(p2.contains(p2[k2]));
        assert(p1.contains(p2[k2]));
        let j1 = choose|j: int| 0 <= j < p1.len() && p1[j] == p2[k2];
        assert(in_frame(p1, id, j1));
        assert(at_or_before(a1.unwrap(), a2.unwrap()));
        assert(at_or_before(a2.unwrap(), a1.unwrap()));
    }
}

/// A label of `p1` in source `id`, primary or not, has a like one in `p2`
/// when the two hold the same labels.
proof fn lemma_anchor_carries_over(id: int, p1: Seq<Placed>, p2: Seq<Placed>)
    requires
        forall|x: Placed| #[trigger] p1.contains(x) == p2.contains(x),
    ensures
        (exists|k: int| #[trigger] in_frame(p1, id, k)) ==> (exists|k: int|
            #[trigger] in_frame(p2, id, k)),
        (exists|k: int| #[trigger] in_frame(p1, id, k) && p1[k].1) ==> (exists|k: int|
            #[trigger] in_frame(p2, id, k) && p2[k].1),
{
    if exists|k: int| #[trigger] in_frame(p1, id, k) {
        let k = choose|k: int| #[trigger] in_frame(p1, id, k);
        assert(p1.contains(p1[k]));
        let j = choose|j: int| 0 <= j < p2.len() && p2[j] == p1[k];
        assert(in_frame(p2, id, j));
    }
    if exists|k: int| #[trigger] in_frame(p1, id, k) && p1[k].1 {
        let k = choose|k: int| #[trigger] in_frame(p1, id, k) && p1[k].1;
        assert(p1.contains(p1[k]));
        let j = choose|j: int| 0 <= j < p2.len() && p2[j] == p1[k];
        assert(in_frame(p2, id, j));
    }
}

/// Which frames are drawn, and in what order, depends on where the labels
/// point and not on the order the secondary labels were added in.
pub proof fn law_frame_order_ignores_insertion_order(
    d1: DiagnosticView,
    d2: DiagnosticView,
    srcs: Seq<(Seq<char>, Seq<char>)>,
)
    requires
        d1.primary == d2.primary,
        d1.secondary.to_multiset() == d2.secondary.to_multiset(),
    ensures
        frame_order(placed_labels(srcs, labels_of(d1)), primary_source(srcs, d1), srcs.len() as int)
            == frame_order(
            placed_labels(srcs, labels_of(d2)),
            primary_source(srcs, d2),
            srcs.len() as int,
        ),
{
    let p1 = placed_labels(srcs, labels_of(d1));
    let p2 = placed_labels(srcs, labels_of(d2));
    assert forall|s: int| #[trigger] has_label_in(p1, s) == has_label_in(p2, s) by {
        lemma_placed_sources(srcs, labels_of(d1), s);
        lemma_placed_sources(srcs, labels_of(d2), s);
        if has_label_in(p1, s) {
            lemma_landing_carries_over(d1, d2, srcs, s);
        }
        if has_label_in(p2, s) {
            lemma_landing_carries_over(d2, d1, srcs, s);
        }
    }
    lemma_later_frames_by_sources(p1, p2, primary_source(srcs, d1), srcs.len() as int);
}


/// The numbered lines of a frame depend on the underlines only through the
/// stacked row of each line.
proof fn lemma_lines_block_congruent(
    bytes: Seq<u8>,
    m1: Seq<MarkView>,
    m2: Seq<MarkView>,
    lines: Seq<u32>,
    gw: nat,
)
    requires
        forall|l: u32| #[trigger] line_row(m1, l) == line_row(m2, l),
    ensures
        lines_block(bytes, m1, lines, gw) == lines_block(bytes, m2, lines, gw),
    decreases lines.len(),
{
    if lines.len() > 0 {
        lemma_lines_block_congruent(bytes, m1, m2, lines.drop_last(), gw);
        assert(line_row(m1, lines.last()) == line_row(m2, lines.last()));
    }
}

/// A frame is the same whatever order its labels come in.
proof fn lemma_frame_text_permutation(
    name: Seq<char>,
    text: Seq<char>,
    base: int,
    id: int,
    p1: Seq<Placed>,
    p2: Seq<Placed>,
)
    requires
        p1.to_multiset() == p2.to_multiset(),
    ensures
        frame_text(name, text, base, id, p1) == frame_text(name, text, base, id, p2),
{
    broadcast use group_to_multiset_ensures;

    let bytes = encode_utf8(text);
    let m1 = frame_marks(bytes, base, id, p1);
    let m2 = frame_marks(bytes, base, id, p2);
    lemma_marks_permutation(bytes, base, id, p1, p2);
    assert forall|x: Placed| #[trigger] p1.contains(x) == p2.contains(x) by {
        to_multiset_contains(p1, x);
        to_multiset_contains(p2, x);
    }
    lemma_anchor_permutation(bytes, base, id, p1, p2);
    lemma_marked_lines_permutation(m1, m2);
    assert forall|l: u32| #[trigger] line_row(m1, l) == line_row(m2, l) by {
        lemma_line_row_permutation(m1, m2, l);
    }
    let lines = marked_lines(m1);
    assert forall|gw: nat| #[trigger] lines_block(bytes, m1, lines, gw) == lines_block(
        bytes,
        m2,
        lines,
        gw,
    ) by {
        lemma_lines_block_congruent(bytes, m1, m2, lines, gw);
    }
}

/// The frames of the sources `ids` are the same whatever order the labels
/// come in.
proof fn lemma_frames_text_permutation(
    srcs: Seq<(Seq<char>, Seq<char>)>,
    p1: Seq<Placed>,
    p2: Seq<Placed>,
    ids: Seq<int>,
)
    requires
        p1.to_multiset() == p2.to_multiset(),
    ensures
        frames_text(srcs, p1, ids) == frames_text(srcs, p2, ids),
    decreases ids.len(),
{
    if ids.len() > 0 {
        let prev = ids.drop_last();
        lemma_frames_text_permutation(srcs, p1, p2, prev);
        let id = ids.last();
        assert(id == ids[ids.len() - 1]);
        lemma_frame_text_permutation(srcs[id].0, srcs[id].1, source_base(srcs, id), id, p1, p2);
    }
}

/// The spans of the labels that lie outside every loaded source, in order.
pub open spec fn stray_spans(srcs: Seq<(Seq<char>, Seq<char>)>, d: DiagnosticView) -> Seq<Span> {
    stray_labels(srcs, labels_of(d)).map_values(|l: LabelParts| l.0)
}

proof fn lemma_stray_notes_by_spans(a: Seq<LabelParts>, b: Seq<LabelParts>)
    requires
        a.map_values(|l: LabelParts| l.0) == b.map_values(|l: LabelParts| l.0),
    ensures
        stray_notes(a) == stray_notes(b),
    decreases a.len(),
{
    let f = |l: LabelParts| l.0;
    assert(a.len() == a.map_values(f).len());
    assert(b.len() == b.map_values(f).len());
    if a.len() > 0 {
        assert(a.drop_last().map_values(f) =~= a.map_values(f).drop_last());
        assert(b.drop_last().map_values(f) =~= b.map_values(f).drop_last());
        lemma_stray_notes_by_spans(a.drop_last(), b.drop_last());
        assert(a.map_values(f)[a.len() - 1] == b.map_values(f)[b.len() - 1]);
        assert(a.last().0 == b.last().0);
    }
}

/// Adding the secondary labels in another order draws the same frames in the
/// same order: lines still run top to bottom and the underlines of a line
/// stack in one order whatever order they were added in. The notes for labels
/// outside every source keep the order the labels were added in, so where
/// those come in the same order, and the headline, notes and help agree, the
/// whole rendering is the same.
pub proof fn law_rendering_ignores_insertion_order(
    d1: DiagnosticView,
    d2: DiagnosticView,
    srcs: Seq<(Seq<char>, Seq<char>)>,
)
    requires
        d1.primary == d2.primary,
        d1.secondary.to_multiset() == d2.secondary.to_multiset(),
    ensures
        frames_text(
            srcs,
            placed_labels(srcs, labels_of(d1)),
            frame_order(
                placed_labels(srcs, labels_of(d1)),
                primary_source(srcs, d1),
                srcs.len() as int,
            ),
        ) == frames_text(
            srcs,
            placed_labels(srcs, labels_of(d2)),
            frame_order(
                placed_labels(srcs, labels_of(d2)),
                primary_source(srcs, d2),
                srcs.len() as int,
            ),
        ),
        d1.severity == d2.severity && d1.message == d2.message && d1.notes == d2.notes && d1.help
            == d2.help && stray_spans(srcs, d1) == stray_spans(srcs, d2) ==> rendered(d1, srcs)
            == rendered(d2, srcs),
{
    reveal(rendered);
    let p1 = placed_labels(srcs, labels_of(d1));
    let p2 = placed_labels(srcs, labels_of(d2));
    let first = primary_source(srcs, d1);
    let count = srcs.len() as int;
    law_frame_order_ignores_insertion_order(d1, d2, srcs);
    lemma_placed_permutation(d1, d2, srcs);
    let ids = frame_order(p1, first, count);
    lemma_frames_text_permutation(srcs, p1, p2, ids);
    if stray_spans(srcs, d1) == stray_spans(srcs, d2) {
        lemma_stray_notes_by_spans(
            stray_labels(srcs, labels_of(d1)),
            stray_labels(srcs, labels_of(d2)),
        );
    }
}

} // verus!
