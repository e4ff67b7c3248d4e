//! The column model the underlines are aligned in, and the small string
//! operations the renderer is built from.
use vstd::prelude::*;
use vstd::string::*;
use vstd::utf8::*;

verus! {

broadcast use encode_utf8_valid_utf8;

/// Columns a tab advances to: the next multiple of four.
pub const TAB_WIDTH: u64 = 4;

/// How far a tab at column `col` advances the cursor.
pub open spec fn tab_advance(col: nat) -> nat {
    (4 - col % 4) as nat
}

/// The display width of `s`: every character is one column except a tab,
/// which advances to the next multiple of four.
pub open spec fn visual_columns(s: Seq<char>) -> nat
    decreases s.len(),
{
    if s.len() == 0 {
        0
    } else {
        let c = visual_columns(s.drop_last());
        if s.last() == '\t' {
            c + tab_advance(c)
        } else {
            c + 1
        }
    }
}

/// `n` copies of `c`.
pub open spec fn repeat_char(c: char, n: nat) -> Seq<char> {
    Seq::new(n, |_i: int| c)
}

/// `s` with every tab replaced by spaces up to the next tab stop.
pub open spec fn expanded(s: Seq<char>) -> Seq<char>
    decreases s.len(),
{
    if s.len() == 0 {
        Seq::empty()
    } else {
        let e = expanded(s.drop_last());
        if s.last() == '\t' {
            e + repeat_char(' ', tab_advance(visual_columns(s.drop_last())))
        } else {
            e.push(s.last())
        }
    }
}

/// The greatest character boundary of `bytes` at or below `idx`, after
/// clamping `idx` into `0..=bytes.len()`.
pub open spec fn floor_to_boundary(bytes: Seq<u8>, idx: int) -> int
    decreases idx,
{
    if idx > bytes.len() {
        floor_to_boundary(bytes, bytes.len() as int)
    } else if idx <= 0 {
        0
    } else if is_char_boundary(bytes, idx) {
        idx
    } else {
        floor_to_boundary(bytes, idx - 1)
    }
}

/// The ASCII digit for `d < 10`.
pub open spec fn digit_char(d: nat) -> char {
    (48 + d) as char
}

/// The decimal representation of `n`, without leading zeros.
pub open spec fn decimal(n: nat) -> Seq<char>
    decreases n,
{
    if n < 10 {
        seq![digit_char(n)]
    } else {
        decimal(n / 10).push(digit_char(n % 10))
    }
}

/// Appends `c` to `s`: `String::push`.
#[verifier::external_body]
pub(crate) fn push_char(s: &mut String, c: char)
    ensures
        final(s)@ == old(s)@.push(c),
{
    s.push(c);
}

/// The sub-slice `lo..hi` of `s`, or `None` where that range does not fall on
/// character boundaries: `str::get` with a byte range.
#[verifier::external_body]
pub(crate) fn str_get(s: &str, lo: usize, hi: usize) -> (res: Option<&str>)
    ensures
        res is Some <==> (lo <= hi && is_char_boundary(s.spec_bytes(), lo as int)
            && is_char_boundary(s.spec_bytes(), hi as int)),
        res matches Some(r) ==> r.spec_bytes() == s.spec_bytes().subrange(lo as int, hi as int),
{
    s.get(lo..hi)
}

proof fn lemma_take_step<A>(s: Seq<A>, i: int)
    requires
        0 <= i < s.len(),
    ensures
        s.take(i + 1).drop_last() == s.take(i),
        s.take(i + 1).last() == s[i],
{
    assert(s.take(i + 1).drop_last() =~= s.take(i));
}

/// Visual columns never shrink as a string grows.
pub proof fn lemma_columns_prefix(s: Seq<char>, i: int)
    requires
        0 <= i <= s.len(),
    ensures
        visual_columns(s.take(i)) <= visual_columns(s),
    decreases s.len(),
{
    if i < s.len() {
        lemma_columns_prefix(s.drop_last(), i);
        assert(s.drop_last().take(i) =~= s.take(i));
    } else {
        assert(s.take(i) =~= s);
    }
}

/// A string is at most four columns wide per character.
pub proof fn lemma_columns_bound(s: Seq<char>)
    ensures
        visual_columns(s) <= 4 * s.len(),
    decreases s.len(),
{
    if s.len() > 0 {
        lemma_columns_bound(s.drop_last());
    }
}

/// The number of columns `s` occupies, as a `u64`.
pub(crate) fn column_count(s: &str) -> (w: u64)
    requires
        visual_columns(s@) <= u64::MAX,
    ensures
        w == visual_columns(s@),
{
    let mut col: u64 = 0;
    for ch in it: s.chars()
        invariant
            it.seq() == s@,
            col == visual_columns(s@.take(it.index())),
            visual_columns(s@) <= u64::MAX,
    {
        proof {
            lemma_take_step(s@, it.index());
            lemma_columns_prefix(s@, it.index() + 1);
        }
        if ch == '\t' {
            col = col + (TAB_WIDTH - col % TAB_WIDTH);
        } else {
            col = col + 1;
        }
    }
    assert(s@.take(s@.len() as int) =~= s@);
    col
}

/// The display width of `s` in columns: every character is one column except
/// a tab, which advances to the next multiple of four.
pub fn visual_width(s: &str) -> (w: usize)
    requires
        visual_columns(s@) <= usize::MAX,
    ensures
        w == visual_columns(s@),
{
    column_count(s) as usize
}

/// Appends `n` copies of `c` to `out`.
pub(crate) fn push_repeat(out: &mut String, c: char, n: u64)
    ensures
        final(out)@ == old(out)@ + repeat_char(c, n as nat),
{
    let mut i: u64 = 0;
    while i < n
        invariant
            i <= n,
            out@ == old(out)@ + repeat_char(c, i as nat),
        decreases n - i,
    {
        push_char(out, c);
        i = i + 1;
        assert(out@ =~= old(out)@ + repeat_char(c, i as nat));
    }
}

/// Appends `s` to `out` with every tab expanded to spaces up to the next
/// tab stop, so the appended text occupies exactly `visual_width(s)` columns.
pub fn expand_tabs(s: &str, out: &mut String)
    ensures
        final(out)@ == old(out)@ + expanded(s@),
{
    // Only the column modulo the tab width decides how far a tab advances.
    let mut col: u64 = 0;
    for ch in it: s.chars()
        invariant
            it.seq() == s@,
            col == visual_columns(s@.take(it.index())) % 4,
            out@ == old(out)@ + expanded(s@.take(it.index())),
    {
        proof {
            lemma_take_step(s@, it.index());
        }
        let ghost c = visual_columns(s@.take(it.index()));
        if ch == '\t' {
            let advance = TAB_WIDTH - col;
            push_repeat(out, ' ', advance);
            col = 0;
            assert((c + (4 - c % 4)) % 4 == 0) by (nonlinear_arith);
        } else {
            push_char(out, ch);
            col = (col + 1) % TAB_WIDTH;
            assert((c + 1) % 4 == (c % 4 + 1) % 4) by (nonlinear_arith);
        }
        assert(out@ =~= old(out)@ + expanded(s@.take(it.index() + 1)));
    }
    assert(s@.take(s@.len() as int) =~= s@);
}

/// Floors `idx` down to the nearest character boundary of `s`, clamping into
/// range first, so slicing at the result never splits a character.
pub fn floor_boundary(s: &str, idx: usize) -> (at: usize)
    requires
        s.spec_bytes().len() <= usize::MAX,
    ensures
        at == floor_to_boundary(s.spec_bytes(), idx as int),
        at <= idx,
        at <= s.spec_bytes().len(),
        is_char_boundary(s.spec_bytes(), at as int),
        forall|k: int|
            at < k <= idx && k <= s.spec_bytes().len() ==> !is_char_boundary(
                s.spec_bytes(),
                k,
            ),
{
    let len = s.len();
    let mut at = if idx < len {
        idx
    } else {
        len
    };
    while at > 0 && !s.is_char_boundary(at)
        invariant
            at <= len,
            len == s.spec_bytes().len(),
            at <= idx,
            floor_to_boundary(s.spec_bytes(), at as int) == floor_to_boundary(
                s.spec_bytes(),
                idx as int,
            ),
            forall|k: int|
                at < k <= idx && k <= len ==> !is_char_boundary(s.spec_bytes(), k),
        decreases at,
    {
        at = at - 1;
    }
    at
}

/// The ASCII digit for `d`.
pub(crate) fn digit(d: u64) -> (c: char)
    requires
        d < 10,
    ensures
        c == digit_char(d as nat),
{
    ((d + 48) as u8) as char
}

/// Appends the decimal representation of `n` to `out`.
pub(crate) fn push_decimal(out: &mut String, n: u64)
    ensures
        final(out)@ == old(out)@ + decimal(n as nat),
    decreases n,
{
    if n >= 10 {
        push_decimal(out, n / 10);
    }
    push_char(out, digit(n % 10));
    assert(out@ =~= old(out)@ + decimal(n as nat));
}

/// A larger number never has fewer digits.
pub proof fn lemma_decimal_monotone(n: nat, m: nat)
    requires
        n <= m,
    ensures
        1 <= decimal(n).len() <= decimal(m).len(),
    decreases m,
{
    if n >= 10 {
        lemma_decimal_monotone(n / 10, m / 10);
    } else if m >= 10 {
        lemma_decimal_monotone(0, m / 10);
    }
}

/// The number of decimal digits in `n` (one for `0`).
pub fn decimal_width(value: u32) -> (width: usize)
    ensures
        width == decimal(value as nat).len(),
{
    proof {
        lemma_decimal_monotone(value as nat, u32::MAX as nat);
        reveal_with_fuel(decimal, 11);
        assert(decimal(u32::MAX as nat).len() == 10);
    }
    let mut n = value;
    let mut width: usize = 1;
    while n >= 10
        invariant
            1 <= width <= 10,
            decimal(n as nat).len() + width - 1 == decimal(value as nat).len(),
            decimal(value as nat).len() <= 10,
        decreases n,
    {
        n = n / 10;
        proof {
            lemma_decimal_monotone(n as nat, n as nat);
        }
        width = width + 1;
    }
    width
}

/// Expanding tabs turns a string into exactly as many characters as it is
/// columns wide, none of them a tab.
pub proof fn law_expanded_fills_columns(s: Seq<char>)
    ensures
        expanded(s).len() == visual_columns(s),
        forall|i: int| 0 <= i < expanded(s).len() ==> expanded(s)[i] != '\t',
    decreases s.len(),
{
    if s.len() > 0 {
        law_expanded_fills_columns(s.drop_last());
    }
}

/// Expanding tabs keeps prefixes: the expansion of the first `i` characters
/// is exactly the first `visual_columns` of them of the whole expansion, so
/// text after a prefix is printed starting at the prefix's display width.
pub proof fn law_expanded_keeps_prefixes(s: Seq<char>, i: int)
    requires
        0 <= i <= s.len(),
    ensures
        visual_columns(s.take(i)) <= visual_columns(s),
        expanded(s).take(visual_columns(s.take(i)) as int) == expanded(s.take(i)),
    decreases s.len(),
{
    lemma_columns_prefix(s, i);
    law_expanded_fills_columns(s.take(i));
    law_expanded_fills_columns(s);
    if i == s.len() {
        assert(s.take(i) =~= s);
        assert(expanded(s).take(visual_columns(s) as int) =~= expanded(s));
    } else {
        let prev = s.drop_last();
        law_expanded_keeps_prefixes(prev, i);
        assert(prev.take(i) =~= s.take(i));
        law_expanded_fills_columns(prev);
        let k = visual_columns(s.take(i)) as int;
        assert(expanded(s).take(k) =~= expanded(prev).take(k));
    }
}

/// The column model step by step: nothing is zero columns wide, a character
/// other than a tab adds one column, a tab moves to the next multiple of four,
/// so text without tabs is as wide as it is long.
pub proof fn law_visual_columns_steps(s: Seq<char>, c: char)
    ensures
        visual_columns(Seq::<char>::empty()) == 0,
        c != '\t' ==> visual_columns(s.push(c)) == visual_columns(s) + 1,
        visual_columns(s.push('\t')) == (visual_columns(s) / 4 + 1) * 4,
        (forall|i: int| 0 <= i < s.len() ==> s[i] != '\t') ==> visual_columns(s) == s.len(),
    decreases s.len(),
{
    assert(s.push(c).drop_last() =~= s);
    assert(s.push('\t').drop_last() =~= s);
    let w = visual_columns(s);
    assert(w + (4 - w % 4) == (w / 4 + 1) * 4) by (nonlinear_arith);
    if s.len() > 0 {
        law_visual_columns_steps(s.drop_last(), c);
        if forall|i: int| 0 <= i < s.len() ==> s[i] != '\t' {
            assert forall|i: int| 0 <= i < s.drop_last().len() implies s.drop_last()[i] != '\t' by {
                assert(s.drop_last()[i] == s[i]);
            }
            assert(s[s.len() - 1] != '\t');
        }
    }
}

/// A string is at least one column per character wide and at most four,
/// never narrower than a prefix of it, and widths add up from a tab stop.
pub proof fn law_visual_columns_bounds(a: Seq<char>, b: Seq<char>)
    ensures
        a.len() <= visual_columns(a) <= 4 * a.len(),
        visual_columns(a) <= visual_columns(a + b),
        visual_columns(a) % 4 == 0 ==> visual_columns(a + b) == visual_columns(a) + visual_columns(
            b,
        ),
    decreases b.len(),
{
    lemma_columns_bound(a);
    lemma_columns_at_least_length(a);
    if b.len() == 0 {
        assert(a + b =~= a);
    } else {
        law_visual_columns_bounds(a, b.drop_last());
        assert((a + b).drop_last() =~= a + b.drop_last());
        assert((a + b).last() == b.last());
        let x = visual_columns(a);
        let y = visual_columns(b.drop_last());
        if x % 4 == 0 {
            assert((x + y) % 4 == y % 4) by (nonlinear_arith)
                requires
                    x % 4 == 0,
            ;
        }
    }
}

proof fn lemma_columns_at_least_length(s: Seq<char>)
    ensures
        s.len() <= visual_columns(s),
    decreases s.len(),
{
    if s.len() > 0 {
        lemma_columns_at_least_length(s.drop_last());
    }
}

/// Flooring onto a character boundary settles: a boundary floors to itself,
/// so flooring twice is flooring once.
pub proof fn law_floor_settles(bytes: Seq<u8>, idx: int, i: int)
    ensures
        0 <= i <= bytes.len() && (i == 0 || is_char_boundary(bytes, i)) ==> floor_to_boundary(
            bytes,
            i,
        ) == i,
        floor_to_boundary(bytes, floor_to_boundary(bytes, idx)) == floor_to_boundary(bytes, idx),
{
    lemma_floor_shape(bytes, idx);
}

/// The floor of any index lies in the text and is `0` or a boundary.
pub(crate) proof fn lemma_floor_shape(bytes: Seq<u8>, idx: int)
    ensures
        0 <= floor_to_boundary(bytes, idx) <= bytes.len(),
        floor_to_boundary(bytes, idx) == 0 || is_char_boundary(
            bytes,
            floor_to_boundary(bytes, idx),
        ),
    decreases idx,
{
    if idx > bytes.len() {
        lemma_floor_shape(bytes, bytes.len() as int);
    } else if idx > 0 && !is_char_boundary(bytes, idx) {
        lemma_floor_shape(bytes, idx - 1);
    }
}

} // verus!
