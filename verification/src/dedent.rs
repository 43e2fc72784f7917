//! Body of a multiline string: split into lines, drop the leading and
//! trailing blank lines, and strip from every line the indentation common
//! to the non-blank lines (a blank line that cannot be cut there, inside
//! a multi-byte white-space character, becomes empty).
//!
//! Everything here works on the UTF-8 bytes of the body. Lines follow
//! `str::lines` (split at `\n`, a `\r` just before a `\n` is dropped, a
//! final line ending yields no extra line); a line is blank when it
//! consists of Unicode `White_Space` characters only (what
//! `str::trim` removes); indentation counts leading spaces and tabs.

use vstd::prelude::*;

verus! {

/// Index of the first `\n` at or after `i` before `end`, or `end`.
pub open spec fn newline_at_or_after(r: Seq<u8>, i: int, end: int) -> int
    decreases end - i,
{
    if i >= end {
        end
    } else if r[i] == 0x0A {
        i
    } else {
        newline_at_or_after(r, i + 1, end)
    }
}

/// Line spans `(start, end)` of `r[i..]`, in order.
pub open spec fn line_spans(r: Seq<u8>, i: int) -> Seq<(int, int)>
    decreases r.len() - i,
{
    if i >= r.len() {
        seq![]
    } else {
        let k = newline_at_or_after(r, i, r.len() as int);
        if k >= r.len() {
            seq![(i, r.len() as int)]
        } else {
            let e = if k > i && r[k - 1] == 0x0D { k - 1 } else { k };
            proof {
                lemma_newline_bounds(r, i, r.len() as int);
            }
            seq![(i, e)] + line_spans(r, k + 1)
        }
    }
}

pub proof fn lemma_newline_bounds(r: Seq<u8>, i: int, end: int)
    requires
        i <= end,
    ensures
        i <= newline_at_or_after(r, i, end) <= end,
    decreases end - i,
{
    if i < end && r[i] != 0x0A {
        lemma_newline_bounds(r, i + 1, end);
    }
}

/// Byte length of the `White_Space` character encoded at `r[i..end]`,
/// or 0 when none starts there.
pub open spec fn white_space_len(r: Seq<u8>, i: int, end: int) -> int {
    if i < end && (r[i] == 0x09 || r[i] == 0x0A || r[i] == 0x0B || r[i] == 0x0C || r[i] == 0x0D
        || r[i] == 0x20) {
        1
    } else if i + 1 < end && r[i] == 0xC2 && (r[i + 1] == 0x85 || r[i + 1] == 0xA0) {
        2
    } else if i + 2 < end && ((r[i] == 0xE1 && r[i + 1] == 0x9A && r[i + 2] == 0x80) || (r[i]
        == 0xE2 && r[i + 1] == 0x80 && ((0x80 <= r[i + 2] <= 0x8A) || r[i + 2] == 0xA8 || r[i
        + 2] == 0xA9 || r[i + 2] == 0xAF)) || (r[i] == 0xE2 && r[i + 1] == 0x81 && r[i + 2]
        == 0x9F) || (r[i] == 0xE3 && r[i + 1] == 0x80 && r[i + 2] == 0x80)) {
        3
    } else {
        0
    }
}

/// `r[i..end]` consists of `White_Space` characters only.
pub open spec fn is_blank(r: Seq<u8>, i: int, end: int) -> bool
    decreases end - i,
{
    if i >= end {
        true
    } else {
        let w = white_space_len(r, i, end);
        w > 0 && is_blank(r, i + w, end)
    }
}

/// End of the run of spaces and tabs starting at `i`.
pub open spec fn indent_end(r: Seq<u8>, i: int, end: int) -> int
    decreases end - i,
{
    if i < end && (r[i] == 0x20 || r[i] == 0x09) {
        indent_end(r, i + 1, end)
    } else {
        i
    }
}

pub open spec fn span_blank(r: Seq<u8>, sp: (int, int)) -> bool {
    is_blank(r, sp.0, sp.1)
}

pub open spec fn span_indent(r: Seq<u8>, sp: (int, int)) -> int {
    indent_end(r, sp.0, sp.1) - sp.0
}

/// Smallest indentation among the non-blank spans of `spans[..n]`.
pub open spec fn min_indent(r: Seq<u8>, spans: Seq<(int, int)>, n: int) -> Option<int>
    decreases n,
{
    if n <= 0 {
        None
    } else {
        let rest = min_indent(r, spans, n - 1);
        if span_blank(r, spans[n - 1]) {
            rest
        } else {
            let k = span_indent(r, spans[n - 1]);
            match rest {
                Some(m) => Some(if k < m { k } else { m }),
                None => Some(k),
            }
        }
    }
}

/// Index of the first non-blank span at or after `i`.
pub open spec fn first_nonblank(r: Seq<u8>, spans: Seq<(int, int)>, i: int) -> Option<int>
    decreases spans.len() - i,
{
    if i >= spans.len() {
        None
    } else if !span_blank(r, spans[i]) {
        Some(i)
    } else {
        first_nonblank(r, spans, i + 1)
    }
}

/// Index of the last non-blank span before `n`.
pub open spec fn last_nonblank(r: Seq<u8>, spans: Seq<(int, int)>, n: int) -> Option<int>
    decreases n,
{
    if n <= 0 {
        None
    } else if !span_blank(r, spans[n - 1]) {
        Some(n - 1)
    } else {
        last_nonblank(r, spans, n - 1)
    }
}

/// A line with its first `m` bytes (the common indentation) removed, or
/// whole when it is shorter. A blank line whose `m`-th byte falls inside
/// a multi-byte white-space character (where no cut can be made) becomes
/// empty.
pub open spec fn cut_line(r: Seq<u8>, sp: (int, int), m: int) -> Seq<u8> {
    if sp.1 - sp.0 >= m {
        if span_blank(r, sp) && sp.0 + m < sp.1 && 0x80 <= r[sp.0 + m] <= 0xBF {
            seq![]
        } else {
            r.subrange(sp.0 + m, sp.1)
        }
    } else {
        r.subrange(sp.0, sp.1)
    }
}

/// Spans `a..b` cut by `m` and joined with `\n`.
pub open spec fn join_cut(r: Seq<u8>, spans: Seq<(int, int)>, m: int, a: int, b: int) -> Seq<u8>
    decreases b - a,
{
    if b <= a {
        seq![]
    } else if b == a + 1 {
        cut_line(r, spans[a], m)
    } else {
        join_cut(r, spans, m, a, b - 1) + seq![0x0Au8] + cut_line(r, spans[b - 1], m)
    }
}

/// The dedented body.
pub open spec fn dedent_bytes(r: Seq<u8>) -> Seq<u8> {
    let spans = line_spans(r, 0);
    let m = match min_indent(r, spans, spans.len() as int) {
        Some(m) => m,
        None => 0,
    };
    match first_nonblank(r, spans, 0) {
        None => seq![],
        Some(a) => match last_nonblank(r, spans, spans.len() as int) {
            Some(l) => join_cut(r, spans, m, a, l + 1),
            None => seq![],
        },
    }
}

pub proof fn lemma_line_spans_bounds(r: Seq<u8>, i: int)
    requires
        0 <= i,
    ensures
        forall|k: int|
            0 <= k < line_spans(r, i).len() ==> i <= #[trigger] line_spans(r, i)[k].0 <= line_spans(
                r,
                i,
            )[k].1 <= r.len(),
    decreases r.len() - i,
{
    if i < r.len() {
        let k = newline_at_or_after(r, i, r.len() as int);
        lemma_newline_bounds(r, i, r.len() as int);
        if k < r.len() {
            lemma_line_spans_bounds(r, k + 1);
            let e: int = if k > i && r[k - 1] == 0x0D {
                k - 1
            } else {
                k
            };
            let rest = line_spans(r, k + 1);
            assert(line_spans(r, i) == seq![(i, e)] + rest);
            assert forall|j: int| 0 <= j < line_spans(r, i).len() implies i <= #[trigger] line_spans(
                r,
                i,
            )[j].0 <= line_spans(r, i)[j].1 <= r.len() by {
                if j > 0 {
                    assert(line_spans(r, i)[j] == rest[j - 1]);
                }
            }
        }
    }
}

fn white_space_len_at(r: &[u8], i: usize, end: usize) -> (w: usize)
    requires
        i < end <= r@.len(),
    ensures
        w as int == white_space_len(r@, i as int, end as int),
{
    let b0 = r[i];
    if b0 == 0x09 || b0 == 0x0A || b0 == 0x0B || b0 == 0x0C || b0 == 0x0D || b0 == 0x20 {
        return 1;
    }
    if end - i > 1 && b0 == 0xC2 && (r[i + 1] == 0x85 || r[i + 1] == 0xA0) {
        return 2;
    }
    if end - i > 2 {
        let b1 = r[i + 1];
        let b2 = r[i + 2];
        if (b0 == 0xE1 && b1 == 0x9A && b2 == 0x80) || (b0 == 0xE2 && b1 == 0x80 && ((b2 >= 0x80
            && b2 <= 0x8A) || b2 == 0xA8 || b2 == 0xA9 || b2 == 0xAF)) || (b0 == 0xE2 && b1 == 0x81
            && b2 == 0x9F) || (b0 == 0xE3 && b1 == 0x80 && b2 == 0x80) {
            return 3;
        }
    }
    0
}

fn line_is_blank(r: &[u8], start: usize, end: usize) -> (b: bool)
    requires
        start <= end <= r@.len(),
    ensures
        b == is_blank(r@, start as int, end as int),
{
    let mut i: usize = start;
    while i < end
        invariant
            start <= i <= end <= r@.len(),
            is_blank(r@, i as int, end as int) == is_blank(r@, start as int, end as int),
        decreases end - i,
    {
        let w = white_space_len_at(r, i, end);
        if w == 0 {
            return false;
        }
        i = i + w;
    }
    true
}

fn line_indent(r: &[u8], start: usize, end: usize) -> (k: usize)
    requires
        start <= end <= r@.len(),
    ensures
        k as int == indent_end(r@, start as int, end as int) - start,
{
    let mut i: usize = start;
    while i < end && (r[i] == 0x20 || r[i] == 0x09)
        invariant
            start <= i <= end <= r@.len(),
            indent_end(r@, i as int, end as int) == indent_end(r@, start as int, end as int),
        decreases end - i,
    {
        i = i + 1;
    }
    i - start
}

/// Line spans of `r`, as `line_spans` describes them.
fn split_lines(r: &[u8]) -> (spans: Vec<(usize, usize)>)
    ensures
        spans@.len() == line_spans(r@, 0).len(),
        forall|k: int|
            0 <= k < spans@.len() ==> (#[trigger] spans@[k]).0 as int == line_spans(r@, 0)[k].0
                && spans@[k].1 as int == line_spans(r@, 0)[k].1,
{
    let n = r.len();
    let mut spans: Vec<(usize, usize)> = Vec::new();
    let mut i: usize = 0;
    let ghost mut done: Seq<(int, int)> = seq![];
    while i < n
        invariant
            n == r@.len(),
            i <= n,
            done + line_spans(r@, i as int) == line_spans(r@, 0),
            spans@.len() == done.len(),
            forall|k: int|
                0 <= k < spans@.len() ==> (#[trigger] spans@[k]).0 as int == done[k].0
                    && spans@[k].1 as int == done[k].1,
        decreases n - i,
    {
        let mut k: usize = i;
        while k < n && r[k] != 0x0A
            invariant
                i <= k <= n,
                n == r@.len(),
                newline_at_or_after(r@, k as int, n as int) == newline_at_or_after(
                    r@,
                    i as int,
                    n as int,
                ),
            decreases n - k,
        {
            k = k + 1;
        }
        if k >= n {
            proof {
                assert(line_spans(r@, i as int) == seq![(i as int, n as int)]);
                assert(line_spans(r@, n as int) =~= seq![]);
                done = done + seq![(i as int, n as int)];
            }
            spans.push((i, n));
            i = n;
            proof {
                assert(done + line_spans(r@, i as int) =~= line_spans(r@, 0));
            }
        } else {
            let e: usize = if k > i && r[k - 1] == 0x0D {
                k - 1
            } else {
                k
            };
            proof {
                assert(line_spans(r@, i as int) == seq![(i as int, e as int)] + line_spans(
                    r@,
                    k + 1,
                ));
                assert((done + seq![(i as int, e as int)]) + line_spans(r@, k + 1) =~= done + (seq![
                    (i as int, e as int),
                ] + line_spans(r@, k + 1)));
                done = done + seq![(i as int, e as int)];
            }
            spans.push((i, e));
            i = k + 1;
        }
    }
    proof {
        assert(line_spans(r@, i as int) =~= seq![]);
        assert(done =~= line_spans(r@, 0));
    }
    spans
}

/// `dedent_bytes(r[start..end])`, computed on the whole input slice.
pub fn dedent(input: &[u8], start: usize, end: usize) -> (out: Vec<u8>)
    requires
        start <= end <= input@.len(),
    ensures
        out@ == dedent_bytes(input@.subrange(start as int, end as int)),
{
    let mut raw: Vec<u8> = Vec::new();
    let mut i: usize = start;
    while i < end
        invariant
            start <= i <= end <= input@.len(),
            raw@ == input@.subrange(start as int, i as int),
        decreases end - i,
    {
        raw.push(input[i]);
        i = i + 1;
        assert(raw@ =~= input@.subrange(start as int, i as int));
    }
    let r = raw.as_slice();
    let ghost rs = r@;
    let spans = split_lines(r);
    let ghost gspans = line_spans(rs, 0);
    proof {
        lemma_line_spans_bounds(rs, 0);
    }
    let count = spans.len();
    // Smallest indentation among the non-blank lines.
    let mut min: Option<usize> = None;
    let mut j: usize = 0;
    while j < count
        invariant
            j <= count == spans@.len() == gspans.len(),
            r@ == rs,
            gspans == line_spans(rs, 0),
            forall|k: int|
                0 <= k < spans@.len() ==> (#[trigger] spans@[k]).0 as int == gspans[k].0
                    && spans@[k].1 as int == gspans[k].1,
            forall|k: int|
                0 <= k < gspans.len() ==> 0 <= #[trigger] gspans[k].0 <= gspans[k].1 <= rs.len(),
            match min_indent(rs, gspans, j as int) {
                Some(m) => min matches Some(x) && x as int == m,
                None => min is None,
            },
        decreases count - j,
    {
        let (a, b) = spans[j];
        let blank = line_is_blank(r, a, b);
        if !blank {
            let k = line_indent(r, a, b);
            proof {
                assert(span_indent(rs, gspans[j as int]) == k as int);
            }
            min = match min {
                Some(m) => Some(if k < m { k } else { m }),
                None => Some(k),
            };
        }
        j = j + 1;
    }
    let m: usize = match min {
        Some(m) => m,
        None => 0,
    };
    let mut out: Vec<u8> = Vec::new();
    // First non-blank line.
    let mut first: usize = 0;
    while first < count
        invariant
            first <= count == spans@.len() == gspans.len(),
            r@ == rs,
            forall|k: int|
                0 <= k < spans@.len() ==> (#[trigger] spans@[k]).0 as int == gspans[k].0
                    && spans@[k].1 as int == gspans[k].1,
            forall|k: int|
                0 <= k < gspans.len() ==> 0 <= #[trigger] gspans[k].0 <= gspans[k].1 <= rs.len(),
            first_nonblank(rs, gspans, first as int) == first_nonblank(rs, gspans, 0),
        ensures
            first <= count,
            first_nonblank(rs, gspans, first as int) == first_nonblank(rs, gspans, 0),
            first < count ==> !span_blank(rs, gspans[first as int]),
        decreases count - first,
    {
        let (a, b) = spans[first];
        if !line_is_blank(r, a, b) {
            break;
        }
        first = first + 1;
    }
    if first == count {
        proof {
            assert(first_nonblank(rs, gspans, first as int) is None);
            assert(out@ =~= dedent_bytes(rs));
            assert(rs =~= input@.subrange(start as int, end as int));
        }
        return out;
    }
    // One past the last non-blank line.
    let mut last: usize = count;
    while last > 0
        invariant
            first < count,
            last <= count == spans@.len() == gspans.len(),
            r@ == rs,
            forall|k: int|
                0 <= k < spans@.len() ==> (#[trigger] spans@[k]).0 as int == gspans[k].0
                    && spans@[k].1 as int == gspans[k].1,
            forall|k: int|
                0 <= k < gspans.len() ==> 0 <= #[trigger] gspans[k].0 <= gspans[k].1 <= rs.len(),
            last_nonblank(rs, gspans, last as int) == last_nonblank(rs, gspans, count as int),
        ensures
            last <= count,
            last_nonblank(rs, gspans, last as int) == last_nonblank(rs, gspans, count as int),
            last > 0 ==> !span_blank(rs, gspans[last - 1]),
        decreases last,
    {
        let (a, b) = spans[last - 1];
        if !line_is_blank(r, a, b) {
            break;
        }
        last = last - 1;
    }
    proof {
        assert(first_nonblank(rs, gspans, 0) == Some(first as int));
        // a non-blank line exists, so the backward scan stops on it
        lemma_last_nonblank_exists(rs, gspans, first as int, count as int);
        assert(last_nonblank(rs, gspans, count as int) == Some(last - 1));
    }
    let mut idx: usize = first;
    while idx < last
        invariant
            first < last <= count == spans@.len() == gspans.len(),
            first <= idx <= last,
            r@ == rs,
            forall|k: int|
                0 <= k < spans@.len() ==> (#[trigger] spans@[k]).0 as int == gspans[k].0
                    && spans@[k].1 as int == gspans[k].1,
            forall|k: int|
                0 <= k < gspans.len() ==> 0 <= #[trigger] gspans[k].0 <= gspans[k].1 <= rs.len(),
            out@ == join_cut(rs, gspans, m as int, first as int, idx as int),
        decreases last - idx,
    {
        let (a, b) = spans[idx];
        if idx > first {
            out.push(0x0A);
        }
        let from: usize = if b - a >= m {
            if a + m < b && r[a + m] >= 0x80 && r[a + m] <= 0xBF && line_is_blank(r, a, b) {
                b
            } else {
                a + m
            }
        } else {
            a
        };
        let ghost before = out@;
        let mut t: usize = from;
        while t < b
            invariant
                a <= from <= t <= b <= rs.len(),
                r@ == rs,
                out@ == before + rs.subrange(from as int, t as int),
            decreases b - t,
        {
            out.push(r[t]);
            t = t + 1;
            assert(out@ =~= before + rs.subrange(from as int, t as int));
        }
        proof {
            assert(cut_line(rs, gspans[idx as int], m as int) == rs.subrange(from as int, b as int));
            if idx > first {
                assert(join_cut(rs, gspans, m as int, first as int, idx + 1) == join_cut(
                    rs,
                    gspans,
                    m as int,
                    first as int,
                    idx as int,
                ) + seq![0x0Au8] + cut_line(rs, gspans[idx as int], m as int));
            } else {
                assert(join_cut(rs, gspans, m as int, first as int, idx + 1) == cut_line(
                    rs,
                    gspans[idx as int],
                    m as int,
                ));
            }
            assert(out@ =~= join_cut(rs, gspans, m as int, first as int, idx + 1));
        }
        idx = idx + 1;
    }
    proof {
        assert(rs =~= input@.subrange(start as int, end as int));
    }
    out
}

proof fn lemma_last_nonblank_exists(r: Seq<u8>, spans: Seq<(int, int)>, f: int, n: int)
    requires
        0 <= f < n <= spans.len(),
        !span_blank(r, spans[f]),
    ensures
        last_nonblank(r, spans, n) matches Some(l) && f <= l < n,
    decreases n,
{
    if n - 1 != f && span_blank(r, spans[n - 1]) {
        lemma_last_nonblank_exists(r, spans, f, n - 1);
    }
}


proof fn lemma_newline_free(r: Seq<u8>, i: int, end: int)
    requires
        i <= end <= r.len(),
    ensures
        forall|j: int| i <= j < newline_at_or_after(r, i, end) ==> #[trigger] r[j] != 0x0A,
    decreases end - i,
{
    if i < end && r[i] != 0x0A {
        lemma_newline_free(r, i + 1, end);
    }
}

/// No line span holds a line feed.
proof fn lemma_spans_newline_free(r: Seq<u8>, i: int)
    requires
        0 <= i,
    ensures
        forall|k: int, j: int|
            #![trigger line_spans(r, i)[k], r[j]]
            0 <= k < line_spans(r, i).len() && line_spans(r, i)[k].0 <= j < line_spans(r, i)[k].1
                ==> r[j] != 0x0A,
    decreases r.len() - i,
{
    if i < r.len() {
        let k = newline_at_or_after(r, i, r.len() as int);
        lemma_newline_bounds(r, i, r.len() as int);
        lemma_newline_free(r, i, r.len() as int);
        if k < r.len() {
            lemma_spans_newline_free(r, k + 1);
            let rest = line_spans(r, k + 1);
            let e: int = if k > i && r[k - 1] == 0x0D {
                k - 1
            } else {
                k
            };
            assert(line_spans(r, i) == seq![(i, e)] + rest);
            assert forall|q: int, j: int|
                #![trigger line_spans(r, i)[q], r[j]]
                0 <= q < line_spans(r, i).len() && line_spans(r, i)[q].0 <= j < line_spans(
                    r,
                    i,
                )[q].1 implies r[j] != 0x0A by {
                if q > 0 {
                    assert(line_spans(r, i)[q] == rest[q - 1]);
                }
            }
        }
    }
}

/// A line made of spaces and tabs only is blank.
proof fn lemma_all_indent_is_blank(r: Seq<u8>, i: int, end: int)
    requires
        i <= end,
        indent_end(r, i, end) == end,
    ensures
        is_blank(r, i, end),
    decreases end - i,
{
    if i < end {
        lemma_all_indent_is_blank(r, i + 1, end);
    }
}

proof fn lemma_indent_bounds(r: Seq<u8>, i: int, end: int)
    requires
        i <= end,
    ensures
        i <= indent_end(r, i, end) <= end,
    decreases end - i,
{
    if i < end && (r[i] == 0x20 || r[i] == 0x09) {
        lemma_indent_bounds(r, i + 1, end);
    }
}

/// The common indentation is at most that of every non-blank line.
proof fn lemma_min_indent_le(r: Seq<u8>, spans: Seq<(int, int)>, n: int, k: int)
    requires
        0 <= k < n <= spans.len(),
        !span_blank(r, spans[k]),
    ensures
        min_indent(r, spans, n) matches Some(m) && m <= span_indent(r, spans[k]),
    decreases n,
{
    if k < n - 1 {
        lemma_min_indent_le(r, spans, n - 1, k);
    }
}

proof fn lemma_first_nonblank(r: Seq<u8>, spans: Seq<(int, int)>, i: int)
    requires
        0 <= i,
    ensures
        first_nonblank(r, spans, i) matches Some(a) ==> i <= a < spans.len() && !span_blank(
            r,
            spans[a],
        ) && forall|j: int| i <= j < a ==> span_blank(r, #[trigger] spans[j]),
    decreases spans.len() - i,
{
    if i < spans.len() && span_blank(r, spans[i]) {
        lemma_first_nonblank(r, spans, i + 1);
    }
}

proof fn lemma_last_nonblank(r: Seq<u8>, spans: Seq<(int, int)>, n: int)
    ensures
        last_nonblank(r, spans, n) matches Some(l) ==> 0 <= l < n && !span_blank(r, spans[l]),
    decreases n,
{
    if n > 0 && span_blank(r, spans[n - 1]) {
        lemma_last_nonblank(r, spans, n - 1);
    }
}

proof fn lemma_join_cut_ends(r: Seq<u8>, spans: Seq<(int, int)>, m: int, a: int, b: int)
    requires
        a < b,
        cut_line(r, spans[a], m).len() > 0,
        cut_line(r, spans[b - 1], m).len() > 0,
    ensures
        join_cut(r, spans, m, a, b).len() > 0,
        join_cut(r, spans, m, a, b)[0] == cut_line(r, spans[a], m)[0],
        join_cut(r, spans, m, a, b).last() == cut_line(r, spans[b - 1], m).last(),
    decreases b - a,
{
    if b > a + 1 {
        let c = cut_line(r, spans[b - 2], m);
        if c.len() > 0 {
            lemma_join_cut_ends(r, spans, m, a, b - 1);
        } else {
            lemma_join_cut_prefix(r, spans, m, a, b - 1);
        }
    }
}

proof fn lemma_join_cut_prefix(r: Seq<u8>, spans: Seq<(int, int)>, m: int, a: int, b: int)
    requires
        a < b,
        cut_line(r, spans[a], m).len() > 0,
    ensures
        join_cut(r, spans, m, a, b).len() > 0,
        join_cut(r, spans, m, a, b)[0] == cut_line(r, spans[a], m)[0],
    decreases b - a,
{
    if b > a + 1 {
        lemma_join_cut_prefix(r, spans, m, a, b - 1);
    }
}

/// A cut of a non-blank line is not empty and holds no line feed.
proof fn lemma_cut_nonblank(r: Seq<u8>, spans: Seq<(int, int)>, k: int, m: int)
    requires
        spans == line_spans(r, 0),
        0 <= k < spans.len(),
        !span_blank(r, spans[k]),
        0 <= m <= span_indent(r, spans[k]),
    ensures
        cut_line(r, spans[k], m).len() > 0,
        cut_line(r, spans[k], m)[0] != 0x0A,
        cut_line(r, spans[k], m).last() != 0x0A,
{
    let sp = spans[k];
    lemma_line_spans_bounds(r, 0);
    lemma_spans_newline_free(r, 0);
    lemma_indent_bounds(r, sp.0, sp.1);
    if indent_end(r, sp.0, sp.1) == sp.1 {
        lemma_all_indent_is_blank(r, sp.0, sp.1);
    }
    let c = cut_line(r, sp, m);
    assert(c == r.subrange(sp.0 + m, sp.1));
    assert(c[0] == r[sp.0 + m]);
    assert(c.last() == r[sp.1 - 1]);
}

/// Leading and trailing blank lines are dropped: the dedented body is
/// empty, or neither starts nor ends with a line break.
pub proof fn law_dedent_drops_outer_blank_lines(r: Seq<u8>)
    ensures
        dedent_bytes(r).len() == 0 || (dedent_bytes(r)[0] != 0x0A && dedent_bytes(r).last()
            != 0x0A),
{
    let spans = line_spans(r, 0);
    let n = spans.len() as int;
    let m = match min_indent(r, spans, n) {
        Some(m) => m,
        None => 0,
    };
    lemma_first_nonblank(r, spans, 0);
    lemma_last_nonblank(r, spans, n);
    if let Some(a) = first_nonblank(r, spans, 0) {
        if let Some(l) = last_nonblank(r, spans, n) {
            assert(a <= l);
            lemma_min_indent_le(r, spans, n, a);
            lemma_min_indent_le(r, spans, n, l);
            lemma_line_spans_bounds(r, 0);
            lemma_indent_bounds(r, spans[a].0, spans[a].1);
            assert(m >= 0) by {
                lemma_min_indent_nonneg(r, spans, n);
            }
            lemma_cut_nonblank(r, spans, a, m);
            lemma_cut_nonblank(r, spans, l, m);
            lemma_join_cut_ends(r, spans, m, a, l + 1);
        }
    }
}

proof fn lemma_last_nonblank_after(r: Seq<u8>, spans: Seq<(int, int)>, n: int)
    requires
        n <= spans.len(),
    ensures
        last_nonblank(r, spans, n) matches Some(l) ==> forall|j: int|
            l < j < n ==> span_blank(r, #[trigger] spans[j]),
        last_nonblank(r, spans, n) is None ==> forall|j: int|
            0 <= j < n ==> span_blank(r, #[trigger] spans[j]),
    decreases n,
{
    if n > 0 && span_blank(r, spans[n - 1]) {
        lemma_last_nonblank_after(r, spans, n - 1);
    }
}

/// The common indentation is that of some non-blank line.
proof fn lemma_min_indent_attained(r: Seq<u8>, spans: Seq<(int, int)>, n: int)
    requires
        n <= spans.len(),
    ensures
        min_indent(r, spans, n) matches Some(m) ==> exists|k: int|
            0 <= k < n && !span_blank(r, #[trigger] spans[k]) && span_indent(r, spans[k]) == m,
    decreases n,
{
    if n > 0 {
        lemma_min_indent_attained(r, spans, n - 1);
        if !span_blank(r, spans[n - 1]) {
            let k = span_indent(r, spans[n - 1]);
            if let Some(m0) = min_indent(r, spans, n - 1) {
                if m0 <= k {
                    let w = choose|w: int|
                        0 <= w < n - 1 && !span_blank(r, #[trigger] spans[w]) && span_indent(
                            r,
                            spans[w],
                        ) == m0;
                    assert(0 <= w < n && !span_blank(r, spans[w]));
                }
            }
        } else if let Some(m0) = min_indent(r, spans, n - 1) {
            let w = choose|w: int|
                0 <= w < n - 1 && !span_blank(r, #[trigger] spans[w]) && span_indent(r, spans[w])
                    == m0;
            assert(0 <= w < n && !span_blank(r, spans[w]));
        }
    }
}

/// Line by line: when some line of the body is not blank, the dedent keeps
/// the lines from the first non-blank one `a` to the last `l`, joined by
/// line breaks; every line before `a` and after `l` is blank. The cut `m`
/// is the smallest indentation (leading spaces and tabs) among the
/// non-blank lines, and each non-blank line loses exactly its first `m`
/// bytes, keeping any further indentation.
pub proof fn law_dedent_lines(r: Seq<u8>, a: int, l: int, m: int)
    requires
        first_nonblank(r, line_spans(r, 0), 0) == Some(a),
        last_nonblank(r, line_spans(r, 0), line_spans(r, 0).len() as int) == Some(l),
        min_indent(r, line_spans(r, 0), line_spans(r, 0).len() as int) == Some(m),
    ensures
        ({
            let spans = line_spans(r, 0);
            &&& 0 <= a <= l < spans.len()
            &&& dedent_bytes(r) == join_cut(r, spans, m, a, l + 1)
            &&& forall|k: int|
                (0 <= k < a || l < k < spans.len()) ==> span_blank(r, #[trigger] spans[k])
            &&& forall|k: int|
                0 <= k < spans.len() && !span_blank(r, #[trigger] spans[k]) ==> m <= span_indent(
                    r,
                    spans[k],
                ) && cut_line(r, spans[k], m) == r.subrange(spans[k].0 + m, spans[k].1)
            &&& exists|k: int|
                0 <= k < spans.len() && !span_blank(r, #[trigger] spans[k]) && span_indent(
                    r,
                    spans[k],
                ) == m
        }),
{
    let spans = line_spans(r, 0);
    let n = spans.len() as int;
    lemma_first_nonblank(r, spans, 0);
    lemma_last_nonblank(r, spans, n);
    lemma_last_nonblank_after(r, spans, n);
    lemma_min_indent_attained(r, spans, n);
    lemma_line_spans_bounds(r, 0);
    if l < a {
        assert(!span_blank(r, spans[l]));
    }
    assert forall|k: int| 0 <= k < spans.len() && !span_blank(r, #[trigger] spans[k]) implies m
        <= span_indent(r, spans[k]) && cut_line(r, spans[k], m) == r.subrange(
        spans[k].0 + m,
        spans[k].1,
    ) by {
        lemma_min_indent_le(r, spans, n, k);
        lemma_indent_bounds(r, spans[k].0, spans[k].1);
    }
}

proof fn lemma_indent_bytes(r: Seq<u8>, i: int, end: int)
    requires
        0 <= i <= end <= r.len(),
    ensures
        forall|j: int| i <= j < indent_end(r, i, end) ==> (#[trigger] r[j] == 0x20 || r[j] == 0x09),
        indent_end(r, i, end) < end ==> !(r[indent_end(r, i, end)] == 0x20 || r[indent_end(r, i, end)]
            == 0x09),
    decreases end - i,
{
    if i < end && (r[i] == 0x20 || r[i] == 0x09) {
        lemma_indent_bytes(r, i + 1, end);
    }
}

/// The indentation the dedent cuts is made of spaces and tabs alike: each
/// non-blank line is at least `m` bytes long and its first `m` bytes are
/// all spaces or tabs, and
/// some non-blank line has a byte other than a space or a tab right after
/// its first `m` bytes (so no longer run of spaces and tabs is common to
/// all non-blank lines).
pub proof fn law_dedent_cuts_spaces_and_tabs(r: Seq<u8>, a: int, l: int, m: int)
    requires
        first_nonblank(r, line_spans(r, 0), 0) == Some(a),
        last_nonblank(r, line_spans(r, 0), line_spans(r, 0).len() as int) == Some(l),
        min_indent(r, line_spans(r, 0), line_spans(r, 0).len() as int) == Some(m),
    ensures
        forall|k: int|
            0 <= k < line_spans(r, 0).len() && !span_blank(r, #[trigger] line_spans(r, 0)[k]) ==> line_spans(
                r,
                0,
            )[k].0 + m <= line_spans(r, 0)[k].1,
        forall|k: int, x: int|
            #![trigger line_spans(r, 0)[k], r[x]]
            0 <= k < line_spans(r, 0).len() && !span_blank(r, line_spans(r, 0)[k])
                && line_spans(r, 0)[k].0 <= x < line_spans(r, 0)[k].0 + m ==> (r[x] == 0x20 || r[x]
                == 0x09),
        exists|k: int|
            0 <= k < line_spans(r, 0).len() && !span_blank(r, #[trigger] line_spans(r, 0)[k])
                && line_spans(r, 0)[k].0 + m < line_spans(r, 0)[k].1 && !(r[line_spans(r, 0)[k].0
                + m] == 0x20 || r[line_spans(r, 0)[k].0 + m] == 0x09),
{
    let spans = line_spans(r, 0);
    let n = spans.len() as int;
    law_dedent_lines(r, a, l, m);
    lemma_line_spans_bounds(r, 0);
    assert forall|k: int|
        0 <= k < line_spans(r, 0).len() && !span_blank(r, #[trigger] line_spans(r, 0)[k]) implies line_spans(
            r,
            0,
        )[k].0 + m <= line_spans(r, 0)[k].1 by {
        let sp = line_spans(r, 0)[k];
        lemma_indent_bounds(r, sp.0, sp.1);
    }
    assert forall|k: int, x: int|
        #![trigger line_spans(r, 0)[k], r[x]]
        0 <= k < line_spans(r, 0).len() && !span_blank(r, line_spans(r, 0)[k])
            && line_spans(r, 0)[k].0 <= x < line_spans(r, 0)[k].0 + m implies (r[x] == 0x20 || r[x]
            == 0x09) by {
        let sp = line_spans(r, 0)[k];
        assert(0 <= sp.0 <= sp.1 <= r.len());
        lemma_indent_bounds(r, sp.0, sp.1);
        lemma_indent_bytes(r, sp.0, sp.1);
        assert(m <= span_indent(r, sp));
        assert(sp.0 <= x < indent_end(r, sp.0, sp.1));
    }
    let k = choose|k: int|
        0 <= k < spans.len() && !span_blank(r, #[trigger] spans[k]) && span_indent(r, spans[k]) == m;
    lemma_indent_bounds(r, spans[k].0, spans[k].1);
    lemma_indent_bytes(r, spans[k].0, spans[k].1);
    if indent_end(r, spans[k].0, spans[k].1) == spans[k].1 {
        lemma_all_indent_is_blank(r, spans[k].0, spans[k].1);
    }
    assert(spans[k].0 + m == indent_end(r, spans[k].0, spans[k].1));
    assert(spans[k].0 + m < spans[k].1);
    assert(!(r[spans[k].0 + m] == 0x20 || r[spans[k].0 + m] == 0x09));
}

/// Line `a` ends at a line feed, or at a carriage return just before
/// one, and line `b` starts right after that line feed.
pub open spec fn lines_joined(r: Seq<u8>, a: (int, int), b: (int, int)) -> bool {
    ||| a.1 < r.len() && r[a.1] == 0x0A && b.0 == a.1 + 1
    ||| a.1 + 1 < r.len() && r[a.1] == 0x0D && r[a.1 + 1] == 0x0A && b.0 == a.1 + 2
}

/// Line `a` runs to the end of the text, or to a line feed (or a carriage
/// return and a line feed) that ends the text.
pub open spec fn line_ends_text(r: Seq<u8>, a: (int, int)) -> bool {
    ||| a.1 == r.len()
    ||| a.1 + 1 == r.len() && r[a.1] == 0x0A
    ||| a.1 + 2 == r.len() && r[a.1] == 0x0D && r[a.1 + 1] == 0x0A
}

proof fn lemma_newline_found(r: Seq<u8>, i: int, end: int)
    requires
        0 <= i <= end <= r.len(),
    ensures
        newline_at_or_after(r, i, end) < end ==> r[newline_at_or_after(r, i, end)] == 0x0A,
    decreases end - i,
{
    if i < end && r[i] != 0x0A {
        lemma_newline_found(r, i + 1, end);
    }
}

proof fn lemma_spans_shape(r: Seq<u8>, i: int)
    requires
        0 <= i <= r.len(),
    ensures
        ({
            let sp = line_spans(r, i);
            &&& (sp.len() == 0 <==> i == r.len())
            &&& sp.len() > 0 ==> sp[0].0 == i && line_ends_text(r, sp.last())
            &&& forall|k: int| 0 <= k < sp.len() - 1 ==> lines_joined(r, #[trigger] sp[k], sp[k + 1])
            &&& forall|k: int|
                0 <= k < sp.len() && (#[trigger] sp[k]).0 < sp[k].1 && sp[k].1 < r.len() && r[sp[k].1]
                    == 0x0A ==> r[sp[k].1 - 1] != 0x0D
        }),
    decreases r.len() - i,
{
    if i < r.len() {
        let k = newline_at_or_after(r, i, r.len() as int);
        lemma_newline_bounds(r, i, r.len() as int);
        lemma_newline_found(r, i, r.len() as int);
        if k < r.len() {
            lemma_spans_shape(r, k + 1);
            lemma_line_spans_bounds(r, k + 1);
            let e: int = if k > i && r[k - 1] == 0x0D {
                k - 1
            } else {
                k
            };
            let rest = line_spans(r, k + 1);
            let sp = line_spans(r, i);
            assert(sp == seq![(i, e)] + rest);
            assert(sp[0] == (i, e));
            if rest.len() > 0 {
                assert(sp[1] == rest[0]);
                assert(lines_joined(r, sp[0], sp[1]));
                assert(sp.last() == rest.last());
            } else {
                assert(sp.last() == (i, e));
            }
            assert forall|j: int| 0 <= j < sp.len() - 1 implies lines_joined(r, #[trigger] sp[j], sp[j + 1]) by {
                if j > 0 {
                    assert(sp[j] == rest[j - 1]);
                    assert(sp[j + 1] == rest[j]);
                }
            }
            assert forall|j: int|
                0 <= j < sp.len() && (#[trigger] sp[j]).0 < sp[j].1 && sp[j].1 < r.len() && r[sp[j].1]
                    == 0x0A implies r[sp[j].1 - 1] != 0x0D by {
                if j > 0 {
                    assert(sp[j] == rest[j - 1]);
                }
            }
        }
    }
}

/// The lines of a body are those `str::lines` yields: they cover the
/// text from its start, in order, each holding no line feed; each ends at
/// a line feed, or at a carriage return just before one (which is then
/// dropped), and the next starts right after that line feed; the last
/// runs to the end of the text or to a final line feed (which yields no
/// empty last line). An empty text has no lines.
pub proof fn law_lines_of_body(r: Seq<u8>)
    ensures
        (line_spans(r, 0).len() == 0 <==> r.len() == 0),
        line_spans(r, 0).len() > 0 ==> line_spans(r, 0)[0].0 == 0 && line_ends_text(
            r,
            line_spans(r, 0).last(),
        ),
        forall|k: int|
            0 <= k < line_spans(r, 0).len() ==> 0 <= (#[trigger] line_spans(r, 0)[k]).0 <= line_spans(
                r,
                0,
            )[k].1 <= r.len(),
        forall|k: int, x: int|
            #![trigger line_spans(r, 0)[k], r[x]]
            0 <= k < line_spans(r, 0).len() && line_spans(r, 0)[k].0 <= x < line_spans(r, 0)[k].1
                ==> r[x] != 0x0A,
        forall|k: int|
            0 <= k < line_spans(r, 0).len() - 1 ==> lines_joined(
                r,
                #[trigger] line_spans(r, 0)[k],
                line_spans(r, 0)[k + 1],
            ),
        forall|k: int|
            0 <= k < line_spans(r, 0).len() && (#[trigger] line_spans(r, 0)[k]).0 < line_spans(
                r,
                0,
            )[k].1 && line_spans(r, 0)[k].1 < r.len() && r[line_spans(r, 0)[k].1] == 0x0A ==> r[line_spans(
                r,
                0,
            )[k].1 - 1] != 0x0D,
{
    lemma_spans_shape(r, 0);
    lemma_line_spans_bounds(r, 0);
    lemma_spans_newline_free(r, 0);
}

proof fn lemma_min_indent_nonneg(r: Seq<u8>, spans: Seq<(int, int)>, n: int)
    requires
        n <= spans.len(),
        forall|k: int| 0 <= k < spans.len() ==> (#[trigger] spans[k]).0 <= spans[k].1,
    ensures
        min_indent(r, spans, n) matches Some(m) ==> m >= 0,
    decreases n,
{
    if n > 0 {
        lemma_min_indent_nonneg(r, spans, n - 1);
        lemma_indent_bounds(r, spans[n - 1].0, spans[n - 1].1);
    }
}

} // verus!
