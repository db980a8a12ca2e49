//! The mathematical model of the editor's text: a sequence of Unicode scalar
//! values in which every line terminator is the two-character sequence
//! carriage-return + line-feed. Line starts, line lengths and the
//! column/row/offset translations are defined here, together with the lemmas
//! that edits (inserting and removing characters) preserve the terminator
//! discipline and the line bookkeeping.

use vstd::prelude::*;

verus! {

/// Number of line-feed characters in `s`.
pub open spec fn count_nl(s: Seq<char>) -> nat
    decreases s.len(),
{
    if s.len() == 0 {
        0
    } else {
        count_nl(s.drop_last()) + (if s.last() == '\n' {
            1nat
        } else {
            0nat
        })
    }
}

/// Total line count of `s`: one more than the number of line feeds
/// (a trailing line feed opens a final empty line).
pub open spec fn line_count(s: Seq<char>) -> nat {
    count_nl(s) + 1
}

/// Rows the cursor may stand on: the final empty line that a trailing
/// terminator opens is not navigable.
pub open spec fn nav_line_count(s: Seq<char>) -> nat {
    if s.len() == 0 {
        1
    } else if s.last() == '\n' {
        count_nl(s)
    } else {
        count_nl(s) + 1
    }
}

/// Offset one past the line-feed that ends the line beginning at or
/// containing `from`, or `s.len()` when no line feed follows.
pub open spec fn line_end_from(s: Seq<char>, from: int) -> int
    decreases s.len() - from,
{
    if from < 0 || from >= s.len() {
        s.len() as int
    } else if s[from] == '\n' {
        from + 1
    } else {
        line_end_from(s, from + 1)
    }
}

/// Offset of the first character of line `row` (row 0 is the start of the
/// text); rows past the last line start at `s.len()`.
pub open spec fn line_start(s: Seq<char>, row: int) -> int
    decreases row,
{
    if row <= 0 {
        0
    } else {
        let prev = line_start(s, row - 1);
        if prev >= s.len() {
            s.len() as int
        } else {
            line_end_from(s, prev)
        }
    }
}

/// Offset one past the end of line `row`, terminator included.
pub open spec fn line_end(s: Seq<char>, row: int) -> int {
    let st = line_start(s, row);
    if st >= s.len() {
        s.len() as int
    } else {
        line_end_from(s, st)
    }
}

/// Length of line `row`, including its two-character terminator; the final
/// line has no terminator.
pub open spec fn spec_line_len(s: Seq<char>, row: int) -> int {
    line_end(s, row) - line_start(s, row)
}

/// Offset of the first carriage return or line feed at or after `from`,
/// or `s.len()` when none follows: the end of the line's content.
pub open spec fn content_end_from(s: Seq<char>, from: int) -> int
    decreases s.len() - from,
{
    if from < 0 || from >= s.len() {
        s.len() as int
    } else if s[from] == '\r' || s[from] == '\n' {
        from
    } else {
        content_end_from(s, from + 1)
    }
}

/// Length of line `row` without its terminator: the columns the cursor
/// may stand before.
pub open spec fn spec_content_len(s: Seq<char>, row: int) -> int {
    content_end_from(s, line_start(s, row)) - line_start(s, row)
}

/// The canonical mapping from a (column, absolute row) position to an
/// absolute character offset: the lengths of all lines strictly before the
/// row, plus the column.
pub open spec fn spec_abs_offset(s: Seq<char>, col: int, row: int) -> int {
    line_start(s, row) + col
}

/// Row containing offset `o`: the number of line feeds strictly before it.
pub open spec fn spec_row_of(s: Seq<char>, o: int) -> int {
    count_nl(s.take(o)) as int
}

/// The position (column, row) of absolute offset `o`.
pub open spec fn spec_offset_to_position(s: Seq<char>, o: int) -> (int, int) {
    (o - line_start(s, spec_row_of(s, o)), spec_row_of(s, o))
}

/// The internal terminator discipline: every carriage return is directly
/// followed by a line feed, and every line feed directly preceded by a
/// carriage return.
pub open spec fn crlf_ok(s: Seq<char>) -> bool {
    (forall|i: int| 0 <= i < s.len() && #[trigger] s[i] == '\r' ==> i + 1 < s.len() && s[i + 1] == '\n')
        && (forall|i: int| 0 <= i < s.len() && #[trigger] s[i] == '\n' ==> 1 <= i && s[i - 1] == '\r')
}

/// What one source character contributes to the normalized buffer text:
/// carriage returns are dropped, line feeds become the two-character
/// terminator, everything else stays.
pub open spec fn norm_char(c: char) -> Seq<char> {
    if c == '\r' {
        Seq::empty()
    } else if c == '\n' {
        seq!['\r', '\n']
    } else {
        seq![c]
    }
}

/// Normalization applied on load: every line terminator of the source text
/// becomes the internal two-character terminator.
pub open spec fn normalize(s: Seq<char>) -> Seq<char>
    decreases s.len(),
{
    if s.len() == 0 {
        Seq::empty()
    } else {
        normalize(s.drop_last()) + norm_char(s.last())
    }
}

/// Reduction applied on save: every carriage return is dropped, so each
/// internal terminator becomes a single line feed.
pub open spec fn strip_cr(s: Seq<char>) -> Seq<char>
    decreases s.len(),
{
    if s.len() == 0 {
        Seq::empty()
    } else if s.last() == '\r' {
        strip_cr(s.drop_last())
    } else {
        strip_cr(s.drop_last()).push(s.last())
    }
}

pub proof fn lemma_count_nl_concat(a: Seq<char>, b: Seq<char>)
    ensures
        count_nl(a + b) == count_nl(a) + count_nl(b),
    decreases b.len(),
{
    if b.len() == 0 {
        assert(a + b =~= a);
    } else {
        lemma_count_nl_concat(a, b.drop_last());
        assert((a + b).drop_last() =~= a + b.drop_last());
        assert((a + b).last() == b.last());
    }
}

pub proof fn lemma_line_end_from_bounds(s: Seq<char>, from: int)
    requires
        0 <= from <= s.len(),
    ensures
        from <= line_end_from(s, from) <= s.len(),
        from < s.len() ==> from < line_end_from(s, from),
    decreases s.len() - from,
{
    if from < s.len() && s[from] != '\n' {
        lemma_line_end_from_bounds(s, from + 1);
    }
}

pub proof fn lemma_line_start_bounds(s: Seq<char>, row: int)
    ensures
        0 <= line_start(s, row) <= s.len(),
    decreases row,
{
    if row > 0 {
        lemma_line_start_bounds(s, row - 1);
        if line_start(s, row - 1) < s.len() {
            lemma_line_end_from_bounds(s, line_start(s, row - 1));
        }
    }
}

pub proof fn lemma_line_start_mono(s: Seq<char>, a: int, b: int)
    requires
        0 <= a <= b,
    ensures
        line_start(s, a) <= line_start(s, b),
    decreases b - a,
{
    if a < b {
        lemma_line_start_mono(s, a, b - 1);
        lemma_line_start_bounds(s, b - 1);
        if line_start(s, b - 1) < s.len() {
            lemma_line_end_from_bounds(s, line_start(s, b - 1));
        }
    }
}

pub proof fn lemma_content_end_from_bounds(s: Seq<char>, from: int)
    requires
        0 <= from <= s.len(),
    ensures
        from <= content_end_from(s, from) <= s.len(),
    decreases s.len() - from,
{
    if from < s.len() && s[from] != '\r' && s[from] != '\n' {
        lemma_content_end_from_bounds(s, from + 1);
    }
}

/// No character of the content region of a line is a carriage return or a
/// line feed.
pub proof fn lemma_content_region_plain(s: Seq<char>, from: int, j: int)
    requires
        0 <= from <= s.len(),
        from <= j < content_end_from(s, from),
    ensures
        s[j] != '\r' && s[j] != '\n',
    decreases j - from,
{
    if j > from {
        lemma_content_region_plain(s, from + 1, j);
    }
}

/// The content of a line ends no later than the line itself.
pub proof fn lemma_content_end_le_line_end(s: Seq<char>, from: int)
    requires
        0 <= from <= s.len(),
    ensures
        content_end_from(s, from) <= line_end_from(s, from),
    decreases s.len() - from,
{
    if from < s.len() && s[from] != '\r' && s[from] != '\n' {
        lemma_content_end_le_line_end(s, from + 1);
    } else if from < s.len() && s[from] == '\r' {
        lemma_line_end_from_bounds(s, from);
    }
}

/// The one general edit: replace the characters in `[a, b)` by `mid`.
/// Inserting is a splice with `a == b`; removing is one with an empty `mid`.
pub open spec fn splice(s: Seq<char>, a: int, b: int, mid: Seq<char>) -> Seq<char> {
    s.take(a) + mid + s.skip(b)
}

pub proof fn lemma_count_nl_splice(s: Seq<char>, a: int, b: int, mid: Seq<char>)
    requires
        0 <= a <= b <= s.len(),
    ensures
        count_nl(splice(s, a, b, mid)) == count_nl(s.take(a)) + count_nl(mid) + count_nl(
            s.skip(b),
        ),
        count_nl(s) == count_nl(s.take(a)) + count_nl(s.subrange(a, b)) + count_nl(s.skip(b)),
{
    lemma_count_nl_concat(s.take(a), mid);
    lemma_count_nl_concat(s.take(a) + mid, s.skip(b));
    assert(s =~= s.take(a) + s.subrange(a, b) + s.skip(b));
    lemma_count_nl_concat(s.take(a), s.subrange(a, b));
    lemma_count_nl_concat(s.take(a) + s.subrange(a, b), s.skip(b));
}

/// A sequence under the terminator discipline never begins with a line feed
/// and never ends with a carriage return.
pub proof fn lemma_crlf_edges(s: Seq<char>)
    requires
        crlf_ok(s),
    ensures
        s.len() > 0 ==> s[0] != '\n' && s[s.len() - 1] != '\r',
{
}

/// Splicing preserves the terminator discipline as long as the cut does not
/// separate a carriage return from its line feed.
pub proof fn lemma_crlf_splice(s: Seq<char>, a: int, b: int, mid: Seq<char>)
    requires
        crlf_ok(s),
        0 <= a <= b <= s.len(),
        crlf_ok(mid),
        a == 0 || s[a - 1] != '\r',
        b == s.len() || s[b] != '\n',
    ensures
        crlf_ok(splice(s, a, b, mid)),
{
    let t = splice(s, a, b, mid);
    let m = mid.len() as int;
    assert(t.len() == a + m + (s.len() - b));
    assert forall|i: int| 0 <= i < t.len() && #[trigger] t[i] == '\r' implies i + 1 < t.len()
        && t[i + 1] == '\n' by {
        if i < a {
            assert(t[i] == s[i]);
            assert(i + 1 < s.len() && s[i + 1] == '\n');
            if i + 1 == a {
                assert(false);
            }
            assert(t[i + 1] == s[i + 1]);
        } else if i < a + m {
            assert(t[i] == mid[i - a]);
            assert(i - a + 1 < m && mid[i - a + 1] == '\n');
            assert(t[i + 1] == mid[i - a + 1]);
        } else {
            let j = i - a - m + b;
            assert(t[i] == s[j]);
            assert(j + 1 < s.len() && s[j + 1] == '\n');
            assert(t[i + 1] == s[j + 1]);
        }
    }
    assert forall|i: int| 0 <= i < t.len() && #[trigger] t[i] == '\n' implies 1 <= i && t[i - 1]
        == '\r' by {
        if i < a {
            assert(t[i] == s[i]);
            assert(1 <= i && s[i - 1] == '\r');
            assert(t[i - 1] == s[i - 1]);
        } else if i < a + m {
            assert(t[i] == mid[i - a]);
            assert(1 <= i - a && mid[i - a - 1] == '\r');
            assert(t[i - 1] == mid[i - a - 1]);
        } else {
            let j = i - a - m + b;
            assert(t[i] == s[j]);
            assert(1 <= j && s[j - 1] == '\r');
            if j == b {
                assert(false);
            }
            assert(t[i - 1] == s[j - 1]);
        }
    }
}

pub proof fn lemma_count_nl_zero(s: Seq<char>)
    requires
        count_nl(s) == 0,
    ensures
        forall|j: int| 0 <= j < s.len() ==> s[j] != '\n',
    decreases s.len(),
{
    if s.len() > 0 {
        lemma_count_nl_zero(s.drop_last());
        assert forall|j: int| 0 <= j < s.len() implies s[j] != '\n' by {
            if j < s.len() - 1 {
                assert(s.drop_last()[j] == s[j]);
            }
        }
    }
}

pub proof fn lemma_count_nl_le_len(s: Seq<char>)
    ensures
        count_nl(s) <= s.len(),
    decreases s.len(),
{
    if s.len() > 0 {
        lemma_count_nl_le_len(s.drop_last());
    }
}

pub proof fn lemma_count_nl_prefix_mono(s: Seq<char>, a: int, b: int)
    requires
        0 <= a <= b <= s.len(),
    ensures
        count_nl(s.take(a)) <= count_nl(s.take(b)),
        count_nl(s.take(b)) == count_nl(s.take(a)) + count_nl(s.subrange(a, b)),
{
    assert(s.take(b) =~= s.take(a) + s.subrange(a, b));
    lemma_count_nl_concat(s.take(a), s.subrange(a, b));
}

pub proof fn lemma_count_nl_step(s: Seq<char>, i: int)
    requires
        0 <= i < s.len(),
    ensures
        count_nl(s.take(i + 1)) == count_nl(s.take(i)) + (if s[i] == '\n' {
            1int
        } else {
            0int
        }),
{
    assert(s.take(i + 1).drop_last() =~= s.take(i));
    assert(s.take(i + 1).last() == s[i]);
}

/// How scanning to the end of a line moves the line-feed count: it picks up
/// exactly the line's terminating line feed, or runs to the end of the text
/// when none is left.
pub proof fn lemma_line_end_from_count(s: Seq<char>, from: int)
    requires
        0 <= from <= s.len(),
    ensures
        from <= line_end_from(s, from) <= s.len(),
        line_end_from(s, from) < s.len() ==> s[line_end_from(s, from) - 1] == '\n',
        line_end_from(s, from) > from && s[line_end_from(s, from) - 1] == '\n' ==> count_nl(
            s.take(line_end_from(s, from)),
        ) == count_nl(s.take(from)) + 1,
        !(line_end_from(s, from) > from && s[line_end_from(s, from) - 1] == '\n') ==> line_end_from(
            s,
            from,
        ) == s.len() && count_nl(s.take(line_end_from(s, from))) == count_nl(s.take(from)),
    decreases s.len() - from,
{
    if from < s.len() {
        if s[from] == '\n' {
            lemma_count_nl_step(s, from);
        } else {
            lemma_count_nl_step(s, from);
            lemma_line_end_from_count(s, from + 1);
        }
    } else {
        assert(s.take(s.len() as int) =~= s.take(from));
    }
}

/// The line-feed count just before the start of line `row` is `row` itself,
/// as long as `row` does not run past the lines of the text; and every line
/// start after the first follows a line feed.
pub proof fn lemma_line_start_count(s: Seq<char>, row: int)
    requires
        0 <= row,
    ensures
        count_nl(s.take(line_start(s, row))) == (if row <= count_nl(s) {
            row
        } else {
            count_nl(s) as int
        }),
        1 <= row <= count_nl(s) ==> 1 <= line_start(s, row) && s[line_start(s, row) - 1] == '\n',
    decreases row,
{
    lemma_line_start_bounds(s, row);
    if row == 0 {
        assert(s.take(0) =~= Seq::<char>::empty());
    } else {
        lemma_line_start_count(s, row - 1);
        lemma_line_start_bounds(s, row - 1);
        let p = line_start(s, row - 1);
        if p >= s.len() {
            assert(s.take(line_start(s, row)) =~= s.take(p));
            assert(count_nl(s.take(s.len() as int)) == count_nl(s)) by {
                assert(s.take(s.len() as int) =~= s);
            }
            if row <= count_nl(s) {
                assert(count_nl(s.take(p)) == row - 1);
                assert(count_nl(s.take(s.len() as int)) == count_nl(s));
                assert(s.take(p) =~= s);
                assert(false);
            }
        } else {
            lemma_line_end_from_count(s, p);
            let e = line_end_from(s, p);
            if e > p && s[e - 1] == '\n' {
                if row - 1 > count_nl(s) {
                    lemma_count_nl_prefix_mono(s, p, e);
                    lemma_count_nl_prefix_mono(s, e, s.len() as int);
                    assert(s.take(s.len() as int) =~= s);
                    assert(false);
                }
                if row - 1 == count_nl(s) {
                    lemma_count_nl_prefix_mono(s, e, s.len() as int);
                    assert(s.take(s.len() as int) =~= s);
                    assert(count_nl(s.take(e)) == count_nl(s) + 1);
                    assert(false);
                }
            } else {
                assert(e == s.len());
                assert(count_nl(s.take(e)) == count_nl(s)) by {
                    assert(s.take(e) =~= s);
                }
                if row <= count_nl(s) {
                    assert(count_nl(s.take(p)) == row - 1);
                    assert(false);
                }
            }
        }
    }
}

/// Starting anywhere before line `row`'s terminator, the cursor arithmetic
/// needs: for a row within the text's lines, the character just before the
/// line start is a line feed, and under the terminator discipline a carriage
/// return stands before that.
pub proof fn lemma_line_start_terminated(s: Seq<char>, row: int)
    requires
        crlf_ok(s),
        1 <= row <= count_nl(s),
    ensures
        2 <= line_start(s, row) <= s.len(),
        s[line_start(s, row) - 1] == '\n',
        s[line_start(s, row) - 2] == '\r',
{
    lemma_line_start_count(s, row);
    lemma_line_start_bounds(s, row);
}

/// A line feed at or after the start of line `ln` means the text has more
/// than `ln` line feeds: line `ln` is not the final line.
pub proof fn lemma_nl_after_line_start(s: Seq<char>, ln: int, p: int)
    requires
        0 <= ln <= count_nl(s),
        line_start(s, ln) <= p < s.len(),
        s[p] == '\n',
    ensures
        ln + 1 <= count_nl(s),
{
    let ls = line_start(s, ln);
    lemma_line_start_count(s, ln);
    lemma_line_start_bounds(s, ln);
    lemma_count_nl_prefix_mono(s, ls, p + 1);
    lemma_count_nl_prefix_mono(s, p + 1, s.len() as int);
    assert(s.take(s.len() as int) =~= s);
    if count_nl(s.subrange(ls, p + 1)) == 0 {
        lemma_count_nl_zero(s.subrange(ls, p + 1));
        assert(s.subrange(ls, p + 1)[p - ls] == s[p]);
        assert(false);
    }
}

/// The start of the line containing offset `o` lies at or before `o`.
pub proof fn lemma_line_start_le_offset(s: Seq<char>, o: int)
    requires
        0 <= o <= s.len(),
    ensures
        0 <= spec_row_of(s, o) <= count_nl(s),
        0 <= line_start(s, spec_row_of(s, o)) <= o,
{
    let row = spec_row_of(s, o);
    lemma_count_nl_prefix_mono(s, o, s.len() as int);
    assert(s.take(s.len() as int) =~= s);
    lemma_line_start_count(s, row);
    lemma_line_start_bounds(s, row);
    let ls = line_start(s, row);
    if ls > o {
        assert(row >= 1) by {
            if row == 0 {
                assert(line_start(s, 0) == 0);
            }
        }
        lemma_count_nl_step(s, ls - 1);
        lemma_count_nl_prefix_mono(s, o, ls - 1);
        assert(false);
    }
}

/// If the first line feed at or after `from` stands at `j`, the line ends
/// just past it.
pub proof fn lemma_line_end_from_locate(s: Seq<char>, from: int, j: int)
    requires
        0 <= from <= j < s.len(),
        s[j] == '\n',
        forall|k: int| from <= k < j ==> s[k] != '\n',
    ensures
        line_end_from(s, from) == j + 1,
    decreases j - from,
{
    if from < j {
        lemma_line_end_from_locate(s, from + 1, j);
    }
}

pub proof fn lemma_strip_cr_concat(a: Seq<char>, b: Seq<char>)
    ensures
        strip_cr(a + b) == strip_cr(a) + strip_cr(b),
    decreases b.len(),
{
    if b.len() == 0 {
        assert(a + b =~= a);
        assert(strip_cr(a) + strip_cr(b) =~= strip_cr(a));
    } else {
        lemma_strip_cr_concat(a, b.drop_last());
        assert((a + b).drop_last() =~= a + b.drop_last());
        assert((a + b).last() == b.last());
        if b.last() != '\r' {
            assert(strip_cr(a) + strip_cr(b.drop_last()).push(b.last()) =~= (strip_cr(a)
                + strip_cr(b.drop_last())).push(b.last()));
        }
    }
}

/// Loading's normalization always yields text under the terminator
/// discipline.
pub proof fn lemma_normalize_crlf(s: Seq<char>)
    ensures
        crlf_ok(normalize(s)),
    decreases s.len(),
{
    if s.len() > 0 {
        let t = normalize(s.drop_last());
        let mid = norm_char(s.last());
        lemma_normalize_crlf(s.drop_last());
        lemma_crlf_edges(t);
        lemma_crlf_splice(t, t.len() as int, t.len() as int, mid);
        assert(splice(t, t.len() as int, t.len() as int, mid) =~= t + mid);
    }
}

/// Saving after loading reduces to saving the source text: normalization
/// only moves carriage returns, which saving strips.
pub proof fn lemma_strip_normalize(s: Seq<char>)
    ensures
        strip_cr(normalize(s)) == strip_cr(s),
    decreases s.len(),
{
    if s.len() > 0 {
        lemma_strip_normalize(s.drop_last());
        lemma_strip_cr_concat(normalize(s.drop_last()), norm_char(s.last()));
        let c = s.last();
        if c == '\r' {
            assert(strip_cr(norm_char(c)) =~= Seq::<char>::empty());
            assert(strip_cr(normalize(s)) =~= strip_cr(s.drop_last()));
            assert(strip_cr(s) =~= strip_cr(s.drop_last()));
        } else if c == '\n' {
            assert(strip_cr(Seq::<char>::empty()) == Seq::<char>::empty());
            assert(seq!['\r'].drop_last() =~= Seq::<char>::empty());
            assert(seq!['\r'].last() == '\r');
            assert(strip_cr(seq!['\r']) == Seq::<char>::empty());
            assert(norm_char(c).drop_last() =~= seq!['\r']);
            assert(norm_char(c).last() == '\n');
            assert(strip_cr(norm_char(c)) == strip_cr(seq!['\r']).push('\n'));
            assert(strip_cr(s) == strip_cr(s.drop_last()).push('\n'));
            assert(strip_cr(normalize(s)) =~= strip_cr(s.drop_last()).push('\n'));
        } else {
            assert(strip_cr(Seq::<char>::empty()) == Seq::<char>::empty());
            assert(norm_char(c).drop_last() =~= Seq::<char>::empty());
            assert(norm_char(c).last() == c);
            assert(strip_cr(norm_char(c)) == Seq::<char>::empty().push(c));
            assert(strip_cr(s) == strip_cr(s.drop_last()).push(c));
            assert(strip_cr(normalize(s)) =~= strip_cr(s.drop_last()).push(c));
        }
    }
}

/// Text without carriage returns is untouched by saving's reduction.
pub proof fn lemma_strip_cr_id(s: Seq<char>)
    requires
        forall|j: int| 0 <= j < s.len() ==> s[j] != '\r',
    ensures
        strip_cr(s) == s,
    decreases s.len(),
{
    if s.len() > 0 {
        assert(forall|j: int| 0 <= j < s.drop_last().len() ==> s.drop_last()[j] == s[j]);
        lemma_strip_cr_id(s.drop_last());
        assert(strip_cr(s.drop_last()).push(s.last()) =~= s);
    }
}

} // verus!
