//! The viewport renderer: given the buffer, the scroll offset, the
//! terminal height and the syntax index's tokens, produce the ordered list
//! of draw spans covering the visible line range. Tokens are clipped to
//! the rows `[scroll, scroll + height)`, walked in ascending start-offset
//! order, and the gaps between them are emitted as untagged text; a tagged
//! span's color is its type tag modulo the palette size. When the parse
//! failed, the visible window is rendered as one untagged span instead.

use vstd::prelude::*;
use crate::buffer::{TextBuffer, push_char};
use crate::text::{
    line_start,
    spec_abs_offset,
    lemma_line_start_bounds,
    lemma_line_start_mono,
};

verus! {

/// Number of colors in the fixed palette.
pub const PALETTE_SIZE: usize = 12;

/// One leaf token of the syntax index: a type tag and an absolute
/// (column, row) span.
#[derive(Debug, Clone, Copy, PartialEq, Eq, Structural)]
pub struct Token {
    pub tag: u16,
    pub start_row: usize,
    pub start_col: usize,
    pub end_row: usize,
    pub end_col: usize,
}

/// A token's span as absolute character offsets, with its
/// palette color; the working value of the renderer.
#[derive(Debug, Clone, Copy, PartialEq, Eq, Structural)]
pub struct ColoredRange {
    pub start: usize,
    pub end: usize,
    pub tag: u16,
}

/// One draw instruction: the characters of `[start, end)`, either
/// untagged or in the palette color `color`.
#[derive(Debug)]
pub struct DrawSpan {
    pub start: usize,
    pub end: usize,
    pub text: String,
    pub color: Option<usize>,
}

/// The abstract form of a span: offsets and color as mathematical values.
pub struct GSpan {
    pub start: int,
    pub end: int,
    pub color: Option<int>,
}

/// The abstract form of a colored range.
pub open spec fn range_view(r: ColoredRange) -> GSpan {
    GSpan {
        start: r.start as int,
        end: r.end as int,
        color: Some((r.tag as int) % (PALETTE_SIZE as int)),
    }
}

pub open spec fn range_views(rs: Seq<ColoredRange>) -> Seq<GSpan> {
    rs.map_values(|r: ColoredRange| range_view(r))
}

/// A draw span realizes an abstract span over a text when offsets and
/// color agree and its characters are exactly the text's in that range.
pub open spec fn gspan_match(d: DrawSpan, g: GSpan, s: Seq<char>) -> bool {
    &&& d.start as int == g.start
    &&& d.end as int == g.end
    &&& (match g.color {
        Some(ci) => d.color matches Some(dc) && dc as int == ci,
        None => d.color is None,
    })
    &&& d.text@ == s.subrange(g.start, g.end)
}

pub open spec fn spans_match(ds: Seq<DrawSpan>, gs: Seq<GSpan>, s: Seq<char>) -> bool {
    ds.len() == gs.len() && (forall|i: int| 0 <= i < ds.len() ==> gspan_match(ds[i], gs[i], s))
}

/// Whether a token's start row lies in the visible range.
pub open spec fn tok_vis(t: Token, scroll: int, height: int) -> bool {
    scroll <= t.start_row < scroll + height
}

/// A position as an absolute offset, clamped to the end of the
/// text: tokens may name positions past the buffer.
pub open spec fn clamped_abs(s: Seq<char>, col: int, row: int) -> int {
    if spec_abs_offset(s, col, row) <= s.len() {
        spec_abs_offset(s, col, row)
    } else {
        s.len() as int
    }
}

/// A token's absolute-offset span: both ends clamped into the text, the
/// end never before the start, the color its tag modulo the palette size.
pub open spec fn tok_gspan(s: Seq<char>, t: Token) -> GSpan {
    let a = clamped_abs(s, t.start_col as int, t.start_row as int);
    let b = clamped_abs(s, t.end_col as int, t.end_row as int);
    GSpan {
        start: a,
        end: if b >= a {
            b
        } else {
            a
        },
        color: Some((t.tag as int) % (PALETTE_SIZE as int)),
    }
}

/// The visible tokens' spans, in token order: tokens starting outside the
/// visible rows are discarded.
pub open spec fn visible_ranges(s: Seq<char>, toks: Seq<Token>, scroll: int, height: int) -> Seq<
    GSpan,
>
    decreases toks.len(),
{
    if toks.len() == 0 {
        Seq::empty()
    } else {
        visible_ranges(s, toks.drop_last(), scroll, height) + (if tok_vis(
            toks.last(),
            scroll,
            height,
        ) {
            seq![tok_gspan(s, toks.last())]
        } else {
            Seq::empty()
        })
    }
}

/// Insertion into a start-sorted sequence, after any equal starts.
pub open spec fn insert_by_start(v: GSpan, gs: Seq<GSpan>) -> Seq<GSpan>
    decreases gs.len(),
{
    if gs.len() == 0 {
        seq![v]
    } else if v.start < gs[0].start {
        seq![v] + gs
    } else {
        seq![gs[0]] + insert_by_start(v, gs.skip(1))
    }
}

/// Stable insertion sort by start offset: the renderer walks entries in
/// ascending start order whatever order the traversal produced them in.
pub open spec fn sort_by_start(gs: Seq<GSpan>) -> Seq<GSpan>
    decreases gs.len(),
{
    if gs.len() == 0 {
        Seq::empty()
    } else {
        insert_by_start(gs.last(), sort_by_start(gs.drop_last()))
    }
}

/// The renderer's walk: for each entry in order, the gap since the last
/// emitted offset comes out untagged, then the entry's own range, clipped
/// to start no earlier than what was already emitted, comes out in the
/// entry's color; the last emitted offset advances to that range's end.
pub open spec fn walk_spans(gs: Seq<GSpan>, last: int) -> Seq<GSpan>
    decreases gs.len(),
{
    if gs.len() == 0 {
        Seq::empty()
    } else {
        let g = gs[0];
        let a = if g.start >= last {
            g.start
        } else {
            last
        };
        let b = if g.end >= a {
            g.end
        } else {
            a
        };
        let tagged = GSpan { start: a, end: b, color: g.color };
        if g.start > last {
            seq![GSpan { start: last, end: g.start, color: None }, tagged] + walk_spans(
                gs.skip(1),
                b,
            )
        } else {
            seq![tagged] + walk_spans(gs.skip(1), b)
        }
    }
}

/// The whole renderer: clip the tokens to the visible rows, order them by
/// start offset, and walk them from the offset of the viewport's top left
/// corner.
pub open spec fn spec_render(s: Seq<char>, scroll: int, height: int, toks: Seq<Token>) -> Seq<
    GSpan,
> {
    walk_spans(sort_by_start(visible_ranges(s, toks, scroll, height)), line_start(s, scroll))
}

/// The fallback for a failed parse: the visible window as one untagged
/// span.
pub open spec fn spec_render_plain(s: Seq<char>, scroll: int, height: int) -> GSpan {
    GSpan { start: line_start(s, scroll), end: line_start(s, scroll + height), color: None }
}

/// Ascending start offsets.
pub open spec fn sorted_by_start(gs: Seq<GSpan>) -> bool {
    forall|i: int, j: int|
        0 <= i <= j < gs.len() ==> (#[trigger] gs[i]).start <= (#[trigger] gs[j]).start
}

/// The index where `insert_by_start` places its entry: just before the
/// first one with a larger start.
spec fn first_gt(v: GSpan, gs: Seq<GSpan>) -> int
    decreases gs.len(),
{
    if gs.len() == 0 {
        0
    } else if v.start < gs[0].start {
        0
    } else {
        1 + first_gt(v, gs.skip(1))
    }
}

proof fn lemma_first_gt(v: GSpan, gs: Seq<GSpan>)
    ensures
        0 <= first_gt(v, gs) <= gs.len(),
        forall|k: int| 0 <= k < first_gt(v, gs) ==> (#[trigger] gs[k]).start <= v.start,
        first_gt(v, gs) < gs.len() ==> gs[first_gt(v, gs)].start > v.start,
    decreases gs.len(),
{
    if gs.len() > 0 && v.start >= gs[0].start {
        lemma_first_gt(v, gs.skip(1));
        let j = first_gt(v, gs);
        assert forall|k: int| 0 <= k < j implies (#[trigger] gs[k]).start <= v.start by {
            if k > 0 {
                assert(gs[k] == gs.skip(1)[k - 1]);
            }
        }
        if j < gs.len() {
            assert(gs[j] == gs.skip(1)[j - 1]);
        }
    }
}

/// Inserting by start offset keeps the entries (as a multiset, one more)
/// and keeps them sorted.
proof fn lemma_insert_by_start_props(v: GSpan, gs: Seq<GSpan>)
    ensures
        insert_by_start(v, gs) == gs.insert(first_gt(v, gs), v),
        insert_by_start(v, gs).len() == gs.len() + 1,
        insert_by_start(v, gs).to_multiset() == gs.to_multiset().insert(v),
        sorted_by_start(gs) ==> sorted_by_start(insert_by_start(v, gs)),
{
    broadcast use vstd::seq_lib::group_to_multiset_ensures;

    lemma_first_gt(v, gs);
    let j = first_gt(v, gs);
    lemma_insert_by_start_at(v, gs, j);
    assert(gs.insert(j, v) =~= gs.take(j) + seq![v] + gs.skip(j));
    let w = insert_by_start(v, gs);
    if sorted_by_start(gs) {
        assert forall|i: int, k: int| 0 <= i <= k < w.len() implies (#[trigger] w[i]).start <= (
        #[trigger] w[k]).start by {
            let wi = if i < j {
                gs[i]
            } else if i == j {
                v
            } else {
                gs[i - 1]
            };
            let wk = if k < j {
                gs[k]
            } else if k == j {
                v
            } else {
                gs[k - 1]
            };
            assert(w[i] == wi && w[k] == wk);
        }
    }
}

/// Sorting by start offset is sound: the result carries exactly the given
/// entries and its start offsets ascend, so the renderer's walk really
/// visits the visible entries in ascending start-offset order.
pub proof fn lemma_sort_by_start_ensures(gs: Seq<GSpan>)
    ensures
        sorted_by_start(sort_by_start(gs)),
        sort_by_start(gs).to_multiset() == gs.to_multiset(),
        sort_by_start(gs).len() == gs.len(),
    decreases gs.len(),
{
    broadcast use vstd::seq_lib::group_to_multiset_ensures;

    if gs.len() == 0 {
        assert(sort_by_start(gs).to_multiset() =~= gs.to_multiset());
    } else {
        lemma_sort_by_start_ensures(gs.drop_last());
        lemma_insert_by_start_props(gs.last(), sort_by_start(gs.drop_last()));
        assert(gs =~= gs.drop_last().push(gs.last()));
        assert(gs.to_multiset() =~= gs.drop_last().to_multiset().insert(gs.last()));
    }
}

/// All abstract spans lie within `[0, hi]`.
pub open spec fn gspans_bounded(gs: Seq<GSpan>, hi: int) -> bool {
    forall|j: int|
        0 <= j < gs.len() ==> 0 <= (#[trigger] gs[j]).start <= hi && 0 <= gs[j].end <= hi
}

proof fn lemma_visible_ranges_bounded(s: Seq<char>, toks: Seq<Token>, scroll: int, height: int)
    ensures
        gspans_bounded(visible_ranges(s, toks, scroll, height), s.len() as int),
    decreases toks.len(),
{
    if toks.len() > 0 {
        lemma_visible_ranges_bounded(s, toks.drop_last(), scroll, height);
        lemma_line_start_bounds(s, toks.last().start_row as int);
        lemma_line_start_bounds(s, toks.last().end_row as int);
        let pre = visible_ranges(s, toks.drop_last(), scroll, height);
        let whole = visible_ranges(s, toks, scroll, height);
        assert forall|j: int| 0 <= j < whole.len() implies 0 <= (#[trigger] whole[j]).start
            <= s.len() && 0 <= whole[j].end <= s.len() by {
            if j < pre.len() {
                assert(whole[j] == pre[j]);
            } else {
                assert(whole[j] == tok_gspan(s, toks.last()));
            }
        }
    }
}

proof fn lemma_insert_by_start_bounded(v: GSpan, gs: Seq<GSpan>, hi: int)
    requires
        0 <= v.start <= hi,
        0 <= v.end <= hi,
        gspans_bounded(gs, hi),
    ensures
        gspans_bounded(insert_by_start(v, gs), hi),
    decreases gs.len(),
{
    let w = insert_by_start(v, gs);
    if gs.len() == 0 {
        assert(w[0] == v);
    } else if v.start < gs[0].start {
        assert forall|j: int| 0 <= j < w.len() implies 0 <= (#[trigger] w[j]).start <= hi && 0
            <= w[j].end <= hi by {
            if j == 0 {
                assert(w[j] == v);
            } else {
                assert(w[j] == gs[j - 1]);
            }
        }
    } else {
        assert forall|k: int| 0 <= k < gs.skip(1).len() implies 0 <= (#[trigger] gs.skip(
            1,
        )[k]).start <= hi && 0 <= gs.skip(1)[k].end <= hi by {
            assert(gs.skip(1)[k] == gs[k + 1]);
        }
        lemma_insert_by_start_bounded(v, gs.skip(1), hi);
        let rec = insert_by_start(v, gs.skip(1));
        assert forall|j: int| 0 <= j < w.len() implies 0 <= (#[trigger] w[j]).start <= hi && 0
            <= w[j].end <= hi by {
            if j == 0 {
                assert(w[j] == gs[0]);
            } else {
                assert(w[j] == rec[j - 1]);
            }
        }
    }
}

proof fn lemma_sort_by_start_bounded(gs: Seq<GSpan>, hi: int)
    requires
        gspans_bounded(gs, hi),
    ensures
        gspans_bounded(sort_by_start(gs), hi),
    decreases gs.len(),
{
    if gs.len() > 0 {
        assert forall|k: int| 0 <= k < gs.drop_last().len() implies 0 <= (#[trigger] gs.drop_last()[k]).start
            <= hi && 0 <= gs.drop_last()[k].end <= hi by {
            assert(gs.drop_last()[k] == gs[k]);
        }
        lemma_sort_by_start_bounded(gs.drop_last(), hi);
        lemma_insert_by_start_bounded(gs.last(), sort_by_start(gs.drop_last()), hi);
    }
}

/// The spans of a walk are consecutive: each lies within `[last, hi]`, the
/// first begins at `last`, and every later one begins exactly where the
/// one before it ended.
proof fn lemma_walk_contiguous(gs: Seq<GSpan>, last: int, hi: int)
    requires
        0 <= last <= hi,
        gspans_bounded(gs, hi),
    ensures
        forall|j: int|
            0 <= j < walk_spans(gs, last).len() ==> last <= (#[trigger] walk_spans(gs, last)[j]).start
                <= walk_spans(gs, last)[j].end <= hi,
        walk_spans(gs, last).len() > 0 ==> walk_spans(gs, last)[0].start == last,
        forall|j: int|
            0 <= j < walk_spans(gs, last).len() - 1 ==> (#[trigger] walk_spans(gs, last)[j]).end
                == walk_spans(gs, last)[j + 1].start,
    decreases gs.len(),
{
    if gs.len() > 0 {
        let g = gs[0];
        let a = if g.start >= last {
            g.start
        } else {
            last
        };
        let b = if g.end >= a {
            g.end
        } else {
            a
        };
        assert(0 <= g.start <= hi && 0 <= g.end <= hi);
        assert forall|k: int| 0 <= k < gs.skip(1).len() implies 0 <= (#[trigger] gs.skip(
            1,
        )[k]).start <= hi && 0 <= gs.skip(1)[k].end <= hi by {
            assert(gs.skip(1)[k] == gs[k + 1]);
        }
        lemma_walk_contiguous(gs.skip(1), b, hi);
        let rest = walk_spans(gs.skip(1), b);
        let w = walk_spans(gs, last);
        let pre: Seq<GSpan> = if g.start > last {
            seq![GSpan { start: last, end: g.start, color: None }, GSpan { start: a, end: b, color: g.color }]
        } else {
            seq![GSpan { start: a, end: b, color: g.color }]
        };
        assert(w == pre + rest);
        assert forall|j: int| 0 <= j < w.len() implies last <= (#[trigger] w[j]).start <= w[j].end
            <= hi by {
            if j < pre.len() {
                assert(w[j] == pre[j]);
            } else {
                assert(w[j] == rest[j - pre.len()]);
            }
        }
        assert(w[0] == pre[0]);
        assert forall|j: int| 0 <= j < w.len() - 1 implies (#[trigger] w[j]).end == w[j + 1].start by {
            if j + 1 < pre.len() {
                assert(w[j] == pre[j] && w[j + 1] == pre[j + 1]);
            } else if j + 1 == pre.len() {
                assert(w[j] == pre[j]);
                assert(w[j + 1] == rest[0]);
            } else {
                assert(w[j] == rest[j - pre.len()] && w[j + 1] == rest[j + 1 - pre.len()]);
            }
        }
    }
}

/// Number of tagged (colored) spans.
pub open spec fn count_tagged(gs: Seq<GSpan>) -> nat
    decreases gs.len(),
{
    if gs.len() == 0 {
        0
    } else {
        count_tagged(gs.drop_last()) + (if gs.last().color is Some {
            1nat
        } else {
            0nat
        })
    }
}

proof fn lemma_count_tagged_concat(a: Seq<GSpan>, b: Seq<GSpan>)
    ensures
        count_tagged(a + b) == count_tagged(a) + count_tagged(b),
    decreases b.len(),
{
    if b.len() == 0 {
        assert(a + b =~= a);
    } else {
        lemma_count_tagged_concat(a, b.drop_last());
        assert((a + b).drop_last() =~= a + b.drop_last());
        assert((a + b).last() == b.last());
    }
}

/// All entries carry a color.
pub open spec fn all_tagged(gs: Seq<GSpan>) -> bool {
    forall|j: int| 0 <= j < gs.len() ==> (#[trigger] gs[j]).color is Some
}

proof fn lemma_walk_tagged_count(gs: Seq<GSpan>, last: int)
    requires
        all_tagged(gs),
    ensures
        count_tagged(walk_spans(gs, last)) == gs.len(),
    decreases gs.len(),
{
    if gs.len() > 0 {
        let g = gs[0];
        let a = if g.start >= last {
            g.start
        } else {
            last
        };
        let b = if g.end >= a {
            g.end
        } else {
            a
        };
        assert forall|k: int| 0 <= k < gs.skip(1).len() implies (#[trigger] gs.skip(1)[k]).color
            is Some by {
            assert(gs.skip(1)[k] == gs[k + 1]);
        }
        lemma_walk_tagged_count(gs.skip(1), b);
        let pre: Seq<GSpan> = if g.start > last {
            seq![GSpan { start: last, end: g.start, color: None }, GSpan { start: a, end: b, color: g.color }]
        } else {
            seq![GSpan { start: a, end: b, color: g.color }]
        };
        assert(walk_spans(gs, last) == pre + walk_spans(gs.skip(1), b));
        lemma_count_tagged_concat(pre, walk_spans(gs.skip(1), b));
        let gap = GSpan { start: last, end: g.start, color: None };
        let tagged = GSpan { start: a, end: b, color: g.color };
        assert(gs[0].color is Some);
        assert(count_tagged(Seq::<GSpan>::empty()) == 0);
        if g.start > last {
            assert(seq![gap].drop_last() =~= Seq::<GSpan>::empty());
            assert(seq![gap].last() == gap);
            assert(count_tagged(seq![gap]) == 0);
            assert(pre.drop_last() =~= seq![gap]);
            assert(pre.last() == tagged);
            assert(count_tagged(pre) == count_tagged(seq![gap]) + 1);
        } else {
            assert(pre.drop_last() =~= Seq::<GSpan>::empty());
            assert(pre.last() == tagged);
            assert(count_tagged(pre) == 1);
        }
    }
}

proof fn lemma_insert_by_start_all_tagged(v: GSpan, gs: Seq<GSpan>)
    requires
        v.color is Some,
        all_tagged(gs),
    ensures
        all_tagged(insert_by_start(v, gs)),
{
    lemma_insert_by_start_props(v, gs);
    let j = first_gt(v, gs);
    let w = insert_by_start(v, gs);
    lemma_first_gt(v, gs);
    lemma_insert_by_start_at(v, gs, j);
    assert forall|k: int| 0 <= k < w.len() implies (#[trigger] w[k]).color is Some by {
        assert(w == gs.take(j) + seq![v] + gs.skip(j));
        if k < j {
            assert(w[k] == gs.take(j)[k]);
            assert(gs.take(j)[k] == gs[k]);
        } else if k > j {
            assert(w[k] == gs.skip(j)[k - j - 1]);
            assert(gs.skip(j)[k - j - 1] == gs[k - 1]);
        } else {
            assert(w[k] == v);
        }
    }
}

proof fn lemma_sort_all_tagged(gs: Seq<GSpan>)
    requires
        all_tagged(gs),
    ensures
        all_tagged(sort_by_start(gs)),
    decreases gs.len(),
{
    if gs.len() > 0 {
        assert forall|k: int| 0 <= k < gs.drop_last().len() implies (#[trigger] gs.drop_last()[k]).color
            is Some by {
            assert(gs.drop_last()[k] == gs[k]);
        }
        lemma_sort_all_tagged(gs.drop_last());
        lemma_insert_by_start_all_tagged(gs.last(), sort_by_start(gs.drop_last()));
    }
}

proof fn lemma_visible_ranges_all_tagged(s: Seq<char>, toks: Seq<Token>, scroll: int, height: int)
    ensures
        all_tagged(visible_ranges(s, toks, scroll, height)),
    decreases toks.len(),
{
    if toks.len() > 0 {
        lemma_visible_ranges_all_tagged(s, toks.drop_last(), scroll, height);
        let pre = visible_ranges(s, toks.drop_last(), scroll, height);
        let whole = visible_ranges(s, toks, scroll, height);
        assert forall|k: int| 0 <= k < whole.len() implies (#[trigger] whole[k]).color is Some by {
            if k < pre.len() {
                assert(whole[k] == pre[k]);
            } else {
                assert(whole[k] == tok_gspan(s, toks.last()));
            }
        }
    }
}

/// The renderer drops no surviving entry: it emits exactly one tagged span
/// for each token that starts in the visible rows, however the entries
/// overlap or were ordered.
pub proof fn lemma_render_walks_every_entry(
    s: Seq<char>,
    scroll: int,
    height: int,
    toks: Seq<Token>,
)
    ensures
        count_tagged(spec_render(s, scroll, height, toks)) == visible_ranges(
            s,
            toks,
            scroll,
            height,
        ).len(),
{
    lemma_visible_ranges_all_tagged(s, toks, scroll, height);
    lemma_sort_all_tagged(visible_ranges(s, toks, scroll, height));
    lemma_sort_by_start_ensures(visible_ranges(s, toks, scroll, height));
    lemma_walk_tagged_count(
        sort_by_start(visible_ranges(s, toks, scroll, height)),
        line_start(s, scroll),
    );
}

/// The renderer never emits a visible character twice: its spans are
/// consecutive — the first begins at the offset of the viewport's top
/// left corner and each later span begins exactly where the one before it
/// ended — so the emitted ranges are pairwise disjoint, and every visible
/// character is colored by at most one entry or left untagged.
pub proof fn lemma_render_contiguous(s: Seq<char>, scroll: int, height: int, toks: Seq<Token>)
    requires
        0 <= scroll,
    ensures
        forall|j: int|
            0 <= j < spec_render(s, scroll, height, toks).len() ==> line_start(s, scroll) <= (
            #[trigger] spec_render(s, scroll, height, toks)[j]).start <= spec_render(
                s,
                scroll,
                height,
                toks,
            )[j].end <= s.len(),
        spec_render(s, scroll, height, toks).len() > 0 ==> spec_render(s, scroll, height, toks)[0].start
            == line_start(s, scroll),
        forall|j: int|
            0 <= j < spec_render(s, scroll, height, toks).len() - 1 ==> (#[trigger] spec_render(
                s,
                scroll,
                height,
                toks,
            )[j]).end == spec_render(s, scroll, height, toks)[j + 1].start,
{
    lemma_line_start_bounds(s, scroll);
    lemma_visible_ranges_bounded(s, toks, scroll, height);
    lemma_sort_by_start_bounded(visible_ranges(s, toks, scroll, height), s.len() as int);
    lemma_walk_contiguous(
        sort_by_start(visible_ranges(s, toks, scroll, height)),
        line_start(s, scroll),
        s.len() as int,
    );
}

/// The characters of `[a, b)` as a string.
fn slice_string(buf: &TextBuffer, a: usize, b: usize) -> (out: String)
    requires
        a <= b <= buf@.len(),
    ensures
        out@ == buf@.subrange(a as int, b as int),
{
    let mut out = String::new();
    let mut i = a;
    while i < b
        invariant
            a <= i <= b <= buf@.len(),
            out@ == buf@.subrange(a as int, i as int),
        decreases b - i,
    {
        push_char(&mut out, buf.char_at(i));
        proof {
            assert(buf@.subrange(a as int, i + 1) =~= buf@.subrange(a as int, i as int).push(
                buf@[i as int],
            ));
        }
        i += 1;
    }
    out
}

/// The abstract form of a draw span: its offsets and color.
pub open spec fn draw_view(d: DrawSpan) -> GSpan {
    GSpan {
        start: d.start as int,
        end: d.end as int,
        color: match d.color {
            Some(c) => Some(c as int),
            None => None,
        },
    }
}

pub open spec fn draw_views(ds: Seq<DrawSpan>) -> Seq<GSpan> {
    ds.map_values(|d: DrawSpan| draw_view(d))
}

/// All ranges lie within the first `n` characters.
pub open spec fn ranges_bounded(rs: Seq<ColoredRange>, n: int) -> bool {
    forall|j: int| 0 <= j < rs.len() ==> (#[trigger] rs[j]).start <= rs[j].end <= n
}

/// All draw spans lie within the first `n` characters of `s` and carry
/// exactly the characters of their range.
pub open spec fn spans_sliced(ds: Seq<DrawSpan>, s: Seq<char>, n: int) -> bool {
    forall|j: int|
        0 <= j < ds.len() ==> (#[trigger] ds[j]).start <= ds[j].end <= n && ds[j].text@
            == s.subrange(ds[j].start as int, ds[j].end as int)
}

/// Inserting before the first larger start is what `insert_by_start`
/// computes.
proof fn lemma_insert_by_start_at(v: GSpan, gs: Seq<GSpan>, j: int)
    requires
        0 <= j <= gs.len(),
        forall|k: int| 0 <= k < j ==> gs[k].start <= v.start,
        j < gs.len() ==> gs[j].start > v.start,
    ensures
        insert_by_start(v, gs) == gs.take(j) + seq![v] + gs.skip(j),
    decreases j,
{
    if j == 0 {
        assert(insert_by_start(v, gs) =~= gs.take(0) + seq![v] + gs.skip(0));
    } else {
        assert(gs[0].start <= v.start);
        lemma_insert_by_start_at(v, gs.skip(1), j - 1);
        assert(seq![gs[0]] + (gs.skip(1).take(j - 1) + seq![v] + gs.skip(1).skip(j - 1)) =~= gs.take(
            j,
        ) + seq![v] + gs.skip(j));
    }
}

/// Render the visible window: clip the tokens to the visible rows, turn
/// them into absolute offset ranges, order them by start offset, and
/// emit the gaps untagged and each entry in its palette color.
pub fn render(buf: &TextBuffer, scroll: usize, height: usize, tokens: &Vec<Token>) -> (spans: Vec<
    DrawSpan,
>)
    requires
        scroll + height <= usize::MAX,
    ensures
        spans_match(spans@, spec_render(buf@, scroll as int, height as int, tokens@), buf@),
{
    let ghost s = buf@;
    let n = buf.len_chars();
    let mut rngs: Vec<ColoredRange> = Vec::new();
    let mut i: usize = 0;
    while i < tokens.len()
        invariant
            i <= tokens@.len(),
            s == buf@,
            n == s.len(),
            scroll + height <= usize::MAX,
            range_views(rngs@) == visible_ranges(
                s,
                tokens@.take(i as int),
                scroll as int,
                height as int,
            ),
            ranges_bounded(rngs@, n as int),
        decreases tokens@.len() - i,
    {
        let t = tokens[i];
        proof {
            assert(tokens@.take(i + 1).drop_last() =~= tokens@.take(i as int));
            assert(tokens@.take(i + 1).last() == tokens@[i as int]);
        }
        if t.start_row >= scroll && t.start_row < scroll + height {
            let a = buf.clamped_offset(t.start_col, t.start_row);
            let b0 = buf.clamped_offset(t.end_col, t.end_row);
            let b = if b0 >= a {
                b0
            } else {
                a
            };
            let r = ColoredRange { start: a, end: b, tag: t.tag };
            proof {
                assert(range_view(r) == tok_gspan(s, tokens@[i as int]));
                assert(range_views(rngs@.push(r)) =~= range_views(rngs@) + seq![range_view(r)]);
            }
            rngs.push(r);
            proof {
                assert forall|j: int| 0 <= j < rngs@.len() implies (#[trigger] rngs@[j]).start
                    <= rngs@[j].end <= n by {
                    if j < rngs@.len() - 1 {
                        assert(rngs@[j] == rngs@.drop_last()[j]);
                    }
                }
            }
        } else {
            proof {
                assert(visible_ranges(s, tokens@.take(i + 1), scroll as int, height as int)
                    =~= range_views(rngs@));
            }
        }
        i += 1;
    }
    proof {
        assert(tokens@.take(tokens@.len() as int) =~= tokens@);
    }
    let ghost unsorted = range_views(rngs@);
    let mut sorted: Vec<ColoredRange> = Vec::new();
    let mut i2: usize = 0;
    while i2 < rngs.len()
        invariant
            i2 <= rngs@.len(),
            s == buf@,
            n == s.len(),
            range_views(sorted@) == sort_by_start(range_views(rngs@.take(i2 as int))),
            ranges_bounded(rngs@, n as int),
            ranges_bounded(sorted@, n as int),
        decreases rngs@.len() - i2,
    {
        let r = rngs[i2];
        let mut j: usize = 0;
        while j < sorted.len() && sorted[j].start <= r.start
            invariant
                j <= sorted@.len(),
                forall|k: int| 0 <= k < j ==> #[trigger] sorted@[k].start <= r.start,
            decreases sorted@.len() - j,
        {
            j += 1;
        }
        proof {
            let gv = range_views(sorted@);
            assert(forall|k: int| 0 <= k < j ==> #[trigger] gv[k].start <= range_view(r).start);
            lemma_insert_by_start_at(range_view(r), gv, j as int);
            assert(range_views(rngs@.take(i2 + 1)).drop_last() =~= range_views(
                rngs@.take(i2 as int),
            ));
            assert(range_views(rngs@.take(i2 + 1)).last() == range_view(rngs@[i2 as int]));
            assert(range_views(sorted@.insert(j as int, r)) =~= gv.take(j as int) + seq![
                range_view(r),
            ] + gv.skip(j as int));
        }
        let ghost sorted_before = sorted@;
        sorted.insert(j, r);
        proof {
            assert forall|k: int| 0 <= k < sorted@.len() implies (#[trigger] sorted@[k]).start
                <= sorted@[k].end <= n by {
                assert(sorted@ == sorted_before.insert(j as int, r));
                if k < j {
                    assert(sorted@[k] == sorted_before[k]);
                } else if k > j {
                    assert(sorted@[k] == sorted_before[k - 1]);
                } else {
                    assert(sorted@[k] == r);
                }
            }
        }
        i2 += 1;
    }
    proof {
        assert(rngs@.take(rngs@.len() as int) =~= rngs@);
    }
    let ghost all = range_views(sorted@);
    proof {
        lemma_line_start_bounds(s, scroll as int);
    }
    let vis0 = buf.line_start_of(scroll);
    let mut out: Vec<DrawSpan> = Vec::new();
    let mut last = vis0;
    let mut i3: usize = 0;
    proof {
        assert(all.skip(0) =~= all);
        assert(draw_views(out@) =~= Seq::<GSpan>::empty());
        assert(draw_views(out@) + walk_spans(all, vis0 as int) =~= walk_spans(all, vis0 as int));
    }
    while i3 < sorted.len()
        invariant
            i3 <= sorted@.len(),
            s == buf@,
            n == s.len(),
            last <= n,
            all == range_views(sorted@),
            ranges_bounded(sorted@, n as int),
            walk_spans(all, vis0 as int) == draw_views(out@) + walk_spans(
                all.skip(i3 as int),
                last as int,
            ),
            spans_sliced(out@, s, n as int),
        decreases sorted@.len() - i3,
    {
        let sp = sorted[i3];
        let ghost g = all[i3 as int];
        proof {
            assert(g == range_view(sorted@[i3 as int]));
            assert(all.skip(i3 as int)[0] == g);
            assert(all.skip(i3 as int).skip(1) =~= all.skip(i3 + 1));
        }
        let a = if sp.start >= last {
            sp.start
        } else {
            last
        };
        let b = if sp.end >= a {
            sp.end
        } else {
            a
        };
        let ghost out_before = out@;
        if sp.start > last {
            let gap_text = slice_string(buf, last, sp.start);
            out.push(DrawSpan { start: last, end: sp.start, text: gap_text, color: None });
        }
        let tag_text = slice_string(buf, a, b);
        out.push(
            DrawSpan { start: a, end: b, text: tag_text, color: Some((sp.tag as usize) % PALETTE_SIZE) },
        );
        proof {
            if sp.start > last {
                assert(draw_views(out@) =~= draw_views(out_before) + seq![
                    GSpan { start: last as int, end: sp.start as int, color: None },
                    GSpan { start: a as int, end: b as int, color: g.color },
                ]);
            } else {
                assert(draw_views(out@) =~= draw_views(out_before) + seq![
                    GSpan { start: a as int, end: b as int, color: g.color },
                ]);
            }
            assert(draw_views(out@) + walk_spans(all.skip(i3 + 1), b as int) =~= draw_views(
                out_before,
            ) + walk_spans(all.skip(i3 as int), last as int));
        }
        last = b;
        i3 += 1;
    }
    proof {
        assert(all.skip(sorted@.len() as int) =~= Seq::<GSpan>::empty());
        assert(walk_spans(all, vis0 as int) =~= draw_views(out@));
        assert forall|k: int| 0 <= k < out@.len() implies gspan_match(
            out@[k],
            spec_render(s, scroll as int, height as int, tokens@)[k],
            s,
        ) by {
            assert(draw_views(out@)[k] == draw_view(out@[k]));
        }
    }
    out
}

/// Render the visible window as a single untagged span, for when the
/// syntax index is unavailable.
pub fn render_plain(buf: &TextBuffer, scroll: usize, height: usize) -> (spans: Vec<DrawSpan>)
    requires
        scroll + height <= usize::MAX,
    ensures
        spans@.len() == 1,
        gspan_match(spans@[0], spec_render_plain(buf@, scroll as int, height as int), buf@),
{
    proof {
        lemma_line_start_mono(buf@, scroll as int, scroll + height);
        lemma_line_start_bounds(buf@, scroll + height);
    }
    let a = buf.line_start_of(scroll);
    let b = buf.line_start_of(scroll + height);
    let text = slice_string(buf, a, b);
    let mut spans: Vec<DrawSpan> = Vec::new();
    spans.push(DrawSpan { start: a, end: b, text, color: None });
    spans
}

} // verus!
