use vstd::prelude::*;
use crate::overlap::{
    bright, lemma_layer_lit_count_bright, lemma_layer_lit_count_sum, lit_column_total, nonzero_count,
};
use crate::rle::{Run, decoded_pixels, expand, lemma_expand_len, lemma_expand_push, total_length};

verus! {

/// One place where a pixel row crosses the outline of a model: the pixel
/// column of the crossing (already clamped to the platform and rounded),
/// whether the outline segment faces into the solid (`true`) or out of it,
/// and the intensity that the model is exposed with.
#[derive(Clone, Copy, Debug, PartialEq, Eq, Structural)]
pub struct Crossing {
    pub position: u64,
    pub facing: bool,
    pub intensity: u8,
}

/// A lit interval `[start, end)` of a pixel row and its intensity.
#[derive(Clone, Copy, Debug, PartialEq, Eq, Structural)]
pub struct Span {
    pub start: u64,
    pub end: u64,
    pub value: u8,
}

/// How far one crossing moves the solid depth: one level in or one out.
pub open spec fn step(c: Crossing) -> int {
    if c.facing {
        1
    } else {
        -1
    }
}

/// The number of solids that the scanline is inside of after passing all of
/// `cs` (entering counts one up, leaving one down).
pub open spec fn depth(cs: Seq<Crossing>) -> int
    decreases cs.len(),
{
    if cs.len() == 0 {
        0
    } else {
        depth(cs.drop_last()) + step(cs.last())
    }
}

/// The crossings at which the scanline enters or leaves the union of all
/// solids: those where the depth goes from zero to non-zero or back. The
/// crossings where overlapping solids meet inside each other are dropped.
pub open spec fn outline(cs: Seq<Crossing>) -> Seq<Crossing>
    decreases cs.len(),
{
    if cs.len() == 0 {
        Seq::empty()
    } else if (depth(cs.drop_last()) == 0) != (depth(cs) == 0) {
        outline(cs.drop_last()).push(cs.last())
    } else {
        outline(cs.drop_last())
    }
}

/// The crossings of a row are in order along the row and on the platform.
pub open spec fn row_in_order(row: Seq<Crossing>, width: nat) -> bool {
    &&& sorted(row)
    &&& forall|i: int| 0 <= i < row.len() ==> row[i].position <= width
}

/// The crossings are in order along the row.
pub open spec fn sorted(row: Seq<Crossing>) -> bool {
    forall|i: int, j: int| 0 <= i <= j < row.len() ==> row[i].position <= row[j].position
}

/// Consecutive pairs of crossings, each an interval from the first to the
/// second, lit with the first one's intensity; an unpaired last crossing is
/// ignored.
pub open spec fn spans(cs: Seq<Crossing>) -> Seq<Span> {
    Seq::new(
        cs.len() / 2,
        |j: int| Span { start: cs[2 * j].position, end: cs[2 * j + 1].position, value: cs[2 * j].intensity },
    )
}

/// The lit intervals of one row.
pub open spec fn row_spans(row: Seq<Crossing>) -> Seq<Span> {
    spans(outline(row))
}

/// Column `x` lies in the span.
pub open spec fn covers(s: Span, x: int) -> bool {
    s.start <= x < s.end
}

/// The intensity of the span that covers column `x`, or 0 if none does.
pub open spec fn covering_value(sp: Seq<Span>, x: int) -> u8
    decreases sp.len(),
{
    if sp.len() == 0 {
        0
    } else if covers(sp[0], x) {
        sp[0].value
    } else {
        covering_value(sp.drop_first(), x)
    }
}

/// The pixels of one row of `width` pixels.
pub open spec fn row_image(row: Seq<Crossing>, width: nat) -> Seq<u8> {
    Seq::new(width, |x: int| covering_value(row_spans(row), x))
}

/// The pixels of a layer: its rows one after the other.
pub open spec fn layer_image(rows: Seq<Seq<Crossing>>, width: nat) -> Seq<u8>
    decreases rows.len(),
{
    if rows.len() == 0 {
        Seq::empty()
    } else {
        layer_image(rows.drop_last(), width) + row_image(rows.last(), width)
    }
}

/// The number of pixels that the spans light.
pub open spec fn lit_count(sp: Seq<Span>) -> int
    decreases sp.len(),
{
    if sp.len() == 0 {
        0
    } else {
        lit_count(sp.drop_last()) + (sp.last().end - sp.last().start)
    }
}

/// The number of pixels that a layer lights.
pub open spec fn layer_lit_count(rows: Seq<Seq<Crossing>>) -> int
    decreases rows.len(),
{
    if rows.len() == 0 {
        0
    } else {
        layer_lit_count(rows.drop_last()) + lit_count(row_spans(rows.last()))
    }
}

/// The spans that light at least one pixel, in order.
pub open spec fn lit_spans(sp: Seq<Span>) -> Seq<Span>
    decreases sp.len(),
{
    if sp.len() == 0 {
        Seq::empty()
    } else if sp.last().start < sp.last().end {
        lit_spans(sp.drop_last()).push(sp.last())
    } else {
        lit_spans(sp.drop_last())
    }
}

/// Spans moved to their place in the layer's pixel buffer: `(start, end,
/// value)` with `offset` added to both ends.
pub open spec fn place(sp: Seq<Span>, offset: int) -> Seq<(int, int, u8)> {
    sp.map_values(|s: Span| (offset + s.start, offset + s.end, s.value))
}

/// All spans of a layer that light a pixel, at their place in the pixel
/// buffer (row `y` starts at `y * width`), in order.
pub open spec fn placed_spans(rows: Seq<Seq<Crossing>>, width: nat) -> Seq<(int, int, u8)>
    decreases rows.len(),
{
    if rows.len() == 0 {
        Seq::empty()
    } else {
        placed_spans(rows.drop_last(), width) + place(
            lit_spans(row_spans(rows.last())),
            (rows.len() - 1) * width,
        )
    }
}

/// Where the last of the placed spans ends (0 when there is none).
pub open spec fn end_of(ps: Seq<(int, int, u8)>) -> int {
    if ps.len() == 0 {
        0
    } else {
        ps.last().1
    }
}

/// The runs for placed spans: before each span a dark run over the gap since
/// the previous one ended, if there is a gap, then a run for the span.
pub open spec fn span_runs(ps: Seq<(int, int, u8)>) -> Seq<Run>
    decreases ps.len(),
{
    if ps.len() == 0 {
        Seq::empty()
    } else {
        let prev = ps.drop_last();
        let s = ps.last();
        let gap = if s.0 > end_of(prev) {
            seq![Run { length: (s.0 - end_of(prev)) as u64, value: 0 }]
        } else {
            Seq::empty()
        };
        span_runs(prev) + gap + seq![Run { length: (s.1 - s.0) as u64, value: s.2 }]
    }
}

/// The runs that encode a layer: those of its lit spans, then a dark run
/// over whatever is left of the `width` x `rows.len()` buffer.
pub open spec fn layer_runs(rows: Seq<Seq<Crossing>>, width: nat) -> Seq<Run> {
    let ps = placed_spans(rows, width);
    let pixels = rows.len() * width;
    span_runs(ps) + if end_of(ps) < pixels {
        seq![Run { length: (pixels - end_of(ps)) as u64, value: 0 }]
    } else {
        Seq::empty()
    }
}

/// Keeps the crossings of a pixel row at which the row enters or leaves the
/// union of the solids, dropping those where solids overlap (so that
/// `<- <- -> ->` becomes `<- ->` and no cavity appears where two models
/// meet).
pub fn outline_crossings(row: &Vec<Crossing>) -> (kept: Vec<Crossing>)
    requires
        row.len() <= i32::MAX,
    ensures
        kept@ == outline(row@),
{
    let mut kept: Vec<Crossing> = Vec::new();
    let mut d: i32 = 0;
    let mut i: usize = 0;
    while i < row.len()
        invariant
            0 <= i <= row.len(),
            row.len() <= i32::MAX,
            -(i as int) <= d <= i,
            d == depth(row@.take(i as int)),
            kept@ == outline(row@.take(i as int)),
        decreases row.len() - i,
    {
        let c = row[i];
        let prev = d;
        if c.facing {
            d = d + 1;
        } else {
            d = d - 1;
        }
        proof {
            assert(row@.take(i + 1).drop_last() =~= row@.take(i as int));
        }
        if (d == 0) != (prev == 0) {
            kept.push(c);
        }
        i = i + 1;
    }
    assert(row@.take(row.len() as int) =~= row@);
    kept
}

/// A row's outline is in order when the row is, and no kept crossing lies
/// past the row's last one.
pub proof fn lemma_outline_sorted(row: Seq<Crossing>)
    requires
        sorted(row),
    ensures
        sorted(outline(row)),
        row.len() > 0 ==> forall|j: int|
            0 <= j < outline(row).len() ==> outline(row)[j].position <= row.last().position,
    decreases row.len(),
{
    if row.len() > 0 {
        let prev = row.drop_last();
        assert(sorted(prev));
        lemma_outline_sorted(prev);
        if prev.len() > 0 {
            assert(prev.last().position <= row.last().position);
        }
    }
}

/// A row's outline is in order and on the platform when the row is.
pub proof fn lemma_outline_in_order(row: Seq<Crossing>, width: nat)
    requires
        row_in_order(row, width),
    ensures
        row_in_order(outline(row), width),
{
    lemma_outline_sorted(row);
}

/// The spans of a row in order are in order: each is a forward interval on
/// the platform and ends before the next one starts.
pub proof fn lemma_spans_in_order(kept: Seq<Crossing>, width: nat)
    requires
        row_in_order(kept, width),
    ensures
        forall|j: int| 0 <= j < spans(kept).len() ==>
            #[trigger] spans(kept)[j].start <= spans(kept)[j].end <= width,
        forall|j: int, k: int| 0 <= j < k < spans(kept).len() ==>
            #[trigger] spans(kept)[j].end <= #[trigger] spans(kept)[k].start,
{
    assert forall|j: int, k: int| 0 <= j < k < spans(kept).len() implies
        #[trigger] spans(kept)[j].end <= #[trigger] spans(kept)[k].start by {
        assert(kept[2 * j + 1].position <= kept[2 * k].position);
    }
    assert forall|j: int| 0 <= j < spans(kept).len() implies
        #[trigger] spans(kept)[j].start <= spans(kept)[j].end <= width by {
        assert(kept[2 * j].position <= kept[2 * j + 1].position);
    }
}

/// No span covers `x`: the column is dark.
pub proof fn lemma_uncovered(sp: Seq<Span>, x: int)
    requires
        forall|j: int| 0 <= j < sp.len() ==> !covers(#[trigger] sp[j], x),
    ensures
        covering_value(sp, x) == 0,
    decreases sp.len(),
{
    if sp.len() > 0 {
        assert(!covers(sp[0], x));
        assert forall|j: int| 0 <= j < sp.drop_first().len() implies !covers(
            #[trigger] sp.drop_first()[j],
            x,
        ) by {
            assert(sp.drop_first()[j] == sp[j + 1]);
        }
        lemma_uncovered(sp.drop_first(), x);
    }
}

/// The first span that covers `x` gives it its value.
proof fn lemma_covered(sp: Seq<Span>, k: int, x: int)
    requires
        0 <= k < sp.len(),
        covers(sp[k], x),
        forall|j: int| 0 <= j < k ==> !covers(#[trigger] sp[j], x),
    ensures
        covering_value(sp, x) == sp[k].value,
    decreases k,
{
    if k > 0 {
        assert(!covers(sp[0], x));
        assert forall|j: int| 0 <= j < k - 1 implies !covers(#[trigger] sp.drop_first()[j], x) by {
            assert(sp.drop_first()[j] == sp[j + 1]);
        }
        lemma_covered(sp.drop_first(), k - 1, x);
    }
}

pub proof fn lemma_layer_image_len(rows: Seq<Seq<Crossing>>, width: nat)
    ensures
        layer_image(rows, width).len() == rows.len() * width,
    decreases rows.len(),
{
    if rows.len() > 0 {
        lemma_layer_image_len(rows.drop_last(), width);
        assert((rows.len() - 1) * width + width == rows.len() * width) by (nonlinear_arith);
    }
}

/// The image of the first `n` rows is the start of the layer's image.
pub proof fn lemma_layer_image_prefix(rows: Seq<Seq<Crossing>>, n: int, width: nat)
    requires
        0 <= n <= rows.len(),
    ensures
        layer_image(rows, width).take(layer_image(rows.take(n), width).len() as int)
            == layer_image(rows.take(n), width),
    decreases rows.len(),
{
    if n == rows.len() {
        assert(rows.take(n) =~= rows);
        assert(layer_image(rows, width).take(layer_image(rows, width).len() as int) =~= layer_image(rows, width));
    } else {
        let prev = rows.drop_last();
        assert(prev.take(n) =~= rows.take(n));
        lemma_layer_image_prefix(prev, n, width);
        let a = layer_image(prev, width);
        let b = row_image(rows.last(), width);
        let m = layer_image(rows.take(n), width).len() as int;
        lemma_layer_image_len(rows.take(n), width);
        lemma_layer_image_len(prev, width);
        assert(n * width <= prev.len() * width) by (nonlinear_arith)
            requires n <= prev.len();
        assert((a + b).take(m) =~= a.take(m));
    }
}

/// The crossings that the outline keeps alternate between entering and
/// leaving the solids, so a row whose crossings bring the depth back to zero
/// keeps an even number of them: they pair up into spans with none left
/// over.
pub proof fn lemma_outline_parity(cs: Seq<Crossing>)
    ensures
        (outline(cs).len() % 2 == 0) == (depth(cs) == 0),
    decreases cs.len(),
{
    if cs.len() > 0 {
        lemma_outline_parity(cs.drop_last());
    }
}

/// -1, 0 or 1 as `d` is below, at or above zero.
pub open spec fn sign(d: int) -> int {
    if d > 0 {
        1
    } else if d < 0 {
        -1
    } else {
        0
    }
}

/// Inside the solids the outline's own depth is one level, on the side that
/// the row went in: `depth(outline(cs))` is the sign of `depth(cs)`.
pub proof fn lemma_outline_depth(cs: Seq<Crossing>)
    ensures
        depth(outline(cs)) == sign(depth(cs)),
    decreases cs.len(),
{
    if cs.len() > 0 {
        let prev = cs.drop_last();
        lemma_outline_depth(prev);
        if (depth(prev) == 0) != (depth(cs) == 0) {
            assert(outline(cs).drop_last() =~= outline(prev));
        }
    }
}

/// Dropping the overlapping crossings twice drops nothing more: every
/// crossing that the outline keeps enters or leaves the solids.
pub proof fn lemma_outline_idempotent(cs: Seq<Crossing>)
    ensures
        outline(outline(cs)) == outline(cs),
    decreases cs.len(),
{
    if cs.len() > 0 {
        let prev = cs.drop_last();
        lemma_outline_idempotent(prev);
        lemma_outline_depth(prev);
        if (depth(prev) == 0) != (depth(cs) == 0) {
            let o = outline(cs);
            assert(o.drop_last() =~= outline(prev));
            assert(o.last() == cs.last());
        }
    }
}

/// How many of the crossings lie at or before column `x`.
pub open spec fn passed_count(row: Seq<Crossing>, x: int) -> nat
    decreases row.len(),
{
    if row.len() == 0 {
        0
    } else {
        passed_count(row.drop_last(), x) + if row.last().position <= x {
            1nat
        } else {
            0nat
        }
    }
}

/// Column `x` lies inside some solid: after the crossings at or before it,
/// the depth is not zero.
pub open spec fn inside(row: Seq<Crossing>, x: int) -> bool {
    depth(row.take(passed_count(row, x) as int)) != 0
}

/// Some span of the row lights column `x`.
pub open spec fn lit(row: Seq<Crossing>, x: int) -> bool {
    exists|k: int| 0 <= k < row_spans(row).len() && covers(#[trigger] row_spans(row)[k], x)
}

/// In a row in order, the crossings at or before `x` come first.
pub proof fn lemma_passed_split(row: Seq<Crossing>, x: int)
    requires
        sorted(row),
    ensures
        passed_count(row, x) <= row.len(),
        forall|i: int| 0 <= i < passed_count(row, x) ==> #[trigger] row[i].position <= x,
        forall|i: int| passed_count(row, x) <= i < row.len() ==> #[trigger] row[i].position > x,
    decreases row.len(),
{
    if row.len() > 0 {
        let prev = row.drop_last();
        lemma_passed_split(prev, x);
        if row.last().position <= x {
            assert forall|i: int| 0 <= i < prev.len() implies #[trigger] prev[i].position <= x by {
                assert(row[i].position <= row[row.len() - 1].position);
            }
            assert(passed_count(prev, x) == prev.len()) by {
                if passed_count(prev, x) < prev.len() {
                    let i = passed_count(prev, x) as int;
                    assert(prev[i].position > x);
                }
            }
            assert forall|i: int| 0 <= i < passed_count(row, x) implies #[trigger] row[i].position <= x by {
                if i < prev.len() {
                    assert(prev[i] == row[i]);
                }
            }
        } else {
            assert forall|i: int| 0 <= i < passed_count(row, x) implies #[trigger] row[i].position <= x by {
                assert(prev[i] == row[i]);
            }
            assert forall|i: int| passed_count(row, x) <= i < row.len() implies #[trigger] row[i].position > x by {
                if i < prev.len() {
                    assert(prev[i] == row[i]);
                }
            }
        }
    }
}

/// The outline of a row's first `m` crossings is the start of the row's
/// outline, and what the row's outline keeps after it lies no earlier than
/// crossing `m`.
proof fn lemma_outline_prefix(row: Seq<Crossing>, m: int)
    requires
        sorted(row),
        0 <= m <= row.len(),
    ensures
        outline(row.take(m)).len() <= outline(row).len(),
        outline(row).take(outline(row.take(m)).len() as int) == outline(row.take(m)),
        m < row.len() ==> forall|j: int|
            outline(row.take(m)).len() <= j < outline(row).len() ==> #[trigger] outline(row)[j].position
                >= row[m].position,
    decreases row.len(),
{
    if m == row.len() {
        assert(row.take(m) =~= row);
        assert(outline(row).take(outline(row).len() as int) =~= outline(row));
    } else {
        let prev = row.drop_last();
        assert(prev.take(m) =~= row.take(m));
        lemma_outline_prefix(prev, m);
        let l = outline(row.take(m)).len() as int;
        assert(outline(row).take(l) =~= outline(prev).take(l));
        assert(row.last().position >= row[m].position);
        if m == prev.len() {
            assert(prev.take(m) =~= prev);
        }
    }
}

/// A pixel of a row whose crossings bring the depth back to zero is lit
/// exactly when it lies inside some solid.
pub proof fn lemma_lit_iff_inside(row: Seq<Crossing>, x: int)
    requires
        sorted(row),
        depth(row) == 0,
    ensures
        lit(row, x) == inside(row, x),
{
    let m = passed_count(row, x) as int;
    lemma_passed_split(row, x);
    lemma_outline_prefix(row, m);
    lemma_outline_parity(row);
    lemma_outline_parity(row.take(m));
    let o = outline(row);
    let l = outline(row.take(m)).len() as int;
    let sp = row_spans(row);
    assert(sorted(row.take(m)));
    if m > 0 {
        lemma_outline_sorted(row.take(m));
        assert(row.take(m).last() == row[m - 1]);
    }
    // every crossing that the outline of the first m keeps lies at or before x
    assert forall|j: int| 0 <= j < l implies #[trigger] o[j].position <= x by {
        assert(o[j] == outline(row.take(m))[j]);
        assert(m > 0);
        assert(row[m - 1].position <= x);
    }
    if inside(row, x) {
        // an odd number kept so far: the last of them opens a span that the
        // next kept crossing, past x, closes
        let k = (l - 1) / 2;
        assert(l % 2 == 1);
        if m == row.len() {
            assert(row.take(m) =~= row);
        }
        assert(m < row.len());
        assert(o.len() % 2 == 0);
        assert(2 * k + 1 == l);
        assert(o[2 * k + 1].position > x) by {
            assert(o[2 * k + 1].position >= row[m].position);
        }
        assert(covers(sp[k], x));
    } else {
        assert(l % 2 == 0);
        assert forall|k: int| 0 <= k < sp.len() implies !covers(#[trigger] sp[k], x) by {
            if 2 * k >= l {
                if m < row.len() {
                    assert(o[2 * k].position >= row[m].position);
                } else {
                    assert(row.take(m) =~= row);
                }
            } else {
                assert(2 * k + 1 < l);
                assert(o[2 * k + 1].position <= x);
            }
        }
    }
}

/// Decoding the runs of a rasterized layer into a `width` x `rows.len()`
/// buffer gives back the layer's image: the runs fill the buffer exactly,
/// with nothing left over and nothing missing.
pub proof fn lemma_decode_rasterized(rows: Seq<Seq<Crossing>>, width: nat, runs: Seq<Run>)
    requires
        expand(runs) == layer_image(rows, width),
    ensures
        total_length(runs) == rows.len() * width,
        decoded_pixels(runs, width, rows.len()) == layer_image(rows, width),
{
    lemma_expand_len(runs);
    lemma_layer_image_len(rows, width);
    assert(width * rows.len() == rows.len() * width) by (nonlinear_arith);
    assert(decoded_pixels(runs, width, rows.len()) =~= expand(runs));
}

/// The rows of a layer as sequences of crossings.
pub open spec fn rows_view(rows: Seq<Vec<Crossing>>) -> Seq<Seq<Crossing>> {
    rows.map_values(|r: Vec<Crossing>| r@)
}

/// Encodes one layer into runs, row after row: a dark run up to each lit
/// span, a run for the span, and at the end a dark run that fills the rest of
/// the `width` x `rows.len()` buffer (printers decode a layer into a buffer
/// that they do not clear first). Also counts the lit pixels.
///
/// Each row holds the crossings of that pixel row with the models' outlines;
/// only the crossings that enter or leave the union of the solids count (see
/// `outline_crossings`), and these must lie in order along the row and on the
/// platform. Each pair of them lights the pixels from the first up to (not
/// including) the second.
#[verifier::loop_isolation(false)]
#[verifier::rlimit(40)]
#[verifier::spinoff_prover]
pub fn rasterize_layer(width: u32, rows: &Vec<Vec<Crossing>>) -> (result: (Vec<Run>, u64))
    requires
        rows.len() * width <= u32::MAX,
        forall|y: int| 0 <= y < rows.len() ==> row_in_order(outline(#[trigger] rows@[y]@), width as nat),
        forall|y: int| 0 <= y < rows.len() ==> #[trigger] rows@[y]@.len() <= i32::MAX,
    ensures
        result.0@ == layer_runs(rows_view(rows@), width as nat),
        expand(result.0@) == layer_image(rows_view(rows@), width as nat),
        forall|k: int| 0 <= k < result.0.len() ==> #[trigger] result.0@[k].length > 0,
        total_length(result.0@) == rows.len() * width,
        result.1 == layer_lit_count(rows_view(rows@)),
        result.1 == lit_column_total(rows_view(rows@)),
        (forall|y: int| 0 <= y < rows.len() ==> bright(#[trigger] rows@[y]@)) ==> result.1 == nonzero_count(
            expand(result.0@),
        ),
        result.1 <= rows.len() * width,
{
    let ghost rv = rows_view(rows@);
    let ghost w = width as nat;
    let ghost target = layer_image(rv, w);
    proof {
        lemma_layer_image_len(rv, w);
    }
    let height = rows.len();
    let mut runs: Vec<Run> = Vec::new();
    let mut last: u64 = 0;
    let mut voxels: u64 = 0;
    let mut y_off: u64 = 0;
    let mut y: usize = 0;
    proof {
        assert(rv.take(0) =~= Seq::<Seq<Crossing>>::empty());
        assert(target.take(0) =~= Seq::<u8>::empty());
        assert(expand(runs@) =~= Seq::<u8>::empty());
    }
    while y < height
        invariant
            0 <= y <= height,
            y_off == layer_image(rv.take(y as int), w).len(),
            y_off == y * w,
            runs@ == span_runs(placed_spans(rv.take(y as int), w)),
            last == end_of(placed_spans(rv.take(y as int), w)),
            last <= y_off,
            expand(runs@) == target.take(last as int),
            forall|p: int| last <= p < y_off ==> target[p] == 0,
            forall|k: int| 0 <= k < runs.len() ==> #[trigger] runs@[k].length > 0,
            voxels == layer_lit_count(rv.take(y as int)),
            voxels <= last,
        decreases height - y,
    {
        let ghost row = rv[y as int];
        let ghost done = placed_spans(rv.take(y as int), w);
        proof {
            lemma_layer_image_len(rv.take(y as int), w);
            lemma_layer_image_prefix(rv, y + 1, w);
            assert(rv.take(y + 1).drop_last() =~= rv.take(y as int));
            lemma_layer_image_len(rv.take(y + 1), w);
            assert((y + 1) * w <= rv.len() * w) by (nonlinear_arith)
                requires y + 1 <= rv.len();
            assert(row == rows@[y as int]@);
            assert(row_in_order(outline(row), w));
        }
        let kept = outline_crossings(&rows[y]);
        let ghost sp = spans(kept@);
        let ghost img = row_image(row, w);
        proof {
            lemma_spans_in_order(kept@, w);
            assert forall|x: int| 0 <= x < w implies target[y_off + x] == #[trigger] img[x] by {
                assert(layer_image(rv.take(y + 1), w)[y_off + x] == img[x]);
            }
        }
        let mut i: usize = 0;
        let mut cursor: u64 = 0;
        let ghost mut j: int = 0;
        while i + 1 < kept.len()
            invariant
                i == 2 * j,
                0 <= j <= sp.len(),
                cursor <= w,
                forall|k: int| 0 <= k < j ==> #[trigger] sp[k].end <= cursor,
                j < sp.len() ==> cursor <= sp[j].start,
                last <= y_off + cursor,
                runs@ == span_runs(done + place(lit_spans(sp.take(j)), y_off as int)),
                last == end_of(done + place(lit_spans(sp.take(j)), y_off as int)),
                expand(runs@) == target.take(last as int),
                forall|p: int| last <= p < y_off + cursor ==> target[p] == 0,
                forall|k: int| 0 <= k < runs.len() ==> #[trigger] runs@[k].length > 0,
                voxels == layer_lit_count(rv.take(y as int)) + lit_count(sp.take(j)),
                voxels <= last,
            decreases kept.len() - i,
        {
            let a = kept[i].position;
            let b = kept[i + 1].position;
            let value = kept[i].intensity;
            proof {
                assert(sp[j] == Span { start: a, end: b, value });
                assert forall|x: int| cursor <= x < a implies #[trigger] img[x] == 0 by {
                    assert forall|k: int| 0 <= k < sp.len() implies !covers(#[trigger] sp[k], x) by {
                        if k > j {
                            assert(sp[j].end <= sp[k].start);
                        }
                    }
                    lemma_uncovered(sp, x);
                }
                assert forall|x: int| a <= x < b implies #[trigger] img[x] == value by {
                    assert forall|k: int| 0 <= k < j implies !covers(#[trigger] sp[k], x) by {}
                    lemma_covered(sp, j, x);
                }
                assert(sp.take(j + 1).drop_last() =~= sp.take(j));
            }
            if b != a {
                let start = y_off + a;
                let end = y_off + b;
                let length = b - a;
                let ghost before = runs@;
                if start > last {
                    runs.push(Run { length: start - last, value: 0 });
                    proof {
                        lemma_expand_push(before, Run { length: (start - last) as u64, value: 0 });
                    }
                }
                let ghost middle = runs@;
                runs.push(Run { length, value });
                proof {
                    lemma_expand_push(middle, Run { length, value });
                    assert forall|p: int| last <= p < start implies target[p] == 0 by {
                        if p >= y_off + cursor {
                            assert(target[y_off + (p - y_off)] == img[p - y_off]);
                        }
                    }
                    assert forall|p: int| start <= p < end implies target[p] == value by {
                        assert(target[y_off + (p - y_off)] == img[p - y_off]);
                    }
                    assert(expand(runs@) =~= target.take(end as int));
                }
                proof {
                    let before_ps = done + place(lit_spans(sp.take(j)), y_off as int);
                    assert(lit_spans(sp.take(j + 1)) == lit_spans(sp.take(j)).push(sp[j]));
                    let after_ps = done + place(lit_spans(sp.take(j + 1)), y_off as int);
                    assert(after_ps =~= before_ps.push((y_off + a, y_off + b, value)));
                    assert(after_ps.drop_last() =~= before_ps);
                    if start > last {
                        assert(runs@ =~= span_runs(before_ps) + seq![Run { length: (start - last) as u64, value: 0 }]
                            + seq![Run { length, value }]);
                    } else {
                        assert(runs@ =~= span_runs(before_ps) + Seq::<Run>::empty() + seq![Run { length, value }]);
                    }
                }
                voxels = voxels + length;
                last = end;
            } else {
                proof {
                    assert(lit_spans(sp.take(j + 1)) == lit_spans(sp.take(j)));
                    assert forall|p: int| last <= p < y_off + b implies target[p] == 0 by {
                        if p >= y_off + cursor {
                            assert(target[y_off + (p - y_off)] == img[p - y_off]);
                        }
                    }
                }
            }
            cursor = b;
            i = i + 2;
            proof {
                j = j + 1;
            }
        }
        proof {
            assert(j == sp.len());
            assert(sp.take(j) =~= sp);
            assert(sp == row_spans(rv.take(y + 1).last()));
            assert(placed_spans(rv.take(y + 1), w) == done + place(lit_spans(sp), y_off as int));
            assert forall|p: int| last <= p < y_off + w implies target[p] == 0 by {
                if p >= y_off + cursor {
                    let x = p - y_off;
                    assert forall|k: int| 0 <= k < sp.len() implies !covers(#[trigger] sp[k], x) by {}
                    lemma_uncovered(sp, x);
                    assert(target[y_off + x] == img[x]);
                }
            }
        }
        proof {
            assert((y + 1) * w == y * w + w) by (nonlinear_arith);
        }
        y_off = y_off + width as u64;
        y = y + 1;
    }
    proof {
        assert(rv.take(height as int) =~= rv);
        assert(height * w == rv.len() * w);
    }
    let pixels: u64 = height as u64 * width as u64;
    if last < pixels {
        let ghost before = runs@;
        runs.push(Run { length: pixels - last, value: 0 });
        proof {
            lemma_expand_push(before, Run { length: (pixels - last) as u64, value: 0 });
            assert(expand(runs@) =~= target);
            assert(runs@ =~= layer_runs(rv, w));
        }
    } else {
        assert(target.take(last as int) =~= target);
        assert(runs@ =~= layer_runs(rv, w));
    }
    proof {
        lemma_expand_len(runs@);
        lemma_layer_lit_count_sum(rv, w);
        if forall|y: int| 0 <= y < rows.len() ==> bright(#[trigger] rows@[y]@) {
            assert forall|y: int| 0 <= y < rv.len() implies row_in_order(outline(#[trigger] rv[y]), w)
                && bright(rv[y]) by {
                assert(rv[y] == rows@[y]@);
            }
            lemma_layer_lit_count_bright(rv, w);
        }
    }
    (runs, voxels)
}

} // verus!
