use vstd::prelude::*;
use vstd::set_lib::{lemma_int_range, lemma_len_subset, lemma_len_union, set_int_range};
use crate::raster::{
    Crossing, Span, covering_value, covers, depth, layer_image, layer_lit_count, lemma_layer_image_len,
    lemma_layer_image_prefix, lemma_lit_iff_inside, lemma_outline_in_order, lemma_passed_split,
    lemma_spans_in_order, lit, lit_count, outline, passed_count, row_image, row_in_order, row_spans,
    sorted, spans, step,
};

verus! {

broadcast use vstd::seq_lib::group_to_multiset_ensures;

/// How far the crossing at `c` moves the depth of the columns at or past `x`.
pub open spec fn step_upto(c: Crossing, x: int) -> int {
    if c.position <= x {
        step(c)
    } else {
        0
    }
}

/// The depth at column `x`: the steps of all crossings at or before it,
/// whatever their order.
pub open spec fn depth_at(cs: Seq<Crossing>, x: int) -> int
    decreases cs.len(),
{
    if cs.len() == 0 {
        0
    } else {
        depth_at(cs.drop_last(), x) + step_upto(cs.last(), x)
    }
}

/// `m` holds the crossings of `a` and of `b` together, in order along the
/// row: the row that slicing both models at once sees.
pub open spec fn merged(m: Seq<Crossing>, a: Seq<Crossing>, b: Seq<Crossing>) -> bool {
    &&& sorted(m)
    &&& m.to_multiset() == (a + b).to_multiset()
}

/// The row crosses closed models whose faces all point the same way: going
/// along the row the depth keeps one sign (never below zero when `positive`,
/// never above zero otherwise), and it ends at zero. Which sign a model's
/// crossings give depends only on which way its faces point and on the
/// `facing` convention, so two models with faces pointing the same way keep
/// the same sign.
pub open spec fn closed_one_sided(row: Seq<Crossing>, positive: bool) -> bool {
    &&& depth(row) == 0
    &&& forall|n: int|
        0 <= n <= row.len() ==> if positive {
            depth(#[trigger] row.take(n)) >= 0
        } else {
            depth(row.take(n)) <= 0
        }
}

proof fn lemma_depth_at_split(row: Seq<Crossing>, x: int, m: int)
    requires
        0 <= m <= row.len(),
        forall|i: int| 0 <= i < m ==> #[trigger] row[i].position <= x,
        forall|i: int| m <= i < row.len() ==> #[trigger] row[i].position > x,
    ensures
        depth_at(row, x) == depth(row.take(m)),
    decreases row.len(),
{
    if row.len() > 0 {
        let prev = row.drop_last();
        if m == row.len() {
            assert(row.take(m) =~= row);
            lemma_depth_at_split(prev, x, m - 1);
            assert(prev.take(m - 1) =~= prev);
            assert(row[m - 1].position <= x);
        } else {
            assert(prev.take(m) =~= row.take(m));
            assert(row[row.len() - 1].position > x);
            lemma_depth_at_split(prev, x, m);
        }
    } else {
        assert(row.take(m) =~= row);
    }
}

/// In a row in order, the depth after the crossings at or before `x` is the
/// depth at `x`.
pub proof fn lemma_depth_at_sorted(row: Seq<Crossing>, x: int)
    requires
        sorted(row),
    ensures
        depth(row.take(passed_count(row, x) as int)) == depth_at(row, x),
{
    lemma_passed_split(row, x);
    lemma_depth_at_split(row, x, passed_count(row, x) as int);
}

/// Past every crossing, the depth at a column is the depth of the row.
proof fn lemma_depth_at_end(row: Seq<Crossing>)
    ensures
        depth_at(row, u64::MAX as int) == depth(row),
    decreases row.len(),
{
    if row.len() > 0 {
        lemma_depth_at_end(row.drop_last());
    }
}

proof fn lemma_depth_at_concat(a: Seq<Crossing>, b: Seq<Crossing>, x: int)
    ensures
        depth_at(a + b, x) == depth_at(a, x) + depth_at(b, x),
    decreases b.len(),
{
    if b.len() == 0 {
        assert(a + b =~= a);
    } else {
        assert((a + b).drop_last() =~= a + b.drop_last());
        lemma_depth_at_concat(a, b.drop_last(), x);
    }
}

proof fn lemma_depth_at_remove(t: Seq<Crossing>, i: int, x: int)
    requires
        0 <= i < t.len(),
    ensures
        depth_at(t, x) == depth_at(t.remove(i), x) + step_upto(t[i], x),
    decreases t.len(),
{
    if i == t.len() - 1 {
        assert(t.remove(i) =~= t.drop_last());
    } else {
        assert(t.remove(i).drop_last() =~= t.drop_last().remove(i));
        assert(t.remove(i).last() == t.last());
        lemma_depth_at_remove(t.drop_last(), i, x);
    }
}

/// The depth at a column does not depend on the order of the crossings.
proof fn lemma_depth_at_permutation(s: Seq<Crossing>, t: Seq<Crossing>, x: int)
    requires
        s.to_multiset() == t.to_multiset(),
    ensures
        depth_at(s, x) == depth_at(t, x),
    decreases s.len(),
{
    if s.len() == 0 {
        assert(s.to_multiset().len() == 0);
        assert(t.to_multiset().len() == 0);
        assert(t.len() == 0);
    } else {
        let e = s.last();
        let prev = s.drop_last();
        assert(s =~= prev.push(e));
        assert(s.to_multiset().count(e) > 0);
        assert(t.contains(e));
        let i = choose|i: int| 0 <= i < t.len() && t[i] == e;
        assert(t.remove(i).to_multiset() =~= prev.to_multiset()) by {
            broadcast use vstd::multiset::group_multiset_axioms;
        }
        lemma_depth_at_permutation(prev, t.remove(i), x);
        lemma_depth_at_remove(t, i, x);
    }
}

/// A merged row's depth at a column is the sum of its parts' depths there.
pub proof fn lemma_depth_at_merged(m: Seq<Crossing>, a: Seq<Crossing>, b: Seq<Crossing>, x: int)
    requires
        merged(m, a, b),
    ensures
        depth_at(m, x) == depth_at(a, x) + depth_at(b, x),
        depth(m) == depth(a) + depth(b),
{
    lemma_depth_at_permutation(m, a + b, x);
    lemma_depth_at_concat(a, b, x);
    lemma_depth_at_permutation(m, a + b, u64::MAX as int);
    lemma_depth_at_concat(a, b, u64::MAX as int);
    lemma_depth_at_end(m);
    lemma_depth_at_end(a);
    lemma_depth_at_end(b);
}

/// Slicing two closed models whose faces point the same way together lights a pixel of a
/// row exactly when slicing either of them alone lights it: the union, with
/// no cavity where they overlap.
pub proof fn lemma_lit_union(m: Seq<Crossing>, a: Seq<Crossing>, b: Seq<Crossing>, positive: bool, x: int)
    requires
        sorted(a),
        sorted(b),
        merged(m, a, b),
        closed_one_sided(a, positive),
        closed_one_sided(b, positive),
    ensures
        lit(m, x) == (lit(a, x) || lit(b, x)),
{
    lemma_depth_at_merged(m, a, b, x);
    lemma_depth_at_sorted(m, x);
    lemma_depth_at_sorted(a, x);
    lemma_depth_at_sorted(b, x);
    lemma_lit_iff_inside(m, x);
    lemma_lit_iff_inside(a, x);
    lemma_lit_iff_inside(b, x);
    lemma_passed_split(a, x);
    lemma_passed_split(b, x);
    let da = depth(a.take(passed_count(a, x) as int));
    let db = depth(b.take(passed_count(b, x) as int));
    if positive {
        assert(da >= 0 && db >= 0);
    } else {
        assert(da <= 0 && db <= 0);
    }
}

/// Slicing a closed model twice over (two copies in the same place) lights
/// the same pixels of a row as slicing it once.
pub proof fn lemma_lit_duplicate(m: Seq<Crossing>, a: Seq<Crossing>, x: int)
    requires
        sorted(a),
        merged(m, a, a),
        depth(a) == 0,
    ensures
        lit(m, x) == lit(a, x),
{
    lemma_depth_at_merged(m, a, a, x);
    lemma_depth_at_sorted(m, x);
    lemma_depth_at_sorted(a, x);
    lemma_lit_iff_inside(m, x);
    lemma_lit_iff_inside(a, x);
}

/// The columns of a row that some span lights.
pub open spec fn lit_columns(row: Seq<Crossing>) -> Set<int> {
    Set::new(|x: int| lit(row, x))
}

/// The columns covered by the first `n` spans.
pub open spec fn covered(sp: Seq<Span>, n: int) -> Set<int> {
    Set::new(|x: int| exists|k: int| 0 <= k < n && covers(#[trigger] sp[k], x))
}

proof fn lemma_covered_count(sp: Seq<Span>, n: int)
    requires
        0 <= n <= sp.len(),
        forall|j: int| 0 <= j < sp.len() ==> #[trigger] sp[j].start <= sp[j].end,
        forall|j: int, k: int| 0 <= j < k < sp.len() ==> #[trigger] sp[j].end <= #[trigger] sp[k].start,
    ensures
        covered(sp, n).finite(),
        covered(sp, n).len() == lit_count(sp.take(n)),
    decreases n,
{
    if n == 0 {
        assert(covered(sp, 0) =~= Set::<int>::empty());
        assert(sp.take(0) =~= Seq::<Span>::empty());
    } else {
        lemma_covered_count(sp, n - 1);
        let s = sp[n - 1];
        let r = set_int_range(s.start as int, s.end as int);
        lemma_int_range(s.start as int, s.end as int);
        assert(covered(sp, n) =~= covered(sp, n - 1) + r) by {
            assert forall|x: int| covered(sp, n).contains(x) implies (covered(sp, n - 1) + r).contains(x) by {
                let k = choose|k: int| 0 <= k < n && covers(#[trigger] sp[k], x);
                if k < n - 1 {
                    assert(covered(sp, n - 1).contains(x));
                }
            }
            assert forall|x: int| (covered(sp, n - 1) + r).contains(x) implies covered(sp, n).contains(x) by {
                if r.contains(x) {
                    assert(covers(sp[n - 1], x));
                } else {
                    let k = choose|k: int| 0 <= k < n - 1 && covers(#[trigger] sp[k], x);
                    assert(covers(sp[k], x));
                }
            }
        }
        assert(covered(sp, n - 1).disjoint(r)) by {
            assert forall|x: int| covered(sp, n - 1).contains(x) implies !r.contains(x) by {
                let k = choose|k: int| 0 <= k < n - 1 && covers(#[trigger] sp[k], x);
                assert(sp[k].end <= sp[n - 1].start);
            }
        }
        vstd::set_lib::lemma_set_disjoint_lens(covered(sp, n - 1), r);
        assert(sp.take(n).drop_last() =~= sp.take(n - 1));
    }
}

/// The number of pixels that a row's spans light is the number of its lit
/// columns, all of them on the platform (when the crossings that bound the
/// solids are in order and on the platform).
pub proof fn lemma_lit_columns(row: Seq<Crossing>, width: nat)
    requires
        row_in_order(outline(row), width),
    ensures
        lit_columns(row).finite(),
        lit_columns(row).len() == lit_count(row_spans(row)),
        lit_columns(row).subset_of(set_int_range(0, width as int)),
{
    let sp = row_spans(row);
    lemma_spans_in_order(outline(row), width);
    lemma_covered_count(sp, sp.len() as int);
    assert(sp.take(sp.len() as int) =~= sp);
    assert(covered(sp, sp.len() as int) =~= lit_columns(row));
    assert forall|x: int| lit_columns(row).contains(x) implies set_int_range(0, width as int).contains(x) by {
        let k = choose|k: int| 0 <= k < sp.len() && covers(#[trigger] sp[k], x);
        assert(sp[k].end <= width);
    }
}

/// Every crossing of a merged row is one of its parts' crossings.
proof fn lemma_merged_members(m: Seq<Crossing>, a: Seq<Crossing>, b: Seq<Crossing>, i: int)
    requires
        merged(m, a, b),
        0 <= i < m.len(),
    ensures
        exists|j: int| 0 <= j < a.len() && a[j] == m[i] || 0 <= j < b.len() && b[j] == m[i],
{
    assert(m.contains(m[i]));
    assert(m.to_multiset().count(m[i]) > 0);
    assert((a + b).contains(m[i]));
    let j = choose|j: int| 0 <= j < (a + b).len() && (a + b)[j] == m[i];
    if j < a.len() {
        assert(a[j] == m[i]);
    } else {
        assert(b[j - a.len()] == m[i]);
    }
}

proof fn lemma_merged_in_order(m: Seq<Crossing>, a: Seq<Crossing>, b: Seq<Crossing>, width: nat)
    requires
        merged(m, a, b),
        row_in_order(a, width),
        row_in_order(b, width),
    ensures
        row_in_order(m, width),
{
    assert forall|i: int| 0 <= i < m.len() implies m[i].position <= width by {
        lemma_merged_members(m, a, b, i);
    }
}

/// Slicing two closed models whose faces point the same way together lights at least as
/// many pixels of a row as either alone, and at most as many as both.
pub proof fn lemma_lit_count_union(
    m: Seq<Crossing>,
    a: Seq<Crossing>,
    b: Seq<Crossing>,
    positive: bool,
    width: nat,
)
    requires
        row_in_order(a, width),
        row_in_order(b, width),
        merged(m, a, b),
        closed_one_sided(a, positive),
        closed_one_sided(b, positive),
    ensures
        lit_count(row_spans(a)) <= lit_count(row_spans(m)),
        lit_count(row_spans(b)) <= lit_count(row_spans(m)),
        lit_count(row_spans(m)) <= lit_count(row_spans(a)) + lit_count(row_spans(b)),
{
    lemma_merged_in_order(m, a, b, width);
    lemma_outline_in_order(m, width);
    lemma_outline_in_order(a, width);
    lemma_outline_in_order(b, width);
    lemma_lit_columns(m, width);
    lemma_lit_columns(a, width);
    lemma_lit_columns(b, width);
    assert(lit_columns(m) =~= lit_columns(a).union(lit_columns(b))) by {
        assert forall|x: int| lit_columns(m).contains(x) == lit_columns(a).union(lit_columns(b)).contains(x) by {
            lemma_lit_union(m, a, b, positive, x);
        }
    }
    lemma_len_union(lit_columns(a), lit_columns(b));
    lemma_len_subset(lit_columns(a), lit_columns(m));
    lemma_len_subset(lit_columns(b), lit_columns(m));
}

/// Slicing a closed model twice over lights as many pixels of a row as
/// slicing it once.
pub proof fn lemma_lit_count_duplicate(m: Seq<Crossing>, a: Seq<Crossing>, width: nat)
    requires
        row_in_order(a, width),
        merged(m, a, a),
        depth(a) == 0,
    ensures
        lit_count(row_spans(m)) == lit_count(row_spans(a)),
{
    lemma_merged_in_order(m, a, a, width);
    lemma_outline_in_order(m, width);
    lemma_outline_in_order(a, width);
    lemma_lit_columns(m, width);
    lemma_lit_columns(a, width);
    assert(lit_columns(m) =~= lit_columns(a)) by {
        assert forall|x: int| lit_columns(m).contains(x) == lit_columns(a).contains(x) by {
            lemma_lit_duplicate(m, a, x);
        }
    }
}

/// Every crossing of the row lights its pixels with a non-zero intensity
/// (its model is exposed at all).
pub open spec fn bright(row: Seq<Crossing>) -> bool {
    forall|i: int| 0 <= i < row.len() ==> #[trigger] row[i].intensity != 0
}

proof fn lemma_outline_bright(row: Seq<Crossing>)
    requires
        bright(row),
    ensures
        bright(outline(row)),
    decreases row.len(),
{
    if row.len() > 0 {
        lemma_outline_bright(row.drop_last());
    }
}

proof fn lemma_covering_nonzero(sp: Seq<Span>, x: int)
    requires
        forall|k: int| 0 <= k < sp.len() ==> #[trigger] sp[k].value != 0,
    ensures
        (covering_value(sp, x) != 0) == (exists|k: int| 0 <= k < sp.len() && covers(#[trigger] sp[k], x)),
    decreases sp.len(),
{
    if sp.len() > 0 {
        let rest = sp.drop_first();
        assert forall|k: int| 0 <= k < rest.len() implies #[trigger] rest[k].value != 0 by {
            assert(rest[k] == sp[k + 1]);
        }
        lemma_covering_nonzero(rest, x);
        if !covers(sp[0], x) {
            if exists|k: int| 0 <= k < sp.len() && covers(#[trigger] sp[k], x) {
                let k = choose|k: int| 0 <= k < sp.len() && covers(#[trigger] sp[k], x);
                assert(rest[k - 1] == sp[k]);
            }
            if exists|k: int| 0 <= k < rest.len() && covers(#[trigger] rest[k], x) {
                let k = choose|k: int| 0 <= k < rest.len() && covers(#[trigger] rest[k], x);
                assert(rest[k] == sp[k + 1]);
            }
        }
    }
}

/// With every crossing bright, a pixel of the row's image is non-zero
/// exactly when the row lights it.
pub proof fn lemma_row_image_lit(row: Seq<Crossing>, width: nat, x: int)
    requires
        bright(row),
        0 <= x < width,
    ensures
        (row_image(row, width)[x] != 0) == lit(row, x),
{
    lemma_outline_bright(row);
    let sp = row_spans(row);
    assert forall|k: int| 0 <= k < sp.len() implies #[trigger] sp[k].value != 0 by {
        assert(sp[k].value == outline(row)[2 * k].intensity);
    }
    lemma_covering_nonzero(sp, x);
}

/// Pixel `x` of row `y` sits at `y * width + x` in the layer's image.
pub proof fn lemma_layer_image_index(rows: Seq<Seq<Crossing>>, width: nat, y: int, x: int)
    requires
        0 <= y < rows.len(),
        0 <= x < width,
    ensures
        y * width + x < rows.len() * width,
        layer_image(rows, width)[y * width + x] == row_image(rows[y], width)[x],
{
    lemma_layer_image_prefix(rows, y + 1, width);
    lemma_layer_image_len(rows.take(y), width);
    lemma_layer_image_len(rows.take(y + 1), width);
    lemma_layer_image_len(rows, width);
    assert(rows.take(y + 1).drop_last() =~= rows.take(y));
    assert((y + 1) * width == y * width + width) by (nonlinear_arith);
    assert((y + 1) * width <= rows.len() * width) by (nonlinear_arith)
        requires y + 1 <= rows.len();
    assert(layer_image(rows.take(y + 1), width)[y * width + x] == row_image(rows[y], width)[x]);
}

proof fn lemma_merged_bright(m: Seq<Crossing>, a: Seq<Crossing>, b: Seq<Crossing>)
    requires
        merged(m, a, b),
        bright(a),
        bright(b),
    ensures
        bright(m),
{
    assert forall|i: int| 0 <= i < m.len() implies #[trigger] m[i].intensity != 0 by {
        lemma_merged_members(m, a, b, i);
    }
}

proof fn lemma_layer_counts_union(
    mr: Seq<Seq<Crossing>>,
    ar: Seq<Seq<Crossing>>,
    br: Seq<Seq<Crossing>>,
    positive: bool,
    width: nat,
)
    requires
        mr.len() == ar.len() == br.len(),
        forall|y: int| 0 <= y < mr.len() ==> merged(#[trigger] mr[y], ar[y], br[y]),
        forall|y: int| 0 <= y < ar.len() ==> row_in_order(#[trigger] ar[y], width) && closed_one_sided(ar[y], positive),
        forall|y: int| 0 <= y < br.len() ==> row_in_order(#[trigger] br[y], width) && closed_one_sided(br[y], positive),
    ensures
        layer_lit_count(ar) <= layer_lit_count(mr),
        layer_lit_count(br) <= layer_lit_count(mr),
        layer_lit_count(mr) <= layer_lit_count(ar) + layer_lit_count(br),
    decreases mr.len(),
{
    if mr.len() > 0 {
        let n = mr.len() - 1;
        lemma_layer_counts_union(mr.drop_last(), ar.drop_last(), br.drop_last(), positive, width);
        assert(merged(mr[n], ar[n], br[n]));
        assert(row_in_order(ar[n], width) && closed_one_sided(ar[n], positive));
        assert(row_in_order(br[n], width) && closed_one_sided(br[n], positive));
        lemma_lit_count_union(mr.last(), ar.last(), br.last(), positive, width);
    }
}

/// Slicing two closed models whose faces point the same way together, layer by layer: with
/// every crossing bright, a pixel comes out non-zero exactly when it does for
/// one of the models alone, and the lit-pixel count lies between the larger
/// of theirs and their sum.
pub proof fn lemma_layer_union(
    mr: Seq<Seq<Crossing>>,
    ar: Seq<Seq<Crossing>>,
    br: Seq<Seq<Crossing>>,
    positive: bool,
    width: nat,
)
    requires
        mr.len() == ar.len() == br.len(),
        forall|y: int| 0 <= y < mr.len() ==> merged(#[trigger] mr[y], ar[y], br[y]),
        forall|y: int|
            0 <= y < ar.len() ==> row_in_order(#[trigger] ar[y], width) && closed_one_sided(ar[y], positive) && bright(ar[y]),
        forall|y: int|
            0 <= y < br.len() ==> row_in_order(#[trigger] br[y], width) && closed_one_sided(br[y], positive) && bright(br[y]),
    ensures
        forall|y: int, x: int| 0 <= y < mr.len() && 0 <= x < width ==>
            (#[trigger] layer_image(mr, width)[y * width + x] != 0) == (layer_image(ar, width)[y * width + x] != 0
                || layer_image(br, width)[y * width + x] != 0),
        layer_lit_count(ar) <= layer_lit_count(mr),
        layer_lit_count(br) <= layer_lit_count(mr),
        layer_lit_count(mr) <= layer_lit_count(ar) + layer_lit_count(br),
{
    assert forall|y: int, x: int| 0 <= y < mr.len() && 0 <= x < width implies
        (#[trigger] layer_image(mr, width)[y * width + x] != 0) == (layer_image(ar, width)[y * width + x] != 0
            || layer_image(br, width)[y * width + x] != 0) by {
        lemma_layer_image_index(mr, width, y, x);
        lemma_layer_image_index(ar, width, y, x);
        lemma_layer_image_index(br, width, y, x);
        assert(merged(mr[y], ar[y], br[y]));
        assert(row_in_order(ar[y], width) && closed_one_sided(ar[y], positive) && bright(ar[y]));
        assert(row_in_order(br[y], width) && closed_one_sided(br[y], positive) && bright(br[y]));
        lemma_merged_bright(mr[y], ar[y], br[y]);
        lemma_row_image_lit(mr[y], width, x);
        lemma_row_image_lit(ar[y], width, x);
        lemma_row_image_lit(br[y], width, x);
        lemma_lit_union(mr[y], ar[y], br[y], positive, x);
    }
    lemma_layer_counts_union(mr, ar, br, positive, width);
}

proof fn lemma_layer_counts_duplicate(mr: Seq<Seq<Crossing>>, ar: Seq<Seq<Crossing>>, width: nat)
    requires
        mr.len() == ar.len(),
        forall|y: int| 0 <= y < mr.len() ==> merged(#[trigger] mr[y], ar[y], ar[y]),
        forall|y: int| 0 <= y < ar.len() ==> row_in_order(#[trigger] ar[y], width) && depth(ar[y]) == 0,
    ensures
        layer_lit_count(mr) == layer_lit_count(ar),
    decreases mr.len(),
{
    if mr.len() > 0 {
        let n = mr.len() - 1;
        lemma_layer_counts_duplicate(mr.drop_last(), ar.drop_last(), width);
        assert(merged(mr[n], ar[n], ar[n]));
        assert(row_in_order(ar[n], width) && depth(ar[n]) == 0);
        lemma_lit_count_duplicate(mr.last(), ar.last(), width);
    }
}

/// Slicing a closed model twice over (a duplicate in the same place), layer
/// by layer: with every crossing bright, the same pixels come out non-zero,
/// and the lit-pixel count is the same as for the model once.
pub proof fn lemma_layer_duplicate(mr: Seq<Seq<Crossing>>, ar: Seq<Seq<Crossing>>, width: nat)
    requires
        mr.len() == ar.len(),
        forall|y: int| 0 <= y < mr.len() ==> merged(#[trigger] mr[y], ar[y], ar[y]),
        forall|y: int|
            0 <= y < ar.len() ==> row_in_order(#[trigger] ar[y], width) && depth(ar[y]) == 0 && bright(ar[y]),
    ensures
        forall|y: int, x: int| 0 <= y < mr.len() && 0 <= x < width ==>
            (#[trigger] layer_image(mr, width)[y * width + x] != 0) == (layer_image(ar, width)[y * width + x] != 0),
        layer_lit_count(mr) == layer_lit_count(ar),
{
    assert forall|y: int, x: int| 0 <= y < mr.len() && 0 <= x < width implies
        (#[trigger] layer_image(mr, width)[y * width + x] != 0) == (layer_image(ar, width)[y * width + x] != 0) by {
        lemma_layer_image_index(mr, width, y, x);
        lemma_layer_image_index(ar, width, y, x);
        assert(merged(mr[y], ar[y], ar[y]));
        assert(row_in_order(ar[y], width) && depth(ar[y]) == 0 && bright(ar[y]));
        lemma_merged_bright(mr[y], ar[y], ar[y]);
        lemma_row_image_lit(mr[y], width, x);
        lemma_row_image_lit(ar[y], width, x);
        lemma_lit_duplicate(mr[y], ar[y], x);
    }
    lemma_layer_counts_duplicate(mr, ar, width);
}

/// The lit count of a layer is built row by row from each row's lit
/// columns: a layer of no rows lights nothing, and adding a row adds exactly
/// the number of columns that the row lights.
pub proof fn lemma_layer_lit_count_rows(rows: Seq<Seq<Crossing>>, row: Seq<Crossing>, width: nat)
    requires
        row_in_order(outline(row), width),
    ensures
        layer_lit_count(Seq::<Seq<Crossing>>::empty()) == 0,
        layer_lit_count(rows.push(row)) == layer_lit_count(rows) + lit_columns(row).len(),
{
    assert(rows.push(row).drop_last() =~= rows);
    lemma_lit_columns(row, width);
}

/// The lit count of a layer is the number of lit pixels over all its rows:
/// the sum, row by row, of the columns each row lights.
pub proof fn lemma_layer_lit_count_sum(rows: Seq<Seq<Crossing>>, width: nat)
    requires
        forall|y: int| 0 <= y < rows.len() ==> row_in_order(outline(#[trigger] rows[y]), width),
    ensures
        layer_lit_count(rows) == lit_column_total(rows),
    decreases rows.len(),
{
    if rows.len() > 0 {
        let prev = rows.drop_last();
        assert forall|y: int| 0 <= y < prev.len() implies row_in_order(outline(#[trigger] prev[y]), width) by {
            assert(prev[y] == rows[y]);
        }
        lemma_layer_lit_count_sum(prev, width);
        assert(row_in_order(outline(rows[rows.len() - 1]), width));
        lemma_lit_columns(rows.last(), width);
    }
}

/// The number of lit columns of each row, added up over the rows.
pub open spec fn lit_column_total(rows: Seq<Seq<Crossing>>) -> int
    decreases rows.len(),
{
    if rows.len() == 0 {
        0
    } else {
        lit_column_total(rows.drop_last()) + lit_columns(rows.last()).len()
    }
}

/// The number of non-zero pixels.
pub open spec fn nonzero_count(s: Seq<u8>) -> nat
    decreases s.len(),
{
    if s.len() == 0 {
        0
    } else {
        nonzero_count(s.drop_last()) + if s.last() != 0 {
            1nat
        } else {
            0nat
        }
    }
}

proof fn lemma_nonzero_concat(a: Seq<u8>, b: Seq<u8>)
    ensures
        nonzero_count(a + b) == nonzero_count(a) + nonzero_count(b),
    decreases b.len(),
{
    if b.len() == 0 {
        assert(a + b =~= a);
    } else {
        assert((a + b).drop_last() =~= a + b.drop_last());
        lemma_nonzero_concat(a, b.drop_last());
    }
}

proof fn lemma_nonzero_set(s: Seq<u8>)
    ensures
        Set::new(|x: int| 0 <= x < s.len() && s[x] != 0).finite(),
        Set::new(|x: int| 0 <= x < s.len() && s[x] != 0).len() == nonzero_count(s),
    decreases s.len(),
{
    let set = Set::new(|x: int| 0 <= x < s.len() && s[x] != 0);
    if s.len() == 0 {
        assert(set =~= Set::<int>::empty());
    } else {
        let prev = s.drop_last();
        lemma_nonzero_set(prev);
        let pset = Set::new(|x: int| 0 <= x < prev.len() && prev[x] != 0);
        let n = s.len() - 1;
        if s.last() != 0 {
            assert(set =~= pset.insert(n));
            assert(!pset.contains(n));
        } else {
            assert(set =~= pset);
        }
    }
}

/// With every crossing bright, the lit count of a layer is the number of
/// non-zero pixels in its image (and so in the runs that encode it).
pub proof fn lemma_layer_lit_count_bright(rows: Seq<Seq<Crossing>>, width: nat)
    requires
        forall|y: int|
            0 <= y < rows.len() ==> row_in_order(outline(#[trigger] rows[y]), width) && bright(rows[y]),
    ensures
        layer_lit_count(rows) == nonzero_count(layer_image(rows, width)),
    decreases rows.len(),
{
    if rows.len() > 0 {
        let prev = rows.drop_last();
        let row = rows.last();
        assert forall|y: int| 0 <= y < prev.len() implies row_in_order(outline(#[trigger] prev[y]), width)
            && bright(prev[y]) by {
            assert(prev[y] == rows[y]);
        }
        lemma_layer_lit_count_bright(prev, width);
        assert(row_in_order(outline(rows[rows.len() - 1]), width) && bright(rows[rows.len() - 1]));
        lemma_nonzero_concat(layer_image(prev, width), row_image(row, width));
        lemma_lit_columns(row, width);
        let img = row_image(row, width);
        lemma_nonzero_set(img);
        assert(Set::new(|x: int| 0 <= x < img.len() && img[x] != 0) =~= lit_columns(row)) by {
            assert forall|x: int| lit_columns(row).contains(x) implies 0 <= x < img.len() && img[x] != 0 by {
                assert(set_int_range(0, width as int).contains(x));
                lemma_row_image_lit(row, width, x);
            }
            assert forall|x: int| 0 <= x < img.len() && img[x] != 0 implies lit_columns(row).contains(x) by {
                lemma_row_image_lit(row, width, x);
            }
        }
    }
}

} // verus!
