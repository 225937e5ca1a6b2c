use vstd::prelude::*;

verus! {

/// A run of `length` consecutive pixels that all hold `value`.
#[derive(Clone, Copy, Debug, PartialEq, Eq, Structural)]
pub struct Run {
    pub length: u64,
    pub value: u8,
}

/// `n` copies of `v`.
pub open spec fn repeat(v: u8, n: nat) -> Seq<u8> {
    Seq::new(n, |i: int| v)
}

/// The pixels that a sequence of runs stands for, in order.
pub open spec fn expand(runs: Seq<Run>) -> Seq<u8>
    decreases runs.len(),
{
    if runs.len() == 0 {
        Seq::empty()
    } else {
        expand(runs.drop_last()) + repeat(runs.last().value, runs.last().length as nat)
    }
}

/// The number of pixels that a sequence of runs covers.
pub open spec fn total_length(runs: Seq<Run>) -> nat
    decreases runs.len(),
{
    if runs.len() == 0 {
        0
    } else {
        total_length(runs.drop_last()) + runs.last().length as nat
    }
}

/// A `width` x `height` grayscale image, row-major, filled from the runs in
/// order and black (0) where the runs stop short.
pub open spec fn decoded_pixels(runs: Seq<Run>, width: nat, height: nat) -> Seq<u8> {
    expand(runs) + repeat(0, (width * height - total_length(runs)) as nat)
}

pub proof fn lemma_expand_len(runs: Seq<Run>)
    ensures
        expand(runs).len() == total_length(runs),
    decreases runs.len(),
{
    if runs.len() > 0 {
        lemma_expand_len(runs.drop_last());
    }
}

pub proof fn lemma_expand_push(runs: Seq<Run>, r: Run)
    ensures
        expand(runs.push(r)) == expand(runs) + repeat(r.value, r.length as nat),
        total_length(runs.push(r)) == total_length(runs) + r.length,
{
    assert(runs.push(r).drop_last() =~= runs);
}

/// Fills a `width` x `height` grayscale buffer (row-major, one byte per
/// pixel) from the runs of a layer: pixel number `p` of the run stream lands
/// at column `p % width` of row `p / width`, and pixels that no run reaches
/// stay black.
pub fn decode_layer_pixels(runs: &Vec<Run>, width: u32, height: u32) -> (pixels: Vec<u8>)
    requires
        width as int * height as int <= usize::MAX,
        total_length(runs@) <= width as int * height as int,
        total_length(runs@) <= u32::MAX,
    ensures
        pixels@ == decoded_pixels(runs@, width as nat, height as nat),
{
    let ghost size: int = width as int * height as int;
    let size_u64: u64 = width as u64 * height as u64;
    let mut pixels: Vec<u8> = Vec::new();
    let mut written: u64 = 0;
    let mut k: usize = 0;
    while k < runs.len()
        invariant
            0 <= k <= runs.len(),
            size == size_u64,
            size <= usize::MAX,
            total_length(runs@) <= size,
            written == total_length(runs@.take(k as int)),
            pixels@ == expand(runs@.take(k as int)),
        decreases runs.len() - k,
    {
        proof {
            assert(runs@.take(k + 1) =~= runs@.take(k as int).push(runs@[k as int]));
            lemma_expand_push(runs@.take(k as int), runs@[k as int]);
            lemma_prefix_total_le(runs@, k + 1);
        }
        let run = runs[k];
        let mut j: u64 = 0;
        while j < run.length
            invariant
                j <= run.length,
                written + run.length <= size,
                size <= usize::MAX,
                pixels@ == expand(runs@.take(k as int)) + repeat(run.value, j as nat),
            decreases run.length - j,
        {
            pixels.push(run.value);
            proof {
                assert(repeat(run.value, j as nat).push(run.value) =~= repeat(run.value, (j + 1) as nat));
            }
            j = j + 1;
        }
        written = written + run.length;
        k = k + 1;
    }
    assert(runs@.take(runs.len() as int) =~= runs@);
    let ghost body = pixels@;
    while written < size_u64
        invariant
            total_length(runs@) <= written <= size_u64,
            size_u64 <= usize::MAX,
            total_length(runs@) <= size_u64,
            pixels@ == body + repeat(0, (written - total_length(runs@)) as nat),
            body == expand(runs@),
        decreases size_u64 - written,
    {
        pixels.push(0);
        proof {
            assert(repeat(0, (written - total_length(runs@)) as nat).push(0)
                =~= repeat(0, (written + 1 - total_length(runs@)) as nat));
        }
        written = written + 1;
    }
    pixels
}

proof fn lemma_prefix_total_le(runs: Seq<Run>, n: int)
    requires
        0 <= n <= runs.len(),
    ensures
        total_length(runs.take(n)) <= total_length(runs),
    decreases runs.len(),
{
    if n < runs.len() {
        assert(runs.drop_last().take(n) =~= runs.take(n));
        lemma_prefix_total_le(runs.drop_last(), n);
    } else {
        assert(runs.take(n) =~= runs);
    }
}

} // verus!
