//! Min-max quantization of an elevation grid onto a small band of levels.

use vstd::prelude::*;

verus! {

use vstd::arithmetic::div_mod::{lemma_div_is_ordered, lemma_div_pos_is_pos, lemma_multiply_divide_lt};
use vstd::arithmetic::mul::{lemma_mul_inequality, lemma_mul_is_distributive_sub_other_way};
use crate::grid::{ElevationGrid, LevelGrid};

/// Least element of a non-empty sequence.
pub open spec fn seq_min(s: Seq<int>) -> int
    decreases s.len(),
{
    if s.len() <= 1 {
        s[0]
    } else if s.last() < seq_min(s.drop_last()) {
        s.last()
    } else {
        seq_min(s.drop_last())
    }
}

/// Greatest element of a non-empty sequence.
pub open spec fn seq_max(s: Seq<int>) -> int
    decreases s.len(),
{
    if s.len() <= 1 {
        s[0]
    } else if s.last() > seq_max(s.drop_last()) {
        s.last()
    } else {
        seq_max(s.drop_last())
    }
}

/// One cell of the linear rescale: `(e - lo) * (levels + 1) / (hi - lo)`,
/// truncating toward zero, where `lo` is the least sample and `hi` is one
/// more than the greatest.
pub open spec fn quantize_cell(e: int, lo: int, hi: int, levels: int) -> int {
    (e - lo) * (levels + 1) / (hi - lo)
}

/// The whole rescale of a non-empty sample sequence.
pub open spec fn quantized(s: Seq<int>, levels: int) -> Seq<int> {
    Seq::new(s.len(), |i: int| quantize_cell(s[i], seq_min(s), seq_max(s) + 1, levels))
}

pub proof fn lemma_seq_min_push(s: Seq<int>, v: int)
    requires
        s.len() >= 1,
    ensures
        seq_min(s.push(v)) == if v < seq_min(s) {
            v
        } else {
            seq_min(s)
        },
        seq_max(s.push(v)) == if v > seq_max(s) {
            v
        } else {
            seq_max(s)
        },
{
    assert(s.push(v).drop_last() =~= s);
}

/// The least element really is a lower bound, and the greatest an upper one.
pub proof fn lemma_seq_min_max_bound(s: Seq<int>, i: int)
    requires
        0 <= i < s.len(),
    ensures
        seq_min(s) <= s[i] <= seq_max(s),
    decreases s.len(),
{
    if i + 1 < s.len() {
        lemma_seq_min_max_bound(s.drop_last(), i);
    }
}

/// Truncating rescale never exceeds `levels` and never goes negative.
pub proof fn lemma_quantize_cell_in_band(e: int, lo: int, hi: int, levels: int)
    requires
        lo <= e < hi,
        levels >= 0,
    ensures
        0 <= quantize_cell(e, lo, hi, levels) <= levels,
{
    let num = (e - lo) * (levels + 1);
    let den = hi - lo;
    lemma_mul_inequality(e - lo, den - 1, levels + 1);
    lemma_mul_is_distributive_sub_other_way(levels + 1, den, 1);
    assert(num <= den * (levels + 1) - (levels + 1));
    lemma_multiply_divide_lt(num, den, levels + 1);
    vstd::arithmetic::mul::lemma_mul_nonnegative(e - lo, levels + 1);
    lemma_div_pos_is_pos(num, den);
}

/// Quantization does not change when every sample is shifted by the same
/// amount: the band each cell lands in depends only on the sample's offset
/// from the observed minimum and on the observed spread.
pub proof fn lemma_quantize_shift_invariant(s: Seq<int>, c: int, levels: int)
    requires
        s.len() >= 1,
    ensures
        quantized(s.map_values(|e: int| e + c), levels) == quantized(s, levels),
{
    let t = s.map_values(|e: int| e + c);
    lemma_seq_min_max_shift(s, c);
    assert forall|i: int| 0 <= i < t.len() implies quantized(t, levels)[i] == quantized(
        s,
        levels,
    )[i] by {
        assert(t[i] == s[i] + c);
        assert(t[i] - seq_min(t) == s[i] - seq_min(s));
    }
    assert(quantized(t, levels) =~= quantized(s, levels));
}

/// Shifting every sample shifts the least and greatest samples along.
pub proof fn lemma_seq_min_max_shift(s: Seq<int>, c: int)
    requires
        s.len() >= 1,
    ensures
        seq_min(s.map_values(|e: int| e + c)) == seq_min(s) + c,
        seq_max(s.map_values(|e: int| e + c)) == seq_max(s) + c,
    decreases s.len(),
{
    let t = s.map_values(|e: int| e + c);
    if s.len() == 1 {
        assert(t[0] == s[0] + c);
    } else {
        lemma_seq_min_max_shift(s.drop_last(), c);
        assert(t.drop_last() =~= s.drop_last().map_values(|e: int| e + c));
        assert(t.last() == s.last() + c);
    }
}

/// Quantization is monotonic: a higher sample never lands in a lower band.
pub proof fn lemma_quantize_monotone(s: Seq<int>, levels: int, i: int, j: int)
    requires
        0 <= i < s.len(),
        0 <= j < s.len(),
        s[i] >= s[j],
        levels >= 0,
    ensures
        quantized(s, levels)[i] >= quantized(s, levels)[j],
{
    let lo = seq_min(s);
    let hi = seq_max(s) + 1;
    lemma_seq_min_max_bound(s, i);
    lemma_seq_min_max_bound(s, j);
    lemma_mul_inequality(s[j] - lo, s[i] - lo, levels + 1);
    lemma_div_is_ordered((s[j] - lo) * (levels + 1), (s[i] - lo) * (levels + 1), hi - lo);
}

/// A constant sequence quantizes to all zeros, whatever the level count.
pub proof fn lemma_quantize_constant(s: Seq<int>, levels: int)
    requires
        s.len() >= 1,
        forall|i: int| 0 <= i < s.len() ==> #[trigger] s[i] == s[0],
    ensures
        forall|i: int| 0 <= i < s.len() ==> quantized(s, levels)[i] == 0,
{
    lemma_seq_min_max_const(s);
    assert forall|i: int| 0 <= i < s.len() implies quantized(s, levels)[i] == 0 by {
        assert(s[i] == s[0]);
        assert(quantize_cell(s[i], s[0], s[0] + 1, levels) == 0 * (levels + 1) / 1);
    }
}

/// In a constant sequence the least and the greatest sample are the sample.
pub proof fn lemma_seq_min_max_const(s: Seq<int>)
    requires
        s.len() >= 1,
        forall|i: int| 0 <= i < s.len() ==> #[trigger] s[i] == s[0],
    ensures
        seq_min(s) == s[0],
        seq_max(s) == s[0],
    decreases s.len(),
{
    if s.len() > 1 {
        assert(forall|i: int|
            0 <= i < s.drop_last().len() ==> #[trigger] s.drop_last()[i] == s.drop_last()[0]);
        lemma_seq_min_max_const(s.drop_last());
        assert(s.last() == s[0]);
    }
}

/// Rescales every elevation sample onto the integer band `[0, levels]`:
/// with `lo` the least sample and `hi` one more than the greatest, each cell
/// `e` becomes `(e - lo) * (levels + 1) / (hi - lo)`, truncating toward zero.
#[verifier::loop_isolation(false)]
pub fn get_lego_elevations(elevations: &ElevationGrid, levels: u8) -> (out: LevelGrid)
    requires
        elevations.wf(),
        levels >= 1,
    ensures
        out.wf(),
        out.size == elevations.size,
        out.cells@.map_values(|v: u8| v as int) == quantized(
            elevations.cells@.map_values(|v: i32| v as int),
            levels as int,
        ),
        forall|i: int| 0 <= i < out.cells@.len() ==> out.cells@[i] <= levels,
{
    let ghost s = elevations.cells@.map_values(|v: i32| v as int);
    proof {
        vstd::arithmetic::mul::lemma_mul_strictly_positive(
            elevations.size as int,
            elevations.size as int,
        );
    }
    let n = elevations.cells.len();
    let mut lo: i32 = elevations.cells[0];
    let mut hi: i32 = elevations.cells[0];
    let mut i: usize = 1;
    proof {
        assert(s.take(1) =~= seq![s[0]]);
    }
    while i < n
        invariant
            1 <= i <= n == elevations.cells.len() == s.len(),
            lo as int == seq_min(s.take(i as int)),
            hi as int == seq_max(s.take(i as int)),
        decreases n - i,
    {
        let e = elevations.cells[i];
        proof {
            assert(s[i as int] == e as int);
            lemma_seq_min_push(s.take(i as int), s[i as int]);
            assert(s.take(i as int).push(s[i as int]) =~= s.take(i + 1));
        }
        if e < lo {
            lo = e;
        }
        if e > hi {
            hi = e;
        }
        i = i + 1;
    }
    proof {
        assert(s.take(n as int) =~= s);
    }
    let lo64: i64 = lo as i64;
    let hi64: i64 = hi as i64 + 1;
    let band: i64 = levels as i64 + 1;
    let mut cells: Vec<u8> = Vec::new();
    let mut i: usize = 0;
    while i < n
        invariant
            0 <= i <= n == elevations.cells.len() == s.len(),
            lo64 == seq_min(s),
            hi64 == seq_max(s) + 1,
            band == levels as int + 1,
            1 <= levels <= 255,
            cells.len() == i,
            forall|j: int| 0 <= j < i ==> cells@[j] as int == quantized(s, levels as int)[j],
            forall|j: int| 0 <= j < i ==> cells@[j] <= levels,
        decreases n - i,
    {
        let e = elevations.cells[i];
        proof {
            assert(s[i as int] == e as int);
            lemma_seq_min_max_bound(s, i as int);
            lemma_quantize_cell_in_band(s[i as int], seq_min(s), seq_max(s) + 1, levels as int);
            vstd::arithmetic::mul::lemma_mul_upper_bound(
                s[i as int] - seq_min(s),
                0x1_0000_0000,
                levels as int + 1,
                256,
            );
            vstd::arithmetic::mul::lemma_mul_nonnegative(
                s[i as int] - seq_min(s),
                levels as int + 1,
            );
        }
        let diff: u64 = (e as i64 - lo64) as u64;
        let num: u64 = diff * (band as u64);
        let den: u64 = (hi64 - lo64) as u64;
        let q: u64 = num / den;
        cells.push(q as u8);
        i = i + 1;
    }
    let out = LevelGrid { size: elevations.size, cells };
    proof {
        assert(out.cells@.map_values(|v: u8| v as int) =~= quantized(s, levels as int));
    }
    out
}

} // verus!
