//! Decoding of the point-elevation service's JSON answer.
//!
//! The service answers a JSON object whose `value` field carries the
//! elevation, either as a JSON number or as a decimal number inside a
//! string. Either way the decimal text is truncated toward zero to an
//! integer: the sign and the digits before the dot decide the value, the
//! fraction is dropped. serde_json pulls the field out of the document; the
//! decimal reading itself is done and proved here.

use vstd::prelude::*;

verus! {

use crate::error::{ElevationError, HttpError};

/// An ASCII decimal digit.
pub open spec fn is_digit(b: u8) -> bool {
    48 <= b <= 57
}

pub open spec fn all_digits(s: Seq<u8>) -> bool {
    forall|i: int| 0 <= i < s.len() ==> is_digit(#[trigger] s[i])
}

/// The number a digit string stands for.
pub open spec fn digits_val(s: Seq<u8>) -> int
    decreases s.len(),
{
    if s.len() == 0 {
        0
    } else {
        digits_val(s.drop_last()) * 10 + (s.last() - 48)
    }
}

/// The token after its sign, if any.
pub open spec fn number_body(s: Seq<u8>) -> Seq<u8> {
    if s.len() > 0 && (s[0] == 45 || s[0] == 43) {
        s.skip(1)
    } else {
        s
    }
}

pub open spec fn number_is_negative(s: Seq<u8>) -> bool {
    s.len() > 0 && s[0] == 45
}

/// The exponent part after its marker, stripped of its sign.
pub open spec fn exp_digits(t: Seq<u8>) -> Seq<u8> {
    if t.len() > 0 && (t[0] == 45 || t[0] == 43) {
        t.skip(1)
    } else {
        t
    }
}

pub open spec fn exp_is_negative(t: Seq<u8>) -> bool {
    t.len() > 0 && t[0] == 45
}

/// A well-formed exponent tail: an optional sign, then at least one digit.
pub open spec fn exp_tail_ok(t: Seq<u8>) -> bool {
    exp_digits(t).len() >= 1 && all_digits(exp_digits(t))
}

/// A decimal body split at `k` and `g`: integer digits up to `k`, an
/// optional dot at `k` with fraction digits up to `g`, at least one digit
/// among them, and an optional exponent marker at `g` with a well-formed
/// tail behind it.
pub open spec fn token_shape(s: Seq<u8>, k: int, g: int) -> bool {
    &&& 0 <= k <= g <= s.len()
    &&& all_digits(s.take(k))
    &&& (k < g ==> s[k] == 46 && all_digits(s.subrange(k + 1, g)))
    &&& (0 < k || k + 1 < g)
    &&& (g < s.len() ==> (s[g] == 101 || s[g] == 69) && exp_tail_ok(s.skip(g + 1)))
}

/// Whether a byte string is a decimal number: signed or not, with an
/// optional fraction and an optional power-of-ten exponent.
pub open spec fn is_number_token(s: Seq<u8>) -> bool {
    exists|k: int, g: int| token_shape(number_body(s), k, g)
}

/// All mantissa digits, the fraction's following the integer part's.
pub open spec fn mantissa_digits(s: Seq<u8>, k: int, g: int) -> Seq<u8> {
    if k < g {
        s.take(k) + s.subrange(k + 1, g)
    } else {
        s.take(k)
    }
}

/// The signed exponent, zero when there is none.
pub open spec fn exponent_value(s: Seq<u8>, g: int) -> int {
    if g >= s.len() {
        0
    } else if exp_is_negative(s.skip(g + 1)) {
        -digits_val(exp_digits(s.skip(g + 1)))
    } else {
        digits_val(exp_digits(s.skip(g + 1)))
    }
}

pub open spec fn pow10(e: int) -> int
    decreases e,
    when e >= 0
{
    if e <= 0 {
        1
    } else {
        10 * pow10(e - 1)
    }
}

/// What a digit string truncates to when the decimal point sits at `p`:
/// the digits left of the point, scaled up when the point lies past them.
pub open spec fn truncated_magnitude(d: Seq<u8>, p: int) -> int {
    if p <= 0 {
        0
    } else if p <= d.len() {
        digits_val(d.take(p))
    } else {
        digits_val(d) * pow10(p - d.len())
    }
}

/// The number a token truncates to: its sign times its mantissa digits
/// with the decimal point shifted by the exponent. Meaningful only when
/// `is_number_token` holds.
pub open spec fn number_value(s: Seq<u8>) -> int {
    let body = number_body(s);
    let (k, g) = choose|k: int, g: int| token_shape(body, k, g);
    let mag = truncated_magnitude(mantissa_digits(body, k, g), k + exponent_value(body, g));
    if number_is_negative(s) {
        -mag
    } else {
        mag
    }
}

/// A body splits at one pair of positions only: the dot (or the mantissa
/// end) and the exponent marker (or the end).
pub proof fn lemma_shape_unique(s: Seq<u8>, k1: int, g1: int, k2: int, g2: int)
    requires
        token_shape(s, k1, g1),
        token_shape(s, k2, g2),
    ensures
        k1 == k2,
        g1 == g2,
{
    if g1 < g2 {
        if g1 < k2 {
            assert(is_digit(s.take(k2)[g1]));
        } else if g1 == k2 {
            assert(s[k2] == 46);
        } else {
            assert(is_digit(s.subrange(k2 + 1, g2)[g1 - k2 - 1]));
        }
    }
    if g2 < g1 {
        if g2 < k1 {
            assert(is_digit(s.take(k1)[g2]));
        } else if g2 == k1 {
            assert(s[k1] == 46);
        } else {
            assert(is_digit(s.subrange(k1 + 1, g1)[g2 - k1 - 1]));
        }
    }
    if k1 < k2 {
        assert(is_digit(s.take(k2)[k1]));
    }
    if k2 < k1 {
        assert(is_digit(s.take(k1)[k2]));
    }
}

proof fn lemma_pow10_pos(e: int)
    requires
        e >= 0,
    ensures
        pow10(e) >= 1,
    decreases e,
{
    if e > 0 {
        lemma_pow10_pos(e - 1);
    }
}

/// Ten or more decimal shifts push any nonzero magnitude past an `i32`.
proof fn lemma_pow10_large(e: int)
    requires
        e >= 10,
    ensures
        pow10(e) > 0x8000_0000,
    decreases e,
{
    if e == 10 {
        reveal_with_fuel(pow10, 12);
        assert(pow10(10) == 10_000_000_000);
    } else {
        lemma_pow10_large(e - 1);
        lemma_pow10_pos(e - 1);
    }
}

/// Value of the first `p` digits of `d`, with a saturation flag: the flag
/// is set exactly when that value exceeds the `i32` quantization threshold.
#[verifier::loop_isolation(false)]
fn digits_prefix_value(d: &Vec<u8>, p: usize) -> (r: (u64, bool))
    requires
        p <= d.len(),
        all_digits(d@),
    ensures
        !r.1 ==> r.0 as int == digits_val(d@.take(p as int)) && r.0 <= 0x8000_0000,
        r.1 ==> digits_val(d@.take(p as int)) > 0x8000_0000,
{
    let mut acc: u64 = 0;
    let mut over = false;
    let mut c: usize = 0;
    while c < p
        invariant
            c <= p,
            !over ==> acc as int == digits_val(d@.take(c as int)) && acc <= 0x8000_0000,
            over ==> digits_val(d@.take(c as int)) > 0x8000_0000,
        decreases p - c,
    {
        let b = d[c];
        proof {
            assert(d@.take(c + 1).drop_last() =~= d@.take(c as int));
            assert(d@.take(c + 1).last() == d@[c as int]);
            assert(is_digit(d@[c as int]));
        }
        if !over {
            let next: u64 = acc * 10 + (b - 48) as u64;
            if next > 0x8000_0000 {
                over = true;
            } else {
                acc = next;
            }
        }
        c = c + 1;
    }
    (acc, over)
}

/// Bytes without a single mantissa digit are no number token.
proof fn lemma_not_a_token_no_digits(body: Seq<u8>, frac_present: bool)
    requires
        frac_present ==> 0 < body.len() && body[0] == 46 && (1 < body.len() ==> !is_digit(
            body[1],
        )),
        !frac_present ==> (0 < body.len() ==> body[0] != 46 && !is_digit(body[0])),
    ensures
        forall|k2: int, g2: int| !token_shape(body, k2, g2),
{
    assert forall|k2: int, g2: int| !token_shape(body, k2, g2) by {
        if token_shape(body, k2, g2) {
            if k2 > 0 {
                assert(is_digit(body.take(k2)[0]));
                assert(false);
            } else {
                assert(k2 + 1 < g2);
                assert(body[0] == 46);
                assert(frac_present);
                assert(is_digit(body.subrange(1, g2)[0]));
                assert(false);
            }
        }
    }
}

/// With a shape witness in hand, the token's value is the witness's:
/// splits are unique, so the chosen one is ours.
proof fn lemma_value_pinned(s: Seq<u8>, kpos: int, gpos: int)
    requires
        token_shape(number_body(s), kpos, gpos),
    ensures
        is_number_token(s),
        number_value(s) == (if number_is_negative(s) {
            -truncated_magnitude(
                mantissa_digits(number_body(s), kpos, gpos),
                kpos + exponent_value(number_body(s), gpos),
            )
        } else {
            truncated_magnitude(
                mantissa_digits(number_body(s), kpos, gpos),
                kpos + exponent_value(number_body(s), gpos),
            )
        }),
{
    let body = number_body(s);
    assert(is_number_token(s));
    let (k, g) = choose|k: int, g: int| token_shape(body, k, g);
    lemma_shape_unique(body, k, g, kpos, gpos);
}

/// Bytes whose mantissa is followed by anything but an exponent marker are
/// no number token.
proof fn lemma_not_a_token_bad_trailer(body: Seq<u8>, kpos: int, gpos: int, frac_present: bool)
    requires
        0 <= kpos <= gpos < body.len(),
        all_digits(body.take(kpos)),
        frac_present ==> kpos < gpos && body[kpos] == 46 && all_digits(
            body.subrange(kpos + 1, gpos),
        ),
        !frac_present ==> kpos == gpos && body[gpos] != 46,
        !is_digit(body[gpos]),
        body[gpos] != 101 && body[gpos] != 69,
    ensures
        forall|k2: int, g2: int| !token_shape(body, k2, g2),
{
    assert forall|k2: int, g2: int| !token_shape(body, k2, g2) by {
        if token_shape(body, k2, g2) {
            if g2 < gpos {
                if g2 < kpos {
                    assert(is_digit(body.take(kpos)[g2]));
                } else if g2 == kpos {
                    assert(frac_present);
                    assert(body[kpos] == 46);
                } else {
                    assert(is_digit(body.subrange(kpos + 1, gpos)[g2 - kpos - 1]));
                }
                assert(body[g2] == 101 || body[g2] == 69);
                assert(false);
            } else if g2 == gpos {
                assert(body[gpos] == 101 || body[gpos] == 69);
                assert(false);
            } else {
                if gpos < k2 {
                    assert(is_digit(body.take(k2)[gpos]));
                    assert(false);
                } else if gpos == k2 {
                    assert(k2 < g2);
                    assert(body[k2] == 46);
                    assert(frac_present);
                    assert(is_digit(body.take(k2)[kpos]));
                    assert(false);
                } else {
                    assert(is_digit(body.subrange(k2 + 1, g2)[gpos - k2 - 1]));
                    assert(false);
                }
            }
        }
    }
}

/// Bytes whose exponent marker is not followed by sign-and-digits are no
/// number token. `ebase` is where the exponent's digits would begin, `qb`
/// where the digit scan stopped.
proof fn lemma_not_a_token_bad_exponent(
    body: Seq<u8>,
    kpos: int,
    gpos: int,
    frac_present: bool,
    ebase: int,
    qb: int,
)
    requires
        0 <= kpos <= gpos < body.len(),
        all_digits(body.take(kpos)),
        frac_present ==> kpos < gpos && body[kpos] == 46 && all_digits(
            body.subrange(kpos + 1, gpos),
        ),
        !frac_present ==> kpos == gpos,
        body[gpos] == 101 || body[gpos] == 69,
        gpos + 1 <= ebase <= body.len(),
        ebase == gpos + 2 ==> gpos + 1 < body.len() && (body[gpos + 1] == 45 || body[gpos + 1]
            == 43),
        ebase == gpos + 1 ==> (gpos + 1 < body.len() ==> body[gpos + 1] != 45 && body[gpos + 1]
            != 43),
        ebase == gpos + 1 || ebase == gpos + 2,
        ebase <= qb <= body.len(),
        qb < body.len() ==> !is_digit(body[qb]),
        qb == body.len() ==> qb == ebase,
    ensures
        forall|k2: int, g2: int| !token_shape(body, k2, g2),
{
    assert forall|k2: int, g2: int| !token_shape(body, k2, g2) by {
        if token_shape(body, k2, g2) {
            if g2 < gpos {
                if g2 < kpos {
                    assert(is_digit(body.take(kpos)[g2]));
                } else if g2 == kpos {
                    assert(frac_present);
                    assert(body[kpos] == 46);
                } else {
                    assert(is_digit(body.subrange(kpos + 1, gpos)[g2 - kpos - 1]));
                }
                assert(body[g2] == 101 || body[g2] == 69);
                assert(false);
            } else if g2 == gpos {
                let tail = body.skip(gpos + 1);
                assert(exp_tail_ok(tail));
                let ed = exp_digits(tail);
                assert(ed =~= body.subrange(ebase, body.len() as int)) by {
                    if ebase == gpos + 2 {
                        assert(tail[0] == body[gpos + 1]);
                        assert(ed =~= tail.skip(1));
                    } else {
                        if tail.len() > 0 {
                            assert(tail[0] == body[gpos + 1]);
                        }
                    }
                }
                if qb == body.len() {
                    assert(ed.len() == 0);
                    assert(false);
                } else {
                    assert(is_digit(ed[qb - ebase]));
                    assert(ed[qb - ebase] == body[qb]);
                    assert(false);
                }
            } else {
                if gpos < k2 {
                    assert(is_digit(body.take(k2)[gpos]));
                    assert(false);
                } else if gpos == k2 {
                    assert(k2 < g2);
                    assert(body[k2] == 46);
                    assert(false);
                } else {
                    assert(is_digit(body.subrange(k2 + 1, g2)[gpos - k2 - 1]));
                    assert(false);
                }
            }
        }
    }
}

/// The saturating magnitude of mantissa digits with the decimal point
/// after `int_len` of them, shifted by the signed exponent carried in
/// `(eneg, eacc, eover)`: the flag comes back set exactly when the
/// magnitude exceeds the `i32` quantization threshold.
#[verifier::loop_isolation(false)]
fn scaled_magnitude(
    mant: &Vec<u8>,
    int_len: usize,
    eneg: bool,
    eacc: u128,
    eover: bool,
    Ghost(emag): Ghost<int>,
) -> (r: (u64, bool))
    requires
        int_len <= mant.len(),
        all_digits(mant@),
        emag >= 0,
        !eover ==> eacc as int == emag && eacc <= 0x1_0000_0000_0000_000A,
        eover ==> emag > 0x1_0000_0000_0000_000A,
    ensures
        ({
            let p = int_len + (if eneg {
                -emag
            } else {
                emag
            });
            let tm = truncated_magnitude(mant@, p);
            &&& (!r.1 ==> r.0 as int == tm && r.0 <= 0x8000_0000)
            &&& (r.1 ==> tm > 0x8000_0000)
        }),
{
    let ghost p = int_len + (if eneg {
        -emag
    } else {
        emag
    });
    let ghost tm = truncated_magnitude(mant@, p);
    let mant_len = mant.len();
    let frac_len = mant_len - int_len;
    if eneg {
        if eover || eacc >= int_len as u128 {
            proof {
                assert(p <= 0);
            }
            (0, false)
        } else {
            let pu: usize = int_len - (eacc as usize);
            let rr = digits_prefix_value(mant, pu);
            proof {
                assert(0 < p <= mant@.len());
                assert(mant@.take(p) == mant@.take(pu as int));
            }
            rr
        }
    } else {
        if eover || eacc >= frac_len as u128 + 10 {
            let rr = digits_prefix_value(mant, mant_len);
            proof {
                assert(mant@.take(mant_len as int) =~= mant@);
                assert(p - mant@.len() >= 10);
            }
            if !rr.1 && rr.0 == 0 {
                proof {
                    assert(digits_val(mant@) == 0);
                    vstd::arithmetic::mul::lemma_mul_by_zero_is_zero(pow10(p - mant@.len()));
                    assert(tm == 0);
                }
                (0, false)
            } else {
                proof {
                    lemma_pow10_large(p - mant@.len());
                    lemma_pow10_pos(p - mant@.len());
                    vstd::arithmetic::mul::lemma_mul_inequality(
                        1,
                        digits_val(mant@),
                        pow10(p - mant@.len()),
                    );
                    assert(tm > 0x8000_0000);
                }
                (0, true)
            }
        } else if eacc >= frac_len as u128 {
            let shift128: u128 = eacc - frac_len as u128;
            let shift: usize = shift128 as usize;
            let rr = digits_prefix_value(mant, mant_len);
            let mut acc = rr.0;
            let mut over = rr.1;
            proof {
                assert(mant@.take(mant_len as int) =~= mant@);
            }
            let mut t: usize = 0;
            while t < shift
                invariant
                    t <= shift,
                    shift < 10,
                    !over ==> acc as int == digits_val(mant@) * pow10(t as int) && acc
                        <= 0x8000_0000,
                    over ==> digits_val(mant@) * pow10(t as int) > 0x8000_0000,
                decreases shift - t,
            {
                proof {
                    assert(pow10(t + 1) == 10 * pow10(t as int));
                    vstd::arithmetic::mul::lemma_mul_is_associative(
                        digits_val(mant@),
                        pow10(t as int),
                        10,
                    );
                    vstd::arithmetic::mul::lemma_mul_is_commutative(pow10(t as int), 10);
                }
                if !over {
                    let next: u64 = acc * 10;
                    if next > 0x8000_0000 {
                        over = true;
                    } else {
                        acc = next;
                    }
                }
                t = t + 1;
            }
            proof {
                if p <= mant@.len() {
                    assert(p == mant@.len() && shift == 0);
                    assert(mant@.take(p) =~= mant@);
                    assert(pow10(0) == 1);
                } else {
                    assert(p - mant@.len() == shift as int);
                }
            }
            (acc, over)
        } else {
            let pu: usize = int_len + (eacc as usize);
            let rr = digits_prefix_value(mant, pu);
            proof {
                if p <= 0 {
                    assert(p == 0 && pu == 0);
                    assert(mant@.take(0) =~= Seq::<u8>::empty());
                } else {
                    assert(mant@.take(p) == mant@.take(pu as int));
                }
            }
            rr
        }
    }
}

/// Reads a decimal token, truncating toward zero: `Ok` with the truncated
/// value exactly when the bytes are a decimal number that truncates into
/// `i32` range; `NotANumber` exactly when they are not a decimal number;
/// `ValueOutOfRange` exactly when the truncated value overflows.
#[verifier::rlimit(100)]
pub fn parse_truncated_number(s: &[u8]) -> (r: Result<i32, ElevationError>)
    ensures
        is_number_token(s@) && -0x8000_0000 <= number_value(s@) <= 0x7fff_ffff ==> r == Ok::<
            i32,
            ElevationError,
        >(number_value(s@) as i32),
        !is_number_token(s@) ==> r == Err::<i32, ElevationError>(ElevationError::NotANumber),
        is_number_token(s@) && !(-0x8000_0000 <= number_value(s@) <= 0x7fff_ffff) ==> r == Err::<
            i32,
            ElevationError,
        >(ElevationError::ValueOutOfRange),
{
    let n = s.len();
    let mut i: usize = 0;
    let mut neg = false;
    if n > 0 && (s[0] == 45u8 || s[0] == 43u8) {
        neg = s[0] == 45u8;
        i = 1;
    }
    let ghost body = number_body(s@);
    let ghost start = i as int;
    proof {
        assert(body =~= s@.skip(start));
    }
    let int_start = i;
    let mut mant: Vec<u8> = Vec::new();
    while i < n && 48u8 <= s[i] && s[i] <= 57u8
        invariant
            n == s@.len(),
            int_start as int == start,
            0 <= start <= i <= n,
            body == s@.skip(start),
            all_digits(body.take(i - start)),
            mant@ == body.take(i - start),
        decreases n - i,
    {
        proof {
            assert(body.take(i - start + 1).drop_last() =~= body.take(i - start));
            assert(body.take(i - start + 1).last() == s@[i as int]);
        }
        mant.push(s[i]);
        i = i + 1;
    }
    let ghost kpos = i - start;
    let int_len = i - int_start;
    let mut mant_end = i;
    let mut frac_present = false;
    if i < n && s[i] == 46u8 {
        frac_present = true;
        let mut j = i + 1;
        while j < n && 48u8 <= s[j] && s[j] <= 57u8
            invariant
                n == s@.len(),
                0 <= start <= i < n,
                kpos == i - start,
                i + 1 <= j <= n,
                body == s@.skip(start),
                all_digits(body.subrange(kpos + 1, j - start)),
                mant@ == body.take(kpos) + body.subrange(kpos + 1, j - start),
            decreases n - j,
        {
            proof {
                assert(body.subrange(kpos + 1, j - start + 1).drop_last() =~= body.subrange(
                    kpos + 1,
                    j - start,
                ));
                assert(body.subrange(kpos + 1, j - start + 1).last() == s@[j as int]);
            }
            mant.push(s[j]);
            j = j + 1;
        }
        mant_end = j;
    }
    let ghost gpos = mant_end - start;
    let ghost dseq = mantissa_digits(body, kpos, gpos);
    proof {
        assert(dseq =~= mant@);
        assert forall|u: int| 0 <= u < mant@.len() implies is_digit(#[trigger] mant@[u]) by {
            if u < kpos {
                assert(mant@[u] == body.take(kpos)[u]);
            } else {
                assert(mant@[u] == body.subrange(kpos + 1, gpos)[u - kpos]);
            }
        }
    }
    if mant.len() == 0 {
        proof {
            assert(kpos == 0);
            assert(0 < body.len() ==> body[0] == s@[start]);
            assert(frac_present ==> gpos == 1 && (1 < body.len() ==> body[1] == s@[start + 1]
                && !is_digit(body[1])));
            lemma_not_a_token_no_digits(body, frac_present);
        }
        return Err(ElevationError::NotANumber);
    }
    let mut eneg = false;
    let mut eacc: u128 = 0;
    let mut eover = false;
    if mant_end < n {
        if s[mant_end] == 101u8 || s[mant_end] == 69u8 {
            let mut q = mant_end + 1;
            if q < n && (s[q] == 45u8 || s[q] == 43u8) {
                eneg = s[q] == 45u8;
                q = q + 1;
            }
            let exp_digit_start = q;
            while q < n && 48u8 <= s[q] && s[q] <= 57u8
                invariant
                    n == s@.len(),
                    exp_digit_start <= q <= n,
                    all_digits(s@.subrange(exp_digit_start as int, q as int)),
                    !eover ==> eacc as int == digits_val(
                        s@.subrange(exp_digit_start as int, q as int),
                    ) && eacc <= 0x1_0000_0000_0000_000A,
                    eover ==> digits_val(s@.subrange(exp_digit_start as int, q as int))
                        > 0x1_0000_0000_0000_000A,
                decreases n - q,
            {
                proof {
                    assert(s@.subrange(exp_digit_start as int, q + 1).drop_last() =~= s@.subrange(
                        exp_digit_start as int,
                        q as int,
                    ));
                    assert(s@.subrange(exp_digit_start as int, q + 1).last() == s@[q as int]);
                }
                if !eover {
                    let next: u128 = eacc * 10 + (s[q] - 48) as u128;
                    if next > 0x1_0000_0000_0000_000A {
                        eover = true;
                    } else {
                        eacc = next;
                    }
                }
                q = q + 1;
            }
            if !(q == n && q > exp_digit_start) {
                proof {
                    let ebase = exp_digit_start as int - start;
                    let qb = q as int - start;
                    assert(body[gpos] == s@[mant_end as int]);
                    assert(gpos + 1 < body.len() ==> body[gpos + 1] == s@[mant_end + 1]);
                    assert(qb < body.len() ==> body[qb] == s@[q as int]);
                    lemma_not_a_token_bad_exponent(body, kpos, gpos, frac_present, ebase, qb);
                }
                return Err(ElevationError::NotANumber);
            }
            proof {
                let tail = body.skip(gpos + 1);
                assert(exp_digits(tail) =~= s@.subrange(exp_digit_start as int, n as int));
                assert(exp_is_negative(tail) == eneg);
                assert(exp_tail_ok(tail));
            }
        } else {
            proof {
                assert(body[gpos] == s@[mant_end as int]);
                assert(frac_present ==> body[kpos] == s@[(int_start + int_len) as int]);
                lemma_not_a_token_bad_trailer(body, kpos, gpos, frac_present);
            }
            return Err(ElevationError::NotANumber);
        }
    }
    let ghost e = exponent_value(body, gpos);
    let ghost p = kpos + e;
    let ghost tm = truncated_magnitude(dseq, p);
    proof {
        assert(token_shape(body, kpos, gpos));
        lemma_value_pinned(s@, kpos, gpos);
        assert(number_value(s@) == if neg {
            -tm
        } else {
            tm
        });
        if !eover {
            assert(eacc as int == if eneg {
                -e
            } else {
                e
            });
        } else {
            assert((if eneg {
                -e
            } else {
                e
            }) > 0x1_0000_0000_0000_000A);
        }
    }
    let ghost emag = if eneg {
        -e
    } else {
        e
    };
    let rm = scaled_magnitude(&mant, int_len, eneg, eacc, eover, Ghost(emag));
    let acc = rm.0;
    let over = rm.1;
    proof {
        assert(int_len + (if eneg {
            -emag
        } else {
            emag
        }) == p);
        assert(!over ==> acc as int == tm && acc <= 0x8000_0000);
        assert(over ==> tm > 0x8000_0000);
    }
    if over {
        return Err(ElevationError::ValueOutOfRange);
    }
    if neg {
        Ok((-(acc as i64)) as i32)
    } else {
        if acc >= 0x8000_0000 {
            return Err(ElevationError::ValueOutOfRange);
        }
        Ok(acc as i32)
    }
}

/// `Ok` exactly for an HTTP 200; any other status aborts the run with an
/// error holding that status and the reason phrase it came with.
pub fn ensure_status_ok(status_code: u16, reason_phrase: String) -> (r: Result<(), HttpError>)
    ensures
        r is Ok <==> status_code == 200,
        r is Err ==> r->Err_0.status_code == status_code && r->Err_0.reason_phrase
            == reason_phrase,
{
    if status_code == 200 {
        Ok(())
    } else {
        Err(HttpError { status_code, reason_phrase })
    }
}

/// Whether serde_json parses the body as a JSON document. Parsing depends
/// on the body alone.
pub uninterp spec fn json_doc_ok(body: Seq<char>) -> bool;

/// The text of the document's `value` field: for a string value the bytes
/// of the string itself, for any other value its serialized token (a JSON
/// number's decimal text); `None` when there is no such field. A function
/// of the body alone.
pub uninterp spec fn value_field_token(body: Seq<char>) -> Option<Seq<u8>>;

/// Relies on serde_json — `from_str::<Value>`, `Value::get`, `Value::as_str`
/// and `to_string`: parses the document and hands back the text of its
/// `value` field. `json_doc_ok` names whether the body parses,
/// `value_field_token` what the field held; serializing a `Value` cannot
/// fail, and any failure would surface as an empty, unparseable token.
#[verifier::external_body]
fn extract_value_token(body: &str) -> (r: Result<Option<Vec<u8>>, ElevationError>)
    ensures
        r is Ok <==> json_doc_ok(body@),
        r is Err ==> r->Err_0 == ElevationError::InvalidJson,
        r is Ok ==> (match r->Ok_0 {
            Some(b) => value_field_token(body@) == Some(b@),
            None => value_field_token(body@) is None,
        }),
{
    match serde_json::from_str::<serde_json::Value>(body) {
        Err(_) => Err(ElevationError::InvalidJson),
        Ok(doc) => Ok(doc.get("value").map(|field| match field.as_str() {
            Some(text) => text.as_bytes().to_vec(),
            None => serde_json::to_string(field).map(|t| t.into_bytes()).unwrap_or(Vec::new()),
        })),
    }
}

/// Pulls the elevation out of a service answer: the `value` field of the
/// JSON body, given as a number or as a decimal string, truncated toward
/// zero. `InvalidJson` comes exactly on a malformed body, `MissingValue`
/// exactly on a body without the field, and the field's text decides the
/// rest as `parse_truncated_number` does.
pub fn parse_elevation_response(body: &str) -> (r: Result<i32, ElevationError>)
    ensures
        !json_doc_ok(body@) ==> r == Err::<i32, ElevationError>(ElevationError::InvalidJson),
        json_doc_ok(body@) && value_field_token(body@) is None ==> r == Err::<
            i32,
            ElevationError,
        >(ElevationError::MissingValue),
        json_doc_ok(body@) ==> (value_field_token(body@) matches Some(t) ==> {
            &&& (is_number_token(t) && -0x8000_0000 <= number_value(t) <= 0x7fff_ffff ==> r
                == Ok::<i32, ElevationError>(number_value(t) as i32))
            &&& (!is_number_token(t) ==> r == Err::<i32, ElevationError>(
                ElevationError::NotANumber,
            ))
            &&& (is_number_token(t) && !(-0x8000_0000 <= number_value(t) <= 0x7fff_ffff) ==> r
                == Err::<i32, ElevationError>(ElevationError::ValueOutOfRange))
        }),
{
    match extract_value_token(body) {
        Err(e) => Err(e),
        Ok(None) => Err(ElevationError::MissingValue),
        Ok(Some(token)) => parse_truncated_number(token.as_slice()),
    }
}

} // verus!
