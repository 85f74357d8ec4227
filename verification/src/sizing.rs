//! Atlas edge lengths: the first size tried and the growth between tries.

use vstd::prelude::*;
use vstd::arithmetic::power2::{lemma_pow2_unfold, lemma_pow2_strictly_increases, pow2};
use crate::error::Error;
use crate::pack::{PackConfig, Sprite, SpriteDims, dims_of};

verus! {

/// `x` clamped to the range of `u32` from above.
pub open spec fn sat_u32(x: int) -> int {
    if x > u32::MAX as int { u32::MAX as int } else { x }
}

/// The smaller of two integers.
pub open spec fn min_int(a: int, b: int) -> int {
    if a <= b { a } else { b }
}

/// The larger of two integers.
pub open spec fn max_int(a: int, b: int) -> int {
    if a >= b { a } else { b }
}

/// The edge length tried after `current` failed: doubled (power-of-two mode) or
/// grown by a quarter but at least 16 pixels, capped at `max`, and always at
/// least one more than `current`.
pub open spec fn spec_next_size(current: u32, power_of_two: bool, max: u32) -> int {
    let grown = if power_of_two {
        sat_u32(current * 2)
    } else {
        sat_u32(current + max_int((current / 4) as int, 16))
    };
    max_int(min_int(grown, max as int), current + 1)
}

/// How the edge grows after a failed try: below `max`, it doubles in
/// power-of-two mode and grows by a quarter, but at least 16, otherwise,
/// never past `max`; at or above `max` it grows by one, which ends the search.
pub proof fn lemma_next_size_growth(current: u32, power_of_two: bool, max: u32)
    requires
        current < u32::MAX,
    ensures
        current >= max ==> spec_next_size(current, power_of_two, max) == current + 1,
        current < max && power_of_two ==> spec_next_size(current, power_of_two, max) == if 2 * current
            < max {
            if current == 0 { 1 } else { 2 * current }
        } else {
            max as int
        },
        current < max && !power_of_two ==> spec_next_size(current, power_of_two, max) == if current
            + 16 > max {
            max as int
        } else if current / 4 <= 16 {
            current + 16
        } else if current + current / 4 < max {
            current + current / 4
        } else {
            max as int
        },
{
}

/// Next atlas edge length to try after `current` did not fit.
pub fn next_size(current: u32, power_of_two: bool, max: u32) -> (r: u32)
    requires
        current < u32::MAX,
    ensures
        r == spec_next_size(current, power_of_two, max),
        r > current,
{
    let grown: u32 = if power_of_two {
        if current > u32::MAX / 2 { u32::MAX } else { current * 2 }
    } else {
        let quarter: u32 = if current / 4 >= 16 { current / 4 } else { 16 };
        current.saturating_add(quarter)
    };
    let capped: u32 = if grown <= max { grown } else { max };
    if capped >= current + 1 { capped } else { current + 1 }
}


/// `r` is the ceiling of the square root of `a`: the least `r >= 0` with
/// `r * r >= a`.
pub open spec fn is_ceil_sqrt(a: int, r: int) -> bool {
    &&& 0 <= r
    &&& r * r >= a
    &&& r == 0 || (r - 1) * (r - 1) < a
}

/// The ceiling of the square root of `a`.
pub open spec fn ceil_sqrt(a: int) -> int {
    choose|r: int| is_ceil_sqrt(a, r)
}

/// Number of binary digits of `a` (0 for 0).
pub open spec fn bit_len(a: nat) -> nat
    decreases a,
{
    if a == 0 {
        0
    } else {
        1 + bit_len(a / 2)
    }
}

/// `a` rounded to the nearest number with at most 53 significant binary
/// digits, a tie going to the one whose last kept digit is even. This is the
/// value a 64-bit IEEE double takes for the integer `a`.
pub open spec fn round_to_53_bits(a: nat) -> nat {
    if a < pow2(53) {
        a
    } else {
        let e = (bit_len(a) - 53) as nat;
        let q = a / pow2(e);
        let rem = a % pow2(e);
        let half = pow2((e - 1) as nat);
        let up = rem > half || (rem == half && q % 2 == 1);
        ((if up { q + 1 } else { q }) * pow2(e)) as nat
    }
}

/// The ceiling of the IEEE double square root of `a` (for `a < 2^65`): the
/// square root rounded to 53 significant binary digits, then rounded up to an
/// integer.
///
/// With `r` the exact ceiling of the square root, the result is `r` unless
/// `a` is not a square and the rounding takes the root down onto `m = r - 1`.
/// That happens when the root lies less than half a unit in the last place
/// (`2^(k - 53)`, where `2^k <= m < 2^(k + 1)`) above `m`, that is when
/// `a - m * m < m * 2^(k - 52) + 2^(2k - 106)`; as `k < 53`, this is
/// `(a - m * m) * 2^(52 - k) <= m` in integers. A tie cannot occur: its square
/// would not be an integer.
pub open spec fn rounded_sqrt_ceil(a: nat) -> int {
    let r = ceil_sqrt(a as int);
    if r * r == a {
        r
    } else {
        let m = r - 1;
        let k = (bit_len(m as nat) - 1) as nat;
        if (a - m * m) * pow2((52 - k) as nat) <= m {
            m
        } else {
            r
        }
    }
}

/// The edge whose square is meant to cover `area` pixels: the ceiling of the
/// double-precision square root of `area` (taken as a double), saturated to
/// `u32::MAX`.
pub open spec fn area_side(area: int) -> int {
    sat_u32(rounded_sqrt_ceil(round_to_53_bits(area as nat)))
}

/// `a < 2^n` exactly when `a` has at most `n` binary digits.
proof fn lemma_bit_len(a: nat, n: nat)
    ensures
        (a < pow2(n)) == (bit_len(a) <= n),
    decreases n,
{
    vstd::arithmetic::power2::lemma_pow2_pos(n);
    if n == 0 {
        vstd::arithmetic::power2::lemma2_to64();
    } else {
        lemma_pow2_unfold(n);
        if a > 0 {
            lemma_bit_len(a / 2, (n - 1) as nat);
        }
    }
}

/// `2^e` for `e <= 64`.
fn pow2_u128(e: u32) -> (r: u128)
    requires
        e <= 64,
    ensures
        r == pow2(e as nat),
{
    let mut r: u128 = 1;
    let mut i: u32 = 0;
    proof {
        vstd::arithmetic::power2::lemma2_to64();
    }
    while i < e
        invariant
            i <= e <= 64,
            r == pow2(i as nat),
        decreases e - i,
    {
        proof {
            lemma_pow2_unfold((i + 1) as nat);
            if i + 1 < 64 {
                lemma_pow2_strictly_increases((i + 1) as nat, 64);
            }
            vstd::arithmetic::power2::lemma2_to64();
        }
        r = r * 2;
        i = i + 1;
    }
    r
}

/// Number of binary digits of `v`, for `v <= 2^64`.
fn bit_length(v: u128) -> (r: u32)
    requires
        v <= 0x1_0000_0000_0000_0000u128,
    ensures
        r == bit_len(v as nat),
        r <= 65,
{
    proof {
        vstd::arithmetic::power2::lemma2_to64();
        lemma_pow2_unfold(65);
        lemma_bit_len(v as nat, 65);
    }
    let mut x = v;
    let mut n: u32 = 0;
    while x > 0
        invariant
            bit_len(v as nat) == n + bit_len(x as nat),
            bit_len(v as nat) <= 65,
        decreases x,
    {
        x = x / 2;
        n = n + 1;
    }
    n
}

/// `a` rounded to 53 significant binary digits, ties to even.
fn round_53(a: u64) -> (r: u128)
    ensures
        r == round_to_53_bits(a as nat),
        r <= 0x1_0000_0000_0000_0000u128,
{
    proof {
        vstd::arithmetic::power2::lemma2_to64();
    }
    let p53 = pow2_u128(53);
    let v = a as u128;
    if v < p53 {
        return v;
    }
    let len = bit_length(v);
    proof {
        lemma_bit_len(a as nat, 53);
        lemma_bit_len(a as nat, 64);
    }
    let e = len - 53;
    let p = pow2_u128(e);
    let half = pow2_u128(e - 1);
    let q = v / p;
    let rem = v % p;
    proof {
        vstd::arithmetic::power2::lemma_pow2_adds(e as nat, 53);
        vstd::arithmetic::power2::lemma_pow2_pos(e as nat);
        lemma_bit_len(a as nat, len as nat);
        assert(q < p53) by (nonlinear_arith)
            requires
                v < p * p53,
                p > 0,
                q == v / p,
        ;
        if len < 64 {
            lemma_pow2_strictly_increases(len as nat, 64);
        }
        assert((q + 1) * p <= p53 * p) by (nonlinear_arith)
            requires
                q < p53,
                p > 0,
        ;
    }
    let up = rem > half || (rem == half && q % 2 == 1);
    let q2 = if up { q + 1 } else { q };
    proof {
        assert(q2 * p <= (q + 1) * p) by (nonlinear_arith)
            requires
                q2 <= q + 1,
                p > 0,
        ;
        assert(p53 * p == pow2(len as nat));
        assert(pow2(len as nat) <= pow2(64));
    }
    q2 * p
}

/// The ceiling of the square root of `a`, for `a <= 2^64`.
fn ceil_sqrt_u128(a: u128) -> (r: u128)
    requires
        a <= 0x1_0000_0000_0000_0000u128,
    ensures
        is_ceil_sqrt(a as int, r as int),
        r <= 0x1_0000_0000u128,
{
    let mut lo: u128 = 0;
    let mut hi: u128 = 0x1_0000_0000;
    while lo < hi
        invariant
            lo <= hi <= 0x1_0000_0000u128,
            a <= 0x1_0000_0000_0000_0000u128,
            hi * hi >= a,
            lo == 0 || (lo - 1) * (lo - 1) < a,
        decreases hi - lo,
    {
        let mid = lo + (hi - lo) / 2;
        proof {
            lemma_square_monotone(mid as int, 0x1_0000_0000);
        }
        if mid * mid >= a {
            hi = mid;
        } else {
            lo = mid + 1;
        }
    }
    lo
}

proof fn lemma_square_monotone(a: int, b: int)
    requires
        0 <= a <= b,
    ensures
        a * a <= b * b,
{
    assert(a * a <= b * b) by (nonlinear_arith)
        requires
            0 <= a <= b,
    ;
}

/// There is only one ceiling of a square root.
proof fn lemma_ceil_sqrt_unique(a: int, r: int)
    requires
        is_ceil_sqrt(a, r),
    ensures
        ceil_sqrt(a) == r,
{
    let q = ceil_sqrt(a);
    assert(is_ceil_sqrt(a, q));
    if q < r {
        lemma_square_monotone(q, r - 1);
    } else if r < q {
        lemma_square_monotone(r, q - 1);
    }
}

/// The edge meant to cover `area` pixels: the ceiling of the double-precision
/// square root of `area`, saturated to `u32::MAX`.
pub fn area_side_of(area: u64) -> (r: u32)
    ensures
        r == area_side(area as int),
{
    let a = round_53(area);
    let root = ceil_sqrt_u128(a);
    proof {
        lemma_ceil_sqrt_unique(a as int, root as int);
        lemma_square_monotone(root as int, 0x1_0000_0000);
    }
    let c: u128 = if root * root == a {
        root
    } else {
        let m = root - 1;
        assert(root >= 2) by {
            if root == 0 {
                assert(root * root == 0) by (nonlinear_arith)
                    requires
                        root == 0,
                ;
            } else if root == 1 {
                assert(root * root == 1 && (root - 1) * (root - 1) == 0) by (nonlinear_arith)
                    requires
                        root == 1,
                ;
            }
        }
        proof {
            vstd::arithmetic::power2::lemma2_to64();
            lemma_bit_len(m as nat, 32);
            lemma_bit_len(m as nat, 0);
        }
        let k = bit_length(m) - 1;
        let pw = pow2_u128(52 - k);
        proof {
            if 52 - k < 64 {
                lemma_pow2_strictly_increases((52 - k) as nat, 64);
            }
            assert(a - m * m <= 2 * m) by (nonlinear_arith)
                requires
                    a < root * root,
                    m == root - 1,
                    m * m < a,
            ;
            assert((a - m * m) * pw <= 2 * 0x1_0000_0000u128 * 0x1_0000_0000_0000_0000u128) by (nonlinear_arith)
                requires
                    a - m * m <= 2 * m,
                    m <= 0x1_0000_0000u128,
                    pw <= 0x1_0000_0000_0000_0000u128,
                    m * m < a,
            ;
        }
        let d = a - m * m;
        if d * pw <= m {
            m
        } else {
            root
        }
    };
    if c > u32::MAX as u128 {
        u32::MAX
    } else {
        c as u32
    }
}

/// `r` is a power of two.
pub open spec fn is_pow2(r: int) -> bool {
    exists|k: nat| r == pow2(k)
}

/// `r` is the least power of two that is at least `x`.
pub open spec fn is_pow2_ceil(x: int, r: int) -> bool {
    &&& is_pow2(r)
    &&& x <= r
    &&& r == 1 || r / 2 < x
}

/// The least power of two that is at least `x`.
pub open spec fn pow2_ceil(x: int) -> int {
    choose|r: int| is_pow2_ceil(x, r)
}

/// Of two different powers of two, the larger is at least twice the smaller.
proof fn lemma_pow2_gap(j: nat, k: nat)
    requires
        j < k,
    ensures
        2 * pow2(j) <= pow2(k),
    decreases k,
{
    lemma_pow2_unfold(k);
    if j < k - 1 {
        lemma_pow2_strictly_increases(j, (k - 1) as nat);
    }
}

/// A power of two below another power of two is at most half of it.
pub(crate) proof fn lemma_pow2_double_within(p: int, q: int)
    requires
        is_pow2(p),
        is_pow2(q),
        p < q,
    ensures
        2 * p <= q,
{
    let j = choose|k: nat| p == pow2(k);
    let k = choose|k: nat| q == pow2(k);
    if k <= j {
        if k < j {
            lemma_pow2_strictly_increases(k, j);
        }
        assert(false);
    }
    lemma_pow2_gap(j, k);
}

/// There is only one least power of two above `x`.
proof fn lemma_pow2_ceil_unique(x: int, r: int)
    requires
        is_pow2_ceil(x, r),
    ensures
        pow2_ceil(x) == r,
{
    let q = pow2_ceil(x);
    assert(is_pow2_ceil(x, q));
    let j = choose|k: nat| q == pow2(k);
    let k = choose|k: nat| r == pow2(k);
    vstd::arithmetic::power2::lemma_pow2_pos(j);
    vstd::arithmetic::power2::lemma_pow2_pos(k);
    if j < k {
        lemma_pow2_gap(j, k);
    } else if k < j {
        lemma_pow2_gap(k, j);
    }
}

/// `r` is the largest power of two that is at most `max`.
pub open spec fn is_pow2_floor(max: int, r: int) -> bool {
    &&& is_pow2(r)
    &&& r <= max
    &&& max < 2 * r
}

/// The largest power of two that is at most `max`.
pub open spec fn pow2_floor(max: int) -> int {
    choose|r: int| is_pow2_floor(max, r)
}

/// The largest atlas edge the search may try: `max`, or in power-of-two mode
/// the largest power of two that is at most `max` (0 when `max` is 0).
pub open spec fn edge_cap(power_of_two: bool, max: u32) -> int {
    if !power_of_two {
        max as int
    } else if max == 0 {
        0
    } else {
        pow2_floor(max as int)
    }
}

/// There is only one largest power of two below `max`.
proof fn lemma_pow2_floor_unique(max: int, r: int)
    requires
        is_pow2_floor(max, r),
    ensures
        pow2_floor(max) == r,
{
    let q = pow2_floor(max);
    assert(is_pow2_floor(max, q));
    let j = choose|k: nat| q == pow2(k);
    let k = choose|k: nat| r == pow2(k);
    if j < k {
        lemma_pow2_gap(j, k);
    } else if k < j {
        lemma_pow2_gap(k, j);
    }
}

/// The largest power of two that is at most `max`.
pub fn largest_pow2_within(max: u32) -> (r: u32)
    requires
        max >= 1,
    ensures
        r == pow2_floor(max as int),
        is_pow2(r as int),
        1 <= r <= max,
{
    let mut p: u32 = 1;
    let ghost mut k: nat = 0;
    proof {
        vstd::arithmetic::power2::lemma2_to64();
    }
    while p <= max / 2
        invariant
            1 <= p <= max,
            p == pow2(k),
        decreases max - p,
    {
        proof {
            lemma_pow2_unfold(k + 1);
            k = k + 1;
        }
        p = p * 2;
    }
    proof {
        assert(is_pow2(p as int));
        lemma_pow2_floor_unique(max as int, p as int);
    }
    p
}

/// The least power of two that is at least `x` (as `u32::next_power_of_two`
/// computes it where it does not overflow).
fn next_power_of_two(x: u32) -> (r: u32)
    requires
        x <= 0x8000_0000,
    ensures
        r == pow2_ceil(x as int),
        is_pow2(r as int),
{
    let mut p: u32 = 1;
    let ghost mut k: nat = 0;
    proof {
        vstd::arithmetic::power2::lemma2_to64();
    }
    while p < x
        invariant
            x <= 0x8000_0000,
            p == pow2(k),
            1 <= p,
            p == 1 || p / 2 < x,
            k <= 31,
        decreases 32 - k,
    {
        proof {
            vstd::arithmetic::power2::lemma2_to64();
            if k >= 31 {
                if k > 31 {
                    lemma_pow2_strictly_increases(31, k);
                }
                assert(false);
            }
            lemma_pow2_unfold(k + 1);
        }
        p = p * 2;
        proof {
            k = k + 1;
        }
    }
    proof {
        assert(is_pow2(p as int));
        lemma_pow2_ceil_unique(x as int, p as int);
    }
    p
}


/// Edge length that one side of a sprite needs: the side plus the padding,
/// saturated to `u32::MAX`.
pub open spec fn need(v: u32, pad: u32) -> int {
    sat_u32(v + pad)
}

/// The sprite is no wider and no taller than `max`.
pub open spec fn fits_max(d: SpriteDims, max: u32) -> bool {
    d.w <= max && d.h <= max
}

/// No sprite is larger than `max` either way.
pub open spec fn all_fit(dims: Seq<SpriteDims>, max: u32) -> bool {
    forall|i: int| 0 <= i < dims.len() ==> fits_max(#[trigger] dims[i], max)
}

/// Sprite `i` is the first that is larger than `max`.
pub open spec fn is_first_too_large(dims: Seq<SpriteDims>, max: u32, i: int) -> bool {
    &&& 0 <= i < dims.len()
    &&& !fits_max(dims[i], max)
    &&& forall|j: int| 0 <= j < i ==> fits_max(#[trigger] dims[j], max)
}

/// The first sprite that is larger than `max`.
pub open spec fn first_too_large(dims: Seq<SpriteDims>, max: u32) -> int {
    choose|i: int| is_first_too_large(dims, max, i)
}

/// The largest edge any sprite needs, and at least 1.
pub open spec fn min_side(dims: Seq<SpriteDims>, pad: u32) -> int
    decreases dims.len(),
{
    if dims.len() == 0 {
        1
    } else {
        max_int(
            max_int(min_side(dims.drop_last(), pad), need(dims.last().w, pad)),
            need(dims.last().h, pad),
        )
    }
}

/// The area that all sprites need, padding included.
pub open spec fn area_sum(dims: Seq<SpriteDims>, pad: u32) -> int
    decreases dims.len(),
{
    if dims.len() == 0 {
        0
    } else {
        area_sum(dims.drop_last(), pad) + need(dims.last().w, pad) * need(dims.last().h, pad)
    }
}

/// The first edge length to try before rounding: the largest sprite edge, the
/// edge whose square covers the total area, and 16, whichever is largest.
pub open spec fn raw_initial_size(dims: Seq<SpriteDims>, pad: u32) -> int {
    max_int(max_int(min_side(dims, pad), area_side(area_sum(dims, pad))), 16)
}

/// The first edge length to try: the raw size, rounded up to a power of two
/// when asked, and capped at the largest edge the search may try.
pub open spec fn initial_size_of(dims: Seq<SpriteDims>, pad: u32, power_of_two: bool, max: u32) -> int {
    let raw = raw_initial_size(dims, pad);
    min_int(if power_of_two { pow2_ceil(raw) } else { raw }, edge_cap(power_of_two, max))
}

proof fn lemma_area_sum_prefix(dims: Seq<SpriteDims>, pad: u32, i: int)
    requires
        0 <= i <= dims.len(),
    ensures
        0 <= area_sum(dims.take(i), pad) <= area_sum(dims, pad),
    decreases dims.len() - i,
{
    if i < dims.len() {
        lemma_area_sum_prefix(dims, pad, i + 1);
        assert(dims.take(i + 1).drop_last() =~= dims.take(i));
        assert(dims.take(i + 1).last() == dims[i]);
        lemma_area_sum_nonneg(dims.take(i), pad);
        let a = need(dims[i].w, pad);
        let b = need(dims[i].h, pad);
        assert(a * b >= 0) by (nonlinear_arith)
            requires
                a >= 0,
                b >= 0,
        ;
        assert(area_sum(dims.take(i + 1), pad) == area_sum(dims.take(i), pad) + a * b);
    } else {
        assert(dims.take(i) =~= dims);
        lemma_area_sum_nonneg(dims, pad);
    }
}

proof fn lemma_area_sum_nonneg(dims: Seq<SpriteDims>, pad: u32)
    ensures
        0 <= area_sum(dims, pad),
    decreases dims.len(),
{
    if dims.len() > 0 {
        lemma_area_sum_nonneg(dims.drop_last(), pad);
        let a = need(dims.last().w, pad);
        let b = need(dims.last().h, pad);
        assert(a * b >= 0) by (nonlinear_arith)
            requires
                a >= 0,
                b >= 0,
        ;
    }
}

/// The inputs on which computing the first edge does not overflow: the total
/// area fits in `u64`, and in power-of-two mode the raw size can be rounded up
/// within `u32`.
pub open spec fn sizing_defined(dims: Seq<SpriteDims>, pad: u32, power_of_two: bool, max: u32) -> bool {
    &&& all_fit(dims, max) ==> area_sum(dims, pad) <= u64::MAX
    &&& all_fit(dims, max) && power_of_two ==> raw_initial_size(dims, pad) <= 0x8000_0000
}

/// The first edge length to try for `sprites`, or the error for the first
/// sprite that is wider or taller than `config.max_size`; `None` where
/// the computation would overflow.
pub(crate) fn initial_size(sprites: &[Sprite], config: &PackConfig) -> (r: Option<Result<u32, Error>>)
    ensures
        r is None <==> !sizing_defined(
            dims_of(sprites@),
            config.padding,
            config.power_of_two,
            config.max_size,
        ),
        r matches Some(res) ==> (res is Ok <==> all_fit(dims_of(sprites@), config.max_size)),
        r matches Some(Ok(s)) ==> s == initial_size_of(
            dims_of(sprites@),
            config.padding,
            config.power_of_two,
            config.max_size,
        ),
        r matches Some(Ok(s)) ==> (config.power_of_two && config.max_size >= 1 ==> is_pow2(s as int)),
        r matches Some(Err(e)) ==> {
            let d = dims_of(sprites@)[first_too_large(dims_of(sprites@), config.max_size)];
            e matches Error::SpriteTooLarge { name, sw, sh, aw, ah } && name@ == d.name && sw == d.w
                && sh == d.h && aw == config.max_size && ah == config.max_size
        },
{
    let ghost dims = dims_of(sprites@);
    let pad = config.padding;
    let max = config.max_size;
    let n = sprites.len();
    let mut side: u32 = 1;
    assert(dims.take(0) =~= Seq::<SpriteDims>::empty());
    for i in 0..n
        invariant
            n == sprites@.len(),
            dims == dims_of(sprites@),
            pad == config.padding,
            max == config.max_size,
            forall|j: int| 0 <= j < i ==> fits_max(#[trigger] dims[j], max),
            side == min_side(dims.take(i as int), pad),
    {
        let s = &sprites[i];
        let need_w = s.width().saturating_add(pad);
        let need_h = s.height().saturating_add(pad);
        if s.width() > max || s.height() > max {
            proof {
                assert(is_first_too_large(dims, max, i as int));
                let f = first_too_large(dims, max);
                assert(is_first_too_large(dims, max, f));
                if f < i {
                    assert(fits_max(dims[f], max));
                } else if f > i {
                    assert(fits_max(dims[i as int], max));
                }
            }
            return Some(
                Err(
                    Error::SpriteTooLarge {
                        name: s.name.clone(),
                        sw: s.width(),
                        sh: s.height(),
                        aw: max,
                        ah: max,
                    },
                ),
            );
        }
        assert(dims.take(i + 1).drop_last() =~= dims.take(i as int));
        if need_w > side {
            side = need_w;
        }
        if need_h > side {
            side = need_h;
        }
    }
    assert(dims.take(n as int) =~= dims);
    let mut area: u64 = 0;
    for i in 0..n
        invariant
            n == sprites@.len(),
            dims == dims_of(sprites@),
            pad == config.padding,
            max == config.max_size,
            all_fit(dims, max),
            area == area_sum(dims.take(i as int), pad),
    {
        let s = &sprites[i];
        let w = s.width().saturating_add(pad) as u64;
        let h = s.height().saturating_add(pad) as u64;
        assert(dims.take(i + 1).drop_last() =~= dims.take(i as int));
        proof {
            lemma_area_sum_prefix(dims, pad, i + 1);
            assert(w * h <= 0xFFFF_FFFF * 0xFFFF_FFFF) by (nonlinear_arith)
                requires
                    w <= 0xFFFF_FFFF,
                    h <= 0xFFFF_FFFF,
            ;
        }
        match area.checked_add(w * h) {
            Some(a) => {
                area = a;
            },
            None => {
                return None;
            },
        }
    }
    assert(dims.take(n as int) =~= dims);
    let area_edge = area_side_of(area);
    let mut size: u32 = side;
    if area_edge > size {
        size = area_edge;
    }
    if 16 > size {
        size = 16;
    }
    if config.power_of_two {
        if size > 0x8000_0000 {
            return None;
        }
        size = next_power_of_two(size);
    }
    let cap: u32 = if !config.power_of_two {
        max
    } else if max == 0 {
        0
    } else {
        largest_pow2_within(max)
    };
    if size > cap {
        size = cap;
    }
    Some(Ok(size))
}

} // verus!
