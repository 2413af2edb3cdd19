//! Booth signed-digit codec and the bucket accumulator it feeds.
//!
//! `booth_encode` turns a raw window value into a signed digit whose
//! magnitude stays within half the window range, so a bucket array
//! needs only `2^(w-1)` slots; `booth_decode` routes a point into or
//! out of the bucket the digit names; `integrate_buckets` collapses a
//! bucket array into the single point `sum over d of d * buckets[d-1]`.
//! The module ends with the telescoping theorem: the digit of every
//! row, weighted by its row's power of `2^w`, sums back to the scalar.

use vstd::prelude::*;
use vstd::arithmetic::power2::{pow2, lemma_pow2_adds, lemma_pow2_pos, lemma2_to64};
use vstd::arithmetic::div_mod::{
    lemma_small_mod, lemma_basic_div, lemma_div_multiples_vanish_fancy, lemma_breakdown,
    lemma_div_denominator, lemma_fundamental_div_mod, lemma_mod_bound,
};
use vstd::arithmetic::mul::{
    lemma_mul_is_commutative, lemma_mul_is_associative, lemma_mul_is_distributive_add,
    lemma_mul_is_distributive_sub, lemma_mul_unary_negation,
};
use vstd::bits::{lemma_u64_shl_is_mul, lemma_u64_pow2_no_overflow};
use crate::group::{GroupElement, order, GROUP_ORDER};
use crate::scalar::{Scalar256, scalar_value};
use crate::sums::{sum_of, lemma_mod_add_cong, lemma_mul_mod_cong};
use crate::window::{row_wbits, row_cbits, h_for_width, lemma_h_for_width};

verus! {

/// A Booth-encoded digit: a bucket index (magnitude) and a sign.
#[derive(Clone, Copy, PartialEq, Eq, Structural, Debug)]
pub struct BoothDigit {
    pub neg: bool,
    pub mag: u64,
}

/// The signed value a Booth digit stands for.
pub open spec fn digit_value(d: BoothDigit) -> int {
    if d.neg {
        -(d.mag as int)
    } else {
        d.mag as int
    }
}

/// Booth recoding of a raw window value `a < 2^(sz+1)`: round `a / 2`
/// to the nearest integer, then pull values at or above `2^sz` down by
/// a full window so the digit lies in `[-2^(sz-1), 2^(sz-1)]`.
pub open spec fn booth_recode(a: nat, sz: nat) -> int {
    (a + 1) as int / 2 - pow2(sz) * (a as int / pow2(sz) as int)
}

/// The signed digit a scalar contributes at the window starting at bit
/// `bit0`, of `wbits` bits, Booth-encoded with digit size `cbits`. The
/// lowest window has no bit below it to borrow as a rounding bit, so
/// its raw value is doubled instead of being read one bit lower.
pub open spec fn window_digit(s: Scalar256, bit0: nat, wbits: nat, cbits: nat) -> int {
    if bit0 == 0 {
        booth_recode(2 * (scalar_value(s) % pow2(wbits)), cbits)
    } else {
        booth_recode((scalar_value(s) / pow2((bit0 - 1) as nat)) % pow2((wbits + 1) as nat), cbits)
    }
}

/// Booth-encodes a raw window value.
pub fn booth_encode(wval: u64, sz: usize) -> (r: BoothDigit)
    requires
        1 <= sz <= 32,
        wval < pow2((sz + 1) as nat),
    ensures
        digit_value(r) == booth_recode(wval as nat, sz as nat),
        r.mag <= pow2((sz - 1) as nat),
{
    proof {
        lemma_u64_pow2_no_overflow(sz as nat);
    }
    let top: u64 = 1u64 << (sz as u64);
    proof {
        lemma_u64_shl_is_mul(1u64, sz as u64);
        lemma_pow2_pos(sz as nat);
        lemma_pow2_pos((sz - 1) as nat);
        assert(pow2((sz + 1) as nat) == 2 * pow2(sz as nat)) by {
            lemma_pow2_adds(1, sz as nat);
            lemma2_to64();
        }
        assert(pow2(sz as nat) == 2 * pow2((sz - 1) as nat)) by {
            lemma_pow2_adds(1, (sz - 1) as nat);
            lemma2_to64();
        }
    }
    proof {
        lemma_u64_pow2_no_overflow((sz + 1) as nat);
    }
    let half: u64 = (wval + 1) / 2;
    let ghost hs = pow2((sz - 1) as nat) as int;
    if wval >= top {
        proof {
            // a / 2^sz == 1 on [2^sz, 2^(sz+1)).
            assert((wval as int) / (top as int) == 1) by {
                lemma_div_multiples_vanish_fancy(1, wval - top, top as int);
                assert(top as int * 1 + (wval - top) == wval);
            }
            // 2^(sz-1) <= half <= 2^sz, so the magnitude fits.
            assert((2 * hs + 1) / 2 == hs) by {
                lemma_div_multiples_vanish_fancy(hs, 1, 2);
            }
            vstd::arithmetic::div_mod::lemma_div_is_ordered(
                2 * hs + 1, wval + 1, 2);
            assert((2 * (top as int)) / 2 == top as int) by {
                lemma_div_multiples_vanish_fancy(top as int, 0, 2);
            }
            vstd::arithmetic::div_mod::lemma_div_is_ordered(
                wval + 1, 2 * (top as int), 2);
            assert(digit_value(BoothDigit { neg: true, mag: (top - half) as u64 })
                == half - top);
            assert(pow2(sz as nat) * ((wval as nat) as int / pow2(sz as nat) as int)
                == top as int);
            assert(booth_recode(wval as nat, sz as nat) == half - top);
        }
        BoothDigit { neg: true, mag: top - half }
    } else {
        proof {
            lemma_basic_div(wval as int, top as int);
            assert((2 * hs) / 2 == hs) by {
                lemma_div_multiples_vanish_fancy(hs, 0, 2);
            }
            vstd::arithmetic::div_mod::lemma_div_is_ordered(wval + 1, 2 * hs, 2);
        }
        BoothDigit { neg: false, mag: half }
    }
}

/// All elements of a bucket array are well formed.
pub open spec fn buckets_wf(b: Seq<GroupElement>) -> bool {
    forall|i: int| 0 <= i < b.len() ==> (#[trigger] b[i]).wf()
}

/// Sum of the bucket values from slot `k` up, each weighted by the
/// digit its slot stands for: `sum over i >= k of (i + 1) * b[i]`.
pub open spec fn bucket_weight(b: Seq<GroupElement>, k: int) -> int
    decreases b.len() - k,
{
    if k < 0 || k >= b.len() {
        0
    } else {
        (k + 1) * b[k]@ + bucket_weight(b, k + 1)
    }
}

/// Plain sum of the bucket values from slot `k` up.
pub open spec fn suffix_sum(b: Seq<GroupElement>, k: int) -> int
    decreases b.len() - k,
{
    if k < 0 || k >= b.len() {
        0
    } else {
        b[k]@ + suffix_sum(b, k + 1)
    }
}

/// Updating one slot moves the weighted sum by the weighted difference.
pub proof fn lemma_bucket_weight_update(b: Seq<GroupElement>, i: int, x: GroupElement, k: int)
    requires
        0 <= i < b.len(),
        0 <= k,
    ensures
        bucket_weight(b.update(i, x), k)
            == bucket_weight(b, k) + if k <= i { (i + 1) * (x@ - b[i]@) } else { 0 },
    decreases b.len() - k,
{
    let bu = b.update(i, x);
    if k >= b.len() {
    } else {
        lemma_bucket_weight_update(b, i, x, k + 1);
        if k == i {
            assert((k + 1) * bu[k]@ - (k + 1) * b[k]@ == (k + 1) * (x@ - b[k]@)) by {
                lemma_mul_is_distributive_sub(k + 1, x@, b[k]@);
            }
        }
    }
}

/// A fresh bucket array: `count` identity elements.
pub fn new_buckets(count: usize) -> (r: Vec<GroupElement>)
    ensures
        r@.len() == count,
        buckets_wf(r@),
        forall|i: int| 0 <= i < count ==> (#[trigger] r@[i])@ == 0,
        bucket_weight(r@, 0) == 0,
{
    let mut v: Vec<GroupElement> = Vec::new();
    let mut i: usize = 0;
    while i < count
        invariant
            i == v@.len() <= count,
            forall|j: int| 0 <= j < i ==> (#[trigger] v@[j])@ == 0,
        decreases count - i,
    {
        v.push(GroupElement { value: 0 });
        i = i + 1;
    }
    proof {
        lemma_bucket_weight_zero(v@, 0);
    }
    v
}

/// A bucket array of identity elements has weighted sum zero.
proof fn lemma_bucket_weight_zero(b: Seq<GroupElement>, k: int)
    requires
        forall|i: int| 0 <= i < b.len() ==> (#[trigger] b[i])@ == 0,
        k >= 0,
    ensures
        bucket_weight(b, k) == 0,
    decreases b.len() - k,
{
    if k < b.len() {
        lemma_bucket_weight_zero(b, k + 1);
        assert((k + 1) * b[k]@ == 0);
    }
}

/// Adds `point` into (or subtracts it from) the bucket a Booth digit
/// names; a zero digit leaves the array unchanged. The weighted bucket
/// sum moves by exactly `digit * point`, modulo the group order.
pub fn booth_decode(
    buckets: &mut Vec<GroupElement>,
    d: BoothDigit,
    point: &GroupElement,
)
    requires
        d.mag <= old(buckets)@.len(),
        buckets_wf(old(buckets)@),
        point.wf(),
    ensures
        final(buckets)@.len() == old(buckets)@.len(),
        buckets_wf(final(buckets)@),
        bucket_weight(final(buckets)@, 0) % order()
            == (bucket_weight(old(buckets)@, 0) + digit_value(d) * point@) % order(),
        digit_value(d) == 0 ==> final(buckets)@ == old(buckets)@,
{
    if d.mag > 0 {
        let cap: usize = buckets.len();
        let i: usize = (d.mag - 1) as usize;
        proof {
            assert(d.mag as nat <= cap as nat);
            assert(i as int == d.mag - 1);
        }
        let cur = buckets[i];
        let nv = if d.neg {
            cur.sub(point)
        } else {
            cur.add(point)
        };
        let ghost old_b = buckets@;
        buckets.set(i, nv);
        proof {
            lemma_bucket_weight_update(old_b, i as int, nv, 0);
            let delta = nv@ - old_b[i as int]@;
            // delta is congruent to +point or -point.
            if d.neg {
                assert((old_b[i as int]@ - point@) % order() - old_b[i as int]@ == delta);
                vstd::arithmetic::div_mod::lemma_sub_mod_noop(
                    (old_b[i as int]@ - point@) % order(), old_b[i as int]@, order());
                vstd::arithmetic::div_mod::lemma_mod_twice(
                    old_b[i as int]@ - point@, order());
                vstd::arithmetic::div_mod::lemma_sub_mod_noop(
                    old_b[i as int]@ - point@, old_b[i as int]@, order());
                vstd::arithmetic::div_mod::lemma_mod_twice(old_b[i as int]@, order());
                lemma_small_mod(old_b[i as int].value as nat, GROUP_ORDER as nat);
                assert(delta % order() == (0 - point@) % order());
                lemma_mul_mod_cong(delta, 0 - point@, d.mag as int, order());
                assert(d.mag as int * (0 - point@) == digit_value(d) * point@) by {
                    lemma_mul_is_commutative(d.mag as int, 0 - point@);
                    lemma_mul_unary_negation(point@, d.mag as int);
                    lemma_mul_is_commutative(point@, d.mag as int);
                    lemma_mul_unary_negation(d.mag as int, point@);
                }
            } else {
                vstd::arithmetic::div_mod::lemma_sub_mod_noop(
                    (old_b[i as int]@ + point@) % order(), old_b[i as int]@, order());
                vstd::arithmetic::div_mod::lemma_mod_twice(
                    old_b[i as int]@ + point@, order());
                vstd::arithmetic::div_mod::lemma_sub_mod_noop(
                    old_b[i as int]@ + point@, old_b[i as int]@, order());
                vstd::arithmetic::div_mod::lemma_mod_twice(old_b[i as int]@, order());
                lemma_small_mod(old_b[i as int].value as nat, GROUP_ORDER as nat);
                assert(delta % order() == point@ % order());
                lemma_mul_mod_cong(delta, point@, d.mag as int, order());
            }
            assert(i as int + 1 == d.mag as int);
            assert((i + 1) * delta == d.mag as int * delta);
            // Fold the congruent delta into the weighted sum.
            lemma_mod_add_cong(
                bucket_weight(old_b, 0), bucket_weight(old_b, 0),
                (i + 1) * delta, digit_value(d) * point@, order());
        }
    } else {
        proof {
            assert(digit_value(d) == 0);
            assert(digit_value(d) * point@ == 0);
        }
    }
}

/// Collapses a bucket array of length `2^wbits` into the single group
/// element `sum over d of d * buckets[d - 1]` (modulo the order), by
/// one running accumulator pass from the top bucket down.
pub fn integrate_buckets(out: &mut GroupElement, buckets: &Vec<GroupElement>, wbits: usize)
    requires
        wbits <= 30,
        buckets@.len() == pow2(wbits as nat),
        buckets_wf(buckets@),
    ensures
        final(out).wf(),
        final(out)@ == bucket_weight(buckets@, 0) % order(),
{
    proof {
        vstd::bits::lemma_usize_pow2_no_overflow(wbits as nat);
        lemma_pow2_pos(wbits as nat);
    }
    let len: usize = 1usize << wbits;
    proof {
        vstd::bits::lemma_usize_shl_is_mul(1usize, wbits);
        assert(len == pow2(wbits as nat));
    }
    let mut n: usize = len - 1;
    let mut ret = buckets[n];
    let mut acc = buckets[n];
    let ghost b = buckets@;
    proof {
        lemma_small_mod(acc.value as nat, GROUP_ORDER as nat);
        assert(bucket_weight(b, n as int + 1) == 0);
        assert(suffix_sum(b, n as int + 1) == 0);
        assert(bucket_weight(b, n as int) == (n + 1) * b[n as int]@ + 0);
        assert(suffix_sum(b, n as int) == b[n as int]@ + 0);
        let ni0 = n as int;
        let bn0 = b[n as int]@;
        assert((ni0 + 1) * bn0 - ni0 * bn0 == bn0) by (nonlinear_arith);
    }
    while n > 0
        invariant
            0 <= n < b.len(),
            b.len() == pow2(wbits as nat),
            buckets@ == b,
            buckets_wf(b),
            acc.wf(),
            ret.wf(),
            acc@ == suffix_sum(b, n as int) % order(),
            ret@ == (bucket_weight(b, n as int) - n as int * suffix_sum(b, n as int)) % order(),
        decreases n,
    {
        n = n - 1;
        let ghost acc0 = acc;
        if buckets[n].value != 0 {
            acc = acc.add(&buckets[n]);
        }
        proof {
            // acc is now congruent to suffix_sum(b, n).
            assert(suffix_sum(b, n as int) == b[n as int]@ + suffix_sum(b, n + 1));
            if b[n as int]@ == 0 {
                assert(acc@ == suffix_sum(b, n + 1) % order());
            } else {
                lemma_mod_add_cong(
                    suffix_sum(b, n + 1) % order(), suffix_sum(b, n + 1),
                    b[n as int]@, b[n as int]@, order());
                vstd::arithmetic::div_mod::lemma_mod_twice(suffix_sum(b, n + 1), order());
                lemma_mod_add_cong(
                    suffix_sum(b, n + 1), suffix_sum(b, n + 1),
                    b[n as int]@, b[n as int]@, order());
            }
        }
        let ghost ret0 = ret;
        ret = ret.add(&acc);
        proof {
            let bn = b[n as int]@;
            let ss1 = suffix_sum(b, n + 1);
            let bw1 = bucket_weight(b, n + 1);
            // bucket_weight(b, n) - n * suffix_sum(b, n)
            //   == (bw1 - (n + 1) * ss1) + (bn + ss1)
            assert(bucket_weight(b, n as int) == (n + 1) * bn + bw1);
            assert(suffix_sum(b, n as int) == bn + ss1);
            assert(n as int * (bn + ss1) == n as int * bn + n as int * ss1) by {
                lemma_mul_is_distributive_add(n as int, bn, ss1);
            }
            let ni = n as int;
            assert((ni + 1) * bn - ni * bn == bn) by (nonlinear_arith);
            assert((ni + 1) * ss1 - ni * ss1 == ss1) by (nonlinear_arith);
            // ret = (ret0 + acc) mod order
            lemma_mod_add_cong(
                bucket_weight(b, n + 1) - (n + 1) * ss1,
                bucket_weight(b, n + 1) - (n + 1) * ss1,
                suffix_sum(b, n as int) % order(),
                suffix_sum(b, n as int),
                order());
            vstd::arithmetic::div_mod::lemma_mod_twice(suffix_sum(b, n as int), order());
            lemma_mod_add_cong(
                (bucket_weight(b, n + 1) - (n + 1) * ss1) % order(),
                bucket_weight(b, n + 1) - (n + 1) * ss1,
                acc@,
                acc@,
                order());
        }
    }
    proof {
        assert(0 * suffix_sum(b, 0) == 0);
    }
    *out = ret;
}


/// Carry into window `j`: the bit just below the window, used by Booth
/// recoding to round the previous window's digit.
pub open spec fn window_carry(s: Scalar256, j: int, w: nat) -> nat
    recommends
        w >= 1,
        j >= 0,
{
    if j == 0 {
        0
    } else {
        (scalar_value(s) / pow2((j * w - 1) as nat)) % 2
    }
}

/// Raw (unsigned) bits of window `j`.
pub open spec fn window_u(s: Scalar256, j: int, w: nat) -> nat
    recommends
        w >= 1,
        j >= 0,
{
    (scalar_value(s) / pow2((j * w) as nat)) % pow2(w)
}

/// Dividing a remainder modulo `p * q` by `p` gives the quotient's
/// remainder modulo `q`.
proof fn lemma_mod_then_div(x: int, p: int, q: int)
    requires
        x >= 0,
        p > 0,
        q > 0,
    ensures
        (x % (p * q)) / p == (x / p) % q,
{
    lemma_breakdown(x, p, q);
    lemma_mod_bound(x, p);
    assert((p * ((x / p) % q) + x % p) / p == (x / p) % q) by {
        lemma_div_multiples_vanish_fancy((x / p) % q, x % p, p);
    }
}

/// The term the precomputation row `k` contributes per scalar bit
/// weight: its Booth digit times `2^(k*w)`.
pub open spec fn row_term(s: Scalar256, w: nat, h: nat) -> spec_fn(int) -> int {
    |k: int| pow2((k * w) as nat) as int
        * window_digit(s, (k * w) as nat, row_wbits(w, h, k), row_cbits(w, h, k))
}

/// The Booth digit of a non-boundary row splits into raw window bits,
/// carry in, and carry out.
proof fn lemma_window_digit_std(s: Scalar256, j: int, w: nat)
    requires
        1 <= w <= 31,
        j >= 0,
    ensures
        window_digit(s, (j * w) as nat, w, w)
            == window_u(s, j, w) + window_carry(s, j, w)
                - pow2(w) * (window_carry(s, j + 1, w) as int),
{
    let sv = scalar_value(s) as int;
    lemma_pow2_pos(w);
    lemma_pow2_pos((w - 1) as nat);
    assert(pow2(w) == pow2((w - 1) as nat) * 2) by {
        lemma_pow2_adds((w - 1) as nat, 1);
        lemma2_to64();
    }
    assert(pow2((w + 1) as nat) == 2 * pow2(w)) by {
        lemma_pow2_adds(1, w);
        lemma2_to64();
    }
    if j == 0 {
        // a = 2 * (sv % 2^w); digit = (a + 1) / 2 - 2^w * (a / 2^w)
        let u = sv % pow2(w) as int;
        lemma_mod_bound(sv, pow2(w) as int);
        let a = 2 * u;
        assert((a + 1) / 2 == u) by {
            lemma_div_multiples_vanish_fancy(u, 1, 2);
        }
        // a / 2^w == u / 2^(w-1)
        assert(a / pow2(w) as int == u / pow2((w - 1) as nat) as int) by {
            lemma_div_denominator(a, 2, pow2((w - 1) as nat) as int);
            assert(a / 2 == u) by {
                lemma_div_multiples_vanish_fancy(u, 0, 2);
            }
            vstd::arithmetic::mul::lemma_mul_is_commutative(
                2, pow2((w - 1) as nat) as int);
        }
        // u / 2^(w-1) == (sv / 2^(w-1)) % 2 == carry into window 1
        assert(u / pow2((w - 1) as nat) as int == (sv / pow2((w - 1) as nat) as int) % 2) by {
            lemma_mod_then_div(sv, pow2((w - 1) as nat) as int, 2);
        }
        assert(window_carry(s, 1, w) == (sv / pow2((1 * w - 1) as nat) as int) % 2);
        assert(window_u(s, 0, w) == sv % pow2(w) as int) by {
            lemma2_to64();
            vstd::arithmetic::div_mod::lemma_div_basics(sv);
            assert(0 * w == 0);
        }
        assert(0 * w == 0);
        assert((1 * w - 1) as nat == (w - 1) as nat);
    } else {
        let b0 = (j * w) as nat;
        assert(j * w >= w) by {
            vstd::arithmetic::mul::lemma_mul_ordering(j, w as int);
            vstd::arithmetic::mul::lemma_mul_is_commutative(j, w as int);
        }
        let x = sv / pow2((b0 - 1) as nat) as int;
        lemma_pow2_pos((b0 - 1) as nat);
        vstd::arithmetic::div_mod::lemma_div_pos_is_pos(sv, pow2((b0 - 1) as nat) as int);
        let a = x % pow2((w + 1) as nat) as int;
        // a = 2 * u + c
        let u = (x / 2) % pow2(w) as int;
        let c = x % 2;
        assert(a == 2 * ((x / 2) % pow2(w) as int) + x % 2) by {
            lemma_breakdown(x, 2, pow2(w) as int);
        }
        lemma_mod_bound(x / 2, pow2(w) as int);
        lemma_mod_bound(x, 2);
        // u is the raw window and c the carry in.
        assert(x / 2 == sv / pow2(b0) as int) by {
            lemma_div_denominator(sv, pow2((b0 - 1) as nat) as int, 2);
            lemma_pow2_adds((b0 - 1) as nat, 1);
            lemma2_to64();
        }
        // (a + 1) / 2 == u + c
        if c == 0 {
            assert((a + 1) / 2 == u) by {
                lemma_div_multiples_vanish_fancy(u, 1, 2);
            }
        } else {
            assert((a + 1) / 2 == u + 1) by {
                lemma_div_multiples_vanish_fancy(u + 1, 0, 2);
            }
        }
        // a / 2^w == (x / 2^w) % 2 == carry out
        assert(a / pow2(w) as int == (x / pow2(w) as int) % 2) by {
            lemma_mod_then_div(x, pow2(w) as int, 2);
        }
        assert(x / pow2(w) as int == sv / pow2(((j + 1) * w - 1) as nat) as int) by {
            lemma_div_denominator(sv, pow2((b0 - 1) as nat) as int, pow2(w) as int);
            lemma_pow2_adds((b0 - 1) as nat, w);
            assert((j + 1) * w == j * w + w) by {
                vstd::arithmetic::mul::lemma_mul_is_distributive_add_other_way(
                    w as int, j, 1);
            }
        }
        assert((j + 1) * w >= w + w) by {
            vstd::arithmetic::mul::lemma_mul_is_distributive_add_other_way(w as int, j, 1);
            vstd::arithmetic::mul::lemma_mul_ordering(j, w as int);
            vstd::arithmetic::mul::lemma_mul_is_commutative(j, w as int);
        }
    }
}

/// The boundary row's digit is the remaining top bits plus the carry
/// into the row; with its extra digit bit it never goes negative.
proof fn lemma_window_digit_top(s: Scalar256, w: nat, h: nat)
    requires
        1 <= w <= 31,
        h == h_for_width(w),
        scalar_value(s) < pow2(255),
    ensures
        window_digit(s, ((h - 1) * w) as nat, row_wbits(w, h, h - 1), row_cbits(w, h, h - 1))
            == scalar_value(s) as int / pow2(((h - 1) * w) as nat) as int
                + window_carry(s, h - 1, w),
{
    lemma_h_for_width(w);
    let sv = scalar_value(s) as int;
    let b0 = ((h - 1) * w) as nat;
    let wb = row_wbits(w, h, h - 1);
    assert(b0 + wb == 255);
    assert(b0 >= 1) by {
        assert(h - 1 >= 1);
        vstd::arithmetic::mul::lemma_mul_ordering(h - 1, w as int);
        vstd::arithmetic::mul::lemma_mul_is_commutative(h - 1, w as int);
    }
    lemma_pow2_pos((b0 - 1) as nat);
    lemma_pow2_pos(b0);
    lemma_pow2_pos(wb);
    let x = sv / pow2((b0 - 1) as nat) as int;
    vstd::arithmetic::div_mod::lemma_div_pos_is_pos(sv, pow2((b0 - 1) as nat) as int);
    let a = x % pow2((wb + 1) as nat) as int;
    assert(pow2((wb + 1) as nat) == 2 * pow2(wb)) by {
        lemma_pow2_adds(1, wb);
        lemma2_to64();
    }
    let u = (x / 2) % pow2(wb) as int;
    let c = x % 2;
    assert(a == 2 * u + c) by {
        lemma_breakdown(x, 2, pow2(wb) as int);
    }
    lemma_mod_bound(x / 2, pow2(wb) as int);
    lemma_mod_bound(x, 2);
    assert(x / 2 == sv / pow2(b0) as int) by {
        lemma_div_denominator(sv, pow2((b0 - 1) as nat) as int, 2);
        lemma_pow2_adds((b0 - 1) as nat, 1);
        lemma2_to64();
    }
    // The quotient above the boundary row is already below 2^wb.
    assert((sv / pow2(b0) as int) < pow2(wb) as int) by {
        lemma_pow2_adds(b0, wb);
        vstd::arithmetic::div_mod::lemma_multiply_divide_lt(
            sv, pow2(b0) as int, pow2(wb) as int);
    }
    assert(u == sv / pow2(b0) as int) by {
        lemma_small_mod((sv / pow2(b0) as int) as nat, pow2(wb));
    }
    // Digit size wb + 1 swallows the whole value: no negative branch.
    assert(a / pow2((wb + 1) as nat) as int == 0) by {
        lemma_mod_bound(x, pow2((wb + 1) as nat) as int);
        lemma_basic_div(a, pow2((wb + 1) as nat) as int);
    }
    if c == 0 {
        assert((a + 1) / 2 == u) by {
            lemma_div_multiples_vanish_fancy(u, 1, 2);
        }
    } else {
        assert((a + 1) / 2 == u + 1) by {
            lemma_div_multiples_vanish_fancy(u + 1, 0, 2);
        }
    }
    assert(row_cbits(w, h, h - 1) == wb + 1);
    assert(window_digit(s, b0, wb, (wb + 1) as nat)
        == booth_recode(a as nat, (wb + 1) as nat));
    assert(booth_recode(a as nat, (wb + 1) as nat)
        == (a + 1) / 2 - pow2((wb + 1) as nat) * (a / pow2((wb + 1) as nat) as int));
    assert(pow2((wb + 1) as nat) * 0 == 0);
}

/// Partial telescoping: the first `j` full rows reconstruct the low
/// `j * w` bits of the scalar, short of the carry borrowed from above.
proof fn lemma_digits_partial(s: Scalar256, w: nat, h: nat, j: int)
    requires
        1 <= w <= 31,
        h == h_for_width(w),
        0 <= j <= h - 1,
    ensures
        sum_of(j as nat, row_term(s, w, h))
            == scalar_value(s) as int % pow2((j * w) as nat) as int
                - pow2((j * w) as nat) * (window_carry(s, j, w) as int),
    decreases j,
{
    let sv = scalar_value(s) as int;
    let f = row_term(s, w, h);
    lemma_h_for_width(w);
    if j == 0 {
        assert(0 * w == 0);
        assert(pow2(0) == 1) by {
            lemma2_to64();
        }
        assert(sv % 1 == 0) by {
            lemma_fundamental_div_mod(sv, 1);
            vstd::arithmetic::div_mod::lemma_div_basics(sv);
        }
    } else {
        let jm = j - 1;
        lemma_digits_partial(s, w, h, jm);
        lemma_window_digit_std(s, jm, w);
        let e = (jm * w) as nat;
        let ee = pow2(e) as int;
        let ww = pow2(w) as int;
        let e2 = (j * w) as nat;
        lemma_pow2_pos(e);
        lemma_pow2_pos(w);
        assert(jm * w >= 0) by {
            if jm > 0 {
                vstd::arithmetic::mul::lemma_mul_ordering(jm, w as int);
            } else {
                assert(0 * w == 0);
            }
        }
        assert(j * w == jm * w + w) by {
            vstd::arithmetic::mul::lemma_mul_is_distributive_add_other_way(w as int, jm, 1);
        }
        assert(pow2(e2) == ee * ww) by {
            lemma_pow2_adds(e, w);
        }
        let u = window_u(s, jm, w) as int;
        let c = window_carry(s, jm, w) as int;
        let c2 = window_carry(s, j, w) as int;
        // Row jm is not the boundary row, so its widths are both w.
        assert(row_wbits(w, h, jm) == w);
        assert(row_cbits(w, h, jm) == w);
        assert(f(jm) == ee * (u + c - ww * c2));
        assert(ee * (u + c - ww * c2) == ee * u + ee * c - ee * (ww * c2)) by {
            lemma_mul_is_distributive_add(ee, u, c - ww * c2);
            lemma_mul_is_distributive_sub(ee, c, ww * c2);
        }
        assert(ee * (ww * c2) == (ee * ww) * c2) by {
            lemma_mul_is_associative(ee, ww, c2);
        }
        // Low j*w bits split into the low (j-1)*w bits plus window jm.
        assert(sv % (ee * ww) == ee * ((sv / ee) % ww) + sv % ee) by {
            lemma_breakdown(sv, ee, ww);
        }
        assert(u == (sv / ee) % ww);
    }
}

/// Telescoping theorem: summing every row's Booth digit, weighted by
/// its row's power of `2^w`, reconstructs the scalar exactly.
pub proof fn lemma_booth_digits_total(s: Scalar256, w: nat, h: nat)
    requires
        1 <= w <= 31,
        h == h_for_width(w),
        scalar_value(s) < pow2(255),
    ensures
        sum_of(h, row_term(s, w, h)) == scalar_value(s),
{
    let sv = scalar_value(s) as int;
    let f = row_term(s, w, h);
    lemma_h_for_width(w);
    lemma_digits_partial(s, w, h, h - 1);
    lemma_window_digit_top(s, w, h);
    let b0 = ((h - 1) * w) as nat;
    let bb = pow2(b0) as int;
    lemma_pow2_pos(b0);
    assert((h - 1) * w >= 0) by {
        vstd::arithmetic::mul::lemma_mul_ordering(h - 1, w as int);
    }
    let q = sv / bb;
    let c = window_carry(s, h - 1, w) as int;
    assert(f(h - 1) == bb * (q + c));
    assert(bb * (q + c) == bb * q + bb * c) by {
        lemma_mul_is_distributive_add(bb, q, c);
    }
    assert(sum_of(h, f) == sum_of((h - 1) as nat, f) + f(h - 1));
    assert(sv == bb * q + sv % bb) by {
        lemma_fundamental_div_mod(sv, bb);
    }
}

} // verus!
