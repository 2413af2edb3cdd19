//! 256-bit scalars stored as four little-endian 64-bit limbs, and the
//! window extraction primitive the bucket method reads them through.

use vstd::prelude::*;
use vstd::arithmetic::power2::{pow2, lemma_pow2_adds, lemma_pow2_pos, lemma2_to64};
use vstd::arithmetic::div_mod::{
    lemma_div_denominator, lemma_div_multiples_vanish_fancy, lemma_mod_multiples_vanish,
};
use vstd::arithmetic::mul::{
    lemma_mul_is_associative, lemma_mul_is_commutative, lemma_mul_is_distributive_sub,
    lemma_mul_inequality,
};
use vstd::bits::{
    lemma_u64_shl_is_mul, lemma_u64_shr_is_div, lemma_u64_pow2_no_overflow,
};

verus! {

/// Number of scalar bits the bucket method walks.
pub const NBITS: usize = 255;

/// A 256-bit scalar: four 64-bit limbs, least significant first.
#[derive(Clone, Copy, PartialEq, Eq, Debug)]
pub struct Scalar256 {
    pub data: [u64; 4],
}

/// Value of the limbs from index `k` upward, little-endian.
pub open spec fn limbs_from(s: Scalar256, k: int) -> nat
    decreases 4 - k,
{
    if k < 0 || k >= 4 {
        0
    } else {
        (s.data[k] + pow2(64) * limbs_from(s, k + 1)) as nat
    }
}

/// The value of a scalar.
pub open spec fn scalar_value(s: Scalar256) -> nat {
    limbs_from(s, 0)
}

impl Scalar256 {
    /// Builds a scalar from its four limbs, least significant first.
    pub fn new(data: [u64; 4]) -> (r: Scalar256)
        ensures
            r.data == data,
    {
        Scalar256 { data }
    }

    /// A scalar holding a small value.
    pub fn from_u64(v: u64) -> (r: Scalar256)
        ensures
            scalar_value(r) == v,
    {
        let r = Scalar256 { data: [v, 0, 0, 0] };
        proof {
            assert(r.data[0] == v && r.data[1] == 0 && r.data[2] == 0 && r.data[3] == 0);
            assert(limbs_from(r, 4) == 0);
            assert(limbs_from(r, 3) == (r.data[3] + pow2(64) * limbs_from(r, 4)) as nat);
            assert(limbs_from(r, 3) == 0);
            assert(limbs_from(r, 2) == 0);
            assert(limbs_from(r, 1) == 0);
            assert(scalar_value(r) == v);
        }
        r
    }

    /// Whether the value stays below `2^255`, the bit range the bucket
    /// method processes.
    pub fn fits_bit_length(&self) -> (r: bool)
        ensures
            r <==> scalar_value(*self) < pow2(255),
    {
        proof {
            lemma_scalar_bit_length(*self);
        }
        self.data[3] < 0x8000_0000_0000_0000u64
    }
}

/// Every limb suffix is bounded by the corresponding power of two.
pub proof fn lemma_limbs_bound(s: Scalar256, k: int)
    requires
        0 <= k <= 4,
    ensures
        limbs_from(s, k) < pow2((64 * (4 - k)) as nat),
    decreases 4 - k,
{
    if k == 4 {
        lemma_pow2_pos(0);
    } else {
        lemma_limbs_bound(s, k + 1);
        let rest = limbs_from(s, k + 1);
        let bound = pow2((64 * (3 - k)) as nat);
        assert(pow2(64) * rest <= pow2(64) * (bound - 1)) by {
            lemma_mul_inequality(rest as int, bound - 1, pow2(64) as int);
            lemma_mul_is_commutative(pow2(64) as int, rest as int);
            lemma_mul_is_commutative(pow2(64) as int, bound - 1);
        }
        assert(pow2(64) * bound == pow2((64 * (4 - k)) as nat)) by {
            lemma_pow2_adds(64, (64 * (3 - k)) as nat);
        }
        assert(pow2(64) * (bound - 1) == pow2(64) * bound - pow2(64)) by {
            lemma_mul_is_distributive_sub(pow2(64) as int, bound as int, 1);
        }
        lemma2_to64();
    }
}

/// A scalar is below `2^255` exactly when its top limb keeps its top
/// bit clear.
pub proof fn lemma_scalar_bit_length(s: Scalar256)
    ensures
        scalar_value(s) < pow2(255) <==> s.data[3] < 0x8000_0000_0000_0000u64,
{
    lemma_scalar_div_limb(s, 3);
    lemma_limbs_bound(s, 3);
    lemma_limbs_bound(s, 0);
    assert(pow2(63) == 0x8000_0000_0000_0000) by {
        vstd::arithmetic::power2::lemma2_to64_rest();
    }
    lemma_pow2_adds(192, 63);
    lemma_pow2_pos(192);
    let v = scalar_value(s) as int;
    let d3 = s.data[3] as int;
    assert(limbs_from(s, 4) == 0);
    assert(limbs_from(s, 3) == s.data[3] + pow2(64) * 0);
    assert(v / pow2(192) as int == d3);
    if d3 < pow2(63) {
        // v = 2^192 * d3 + (v % 2^192) < 2^192 * 2^63
        vstd::arithmetic::div_mod::lemma_fundamental_div_mod(v, pow2(192) as int);
        vstd::arithmetic::div_mod::lemma_mod_bound(v, pow2(192) as int);
        assert(pow2(192) * d3 <= pow2(192) * (pow2(63) - 1)) by {
            lemma_mul_inequality(d3, pow2(63) - 1, pow2(192) as int);
            lemma_mul_is_commutative(pow2(192) as int, d3);
            lemma_mul_is_commutative(pow2(192) as int, pow2(63) - 1);
        }
        assert(pow2(192) * (pow2(63) - 1) == pow2(255) - pow2(192)) by {
            lemma_mul_is_distributive_sub(pow2(192) as int, pow2(63) as int, 1);
        }
    } else {
        vstd::arithmetic::div_mod::lemma_fundamental_div_mod(v, pow2(192) as int);
        vstd::arithmetic::div_mod::lemma_mod_bound(v, pow2(192) as int);
        assert(pow2(192) * d3 >= pow2(192) * pow2(63)) by {
            lemma_mul_inequality(pow2(63) as int, d3, pow2(192) as int);
            lemma_mul_is_commutative(pow2(192) as int, d3);
            lemma_mul_is_commutative(pow2(192) as int, pow2(63) as int);
        }
    }
}

/// Dividing a scalar by `2^(64k)` drops its low `k` limbs.
pub proof fn lemma_scalar_div_limb(s: Scalar256, lo: int)
    requires
        0 <= lo <= 4,
    ensures
        scalar_value(s) as int / pow2((64 * lo) as nat) as int == limbs_from(s, lo),
    decreases lo,
{
    if lo == 0 {
        lemma_pow2_pos(0);
        assert(pow2(0) == 1) by {
            lemma2_to64();
        }
        vstd::arithmetic::div_mod::lemma_div_basics(scalar_value(s) as int);
    } else {
        lemma_scalar_div_limb(s, lo - 1);
        let prev = limbs_from(s, lo - 1);
        let cur = limbs_from(s, lo);
        let d = s.data[lo - 1];
        // prev = 2^64 * cur + d, with d < 2^64, so prev / 2^64 == cur.
        lemma2_to64();
        lemma_pow2_pos(64);
        assert(prev as int / pow2(64) as int == cur) by {
            lemma_div_multiples_vanish_fancy(cur as int, d as int, pow2(64) as int);
        }
        let e_prev = (64 * (lo - 1)) as nat;
        lemma_pow2_pos(e_prev);
        assert(scalar_value(s) as int / pow2(e_prev) as int / pow2(64) as int
            == scalar_value(s) as int / (pow2(e_prev) * pow2(64)) as int) by {
            lemma_div_denominator(scalar_value(s) as int, pow2(e_prev) as int, pow2(64) as int);
        }
        lemma_pow2_adds(e_prev, 64);
    }
}

/// Extracts the `wbits`-wide bit window of a scalar starting at bit
/// `bit0`: returns `(value / 2^bit0) % 2^wbits`.
pub fn get_wval_limb(s: &Scalar256, bit0: usize, wbits: usize) -> (r: u64)
    requires
        1 <= wbits <= 33,
        bit0 + wbits <= 256,
    ensures
        r as nat == (scalar_value(*s) / pow2(bit0 as nat)) % pow2(wbits as nat),
{
    let lo: usize = bit0 / 64;
    let off: u64 = (bit0 % 64) as u64;
    let lo_limb: u64 = s.data[lo];
    let hi_limb: u64 = if lo + 1 < 4 { s.data[lo + 1] } else { 0 };

    proof {
        lemma_u64_pow2_no_overflow(wbits as nat);
    }
    let modulus: u64 = 1u64 << (wbits as u64);
    proof {
        lemma_u64_shl_is_mul(1u64, wbits as u64);
        lemma_pow2_pos(wbits as nat);
        assert(modulus == pow2(wbits as nat));
    }

    let ghost sv = scalar_value(*s) as int;
    let ghost w = wbits as nat;
    let ghost a = lo_limb as int;
    let ghost b = hi_limb as int;
    let ghost m_rest = limbs_from(*s, lo as int + 1) as int;
    let ghost c_rest = limbs_from(*s, lo as int + 2) as int;

    proof {
        lemma_scalar_div_limb(*s, lo as int);
        // limbs_from(lo) == a + 2^64 * m_rest, and m_rest == b + 2^64 * c_rest.
        if lo == 3 {
            assert(m_rest == 0);
            assert(c_rest == 0);
        }
        lemma2_to64();
    }

    if off == 0 {
        let r = lo_limb % modulus;
        proof {
            // (sv / 2^bit0) % 2^w == (a + 2^64 * m_rest) % 2^w == a % 2^w.
            assert(64 * lo as int == bit0 as int);
            let x = limbs_from(*s, lo as int) as int;
            lemma_pow2_adds(w, (64 - w) as nat);
            assert(pow2(64) * m_rest == pow2(w) * (pow2((64 - w) as nat) * m_rest)) by {
                lemma_mul_is_associative(
                    pow2(w) as int, pow2((64 - w) as nat) as int, m_rest);
            }
            assert(x % pow2(w) as int == a % pow2(w) as int) by {
                lemma_mod_multiples_vanish(
                    pow2((64 - w) as nat) * m_rest, a, pow2(w) as int);
            }
        }
        r
    } else {
        let shift_up: u64 = 64 - off;
        proof {
            lemma_u64_pow2_no_overflow(off as nat);
        }
        let modulus_off: u64 = 1u64 << off;
        proof {
            lemma_u64_shl_is_mul(1u64, off);
            assert(modulus_off == pow2(off as nat));
        }
        let b_low: u64 = hi_limb % modulus_off;
        let lo_part: u64 = lo_limb >> off;
        proof {
            lemma_pow2_pos(off as nat);
            lemma_pow2_pos(shift_up as nat);
            lemma_u64_shr_is_div(lo_limb, off);
            // lo_part < 2^(64 - off)
            lemma_pow2_adds(off as nat, shift_up as nat);
            assert(lo_limb < pow2(off as nat) * pow2(shift_up as nat));
            assert(lo_part < pow2(shift_up as nat)) by {
                vstd::arithmetic::div_mod::lemma_multiply_divide_lt(
                    lo_limb as int, pow2(off as nat) as int, pow2(shift_up as nat) as int);
            }
            // b_low * 2^(64 - off) fits in u64.
            assert(b_low * pow2(shift_up as nat)
                <= (pow2(off as nat) - 1) * pow2(shift_up as nat)) by {
                lemma_mul_inequality(
                    b_low as int, pow2(off as nat) - 1, pow2(shift_up as nat) as int);
            }
            assert((pow2(off as nat) - 1) * pow2(shift_up as nat)
                == pow2(64) - pow2(shift_up as nat)) by {
                vstd::arithmetic::mul::lemma_mul_is_distributive_sub_other_way(
                    pow2(shift_up as nat) as int, pow2(off as nat) as int, 1);
            }
            lemma_u64_pow2_no_overflow(shift_up as nat);
        }
        let shifted: u64 = b_low << shift_up;
        proof {
            lemma_u64_shl_is_mul(b_low, shift_up);
        }
        let val: u64 = lo_part + shifted;
        let r = val % modulus;
        proof {
            lemma_window_from_parts(
                sv, bit0 as nat, w, lo as nat, off as nat, a, b, m_rest, c_rest,
                lo_part as int, b_low as int, val as int);
        }
        r
    }
}

/// The arithmetic core of `get_wval_limb` for a window not aligned on a
/// limb boundary: the recombined two-limb value matches the window of
/// the full scalar, modulo `2^wbits`.
proof fn lemma_window_from_parts(
    sv: int,
    bit0: nat,
    w: nat,
    lo: nat,
    off: nat,
    a: int,
    b: int,
    m_rest: int,
    c_rest: int,
    lo_part: int,
    b_low: int,
    val: int,
)
    requires
        1 <= w <= 33,
        1 <= off < 64,
        bit0 == 64 * lo + off,
        0 <= a < pow2(64),
        0 <= b < pow2(64),
        m_rest == b + pow2(64) * c_rest,
        0 <= c_rest,
        sv >= 0,
        sv / pow2((64 * lo) as nat) as int == a + pow2(64) * m_rest,
        lo_part == a / pow2(off) as int,
        b_low == b % pow2(off) as int,
        val == lo_part + b_low * pow2((64 - off) as nat),
    ensures
        val % pow2(w) as int == (sv / pow2(bit0) as int) % pow2(w) as int,
{
    let k = (64 - off) as nat;
    lemma_pow2_pos(off);
    lemma_pow2_pos(k);
    lemma_pow2_pos(w);
    lemma_pow2_pos((64 * lo) as nat);
    lemma2_to64();

    // sv / 2^bit0 == (sv / 2^(64 lo)) / 2^off
    assert(sv / pow2((64 * lo) as nat) as int / pow2(off) as int
        == sv / pow2(bit0) as int) by {
        lemma_div_denominator(sv, pow2((64 * lo) as nat) as int, pow2(off) as int);
        lemma_pow2_adds((64 * lo) as nat, off);
    }

    let x = a + pow2(64) * m_rest;
    // x / 2^off == lo_part + 2^k * m_rest
    let q = a / pow2(off) as int;
    let ra = a % pow2(off) as int;
    vstd::arithmetic::div_mod::lemma_fundamental_div_mod(a, pow2(off) as int);
    vstd::arithmetic::div_mod::lemma_mod_bound(a, pow2(off) as int);
    assert(pow2(64) * m_rest == pow2(off) * (pow2(k) * m_rest)) by {
        lemma_pow2_adds(off, k);
        lemma_mul_is_associative(pow2(off) as int, pow2(k) as int, m_rest);
    }
    assert(x == pow2(off) as int * (q + pow2(k) * m_rest) + ra) by {
        vstd::arithmetic::mul::lemma_mul_is_distributive_add(
            pow2(off) as int, q, pow2(k) * m_rest);
    }
    assert(x / pow2(off) as int == q + pow2(k) * m_rest) by {
        lemma_div_multiples_vanish_fancy(q + pow2(k) * m_rest, ra, pow2(off) as int);
    }

    // Split m_rest: 2^k * m_rest == 2^k * b + 2^(64+k) * c_rest.
    assert(pow2(k) * m_rest == pow2(k) * b + pow2(k) * (pow2(64) * c_rest)) by {
        vstd::arithmetic::mul::lemma_mul_is_distributive_add(
            pow2(k) as int, b, pow2(64) * c_rest);
    }

    // Both 2^k * (b - b_low) and 2^(k+64) * c_rest vanish modulo 2^w,
    // because they are multiples of 2^64 and w <= 33 < 64.
    let target = q + pow2(k) * b + pow2(k) * (pow2(64) * c_rest);
    // target == val + 2^64 * (b / 2^off) + 2^64 * (2^k * c_rest)
    vstd::arithmetic::div_mod::lemma_fundamental_div_mod(b, pow2(off) as int);
    assert(pow2(k) * b == pow2(k) * (pow2(off) as int * (b / pow2(off) as int)) + pow2(k) * b_low) by {
        vstd::arithmetic::mul::lemma_mul_is_distributive_add(
            pow2(k) as int, pow2(off) as int * (b / pow2(off) as int), b_low);
    }
    assert(pow2(k) * (pow2(off) as int * (b / pow2(off) as int))
        == pow2(64) * (b / pow2(off) as int)) by {
        lemma_mul_is_associative(pow2(k) as int, pow2(off) as int, b / pow2(off) as int);
        lemma_pow2_adds(k, off);
    }
    assert(pow2(k) * (pow2(64) * c_rest) == pow2(64) * (pow2(k) * c_rest)) by {
        lemma_mul_is_associative(pow2(k) as int, pow2(64) as int, c_rest);
        lemma_mul_is_commutative(pow2(k) as int, pow2(64) as int);
        lemma_mul_is_associative(pow2(64) as int, pow2(k) as int, c_rest);
    }
    assert(pow2(k) * b_low == b_low * pow2(k)) by {
        lemma_mul_is_commutative(pow2(k) as int, b_low);
    }
    let extra = b / pow2(off) as int + pow2(k) * c_rest;
    assert(target == val + pow2(64) * extra) by {
        vstd::arithmetic::mul::lemma_mul_is_distributive_add(
            pow2(64) as int, b / pow2(off) as int, pow2(k) * c_rest);
    }
    // 2^64 * extra is a multiple of 2^w.
    assert(pow2(64) * extra == pow2(w) * (pow2((64 - w) as nat) * extra)) by {
        lemma_pow2_adds(w, (64 - w) as nat);
        lemma_mul_is_associative(pow2(w) as int, pow2((64 - w) as nat) as int, extra);
    }
    assert(target % pow2(w) as int == val % pow2(w) as int) by {
        lemma_mod_multiples_vanish(pow2((64 - w) as nat) * extra, val, pow2(w) as int);
    }
}

} // verus!
