//! The BGMW precomputation table and its multiplication paths.
//!
//! A table over `numpoints` base points holds `h` rows; row `j`,
//! column `i` is `points[i] * 2^(j*width)`. Multiplying by a scalar
//! list walks every row, Booth-encodes the matching scalar window of
//! each scalar, accumulates the row's precomputed points into a bucket
//! array, and integrates the buckets once at the end; the pre-scaled
//! rows make any further doubling unnecessary. Both multiplication
//! paths return `sum over i of scalars[i] * points[i]`, modulo the
//! group order.

use vstd::prelude::*;
use vstd::arithmetic::power::pow;
use vstd::arithmetic::power2::{pow2, lemma_pow2_adds, lemma_pow2_pos, lemma2_to64, lemma_pow2};
use vstd::arithmetic::div_mod::{
    lemma_small_mod, lemma_mul_mod_noop_right, lemma_mod_bound,
};
use vstd::arithmetic::mul::{
    lemma_mul_is_commutative, lemma_mul_is_associative, lemma_mul_inequality,
    lemma_mul_is_distributive_add_other_way, lemma_mul_ordering,
};
use vstd::arithmetic::power::lemma_pow_multiplies;
use vstd::slice::slice_subrange;
use crate::group::{GroupElement, order, GROUP_ORDER};
use crate::scalar::{Scalar256, scalar_value, get_wval_limb, NBITS};
use crate::booth::{
    digit_value, window_digit, booth_encode, booth_decode, buckets_wf,
    bucket_weight, new_buckets, integrate_buckets, row_term, lemma_booth_digits_total,
};
use crate::window::{
    BgmwWindow, MAX_WINDOW, h_for_width, row_wbits, row_cbits, window_wf,
    spec_table_dimensions, lemma_h_for_width, get_sequential_window_size,
    get_table_dimensions, window,
};
use crate::sums::{
    sum_of, lemma_sum_ext, lemma_sum_split, lemma_sum_mod_cong, lemma_mod_add_cong,
    lemma_sum_factor, lemma_sum_blocks, lemma_sum_swap,
};

verus! {

/// The weighted sum `sum over i of scalars[i] * points[i]` — the value
/// a multi-scalar multiplication computes, before reduction.
pub open spec fn msm_value(points: Seq<GroupElement>, scalars: Seq<Scalar256>) -> int {
    sum_of(scalars.len(), |i: int| scalar_value(scalars[i]) as int * points[i]@)
}

/// What one tile hands the bucket array: the Booth digit of each
/// scalar at this tile's window, weighted by the matching point.
pub open spec fn tile_contribution(
    points: Seq<GroupElement>,
    scalars: Seq<Scalar256>,
    bit0: nat,
    wbits: nat,
    cbits: nat,
) -> int {
    sum_of(
        scalars.len(),
        |i: int| window_digit(scalars[i], bit0, wbits, cbits) * points[i]@,
    )
}

/// All elements of a point sequence are well formed.
pub open spec fn points_wf(s: Seq<GroupElement>) -> bool {
    forall|i: int| 0 <= i < s.len() ==> (#[trigger] s[i]).wf()
}

/// Processes one tile: Booth-encodes the window at `bit0` (of `wbits`
/// bits, digit size `cbits`) of every scalar and routes the matching
/// point into the bucket array. The weighted bucket sum moves by
/// exactly the tile's contribution, modulo the group order.
pub fn p1_tile_bgmw(
    points: &[GroupElement],
    scalars: &[Scalar256],
    buckets: &mut Vec<GroupElement>,
    bit0: usize,
    wbits: usize,
    cbits: usize,
)
    requires
        points@.len() == scalars@.len(),
        points_wf(points@),
        buckets_wf(old(buckets)@),
        1 <= cbits <= 32,
        wbits <= cbits,
        bit0 == 0 ==> 1 <= wbits,
        bit0 + wbits + 1 <= 256,
        pow2((cbits - 1) as nat) <= old(buckets)@.len(),
    ensures
        final(buckets)@.len() == old(buckets)@.len(),
        buckets_wf(final(buckets)@),
        bucket_weight(final(buckets)@, 0) % order()
            == (bucket_weight(old(buckets)@, 0)
                + tile_contribution(points@, scalars@, bit0 as nat, wbits as nat, cbits as nat))
                % order(),
{
    let n = scalars.len();
    let ghost f = |i: int| window_digit(
        scalars@[i], bit0 as nat, wbits as nat, cbits as nat) * points@[i]@;
    let ghost bw0 = bucket_weight(old(buckets)@, 0);
    let mut i: usize = 0;
    while i < n
        invariant
            n == scalars@.len() == points@.len(),
            points_wf(points@),
            buckets_wf(buckets@),
            buckets@.len() == old(buckets)@.len(),
            0 <= i <= n,
            1 <= cbits <= 32,
            wbits <= cbits,
            bit0 == 0 ==> 1 <= wbits,
            bit0 + wbits + 1 <= 256,
            pow2((cbits - 1) as nat) <= buckets@.len(),
            bucket_weight(buckets@, 0) % order() == (bw0 + sum_of(i as nat, f)) % order(),
            f == (|k: int| window_digit(
                scalars@[k], bit0 as nat, wbits as nat, cbits as nat) * points@[k]@),
        decreases n - i,
    {
        let scalar = &scalars[i];
        let point = &points[i];
        let wval: u64;
        if bit0 == 0 {
            let raw = get_wval_limb(scalar, 0, wbits);
            proof {
                lemma_pow2_pos(wbits as nat);
                assert(pow2(0) == 1) by {
                    lemma2_to64();
                }
                vstd::arithmetic::div_mod::lemma_div_basics(scalar_value(*scalar) as int);
                lemma_mod_bound(scalar_value(*scalar) as int, pow2(wbits as nat) as int);
                assert(pow2((wbits + 1) as nat) == 2 * pow2(wbits as nat)) by {
                    lemma_pow2_adds(1, wbits as nat);
                    lemma2_to64();
                }
                vstd::bits::lemma_u64_pow2_no_overflow((wbits + 1) as nat);
            }
            wval = raw * 2;
            proof {
                if wbits < cbits {
                    vstd::arithmetic::power2::lemma_pow2_strictly_increases(
                        (wbits + 1) as nat, (cbits + 1) as nat);
                }
                assert(wval < pow2((cbits + 1) as nat));
            }
        } else {
            let raw = get_wval_limb(scalar, bit0 - 1, wbits + 1);
            proof {
                lemma_pow2_pos((bit0 - 1) as nat);
                lemma_pow2_pos((wbits + 1) as nat);
                vstd::arithmetic::div_mod::lemma_div_pos_is_pos(
                    scalar_value(*scalar) as int, pow2((bit0 - 1) as nat) as int);
                lemma_mod_bound(
                    scalar_value(*scalar) as int / pow2((bit0 - 1) as nat) as int,
                    pow2((wbits + 1) as nat) as int);
                if wbits < cbits {
                    vstd::arithmetic::power2::lemma_pow2_strictly_increases(
                        (wbits + 1) as nat, (cbits + 1) as nat);
                }
                assert(raw < pow2((cbits + 1) as nat));
            }
            wval = raw;
        }
        let d = booth_encode(wval, cbits);
        proof {
            assert(digit_value(d) == window_digit(
                *scalar, bit0 as nat, wbits as nat, cbits as nat));
            vstd::arithmetic::power2::lemma_pow2_strictly_increases(
                (cbits - 1) as nat, cbits as nat);
        }
        let ghost before = buckets@;
        booth_decode(buckets, d, point);
        proof {
            lemma_mod_add_cong(
                bucket_weight(before, 0), bw0 + sum_of(i as nat, f),
                digit_value(d) * point@, digit_value(d) * point@, order());
            assert(sum_of((i + 1) as nat, f) == sum_of(i as nat, f) + f(i as int));
        }
        i = i + 1;
    }
    proof {
        assert(sum_of(n as nat, f) == tile_contribution(
            points@, scalars@, bit0 as nat, wbits as nat, cbits as nat));
    }
}

/// Errors of table construction and decoding.
#[derive(Clone, Copy, PartialEq, Eq, Structural, Debug)]
pub enum MsmError {
    /// The requested precomputation table cannot be addressed.
    TableTooLarge,
    /// The serialized window tag is not a known variant.
    BadWindowTag,
    /// The byte stream ends before the encoded table does, or runs past it.
    TruncatedStream,
    /// A serialized point fails validation.
    InvalidPoint,
    /// The serialized dimensions contradict the window parameter.
    BadDimensions,
    /// The serialized matrix rows are not successive multiples of the base row.
    InconsistentTable,
    /// The stream decodes but is not the canonical encoding of any table.
    NonCanonicalStream,
}

/// Contribution of row `row`, columns `x0 .. x0 + cnt`, in absolute
/// indices of the full point matrix.
pub open spec fn row_part(
    points: Seq<GroupElement>,
    scalars: Seq<Scalar256>,
    n: int,
    w: nat,
    h: nat,
    row: int,
    x0: int,
    cnt: nat,
) -> int {
    sum_of(
        cnt,
        |i: int| window_digit(
            scalars[x0 + i], (row * w) as nat, row_wbits(w, h, row), row_cbits(w, h, row))
            * points[row * n + x0 + i]@,
    )
}

/// A BGMW precomputation table: `h` rows of `numpoints` points, row
/// `j` column `i` holding `base[i] * 2^(j * width)`.
#[derive(Clone, Debug)]
pub struct BgmwTable {
    pub window: BgmwWindow,
    pub points: Vec<GroupElement>,
    pub numpoints: usize,
    pub h: usize,
}

impl BgmwTable {
    /// The window width the table was built with.
    pub open spec fn width(self) -> nat {
        spec_table_dimensions(self.window).0
    }

    /// Every row is the previous row scaled by `2^width`.
    pub open spec fn consistent(self) -> bool {
        forall|j: int, i: int|
            1 <= j < self.h && 0 <= i < self.numpoints ==> (#[trigger] self.points@[
                j * self.numpoints + i])@ == (pow2(self.width())
                * self.points@[(j - 1) * self.numpoints + i]@) % order()
    }

    /// Table well-formedness: a valid window parameter, matching
    /// dimensions, canonical points, and a consistent matrix.
    pub open spec fn wf(self) -> bool {
        &&& window_wf(self.window, self.numpoints as nat)
        &&& self.h == spec_table_dimensions(self.window).1
        &&& self.h == h_for_width(self.width())
        &&& self.points@.len() == self.numpoints * self.h
        &&& points_wf(self.points@)
        &&& self.consistent()
    }

    /// The base points the table was built from: its first row.
    pub open spec fn base_points(self) -> Seq<GroupElement> {
        self.points@.subrange(0, self.numpoints as int)
    }
}

/// Two distinct (row, column) pairs name distinct matrix cells.
proof fn lemma_index_distinct(n: int, j1: int, i1: int, j2: int, i2: int)
    requires
        n >= 1,
        0 <= i1 < n,
        0 <= i2 < n,
        j1 >= 0,
        j2 >= 0,
        j1 != j2 || i1 != i2,
    ensures
        j1 * n + i1 != j2 * n + i2,
{
    if j1 * n + i1 == j2 * n + i2 {
        lemma_mul_is_commutative(j1, n);
        lemma_mul_is_commutative(j2, n);
        vstd::arithmetic::div_mod::lemma_fundamental_div_mod_converse(
            j1 * n + i1, n, j1, i1);
        vstd::arithmetic::div_mod::lemma_fundamental_div_mod_converse(
            j2 * n + i2, n, j2, i2);
    }
}

/// In a consistent table, row `r` column `i` holds the base point
/// scaled by `(2^w)^r`.
proof fn lemma_column_power(t: BgmwTable, i: int, r: int)
    requires
        t.wf(),
        0 <= i < t.numpoints,
        0 <= r < t.h,
    ensures
        t.points@[r * t.numpoints as int + i]@
            == (pow(pow2(t.width()) as int, r as nat) * t.points@[i]@) % order(),
    decreases r,
{
    let n = t.numpoints as int;
    let q = pow2(t.width()) as int;
    lemma_mul_inequality(r + 1, t.h as int, n);
    lemma_mul_is_commutative(r + 1, n);
    lemma_mul_is_commutative(t.h as int, n);
    lemma_mul_is_distributive_add_other_way(n, r, 1);
    if r == 0 {
        assert(pow(q, 0) == 1) by {
            vstd::arithmetic::power::lemma_pow0(q);
        }
        assert(0 * n + i == i);
        assert(t.points@[i].wf());
        lemma_small_mod(t.points@[i].value as nat, GROUP_ORDER as nat);
        assert(1 * t.points@[i]@ == t.points@[i]@);
    } else {
        lemma_column_power(t, i, r - 1);
        let prev = t.points@[(r - 1) * n + i]@;
        let base = t.points@[i]@;
        assert(t.points@[r * n + i]@ == (q * prev) % order());
        assert(prev == (pow(q, (r - 1) as nat) * base) % order());
        assert((q * ((pow(q, (r - 1) as nat) * base) % order())) % order()
            == (q * (pow(q, (r - 1) as nat) * base)) % order()) by {
            lemma_mul_mod_noop_right(q, pow(q, (r - 1) as nat) * base, order());
        }
        assert(q * (pow(q, (r - 1) as nat) * base) == pow(q, r as nat) * base) by {
            lemma_mul_is_associative(q, pow(q, (r - 1) as nat), base);
            assert(pow(q, r as nat) == q * pow(q, (r - 1) as nat)) by {
                vstd::arithmetic::power::lemma_pow_adds(q, 1, (r - 1) as nat);
                vstd::arithmetic::power::lemma_pow1(q);
            }
        }
    }
}

/// Evaluation theorem: the sum of every row's contribution is the
/// multi-scalar multiplication of the base row, modulo the order.
proof fn lemma_table_eval(t: BgmwTable, scalars: Seq<Scalar256>)
    requires
        t.wf(),
        scalars.len() == t.numpoints,
        forall|i: int|
            0 <= i < scalars.len() ==> scalar_value(#[trigger] scalars[i]) < pow2(255),
    ensures
        sum_of(
            t.h as nat,
            |r: int| row_part(
                t.points@, scalars, t.numpoints as int, t.width(), t.h as nat, r, 0,
                t.numpoints as nat),
        ) % order() == msm_value(t.base_points(), scalars) % order(),
{
    let pts = t.points@;
    let n = t.numpoints as int;
    let w = t.width();
    let hh = t.h as nat;
    let q = pow2(w) as int;
    let rows = |r: int| row_part(pts, scalars, n, w, hh, r, 0, t.numpoints as nat);
    let term = |r: int, i: int| window_digit(
        scalars[i], (r * w) as nat, row_wbits(w, hh, r), row_cbits(w, hh, r))
        * pts[r * n + i]@;
    let inner_row = |r: int| sum_of(n as nat, |i: int| term(r, i));

    // Each row's contribution is the inner sum over absolute columns.
    assert forall|r: int| 0 <= r < hh implies #[trigger] rows(r) == inner_row(r) by {
        let fa = |i: int| window_digit(
            scalars[0 + i], (r * w) as nat, row_wbits(w, hh, r), row_cbits(w, hh, r))
            * pts[r * n + 0 + i]@;
        let fb = |i: int| term(r, i);
        assert(forall|i: int| 0 <= i < n ==> #[trigger] fa(i) == fb(i));
        lemma_sum_ext(n as nat, fa, fb);
    }
    lemma_sum_ext(hh, rows, inner_row);

    // Swap the double sum: per point, then per row.
    lemma_sum_swap(hh, n as nat, term);
    let inner_pt = |i: int| sum_of(hh, |r: int| term(r, i));
    assert(sum_of(hh, inner_row) == sum_of(n as nat, inner_pt)) by {
        let lhs_in = |r: int| sum_of(n as nat, |i: int| term(r, i));
        assert(forall|r: int| 0 <= r < hh ==> #[trigger] inner_row(r) == lhs_in(r));
        lemma_sum_ext(hh, inner_row, lhs_in);
    }

    // Per point: the row sum telescopes to scalar * base point.
    let msm_term = |i: int| scalar_value(scalars[i]) as int * t.base_points()[i]@;
    assert forall|i: int| 0 <= i < n implies #[trigger] inner_pt(i) % order()
        == msm_term(i) % order() by {
        let base = pts[i]@;
        let per_row = |r: int| term(r, i);
        let scaled = |r: int| window_digit(
            scalars[i], (r * w) as nat, row_wbits(w, hh, r), row_cbits(w, hh, r))
            * (pow(q, r as nat) * base);
        assert forall|r: int| 0 <= r < hh implies
            #[trigger] per_row(r) % order() == scaled(r) % order() by {
            lemma_column_power(t, i, r);
            let d = window_digit(
                scalars[i], (r * w) as nat, row_wbits(w, hh, r), row_cbits(w, hh, r));
            lemma_mul_mod_noop_right(d, pow(q, r as nat) * base, order());
        }
        lemma_sum_mod_cong(hh, per_row, scaled, order());
        // Factor the base point out and rewrite the weights.
        let rt = row_term(scalars[i], w, hh);
        let factored = |r: int| base * rt(r);
        assert forall|r: int| 0 <= r < hh implies #[trigger] scaled(r) == factored(r) by {
            let d = window_digit(
                scalars[i], (r * w) as nat, row_wbits(w, hh, r), row_cbits(w, hh, r));
            assert(pow(q, r as nat) == pow2((r * w) as nat) as int) by {
                lemma_pow2(w);
                lemma_pow2((r * w) as nat);
                lemma_pow_multiplies(2, w, r as nat);
                lemma_mul_is_commutative(r, w as int);
            }
            assert(d * (pow2((r * w) as nat) as int * base)
                == base * (pow2((r * w) as nat) as int * d)) by (nonlinear_arith);
        }
        lemma_sum_ext(hh, scaled, factored);
        lemma_sum_factor(hh, rt, base);
        lemma_booth_digits_total(scalars[i], w, hh);
        assert(sum_of(hh, factored) == base * scalar_value(scalars[i]) as int);
        lemma_mul_is_commutative(base, scalar_value(scalars[i]) as int);
        assert(n <= pts.len()) by {
            lemma_h_for_width(w);
            lemma_mul_inequality(1, t.h as int, n);
            lemma_mul_is_commutative(t.h as int, n);
        }
        assert(t.base_points()[i] == pts.subrange(0, n)[i]);
        assert(pts.subrange(0, n)[i] == pts[0 + i]);
        assert(t.base_points()[i]@ == base);
    }
    lemma_sum_mod_cong(n as nat, inner_pt, msm_term, order());
    assert(msm_value(t.base_points(), scalars) == sum_of(n as nat, msm_term)) by {
        let mt = |i: int| scalar_value(scalars[i]) as int * t.base_points()[i]@;
        assert(forall|i: int| 0 <= i < n ==> #[trigger] mt(i) == msm_term(i));
        lemma_sum_ext(n as nat, mt, msm_term);
    }
}

impl BgmwTable {
    /// Multiplies the table's base points by a scalar list on one
    /// thread: walks every precomputation row, accumulates Booth
    /// digits into one bucket array, and integrates once.
    #[verifier::rlimit(100)]
    pub fn multiply_sequential(&self, scalars: &[Scalar256]) -> (r: GroupElement)
        requires
            self.wf(),
            self.window matches BgmwWindow::Sync(_),
            scalars@.len() == self.numpoints,
            forall|i: int|
                0 <= i < scalars@.len()
                    ==> scalar_value(#[trigger] scalars@[i]) < pow2(255),
        ensures
            r.wf(),
            r@ == msm_value(self.base_points(), scalars@) % order(),
    {
        let window = get_sequential_window_size(self.window);
        let ghost w = window as nat;
        let ghost hh = self.h as nat;
        let ghost n = self.numpoints as int;
        let ghost pts = self.points@;
        proof {
            lemma_h_for_width(w);
            vstd::bits::lemma_usize_pow2_no_overflow((window - 1) as nat);
        }
        let bucket_count: usize = 1usize << (window - 1);
        proof {
            vstd::bits::lemma_usize_shl_is_mul(1usize, (window - 1) as usize);
        }
        let mut buckets = new_buckets(bucket_count);
        let total_len = self.points.len();
        let ghost f = |k: int| row_part(pts, scalars@, n, w, hh, k, 0, self.numpoints as nat);
        let mut j: usize = self.h;
        while j > 0
            invariant
                self.wf(),
                self.window == BgmwWindow::Sync(window),
                1 <= window <= MAX_WINDOW,
                w == window as nat,
                hh == self.h as nat,
                n == self.numpoints as int,
                pts == self.points@,
                total_len == pts.len(),
                scalars@.len() == self.numpoints,
                0 <= j <= self.h,
                buckets@.len() == bucket_count,
                bucket_count == pow2((window - 1) as nat),
                buckets_wf(buckets@),
                bucket_weight(buckets@, 0) % order()
                    == (sum_of(hh, f) - sum_of(j as nat, f)) % order(),
                f == (|k: int| row_part(
                    pts, scalars@, n, w, hh, k, 0, self.numpoints as nat)),
            decreases j,
        {
            j = j - 1;
            proof {
                lemma_h_for_width(w);
                lemma_mul_inequality(j as int + 1, self.h as int, self.numpoints as int);
                lemma_mul_is_commutative(j as int + 1, n);
                lemma_mul_is_commutative(self.h as int, n);
                lemma_mul_is_distributive_add_other_way(n, j as int, 1);
                lemma_mul_inequality(j as int, self.h as int - 1, window as int);
                lemma_mul_is_commutative(self.h as int - 1, window as int);
                assert((self.h - 1) * window + 255nat % w == 255);
            }
            let row_start = j * self.numpoints;
            let row = slice_subrange(
                self.points.as_slice(), row_start, row_start + self.numpoints);
            let wbits: usize;
            let cbits: usize;
            if j == self.h - 1 {
                wbits = NBITS - (self.h - 1) * window;
                cbits = wbits + 1;
            } else {
                wbits = window;
                cbits = window;
            }
            proof {
                assert(row_wbits(w, hh, j as int) == wbits as nat);
                assert(row_cbits(w, hh, j as int) == cbits as nat);
                if j < self.h - 1 {
                    lemma_mul_inequality(j as int + 1, self.h as int - 1, window as int);
                    lemma_mul_is_distributive_add_other_way(window as int, j as int, 1);
                    assert(j * window + wbits + 1 <= 256);
                } else {
                    assert(j * window + wbits + 1 <= 256);
                }
                if cbits < window {
                    vstd::arithmetic::power2::lemma_pow2_strictly_increases(
                        (cbits - 1) as nat, (window - 1) as nat);
                }
                assert(points_wf(row@)) by {
                    assert(forall|i: int| 0 <= i < row@.len()
                        ==> (#[trigger] row@[i]) == pts[row_start + i]);
                }
            }
            let ghost before = buckets@;
            p1_tile_bgmw(row, scalars, &mut buckets, j * window, wbits, cbits);
            proof {
                // The tile's slice-local contribution is this row's part.
                let fa = |i: int| window_digit(
                    scalars@[i], (j * window) as nat, wbits as nat, cbits as nat)
                    * row@[i]@;
                let fb = |i: int| window_digit(
                    scalars@[0 + i], (j as int * w) as nat, row_wbits(w, hh, j as int),
                    row_cbits(w, hh, j as int)) * pts[j as int * n + 0 + i]@;
                assert(forall|i: int| 0 <= i < n ==> #[trigger] fa(i) == fb(i));
                lemma_sum_ext(self.numpoints as nat, fa, fb);
                assert(tile_contribution(
                    row@, scalars@, (j * window) as nat, wbits as nat, cbits as nat)
                    == f(j as int));
                assert(sum_of((j + 1) as nat, f) == sum_of(j as nat, f) + f(j as int));
                lemma_mod_add_cong(
                    bucket_weight(before, 0),
                    sum_of(hh, f) - sum_of((j + 1) as nat, f),
                    f(j as int), f(j as int), order());
            }
        }
        let mut ret = GroupElement { value: 0 };
        integrate_buckets(&mut ret, &buckets, window - 1);
        proof {
            lemma_table_eval(*self, scalars@);
            let rows = |r: int| row_part(
                pts, scalars@, n, w, hh, r, 0, self.numpoints as nat);
            assert(forall|r: int| 0 <= r < hh ==> #[trigger] f(r) == rows(r));
            lemma_sum_ext(hh, f, rows);
        }
        ret
    }
}

/// One unit of parallel work: columns `x .. x + dx` of the point range
/// at the window starting at bit `y`, `dy` bits wide.
#[derive(Clone, Copy, PartialEq, Eq, Structural, Debug)]
pub struct Tile {
    pub x: usize,
    pub dx: usize,
    pub y: usize,
    pub dy: usize,
}

/// A tile that addresses a valid cell range of a table over `n` points
/// with width `w` and `h` rows.
pub open spec fn tile_ok(t: Tile, n: int, w: nat, h: nat) -> bool {
    let row = t.y as int / w as int;
    &&& w >= 1
    &&& t.y as int % w as int == 0
    &&& 0 <= row
    &&& row < h
    &&& t.dy == row_wbits(w, h, row)
    &&& t.x + t.dx <= n
}

/// The group value a tile's bucket pass produces once integrated.
pub open spec fn tile_value(
    points: Seq<GroupElement>,
    scalars: Seq<Scalar256>,
    n: int,
    w: nat,
    h: nat,
    t: Tile,
) -> int {
    row_part(points, scalars, n, w, h, t.y as int / w as int, t.x as int, t.dx as nat) % order()
}

/// A row's contribution splits at any column.
proof fn lemma_row_part_split(
    points: Seq<GroupElement>,
    scalars: Seq<Scalar256>,
    n: int,
    w: nat,
    h: nat,
    row: int,
    x0: int,
    a: nat,
    b: nat,
)
    ensures
        row_part(points, scalars, n, w, h, row, x0, (a + b) as nat)
            == row_part(points, scalars, n, w, h, row, x0, a)
                + row_part(points, scalars, n, w, h, row, x0 + a, b),
{
    let f = |i: int| window_digit(
        scalars[x0 + i], (row * w) as nat, row_wbits(w, h, row), row_cbits(w, h, row))
        * points[row * n + x0 + i]@;
    lemma_sum_split(a, b, f);
    let shifted = |i: int| f(a + i);
    let g = |i: int| window_digit(
        scalars[x0 + a + i], (row * w) as nat, row_wbits(w, h, row), row_cbits(w, h, row))
        * points[row * n + x0 + a + i]@;
    assert(forall|i: int| 0 <= i < b ==> #[trigger] shifted(i) == g(i));
    lemma_sum_ext(b, shifted, g);
}

/// The tile at row `r`, column `c` of the grid of a table over `n`
/// points with tiling `(nx, ny=h)` and width `w`: column block `c`
/// (the last block absorbs the remainder) at the window of row `r`.
pub open spec fn grid_tile(n: int, nx: int, w: nat, h: nat, r: int, c: int) -> Tile {
    let dx0 = n / nx;
    Tile {
        x: (c * dx0) as usize,
        dx: if c == nx - 1 { (n - (nx - 1) * dx0) as usize } else { dx0 as usize },
        y: (r * w) as usize,
        dy: row_wbits(w, h, r) as usize,
    }
}

/// Every grid tile addresses a valid cell range.
proof fn lemma_grid_tile_ok(n: int, nx: int, w: nat, h: nat, r: int, c: int)
    requires
        1 <= w <= MAX_WINDOW,
        h == h_for_width(w),
        1 <= nx <= n,
        0 <= r < h,
        0 <= c < nx,
        n * h <= usize::MAX,
    ensures
        tile_ok(grid_tile(n, nx, w, h, r, c), n, w, h),
        grid_tile(n, nx, w, h, r, c).y as int / w as int == r,
        grid_tile(n, nx, w, h, r, c).x as int == c * (n / nx),
        grid_tile(n, nx, w, h, r, c).dx as int
            == if c == nx - 1 { n - (nx - 1) * (n / nx) } else { n / nx },
{
    let dx0 = n / nx;
    let t = grid_tile(n, nx, w, h, r, c);
    lemma_h_for_width(w);
    vstd::arithmetic::div_mod::lemma_fundamental_div_mod(n, nx);
    vstd::arithmetic::div_mod::lemma_mod_bound(n, nx);
    vstd::arithmetic::div_mod::lemma_div_pos_is_pos(n, nx);
    lemma_mul_is_commutative(nx, dx0);
    // x + dx <= n
    if c == nx - 1 {
        lemma_mul_inequality(c, nx - 1, dx0);
    } else {
        lemma_mul_inequality(c + 1, nx - 1, dx0);
        lemma_mul_is_distributive_add_other_way(dx0, c, 1);
        lemma_mul_inequality(nx - 1, nx, dx0);
    }
    assert(0 <= c * dx0) by {
        if c > 0 {
            lemma_mul_ordering(c, dx0);
        } else {
            assert(0 * dx0 == 0);
        }
    }
    // y is a multiple of w naming row r; both fit in usize.
    lemma_mul_inequality(r, h as int - 1, w as int);
    lemma_mul_is_commutative(r, w as int);
    lemma_mul_is_commutative(h as int - 1, w as int);
    assert(0 <= r * w as int) by {
        if r > 0 {
            lemma_mul_ordering(r, w as int);
        } else {
            assert(0 * w as int == 0);
        }
    }
    assert((h - 1) as int * w as int + 255nat % w == 255);
    // n itself fits, so every coordinate cast below is lossless.
    assert(n <= usize::MAX) by {
        lemma_mul_inequality(1, h as int, n);
        lemma_mul_is_commutative(h as int, n);
    }
    lemma_mul_inequality(c, nx - 1, dx0);
    lemma_mul_inequality(nx - 1, nx, dx0);
    assert(t.x as int == c * dx0);
    if c == nx - 1 {
        assert(t.dx as int == n - (nx - 1) * dx0);
    } else {
        assert(t.dx as int == dx0);
    }
    assert(row_wbits(w, h, r) <= 255);
    assert(t.dy as int == row_wbits(w, h, r));
    assert(t.y as int == r * w as int);
    vstd::arithmetic::div_mod::lemma_fundamental_div_mod_converse(
        r * w as int, w as int, r, 0);
}

impl BgmwTable {
    /// Builds the tile grid of a `Parallel(nx, ny, w)` window in
    /// row-major order: tile `r * nx + c` covers column block `c` of
    /// the window of row `r`.
    pub fn build_grid(&self) -> (grid: Vec<Tile>)
        requires
            self.wf(),
            self.window matches BgmwWindow::Parallel(_, _, _),
        ensures
            ({
                let (nx, ny, w) = match self.window {
                    BgmwWindow::Parallel(nx, ny, w) => (nx as int, ny as int, w as nat),
                    _ => (0int, 0int, 0nat),
                };
                &&& grid@.len() == nx * ny
                &&& forall|k: int| 0 <= k < nx * ny
                    ==> #[trigger] grid@[k] == grid_tile(
                        self.numpoints as int, nx, w, self.h as nat, k / nx, k % nx)
            }),
    {
        let (nx, ny, window) = match self.window {
            BgmwWindow::Parallel(nx, ny, w) => (nx, ny, w),
            BgmwWindow::Sync(_) => {
                proof {
                    assert(false);
                }
                (0, 0, 0)
            },
        };
        let ghost w = window as nat;
        let ghost hh = self.h as nat;
        let n = self.numpoints;
        let total_len = self.points.len();
        proof {
            lemma_h_for_width(w);
            lemma_mul_inequality(nx as int, n as int, ny as int);
            lemma_mul_is_commutative(n as int, self.h as int);
        }
        let total: usize = nx * ny;
        let dx0 = n / nx;
        let mut grid: Vec<Tile> = Vec::new();
        let mut t: usize = 0;
        while t < total
            invariant
                self.wf(),
                self.window == BgmwWindow::Parallel(nx, ny, window),
                w == window as nat,
                hh == self.h as nat,
                ny == self.h,
                1 <= window <= MAX_WINDOW,
                1 <= nx <= n,
                n == self.numpoints,
                total == nx * ny,
                total <= usize::MAX,
                dx0 == n as int / nx as int,
                total_len == n * self.h <= usize::MAX,
                0 <= t <= total,
                grid@.len() == t,
                forall|k: int| 0 <= k < t
                    ==> #[trigger] grid@[k] == grid_tile(
                        n as int, nx as int, w, hh, k / nx as int, k % nx as int),
            decreases total - t,
        {
            let r = t / nx;
            let c = t % nx;
            proof {
                lemma_h_for_width(w);
                vstd::arithmetic::div_mod::lemma_mod_bound(t as int, nx as int);
                assert(r < ny) by {
                    lemma_mul_is_commutative(nx as int, ny as int);
                    vstd::arithmetic::div_mod::lemma_multiply_divide_lt(
                        t as int, nx as int, ny as int);
                }
                lemma_grid_tile_ok(n as int, nx as int, w, hh, r as int, c as int);
                vstd::arithmetic::div_mod::lemma_fundamental_div_mod(n as int, nx as int);
                vstd::arithmetic::div_mod::lemma_mod_bound(n as int, nx as int);
                lemma_mul_is_commutative(nx as int, dx0 as int);
                lemma_mul_inequality(c as int, nx as int - 1, dx0 as int);
                lemma_mul_inequality(nx as int - 1, nx as int, dx0 as int);
                if c < nx - 1 {
                    lemma_mul_inequality(c as int + 1, nx as int - 1, dx0 as int);
                    lemma_mul_is_distributive_add_other_way(dx0 as int, c as int, 1);
                }
                assert(0 <= c as int * dx0 as int) by {
                    if c > 0 {
                        lemma_mul_ordering(c as int, dx0 as int);
                    } else {
                        assert(0 * dx0 as int == 0);
                    }
                }
                lemma_mul_inequality(r as int, self.h as int - 1, window as int);
                lemma_mul_is_commutative(r as int, window as int);
                lemma_mul_is_commutative(self.h as int - 1, window as int);
                assert((self.h - 1) as int * window as int + 255nat % w == 255);
            }
            let x = c * dx0;
            let dx = if c == nx - 1 { n - (nx - 1) * dx0 } else { dx0 };
            let y = r * window;
            let dy: usize = if r == self.h - 1 {
                NBITS - (self.h - 1) * window
            } else {
                window
            };
            proof {
                assert(dy as nat == row_wbits(w, hh, r as int));
            }
            grid.push(Tile { x, dx, y, dy });
            t = t + 1;
            proof {
                assert(grid@[t - 1] == grid_tile(
                    n as int, nx as int, w, hh, (t - 1) / nx as int, (t - 1) % nx as int));
            }
        }
        grid
    }
}

impl BgmwTable {
    /// Processes one tile with a private bucket array and integrates
    /// it into the tile's partial point. This is the whole body of one
    /// parallel work item; tiles never share bucket state.
    pub fn tile_partial(&self, scalars: &[Scalar256], tile: &Tile) -> (r: GroupElement)
        requires
            self.wf(),
            scalars@.len() == self.numpoints,
            forall|i: int|
                0 <= i < scalars@.len()
                    ==> scalar_value(#[trigger] scalars@[i]) < pow2(255),
            tile_ok(*tile, self.numpoints as int, self.width(), self.h as nat),
        ensures
            r.wf(),
            r@ == tile_value(
                self.points@, scalars@, self.numpoints as int, self.width(),
                self.h as nat, *tile),
    {
        let (width, _rows) = get_table_dimensions(self.window);
        let ghost w = self.width();
        let ghost hh = self.h as nat;
        let ghost n = self.numpoints as int;
        let ghost pts = self.points@;
        let total_len = self.points.len();
        proof {
            lemma_h_for_width(w);
        }
        let row = tile.y / width;
        proof {
            assert(row as int == tile.y as int / w as int);
            lemma_mul_inequality(row as int + 1, self.h as int, n);
            lemma_mul_is_commutative(row as int + 1, n);
            lemma_mul_is_commutative(self.h as int, n);
            lemma_mul_is_distributive_add_other_way(n, row as int, 1);
            assert(0 <= row as int * n) by {
                vstd::arithmetic::mul::lemma_mul_nonnegative(row as int, n);
            }
            vstd::bits::lemma_usize_pow2_no_overflow((width - 1) as nat);
        }
        let bucket_count: usize = 1usize << (width - 1);
        proof {
            vstd::bits::lemma_usize_shl_is_mul(1usize, (width - 1) as usize);
        }
        let mut buckets = new_buckets(bucket_count);
        let wbits = tile.dy;
        let cbits: usize;
        proof {
            vstd::arithmetic::div_mod::lemma_fundamental_div_mod(tile.y as int, w as int);
            lemma_mul_inequality(row as int, self.h as int - 1, width as int);
            lemma_mul_is_commutative(row as int, width as int);
            lemma_mul_is_commutative(self.h as int - 1, width as int);
            assert((self.h - 1) as int * width as int + 255nat % w == 255);
            if row as int == self.h as int - 1 {
                assert(tile.y + width > NBITS);
            } else {
                lemma_mul_inequality(row as int + 1, self.h as int - 1, width as int);
                lemma_mul_is_commutative(row as int + 1, width as int);
                lemma_mul_is_distributive_add_other_way(width as int, row as int, 1);
                assert(tile.y + width <= NBITS);
            }
        }
        if tile.y + width > NBITS {
            cbits = wbits + 1;
        } else {
            cbits = width;
        }
        proof {
            assert(wbits as nat == row_wbits(w, hh, row as int));
            assert(cbits as nat == row_cbits(w, hh, row as int));
            if cbits < width {
                vstd::arithmetic::power2::lemma_pow2_strictly_increases(
                    (cbits - 1) as nat, (width - 1) as nat);
            }
        }
        let row_start = row * self.numpoints + tile.x;
        let pts_slice = slice_subrange(
            self.points.as_slice(), row_start, row_start + tile.dx);
        let sc_slice = slice_subrange(scalars, tile.x, tile.x + tile.dx);
        proof {
            assert(points_wf(pts_slice@)) by {
                assert(forall|i: int| 0 <= i < pts_slice@.len()
                    ==> (#[trigger] pts_slice@[i]) == pts[row_start as int + i]);
            }
            assert(forall|i: int| 0 <= i < sc_slice@.len()
                ==> scalar_value(#[trigger] sc_slice@[i]) < pow2(255)) by {
                assert(forall|i: int| 0 <= i < sc_slice@.len()
                    ==> (#[trigger] sc_slice@[i]) == scalars@[tile.x + i]);
            }
            if tile.y == 0 {
                assert(row as int == 0) by {
                    vstd::arithmetic::div_mod::lemma_div_basics(0int);
                }
            }
        }
        p1_tile_bgmw(pts_slice, sc_slice, &mut buckets, tile.y, wbits, cbits);
        let mut ret = GroupElement { value: 0 };
        integrate_buckets(&mut ret, &buckets, width - 1);
        proof {
            let fa = |i: int| window_digit(
                sc_slice@[i], tile.y as nat, wbits as nat, cbits as nat) * pts_slice@[i]@;
            let fb = |i: int| window_digit(
                scalars@[tile.x + i], (row as int * w) as nat, row_wbits(w, hh, row as int),
                row_cbits(w, hh, row as int)) * pts[row as int * n + tile.x + i]@;
            assert(forall|i: int| 0 <= i < tile.dx ==> #[trigger] fa(i) == fb(i));
            lemma_sum_ext(tile.dx as nat, fa, fb);
        }
        ret
    }
}

/// Relies on rayon's parallel iterators: `par_iter().map(..).collect()`
/// applies the closure to every tile on the thread pool and collects
/// the results in the tiles' order. The closure only calls the
/// library's `tile_partial`, whose contract fixes each element.
#[verifier::external_body]
fn par_tile_partials(
    table: &BgmwTable,
    scalars: &[Scalar256],
    grid: &Vec<Tile>,
) -> (r: Vec<GroupElement>)
    requires
        table.wf(),
        scalars@.len() == table.numpoints,
        forall|i: int|
            0 <= i < scalars@.len() ==> scalar_value(#[trigger] scalars@[i]) < pow2(255),
        forall|k: int| 0 <= k < grid@.len()
            ==> tile_ok(
                #[trigger] grid@[k], table.numpoints as int, table.width(),
                table.h as nat),
    ensures
        r@.len() == grid@.len(),
        forall|k: int| 0 <= k < grid@.len() ==> (#[trigger] r@[k]).wf(),
        forall|k: int| 0 <= k < grid@.len()
            ==> (#[trigger] r@[k])@ == tile_value(
                table.points@, scalars@, table.numpoints as int, table.width(),
                table.h as nat, grid@[k]),
{
    rayon::iter::ParallelIterator::collect(
        rayon::iter::ParallelIterator::map(
            rayon::iter::IntoParallelRefIterator::par_iter(grid.as_slice()),
            |t| table.tile_partial(scalars, t),
        ),
    )
}

/// Summing a row's column blocks left to right covers the columns seen
/// so far.
proof fn lemma_row_columns_prefix(
    pts: Seq<GroupElement>,
    scalars: Seq<Scalar256>,
    n: int,
    w: nat,
    h: nat,
    row: int,
    nx: int,
    c: int,
)
    requires
        1 <= nx <= n,
        0 <= c <= nx - 1,
    ensures
        ({
            let dx0 = n / nx;
            sum_of(
                c as nat,
                |cc: int| row_part(
                    pts, scalars, n, w, h, row, cc * dx0,
                    (if cc == nx - 1 { n - (nx - 1) * dx0 } else { dx0 }) as nat),
            ) == row_part(pts, scalars, n, w, h, row, 0, (c * dx0) as nat)
        }),
    decreases c,
{
    let dx0 = n / nx;
    vstd::arithmetic::div_mod::lemma_fundamental_div_mod(n, nx);
    vstd::arithmetic::div_mod::lemma_mod_bound(n, nx);
    vstd::arithmetic::div_mod::lemma_div_pos_is_pos(n, nx);
    let colf = |cc: int| row_part(
        pts, scalars, n, w, h, row, cc * dx0,
        (if cc == nx - 1 { n - (nx - 1) * dx0 } else { dx0 }) as nat);
    if c == 0 {
        assert(0 * dx0 == 0);
    } else {
        lemma_row_columns_prefix(pts, scalars, n, w, h, row, nx, c - 1);
        assert(0 <= (c - 1) * dx0) by {
            if c - 1 > 0 {
                lemma_mul_ordering(c - 1, dx0);
            } else {
                assert(0 * dx0 == 0);
            }
        }
        lemma_row_part_split(
            pts, scalars, n, w, h, row, 0, ((c - 1) * dx0) as nat, dx0 as nat);
        assert(c * dx0 == (c - 1) * dx0 + dx0) by {
            lemma_mul_is_distributive_add_other_way(dx0, c - 1, 1);
        }
        assert(colf(c - 1) == row_part(
            pts, scalars, n, w, h, row, (c - 1) * dx0, dx0 as nat));
    }
}

/// A row's column blocks together cover the whole row.
proof fn lemma_row_columns(
    pts: Seq<GroupElement>,
    scalars: Seq<Scalar256>,
    n: int,
    w: nat,
    h: nat,
    row: int,
    nx: int,
)
    requires
        1 <= nx <= n,
    ensures
        ({
            let dx0 = n / nx;
            sum_of(
                nx as nat,
                |cc: int| row_part(
                    pts, scalars, n, w, h, row, cc * dx0,
                    (if cc == nx - 1 { n - (nx - 1) * dx0 } else { dx0 }) as nat),
            ) == row_part(pts, scalars, n, w, h, row, 0, n as nat)
        }),
{
    let dx0 = n / nx;
    vstd::arithmetic::div_mod::lemma_fundamental_div_mod(n, nx);
    vstd::arithmetic::div_mod::lemma_mod_bound(n, nx);
    vstd::arithmetic::div_mod::lemma_div_pos_is_pos(n, nx);
    lemma_row_columns_prefix(pts, scalars, n, w, h, row, nx, nx - 1);
    let colf = |cc: int| row_part(
        pts, scalars, n, w, h, row, cc * dx0,
        (if cc == nx - 1 { n - (nx - 1) * dx0 } else { dx0 }) as nat);
    assert(0 <= (nx - 1) * dx0) by {
        if nx - 1 > 0 {
            lemma_mul_ordering(nx - 1, dx0);
        } else {
            assert(0 * dx0 == 0);
        }
    }
    assert((nx - 1) * dx0 <= n) by {
        lemma_mul_inequality(nx - 1, nx, dx0);
        lemma_mul_is_commutative(nx, dx0);
    }
    lemma_row_part_split(
        pts, scalars, n, w, h, row, 0, ((nx - 1) * dx0) as nat,
        (n - (nx - 1) * dx0) as nat);
    assert(colf(nx - 1) == row_part(
        pts, scalars, n, w, h, row, (nx - 1) * dx0, (n - (nx - 1) * dx0) as nat));
    assert(sum_of(nx as nat, colf) == sum_of((nx - 1) as nat, colf) + colf(nx - 1));
}

impl BgmwTable {
    /// Multiplies the table's base points by a scalar list across the
    /// worker pool: the tile grid is materialized up front, each tile
    /// is evaluated independently with private buckets, and the
    /// partial points are combined by group addition. Falls back to
    /// the sequential path when the table has no tiling shape. Returns
    /// exactly what the sequential path returns.
    pub fn multiply_parallel(&self, scalars: &[Scalar256]) -> (r: GroupElement)
        requires
            self.wf(),
            scalars@.len() == self.numpoints,
            forall|i: int|
                0 <= i < scalars@.len()
                    ==> scalar_value(#[trigger] scalars@[i]) < pow2(255),
        ensures
            r.wf(),
            r@ == msm_value(self.base_points(), scalars@) % order(),
    {
        match self.window {
            BgmwWindow::Sync(_) => self.multiply_sequential(scalars),
            BgmwWindow::Parallel(nx, ny, width) => {
                let ghost w = self.width();
                let ghost hh = self.h as nat;
                let ghost n = self.numpoints as int;
                let ghost pts = self.points@;
                let total_len = self.points.len();
                proof {
                    lemma_h_for_width(w);
                    lemma_mul_is_commutative(n, self.h as int);
                }
                let grid = self.build_grid();
                proof {
                    assert forall|k: int| 0 <= k < grid@.len() implies tile_ok(
                        #[trigger] grid@[k], n, w, hh) by {
                        vstd::arithmetic::div_mod::lemma_mod_bound(k, nx as int);
                        assert((k / nx as int) < ny as int) by {
                            lemma_mul_is_commutative(nx as int, ny as int);
                            vstd::arithmetic::div_mod::lemma_multiply_divide_lt(
                                k, nx as int, ny as int);
                        }
                        vstd::arithmetic::div_mod::lemma_div_pos_is_pos(k, nx as int);
                        lemma_grid_tile_ok(
                            n, nx as int, w, hh, k / nx as int, k % nx as int);
                    }
                }
                let partials = par_tile_partials(self, scalars, &grid);
                let mut acc = GroupElement { value: 0 };
                let ghost vals = |t: int| partials@[t]@;
                let total = partials.len();
                let mut k: usize = 0;
                proof {
                    vstd::arithmetic::div_mod::lemma_mod_bound(0int, order());
                }
                while k < total
                    invariant
                        total == partials@.len(),
                        0 <= k <= total,
                        forall|t: int| 0 <= t < total ==> (#[trigger] partials@[t]).wf(),
                        acc.wf(),
                        acc@ == sum_of(k as nat, vals) % order(),
                        vals == (|t: int| partials@[t]@),
                    decreases total - k,
                {
                    let ghost acc0 = acc@;
                    acc = acc.add(&partials[k]);
                    proof {
                        lemma_mod_add_cong(
                            sum_of(k as nat, vals) % order(), sum_of(k as nat, vals),
                            vals(k as int), vals(k as int), order());
                        vstd::arithmetic::div_mod::lemma_mod_twice(
                            sum_of(k as nat, vals), order());
                        assert(sum_of((k + 1) as nat, vals)
                            == sum_of(k as nat, vals) + vals(k as int));
                    }
                    k = k + 1;
                }
                proof {
                    lemma_parallel_total(*self, scalars@, grid@, partials@);
                }
                acc
            },
        }
    }
}

/// The sum of all tile partials is the table's multi-scalar product:
/// tiles regroup into rows, rows into the full evaluation.
proof fn lemma_parallel_total(
    t: BgmwTable,
    scalars: Seq<Scalar256>,
    grid: Seq<Tile>,
    partials: Seq<GroupElement>,
)
    requires
        t.wf(),
        t.window matches BgmwWindow::Parallel(_, _, _),
        scalars.len() == t.numpoints,
        forall|i: int|
            0 <= i < scalars.len() ==> scalar_value(#[trigger] scalars[i]) < pow2(255),
        ({
            let (nx, ny, _) = match t.window {
                BgmwWindow::Parallel(nx, ny, w) => (nx as int, ny as int, w as nat),
                _ => (0int, 0int, 0nat),
            };
            &&& grid.len() == nx * ny
            &&& forall|k: int| 0 <= k < nx * ny
                ==> #[trigger] grid[k] == grid_tile(
                    t.numpoints as int, nx, t.width(), t.h as nat, k / nx, k % nx)
        }),
        t.points@.len() <= usize::MAX,
        partials.len() == grid.len(),
        forall|k: int| 0 <= k < grid.len()
            ==> (#[trigger] partials[k])@ == tile_value(
                t.points@, scalars, t.numpoints as int, t.width(), t.h as nat, grid[k]),
    ensures
        sum_of(partials.len(), |k: int| partials[k]@) % order()
            == msm_value(t.base_points(), scalars) % order(),
{
    let (nx, ny) = match t.window {
        BgmwWindow::Parallel(nx, ny, _) => (nx as int, ny as int),
        _ => (0int, 0int),
    };
    let n = t.numpoints as int;
    let w = t.width();
    let hh = t.h as nat;
    let pts = t.points@;
    let dx0 = n / nx;
    lemma_h_for_width(w);
    vstd::arithmetic::div_mod::lemma_fundamental_div_mod(n, nx);
    vstd::arithmetic::div_mod::lemma_mod_bound(n, nx);
    vstd::arithmetic::div_mod::lemma_div_pos_is_pos(n, nx);

    let vals = |k: int| partials[k]@;
    let raw = |k: int| row_part(
        pts, scalars, n, w, hh, k / nx, (k % nx) * dx0,
        (if k % nx == nx - 1 { n - (nx - 1) * dx0 } else { dx0 }) as nat);
    // Each partial is a reduced row part.
    assert forall|k: int| 0 <= k < partials.len() implies
        #[trigger] vals(k) % order() == raw(k) % order() by {
        vstd::arithmetic::div_mod::lemma_mod_bound(k, nx);
        vstd::arithmetic::div_mod::lemma_div_pos_is_pos(k, nx);
        assert(k / nx < ny) by {
            lemma_mul_is_commutative(nx, ny);
            vstd::arithmetic::div_mod::lemma_multiply_divide_lt(k, nx, ny);
        }
        lemma_grid_tile_ok(n, nx, w, hh, k / nx, k % nx);
        let gt = grid_tile(n, nx, w, hh, k / nx, k % nx);
        assert(gt.y as int / w as int == k / nx);
        assert(gt.x as int == (k % nx) * dx0);
        vstd::arithmetic::div_mod::lemma_mod_twice(
            row_part(pts, scalars, n, w, hh, k / nx, gt.x as int, gt.dx as nat), order());
    }
    lemma_sum_mod_cong(partials.len(), vals, raw, order());

    // Regroup the flat tile sum into rows of column sums.
    lemma_sum_blocks(ny as nat, nx as nat, raw);
    let row_sum = |r: int| sum_of(nx as nat, |c: int| raw(r * nx + c));
    let full_row = |r: int| row_part(pts, scalars, n, w, hh, r, 0, n as nat);
    assert forall|r: int| 0 <= r < ny implies #[trigger] row_sum(r) == full_row(r) by {
        let colf = |cc: int| row_part(
            pts, scalars, n, w, hh, r, cc * dx0,
            (if cc == nx - 1 { n - (nx - 1) * dx0 } else { dx0 }) as nat);
        let shifted = |c: int| raw(r * nx + c);
        assert forall|c: int| 0 <= c < nx implies #[trigger] shifted(c) == colf(c) by {
            assert(0 <= r * nx + c) by {
                if r > 0 {
                    lemma_mul_ordering(r, nx);
                } else {
                    assert(0 * nx == 0);
                }
            }
            vstd::arithmetic::div_mod::lemma_fundamental_div_mod_converse(
                r * nx + c, nx, r, c);
        }
        lemma_sum_ext(nx as nat, shifted, colf);
        lemma_row_columns(pts, scalars, n, w, hh, r, nx);
    }
    lemma_sum_ext(ny as nat, row_sum, full_row);

    // Rows sum to the full table evaluation.
    lemma_table_eval(t, scalars);
    let rows = |r: int| row_part(pts, scalars, n, w, hh, r, 0, t.numpoints as nat);
    assert(forall|r: int| 0 <= r < hh ==> #[trigger] full_row(r) == rows(r));
    lemma_sum_ext(hh, full_row, rows);
    assert(partials.len() == ny * nx) by {
        lemma_mul_is_commutative(nx, ny);
    }
}

/// Fills column `i` of the point matrix: row `j` receives
/// `base * q^j`, computed by repeated multiplication by `q`.
/// One step of filling a column: storing the next power into cell
/// `(j, i)` keeps every other column untouched and extends the
/// column's power chain by one row.
proof fn lemma_fill_step(
    before: Seq<GroupElement>,
    after: Seq<GroupElement>,
    old_table: Seq<GroupElement>,
    base: GroupElement,
    tmp: GroupElement,
    n: int,
    h: int,
    i: int,
    j: int,
    w: nat,
)
    requires
        before.len() == n * h,
        after == before.update(j * n + i, tmp),
        0 <= i < n,
        0 <= j < h,
        2 <= h,
        forall|jj: int, c: int| 0 <= jj < h && 0 <= c < n && c != i
            ==> #[trigger] before[jj * n + c] == old_table[jj * n + c],
        j >= 1 ==> before[i] == base,
        j == 0 ==> tmp == base,
        j >= 1 ==> tmp@ == (pow2(w) * before[(j - 1) * n + i]@) % order(),
        forall|jj: int| 1 <= jj < j
            ==> (#[trigger] before[jj * n + i])@
                == (pow2(w) * before[(jj - 1) * n + i]@) % order(),
    ensures
        after.len() == n * h,
        forall|jj: int, c: int| 0 <= jj < h && 0 <= c < n && c != i
            ==> #[trigger] after[jj * n + c] == old_table[jj * n + c],
        after[i] == base,
        after[j * n + i] == tmp,
        forall|jj: int| 1 <= jj < j + 1
            ==> (#[trigger] after[jj * n + i])@
                == (pow2(w) * after[(jj - 1) * n + i]@) % order(),
{
    let idx = j * n + i;
    lemma_mul_inequality(j + 1, h, n);
    lemma_mul_is_commutative(j + 1, n);
    lemma_mul_is_commutative(h, n);
    lemma_mul_is_distributive_add_other_way(n, j, 1);
    vstd::arithmetic::mul::lemma_mul_nonnegative(j, n);
    assert(0 <= idx < n * h);
    assert forall|jj: int, c: int| 0 <= jj < h && 0 <= c < n && c != i implies
        #[trigger] after[jj * n + c] == old_table[jj * n + c] by {
        vstd::arithmetic::mul::lemma_mul_nonnegative(jj, n);
        lemma_mul_inequality(jj + 1, h, n);
        lemma_mul_is_commutative(jj + 1, n);
        lemma_mul_is_distributive_add_other_way(n, jj, 1);
        lemma_index_distinct(n, jj, c, j, i);
    }
    if j == 0 {
        assert(0 * n == 0);
        assert(after[i] == tmp);
    } else {
        lemma_index_distinct(n, 0, i, j, i);
        assert(0 * n == 0);
        assert(after[i] == before[i]);
    }
    assert forall|jj: int| 1 <= jj < j + 1 implies
        (#[trigger] after[jj * n + i])@
            == (pow2(w) * after[(jj - 1) * n + i]@) % order() by {
        vstd::arithmetic::mul::lemma_mul_nonnegative(jj - 1, n);
        vstd::arithmetic::mul::lemma_mul_nonnegative(jj, n);
        lemma_mul_inequality(jj + 1, h, n);
        lemma_mul_is_commutative(jj + 1, n);
        lemma_mul_is_distributive_add_other_way(n, jj, 1);
        lemma_mul_is_distributive_add_other_way(n, jj - 1, 1);
        assert((jj - 1) * n + n == jj * n);
        if jj < j {
            lemma_index_distinct(n, jj, i, j, i);
            lemma_index_distinct(n, jj - 1, i, j, i);
            assert(after[jj * n + i] == before[jj * n + i]);
            assert(after[(jj - 1) * n + i] == before[(jj - 1) * n + i]);
        } else {
            lemma_index_distinct(n, jj - 1, i, j, i);
            assert(after[jj * n + i] == tmp);
            assert(after[(jj - 1) * n + i] == before[(jj - 1) * n + i]);
        }
    }
}

/// Fills column `i` of the point matrix: row `j` receives
/// `base * q^j`, computed by repeated multiplication by `q`.
fn fill_column(
    table: &mut Vec<GroupElement>,
    base: &GroupElement,
    i: usize,
    n: usize,
    h: usize,
    width: usize,
    q: u64,
)
    requires
        old(table)@.len() == n * h,
        n * h <= usize::MAX,
        points_wf(old(table)@),
        base.wf(),
        i < n,
        2 <= h <= 256,
        1 <= width <= MAX_WINDOW,
        q == pow2(width as nat),
    ensures
        final(table)@.len() == n * h,
        points_wf(final(table)@),
        forall|jj: int, c: int| 0 <= jj < h && 0 <= c < n && c != i
            ==> #[trigger] final(table)@[jj * n + c] == old(table)@[jj * n + c],
        final(table)@[i as int] == *base,
        forall|jj: int| 1 <= jj < h
            ==> (#[trigger] final(table)@[jj * n + i])@
                == (pow2(width as nat) * final(table)@[(jj - 1) * n + i]@) % order(),
{
    let ghost w = width as nat;
    let mut tmp = *base;
    let mut j: usize = 0;
    while j < h
        invariant
            table@.len() == n * h,
            n * h <= usize::MAX,
            points_wf(table@),
            i < n,
            2 <= h <= 256,
            q == pow2(w),
            w == width as nat,
            1 <= width,
            0 <= j <= h,
            tmp.wf(),
            forall|jj: int, c: int| 0 <= jj < h && 0 <= c < n && c != i
                ==> #[trigger] table@[jj * n + c] == old(table)@[jj * n + c],
            j >= 1 ==> table@[i as int] == *base,
            j == 0 ==> tmp == *base,
            j >= 1 ==> tmp@ == (pow2(w) * table@[(j - 1) * n + i]@) % order(),
            forall|jj: int| 1 <= jj < j
                ==> (#[trigger] table@[jj * n + i as int])@
                    == (pow2(w) * table@[(jj - 1) * n + i]@) % order(),
        decreases h - j,
    {
        proof {
            lemma_mul_inequality(j as int + 1, h as int, n as int);
            lemma_mul_is_commutative(j as int + 1, n as int);
            lemma_mul_is_commutative(h as int, n as int);
            lemma_mul_is_distributive_add_other_way(n as int, j as int, 1);
            vstd::arithmetic::mul::lemma_mul_nonnegative(j as int, n as int);
        }
        let idx = j * n + i;
        let ghost before = table@;
        table.set(idx, tmp);
        let old_tmp = tmp;
        tmp = tmp.mul_u64(q);
        proof {
            lemma_fill_step(
                before, table@, old(table)@, *base, old_tmp, n as int, h as int,
                i as int, j as int, w);
        }
        j = j + 1;
    }
}

impl BgmwTable {
    /// Builds a precomputation table for a point list under a chosen
    /// window parameter. Fails only when the requested matrix cannot
    /// be addressed; otherwise each column `i` holds the powers
    /// `points[i] * 2^(j * width)` for every row `j`.
    pub fn new_with_window(points: &[GroupElement], window: BgmwWindow) -> (r: Result<
        Option<BgmwTable>,
        MsmError,
    >)
        requires
            points_wf(points@),
            window_wf(window, points@.len()),
        ensures
            match r {
                Ok(ot) => {
                    &&& ot matches Some(t)
                    &&& t.wf()
                    &&& t.window == window
                    &&& t.numpoints == points@.len()
                    &&& t.base_points() == points@
                    &&& points@.len() * spec_table_dimensions(window).1 <= usize::MAX
                },
                Err(e) => {
                    &&& e == MsmError::TableTooLarge
                    &&& points@.len() * spec_table_dimensions(window).1 > usize::MAX
                },
            },
    {
        let (width, h) = get_table_dimensions(window);
        let ghost w = width as nat;
        let n = points.len();
        proof {
            lemma_h_for_width(w);
        }
        if n > 0 && h > usize::MAX / n {
            proof {
                vstd::arithmetic::div_mod::lemma_fundamental_div_mod(
                    usize::MAX as int, n as int);
                vstd::arithmetic::div_mod::lemma_mod_bound(usize::MAX as int, n as int);
                lemma_mul_inequality(
                    usize::MAX as int / n as int + 1, h as int, n as int);
                lemma_mul_is_commutative(
                    usize::MAX as int / n as int + 1, n as int);
                lemma_mul_is_commutative(h as int, n as int);
                lemma_mul_is_distributive_add_other_way(
                    n as int, usize::MAX as int / n as int, 1);
                assert(points@.len() * spec_table_dimensions(window).1 > usize::MAX);
            }
            return Err(MsmError::TableTooLarge);
        }
        proof {
            if n > 0 {
                vstd::arithmetic::div_mod::lemma_fundamental_div_mod(
                    usize::MAX as int, n as int);
                vstd::arithmetic::div_mod::lemma_mod_bound(usize::MAX as int, n as int);
                lemma_mul_inequality(
                    h as int, usize::MAX as int / n as int, n as int);
                lemma_mul_is_commutative(
                    usize::MAX as int / n as int, n as int);
                lemma_mul_is_commutative(h as int, n as int);
                vstd::arithmetic::mul::lemma_mul_nonnegative(
                    usize::MAX as int / n as int, n as int);
            } else {
                assert(0 * h as int == 0);
            }
        }
        let size: usize = n * h;
        proof {
            vstd::bits::lemma_u64_pow2_no_overflow(w);
        }
        let q: u64 = 1u64 << (width as u64);
        proof {
            vstd::bits::lemma_u64_shl_is_mul(1u64, width as u64);
        }
        let mut table = new_buckets(size);
        let mut i: usize = 0;
        while i < n
            invariant
                n == points@.len(),
                points_wf(points@),
                size == n * h,
                2 <= h <= 256,
                1 <= width <= MAX_WINDOW,
                w == width as nat,
                h == h_for_width(w),
                q == pow2(w),
                table@.len() == size,
                points_wf(table@),
                0 <= i <= n,
                forall|c: int| 0 <= c < i ==> #[trigger] table@[c] == points@[c],
                forall|j: int, c: int| 1 <= j < h && 0 <= c < i
                    ==> (#[trigger] table@[j * n + c])@
                        == (pow2(w) * table@[(j - 1) * n + c]@) % order(),
            decreases n - i,
        {
            let ghost before = table@;
            fill_column(&mut table, &points[i], i, n, h, width, q);
            proof {
                // Columns already filled keep every cell.
                assert forall|j: int, c: int| 1 <= j < h && 0 <= c < i implies
                    (#[trigger] table@[j * n + c])@
                        == (pow2(w) * table@[(j - 1) * n + c]@) % order() by {
                    vstd::arithmetic::mul::lemma_mul_nonnegative(j - 1, n as int);
                    vstd::arithmetic::mul::lemma_mul_nonnegative(j, n as int);
                    lemma_mul_inequality(j + 1, h as int, n as int);
                    lemma_mul_is_commutative(j + 1, n as int);
                    lemma_mul_is_commutative(h as int, n as int);
                    lemma_mul_is_distributive_add_other_way(n as int, j, 1);
                    assert(table@[j * n + c] == before[j * n + c]);
                    assert(table@[(j - 1) * n + c] == before[(j - 1) * n + c]);
                }
                assert forall|c: int| 0 <= c < i implies
                    #[trigger] table@[c] == points@[c] by {
                    assert(0 * n as int == 0);
                    assert(table@[0 * n + c] == before[0 * n + c]);
                }
                assert(table@[i as int] == points@[i as int]);
            }
            i = i + 1;
        }
        let t = BgmwTable { window, points: table, numpoints: n, h };
        proof {
            assert(t.base_points() =~= points@) by {
                lemma_mul_inequality(1, h as int, n as int);
                lemma_mul_is_commutative(h as int, n as int);
            }
            assert(t.consistent());
        }
        Ok(Some(t))
    }

    /// Builds a table with the window parameter the policy picks for
    /// this point count on this machine: a tiling only when the input
    /// exceeds 32 points (and the machine offers more than two
    /// workers), the plain sequential width otherwise. Succeeds
    /// whenever the matrix of any selectable shape fits; `h` never
    /// exceeds 256 rows.
    pub fn new(points: &[GroupElement]) -> (r: Result<Option<BgmwTable>, MsmError>)
        requires
            points_wf(points@),
        ensures
            match r {
                Ok(ot) => {
                    &&& ot matches Some(t)
                    &&& t.wf()
                    &&& t.numpoints == points@.len()
                    &&& t.base_points() == points@
                    &&& (points@.len() <= 32 ==> t.window matches BgmwWindow::Sync(_))
                    &&& (t.window matches BgmwWindow::Parallel(nx, ny, w) ==> {
                        &&& points@.len() > 32
                        &&& 1 <= nx <= points@.len()
                        &&& ny == h_for_width(w as nat)
                    })
                },
                Err(e) => {
                    &&& e == MsmError::TableTooLarge
                    &&& points@.len() * 256 > usize::MAX
                },
            },
    {
        let win = window(points.len());
        let ghost w = spec_table_dimensions(win).0;
        let ghost hs = spec_table_dimensions(win).1;
        proof {
            lemma_h_for_width(w);
        }
        let r = Self::new_with_window(points, win);
        proof {
            if r is Err {
                lemma_mul_inequality(hs as int, 256, points@.len() as int);
                lemma_mul_is_commutative(hs as int, points@.len() as int);
                lemma_mul_is_commutative(256, points@.len() as int);
            }
        }
        r
    }
}

impl PartialEq for BgmwTable {
    /// Two tables are equal when every stored field agrees.
    fn eq(&self, other: &Self) -> (r: bool) {
        if !(self.window == other.window && self.numpoints == other.numpoints
            && self.h == other.h && self.points.len() == other.points.len()) {
            return false;
        }
        let len = self.points.len();
        let mut i: usize = 0;
        while i < len
            invariant
                len == self.points@.len() == other.points@.len(),
                0 <= i <= len,
                forall|k: int| 0 <= k < i ==> #[trigger] self.points@[k] == other.points@[k],
            decreases len - i,
        {
            if !(self.points[i].value == other.points[i].value) {
                return false;
            }
            i = i + 1;
        }
        proof {
            assert(self.points@ =~= other.points@);
        }
        true
    }
}

impl vstd::std_specs::cmp::PartialEqSpecImpl for BgmwTable {
    open spec fn obeys_eq_spec() -> bool {
        true
    }

    open spec fn eq_spec(&self, other: &Self) -> bool {
        &&& self.window == other.window
        &&& self.numpoints == other.numpoints
        &&& self.h == other.h
        &&& self.points@ == other.points@
    }
}

/// The naive reference: multiplies every point by its scalar directly
/// and sums the results — `O(n * bits)` work, used to cross-check the
/// bucket method.
pub fn msm_naive(points: &[GroupElement], scalars: &[Scalar256]) -> (r: GroupElement)
    requires
        points_wf(points@),
        points@.len() == scalars@.len(),
    ensures
        r.wf(),
        r@ == msm_value(points@, scalars@) % order(),
{
    let ghost f = |i: int| scalar_value(scalars@[i]) as int * points@[i]@;
    let mut acc = GroupElement { value: 0 };
    proof {
        vstd::arithmetic::div_mod::lemma_small_mod(0, GROUP_ORDER as nat);
    }
    let n = scalars.len();
    let mut i: usize = 0;
    while i < n
        invariant
            n == scalars@.len() == points@.len(),
            points_wf(points@),
            0 <= i <= n,
            acc.wf(),
            acc@ == sum_of(i as nat, f) % order(),
            f == (|k: int| scalar_value(scalars@[k]) as int * points@[k]@),
        decreases n - i,
    {
        let term = points[i].mul_scalar(&scalars[i]);
        acc = acc.add(&term);
        proof {
            lemma_mod_add_cong(
                sum_of(i as nat, f) % order(), sum_of(i as nat, f),
                term@, f(i as int), order());
            vstd::arithmetic::div_mod::lemma_mod_twice(sum_of(i as nat, f), order());
            vstd::arithmetic::div_mod::lemma_mod_twice(f(i as int), order());
            lemma_mod_add_cong(
                sum_of(i as nat, f), sum_of(i as nat, f), term@, f(i as int), order());
            assert(sum_of((i + 1) as nat, f) == sum_of(i as nat, f) + f(i as int));
        }
        i = i + 1;
    }
    acc
}

/// Law: the two multiplication paths agree. Any results meeting the
/// sequential and the parallel contract on the same table and scalars
/// are the same group element, bit for bit.
pub proof fn lemma_parallel_matches_sequential(
    t: BgmwTable,
    scalars: Seq<Scalar256>,
    r_seq: GroupElement,
    r_par: GroupElement,
)
    requires
        r_seq.wf(),
        r_par.wf(),
        r_seq@ == msm_value(t.base_points(), scalars) % order(),
        r_par@ == msm_value(t.base_points(), scalars) % order(),
    ensures
        r_seq == r_par,
{
    assert(r_seq.value == r_par.value);
}

/// Law: the bucket method agrees with the naive reference. Any result
/// meeting a multiplication path's contract on a table built over
/// `points` equals any result meeting `msm_naive`'s contract on the
/// same points and scalars.
pub proof fn lemma_bucket_matches_naive(
    t: BgmwTable,
    points: Seq<GroupElement>,
    scalars: Seq<Scalar256>,
    r_bucket: GroupElement,
    r_naive: GroupElement,
)
    requires
        t.base_points() == points,
        r_bucket.wf(),
        r_naive.wf(),
        r_bucket@ == msm_value(t.base_points(), scalars) % order(),
        r_naive@ == msm_value(points, scalars) % order(),
    ensures
        r_bucket == r_naive,
{
    assert(r_bucket.value == r_naive.value);
}

} // verus!
