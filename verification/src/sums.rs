//! Finite sums of integer-valued functions, with the algebra the MSM
//! proofs need: extensionality, splitting, term-wise congruence modulo
//! the group order, factoring a constant out, and regrouping a sum over
//! a rectangle of indices.

use vstd::prelude::*;
use vstd::arithmetic::div_mod::{lemma_add_mod_noop, lemma_mul_mod_noop_right};
use vstd::arithmetic::mul::{
    lemma_mul_is_distributive_add_other_way, lemma_mul_is_distributive_add,
};

verus! {

/// `sum_of(n, f)` is `f(0) + f(1) + ... + f(n - 1)`.
pub open spec fn sum_of(n: nat, f: spec_fn(int) -> int) -> int
    decreases n,
{
    if n == 0 {
        0
    } else {
        sum_of((n - 1) as nat, f) + f(n - 1)
    }
}

/// Functions equal on `[0, n)` have equal sums.
pub proof fn lemma_sum_ext(n: nat, f: spec_fn(int) -> int, g: spec_fn(int) -> int)
    requires
        forall|i: int| 0 <= i < n ==> #[trigger] f(i) == g(i),
    ensures
        sum_of(n, f) == sum_of(n, g),
    decreases n,
{
    if n > 0 {
        lemma_sum_ext((n - 1) as nat, f, g);
    }
}

/// A sum splits at any interior point.
pub proof fn lemma_sum_split(a: nat, b: nat, f: spec_fn(int) -> int)
    ensures
        sum_of((a + b) as nat, f) == sum_of(a, f) + sum_of(b, |i: int| f(a + i)),
    decreases b,
{
    let shifted = |i: int| f(a + i);
    if b == 0 {
    } else {
        lemma_sum_split(a, (b - 1) as nat, f);
        assert(shifted(b - 1) == f(a + b - 1));
    }
}

/// Sums of term-wise congruent functions are congruent.
pub proof fn lemma_sum_mod_cong(n: nat, f: spec_fn(int) -> int, g: spec_fn(int) -> int, m: int)
    requires
        m > 0,
        forall|i: int| 0 <= i < n ==> #[trigger] f(i) % m == #[trigger] g(i) % m,
    ensures
        sum_of(n, f) % m == sum_of(n, g) % m,
    decreases n,
{
    if n > 0 {
        lemma_sum_mod_cong((n - 1) as nat, f, g, m);
        lemma_add_mod_noop(sum_of((n - 1) as nat, f), f(n - 1), m);
        lemma_add_mod_noop(sum_of((n - 1) as nat, g), g(n - 1), m);
    }
}

/// Adding a congruent term keeps sums congruent; the workhorse for the
/// bucket loops, which track a partial sum modulo the group order.
pub proof fn lemma_mod_add_cong(a: int, b: int, c: int, d: int, m: int)
    requires
        m > 0,
        a % m == b % m,
        c % m == d % m,
    ensures
        (a + c) % m == (b + d) % m,
{
    lemma_add_mod_noop(a, c, m);
    lemma_add_mod_noop(b, d, m);
}

/// A constant factor moves out of a sum.
pub proof fn lemma_sum_factor(n: nat, f: spec_fn(int) -> int, c: int)
    ensures
        sum_of(n, |i: int| c * f(i)) == c * sum_of(n, f),
    decreases n,
{
    let cf = |i: int| c * f(i);
    if n == 0 {
        assert(c * 0 == 0);
    } else {
        lemma_sum_factor((n - 1) as nat, f, c);
        assert(c * (sum_of((n - 1) as nat, f) + f(n - 1))
            == c * sum_of((n - 1) as nat, f) + c * f(n - 1)) by {
            lemma_mul_is_distributive_add(c, sum_of((n - 1) as nat, f), f(n - 1));
        }
    }
}

/// Sums distribute over term-wise addition.
pub proof fn lemma_sum_add(n: nat, f: spec_fn(int) -> int, g: spec_fn(int) -> int)
    ensures
        sum_of(n, |i: int| f(i) + g(i)) == sum_of(n, f) + sum_of(n, g),
    decreases n,
{
    if n > 0 {
        lemma_sum_add((n - 1) as nat, f, g);
    }
}

/// A sum over `rows * cols` indices regroups into a sum of row sums.
pub proof fn lemma_sum_blocks(rows: nat, cols: nat, f: spec_fn(int) -> int)
    ensures
        sum_of((rows * cols) as nat, f)
            == sum_of(rows, |r: int| sum_of(cols, |c: int| f(r * cols + c))),
    decreases rows,
{
    let row_sum = |r: int| sum_of(cols, |c: int| f(r * cols + c));
    if rows == 0 {
        assert(rows * cols == 0);
    } else {
        let prev = (rows - 1) as nat;
        assert(rows * cols == prev * cols + cols) by {
            lemma_mul_is_distributive_add_other_way(cols as int, prev as int, 1);
        }
        lemma_sum_blocks(prev, cols, f);
        lemma_sum_split((prev * cols) as nat, cols, f);
        let shifted = |i: int| f(prev * cols + i);
        let last_row = |c: int| f(prev as int * cols + c);
        assert(forall|i: int| 0 <= i < cols ==> #[trigger] shifted(i) == last_row(i));
        lemma_sum_ext(cols, shifted, last_row);
    }
}

/// Double sums swap their order of summation.
pub proof fn lemma_sum_swap(m: nat, n: nat, f: spec_fn(int, int) -> int)
    ensures
        sum_of(m, |k: int| sum_of(n, |i: int| f(k, i)))
            == sum_of(n, |i: int| sum_of(m, |k: int| f(k, i))),
    decreases m,
{
    let outer_m = |k: int| sum_of(n, |i: int| f(k, i));
    let outer_n = |i: int| sum_of(m, |k: int| f(k, i));
    if m == 0 {
        let zero = |i: int| 0;
        assert(forall|i: int| 0 <= i < n ==> #[trigger] outer_n(i) == zero(i));
        lemma_sum_ext(n, outer_n, zero);
        lemma_sum_zero(n);
    } else {
        let prev = (m - 1) as nat;
        lemma_sum_swap(prev, n, f);
        let prev_n = |i: int| sum_of(prev, |k: int| f(k, i));
        let last = |i: int| f(m - 1, i);
        lemma_sum_add(n, prev_n, last);
        let combined = |i: int| prev_n(i) + last(i);
        assert(forall|i: int| 0 <= i < n ==> #[trigger] outer_n(i) == combined(i));
        lemma_sum_ext(n, outer_n, combined);
    }
}

/// The sum of the zero function is zero.
pub proof fn lemma_sum_zero(n: nat)
    ensures
        sum_of(n, |i: int| 0) == 0,
    decreases n,
{
    if n > 0 {
        lemma_sum_zero((n - 1) as nat);
    }
}

/// Multiplying term-wise by congruent factors keeps a factored sum congruent.
pub proof fn lemma_mul_mod_cong(a: int, b: int, c: int, m: int)
    requires
        m > 0,
        a % m == b % m,
    ensures
        (c * a) % m == (c * b) % m,
{
    lemma_mul_mod_noop_right(c, a, m);
    lemma_mul_mod_noop_right(c, b, m);
}

} // verus!
