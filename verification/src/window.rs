//! Window-width policy: how many scalar bits each precomputation row
//! covers, how many rows a table needs, and the tiling shape used by
//! the parallel path.

use vstd::prelude::*;
use vstd::arithmetic::div_mod::{
    lemma_fundamental_div_mod, lemma_div_multiples_vanish_fancy, lemma_mod_bound,
};
use crate::scalar::NBITS;

verus! {

/// Largest accepted window width: the bucket array, of `2^(width-1)`
/// slots, must stay addressable on every target.
pub const MAX_WINDOW: usize = 31;

/// Window parameter of a table: a plain width for single-threaded
/// evaluation, or a 2-D tiling `(nx, ny, width)` splitting the point
/// range into `nx` column tiles and the bit range into `ny` row tiles.
#[derive(Clone, Copy, PartialEq, Eq, Structural, Debug)]
pub enum BgmwWindow {
    Sync(usize),
    Parallel(usize, usize, usize),
}

/// Number of precomputation rows for a window width: the bit range is
/// split into ceil(NBITS / w) windows, and one extra row catches the
/// carry out of the top window when the width divides NBITS evenly.
pub open spec fn h_for_width(w: nat) -> nat
    recommends
        w >= 1,
{
    (255 + w - 1) as nat / w + if 255nat % w == 0 { 1nat } else { 0nat }
}

/// The row count always equals `floor(NBITS / w) + 1`, the top row
/// covers the bits left over above the full windows, and that leftover
/// is smaller than the width.
pub proof fn lemma_h_for_width(w: nat)
    requires
        1 <= w <= 255,
    ensures
        h_for_width(w) == 255nat / w + 1,
        (h_for_width(w) - 1) * w + 255nat % w == 255,
        255nat % w < w,
        2 <= h_for_width(w) <= 256,
{
    let q = 255nat / w;
    let r = 255nat % w;
    lemma_fundamental_div_mod(255, w as int);
    lemma_mod_bound(255, w as int);
    if r == 0 {
        // (255 + w - 1) / w == q: 255 + w - 1 == w * q + (w - 1)
        assert((w * q + (w - 1)) as int / w as int == q) by {
            lemma_div_multiples_vanish_fancy(q as int, w as int - 1, w as int);
        }
        assert(255 + w - 1 == w * q + (w - 1));
    } else {
        // (255 + w - 1) / w == q + 1: 255 + w - 1 == w * (q + 1) + (r - 1)
        assert((w * (q + 1) + (r - 1)) as int / w as int == q + 1) by {
            lemma_div_multiples_vanish_fancy(q as int + 1, r as int - 1, w as int);
        }
        assert(w * (q + 1) == w * q + w) by {
            vstd::arithmetic::mul::lemma_mul_is_distributive_add(w as int, q as int, 1);
        }
        assert(255 + w - 1 == w * (q + 1) + (r - 1));
    }
    assert(q * w == w * q) by {
        vstd::arithmetic::mul::lemma_mul_is_commutative(q as int, w as int);
    }
    assert(q >= 1) by {
        if q == 0 {
            assert(255 == w * 0 + r);
        }
    }
    assert(q <= 255) by {
        if q > 255 {
            assert(w * q >= q) by {
                vstd::arithmetic::mul::lemma_mul_ordering(w as int, q as int);
            }
        }
    }
}

/// Bit width of precomputation row `k` (row `h - 1` is the boundary
/// row above the last full window).
pub open spec fn row_wbits(w: nat, h: nat, k: int) -> nat
    recommends
        1 <= w,
        h == h_for_width(w),
        0 <= k < h,
{
    if k == h - 1 {
        (255 - (h - 1) * w) as nat
    } else {
        w
    }
}

/// Booth digit size of precomputation row `k`: the boundary row keeps
/// one extra carry bit, so its digit never goes negative.
pub open spec fn row_cbits(w: nat, h: nat, k: int) -> nat
    recommends
        1 <= w,
        h == h_for_width(w),
        0 <= k < h,
{
    if k == h - 1 {
        (row_wbits(w, h, k) + 1) as nat
    } else {
        w
    }
}

/// A window parameter fit for a table over `npoints` points.
pub open spec fn window_wf(win: BgmwWindow, npoints: nat) -> bool {
    match win {
        BgmwWindow::Sync(w) => 1 <= w <= MAX_WINDOW,
        BgmwWindow::Parallel(nx, ny, w) => {
            &&& 1 <= w <= MAX_WINDOW
            &&& ny == h_for_width(w as nat)
            &&& 1 <= nx <= npoints
        },
    }
}

/// The width and row count a window parameter gives a table.
pub open spec fn spec_table_dimensions(win: BgmwWindow) -> (nat, nat) {
    match win {
        BgmwWindow::Sync(w) => (w as nat, h_for_width(w as nat)),
        BgmwWindow::Parallel(nx, ny, w) => (w as nat, ny as nat),
    }
}

/// Computes the row count for a window width.
pub fn rows_for_width(w: usize) -> (h: usize)
    requires
        1 <= w <= MAX_WINDOW,
    ensures
        h == h_for_width(w as nat),
        2 <= h <= 256,
{
    proof {
        lemma_h_for_width(w as nat);
    }
    (NBITS + w - 1) / w + if NBITS % w == 0 { 1 } else { 0 }
}

/// Width and row count of the table a window parameter describes.
pub fn get_table_dimensions(window: BgmwWindow) -> (r: (usize, usize))
    requires
        window matches BgmwWindow::Sync(w) ==> 1 <= w <= MAX_WINDOW,
    ensures
        (r.0 as nat, r.1 as nat) == spec_table_dimensions(window),
{
    match window {
        BgmwWindow::Sync(w) => {
            let h = rows_for_width(w);
            (w, h)
        },
        BgmwWindow::Parallel(_nx, ny, w) => (w, ny),
    }
}

/// Window width of a single-threaded table. A tiled table has no
/// single sequential width; callers must not ask for one.
pub fn get_sequential_window_size(window: BgmwWindow) -> (r: usize)
    requires
        window matches BgmwWindow::Sync(_),
    ensures
        window == BgmwWindow::Sync(r),
{
    match window {
        BgmwWindow::Sync(w) => w,
        BgmwWindow::Parallel(_, _, _) => {
            proof {
                assert(false);
            }
            0
        },
    }
}

/// Pippenger cost-balancing heuristic: the window grows with the
/// logarithm of the point count, so table-build cost and bucket-method
/// cost stay in balance.
pub fn pippenger_window_size(npoints: usize) -> (r: usize)
    ensures
        1 <= r <= MAX_WINDOW,
{
    let mut bits: usize = 0;
    let mut n: usize = npoints;
    while n > 0
        invariant
            bits <= 64,
            n <= usize::MAX,
        decreases n,
    {
        n = n / 2;
        if bits < 64 {
            bits = bits + 1;
        }
    }
    if bits <= 2 {
        2
    } else if bits <= 12 {
        bits
    } else if bits <= 18 {
        bits - 3
    } else {
        if bits - 4 > MAX_WINDOW {
            MAX_WINDOW
        } else {
            bits - 4
        }
    }
}

/// Relies on `num_cpus::get`: the number of logical CPUs of the
/// current machine, documented to always be at least 1.
#[verifier::external_body]
fn hardware_workers() -> (n: usize)
    ensures
        n >= 1,
{
    num_cpus::get()
}

/// Picks the window parameter for a point count and a worker budget: a
/// 2-D tiling when the input is large and workers are plenty, the
/// plain sequential width otherwise. Pure policy; any result satisfies
/// `window_wf`.
pub fn select_window(npoints: usize, workers: usize) -> (r: BgmwWindow)
    ensures
        window_wf(r, npoints as nat),
        (npoints > 32 && workers > 2) <==> r matches BgmwWindow::Parallel(_, _, _),
        r matches BgmwWindow::Parallel(nx, ny, w) ==> {
            &&& nx == if workers < npoints { workers } else { npoints }
            &&& ny == h_for_width(w as nat)
        },
{
    // Hand-tuned override for point counts with exactly twelve
    // trailing zero bits, where a wider window measures faster.
    let w = if npoints % 8192 == 4096 {
        13
    } else {
        pippenger_window_size(npoints)
    };
    if npoints > 32 && workers > 2 {
        let ny = rows_for_width(w);
        let nx = if workers < npoints { workers } else { npoints };
        BgmwWindow::Parallel(nx, ny, w)
    } else {
        BgmwWindow::Sync(w)
    }
}

/// Window parameter for a table over `npoints` points, using the
/// machine's worker count.
pub fn window(npoints: usize) -> (r: BgmwWindow)
    ensures
        window_wf(r, npoints as nat),
        npoints <= 32 ==> r matches BgmwWindow::Sync(_),
        r matches BgmwWindow::Parallel(nx, ny, w) ==> {
            &&& npoints > 32
            &&& 1 <= nx <= npoints
            &&& ny == h_for_width(w as nat)
        },
{
    let workers = hardware_workers();
    select_window(npoints, workers)
}

} // verus!
