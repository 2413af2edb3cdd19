//! Binary format of a precomputation table.
//!
//! Layout, little-endian throughout: a window tag (`1` single-width,
//! `3` tiled), the window's fields, `numpoints`, `h`, then the
//! `numpoints * h` points row-major, each 8 bytes compressed or 16
//! bytes uncompressed. Reading validates everything — tag, width
//! bounds, dimensions, stream length, point canonicity and matrix
//! consistency — and accepts exactly the encodings `write_to_bytes`
//! produces: no corrupted stream yields a table.

use vstd::prelude::*;
use vstd::arithmetic::power2::{pow2, lemma_pow2_adds, lemma_pow2_pos, lemma2_to64};
use vstd::arithmetic::div_mod::{
    lemma_mod_bound, lemma_div_multiples_vanish_fancy,
    lemma_mod_multiples_vanish, lemma_div_denominator, lemma_fundamental_div_mod,
};
use vstd::arithmetic::mul::{
    lemma_mul_is_commutative, lemma_mul_inequality,
    lemma_mul_is_distributive_add_other_way, lemma_mul_nonnegative,
};
use crate::group::{GroupElement, order, GROUP_ORDER};
use crate::window::{BgmwWindow, MAX_WINDOW, h_for_width, rows_for_width, spec_table_dimensions};
use crate::table::{BgmwTable, MsmError, points_wf};

verus! {

/// Bytes of one point on disk, compressed.
pub const COMPRESSED_POINT_BYTES: usize = 8;

/// Bytes of one point on disk, uncompressed.
pub const UNCOMPRESSED_POINT_BYTES: usize = 16;

/// Size of one encoded point.
pub open spec fn point_size(compressed: bool) -> int {
    if compressed {
        8
    } else {
        16
    }
}

/// The `count` little-endian bytes of a value.
pub open spec fn le_bytes(v: nat, count: nat) -> Seq<u8> {
    Seq::new(count, |i: int| ((v / pow2((8 * i) as nat)) % 256) as u8)
}

/// The eight little-endian bytes of a 64-bit value.
pub open spec fn le8(v: u64) -> Seq<u8> {
    le_bytes(v as nat, 8)
}

/// The value little-endian bytes stand for.
pub open spec fn le_val(b: Seq<u8>) -> nat
    decreases b.len(),
{
    if b.len() == 0 {
        0
    } else {
        (b[0] + 256 * le_val(b.subrange(1, b.len() as int))) as nat
    }
}

/// Encoding of a window parameter: its tag, then its fields.
pub open spec fn window_bytes(win: BgmwWindow) -> Seq<u8> {
    match win {
        BgmwWindow::Sync(w) => le8(1) + le8(w as u64),
        BgmwWindow::Parallel(nx, ny, w) => le8(3) + le8(nx as u64) + le8(ny as u64) + le8(
            w as u64,
        ),
    }
}

/// Encoding of one point: its residue, and a zero upper word in the
/// uncompressed form.
pub open spec fn point_bytes(p: GroupElement, compressed: bool) -> Seq<u8> {
    if compressed {
        le8(p.value)
    } else {
        le8(p.value) + le8(0)
    }
}

/// Encoding of a point list, in order.
pub open spec fn points_bytes(pts: Seq<GroupElement>, compressed: bool) -> Seq<u8>
    decreases pts.len(),
{
    if pts.len() == 0 {
        Seq::empty()
    } else {
        point_bytes(pts[0], compressed) + points_bytes(
            pts.subrange(1, pts.len() as int),
            compressed,
        )
    }
}

/// The full encoding of a table.
pub open spec fn encode_table(t: BgmwTable, compressed: bool) -> Seq<u8> {
    window_bytes(t.window) + le8(t.numpoints as u64) + le8(t.h as u64) + points_bytes(
        t.points@,
        compressed,
    )
}

/// Decoding the little-endian bytes of a value gives the value back.
proof fn lemma_le_val_le_bytes(v: nat, count: nat)
    requires
        v < pow2((8 * count) as nat),
    ensures
        le_val(le_bytes(v, count)) == v,
    decreases count,
{
    let b = le_bytes(v, count);
    if count == 0 {
        assert(pow2(0) == 1) by {
            lemma2_to64();
        }
    } else {
        lemma2_to64();
        let rest = le_bytes(v / 256, (count - 1) as nat);
        assert(b.subrange(1, b.len() as int) =~= rest) by {
            assert forall|i: int| 0 <= i < count - 1 implies b.subrange(
                1,
                b.len() as int,
            )[i] == rest[i] by {
                lemma_pow2_adds(8, (8 * i) as nat);
                lemma_pow2_pos((8 * i) as nat);
                lemma_div_denominator(v as int, 256, pow2((8 * i) as nat) as int);
                assert(8 * (i + 1) == 8 + 8 * i);
            }
        }
        assert(v / 256 < pow2((8 * (count - 1)) as nat)) by {
            lemma_pow2_adds(8, (8 * (count - 1)) as nat);
            lemma_pow2_pos((8 * (count - 1)) as nat);
            vstd::arithmetic::div_mod::lemma_multiply_divide_lt(
                v as int, 256, pow2((8 * (count - 1)) as nat) as int);
            assert(8 * count == 8 + 8 * (count - 1));
        }
        lemma_le_val_le_bytes((v / 256) as nat, (count - 1) as nat);
        assert(b[0] == (v / pow2(0)) % 256);
        assert(pow2(0) == 1);
        lemma_fundamental_div_mod(v as int, 256);
    }
}

/// Decoding the eight little-endian bytes of a 64-bit value gives the
/// value back.
pub proof fn lemma_le_val_le8(v: u64)
    ensures
        le_val(le8(v)) == v,
{
    lemma2_to64();
    assert(pow2(64) == pow2((8 * 8) as nat));
    lemma_le_val_le_bytes(v as nat, 8);
}

/// Length of a point list's encoding (public form).
pub proof fn lemma_points_bytes_len_pub(pts: Seq<GroupElement>, compressed: bool)
    ensures
        points_bytes(pts, compressed).len() == pts.len() * point_size(compressed),
{
    lemma_points_bytes_len(pts, compressed);
}

/// Appending a point extends its list's encoding at the end.
pub proof fn lemma_points_bytes_push(pts: Seq<GroupElement>, x: GroupElement, compressed: bool)
    ensures
        points_bytes(pts.push(x), compressed) == points_bytes(pts, compressed) + point_bytes(
            x,
            compressed,
        ),
    decreases pts.len(),
{
    let p = pts.push(x);
    if pts.len() == 0 {
        assert(p.len() == 1);
        assert(p[0] == x);
        assert(p.subrange(1, p.len() as int) =~= Seq::<GroupElement>::empty());
        assert(points_bytes(p.subrange(1, p.len() as int), compressed)
            == Seq::<u8>::empty());
        assert(points_bytes(pts, compressed) == Seq::<u8>::empty());
        assert(points_bytes(p, compressed) =~= point_bytes(x, compressed));
        assert(points_bytes(pts, compressed) + point_bytes(x, compressed) =~= point_bytes(
            x,
            compressed,
        ));
    } else {
        assert(p.subrange(1, p.len() as int) =~= pts.subrange(1, pts.len() as int).push(x));
        lemma_points_bytes_push(pts.subrange(1, pts.len() as int), x, compressed);
        assert(points_bytes(p, compressed) =~= points_bytes(pts, compressed) + point_bytes(
            x,
            compressed,
        ));
    }
}

/// Length of a point list's encoding.
proof fn lemma_points_bytes_len(pts: Seq<GroupElement>, compressed: bool)
    ensures
        points_bytes(pts, compressed).len() == pts.len() * point_size(compressed),
    decreases pts.len(),
{
    if pts.len() == 0 {
        assert(0 * point_size(compressed) == 0);
    } else {
        lemma_points_bytes_len(pts.subrange(1, pts.len() as int), compressed);
        lemma_mul_is_distributive_add_other_way(point_size(compressed), pts.len() - 1, 1);
    }
}

/// Chunk `k` of a point list's encoding is point `k`'s encoding.
proof fn lemma_points_bytes_chunk(pts: Seq<GroupElement>, compressed: bool, k: int)
    requires
        0 <= k < pts.len(),
    ensures
        points_bytes(pts, compressed).subrange(
            k * point_size(compressed),
            (k + 1) * point_size(compressed),
        ) == point_bytes(pts[k], compressed),
    decreases k,
{
    let sz = point_size(compressed);
    lemma_points_bytes_len(pts, compressed);
    lemma_mul_inequality(k + 1, pts.len() as int, sz);
    lemma_mul_nonnegative(k, sz);
    if k == 0 {
        assert(0 * sz == 0);
        assert(points_bytes(pts, compressed).subrange(0, sz) =~= point_bytes(
            pts[0],
            compressed,
        ));
    } else {
        let rest = pts.subrange(1, pts.len() as int);
        lemma_points_bytes_chunk(rest, compressed, k - 1);
        lemma_points_bytes_len(rest, compressed);
        lemma_mul_inequality(k, pts.len() as int - 1, sz);
        lemma_mul_nonnegative(k - 1, sz);
        lemma_mul_is_distributive_add_other_way(sz, k - 1, 1);
        assert(points_bytes(pts, compressed).subrange(k * sz, (k + 1) * sz)
            =~= points_bytes(rest, compressed).subrange((k - 1) * sz, k * sz));
    }
}

/// Appends the eight little-endian bytes of a value.
pub fn push_u64_le(out: &mut Vec<u8>, v: u64)
    ensures
        final(out)@ == old(out)@ + le8(v),
{
    let mut x: u64 = v;
    let mut i: usize = 0;
    proof {
        lemma2_to64();
        vstd::arithmetic::div_mod::lemma_div_basics(v as int);
        assert(8 * 0 == 0);
    }
    while i < 8
        invariant
            0 <= i <= 8,
            out@.len() == old(out)@.len() + i,
            x as nat == v as nat / pow2((8 * i) as nat),
            forall|k: int| 0 <= k < old(out)@.len() ==> #[trigger] out@[k] == old(out)@[k],
            forall|k: int| old(out)@.len() <= k < out@.len()
                ==> #[trigger] out@[k] == le8(v)[k - old(out)@.len()],
        decreases 8 - i,
    {
        proof {
            lemma_pow2_pos((8 * i as int) as nat);
            assert(pow2(0) == 1) by {
                lemma2_to64();
            }
        }
        out.push((x % 256) as u8);
        proof {
            assert(out@[old(out)@.len() + i as int] == (x % 256) as u8);
            assert(le8(v)[i as int] == ((v as nat / pow2((8 * i) as nat)) % 256) as u8);
            lemma2_to64();
            lemma_pow2_adds((8 * i as int) as nat, 8);
            lemma_div_denominator(v as int, pow2((8 * i as int) as nat) as int, 256);
            assert(8 * (i + 1) == 8 * i + 8);
        }
        x = x / 256;
        i = i + 1;
    }
    proof {
        assert(out@.len() == old(out)@.len() + 8);
        assert(out@ =~= old(out)@ + le8(v));
    }
}

/// Reads eight little-endian bytes as a value.
fn read_u64_le(bytes: &[u8], pos: usize) -> (r: u64)
    requires
        pos + 8 <= bytes@.len(),
    ensures
        r as nat == le_val(bytes@.subrange(pos as int, pos as int + 8)),
{
    let blen = bytes.len();
    let mut v: u64 = 0;
    let mut i: usize = 8;
    proof {
        assert(le_val(bytes@.subrange(pos as int + 8, pos as int + 8)) == 0);
        lemma2_to64();
        assert(8 * 0 == 0);
    }
    while i > 0
        invariant
            blen == bytes@.len(),
            pos + 8 <= bytes@.len(),
            0 <= i <= 8,
            v as nat == le_val(bytes@.subrange(pos as int + i, pos as int + 8)),
            v < pow2((8 * (8 - i) as int) as nat),
        decreases i,
    {
        i = i - 1;
        let b = bytes[pos + i];
        proof {
            let tail = bytes@.subrange(pos as int + i + 1, pos as int + 8);
            let cur = bytes@.subrange(pos as int + i, pos as int + 8);
            assert(cur.subrange(1, cur.len() as int) =~= tail);
            assert(cur[0] == bytes@[pos as int + i]);
            // No overflow: the result stays under 2^(8 * bytes-read).
            let e = (8 * (7 - i) as int) as nat;
            lemma_pow2_adds(e, 8);
            lemma2_to64();
            assert(8 * (8 - i) as int == 8 * (7 - i) as int + 8);
            assert(pow2(e) * 256 == 256 * pow2(e)) by {
                lemma_mul_is_commutative(pow2(e) as int, 256);
            }
            if (8 * (8 - i) as int) < 64 {
                vstd::arithmetic::power2::lemma_pow2_strictly_increases(
                    (8 * (8 - i) as int) as nat, 64);
            }
            assert(256 * (v as int) <= 256 * (pow2(e) - 1));
        }
        v = b as u64 + 256 * v;
    }
    proof {
        assert(bytes@.subrange(pos as int + 0, pos as int + 8) =~= bytes@.subrange(
            pos as int,
            pos as int + 8,
        ));
    }
    v
}

impl BgmwTable {
    /// Appends the window parameter's encoding.
    pub fn write_window(&self, out: &mut Vec<u8>)
        ensures
            final(out)@ == old(out)@ + window_bytes(self.window),
    {
        match self.window {
            BgmwWindow::Sync(w) => {
                push_u64_le(out, 1);
                push_u64_le(out, w as u64);
            },
            BgmwWindow::Parallel(nx, ny, w) => {
                push_u64_le(out, 3);
                push_u64_le(out, nx as u64);
                push_u64_le(out, ny as u64);
                push_u64_le(out, w as u64);
            },
        }
        proof {
            assert(out@ =~= old(out)@ + window_bytes(self.window));
        }
    }

    /// Appends the point count.
    pub fn write_numpoints(&self, out: &mut Vec<u8>)
        ensures
            final(out)@ == old(out)@ + le8(self.numpoints as u64),
    {
        push_u64_le(out, self.numpoints as u64);
    }

    /// Appends the row count.
    pub fn write_h(&self, out: &mut Vec<u8>)
        ensures
            final(out)@ == old(out)@ + le8(self.h as u64),
    {
        push_u64_le(out, self.h as u64);
    }

    /// Appends every point's encoding, row-major.
    pub fn write_points(&self, out: &mut Vec<u8>, compressed: bool)
        ensures
            final(out)@ == old(out)@ + points_bytes(self.points@, compressed),
    {
        let n = self.points.len();
        let mut i: usize = 0;
        proof {
            assert(self.points@.subrange(0, 0) =~= Seq::<GroupElement>::empty());
            assert(out@ =~= old(out)@ + points_bytes(self.points@.subrange(0, 0), compressed));
        }
        while i < n
            invariant
                n == self.points@.len(),
                0 <= i <= n,
                out@ == old(out)@ + points_bytes(self.points@.subrange(0, i as int), compressed),
            decreases n - i,
        {
            push_u64_le(out, self.points[i].value);
            if !compressed {
                push_u64_le(out, 0);
            }
            proof {
                let prefix = self.points@.subrange(0, i as int);
                lemma_points_bytes_push(prefix, self.points@[i as int], compressed);
                assert(prefix.push(self.points@[i as int]) =~= self.points@.subrange(
                    0,
                    i as int + 1,
                ));
                assert(out@ =~= old(out)@ + points_bytes(
                    self.points@.subrange(0, i as int + 1),
                    compressed,
                ));
            }
            i = i + 1;
        }
        proof {
            assert(self.points@.subrange(0, n as int) =~= self.points@);
        }
    }

    /// Serializes the table.
    pub fn write_to_bytes(&self, compressed: bool) -> (r: Vec<u8>)
        ensures
            r@ == encode_table(*self, compressed),
    {
        let mut out: Vec<u8> = Vec::new();
        self.write_window(&mut out);
        self.write_numpoints(&mut out);
        self.write_h(&mut out);
        self.write_points(&mut out, compressed);
        proof {
            assert(out@ =~= encode_table(*self, compressed));
        }
        out
    }
}

/// A window parameter whose own fields are sound, before the point
/// count is known.
pub open spec fn window_basic_wf(win: BgmwWindow) -> bool {
    match win {
        BgmwWindow::Sync(w) => 1 <= w <= MAX_WINDOW,
        BgmwWindow::Parallel(nx, ny, w) => {
            &&& 1 <= w <= MAX_WINDOW
            &&& ny == h_for_width(w as nat)
            &&& nx >= 1
        },
    }
}

/// The pieces of a table's encoding, by offset.
proof fn lemma_encode_parts(t: BgmwTable, compressed: bool)
    ensures
        ({
            let e = encode_table(t, compressed);
            let wb = window_bytes(t.window);
            let wl = wb.len() as int;
            &&& wl == if t.window matches BgmwWindow::Sync(_) { 16int } else { 32int }
            &&& e.len() == wl + 16 + t.points@.len() * point_size(compressed)
            &&& e.subrange(0, wl) == wb
            &&& e.subrange(wl, wl + 8) == le8(t.numpoints as u64)
            &&& e.subrange(wl + 8, wl + 16) == le8(t.h as u64)
            &&& e.subrange(wl + 16, e.len() as int) == points_bytes(t.points@, compressed)
        }),
{
    let e = encode_table(t, compressed);
    let wb = window_bytes(t.window);
    let wl = wb.len() as int;
    lemma_points_bytes_len(t.points@, compressed);
    assert(e.subrange(0, wl) =~= wb);
    assert(e.subrange(wl, wl + 8) =~= le8(t.numpoints as u64));
    assert(e.subrange(wl + 8, wl + 16) =~= le8(t.h as u64));
    assert(e.subrange(wl + 16, e.len() as int) =~= points_bytes(t.points@, compressed));
}

/// The window encoding's pieces, by offset.
proof fn lemma_window_bytes_parts(win: BgmwWindow)
    ensures
        ({
            let wb = window_bytes(win);
            match win {
                BgmwWindow::Sync(w) => {
                    &&& wb.len() == 16
                    &&& wb.subrange(0, 8) == le8(1)
                    &&& wb.subrange(8, 16) == le8(w as u64)
                },
                BgmwWindow::Parallel(nx, ny, w) => {
                    &&& wb.len() == 32
                    &&& wb.subrange(0, 8) == le8(3)
                    &&& wb.subrange(8, 16) == le8(nx as u64)
                    &&& wb.subrange(16, 24) == le8(ny as u64)
                    &&& wb.subrange(24, 32) == le8(w as u64)
                },
            }
        }),
{
    let wb = window_bytes(win);
    match win {
        BgmwWindow::Sync(w) => {
            assert(wb.subrange(0, 8) =~= le8(1));
            assert(wb.subrange(8, 16) =~= le8(w as u64));
        },
        BgmwWindow::Parallel(nx, ny, w) => {
            assert(wb.subrange(0, 8) =~= le8(3));
            assert(wb.subrange(8, 16) =~= le8(nx as u64));
            assert(wb.subrange(16, 24) =~= le8(ny as u64));
            assert(wb.subrange(24, 32) =~= le8(w as u64));
        },
    }
}

/// Reads one length field: eight little-endian bytes that must fit the
/// machine's word.
pub fn read_usize(bytes: &[u8], pos: usize) -> (r: Result<(usize, usize), MsmError>)
    requires
        pos <= bytes@.len(),
    ensures
        match r {
            Ok((v, next)) => {
                &&& next == pos + 8 <= bytes@.len()
                &&& v as nat == le_val(bytes@.subrange(pos as int, pos as int + 8))
            },
            Err(e) => {
                &&& (e == MsmError::TruncatedStream || e == MsmError::BadDimensions)
                &&& (pos + 8 > bytes@.len() || le_val(
                    bytes@.subrange(pos as int, pos as int + 8)) > usize::MAX)
            },
        },
        r is Err <==> (pos + 8 > bytes@.len() || le_val(
            bytes@.subrange(pos as int, pos as int + 8)) > usize::MAX),
{
    if bytes.len() - pos < 8 {
        return Err(MsmError::TruncatedStream);
    }
    let v = read_u64_le(bytes, pos);
    if v > (usize::MAX as u64) {
        return Err(MsmError::BadDimensions);
    }
    Ok((v as usize, pos + 8))
}

/// Reads and validates the window parameter.
pub fn read_window(bytes: &[u8], pos: usize) -> (r: Result<(BgmwWindow, usize), MsmError>)
    requires
        pos <= bytes@.len(),
    ensures
        r matches Ok((win, next)) ==> {
            &&& window_basic_wf(win)
            &&& pos + window_bytes(win).len() == next <= bytes@.len()
            &&& bytes@.subrange(pos as int, next as int) == window_bytes(win)
        },
        forall|win: BgmwWindow|
            window_basic_wf(win) && pos + window_bytes(win).len() <= bytes@.len()
                && bytes@.subrange(
                pos as int,
                pos as int + window_bytes(win).len() as int,
            ) == window_bytes(win) ==> r == Ok::<_, MsmError>(
                (win, (pos + window_bytes(win).len()) as usize),
            ),
{
    proof {
        lemma_le_val_le8(1);
        lemma_le_val_le8(3);
    }
    let tag = match read_usize(bytes, pos) {
        Ok((v, _)) => v,
        Err(e) => {
            proof {
                assert forall|win: BgmwWindow|
                    window_basic_wf(win) && pos + window_bytes(win).len() <= bytes@.len()
                        && bytes@.subrange(
                        pos as int,
                        pos as int + window_bytes(win).len() as int,
                    ) == window_bytes(win) implies false by {
                    lemma_window_bytes_parts(win);
                    lemma_window_prefix(bytes@, pos as int, win);
                }
            }
            return Err(e);
        },
    };
    if tag == 1 {
        let (w, next) = match read_usize(bytes, pos + 8) {
            Ok(p) => p,
            Err(e) => {
                proof {
                    lemma_no_window_matches(bytes@, pos as int, 1);
                }
                return Err(e);
            },
        };
        if w < 1 || w > MAX_WINDOW {
            proof {
                lemma_no_window_matches(bytes@, pos as int, 1);
            }
            return Err(MsmError::BadDimensions);
        }
        proof {
            lemma_no_window_matches(bytes@, pos as int, 1);
            // The accepted bytes are exactly this window's encoding.
            lemma_le_val_le_bytes_inverse(bytes@.subrange(pos as int, pos as int + 8));
            assert(bytes@.subrange(pos as int, pos as int + 8) == le8(1));
            lemma_le_val_le_bytes_inverse(
                bytes@.subrange(pos as int + 8, pos as int + 16));
            assert(bytes@.subrange(pos as int + 8, pos as int + 16) == le8(w as u64));
            lemma_window_bytes_parts(BgmwWindow::Sync(w));
            assert(bytes@.subrange(pos as int, pos as int + 16) =~= window_bytes(
                BgmwWindow::Sync(w)));
        }
        Ok((BgmwWindow::Sync(w), next))
    } else if tag == 3 {
        let (nx, p1) = match read_usize(bytes, pos + 8) {
            Ok(p) => p,
            Err(e) => {
                proof {
                    lemma_no_window_matches(bytes@, pos as int, 3);
                }
                return Err(e);
            },
        };
        let (ny, p2) = match read_usize(bytes, p1) {
            Ok(p) => p,
            Err(e) => {
                proof {
                    lemma_no_window_matches(bytes@, pos as int, 3);
                }
                return Err(e);
            },
        };
        let (w, next) = match read_usize(bytes, p2) {
            Ok(p) => p,
            Err(e) => {
                proof {
                    lemma_no_window_matches(bytes@, pos as int, 3);
                }
                return Err(e);
            },
        };
        if w < 1 || w > MAX_WINDOW || nx < 1 {
            proof {
                lemma_no_window_matches(bytes@, pos as int, 3);
            }
            return Err(MsmError::BadDimensions);
        }
        let expected_ny = rows_for_width(w);
        if ny != expected_ny {
            proof {
                lemma_no_window_matches(bytes@, pos as int, 3);
            }
            return Err(MsmError::BadDimensions);
        }
        proof {
            lemma_no_window_matches(bytes@, pos as int, 3);
            // The accepted bytes are exactly this window's encoding.
            lemma_le_val_le_bytes_inverse(bytes@.subrange(pos as int, pos as int + 8));
            assert(bytes@.subrange(pos as int, pos as int + 8) == le8(3));
            lemma_le_val_le_bytes_inverse(
                bytes@.subrange(pos as int + 8, pos as int + 16));
            assert(bytes@.subrange(pos as int + 8, pos as int + 16) == le8(nx as u64));
            lemma_le_val_le_bytes_inverse(
                bytes@.subrange(pos as int + 16, pos as int + 24));
            assert(bytes@.subrange(pos as int + 16, pos as int + 24) == le8(ny as u64));
            lemma_le_val_le_bytes_inverse(
                bytes@.subrange(pos as int + 24, pos as int + 32));
            assert(bytes@.subrange(pos as int + 24, pos as int + 32) == le8(w as u64));
            lemma_window_bytes_parts(BgmwWindow::Parallel(nx, ny, w));
            assert(bytes@.subrange(pos as int, pos as int + 32) =~= window_bytes(
                BgmwWindow::Parallel(nx, ny, w)));
        }
        Ok((BgmwWindow::Parallel(nx, ny, w), next))
    } else {
        proof {
            assert forall|win: BgmwWindow|
                window_basic_wf(win) && pos + window_bytes(win).len() <= bytes@.len()
                    && bytes@.subrange(
                    pos as int,
                    pos as int + window_bytes(win).len() as int,
                ) == window_bytes(win) implies false by {
                lemma_window_bytes_parts(win);
                lemma_window_prefix(bytes@, pos as int, win);
            }
        }
        Err(MsmError::BadWindowTag)
    }
}

/// A window encoding in place pins the bytes of each of its fields.
proof fn lemma_window_prefix(bytes: Seq<u8>, pos: int, win: BgmwWindow)
    requires
        0 <= pos,
        pos + window_bytes(win).len() <= bytes.len(),
        bytes.subrange(pos, pos + window_bytes(win).len() as int) == window_bytes(win),
    ensures
        bytes.subrange(pos, pos + 8) == le8(
            match win {
                BgmwWindow::Sync(_) => 1u64,
                BgmwWindow::Parallel(_, _, _) => 3u64,
            },
        ),
        win matches BgmwWindow::Sync(w) ==> bytes.subrange(pos + 8, pos + 16) == le8(w as u64),
        win matches BgmwWindow::Parallel(nx, ny, w) ==> {
            &&& bytes.subrange(pos + 8, pos + 16) == le8(nx as u64)
            &&& bytes.subrange(pos + 16, pos + 24) == le8(ny as u64)
            &&& bytes.subrange(pos + 24, pos + 32) == le8(w as u64)
        },
{
    lemma_window_bytes_parts(win);
    let wb = window_bytes(win);
    match win {
        BgmwWindow::Sync(w) => {
            assert(bytes.subrange(pos, pos + 8) =~= wb.subrange(0, 8));
            assert(bytes.subrange(pos + 8, pos + 16) =~= wb.subrange(8, 16));
        },
        BgmwWindow::Parallel(nx, ny, w) => {
            assert(bytes.subrange(pos, pos + 8) =~= wb.subrange(0, 8));
            assert(bytes.subrange(pos + 8, pos + 16) =~= wb.subrange(8, 16));
            assert(bytes.subrange(pos + 16, pos + 24) =~= wb.subrange(16, 24));
            assert(bytes.subrange(pos + 24, pos + 32) =~= wb.subrange(24, 32));
        },
    }
}

/// Helper for the completeness direction of `read_window`: any valid
/// window whose encoding sits at `pos` has the tag the reader saw.
proof fn lemma_no_window_matches(bytes: Seq<u8>, pos: int, seen_tag: u64)
    requires
        0 <= pos,
    ensures
        forall|win: BgmwWindow| #![all_triggers]
            window_basic_wf(win) && pos + window_bytes(win).len() <= bytes.len()
                && bytes.subrange(pos, pos + window_bytes(win).len() as int)
                == window_bytes(win) ==> le_val(bytes.subrange(pos, pos + 8)) == (
            match win {
                BgmwWindow::Sync(w) => 1int,
                BgmwWindow::Parallel(_, _, _) => 3int,
            }) && (match win {
                BgmwWindow::Sync(w) => {
                    &&& le_val(bytes.subrange(pos + 8, pos + 16)) == w
                },
                BgmwWindow::Parallel(nx, ny, w) => {
                    &&& le_val(bytes.subrange(pos + 8, pos + 16)) == nx
                    &&& le_val(bytes.subrange(pos + 16, pos + 24)) == ny
                    &&& le_val(bytes.subrange(pos + 24, pos + 32)) == w
                },
            }),
{
    assert forall|win: BgmwWindow| #![all_triggers]
        window_basic_wf(win) && pos + window_bytes(win).len() <= bytes.len()
            && bytes.subrange(pos, pos + window_bytes(win).len() as int)
            == window_bytes(win) implies le_val(bytes.subrange(pos, pos + 8)) == (
        match win {
            BgmwWindow::Sync(w) => 1int,
            BgmwWindow::Parallel(_, _, _) => 3int,
        }) && (match win {
            BgmwWindow::Sync(w) => {
                &&& le_val(bytes.subrange(pos + 8, pos + 16)) == w
            },
            BgmwWindow::Parallel(nx, ny, w) => {
                &&& le_val(bytes.subrange(pos + 8, pos + 16)) == nx
                &&& le_val(bytes.subrange(pos + 16, pos + 24)) == ny
                &&& le_val(bytes.subrange(pos + 24, pos + 32)) == w
            },
        }) by {
        lemma_window_prefix(bytes, pos, win);
        lemma_le_val_le8(1);
        lemma_le_val_le8(3);
        match win {
            BgmwWindow::Sync(w) => {
                lemma_le_val_le8(w as u64);
            },
            BgmwWindow::Parallel(nx, ny, w) => {
                lemma_le_val_le8(nx as u64);
                lemma_le_val_le8(ny as u64);
                lemma_le_val_le8(w as u64);
            },
        }
    }
}

/// The stored residue of encoded point `k` in a point block starting
/// at `pos`.
pub open spec fn chunk_val(bytes: Seq<u8>, pos: int, k: int, compressed: bool) -> nat {
    le_val(bytes.subrange(pos + k * point_size(compressed), pos + k * point_size(compressed) + 8))
}

/// The stored upper word of encoded point `k` (uncompressed form).
pub open spec fn chunk_hi_val(bytes: Seq<u8>, pos: int, k: int, compressed: bool) -> nat {
    le_val(
        bytes.subrange(
            pos + k * point_size(compressed) + 8,
            pos + k * point_size(compressed) + 16,
        ),
    )
}

/// A point block in place pins each point's stored words.
pub proof fn lemma_points_in_place(
    bytes: Seq<u8>,
    pos: int,
    ps: Seq<GroupElement>,
    compressed: bool,
    k: int,
)
    requires
        0 <= pos,
        0 <= k < ps.len(),
        pos + ps.len() * point_size(compressed) <= bytes.len(),
        bytes.subrange(pos, pos + ps.len() * point_size(compressed)) == points_bytes(
            ps,
            compressed,
        ),
    ensures
        chunk_val(bytes, pos, k, compressed) == ps[k].value,
        !compressed ==> chunk_hi_val(bytes, pos, k, compressed) == 0,
{
    let sz = point_size(compressed);
    lemma_points_bytes_chunk(ps, compressed, k);
    lemma_points_bytes_len(ps, compressed);
    lemma_mul_nonnegative(k, sz);
    lemma_mul_inequality(k + 1, ps.len() as int, sz);
    lemma_mul_is_distributive_add_other_way(sz, k, 1);
    assert(bytes.subrange(pos + k * sz, pos + (k + 1) * sz) =~= points_bytes(
        ps,
        compressed,
    ).subrange(k * sz, (k + 1) * sz));
    let chunk = point_bytes(ps[k], compressed);
    assert(bytes.subrange(pos + k * sz, pos + k * sz + 8) =~= chunk.subrange(0, 8));
    assert(chunk.subrange(0, 8) =~= le8(ps[k].value));
    lemma_le_val_le8(ps[k].value);
    if !compressed {
        assert(bytes.subrange(pos + k * sz + 8, pos + k * sz + 16) =~= chunk.subrange(8, 16));
        assert(chunk.subrange(8, 16) =~= le8(0));
        lemma_le_val_le8(0);
    }
}

/// Reads and validates `count` points starting at `pos`; the caller
/// has already checked that the block fits the stream.
pub fn read_points(bytes: &[u8], pos: usize, count: usize, compressed: bool) -> (r: Result<
    Vec<GroupElement>,
    MsmError,
>)
    requires
        pos + count * point_size(compressed) <= bytes@.len(),
    ensures
        match r {
            Ok(pts) => {
                &&& pts@.len() == count
                &&& points_wf(pts@)
                &&& forall|k: int| 0 <= k < count
                    ==> (#[trigger] pts@[k]).value as nat == chunk_val(
                        bytes@, pos as int, k, compressed)
                &&& forall|k: int| 0 <= k < count && !compressed
                    ==> chunk_hi_val(bytes@, pos as int, #[trigger] (k * 1), compressed) == 0
            },
            Err(e) => {
                &&& e == MsmError::InvalidPoint
                &&& exists|k: int|
                    #![trigger chunk_val(bytes@, pos as int, k, compressed)]
                    #![trigger chunk_hi_val(bytes@, pos as int, k, compressed)]
                    0 <= k < count
                    && (chunk_val(bytes@, pos as int, k, compressed) >= GROUP_ORDER
                        || (!compressed && chunk_hi_val(bytes@, pos as int, k, compressed)
                            != 0))
            },
        },
{
    let sz: usize = if compressed {
        COMPRESSED_POINT_BYTES
    } else {
        UNCOMPRESSED_POINT_BYTES
    };
    let blen = bytes.len();
    let mut pts: Vec<GroupElement> = Vec::new();
    let mut k: usize = 0;
    while k < count
        invariant
            pos + count * point_size(compressed) <= bytes@.len(),
            blen == bytes@.len(),
            sz == point_size(compressed),
            0 <= k <= count,
            pts@.len() == k,
            points_wf(pts@),
            forall|j: int| 0 <= j < k
                ==> (#[trigger] pts@[j]).value as nat == chunk_val(
                    bytes@, pos as int, j, compressed),
            forall|j: int| 0 <= j < k && !compressed
                ==> chunk_hi_val(bytes@, pos as int, #[trigger] (j * 1), compressed) == 0,
        decreases count - k,
    {
        proof {
            lemma_mul_nonnegative(k as int, sz as int);
            lemma_mul_inequality(k as int + 1, count as int, sz as int);
            lemma_mul_is_distributive_add_other_way(sz as int, k as int, 1);
            lemma_mul_inequality(k as int, count as int, sz as int);
        }
        let base = pos + k * sz;
        let v = read_u64_le(bytes, base);
        if v >= GROUP_ORDER {
            proof {
                let kk = k as int;
                assert(0 <= kk < count && (chunk_val(bytes@, pos as int, kk, compressed)
                    >= GROUP_ORDER || (!compressed && chunk_hi_val(
                    bytes@, pos as int, kk, compressed) != 0)));
                assert(exists|j: int|
                    #![trigger chunk_val(bytes@, pos as int, j, compressed)]
                    #![trigger chunk_hi_val(bytes@, pos as int, j, compressed)]
                    0 <= j < count
                    && (chunk_val(bytes@, pos as int, j, compressed) >= GROUP_ORDER
                        || (!compressed && chunk_hi_val(bytes@, pos as int, j, compressed)
                            != 0)));
            }
            return Err(MsmError::InvalidPoint);
        }
        if !compressed {
            let hi = read_u64_le(bytes, base + 8);
            if hi != 0 {
                proof {
                    let kk = k as int;
                    assert(0 <= kk < count && (chunk_val(bytes@, pos as int, kk, compressed)
                        >= GROUP_ORDER || (!compressed && chunk_hi_val(
                        bytes@, pos as int, kk, compressed) != 0)));
                    assert(exists|j: int|
                        #![trigger chunk_val(bytes@, pos as int, j, compressed)]
                        #![trigger chunk_hi_val(bytes@, pos as int, j, compressed)]
                        0 <= j < count
                        && (chunk_val(bytes@, pos as int, j, compressed) >= GROUP_ORDER
                            || (!compressed && chunk_hi_val(
                                bytes@, pos as int, j, compressed) != 0)));
                }
                return Err(MsmError::InvalidPoint);
            }
            proof {
                assert(k as int * 1 == k as int);
            }
        }
        pts.push(GroupElement { value: v });
        proof {
            assert(forall|j: int| 0 <= j < k
                ==> #[trigger] (j * 1) == j);
        }
        k = k + 1;
    }
    Ok(pts)
}

/// Everything a valid encoding pins down, in terms the reader checks.
proof fn lemma_claim_fields(t: BgmwTable, bytes: Seq<u8>, compressed: bool)
    requires
        t.wf(),
        bytes == encode_table(t, compressed),
    ensures
        ({
            let wl = window_bytes(t.window).len() as int;
            let sz = point_size(compressed);
            &&& window_basic_wf(t.window)
            &&& wl == if t.window matches BgmwWindow::Sync(_) { 16int } else { 32int }
            &&& bytes.len() == wl + 16 + t.points@.len() * sz
            &&& wl + 16 <= bytes.len()
            &&& bytes.subrange(0, wl) == window_bytes(t.window)
            &&& le_val(bytes.subrange(wl, wl + 8)) == t.numpoints
            &&& le_val(bytes.subrange(wl + 8, wl + 16)) == t.h
            &&& t.points@.len() == t.numpoints * t.h
            &&& forall|k: int| 0 <= k < t.points@.len()
                ==> chunk_val(bytes, wl + 16, #[trigger] (k * 1), compressed)
                    == t.points@[k].value
            &&& forall|k: int| 0 <= k < t.points@.len() && !compressed
                ==> chunk_hi_val(bytes, wl + 16, #[trigger] (k * 1), compressed) == 0
        }),
{
    let wl = window_bytes(t.window).len() as int;
    let sz = point_size(compressed);
    lemma_encode_parts(t, compressed);
    lemma_le_val_le8(t.numpoints as u64);
    lemma_le_val_le8(t.h as u64);
    lemma_points_bytes_len(t.points@, compressed);
    assert(t.points@.len() * sz >= 0) by {
        lemma_mul_nonnegative(t.points@.len() as int, sz);
    }
    assert forall|k: int| 0 <= k < t.points@.len() implies
        chunk_val(bytes, wl + 16, #[trigger] (k * 1), compressed) == t.points@[k].value
            && (!compressed ==> chunk_hi_val(bytes, wl + 16, k * 1, compressed) == 0) by {
        assert(k * 1 == k);
        lemma_points_in_place(bytes, wl + 16, t.points@, compressed, k);
    }
}

impl BgmwTable {
    /// Deserializes a table, validating the tag, the window bounds,
    /// the dimensions, the exact stream length, every point's
    /// canonicity and the matrix consistency. Succeeds exactly on the
    /// byte strings `write_to_bytes` produces for well-formed tables,
    /// and then returns that table.
    pub fn read_from_bytes(bytes: &[u8], compressed: bool) -> (r: Result<BgmwTable, MsmError>)
        ensures
            r matches Ok(t) ==> t.wf() && bytes@ == encode_table(t, compressed),
            forall|t: BgmwTable|
                t.wf() && bytes@ == encode_table(t, compressed) ==> (r matches Ok(rt)
                    && rt.window == t.window && rt.numpoints == t.numpoints && rt.h == t.h
                    && rt.points@ == t.points@),
    {
        let blen = bytes.len();
        let win_r = read_window(bytes, 0);
        let (win, pos1) = match win_r {
            Ok(p) => p,
            Err(e) => {
                proof {
                    assert forall|t: BgmwTable|
                        t.wf() && bytes@ == encode_table(t, compressed) implies false by {
                        lemma_claim_fields(t, bytes@, compressed);
                        assert(win_r == Ok::<_, MsmError>(
                            (t.window, window_bytes(t.window).len() as usize)));
                    }
                }
                return Err(e);
            },
        };
        proof {
            assert forall|t: BgmwTable|
                t.wf() && bytes@ == encode_table(t, compressed) implies win == t.window
                    && pos1 == window_bytes(t.window).len() by {
                lemma_claim_fields(t, bytes@, compressed);
                assert(win_r == Ok::<_, MsmError>(
                    (t.window, window_bytes(t.window).len() as usize)));
            }
        }
        let np_r = read_usize(bytes, pos1);
        let (np, pos2) = match np_r {
            Ok(p) => p,
            Err(e) => {
                proof {
                    assert forall|t: BgmwTable|
                        t.wf() && bytes@ == encode_table(t, compressed) implies false by {
                        lemma_claim_fields(t, bytes@, compressed);
                    }
                }
                return Err(e);
            },
        };
        let h_r = read_usize(bytes, pos2);
        let (h, pos3) = match h_r {
            Ok(p) => p,
            Err(e) => {
                proof {
                    assert forall|t: BgmwTable|
                        t.wf() && bytes@ == encode_table(t, compressed) implies false by {
                        lemma_claim_fields(t, bytes@, compressed);
                    }
                }
                return Err(e);
            },
        };
        proof {
            assert forall|t: BgmwTable|
                t.wf() && bytes@ == #[trigger] encode_table(t, compressed) implies win
                    == t.window && np == t.numpoints && h == t.h && pos3 == window_bytes(
                    t.window).len() + 16 && spec_table_dimensions(t.window)
                    == spec_table_dimensions(win) by {
                lemma_claim_fields(t, bytes@, compressed);
                assert(win_r == Ok::<_, MsmError>(
                    (t.window, window_bytes(t.window).len() as usize)));
            }
        }
        // The tiling must not name more column blocks than points.
        match win {
            BgmwWindow::Parallel(nx, _ny, _w) => {
                if nx > np {
                    proof {
                        assert forall|t: BgmwTable|
                            t.wf() && bytes@ == encode_table(t, compressed) implies false by {
                            lemma_claim_fields(t, bytes@, compressed);
                        }
                    }
                    return Err(MsmError::BadDimensions);
                }
            },
            BgmwWindow::Sync(_) => {},
        }
        let (width, hd) = crate::window::get_table_dimensions(win);
        if h != hd {
            proof {
                assert forall|t: BgmwTable|
                    t.wf() && bytes@ == encode_table(t, compressed) implies false by {
                    lemma_claim_fields(t, bytes@, compressed);
                }
            }
            return Err(MsmError::BadDimensions);
        }
        let sz: usize = if compressed {
            COMPRESSED_POINT_BYTES
        } else {
            UNCOMPRESSED_POINT_BYTES
        };
        // The matrix and its byte block must be addressable and fill
        // the rest of the stream exactly.
        if np > 0 && h > usize::MAX / np {
            proof {
                assert forall|t: BgmwTable|
                    t.wf() && bytes@ == encode_table(t, compressed) implies false by {
                    lemma_claim_fields(t, bytes@, compressed);
                    let plen = t.points@.len() as int;
                    lemma_mul_inequality(1, point_size(compressed), plen);
                    lemma_mul_is_commutative(point_size(compressed), plen);
                    vstd::arithmetic::div_mod::lemma_fundamental_div_mod(
                        usize::MAX as int, np as int);
                    vstd::arithmetic::div_mod::lemma_mod_bound(
                        usize::MAX as int, np as int);
                    lemma_mul_inequality(
                        usize::MAX as int / np as int + 1, h as int, np as int);
                    lemma_mul_is_commutative(
                        usize::MAX as int / np as int + 1, np as int);
                    lemma_mul_is_commutative(h as int, np as int);
                    lemma_mul_is_distributive_add_other_way(
                        np as int, usize::MAX as int / np as int, 1);
                }
            }
            return Err(MsmError::TableTooLarge);
        }
        proof {
            if np > 0 {
                vstd::arithmetic::div_mod::lemma_fundamental_div_mod(
                    usize::MAX as int, np as int);
                vstd::arithmetic::div_mod::lemma_mod_bound(usize::MAX as int, np as int);
                lemma_mul_inequality(h as int, usize::MAX as int / np as int, np as int);
                lemma_mul_is_commutative(usize::MAX as int / np as int, np as int);
                lemma_mul_is_commutative(h as int, np as int);
                lemma_mul_nonnegative(usize::MAX as int / np as int, np as int);
            } else {
                assert(0 * h as int == 0);
            }
        }
        let size: usize = np * h;
        if pos3 > blen || size > (blen - pos3) / sz {
            proof {
                assert forall|t: BgmwTable|
                    t.wf() && bytes@ == encode_table(t, compressed) implies false by {
                    lemma_claim_fields(t, bytes@, compressed);
                    vstd::arithmetic::div_mod::lemma_fundamental_div_mod(
                        blen as int - pos3, sz as int);
                    vstd::arithmetic::div_mod::lemma_mod_bound(blen as int - pos3, sz as int);
                    lemma_mul_is_commutative(
                        (blen as int - pos3) / sz as int, sz as int);
                }
            }
            return Err(MsmError::TruncatedStream);
        }
        proof {
            vstd::arithmetic::div_mod::lemma_fundamental_div_mod(
                blen as int - pos3, sz as int);
            vstd::arithmetic::div_mod::lemma_mod_bound(blen as int - pos3, sz as int);
            lemma_mul_inequality(size as int, (blen as int - pos3) / sz as int, sz as int);
            lemma_mul_is_commutative((blen as int - pos3) / sz as int, sz as int);
            lemma_mul_nonnegative((blen as int - pos3) / sz as int, sz as int);
        }
        if pos3 + size * sz != blen {
            proof {
                assert forall|t: BgmwTable|
                    t.wf() && bytes@ == encode_table(t, compressed) implies false by {
                    lemma_claim_fields(t, bytes@, compressed);
                }
            }
            return Err(MsmError::TruncatedStream);
        }
        let pts_r = read_points(bytes, pos3, size, compressed);
        let pts = match pts_r {
            Ok(p) => p,
            Err(e) => {
                proof {
                    assert forall|t: BgmwTable|
                        t.wf() && bytes@ == encode_table(t, compressed) implies false by {
                        lemma_claim_fields(t, bytes@, compressed);
                        let k = choose|k: int|
                            #![trigger chunk_val(bytes@, pos3 as int, k, compressed)]
                            #![trigger chunk_hi_val(bytes@, pos3 as int, k, compressed)]
                            0 <= k < size && (chunk_val(bytes@, pos3 as int, k, compressed)
                                >= GROUP_ORDER || (!compressed && chunk_hi_val(
                                bytes@, pos3 as int, k, compressed) != 0));
                        assert(k * 1 == k);
                        assert(chunk_val(bytes@, pos3 as int, k, compressed)
                            == t.points@[k].value);
                        assert(t.points@[k].wf());
                    }
                }
                return Err(e);
            },
        };
        // Matrix consistency: every row is the previous row scaled.
        proof {
            vstd::bits::lemma_u64_pow2_no_overflow(width as nat);
        }
        let q: u64 = 1u64 << (width as u64);
        proof {
            vstd::bits::lemma_u64_shl_is_mul(1u64, width as u64);
        }
        let mut idx: usize = np;
        while idx < size
            invariant
                np <= idx <= size || (size < np && idx == np),
                size == np * h,
                pts@.len() == size,
                points_wf(pts@),
                q == pow2(width as nat),
                forall|k: int| np <= k < idx
                    ==> (#[trigger] pts@[k])@ == (pow2(width as nat) * pts@[k - np]@)
                        % order(),
                forall|k: int| 0 <= k < size
                    ==> (#[trigger] pts@[k]).value as nat == chunk_val(
                        bytes@, pos3 as int, k, compressed),
                width as nat == spec_table_dimensions(win).0,
                forall|t: BgmwTable|
                    t.wf() && bytes@ == #[trigger] encode_table(t, compressed) ==> (win
                        == t.window && np == t.numpoints && h == t.h && pos3
                        == window_bytes(t.window).len() + 16),
            decreases size - idx,
        {
            let expect = pts[idx - np].mul_u64(q);
            if pts[idx].value != expect.value {
                proof {
                    assert forall|t: BgmwTable|
                        t.wf() && bytes@ == #[trigger] encode_table(t, compressed) implies
                        false by {
                        lemma_claim_fields(t, bytes@, compressed);
                        assert(win == t.window && np == t.numpoints && h == t.h);
                        assert(t.points@.len() == size);
                        let j = idx as int / np as int;
                        let i = idx as int % np as int;
                        vstd::arithmetic::div_mod::lemma_fundamental_div_mod(
                            idx as int, np as int);
                        vstd::arithmetic::div_mod::lemma_mod_bound(idx as int, np as int);
                        vstd::arithmetic::div_mod::lemma_div_pos_is_pos(
                            idx as int, np as int);
                        assert(j >= 1) by {
                            if j == 0 {
                                assert(np as int * 0 == 0);
                            }
                        }
                        assert(j < h) by {
                            lemma_mul_is_commutative(np as int, h as int);
                            vstd::arithmetic::div_mod::lemma_multiply_divide_lt(
                                idx as int, np as int, h as int);
                        }
                        lemma_mul_is_commutative(np as int, j);
                        assert(idx as int == j * np + i);
                        vstd::arithmetic::mul::lemma_mul_is_distributive_sub_other_way(
                            np as int, j, 1);
                        assert((j - 1) * np + i == idx - np);
                        assert(width as nat == t.width());
                        assert(t.points@[j * t.numpoints as int + i]@ == (pow2(t.width())
                            * t.points@[(j - 1) * t.numpoints as int + i]@) % order());
                        assert(t.points@[j * np + i]@ == (pow2(width as nat)
                            * t.points@[(j - 1) * np + i]@) % order());
                        assert(idx as int * 1 == idx as int);
                        assert((idx - np) * 1 == idx - np);
                        assert(t.points@[idx as int].value == pts@[idx as int].value);
                        assert(t.points@[idx - np].value == pts@[idx - np].value);
                    }
                }
                return Err(MsmError::InconsistentTable);
            }
            idx = idx + 1;
        }
        let rt = BgmwTable { window: win, points: pts, numpoints: np, h };
        proof {
            // The parsed table is well formed.
            assert(rt.consistent()) by {
                assert forall|j: int, i: int| 1 <= j < rt.h && 0 <= i < rt.numpoints implies
                    (#[trigger] rt.points@[j * rt.numpoints as int + i])@ == (pow2(rt.width())
                        * rt.points@[(j - 1) * rt.numpoints as int + i]@) % order() by {
                    lemma_mul_nonnegative(j, np as int);
                    lemma_mul_inequality(j + 1, h as int, np as int);
                    lemma_mul_is_commutative(j + 1, np as int);
                    lemma_mul_is_commutative(h as int, np as int);
                    lemma_mul_is_distributive_add_other_way(np as int, j, 1);
                    vstd::arithmetic::mul::lemma_mul_is_distributive_sub_other_way(
                        np as int, j, 1);
                    assert(np <= j * np as int + i < size);
                    assert((j - 1) * np as int + i == j * np as int + i - np);
                }
            }
        }
        let enc = rt.write_to_bytes(compressed);
        let mut same = enc.len() == blen;
        let mut ci: usize = 0;
        if same {
            while ci < blen && enc[ci] == bytes[ci]
                invariant
                    blen == bytes@.len(),
                    enc@.len() == blen,
                    0 <= ci <= blen,
                    forall|k: int| 0 <= k < ci ==> #[trigger] enc@[k] == bytes@[k],
                decreases blen - ci,
            {
                ci = ci + 1;
            }
            same = ci == blen;
        }
        if !same {
            proof {
                assert forall|t: BgmwTable|
                    t.wf() && bytes@ == #[trigger] encode_table(t, compressed) implies
                    false by {
                    lemma_claim_fields(t, bytes@, compressed);
                    assert(win == t.window && np == t.numpoints && h == t.h);
                    assert(t.points@.len() == size);
                    lemma_same_fields(t, rt, bytes@, pos3 as int, compressed);
                    assert(enc@ == encode_table(t, compressed));
                    assert(enc@ =~= bytes@);
                }
            }
            return Err(MsmError::NonCanonicalStream);
        }
        proof {
            assert(enc@ =~= bytes@);
            assert(bytes@ == encode_table(rt, compressed));
            assert forall|t: BgmwTable|
                t.wf() && bytes@ == #[trigger] encode_table(t, compressed) implies rt.window
                    == t.window && rt.numpoints == t.numpoints && rt.h == t.h
                    && rt.points@ == t.points@ by {
                lemma_claim_fields(t, bytes@, compressed);
                assert(win == t.window && np == t.numpoints && h == t.h);
                assert(t.points@.len() == size);
                lemma_same_fields(t, rt, bytes@, pos3 as int, compressed);
            }
        }
        Ok(rt)
    }
}

/// A parsed table whose stored words match a valid encoding's words
/// has that encoding's fields.
proof fn lemma_same_fields(
    t: BgmwTable,
    rt: BgmwTable,
    bytes: Seq<u8>,
    pos3: int,
    compressed: bool,
)
    requires
        t.wf(),
        bytes == encode_table(t, compressed),
        rt.window == t.window,
        rt.numpoints == t.numpoints,
        rt.h == t.h,
        pos3 == window_bytes(t.window).len() + 16,
        rt.points@.len() == t.points@.len(),
        forall|k: int| 0 <= k < rt.points@.len()
            ==> (#[trigger] rt.points@[k]).value as nat == chunk_val(
                bytes, pos3, k, compressed),
    ensures
        rt.points@ == t.points@,
        encode_table(rt, compressed) == encode_table(t, compressed),
{
    lemma_claim_fields(t, bytes, compressed);
    assert forall|k: int| 0 <= k < rt.points@.len() implies
        #[trigger] rt.points@[k] == t.points@[k] by {
        assert(k * 1 == k);
        assert(chunk_val(bytes, pos3, k, compressed) == t.points@[k].value);
    }
    assert(rt.points@ =~= t.points@);
}

/// Law: the binary format is lossless. Two well-formed tables with the
/// same encoding have the same window, dimensions and points, so a
/// table survives a write followed by a read unchanged.
pub proof fn lemma_encode_injective(t1: BgmwTable, t2: BgmwTable, compressed: bool)
    requires
        t1.wf(),
        t2.wf(),
        encode_table(t1, compressed) == encode_table(t2, compressed),
    ensures
        t1.window == t2.window,
        t1.numpoints == t2.numpoints,
        t1.h == t2.h,
        t1.points@ == t2.points@,
{
    let bytes = encode_table(t1, compressed);
    lemma_claim_fields(t1, bytes, compressed);
    lemma_claim_fields(t2, bytes, compressed);
    lemma_window_prefix(bytes, 0, t1.window);
    lemma_window_prefix(bytes, 0, t2.window);
    lemma_le_val_le8(1);
    lemma_le_val_le8(3);
    // Same tag, so same variant and same header length.
    match (t1.window, t2.window) {
        (BgmwWindow::Sync(w1), BgmwWindow::Sync(w2)) => {
            lemma_le_val_le8(w1 as u64);
            lemma_le_val_le8(w2 as u64);
        },
        (BgmwWindow::Parallel(nx1, ny1, w1), BgmwWindow::Parallel(nx2, ny2, w2)) => {
            lemma_le_val_le8(nx1 as u64);
            lemma_le_val_le8(nx2 as u64);
            lemma_le_val_le8(ny1 as u64);
            lemma_le_val_le8(ny2 as u64);
            lemma_le_val_le8(w1 as u64);
            lemma_le_val_le8(w2 as u64);
        },
        (BgmwWindow::Sync(_), BgmwWindow::Parallel(_, _, _)) => {
            assert(false);
        },
        (BgmwWindow::Parallel(_, _, _), BgmwWindow::Sync(_)) => {
            assert(false);
        },
    }
    assert forall|k: int| 0 <= k < t1.points@.len() implies
        #[trigger] t1.points@[k] == t2.points@[k] by {
        assert(k * 1 == k);
    }
    assert(t1.points@ =~= t2.points@);
}

/// Parses one fixed-size point record: the canonical residue, with a
/// zero upper word in the uncompressed form.
pub fn parse_point_record(record: &[u8], compressed: bool) -> (r: Result<
    GroupElement,
    MsmError,
>)
    ensures
        match r {
            Ok(p) => {
                &&& p.wf()
                &&& record@.len() == point_size(compressed)
                &&& record@ == point_bytes(p, compressed)
            },
            Err(e) => {
                &&& e == MsmError::TruncatedStream || e == MsmError::InvalidPoint
                &&& forall|p: GroupElement|
                    p.wf() ==> record@ != #[trigger] point_bytes(p, compressed)
            },
        },
{
    let sz: usize = if compressed {
        COMPRESSED_POINT_BYTES
    } else {
        UNCOMPRESSED_POINT_BYTES
    };
    if record.len() != sz {
        proof {
            assert forall|p: GroupElement| p.wf() implies record@ != #[trigger] point_bytes(
                p, compressed) by {
                if record@ == point_bytes(p, compressed) {
                    lemma_points_bytes_len(seq![p], compressed);
                }
            }
        }
        return Err(MsmError::TruncatedStream);
    }
    let v = read_u64_le(record, 0);
    let hi_ok: bool = if compressed {
        true
    } else {
        read_u64_le(record, 8) == 0
    };
    if v >= GROUP_ORDER || !hi_ok {
        proof {
            assert forall|p: GroupElement| p.wf() implies record@ != #[trigger] point_bytes(
                p, compressed) by {
                if record@ == point_bytes(p, compressed) {
                    assert(record@.subrange(0, 8) =~= le8(p.value));
                    lemma_le_val_le8(p.value);
                    if !compressed {
                        assert(record@.subrange(8, 16) =~= le8(0));
                        lemma_le_val_le8(0);
                    }
                }
            }
        }
        return Err(MsmError::InvalidPoint);
    }
    let p = GroupElement { value: v };
    proof {
        assert(record@ =~= point_bytes(p, compressed)) by {
            lemma_le_val_le_bytes_inverse(record@.subrange(0, 8));
            assert(record@.subrange(0, 8) =~= le8(p.value));
            if !compressed {
                lemma_le_val_le_bytes_inverse(record@.subrange(8, 16));
                assert(record@.subrange(8, 16) =~= le8(0));
            }
        }
    }
    Ok(p)
}

/// Eight bytes are exactly the little-endian encoding of their value.
pub proof fn lemma_le_val_le_bytes_inverse(b: Seq<u8>)
    requires
        b.len() == 8,
    ensures
        le_val(b) < pow2(64),
        le8(le_val(b) as u64) == b,
{
    lemma_le_byte_split(b, 0);
    lemma2_to64();
    assert(le8(le_val(b) as u64) =~= b) by {
        assert forall|i: int| 0 <= i < 8 implies le8(le_val(b) as u64)[i] == b[i] by {
            lemma_le_byte_split(b, i);
        }
    }
}

/// Byte `i` of a byte string is its value's `i`-th little-endian byte.
proof fn lemma_le_byte_split(b: Seq<u8>, i: int)
    requires
        0 <= i <= b.len(),
    ensures
        le_val(b) < pow2((8 * b.len()) as nat),
        i < b.len() ==> (le_val(b) as int / pow2((8 * i) as nat) as int) % 256 == b[i],
    decreases b.len(),
{
    lemma2_to64();
    if b.len() == 0 {
        lemma_pow2_pos(0);
    } else {
        let rest = b.subrange(1, b.len() as int);
        lemma_le_byte_split(rest, if i >= 1 { i - 1 } else { 0 });
        let rv = le_val(rest) as int;
        // Bound: b[0] + 256 * rv < 2^(8 * len)
        assert(le_val(b) < pow2((8 * b.len()) as nat)) by {
            lemma_pow2_adds(8, (8 * (b.len() - 1)) as nat);
            assert(8 * b.len() == 8 + 8 * (b.len() - 1));
            lemma_mul_inequality(rv, pow2((8 * (b.len() - 1)) as nat) as int - 1, 256);
            lemma_mul_is_commutative(rv, 256);
            lemma_mul_is_commutative(pow2((8 * (b.len() - 1)) as nat) as int - 1, 256);
            vstd::arithmetic::mul::lemma_mul_is_distributive_sub(
                256, pow2((8 * (b.len() - 1)) as nat) as int, 1);
        }
        if i == 0 {
            assert((le_val(b) as int / pow2(0) as int) % 256 == b[0]) by {
                vstd::arithmetic::div_mod::lemma_div_basics(le_val(b) as int);
                lemma_mod_multiples_vanish(rv, b[0] as int, 256);
            }
        } else if i < b.len() {
            // le_val(b) / 2^(8i) == rv / 2^(8(i-1))
            assert(le_val(b) as int / 256 == rv) by {
                lemma_div_multiples_vanish_fancy(rv, b[0] as int, 256);
                lemma_mul_is_commutative(256, rv);
            }
            assert(le_val(b) as int / pow2((8 * i) as nat) as int
                == rv / pow2((8 * (i - 1)) as nat) as int) by {
                lemma_pow2_pos((8 * (i - 1)) as nat);
                lemma_div_denominator(
                    le_val(b) as int, 256, pow2((8 * (i - 1)) as nat) as int);
                lemma_pow2_adds(8, (8 * (i - 1)) as nat);
                assert(8 * i == 8 + 8 * (i - 1));
            }
        }
    }
}

/// Reads the point count field.
pub fn read_numpoints(bytes: &[u8], pos: usize) -> (r: Result<(usize, usize), MsmError>)
    requires
        pos <= bytes@.len(),
    ensures
        r matches Ok((v, next)) ==> next == pos + 8 <= bytes@.len() && v as nat == le_val(
            bytes@.subrange(pos as int, pos as int + 8),
        ),
        r is Err <==> (pos + 8 > bytes@.len() || le_val(
            bytes@.subrange(pos as int, pos as int + 8)) > usize::MAX),
{
    read_usize(bytes, pos)
}

/// Reads the row count field.
pub fn read_h(bytes: &[u8], pos: usize) -> (r: Result<(usize, usize), MsmError>)
    requires
        pos <= bytes@.len(),
    ensures
        r matches Ok((v, next)) ==> next == pos + 8 <= bytes@.len() && v as nat == le_val(
            bytes@.subrange(pos as int, pos as int + 8),
        ),
        r is Err <==> (pos + 8 > bytes@.len() || le_val(
            bytes@.subrange(pos as int, pos as int + 8)) > usize::MAX),
{
    read_usize(bytes, pos)
}

/// Appends one length field as eight little-endian bytes.
pub fn write_usize(out: &mut Vec<u8>, value: usize)
    ensures
        final(out)@ == old(out)@ + le8(value as u64),
{
    push_u64_le(out, value as u64);
}

} // verus!
