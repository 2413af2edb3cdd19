//! Trusted-setup point lists: generation from a secret seed, and the
//! length-prefixed binary form they travel in (an 8-byte little-endian
//! count followed by that many encoded points, once per group).

use vstd::prelude::*;
use vstd::arithmetic::power::{pow, lemma_pow0, lemma_pow1, lemma_pow_adds};
use vstd::arithmetic::div_mod::{
    lemma_small_mod, lemma_mod_bound, lemma_mul_mod_noop_left, lemma_mul_mod_noop_right,
    lemma_mod_twice, lemma_add_mod_noop,
};
use vstd::arithmetic::mul::{
    lemma_mul_is_commutative, lemma_mul_upper_bound,
    lemma_mul_inequality, lemma_mul_nonnegative,
};
use crate::group::{GroupElement, order, GROUP_ORDER, G1_GENERATOR_VALUE, G2_GENERATOR_VALUE, g1_generator, g2_generator};
use crate::codec::{le_val, le8, points_bytes, point_bytes, point_size, chunk_val, chunk_hi_val, read_usize, read_points, parse_point_record, lemma_le_val_le_bytes_inverse, lemma_points_in_place, lemma_le_val_le8};
use crate::table::{MsmError, points_wf};

verus! {

/// The field element a 32-byte seed stands for: its little-endian
/// value, reduced modulo the group order.
pub open spec fn seed_scalar(seed: Seq<u8>) -> int {
    le_val(seed) as int % order()
}

/// Derives the field element of a secret seed.
pub fn hash_to_bls_field(secret: &[u8; 32]) -> (r: u64)
    ensures
        r < GROUP_ORDER,
        r as int == seed_scalar(secret@),
{
    let mut v: u64 = 0;
    let mut i: usize = 32;
    proof {
        lemma_small_mod(0, GROUP_ORDER as nat);
        assert(le_val(secret@.subrange(32, 32)) == 0);
    }
    while i > 0
        invariant
            0 <= i <= 32,
            v < GROUP_ORDER,
            v as int == le_val(secret@.subrange(i as int, 32)) as int % order(),
        decreases i,
    {
        i = i - 1;
        let b = secret[i];
        let ghost tail = secret@.subrange(i as int + 1, 32);
        let ghost cur = secret@.subrange(i as int, 32);
        proof {
            assert(cur.subrange(1, cur.len() as int) =~= tail);
            assert(cur[0] == secret@[i as int]);
        }
        let t: u128 = ((b as u128) + 256u128 * (v as u128)) % (GROUP_ORDER as u128);
        proof {
            lemma_mod_bound(b as int + 256 * (v as int), order());
            // b + 256 * v is congruent to the longer suffix's value.
            lemma_mul_mod_noop_right(256, le_val(tail) as int, order());
            lemma_add_mod_noop(b as int, 256 * (le_val(tail) as int), order());
            lemma_add_mod_noop(b as int, 256 * (v as int), order());
            lemma_small_mod(b as nat, GROUP_ORDER as nat);
            lemma_mod_twice(b as int + 256 * (v as int), order());
        }
        v = t as u64;
    }
    proof {
        assert(secret@.subrange(0, 32) =~= secret@);
    }
    v
}

/// Modular product of two reduced values.
fn mul_mod(a: u64, b: u64) -> (r: u64)
    requires
        a < GROUP_ORDER,
        b < GROUP_ORDER,
    ensures
        r < GROUP_ORDER,
        r as int == (a as int * b as int) % order(),
{
    proof {
        lemma_mul_upper_bound(a as int, u64::MAX as int, b as int, u64::MAX as int);
    }
    let p: u128 = (a as u128) * (b as u128);
    let r: u128 = p % (GROUP_ORDER as u128);
    proof {
        lemma_mod_bound(p as int, order());
    }
    r as u64
}

/// Generates the two trusted-setup point lists: element `i` of each
/// list is that group's generator multiplied by the seed scalar's
/// `i`-th power.
pub fn generate_trusted_setup(n: usize, secret: [u8; 32]) -> (r: (
    Vec<GroupElement>,
    Vec<GroupElement>,
))
    ensures
        r.0@.len() == n,
        r.1@.len() == n,
        points_wf(r.0@),
        points_wf(r.1@),
        forall|i: int| 0 <= i < n
            ==> (#[trigger] r.0@[i])@ == (pow(seed_scalar(secret@), i as nat)
                * G1_GENERATOR_VALUE) % order(),
        forall|i: int| 0 <= i < n
            ==> (#[trigger] r.1@[i])@ == (pow(seed_scalar(secret@), i as nat)
                * G2_GENERATOR_VALUE) % order(),
{
    let s = hash_to_bls_field(&secret);
    let ghost sv = seed_scalar(secret@);
    let g1 = g1_generator();
    let g2 = g2_generator();
    let mut s_pow: u64 = 1;
    let mut s1: Vec<GroupElement> = Vec::new();
    let mut s2: Vec<GroupElement> = Vec::new();
    let mut i: usize = 0;
    proof {
        lemma_pow0(sv);
        lemma_small_mod(1, GROUP_ORDER as nat);
    }
    while i < n
        invariant
            0 <= i <= n,
            s < GROUP_ORDER,
            s as int == sv,
            g1.wf() && g1@ == G1_GENERATOR_VALUE as int,
            g2.wf() && g2@ == G2_GENERATOR_VALUE as int,
            s_pow < GROUP_ORDER,
            s_pow as int == pow(sv, i as nat) % order(),
            s1@.len() == i,
            s2@.len() == i,
            points_wf(s1@),
            points_wf(s2@),
            forall|k: int| 0 <= k < i
                ==> (#[trigger] s1@[k])@ == (pow(sv, k as nat) * G1_GENERATOR_VALUE)
                    % order(),
            forall|k: int| 0 <= k < i
                ==> (#[trigger] s2@[k])@ == (pow(sv, k as nat) * G2_GENERATOR_VALUE)
                    % order(),
        decreases n - i,
    {
        let e1 = g1.mul_u64(s_pow);
        let e2 = g2.mul_u64(s_pow);
        proof {
            // (s^i mod N) * g mod N == (s^i * g) mod N.
            lemma_mul_mod_noop_left(pow(sv, i as nat), G1_GENERATOR_VALUE as int, order());
            lemma_mul_mod_noop_left(pow(sv, i as nat), G2_GENERATOR_VALUE as int, order());
        }
        s1.push(e1);
        s2.push(e2);
        let old_pow = s_pow;
        s_pow = mul_mod(s_pow, s);
        proof {
            // s^(i+1) mod N == ((s^i mod N) * s) mod N.
            lemma_mul_mod_noop_left(pow(sv, i as nat), sv, order());
            assert(pow(sv, (i + 1) as nat) == pow(sv, i as nat) * sv) by {
                lemma_pow_adds(sv, i as nat, 1);
                lemma_pow1(sv);
            }
        }
        i = i + 1;
    }
    (s1, s2)
}

/// Serializes one length-prefixed point list.
pub fn save_points_to_bytes(out: &mut Vec<u8>, points: &[GroupElement], compressed: bool)
    ensures
        final(out)@ == old(out)@ + le8(points@.len() as u64) + points_bytes(
            points@,
            compressed,
        ),
{
    crate::codec::push_u64_le(out, points.len() as u64);
    let ghost mid = out@;
    let n = points.len();
    let mut i: usize = 0;
    proof {
        assert(points@.subrange(0, 0) =~= Seq::<GroupElement>::empty());
        assert(out@ =~= mid + points_bytes(points@.subrange(0, 0), compressed));
    }
    while i < n
        invariant
            n == points@.len(),
            0 <= i <= n,
            out@ == mid + points_bytes(points@.subrange(0, i as int), compressed),
        decreases n - i,
    {
        crate::codec::push_u64_le(out, points[i].value);
        if !compressed {
            crate::codec::push_u64_le(out, 0);
        }
        proof {
            let prefix = points@.subrange(0, i as int);
            crate::codec::lemma_points_bytes_push(prefix, points@[i as int], compressed);
            assert(prefix.push(points@[i as int]) =~= points@.subrange(0, i as int + 1));
            assert(out@ =~= mid + points_bytes(points@.subrange(0, i as int + 1), compressed));
        }
        i = i + 1;
    }
    proof {
        assert(points@.subrange(0, n as int) =~= points@);
        assert(out@ =~= old(out)@ + le8(points@.len() as u64) + points_bytes(
            points@, compressed));
    }
}

/// Serializes both trusted-setup lists: the first group's points, then
/// the second group's, each length-prefixed.
pub fn save_secrets_to_bytes(
    secret_g1: &[GroupElement],
    secret_g2: &[GroupElement],
    compressed: bool,
) -> (r: Vec<u8>)
    ensures
        r@ == le8(secret_g1@.len() as u64) + points_bytes(secret_g1@, compressed) + le8(
            secret_g2@.len() as u64,
        ) + points_bytes(secret_g2@, compressed),
{
    let mut out: Vec<u8> = Vec::new();
    save_points_to_bytes(&mut out, secret_g1, compressed);
    save_points_to_bytes(&mut out, secret_g2, compressed);
    proof {
        assert(out@ =~= le8(secret_g1@.len() as u64) + points_bytes(secret_g1@, compressed)
            + le8(secret_g2@.len() as u64) + points_bytes(secret_g2@, compressed));
    }
    out
}

/// A stream holds a valid length-prefixed point list at `pos`: the
/// 8-byte count fits the machine word, the declared records fit the
/// stream, and every record is a canonical point.
pub open spec fn points_block_ok(bytes: Seq<u8>, pos: int, compressed: bool) -> bool {
    let count = le_val(bytes.subrange(pos, pos + 8)) as int;
    &&& pos + 8 <= bytes.len()
    &&& count <= usize::MAX
    &&& pos + 8 + count * point_size(compressed) <= bytes.len()
    &&& forall|k: int| 0 <= k < count
        ==> #[trigger] chunk_val(bytes, pos + 8, k, compressed) < GROUP_ORDER
            && (!compressed ==> chunk_hi_val(bytes, pos + 8, k, compressed) == 0)
}

/// Where the point list starting at `pos` ends.
pub open spec fn block_end(bytes: Seq<u8>, pos: int, compressed: bool) -> int {
    pos + 8 + le_val(bytes.subrange(pos, pos + 8)) * point_size(compressed)
}

/// Parses one length-prefixed point list starting at `pos`; returns
/// the points and the position after them. Succeeds exactly when the
/// stream holds the declared records and all of them are valid.
pub fn load_points_from_bytes(bytes: &[u8], pos: usize, compressed: bool) -> (r: Result<
    (Vec<GroupElement>, usize),
    MsmError,
>)
    requires
        pos <= bytes@.len(),
    ensures
        r matches Ok((pts, next)) ==> {
            &&& points_wf(pts@)
            &&& pts@.len() == le_val(bytes@.subrange(pos as int, pos as int + 8))
            &&& next == pos + 8 + pts@.len() * point_size(compressed) <= bytes@.len()
            &&& next == block_end(bytes@, pos as int, compressed)
            &&& forall|k: int| 0 <= k < pts@.len()
                ==> (#[trigger] pts@[k]).value as nat == chunk_val(
                    bytes@, pos as int + 8, k, compressed)
        },
        r is Ok <==> points_block_ok(bytes@, pos as int, compressed),
{
    let blen = bytes.len();
    let (count, pos1) = match read_usize(bytes, pos) {
        Ok(p) => p,
        Err(e) => {
            return Err(e);
        },
    };
    let sz: usize = if compressed {
        crate::codec::COMPRESSED_POINT_BYTES
    } else {
        crate::codec::UNCOMPRESSED_POINT_BYTES
    };
    if count > (blen - pos1) / sz {
        proof {
            // More records declared than the stream holds.
            vstd::arithmetic::div_mod::lemma_fundamental_div_mod(
                blen as int - pos1, sz as int);
            vstd::arithmetic::div_mod::lemma_mod_bound(blen as int - pos1, sz as int);
            lemma_mul_inequality(
                (blen as int - pos1) / sz as int + 1, count as int, sz as int);
            lemma_mul_is_commutative((blen as int - pos1) / sz as int, sz as int);
            lemma_mul_is_commutative(
                (blen as int - pos1) / sz as int + 1, sz as int);
            vstd::arithmetic::mul::lemma_mul_is_distributive_add_other_way(
                sz as int, (blen as int - pos1) / sz as int, 1);
        }
        return Err(MsmError::TruncatedStream);
    }
    proof {
        vstd::arithmetic::div_mod::lemma_fundamental_div_mod(
            blen as int - pos1, sz as int);
        vstd::arithmetic::div_mod::lemma_mod_bound(blen as int - pos1, sz as int);
        lemma_mul_inequality(count as int, (blen as int - pos1) / sz as int, sz as int);
        lemma_mul_is_commutative((blen as int - pos1) / sz as int, sz as int);
        lemma_mul_nonnegative((blen as int - pos1) / sz as int, sz as int);
        lemma_mul_nonnegative(count as int, sz as int);
    }
    let pts = match read_points(bytes, pos1, count, compressed) {
        Ok(p) => p,
        Err(e) => {
            proof {
                // Some declared record is invalid.
                let bad = choose|k: int|
                    #![trigger chunk_val(bytes@, pos1 as int, k, compressed)]
                    #![trigger chunk_hi_val(bytes@, pos1 as int, k, compressed)]
                    0 <= k < count && (chunk_val(bytes@, pos1 as int, k, compressed)
                        >= GROUP_ORDER || (!compressed && chunk_hi_val(
                        bytes@, pos1 as int, k, compressed) != 0));
                assert(!points_block_ok(bytes@, pos as int, compressed)) by {
                    if points_block_ok(bytes@, pos as int, compressed) {
                        assert(chunk_val(bytes@, pos as int + 8, bad, compressed)
                            < GROUP_ORDER);
                    }
                }
            }
            return Err(e);
        },
    };
    proof {
        assert(points_block_ok(bytes@, pos as int, compressed)) by {
            assert forall|k: int| 0 <= k < count implies
                #[trigger] chunk_val(bytes@, pos as int + 8, k, compressed) < GROUP_ORDER
                    && (!compressed ==> chunk_hi_val(
                    bytes@, pos as int + 8, k, compressed) == 0) by {
                assert(pts@[k].value as nat == chunk_val(
                    bytes@, pos as int + 8, k, compressed));
                assert(pts@[k].wf());
                assert(k * 1 == k);
            }
        }
    }
    Ok((pts, pos1 + count * sz))
}

/// Parses the first trusted-setup list. Succeeds exactly when the
/// stream opens with a valid point list; the decoded points are the
/// stream's records, in order.
pub fn load_g1(bytes: &[u8], compressed: bool) -> (r: Result<
    (Vec<GroupElement>, usize),
    MsmError,
>)
    ensures
        r matches Ok((pts, next)) ==> {
            &&& points_wf(pts@)
            &&& pts@.len() == le_val(bytes@.subrange(0, 8))
            &&& next == block_end(bytes@, 0, compressed) <= bytes@.len()
            &&& forall|k: int| 0 <= k < pts@.len()
                ==> (#[trigger] pts@[k]).value as nat == chunk_val(
                    bytes@, 8, k, compressed)
        },
        r is Ok <==> points_block_ok(bytes@, 0, compressed),
{
    load_points_from_bytes(bytes, 0, compressed)
}

/// Parses the second trusted-setup list, following the first. Succeeds
/// exactly when the stream holds a valid point list at `pos`.
pub fn load_g2(bytes: &[u8], pos: usize, compressed: bool) -> (r: Result<
    (Vec<GroupElement>, usize),
    MsmError,
>)
    requires
        pos <= bytes@.len(),
    ensures
        r matches Ok((pts, next)) ==> {
            &&& points_wf(pts@)
            &&& pts@.len() == le_val(bytes@.subrange(pos as int, pos as int + 8))
            &&& next == block_end(bytes@, pos as int, compressed) <= bytes@.len()
            &&& forall|k: int| 0 <= k < pts@.len()
                ==> (#[trigger] pts@[k]).value as nat == chunk_val(
                    bytes@, pos as int + 8, k, compressed)
        },
        r is Ok <==> points_block_ok(bytes@, pos as int, compressed),
{
    load_points_from_bytes(bytes, pos, compressed)
}

/// Parses both trusted-setup lists from one byte stream. Succeeds
/// exactly when the stream holds two valid point lists back to back;
/// each output element is the matching stream record.
pub fn load_secrets_from_bytes(bytes: &[u8], compressed: bool) -> (r: Result<
    (Vec<GroupElement>, Vec<GroupElement>),
    MsmError,
>)
    ensures
        r matches Ok((g1s, g2s)) ==> {
            &&& points_wf(g1s@)
            &&& points_wf(g2s@)
            &&& g1s@.len() == le_val(bytes@.subrange(0, 8))
            &&& g2s@.len() == le_val(bytes@.subrange(
                block_end(bytes@, 0, compressed),
                block_end(bytes@, 0, compressed) + 8,
            ))
            &&& forall|k: int| 0 <= k < g1s@.len()
                ==> (#[trigger] g1s@[k]).value as nat == chunk_val(
                    bytes@, 8, k, compressed)
            &&& forall|k: int| 0 <= k < g2s@.len()
                ==> (#[trigger] g2s@[k]).value as nat == chunk_val(
                    bytes@, block_end(bytes@, 0, compressed) + 8, k, compressed)
        },
        r is Ok <==> (points_block_ok(bytes@, 0, compressed) && points_block_ok(
            bytes@,
            block_end(bytes@, 0, compressed),
            compressed,
        )),
{
    let (g1s, pos) = match load_g1(bytes, compressed) {
        Ok(p) => p,
        Err(e) => {
            return Err(e);
        },
    };
    let (g2s, _end) = match load_g2(bytes, pos, compressed) {
        Ok(p) => p,
        Err(e) => {
            return Err(e);
        },
    };
    Ok((g1s, g2s))
}

/// No canonical point encodes to record `k` of the block.
pub open spec fn no_valid_record(
    bytes: Seq<u8>,
    k: int,
    record_size: int,
    compressed: bool,
) -> bool {
    forall|p: GroupElement|
        p.wf() ==> bytes.subrange(k * record_size, (k + 1) * record_size)
            != #[trigger] point_bytes(p, compressed)
}

/// Relies on rayon's parallel slice iterators: `par_chunks_exact` cuts
/// the input into fixed-size records, `map` applies the record parser
/// to each on the thread pool, and `collect` keeps the records' order.
/// The closure only calls the library's `parse_point_record`, whose
/// contract fixes each element of the result.
#[verifier::external_body]
fn par_parse_records(bytes: &[u8], record_size: usize, compressed: bool) -> (r: Vec<
    Result<GroupElement, MsmError>,
>)
    requires
        record_size == point_size(compressed),
        bytes@.len() as int % record_size as int == 0,
    ensures
        r@.len() == bytes@.len() as int / record_size as int,
        forall|k: int| 0 <= k < r@.len()
            ==> match #[trigger] r@[k] {
                Ok(p) => p.wf() && bytes@.subrange(
                    k * record_size as int,
                    (k + 1) * record_size as int,
                ) == point_bytes(p, compressed),
                Err(e) => (e == MsmError::TruncatedStream || e == MsmError::InvalidPoint)
                    && no_valid_record(bytes@, k, record_size as int, compressed),
            },
{
    rayon::iter::ParallelIterator::collect(
        rayon::iter::ParallelIterator::map(
            rayon::slice::ParallelSlice::par_chunks_exact(bytes, record_size),
            |c| parse_point_record(c, compressed),
        ),
    )
}

/// Decodes a whole block of fixed-size point records across the worker
/// pool, preserving record order; any invalid record fails the block.
/// Succeeds exactly when the block is a whole number of records and
/// every record is a canonical point.
pub fn par_parse_points(bytes: &[u8], compressed: bool) -> (r: Result<
    Vec<GroupElement>,
    MsmError,
>)
    ensures
        r matches Ok(pts) ==> {
            &&& points_wf(pts@)
            &&& pts@.len() * point_size(compressed) == bytes@.len()
            &&& forall|k: int| 0 <= k < pts@.len()
                ==> bytes@.subrange(
                    k * point_size(compressed),
                    (k + 1) * point_size(compressed),
                ) == point_bytes(#[trigger] pts@[k], compressed)
        },
        r is Ok <==> (bytes@.len() as int % point_size(compressed) == 0 && forall|k: int|
            0 <= k < bytes@.len() as int / point_size(compressed)
                ==> #[trigger] chunk_val(bytes@, 0, k, compressed) < GROUP_ORDER && (
            !compressed ==> chunk_hi_val(bytes@, 0, k, compressed) == 0)),
{
    let sz: usize = if compressed {
        crate::codec::COMPRESSED_POINT_BYTES
    } else {
        crate::codec::UNCOMPRESSED_POINT_BYTES
    };
    if bytes.len() % sz != 0 {
        return Err(MsmError::TruncatedStream);
    }
    let parsed = par_parse_records(bytes, sz, compressed);
    let mut pts: Vec<GroupElement> = Vec::new();
    let n = parsed.len();
    let mut k: usize = 0;
    while k < n
        invariant
            n == parsed@.len(),
            n == bytes@.len() as int / sz as int,
            bytes@.len() as int % sz as int == 0,
            0 <= k <= n,
            pts@.len() == k,
            points_wf(pts@),
            sz == point_size(compressed),
            forall|j: int| 0 <= j < n
                ==> match #[trigger] parsed@[j] {
                    Ok(p) => p.wf() && bytes@.subrange(
                        j * sz as int,
                        (j + 1) * sz as int,
                    ) == point_bytes(p, compressed),
                    Err(e) => (e == MsmError::TruncatedStream
                        || e == MsmError::InvalidPoint) && no_valid_record(
                        bytes@, j, sz as int, compressed),
                },
            forall|j: int| 0 <= j < k
                ==> parsed@[j] == Ok::<GroupElement, MsmError>(#[trigger] pts@[j]),
        decreases n - k,
    {
        match parsed[k] {
            Ok(p) => {
                pts.push(p);
            },
            Err(e) => {
                proof {
                    vstd::arithmetic::div_mod::lemma_fundamental_div_mod(
                        bytes@.len() as int, sz as int);
                    lemma_mul_is_commutative(n as int, sz as int);
                    lemma_mul_inequality(k as int + 1, n as int, sz as int);
                    assert(parsed@[k as int] is Err);
                    assert(no_valid_record(bytes@, k as int, sz as int, compressed));
                    lemma_record_invalid(bytes@, k as int, compressed);
                    if forall|j: int| 0 <= j < bytes@.len() as int / point_size(compressed)
                        ==> #[trigger] chunk_val(bytes@, 0, j, compressed) < GROUP_ORDER
                            && (!compressed ==> chunk_hi_val(bytes@, 0, j, compressed)
                            == 0) {
                        assert(chunk_val(bytes@, 0, k as int, compressed) < GROUP_ORDER
                            && (!compressed ==> chunk_hi_val(
                            bytes@, 0, k as int, compressed) == 0));
                        assert(false);
                    }
                }
                return Err(e);
            },
        }
        k = k + 1;
    }
    proof {
        vstd::arithmetic::div_mod::lemma_fundamental_div_mod(
            bytes@.len() as int, sz as int);
        lemma_mul_is_commutative(bytes@.len() as int / sz as int, sz as int);
        assert forall|j: int| 0 <= j < n implies
            #[trigger] chunk_val(bytes@, 0, j, compressed) < GROUP_ORDER && (!compressed
                ==> chunk_hi_val(bytes@, 0, j, compressed) == 0) by {
            lemma_mul_inequality(j + 1, n as int, sz as int);
            lemma_record_decodes(bytes@, j, pts@[j], compressed);
        }
    }
    Ok(pts)
}

/// A record that equals a canonical point's encoding has that point's
/// words in place.
proof fn lemma_record_decodes(bytes: Seq<u8>, k: int, p: GroupElement, compressed: bool)
    requires
        p.wf(),
        k >= 0,
        (k + 1) * point_size(compressed) <= bytes.len(),
        bytes.subrange(k * point_size(compressed), (k + 1) * point_size(compressed))
            == point_bytes(p, compressed),
    ensures
        chunk_val(bytes, 0, k, compressed) == p.value,
        !compressed ==> chunk_hi_val(bytes, 0, k, compressed) == 0,
{
    let sz = point_size(compressed);
    lemma_mul_nonnegative(k, sz);
    vstd::arithmetic::mul::lemma_mul_is_distributive_add_other_way(sz, k, 1);
    let chunk = point_bytes(p, compressed);
    assert(bytes.subrange(k * sz, k * sz + 8) =~= chunk.subrange(0, 8));
    assert(chunk.subrange(0, 8) =~= le8(p.value));
    lemma_le_val_le8(p.value);
    if !compressed {
        assert(bytes.subrange(k * sz + 8, k * sz + 16) =~= chunk.subrange(8, 16));
        assert(chunk.subrange(8, 16) =~= le8(0));
        lemma_le_val_le8(0);
    }
}

/// A record whose stored words are a canonical residue (with a zero
/// upper word, uncompressed) is some valid point's encoding.
proof fn lemma_record_invalid(bytes: Seq<u8>, k: int, compressed: bool)
    requires
        k >= 0,
        (k + 1) * point_size(compressed) <= bytes.len(),
        no_valid_record(bytes, k, point_size(compressed), compressed),
    ensures
        !(chunk_val(bytes, 0, k, compressed) < GROUP_ORDER && (!compressed
            ==> chunk_hi_val(bytes, 0, k, compressed) == 0)),
{
    let sz = point_size(compressed);
    lemma_mul_nonnegative(k, sz);
    vstd::arithmetic::mul::lemma_mul_is_distributive_add_other_way(sz, k, 1);
    if chunk_val(bytes, 0, k, compressed) < GROUP_ORDER && (!compressed
        ==> chunk_hi_val(bytes, 0, k, compressed) == 0) {
        let first = bytes.subrange(k * sz, k * sz + 8);
        lemma_le_val_le_bytes_inverse(first);
        let p = GroupElement { value: le_val(first) as u64 };
        assert(p.wf());
        if compressed {
            assert(bytes.subrange(k * sz, (k + 1) * sz) =~= point_bytes(p, compressed));
        } else {
            let second = bytes.subrange(k * sz + 8, k * sz + 16);
            lemma_le_val_le_bytes_inverse(second);
            assert(second == le8(0));
            assert(bytes.subrange(k * sz, (k + 1) * sz) =~= point_bytes(p, compressed));
        }
        assert(false);
    }
}

/// Law: the trusted-setup format round-trips. The byte stream
/// `save_secrets_to_bytes` produces for two well-formed point lists is
/// exactly two valid blocks, whose counts and stored residues are the
/// original lists' — so `load_secrets_from_bytes` on it returns `Ok`
/// with element-wise equal lists.
pub proof fn lemma_saved_secrets_decode(
    g1s: Seq<GroupElement>,
    g2s: Seq<GroupElement>,
    compressed: bool,
)
    requires
        points_wf(g1s),
        points_wf(g2s),
        g1s.len() <= usize::MAX,
        g2s.len() <= usize::MAX,
    ensures
        ({
            let bytes = le8(g1s.len() as u64) + points_bytes(g1s, compressed) + le8(
                g2s.len() as u64,
            ) + points_bytes(g2s, compressed);
            let end1 = block_end(bytes, 0, compressed);
            &&& points_block_ok(bytes, 0, compressed)
            &&& le_val(bytes.subrange(0, 8)) == g1s.len()
            &&& end1 == 8 + g1s.len() * point_size(compressed)
            &&& points_block_ok(bytes, end1, compressed)
            &&& le_val(bytes.subrange(end1, end1 + 8)) == g2s.len()
            &&& forall|k: int| 0 <= k < g1s.len()
                ==> chunk_val(bytes, 8, k, compressed) == (#[trigger] g1s[k]).value
            &&& forall|k: int| 0 <= k < g2s.len()
                ==> chunk_val(bytes, end1 + 8, k, compressed) == (#[trigger] g2s[k]).value
        }),
{
    let sz = point_size(compressed);
    let l1 = g1s.len() as int;
    let l2 = g2s.len() as int;
    let pb1 = points_bytes(g1s, compressed);
    let pb2 = points_bytes(g2s, compressed);
    let bytes = le8(g1s.len() as u64) + pb1 + le8(g2s.len() as u64) + pb2;
    crate::codec::lemma_points_bytes_len_pub(g1s, compressed);
    crate::codec::lemma_points_bytes_len_pub(g2s, compressed);
    lemma_mul_nonnegative(l1, sz);
    lemma_mul_nonnegative(l2, sz);
    assert(bytes.len() == 16 + l1 * sz + l2 * sz);

    // The first count and point block.
    assert(bytes.subrange(0, 8) =~= le8(g1s.len() as u64));
    lemma_le_val_le8(g1s.len() as u64);
    let end1 = block_end(bytes, 0, compressed);
    assert(end1 == 8 + l1 * sz);
    assert(bytes.subrange(8, 8 + l1 * sz) =~= pb1);
    assert forall|k: int| 0 <= k < l1 implies chunk_val(bytes, 8, k, compressed)
        == (#[trigger] g1s[k]).value && (!compressed ==> chunk_hi_val(
        bytes, 8, k, compressed) == 0) by {
        lemma_points_in_place(bytes, 8, g1s, compressed, k);
    }
    assert(points_block_ok(bytes, 0, compressed)) by {
        assert forall|k: int| 0 <= k < l1 implies #[trigger] chunk_val(
            bytes, 0int + 8, k, compressed) < GROUP_ORDER && (!compressed
            ==> chunk_hi_val(bytes, 0int + 8, k, compressed) == 0) by {
            assert(g1s[k].wf());
        }
    }

    // The second count and point block.
    assert(bytes.subrange(end1, end1 + 8) =~= le8(g2s.len() as u64));
    lemma_le_val_le8(g2s.len() as u64);
    assert(bytes.subrange(end1 + 8, end1 + 8 + l2 * sz) =~= pb2);
    assert forall|k: int| 0 <= k < l2 implies chunk_val(bytes, end1 + 8, k, compressed)
        == (#[trigger] g2s[k]).value && (!compressed ==> chunk_hi_val(
        bytes, end1 + 8, k, compressed) == 0) by {
        lemma_points_in_place(bytes, end1 + 8, g2s, compressed, k);
    }
    assert(points_block_ok(bytes, end1, compressed)) by {
        assert(bytes.subrange(end1, end1 + 8) == le8(g2s.len() as u64));
        assert forall|k: int| 0 <= k < l2 implies #[trigger] chunk_val(
            bytes, end1 + 8, k, compressed) < GROUP_ORDER && (!compressed
            ==> chunk_hi_val(bytes, end1 + 8, k, compressed) == 0) by {
            assert(g2s[k].wf());
        }
    }
}

} // verus!
