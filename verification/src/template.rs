//! The canonical hash of a state-bearing contract template.
use vstd::prelude::*;
use blake2b_simd::Params as Blake2bParams;
use kaspa_txscript::serialize_i64;

verus! {

/// The width of each encoded part length.
pub const TEMPLATE_PART_LENGTH_BYTES: usize = 8;

/// The `k` low bytes of `n`, least significant first.
pub open spec fn le_bytes(n: nat, k: nat) -> Seq<u8>
    decreases k,
{
    if k == 0 {
        Seq::empty()
    } else {
        seq![(n % 256) as u8] + le_bytes(n / 256, (k - 1) as nat)
    }
}

/// The number that little-endian bytes spell.
pub open spec fn le_value(bs: Seq<u8>) -> nat
    decreases bs.len(),
{
    if bs.len() == 0 {
        0
    } else {
        (bs[0] + 256 * le_value(bs.drop_first())) as nat
    }
}

/// `256` to the power `k`.
pub open spec fn pow256(k: nat) -> nat
    decreases k,
{
    if k == 0 {
        1
    } else {
        256 * pow256((k - 1) as nat)
    }
}

/// What the template hash is taken of: the prefix length in eight
/// little-endian bytes, the prefix, the suffix length likewise, the suffix.
pub open spec fn template_preimage(prefix: Seq<u8>, suffix: Seq<u8>) -> Seq<u8> {
    le_bytes(prefix.len(), 8) + prefix + le_bytes(suffix.len(), 8) + suffix
}

/// BLAKE2b with a 32-byte output, applied to the data.
pub uninterp spec fn blake2b_256(data: Seq<u8>) -> Seq<u8>;

/// `kaspa_txscript::serialize_i64(n, Some(8))` of a non-negative `n`: its
/// minimal little-endian bytes, padded with zeros to eight bytes (the sign
/// bit stays clear, and eight bytes always suffice).
#[verifier::external_body]
fn serialize_part_length(n: i64) -> (r: Vec<u8>)
    requires
        n >= 0,
    ensures
        r@ == le_bytes(n as nat, 8),
{
    serialize_i64(n, Some(TEMPLATE_PART_LENGTH_BYTES)).unwrap().to_vec()
}

/// BLAKE2b of the data with a 32-byte output, through `blake2b_simd`:
/// `Params` with `hash_length(32)`, one `State` fed the data, finalized.
#[verifier::external_body]
fn blake2b_256_hash(data: &[u8]) -> (r: [u8; 32])
    ensures
        r@ == blake2b_256(data@),
{
    let hash = Blake2bParams::new().hash_length(32).to_state().update(data).finalize();
    let mut out = [0u8; 32];
    out.copy_from_slice(hash.as_bytes());
    out
}

/// Appends the bytes of `src` to `dst`.
fn append_bytes(dst: &mut Vec<u8>, src: &[u8])
    ensures
        final(dst)@ == old(dst)@ + src@,
{
    let ghost start = dst@;
    let mut i: usize = 0;
    while i < src.len()
        invariant
            i <= src@.len(),
            dst@ == start + src@.take(i as int),
        decreases src@.len() - i,
    {
        dst.push(src[i]);
        assert(src@.take(i + 1) =~= src@.take(i as int).push(src@[i as int]));
        assert(dst@ =~= start + src@.take(i + 1));
        i = i + 1;
    }
    assert(src@.take(src@.len() as int) =~= src@);
}

/// The canonical hash of a state-bearing contract template. The fixed-width
/// part lengths bind the boundary where serialized state is inserted
/// between the template prefix and suffix.
pub fn template_hash(prefix: &[u8], suffix: &[u8]) -> (r: [u8; 32])
    requires
        prefix@.len() <= i64::MAX,
        suffix@.len() <= i64::MAX,
    ensures
        r@ == blake2b_256(template_preimage(prefix@, suffix@)),
{
    let encoded_prefix_len = serialize_part_length(prefix.len() as i64);
    let encoded_suffix_len = serialize_part_length(suffix.len() as i64);
    let mut preimage: Vec<u8> = Vec::new();
    append_bytes(&mut preimage, encoded_prefix_len.as_slice());
    append_bytes(&mut preimage, prefix);
    append_bytes(&mut preimage, encoded_suffix_len.as_slice());
    append_bytes(&mut preimage, suffix);
    assert(preimage@ =~= template_preimage(prefix@, suffix@));
    blake2b_256_hash(preimage.as_slice())
}

/// `k` low bytes spell back any number below `256^k`.
proof fn lemma_le_bytes_value(n: nat, k: nat)
    requires
        n < pow256(k),
    ensures
        le_bytes(n, k).len() == k,
        le_value(le_bytes(n, k)) == n,
    decreases k,
{
    if k > 0 {
        let p = pow256((k - 1) as nat);
        assert(n / 256 < p) by (nonlinear_arith)
            requires
                n < 256 * p,
        ;
        lemma_le_bytes_value(n / 256, (k - 1) as nat);
        let bs = le_bytes(n, k);
        assert(bs.drop_first() =~= le_bytes(n / 256, (k - 1) as nat));
        assert(n == 256 * (n / 256) + n % 256) by (nonlinear_arith);
    }
}

/// Different template parts give different preimages: the encoded prefix
/// length fixes where the prefix ends and the suffix begins.
pub proof fn lemma_template_preimage_injective(p1: Seq<u8>, s1: Seq<u8>, p2: Seq<u8>, s2: Seq<u8>)
    requires
        p1.len() <= i64::MAX,
        s1.len() <= i64::MAX,
        p2.len() <= i64::MAX,
        s2.len() <= i64::MAX,
        template_preimage(p1, s1) == template_preimage(p2, s2),
    ensures
        p1 == p2,
        s1 == s2,
{
    assert(pow256(8) == 0x1_0000_0000_0000_0000) by {
        reveal_with_fuel(pow256, 9);
    }
    lemma_le_bytes_value(p1.len(), 8);
    lemma_le_bytes_value(p2.len(), 8);
    lemma_le_bytes_value(s1.len(), 8);
    lemma_le_bytes_value(s2.len(), 8);
    let a = template_preimage(p1, s1);
    let b = template_preimage(p2, s2);
    assert(a.subrange(0, 8) =~= le_bytes(p1.len(), 8));
    assert(b.subrange(0, 8) =~= le_bytes(p2.len(), 8));
    assert(p1.len() == p2.len());
    assert(a.subrange(8, 8 + p1.len() as int) =~= p1);
    assert(b.subrange(8, 8 + p2.len() as int) =~= p2);
    let m: int = 8 + p1.len() as int;
    assert(a.subrange(m, m + 8) =~= le_bytes(s1.len(), 8));
    assert(b.subrange(m, m + 8) =~= le_bytes(s2.len(), 8));
    assert(s1.len() == s2.len());
    assert(a.subrange(m + 8, m + 8 + s1.len() as int) =~= s1);
    assert(b.subrange(m + 8, m + 8 + s2.len() as int) =~= s2);
}

} // verus!
