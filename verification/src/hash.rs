//! The truncated SHA-256 hash that names a request path, and the integer
//! key that the page index stores it under.

use vstd::prelude::*;

verus! {

/// The SHA-256 digest of `data`, as the crypto crate computes it.
pub uninterp spec fn sha256_of(data: Seq<u8>) -> Seq<u8>;

/// Calls `rns_crypto::sha256::sha256`. Trusted: its result is the digest
/// `sha256_of(data)` (a function of the bytes alone); a 32-byte array by its type.
#[verifier::external_body]
fn sha256(data: &[u8]) -> (r: [u8; 32])
    ensures
        r@ == sha256_of(data@),
{
    rns_crypto::sha256::sha256(data)
}

/// The first 16 bytes of the SHA-256 digest of `data`.
pub open spec fn truncated_hash_of(data: Seq<u8>) -> Seq<u8> {
    sha256_of(data).take(16)
}

/// The first 16 bytes of a SHA-256 digest.
pub fn truncate_digest(full: &[u8; 32]) -> (r: [u8; 16])
    ensures
        r@ == full@.take(16),
{
    proof {
        vstd::array::array_len_matches_n(full);
    }
    let mut out = [0u8; 16];
    let mut i: usize = 0;
    while i < 16
        invariant
            i <= 16,
            full@.len() == 32,
            out@.len() == 16,
            forall|k: int| 0 <= k < i ==> out@[k] == full@[k],
        decreases 16 - i,
    {
        out[i] = full[i];
        i = i + 1;
    }
    assert(out@ =~= full@.take(16));
    out
}

/// The 16-byte truncated hash of `data`.
pub fn truncated_hash(data: &[u8]) -> (r: [u8; 16])
    ensures
        r@ == truncated_hash_of(data@),
{
    truncate_digest(&sha256(data))
}

/// The big-endian value of a byte sequence.
pub open spec fn be_value(s: Seq<u8>) -> nat
    decreases s.len(),
{
    if s.len() == 0 {
        0
    } else {
        be_value(s.drop_last()) * 256 + s.last() as nat
    }
}

/// `256` to the power `n`.
pub open spec fn pow256(n: nat) -> nat
    decreases n,
{
    if n == 0 {
        1
    } else {
        256 * pow256((n - 1) as nat)
    }
}

proof fn lemma_be_value_bound(s: Seq<u8>)
    ensures
        be_value(s) < pow256(s.len()),
    decreases s.len(),
{
    if s.len() > 0 {
        lemma_be_value_bound(s.drop_last());
        let v = be_value(s.drop_last());
        let p = pow256((s.len() - 1) as nat);
        let b = s.last();
        assert(v * 256 + b < 256 * p) by (nonlinear_arith)
            requires
                v < p,
                b < 256,
        ;
    }
}

/// Two byte sequences of one length with one big-endian value are equal.
pub proof fn lemma_be_value_injective(a: Seq<u8>, b: Seq<u8>)
    requires
        a.len() == b.len(),
        be_value(a) == be_value(b),
    ensures
        a == b,
    decreases a.len(),
{
    if a.len() > 0 {
        let x = be_value(a.drop_last());
        let y = be_value(b.drop_last());
        let r = a.last();
        let t = b.last();
        assert(x == y && r == t) by (nonlinear_arith)
            requires
                x * 256 + r == y * 256 + t,
                0 <= r < 256,
                0 <= t < 256,
                x >= 0,
                y >= 0,
        ;
        lemma_be_value_injective(a.drop_last(), b.drop_last());
        assert(a =~= a.drop_last().push(r));
        assert(b =~= b.drop_last().push(t));
    } else {
        assert(a =~= b);
    }
}

/// The integer key of a 16-byte hash: its big-endian value.
pub open spec fn hash_key(h: Seq<u8>) -> u128 {
    be_value(h) as u128
}

/// The integer key of the hash `h`.
pub fn key_of(h: &[u8; 16]) -> (r: u128)
    ensures
        r == hash_key(h@),
        r as nat == be_value(h@),
{
    proof {
        vstd::array::array_len_matches_n(h);
        reveal_with_fuel(pow256, 17);
    }
    let mut acc: u128 = 0;
    let mut i: usize = 0;
    while i < 16
        invariant
            i <= 16,
            h@.len() == 16,
            acc as nat == be_value(h@.take(i as int)),
            acc < pow256(i as nat),
            pow256(15) * 256 == 0x1_0000_0000_0000_0000_0000_0000_0000_0000,
        decreases 16 - i,
    {
        let b = h[i];
        proof {
            assert(h@.take(i + 1).drop_last() =~= h@.take(i as int));
            lemma_be_value_bound(h@.take(i as int));
            let p = pow256(i as nat);
            assert(p <= pow256(15)) by {
                lemma_pow256_mono(i as nat, 15);
            }
            assert(acc * 256 + b < p * 256) by (nonlinear_arith)
                requires
                    acc < p,
                    b < 256,
            ;
            assert(p * 256 <= pow256(15) * 256) by (nonlinear_arith)
                requires
                    p <= pow256(15),
            ;
        }
        acc = acc * 256 + b as u128;
        i = i + 1;
    }
    assert(h@.take(16) =~= h@);
    acc
}

proof fn lemma_pow256_mono(a: nat, b: nat)
    requires
        a <= b,
    ensures
        pow256(a) <= pow256(b),
    decreases b,
{
    if a < b {
        lemma_pow256_mono(a, (b - 1) as nat);
    }
}


/// The `n` low bytes of `v`, big-endian.
pub open spec fn be_bytes(v: nat, n: nat) -> Seq<u8>
    decreases n,
{
    if n == 0 {
        Seq::empty()
    } else {
        be_bytes(v / 256, (n - 1) as nat).push((v % 256) as u8)
    }
}

proof fn lemma_be_bytes(v: nat, n: nat)
    ensures
        be_bytes(v, n).len() == n,
        be_value(be_bytes(v, n)) == v % pow256(n),
    decreases n,
{
    if n > 0 {
        lemma_be_bytes(v / 256, (n - 1) as nat);
        let p = pow256((n - 1) as nat);
        lemma_pow256_positive((n - 1) as nat);
        assert(be_bytes(v, n).drop_last() =~= be_bytes(v / 256, (n - 1) as nat));
        vstd::arithmetic::div_mod::lemma_mod_breakdown(v as int, 256, p as int);
        assert(((v / 256) % p) * 256 == 256 * ((v / 256) % p)) by (nonlinear_arith);
    }
}

proof fn lemma_pow256_positive(n: nat)
    ensures
        pow256(n) > 0,
    decreases n,
{
    if n > 0 {
        lemma_pow256_positive((n - 1) as nat);
    }
}

/// Every key is the key of exactly one 16-byte hash: its 16 big-endian
/// bytes, which is the only 16-byte hash with that key.
pub proof fn lemma_hash_key_bijective(k: u128, h: Seq<u8>)
    ensures
        be_bytes(k as nat, 16).len() == 16,
        hash_key(be_bytes(k as nat, 16)) == k,
        h.len() == 16 && hash_key(h) == k ==> h == be_bytes(k as nat, 16),
{
    reveal_with_fuel(pow256, 17);
    lemma_be_bytes(k as nat, 16);
    assert(pow256(16) == 0x1_0000_0000_0000_0000_0000_0000_0000_0000);
    if h.len() == 16 && hash_key(h) == k {
        lemma_be_value_bound(h);
        lemma_be_value_injective(h, be_bytes(k as nat, 16));
    }
}

} // verus!
