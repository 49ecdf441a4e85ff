//! XOR encryption and decryption: single-byte XOR and repeating-key XOR.

use vstd::prelude::*;

verus! {

/// The sequence obtained by XOR-ing every byte of `s` with the single byte `k`.
pub open spec fn xor_with_byte_spec(s: Seq<u8>, k: u8) -> Seq<u8> {
    Seq::new(s.len(), |i: int| s[i] ^ k)
}

/// The sequence obtained by XOR-ing `data` with `key` applied cyclically:
/// byte `i` of the result is `data[i] ^ key[i % key.len()]`.
pub open spec fn xor_with_key_spec(key: Seq<u8>, data: Seq<u8>) -> Seq<u8>
    recommends
        key.len() > 0,
{
    Seq::new(data.len(), |i: int| data[i] ^ key[i % key.len() as int])
}

/// XOR is an involution on bytes.
proof fn lemma_xor_involutive()
    by (bit_vector)
    ensures
        forall|a: u8, b: u8| #[trigger] ((a ^ b) ^ b) == a,
{
}

/// Decrypt `data` by XOR-ing every byte with the single key byte `k`.
///
/// A single-byte XOR cipher is a degenerate repeating-key cipher of length 1,
/// and is its own inverse.
pub fn xor_with_byte(data: &[u8], k: u8) -> (r: Vec<u8>)
    ensures
        r@ == xor_with_byte_spec(data@, k),
{
    let mut out: Vec<u8> = Vec::new();
    let mut i: usize = 0;
    while i < data.len()
        invariant
            i <= data.len(),
            out@.len() == i,
            forall|j: int| 0 <= j < i ==> out@[j] == data@[j] ^ k,
        decreases data.len() - i,
    {
        out.push(data[i] ^ k);
        i = i + 1;
    }
    proof {
        assert(out@ =~= xor_with_byte_spec(data@, k));
    }
    out
}

/// Encrypt or decrypt `data` with `key` applied cyclically.
pub fn xor_with_key(key: &[u8], data: &[u8]) -> (r: Vec<u8>)
    requires
        key.len() >= 1,
    ensures
        r@ == xor_with_key_spec(key@, data@),
{
    let mut out: Vec<u8> = Vec::new();
    let mut i: usize = 0;
    while i < data.len()
        invariant
            key.len() >= 1,
            i <= data.len(),
            out@.len() == i,
            forall|j: int| 0 <= j < i ==> out@[j] == data@[j] ^ key@[j % key@.len() as int],
        decreases data.len() - i,
    {
        out.push(data[i] ^ key[i % key.len()]);
        i = i + 1;
    }
    proof {
        assert(out@ =~= xor_with_key_spec(key@, data@));
    }
    out
}

/// Round trip: XOR-ing twice with the same (non-empty) key restores the data.
pub proof fn lemma_xor_round_trip(key: Seq<u8>, data: Seq<u8>)
    requires
        key.len() > 0,
    ensures
        xor_with_key_spec(key, xor_with_key_spec(key, data)) == data,
{
    lemma_xor_involutive();
    assert(xor_with_key_spec(key, xor_with_key_spec(key, data)) =~= data);
}

/// Round trip for the single-byte cipher: XOR-ing twice with the same byte
/// restores the data.
pub proof fn lemma_xor_byte_round_trip(s: Seq<u8>, k: u8)
    ensures
        xor_with_byte_spec(xor_with_byte_spec(s, k), k) == s,
{
    lemma_xor_involutive();
    assert(xor_with_byte_spec(xor_with_byte_spec(s, k), k) =~= s);
}

} // verus!
