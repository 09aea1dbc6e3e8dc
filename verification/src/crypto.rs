use vstd::prelude::*;

verus! {

/// The BLAKE3 digest of a byte string.
pub uninterp spec fn blake3_digest(data: Seq<u8>) -> Seq<u8>;

/// One level of the Merkle tree: each pair of hashes hashed together, in
/// order; a last hash without a partner is dropped.
pub open spec fn merkle_pairs(hashes: Seq<Seq<u8>>) -> Seq<Seq<u8>>
    decreases hashes.len(),
{
    if hashes.len() < 2 {
        Seq::empty()
    } else {
        seq![blake3_digest(hashes[0] + hashes[1])] + merkle_pairs(hashes.subrange(2, hashes.len() as int))
    }
}

/// A level has half as many hashes, rounded down.
pub proof fn lemma_merkle_pairs_len(hashes: Seq<Seq<u8>>)
    ensures
        merkle_pairs(hashes).len() == hashes.len() / 2,
    decreases hashes.len(),
{
    if hashes.len() >= 2 {
        lemma_merkle_pairs_len(hashes.subrange(2, hashes.len() as int));
    }
}

/// The levels of the tree, up to the one hash at the top.
pub open spec fn merkle_top(hashes: Seq<Seq<u8>>) -> Seq<u8>
    decreases hashes.len(),
{
    if hashes.len() == 0 {
        Seq::empty()
    } else if hashes.len() == 1 {
        hashes[0]
    } else {
        proof {
            lemma_merkle_pairs_len(hashes);
        }
        merkle_top(merkle_pairs(hashes))
    }
}

/// The Merkle root that `fides` computes: 32 zero bytes for no hashes; else
/// an odd list first gets a hash of 32 zero bytes at its end, and levels
/// are made until one hash is left.
pub open spec fn merkle_root_of(hashes: Seq<Seq<u8>>) -> Seq<u8> {
    if hashes.len() == 0 {
        Seq::new(32, |i: int| 0u8)
    } else if hashes.len() % 2 != 0 {
        merkle_top(hashes.push(Seq::new(32, |i: int| 0u8)))
    } else {
        merkle_top(hashes)
    }
}

/// The root of five leaves: the fifth is paired with the padding, and that
/// pair is then left without a partner, so only the first four count.
pub proof fn lemma_five_leaf_root(l: Seq<Seq<u8>>)
    requires
        l.len() == 5,
    ensures
        merkle_root_of(l) == blake3_digest(blake3_digest(l[0] + l[1]) + blake3_digest(l[2] + l[3])),
{
    let z = Seq::new(32, |i: int| 0u8);
    let l6 = l.push(z);
    reveal_with_fuel(merkle_pairs, 4);
    reveal_with_fuel(merkle_top, 3);
    let p = merkle_pairs(l6);
    assert(l6.subrange(2, 6).subrange(2, 4) =~= l6.subrange(4, 6));
    assert(l6.subrange(4, 6).subrange(2, 2) =~= Seq::<Seq<u8>>::empty());
    assert(p =~= seq![
        blake3_digest(l[0] + l[1]),
        blake3_digest(l[2] + l[3]),
        blake3_digest(l[4] + z),
    ]);
    let q = merkle_pairs(p);
    assert(p.subrange(2, 3).len() == 1);
    assert(q =~= seq![blake3_digest(p[0] + p[1])]);
}

/// The views of a list of 32-byte hashes.
pub open spec fn hash_views(hashes: Seq<[u8; 32]>) -> Seq<Seq<u8>> {
    hashes.map_values(|h: [u8; 32]| h@)
}

/// `fides::hash`: the BLAKE3 digest of the bytes, a function of them alone.
#[verifier::external_body]
pub(crate) fn hash(data: &[u8]) -> (r: [u8; 32])
    ensures
        r@ == blake3_digest(data@),
{
    fides::hash(data)
}

/// `fides::merkle_root`: the Merkle root of the hashes, as `merkle_root_of`
/// states it.
#[verifier::external_body]
pub(crate) fn merkle_root(hashes: Vec<[u8; 32]>) -> (r: [u8; 32])
    ensures
        r@ == merkle_root_of(hash_views(hashes@)),
{
    fides::merkle_root(hashes)
}

/// The X25519 shared key that `fides` derives from a private key and a
/// peer's public key (the hash of the shared point).
pub uninterp spec fn x25519_shared_key(private_key: Seq<u8>, public_key: Seq<u8>) -> Seq<u8>;

/// `fides::x25519::shared_key`: the key shared with the holder of
/// `public_key`, a function of the two keys alone.
#[verifier::external_body]
pub(crate) fn shared_key(private_key: &[u8; 32], public_key: &[u8; 32]) -> (r: [u8; 32])
    ensures
        r@ == x25519_shared_key(private_key@, public_key@),
{
    fides::x25519::shared_key(private_key, public_key)
}

/// The X25519 public key that belongs to a private key.
pub uninterp spec fn x25519_public(private_key: Seq<u8>) -> Seq<u8>;

/// What ChaCha20-Poly1305 opening of sealed bytes (a 12-byte nonce, then the
/// ciphertext and tag) under a key gives: the plaintext, or nothing where
/// the tag does not match.
pub uninterp spec fn chacha_open(key: Seq<u8>, sealed: Seq<u8>) -> Option<Seq<u8>>;

/// `fides::x25519::private_key`: a fresh key from the operating system's
/// random source; nothing is stated of its bytes.
#[verifier::external_body]
pub(crate) fn new_private_key() -> (r: [u8; 32]) {
    fides::x25519::private_key()
}

/// `fides::x25519::public_key`: the public key of a private key, a function
/// of it alone.
#[verifier::external_body]
pub(crate) fn public_key_of(private_key: &[u8; 32]) -> (r: [u8; 32])
    ensures
        r@ == x25519_public(private_key@),
{
    fides::x25519::public_key(private_key)
}

/// Whether ChaCha20-Poly1305 seals a message of this length: the cipher
/// refuses a message of `u32::MAX` 64-byte blocks or more, for which its
/// block counter has no room.
pub open spec fn sealable(message: Seq<u8>) -> bool {
    message.len() / 64 < 0xffff_ffff
}

/// `fides::chacha20poly1305::encrypt`: seals the message under a fresh
/// random nonce, which it puts in front. It fails exactly where the cipher
/// refuses the message's length. The nonce is not stated; what is stated
/// is that opening the sealed bytes under the same key gives the message
/// back.
#[verifier::external_body]
pub(crate) fn seal(key: &[u8; 32], message: &[u8]) -> (r: Option<Vec<u8>>)
    ensures
        r is Some <==> sealable(message@),
        r matches Some(c) ==> c@.len() >= 12 && chacha_open(key@, c@) == Some(message@),
{
    fides::chacha20poly1305::encrypt(key, message).ok()
}

/// `fides::chacha20poly1305::decrypt`, on sealed bytes of at least 12 bytes
/// (shorter ones make it slice out of range): the opened plaintext, a
/// function of the key and the bytes alone.
#[verifier::external_body]
pub(crate) fn open(key: &[u8; 32], sealed: &[u8]) -> (r: Option<Vec<u8>>)
    requires
        sealed@.len() >= 12,
    ensures
        match chacha_open(key@, sealed@) {
            Some(p) => r matches Some(v) && v@ == p,
            None => r is None,
        },
{
    fides::chacha20poly1305::decrypt(key, sealed).ok()
}

} // verus!
