use vstd::prelude::*;
use crate::crypto::{shared_key, x25519_shared_key};
use crate::natural::{bytes_bits, low_bits};
use crate::routing::{first_free_insert, insert_first_free};
use crate::table::Table;

verus! {

fn push_low_bits(out: &mut Vec<bool>, x: u8, n: u8)
    requires
        n <= 8,
    ensures
        final(out)@ == old(out)@ + low_bits(x as nat, n as nat),
    decreases n,
{
    if n == 0 {
        assert(old(out)@ + low_bits(x as nat, 0) =~= old(out)@);
    } else {
        push_low_bits(out, x / 2, n - 1);
        out.push(x % 2 == 1);
        assert(old(out)@ + low_bits(x as nat, n as nat) =~= old(out)@ + low_bits(
            (x / 2) as nat,
            (n - 1) as nat,
        ) + seq![x % 2 == 1]);
    }
}

/// Each byte written as eight bits, most significant first.
pub fn bits_of_bytes(b: &[u8]) -> (r: Vec<bool>)
    ensures
        r@ == bytes_bits(b@),
{
    let mut r: Vec<bool> = Vec::new();
    let mut i: usize = 0;
    while i < b.len()
        invariant
            i <= b@.len(),
            r@ == bytes_bits(b@.take(i as int)),
        decreases b@.len() - i,
    {
        proof {
            assert(b@.take(i + 1).drop_last() =~= b@.take(i as int));
        }
        push_low_bits(&mut r, b[i], 8);
        i = i + 1;
    }
    assert(b@.take(b@.len() as int) =~= b@);
    r
}

/// Files a peer, with the key shared with it, in the table of the node
/// with `public_key`: in the bucket of the first bit where the two keys
/// differ and the bucket holds fewer than 20 peers; buckets are keyed by
/// the bits of the peer's key up to there, as `0` and `1`.
pub fn add_peer(
    peers: &mut Table<(String, [u8; 32])>,
    private_key: [u8; 32],
    public_key: [u8; 32],
    peer_address: String,
    peer_key: [u8; 32],
)
    ensures
        exists|shared: [u8; 32]|
            shared@ == x25519_shared_key(private_key@, peer_key@) && final(peers)@
                == first_free_insert(
                old(peers)@,
                bytes_bits(public_key@),
                bytes_bits(peer_key@),
                false,
                (peer_address, shared),
                20,
            ),
{
    let node = bits_of_bytes(public_key.as_slice());
    let peer = bits_of_bytes(peer_key.as_slice());
    let shared = shared_key(&private_key, &peer_key);
    proof {
        lemma_bytes_bits_len(public_key@);
        lemma_bytes_bits_len(peer_key@);
    }
    insert_first_free(peers, &node, &peer, (peer_address, shared), false, 20);
}

pub(crate) proof fn lemma_bytes_bits_len(b: Seq<u8>)
    ensures
        bytes_bits(b).len() == 8 * b.len(),
    decreases b.len(),
{
    if b.len() > 0 {
        lemma_bytes_bits_len(b.drop_last());
        lemma_low_bits_len(b.last() as nat, 8);
    }
}

proof fn lemma_low_bits_len(x: nat, n: nat)
    ensures
        low_bits(x, n).len() == n,
    decreases n,
{
    if n > 0 {
        lemma_low_bits_len(x / 2, (n - 1) as nat);
    }
}

} // verus!
