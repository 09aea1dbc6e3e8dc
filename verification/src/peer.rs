use vstd::prelude::*;
use vstd::string::StringExecFns;
use crate::natural::{Natural, spec_from_bytes};
use crate::routing::{first_free_insert, insert_first_free, walk_in_bounds, walk_stays_in_bounds};
use crate::table::Table;

verus! {

/// A peer: where it listens, its public key, and the key shared with it.
#[derive(Debug)]
pub struct Peer {
    pub address: String,
    pub public_key: [u8; 32],
    pub shared_key: [u8; 32],
}

impl Clone for Peer {
    fn clone(&self) -> (r: Peer)
        ensures
            r.address@ == self.address@,
            r.public_key == self.public_key,
            r.shared_key == self.shared_key,
    {
        Peer { address: self.address.clone(), public_key: self.public_key, shared_key: self.shared_key }
    }
}

/// The most entries a bucket of peers takes.
pub open spec fn peer_bucket_cap() -> nat {
    20
}

impl Peer {
    /// A placeholder peer at `127.0.0.1:8080` with zero keys.
    pub fn new() -> (r: Peer)
        ensures
            r.address@ == "127.0.0.1:8080"@,
            r.public_key@ == Seq::new(32, |i: int| 0u8),
            r.shared_key@ == Seq::new(32, |i: int| 0u8),
    {
        let r = Peer {
            address: String::from_str("127.0.0.1:8080"),
            public_key: [0u8; 32],
            shared_key: [0u8; 32],
        };
        assert(r.public_key@ =~= Seq::new(32, |i: int| 0u8));
        assert(r.shared_key@ =~= Seq::new(32, |i: int| 0u8));
        r
    }

    /// Files this peer in the table of the node with `public_key`: in the
    /// bucket of the first bit where the two keys' integers differ and the
    /// bucket holds fewer than 20 peers; buckets are keyed by the binary
    /// rendering of the peer's bits up to there. The walk must not run past
    /// the node's bits.
    pub fn add_peer(self, peers: &mut Table<Peer>, public_key: [u8; 32])
        requires
            walk_in_bounds(
                old(peers)@,
                spec_from_bytes(public_key@),
                spec_from_bytes(self.public_key@),
                true,
                peer_bucket_cap(),
            ),
        ensures
            final(peers)@ == first_free_insert(
                old(peers)@,
                spec_from_bytes(public_key@),
                spec_from_bytes(self.public_key@),
                true,
                self,
                peer_bucket_cap(),
            ),
    {
        let node = Natural::from_bytes(public_key.as_slice());
        let peer = Natural::from_bytes(self.public_key.as_slice());
        insert_first_free(peers, node.bits(), peer.bits(), self, true, 20);
    }

    /// Files this peer as `add_peer` does where the walk stays within the
    /// node's bits, and says whether it did; elsewhere the table stays as it
    /// is.
    pub fn try_add_peer(self, peers: &mut Table<Peer>, public_key: [u8; 32]) -> (r: bool)
        ensures
            r == walk_in_bounds(
                old(peers)@,
                spec_from_bytes(public_key@),
                spec_from_bytes(self.public_key@),
                true,
                peer_bucket_cap(),
            ),
            r ==> final(peers)@ == first_free_insert(
                old(peers)@,
                spec_from_bytes(public_key@),
                spec_from_bytes(self.public_key@),
                true,
                self,
                peer_bucket_cap(),
            ),
            !r ==> final(peers)@ == old(peers)@,
    {
        let node = Natural::from_bytes(public_key.as_slice());
        let peer = Natural::from_bytes(self.public_key.as_slice());
        if walk_stays_in_bounds(peers, node.bits(), peer.bits(), true, 20) {
            self.add_peer(peers, public_key);
            true
        } else {
            false
        }
    }
}

} // verus!
