use vstd::prelude::*;
use vstd::utf8::{decode_utf8, encode_utf8, valid_utf8};
use crate::crypto::{chacha_open, new_private_key, open, public_key_of, seal, sealable, shared_key, x25519_public, x25519_shared_key};
use crate::envelope::{Envelope, EnvelopeView, envelope_stamped_from, envelope_unstamped};
use crate::kind::Kind;
use crate::envelope::key_from_slice;
use crate::client::{all_peers, datagram_views, utf8_text};
use crate::message::{Message, message_parse_panics, parse_message};
use crate::peer::Peer;
use crate::peers::add_peer;
use crate::routing::first_free_insert;
use crate::route::Route;
use crate::table::{Table, bucket_get, entry_lookup};
use crate::natural::bytes_bits;

verus! {

/// A peer as the bootstrap node files it: its address and the key shared with it.
pub type PeerEntry = (String, [u8; 32]);

/// A bootstrap node: its key pair, its route, and its routing table.
pub struct Network {
    pub private_key: [u8; 32],
    pub public_key: [u8; 32],
    pub route: Route,
    pub peers: Table<PeerEntry>,
}

/// What the bootstrap node does with a datagram.
pub enum Bootstrap {
    /// Send these datagrams: bytes and the address each goes to.
    Send(Vec<(Vec<u8>, String)>),
    /// Hand the decrypted message to the application, with its sender.
    Deliver(Message, Peer),
    /// Do nothing.
    Ignore,
}

/// A greeting: a tag (3 asks for a ping, 4 answers one), the route, the key.
pub open spec fn greeting(tag: u8, route: Route, key: Seq<u8>) -> Seq<u8> {
    seq![tag, route.spec_byte()] + key
}

/// The address of the peer under key 1 of every bucket that has one.
pub open spec fn first_peer_addresses(t: Seq<(Seq<char>, Seq<(u8, PeerEntry)>)>) -> Seq<Seq<char>>
    decreases t.len(),
{
    if t.len() == 0 {
        Seq::empty()
    } else {
        first_peer_addresses(t.drop_last()) + match entry_lookup(t.last().1, 1) {
            Some(p) => seq![p.0@],
            None => Seq::<Seq<char>>::empty(),
        }
    }
}

/// Every bucket has an entry under key 1.
pub open spec fn every_bucket_has_first(t: Seq<(Seq<char>, Seq<(u8, PeerEntry)>)>) -> bool {
    forall|i: int| 0 <= i < t.len() ==> (#[trigger] entry_lookup(t[i].1, 1)) is Some
}

/// The address of every peer, bucket after bucket.
pub open spec fn peer_addresses(t: Seq<(Seq<char>, Seq<(u8, PeerEntry)>)>) -> Seq<Seq<char>>
    decreases t.len(),
{
    if t.len() == 0 {
        Seq::empty()
    } else {
        peer_addresses(t.drop_last()) + t.last().1.map_values(|e: (u8, PeerEntry)| e.1.0@)
    }
}

/// The bytes a datagram's tag and route byte stand at; the route byte read
/// is the node's own.
pub open spec fn same_route(b: Seq<u8>, route: Route) -> bool {
    b.len() >= 2 && Route::spec_from_byte(b[1]) == Ok::<Route, crate::error::Error>(route)
}

impl Network {
    /// The plaintext a sealed datagram (tag 5, the sender's key, the sealed
    /// message) opens to under the key shared with the sender.
    pub open spec fn opened(self, b: Seq<u8>) -> Option<Seq<u8>> {
        chacha_open(
            x25519_shared_key(self.private_key@, b.subrange(1, 33)),
            b.subrange(33, b.len() as int),
        )
    }

    /// The datagrams on which handling does not return: an empty datagram;
    /// a join request for the node's route while a bucket lacks key 1; a
    /// join response that is not text; a ping request or response too short
    /// for its route or, on the node's route, for its key; a sealed message
    /// too short, that does not open, or that does not read as a message.
    pub open spec fn bootstrap_panics(self, b: Seq<u8>) -> bool {
        ||| b.len() == 0
        ||| b[0] == 1 && (b.len() < 2 || (same_route(b, self.route) && !every_bucket_has_first(
            self.peers@,
        )))
        ||| b[0] == 2 && !valid_utf8(b.subrange(1, b.len() as int))
        ||| (b[0] == 3 || b[0] == 4) && (b.len() < 2 || (same_route(b, self.route) && b.len() < 34))
        ||| b[0] == 5 && (b.len() < 45 || match self.opened(b) {
            None => true,
            Some(p) => message_parse_panics(p) || parse_message(p) is Err,
        })
    }
}

/// What handling a datagram comes to: `s` before, `n` after, `r` the
/// action. The keys and the route stay; for the rest see `bootstrap_step`.
pub open spec fn bootstrap_outcome(s: Network, n: Network, b: Seq<u8>, src: String, r: Bootstrap) -> bool {
    &&& n.private_key == s.private_key
    &&& n.public_key == s.public_key
    &&& n.route == s.route
    &&& {
        let ping = greeting(3, s.route, s.public_key@);
        if b[0] == 1 {
            n.peers@ == s.peers@ && if same_route(b, s.route) {
                (r matches Bootstrap::Send(v) && datagram_views(v@) == seq![(ping, src@)]
                    + first_peer_addresses(s.peers@).map_values(
                    |a: Seq<char>| (seq![2u8] + encode_utf8(a), src@),
                ))
            } else {
                r is Ignore
            }
        } else if b[0] == 2 {
            n.peers@ == s.peers@ && (r matches Bootstrap::Send(v) && datagram_views(v@)
                == seq![(ping, decode_utf8(b.subrange(1, b.len() as int)))])
        } else if b[0] == 3 || b[0] == 4 {
            if same_route(b, s.route) {
                let key = b.subrange(2, 34);
                &&& exists|shared: [u8; 32]|
                    shared@ == x25519_shared_key(s.private_key@, key) && n.peers@
                        == first_free_insert(
                        s.peers@,
                        bytes_bits(s.public_key@),
                        bytes_bits(key),
                        false,
                        (src, shared),
                        20,
                    )
                &&& if b[0] == 3 {
                    (r matches Bootstrap::Send(v) && datagram_views(v@) == seq![
                        (greeting(4, s.route, s.public_key@), src@),
                    ])
                } else {
                    r is Ignore
                }
            } else {
                n.peers@ == s.peers@ && r is Ignore
            }
        } else if b[0] == 5 {
            let key = b.subrange(1, 33);
            &&& n.peers@ == s.peers@
            &&& (r matches Bootstrap::Deliver(m, p) && parse_message(s.opened(b).unwrap())
                == Ok::<crate::message::MessageView, crate::error::Error>(m@) && p.address@
                == src@ && p.public_key@ == key && p.shared_key@ == x25519_shared_key(
                s.private_key@,
                key,
            ))
        } else {
            n.peers@ == s.peers@ && r is Ignore
        }
    }
}

/// Bytes `[tag, route, key...]`.
fn greet(tag: u8, route: &Route, key: &[u8; 32]) -> (r: Vec<u8>)
    ensures
        r@ == greeting(tag, *route, key@),
{
    let mut r: Vec<u8> = Vec::new();
    r.push(tag);
    let mut rb = route.to_bytes();
    r.append(&mut rb);
    let mut k = vstd::slice::slice_to_vec(key.as_slice());
    r.append(&mut k);
    assert(r@ =~= greeting(tag, *route, key@));
    r
}

/// Whether every bucket has an entry under key 1.
fn has_first_everywhere(t: &Table<PeerEntry>) -> (r: bool)
    ensures
        r == every_bucket_has_first(t@),
{
    let buckets = t.buckets();
    let mut i: usize = 0;
    let mut all = true;
    while i < buckets.len()
        invariant
            i <= buckets@.len(),
            buckets@.map_values(|x: (String, Vec<(u8, PeerEntry)>)| (x.0@, x.1@)) == t@,
            all == forall|j: int| 0 <= j < i ==> (#[trigger] entry_lookup(t@[j].1, 1)) is Some,
        decreases buckets@.len() - i,
    {
        assert(t@[i as int].1 == buckets@[i as int].1@);
        if bucket_get(&buckets[i].1, 1).is_none() {
            all = false;
        }
        i = i + 1;
    }
    all
}

impl Network {
    /// A bootstrap node on `route` with a fresh key pair and an empty table.
    pub fn configure(route: Route) -> (r: Network)
        ensures
            r.public_key@ == x25519_public(r.private_key@),
            r.route == route,
            r.peers@.len() == 0,
    {
        let private_key = new_private_key();
        let public_key = public_key_of(&private_key);
        Network { private_key, public_key, route, peers: Table::new() }
    }

    /// Whether handling the datagram returns.
    pub fn bootstrap_handles(&self, buf: &[u8]) -> (r: bool)
        ensures
            r == !self.bootstrap_panics(buf@),
    {
        let b = buf;
        if b.len() == 0 {
            return false;
        }
        let ghost v = b@;
        if b[0] == 1 {
            if b.len() < 2 {
                return false;
            }
            let matches = match Route::from_byte(b[1]) {
                Ok(r) => r == self.route,
                Err(_) => false,
            };
            if !matches {
                return true;
            }
            assert(same_route(v, self.route));
            has_first_everywhere(&self.peers)
        } else if b[0] == 2 {
            utf8_text(vstd::slice::slice_subrange(b, 1, b.len())).is_some()
        } else if b[0] == 3 || b[0] == 4 {
            if b.len() < 2 {
                return false;
            }
            let matches = match Route::from_byte(b[1]) {
                Ok(r) => r == self.route,
                Err(_) => false,
            };
            !(matches && b.len() < 34)
        } else if b[0] == 5 {
            if b.len() < 45 {
                return false;
            }
            let peer_key = match key_from_slice(vstd::slice::slice_subrange(b, 1, 33)) {
                Some(k) => k,
                None => return false,
            };
            let shared = shared_key(&self.private_key, &peer_key);
            match open(&shared, vstd::slice::slice_subrange(b, 33, b.len())) {
                None => false,
                Some(plain) => Message::readable(plain.as_slice()) && Message::from_bytes(
                    plain.as_slice(),
                ).is_ok(),
            }
        } else {
            true
        }
    }

    /// Handles the datagram where that returns; gives nothing, and leaves
    /// the node as it is, where it would not.
    pub fn try_bootstrap_step(&mut self, buf: &[u8], src: &String) -> (r: Option<Bootstrap>)
        ensures
            r is None <==> old(self).bootstrap_panics(buf@),
            r is None ==> *final(self) == *old(self),
            r matches Some(x) ==> bootstrap_outcome(*old(self), *final(self), buf@, *src, x),
    {
        if self.bootstrap_handles(buf) {
            Some(self.bootstrap_step(buf, src))
        } else {
            None
        }
    }

    /// The ping request to every peer, after which the table is emptied.
    pub fn refresh(&mut self) -> (r: Vec<(Vec<u8>, String)>)
        ensures
            datagram_views(r@) == peer_addresses(old(self).peers@).map_values(
                |a: Seq<char>| (greeting(3, old(self).route, old(self).public_key@), a),
            ),
            final(self).peers@.len() == 0,
            final(self).private_key == old(self).private_key,
            final(self).public_key == old(self).public_key,
            final(self).route == old(self).route,
    {
        let ping = greet(3, &self.route, &self.public_key);
        let ghost g = ping@;
        let buckets = self.peers.buckets();
        let ghost tv = self.peers@;
        let mut out: Vec<(Vec<u8>, String)> = Vec::new();
        let mut i: usize = 0;
        while i < buckets.len()
            invariant
                i <= buckets@.len(),
                buckets@.map_values(|x: (String, Vec<(u8, PeerEntry)>)| (x.0@, x.1@)) == tv,
                ping@ == g,
                datagram_views(out@) == peer_addresses(tv.take(i as int)).map_values(
                    |a: Seq<char>| (g, a),
                ),
            decreases buckets@.len() - i,
        {
            let bucket = &buckets[i].1;
            assert(tv[i as int].1 == bucket@);
            let ghost base = datagram_views(out@);
            let mut j: usize = 0;
            while j < bucket.len()
                invariant
                    i < buckets@.len(),
                    j <= bucket@.len(),
                    ping@ == g,
                    datagram_views(out@) == base + bucket@.take(j as int).map_values(
                        |e: (u8, PeerEntry)| (g, e.1.0@),
                    ),
                decreases bucket@.len() - j,
            {
                let p = ping.clone();
                assert(p@ =~= g);
                let a = bucket[j].1.0.clone();
                let ghost before = out@;
                out.push((p, a));
                proof {
                    assert(datagram_views(out@) =~= datagram_views(before).push((g, a@)));
                    assert(bucket@.take(j + 1).map_values(|e: (u8, PeerEntry)| (g, e.1.0@))
                        =~= bucket@.take(j as int).map_values(|e: (u8, PeerEntry)| (g, e.1.0@)).push(
                        (g, a@),
                    ));
                }
                j = j + 1;
            }
            proof {
                assert(bucket@.take(j as int) =~= bucket@);
                assert(tv.take(i + 1).drop_last() =~= tv.take(i as int));
                assert(peer_addresses(tv.take(i + 1)).map_values(|a: Seq<char>| (g, a)) =~= peer_addresses(
                    tv.take(i as int),
                ).map_values(|a: Seq<char>| (g, a)) + bucket@.map_values(
                    |e: (u8, PeerEntry)| (g, e.1.0@),
                ));
            }
            i = i + 1;
        }
        proof {
            assert(tv.take(i as int) =~= tv);
        }
        self.peers.clear();
        out
    }

    /// What the bootstrap node does with a datagram from `src`, by its
    /// first byte. 1, a join request on the node's route: a ping request
    /// back, then a join response (2 and the address) for the peer under
    /// key 1 of every bucket. 2, a join response: a ping request to the
    /// address it names. 3, a ping request on the node's route: the sender
    /// is filed under its key, and a ping response (4) goes back. 4, a ping
    /// response on the node's route: the sender is filed. 5, a sealed
    /// message: opened with the key shared with the sender's key and handed
    /// over. Anything else is ignored.
    pub fn bootstrap_step(&mut self, buf: &[u8], src: &String) -> (r: Bootstrap)
        requires
            !old(self).bootstrap_panics(buf@),
        ensures
            bootstrap_outcome(*old(self), *final(self), buf@, *src, r),
    {
        let b = buf;
        if b[0] == 1 {
            let matches = match Route::from_byte(b[1]) {
                Ok(r) => r == self.route,
                Err(_) => false,
            };
            if !matches {
                return Bootstrap::Ignore;
            }
            let ping = greet(3, &self.route, &self.public_key);
            let mut out: Vec<(Vec<u8>, String)> = Vec::new();
            out.push((ping, src.clone()));
            let buckets = self.peers.buckets();
            let ghost tv = self.peers@;
            let ghost first = datagram_views(out@);
            let mut i: usize = 0;
            while i < buckets.len()
                invariant
                    i <= buckets@.len(),
                    buckets@.map_values(|x: (String, Vec<(u8, PeerEntry)>)| (x.0@, x.1@)) == tv,
                    every_bucket_has_first(tv),
                    datagram_views(out@) == first + first_peer_addresses(tv.take(i as int)).map_values(
                        |a: Seq<char>| (seq![2u8] + encode_utf8(a), src@),
                    ),
                decreases buckets@.len() - i,
            {
                assert(tv[i as int].1 == buckets@[i as int].1@);
                assert(entry_lookup(tv[i as int].1, 1) is Some);
                proof {
                    assert(tv.take(i + 1).drop_last() =~= tv.take(i as int));
                    assert(tv.take(i + 1).last() == tv[i as int]);
                }
                match bucket_get(&buckets[i].1, 1) {
                    Some(p) => {
                        let mut m: Vec<u8> = Vec::new();
                        m.push(2u8);
                        let mut text = vstd::slice::slice_to_vec(p.0.as_str().as_bytes());
                        m.append(&mut text);
                        let ghost before = datagram_views(out@);
                        out.push((m, src.clone()));
                        proof {
                            let a = p.0@;
                            assert(m@ =~= seq![2u8] + encode_utf8(a));
                            assert(datagram_views(out@) =~= before.push((seq![2u8] + encode_utf8(a), src@)));
                            assert(first_peer_addresses(tv.take(i + 1)) =~= first_peer_addresses(
                                tv.take(i as int),
                            ).push(a));
                            assert(first_peer_addresses(tv.take(i + 1)).map_values(
                                |a: Seq<char>| (seq![2u8] + encode_utf8(a), src@),
                            ) =~= first_peer_addresses(tv.take(i as int)).map_values(
                                |a: Seq<char>| (seq![2u8] + encode_utf8(a), src@),
                            ).push((seq![2u8] + encode_utf8(a), src@)));
                        }
                    },
                    None => {},
                }
                i = i + 1;
            }
            proof {
                assert(tv.take(i as int) =~= tv);
                assert(first =~= seq![(greeting(3, self.route, self.public_key@), src@)]);
                assert(datagram_views(out@) =~= seq![(greeting(3, self.route, self.public_key@), src@)]
                    + first_peer_addresses(tv).map_values(
                    |a: Seq<char>| (seq![2u8] + encode_utf8(a), src@),
                ));
            }
            Bootstrap::Send(out)
        } else if b[0] == 2 {
            let text = match utf8_text(vstd::slice::slice_subrange(b, 1, b.len())) {
                Some(t) => t,
                None => return Bootstrap::Ignore,
            };
            let ping = greet(3, &self.route, &self.public_key);
            let mut out: Vec<(Vec<u8>, String)> = Vec::new();
            out.push((ping, text));
            assert(datagram_views(out@) =~= seq![(ping@, text@)]);
            Bootstrap::Send(out)
        } else if b[0] == 3 || b[0] == 4 {
            let matches = match Route::from_byte(b[1]) {
                Ok(r) => r == self.route,
                Err(_) => false,
            };
            if !matches {
                return Bootstrap::Ignore;
            }
            let peer_key = match key_from_slice(vstd::slice::slice_subrange(b, 2, 34)) {
                Some(k) => k,
                None => return Bootstrap::Ignore,
            };
            add_peer(&mut self.peers, self.private_key, self.public_key, src.clone(), peer_key);
            if b[0] == 3 {
                let pong = greet(4, &self.route, &self.public_key);
                let mut out: Vec<(Vec<u8>, String)> = Vec::new();
                out.push((pong, src.clone()));
                assert(datagram_views(out@) =~= seq![(pong@, src@)]);
                Bootstrap::Send(out)
            } else {
                Bootstrap::Ignore
            }
        } else if b[0] == 5 {
            let peer_key = match key_from_slice(vstd::slice::slice_subrange(b, 1, 33)) {
                Some(k) => k,
                None => return Bootstrap::Ignore,
            };
            let shared = shared_key(&self.private_key, &peer_key);
            let plain = match open(&shared, vstd::slice::slice_subrange(b, 33, b.len())) {
                Some(p) => p,
                None => return Bootstrap::Ignore,
            };
            match Message::from_bytes(plain.as_slice()) {
                Ok(message) => {
                    let peer = Peer { address: src.clone(), public_key: peer_key, shared_key: shared };
                    Bootstrap::Deliver(message, peer)
                },
                Err(_) => Bootstrap::Ignore,
            }
        } else {
            Bootstrap::Ignore
        }
    }
}

/// Whether `b` is the wire encoding of an envelope of kind `Encrypted` from
/// `sender` on `route`, stamped at `now`, whose payload opens under `key` to
/// `plain`.
pub open spec fn sealed_envelope(b: Seq<u8>, key: Seq<u8>, plain: Seq<u8>, sender: Seq<u8>, route: Route, now: u64) -> bool {
    exists|c: Seq<u8>, e: EnvelopeView|
        chacha_open(key, c) == Some(plain) && envelope_stamped_from(
            envelope_unstamped(Kind::Encrypted, c, sender, route, now),
            e,
        ) && b == e.bytes()
}

/// Whether `out` holds, for each peer of `ps` in order, the sealed
/// message for that peer's address.
pub open spec fn sealed_for_each(
    out: Seq<(Vec<u8>, String)>,
    ps: Seq<Peer>,
    plain: Seq<u8>,
    sender: Seq<u8>,
    route: Route,
    now: u64,
) -> bool {
    &&& out.len() == ps.len()
    &&& forall|k: int|
        0 <= k < out.len() ==> (#[trigger] out[k]).1@ == ps[k].address@ && sealed_envelope(
            out[k].0@,
            ps[k].shared_key@,
            plain,
            sender,
            route,
            now,
        )
}

/// A node's encrypted link to its peers: its public key, its route, and the
/// peers with the keys shared with them.
pub struct Connection {
    pub public_key: [u8; 32],
    pub route: Route,
    pub peers: Table<Peer>,
}

impl Connection {
    /// The message sealed under the key shared with a peer, in an envelope
    /// stamped at `now`, for the peer's address; nothing where the cipher
    /// refuses the message's length.
    pub fn send(&self, message: Message, peer: Peer, now: u64) -> (r: Option<(Vec<u8>, String)>)
        ensures
            r is Some <==> sealable(message@.bytes()),
            r matches Some(d) ==> d.1@ == peer.address@ && sealed_envelope(
                d.0@,
                peer.shared_key@,
                message@.bytes(),
                self.public_key@,
                self.route,
                now,
            ),
    {
        self.seal_for(&message.to_bytes(), &peer, now)
    }

    fn seal_for(&self, plain: &Vec<u8>, peer: &Peer, now: u64) -> (r: Option<(Vec<u8>, String)>)
        ensures
            r is Some <==> sealable(plain@),
            r matches Some(d) ==> d.1@ == peer.address@ && sealed_envelope(
                d.0@,
                peer.shared_key@,
                plain@,
                self.public_key@,
                self.route,
                now,
            ),
    {
        match seal(&peer.shared_key, plain.as_slice()) {
            Some(cipher) => {
                let envelope = Envelope::new_at(Kind::Encrypted, cipher.as_slice(), &self.public_key, &self.route, now);
                let bytes = envelope.to_bytes();
                Some((bytes, peer.address.clone()))
            },
            None => None,
        }
    }

    /// The message sealed for every peer, peers in table order, each in an
    /// envelope stamped at `now`; nothing where the cipher refuses the
    /// message's length.
    pub fn broadcast(&self, message: Message, now: u64) -> (r: Vec<(Vec<u8>, String)>)
        ensures
            sealable(message@.bytes()) ==> sealed_for_each(
                r@,
                all_peers(self.peers@),
                message@.bytes(),
                self.public_key@,
                self.route,
                now,
            ),
            !sealable(message@.bytes()) ==> r@.len() == 0,
    {
        let plain = message.to_bytes();
        let buckets = self.peers.buckets();
        let ghost tv = self.peers@;
        let ghost ok = sealable(plain@);
        let mut out: Vec<(Vec<u8>, String)> = Vec::new();
        let mut i: usize = 0;
        while i < buckets.len()
            invariant
                i <= buckets@.len(),
                buckets@.map_values(|b: (String, Vec<(u8, Peer)>)| (b.0@, b.1@)) == tv,
                plain@ == message@.bytes(),
                ok == sealable(plain@),
                ok ==> sealed_for_each(out@, all_peers(tv.take(i as int)), plain@, self.public_key@, self.route, now),
                !ok ==> out@.len() == 0,
            decreases buckets@.len() - i,
        {
            let bucket = &buckets[i].1;
            assert(tv[i as int].1 == bucket@);
            let ghost before = all_peers(tv.take(i as int));
            let mut j: usize = 0;
            while j < bucket.len()
                invariant
                    i < buckets@.len(),
                    j <= bucket@.len(),
                    ok == sealable(plain@),
                    ok ==> sealed_for_each(
                        out@,
                        before + bucket@.take(j as int).map_values(|e: (u8, Peer)| e.1),
                        plain@,
                        self.public_key@,
                        self.route,
                        now,
                    ),
                    !ok ==> out@.len() == 0,
                decreases bucket@.len() - j,
            {
                let ghost seen = before + bucket@.take(j as int).map_values(|e: (u8, Peer)| e.1);
                let ghost seen2 = before + bucket@.take(j + 1).map_values(|e: (u8, Peer)| e.1);
                proof {
                    assert(seen2 =~= seen.push(bucket@[j as int].1));
                }
                let p = &bucket[j].1;
                match self.seal_for(&plain, p, now) {
                    Some(d) => {
                        let ghost old_out = out@;
                        out.push(d);
                        proof {
                            assert forall|k: int| 0 <= k < out@.len() implies (#[trigger] out@[k]).1@
                                == seen2[k].address@ && sealed_envelope(
                                out@[k].0@,
                                seen2[k].shared_key@,
                                plain@,
                                self.public_key@,
                                self.route,
                                now,
                            ) by {
                                if k < old_out.len() {
                                    assert(out@[k] == old_out[k]);
                                    assert(seen2[k] == seen[k]);
                                }
                            }
                        }
                    },
                    None => {},
                }
                j = j + 1;
            }
            proof {
                assert(bucket@.take(j as int) =~= bucket@);
                assert(tv.take(i + 1).drop_last() =~= tv.take(i as int));
                assert(all_peers(tv.take(i + 1)) =~= before + bucket@.map_values(
                    |e: (u8, Peer)| e.1,
                ));
            }
            i = i + 1;
        }
        proof {
            assert(tv.take(i as int) =~= tv);
        }
        out
    }
}

} // verus!
