use vstd::prelude::*;
use rand::Rng;
use vstd::utf8::{decode_utf8, encode_utf8, valid_utf8};
use crate::chain::Chain;
use crate::crypto::{blake3_digest, hash};
use crate::message::{Message, MessageView, message_parse_panics, parse_message, stamped_from, unstamped};
use crate::natural::{Natural, be_value, bit_of, lemma_from_bytes_value, lemma_xor_value_bits, bits_value, bytes_bits, lemma_strip_nonempty, lemma_xor_len, spec_from_bytes, u64_be_bytes, xor_bits};
use crate::peer::Peer;
use crate::route::Route;
use crate::routing::{first_free_insert, insert_first_free, slot_ok};
use crate::table::{Table, entry_lookup, bucket_get};
use crate::topic::Topic;

verus! {

/// Whether `b` is the wire encoding of a message with this body, chain and
/// topic, stamped at `now`.
pub open spec fn stamped_bytes(b: Seq<u8>, body: Seq<u8>, chain: Chain, topic: Topic, now: u64) -> bool {
    exists|m: MessageView| stamped_from(unstamped(body, chain, topic, now), m) && b == m.bytes()
}

/// The addresses in a bucket, in order.
pub open spec fn bucket_addresses(b: Seq<(u8, String)>) -> Seq<Seq<char>> {
    b.map_values(|e: (u8, String)| e.1@)
}

/// Every address in the table, bucket after bucket.
pub open spec fn all_addresses(t: Seq<(Seq<char>, Seq<(u8, String)>)>) -> Seq<Seq<char>>
    decreases t.len(),
{
    if t.len() == 0 {
        Seq::empty()
    } else {
        all_addresses(t.drop_last()) + bucket_addresses(t.last().1)
    }
}

/// The address under key 1 of every bucket that has one, bucket after bucket.
pub open spec fn first_addresses(t: Seq<(Seq<char>, Seq<(u8, String)>)>) -> Seq<Seq<char>>
    decreases t.len(),
{
    if t.len() == 0 {
        Seq::empty()
    } else {
        first_addresses(t.drop_last()) + match entry_lookup(t.last().1, 1) {
            Some(a) => seq![a@],
            None => Seq::<Seq<char>>::empty(),
        }
    }
}

/// Datagrams as plain values: bytes and the address they go to.
pub open spec fn datagram_views(v: Seq<(Vec<u8>, String)>) -> Seq<(Seq<u8>, Seq<char>)> {
    v.map_values(|d: (Vec<u8>, String)| (d.0@, d.1@))
}

/// The same bytes to each address.
pub open spec fn fan(bytes: Seq<u8>, addresses: Seq<Seq<char>>) -> Seq<(Seq<u8>, Seq<char>)> {
    addresses.map_values(|a: Seq<char>| (bytes, a))
}

/// Queues `bytes` for every address in the table.
fn fan_out(bytes: &Vec<u8>, t: &Table<String>, out: &mut Vec<(Vec<u8>, String)>)
    ensures
        datagram_views(final(out)@) == datagram_views(old(out)@) + fan(bytes@, all_addresses(t@)),
{
    let buckets = t.buckets();
    let ghost tv = t@;
    let ghost start = datagram_views(out@);
    let mut i: usize = 0;
    while i < buckets.len()
        invariant
            i <= buckets@.len(),
            buckets@.map_values(|b: (String, Vec<(u8, String)>)| (b.0@, b.1@)) == tv,
            datagram_views(out@) == start + fan(bytes@, all_addresses(tv.take(i as int))),
        decreases buckets@.len() - i,
    {
        let bucket = &buckets[i].1;
        assert(tv[i as int].1 == bucket@);
        let mut j: usize = 0;
        while j < bucket.len()
            invariant
                i < buckets@.len(),
                j <= bucket@.len(),
                buckets@.map_values(|b: (String, Vec<(u8, String)>)| (b.0@, b.1@)) == tv,
                tv[i as int].1 == bucket@,
                datagram_views(out@) == start + fan(
                    bytes@,
                    all_addresses(tv.take(i as int)) + bucket_addresses(bucket@.take(j as int)),
                ),
            decreases bucket@.len() - j,
        {
            let b = bytes.clone();
            assert(b@ =~= bytes@);
            let a = bucket[j].1.clone();
            let ghost before = out@;
            out.push((b, a));
            proof {
                assert(datagram_views(out@) =~= datagram_views(before).push((bytes@, a@)));
                assert(bucket_addresses(bucket@.take(j + 1)) =~= bucket_addresses(bucket@.take(j as int)).push(a@));
                assert(fan(bytes@, all_addresses(tv.take(i as int)) + bucket_addresses(bucket@.take(j + 1)))
                    =~= fan(bytes@, all_addresses(tv.take(i as int)) + bucket_addresses(bucket@.take(j as int))).push((bytes@, a@)));
            }
            j = j + 1;
        }
        proof {
            assert(bucket@.take(j as int) =~= bucket@);
            assert(tv.take(i + 1).drop_last() =~= tv.take(i as int));
        }
        i = i + 1;
    }
    proof {
        assert(tv.take(i as int) =~= tv);
    }
}

/// `rand::thread_rng().gen_range(49152..65535)`: a port drawn from the
/// dynamic range; nothing more is stated of which.
#[verifier::external_body]
fn random_dynamic_port() -> (r: u16)
    ensures
        49152 <= r < 65535,
{
    rand::thread_rng().gen_range(49152..65535)
}

/// `std::str::from_utf8`: the text that the bytes encode, where they are
/// valid UTF-8.
#[verifier::external_body]
pub(crate) fn utf8_text(b: &[u8]) -> (r: Option<String>)
    ensures
        r is Some <==> valid_utf8(b@),
        r matches Some(s) ==> s@ == decode_utf8(b@),
{
    std::str::from_utf8(b).ok().map(|s| s.to_string())
}

/// The seconds between two refreshes of the routing tables.
pub open spec fn refresh_interval() -> nat {
    300
}

/// Whether the routing tables are due for a refresh, `elapsed` seconds
/// after the last one: after more than five minutes.
pub fn refresh_due(elapsed: u64) -> (r: bool)
    ensures
        r == (elapsed > refresh_interval()),
{
    elapsed > 300
}

/// The port a node listens on: 55555 for a bootstrap node, else a port
/// drawn from the dynamic range.
pub fn listen_port(bootstrap: bool) -> (r: u16)
    ensures
        bootstrap ==> r == 55555,
        !bootstrap ==> 49152 <= r < 65535,
{
    if bootstrap {
        55555
    } else {
        random_dynamic_port()
    }
}

/// A bit string widened to 256 bits by repeating its first bit in front,
/// or cut to its last 256 bits.
pub open spec fn widen_bits(s: Seq<bool>) -> Seq<bool> {
    if s.len() < 256 {
        Seq::new((256 - s.len()) as nat, |i: int| s[0]) + s
    } else {
        s.subrange(s.len() - 256, s.len() as int)
    }
}

/// The id of an address: the integer of the hash of its text, as 256 bits.
pub open spec fn address_id(a: Seq<char>) -> Seq<bool> {
    widen_bits(spec_from_bytes(blake3_digest(encode_utf8(a))))
}

/// The table after `source` is filed in it by a node at `own`: in the
/// bucket of the first prefix of the source's id at whose last bit the two
/// ids differ and whose bucket has fewer than 32 entries.
pub open spec fn filed(t: Seq<(Seq<char>, Seq<(u8, String)>)>, own: Seq<char>, source: String) -> Seq<
    (Seq<char>, Seq<(u8, String)>),
> {
    first_free_insert(t, address_id(own), address_id(source@), true, source, 32)
}

/// The id bits of an address.
fn source_bits(source: &String) -> (r: Vec<bool>)
    ensures
        r@ == address_id(source@),
        r@.len() == 256,
{
    let id = hash(source.as_str().as_bytes());
    let n = Natural::from_bytes(id.as_slice());
    proof {
        crate::natural::lemma_strip_nonempty(crate::natural::bytes_bits(id@));
        crate::peers::lemma_bytes_bits_len(id@);
    }
    let bits = n.bits();
    let ghost b = bits@;
    let mut r: Vec<bool> = Vec::new();
    if bits.len() < 256 {
        let first = bits[0];
        let mut k: usize = bits.len();
        while k < 256
            invariant
                bits@ == b,
                b.len() > 0,
                first == b[0],
                b.len() <= k <= 256,
                r@ == Seq::new((k - b.len()) as nat, |i: int| b[0]),
            decreases 256 - k,
        {
            r.push(first);
            assert(r@ =~= Seq::new((k + 1 - b.len()) as nat, |i: int| b[0]));
            k = k + 1;
        }
        let ghost pad = r@;
        let mut j: usize = 0;
        while j < bits.len()
            invariant
                bits@ == b,
                j <= b.len(),
                b.len() < 256,
                pad == Seq::new((256 - b.len()) as nat, |i: int| b[0]),
                r@ == pad + b.take(j as int),
            decreases b.len() - j,
        {
            r.push(bits[j]);
            assert(r@ =~= pad + b.take(j + 1));
            j = j + 1;
        }
        assert(b.take(j as int) =~= b);
    } else {
        let mut j: usize = bits.len() - 256;
        while j < bits.len()
            invariant
                bits@ == b,
                b.len() >= 256,
                b.len() - 256 <= j <= b.len(),
                r@ == b.subrange(b.len() - 256, j as int),
            decreases b.len() - j,
        {
            r.push(bits[j]);
            assert(r@ =~= b.subrange(b.len() - 256, j + 1));
            j = j + 1;
        }
    }
    r
}

/// Files `source` in a routing table kept by the node at `own`: in the
/// bucket of the first prefix of the source's id at whose last bit the two
/// ids differ and whose bucket has room for it (fewer than 32 entries).
pub fn add_peer(route: &mut Table<String>, own: &String, source: &String)
    ensures
        final(route)@ == filed(old(route)@, own@, *source),
{
    let node = source_bits(own);
    let bits = source_bits(source);
    insert_first_free(route, &node, &bits, source.clone(), true, 32);
}

/// A message stamped at `now`, in its wire encoding.
fn stamp(body: &[u8], chain: &Chain, topic: &Topic, now: u64) -> (r: Vec<u8>)
    ensures
        stamped_bytes(r@, body@, *chain, *topic, now),
{
    let m = Message::new_at(body, chain, topic, now);
    let r = m.to_bytes();
    r
}

/// What a client does with a datagram.
pub enum Incoming {
    /// Hand the message to the application, with the address it came from.
    Deliver(Message, String),
    /// Queue these datagrams: bytes and the address each goes to.
    Send(Vec<(Vec<u8>, String)>),
    /// Queue these bytes for the address that the text names, if it names one.
    PingAddress(Vec<u8>, String),
    /// Do nothing.
    Ignore,
}

/// The datagrams a client answers a join request with: a ping response
/// carrying the route asked for, then a join response carrying each
/// address under key 1 of a bucket, peers first, all to the asker, every
/// message stamped at `now`.
pub open spec fn join_replies(
    v: Seq<(Seq<u8>, Seq<char>)>,
    route: Route,
    chain: Chain,
    source: Seq<char>,
    known: Seq<Seq<char>>,
    now: u64,
) -> bool {
    &&& v.len() == 1 + known.len()
    &&& v[0].1 == source
    &&& stamped_bytes(v[0].0, seq![route.spec_byte()], chain, Topic::PingResponse, now)
    &&& forall|j: int|
        0 <= j < known.len() ==> (#[trigger] v[j + 1]).1 == source && stamped_bytes(
            v[j + 1].0,
            encode_utf8(known[j]),
            chain,
            Topic::JoinResponse,
            now,
        )
}

/// The datagrams on which handling does not return: reading the message
/// does not return, or a join request, ping request or ping response
/// carries an empty body where a route is read.
pub open spec fn incoming_panics(b: Seq<u8>) -> bool {
    message_parse_panics(b) || match parse_message(b) {
        Ok(m) => (m.topic == Topic::JoinRequest || m.topic == Topic::PingRequest || m.topic
            == Topic::PingResponse) && m.body.len() == 0,
        Err(_) => false,
    }
}

/// The routing table in which handling a datagram files its source: that
/// of the route a join request, ping request or ping response carries.
pub open spec fn filing_route(b: Seq<u8>) -> Option<Route> {
    match parse_message(b) {
        Ok(m) => if m.topic == Topic::JoinRequest || m.topic == Topic::PingRequest || m.topic
            == Topic::PingResponse {
            match Route::spec_from_byte(m.body[0]) {
                Ok(rt) => Some(rt),
                Err(_) => None,
            }
        } else {
            None
        },
        Err(_) => None,
    }
}

/// A client's state: its role, chain and route, its own address, its two
/// routing tables (peers and validators) and the seeders it joins through.
pub struct Node {
    pub bootstrap: bool,
    pub chain: Chain,
    pub route: Route,
    pub address: String,
    pub peers: Table<String>,
    pub validators: Table<String>,
    pub seeders: Vec<String>,
}

impl Node {
    /// A node at `address` with empty routing tables.
    pub fn new(bootstrap: bool, chain: Chain, route: Route, address: String, seeders: Vec<String>) -> (r: Node)
        ensures
            r.bootstrap == bootstrap,
            r.chain == chain,
            r.route == route,
            r.address == address,
            r.peers@.len() == 0,
            r.validators@.len() == 0,
            r.seeders == seeders,
    {
        Node { bootstrap, chain, route, address, peers: Table::new(), validators: Table::new(), seeders }
    }

    /// The routing table of a route: peers or validators.
    pub open spec fn table_of(self, route: Route) -> Seq<(Seq<char>, Seq<(u8, String)>)> {
        match route {
            Route::Peer => self.peers@,
            Route::Validation => self.validators@,
        }
    }

    /// A message stamped at `now` to every address in the table of `route`.
    pub fn broadcast(&self, body: &[u8], route: &Route, topic: &Topic, now: u64) -> (r: Vec<(Vec<u8>, String)>)
        ensures
            exists|b: Seq<u8>|
                stamped_bytes(b, body@, self.chain, *topic, now) && datagram_views(r@) == fan(
                    b,
                    all_addresses(self.table_of(*route)),
                ),
    {
        let bytes = stamp(body, &self.chain, topic, now);
        let mut out: Vec<(Vec<u8>, String)> = Vec::new();
        assert(datagram_views(out@) =~= Seq::empty());
        match route {
            Route::Peer => fan_out(&bytes, &self.peers, &mut out),
            Route::Validation => fan_out(&bytes, &self.validators, &mut out),
        }
        assert(datagram_views(out@) =~= fan(bytes@, all_addresses(self.table_of(*route))));
        out
    }

    /// A message stamped at `now` to one address.
    pub fn send(&self, address: &String, body: &[u8], topic: &Topic, now: u64) -> (r: (Vec<u8>, String))
        ensures
            stamped_bytes(r.0@, body@, self.chain, *topic, now),
            r.1@ == address@,
    {
        (stamp(body, &self.chain, topic, now), address.clone())
    }

    /// A join request: a message on the node's chain carrying its route,
    /// stamped at `now`.
    pub fn join_request(&self, now: u64) -> (r: Vec<u8>)
        ensures
            stamped_bytes(r@, seq![self.route.spec_byte()], self.chain, Topic::JoinRequest, now),
    {
        let route = self.route.to_bytes();
        stamp(route.as_slice(), &self.chain, &Topic::JoinRequest, now)
    }

    /// What a node does when it starts listening at `now`: the join request
    /// it pings every known address with at each refresh, and that join
    /// request to every seeder (to none for a bootstrap node).
    pub fn listen(&self, now: u64) -> (r: (Vec<u8>, Vec<(Vec<u8>, String)>))
        ensures
            stamped_bytes(r.0@, seq![self.route.spec_byte()], self.chain, Topic::JoinRequest, now),
            self.bootstrap ==> r.1@.len() == 0,
            !self.bootstrap ==> datagram_views(r.1@) == fan(r.0@, self.seeders@.map_values(|a: String| a@)),
    {
        let ping = self.join_request(now);
        let seeding = self.seed(&ping);
        (ping, seeding)
    }

    /// The join request to every seeder, unless the node is a bootstrap node.
    pub fn seed(&self, join_request: &Vec<u8>) -> (r: Vec<(Vec<u8>, String)>)
        ensures
            self.bootstrap ==> r@.len() == 0,
            !self.bootstrap ==> datagram_views(r@) == fan(
                join_request@,
                self.seeders@.map_values(|a: String| a@),
            ),
    {
        let mut out: Vec<(Vec<u8>, String)> = Vec::new();
        if !self.bootstrap {
            let mut i: usize = 0;
            while i < self.seeders.len()
                invariant
                    i <= self.seeders@.len(),
                    datagram_views(out@) == fan(
                        join_request@,
                        self.seeders@.take(i as int).map_values(|a: String| a@),
                    ),
                decreases self.seeders@.len() - i,
            {
                let b = join_request.clone();
                assert(b@ =~= join_request@);
                let a = self.seeders[i].clone();
                let ghost before = out@;
                out.push((b, a));
                proof {
                    assert(datagram_views(out@) =~= datagram_views(before).push((join_request@, a@)));
                    assert(self.seeders@.take(i + 1).map_values(|a: String| a@) =~= self.seeders@.take(
                        i as int,
                    ).map_values(|a: String| a@).push(a@));
                    assert(fan(join_request@, self.seeders@.take(i + 1).map_values(|a: String| a@))
                        =~= fan(join_request@, self.seeders@.take(i as int).map_values(|a: String| a@)).push(
                        (join_request@, a@),
                    ));
                }
                i = i + 1;
            }
            assert(self.seeders@.take(i as int) =~= self.seeders@);
        } else {
            assert(out@.len() == 0);
        }
        out
    }

    /// The ping to every address, peers first, after which both tables are
    /// emptied.
    pub fn refresh(&mut self, ping: &Vec<u8>) -> (r: Vec<(Vec<u8>, String)>)
        ensures
            datagram_views(r@) == fan(ping@, all_addresses(old(self).peers@)) + fan(
                ping@,
                all_addresses(old(self).validators@),
            ),
            final(self).peers@.len() == 0,
            final(self).validators@.len() == 0,
            final(self).bootstrap == old(self).bootstrap,
            final(self).chain == old(self).chain,
            final(self).route == old(self).route,
            final(self).address == old(self).address,
            final(self).seeders == old(self).seeders,
    {
        let mut out: Vec<(Vec<u8>, String)> = Vec::new();
        assert(datagram_views(out@) =~= Seq::empty());
        fan_out(ping, &self.peers, &mut out);
        fan_out(ping, &self.validators, &mut out);
        self.peers.clear();
        self.validators.clear();
        out
    }
}

/// From position `start` on, `v` holds a join response to `source` for
/// each known address, in order, stamped at `now`, and nothing more.
pub open spec fn answers_from(
    v: Seq<(Seq<u8>, Seq<char>)>,
    start: int,
    known: Seq<Seq<char>>,
    chain: Chain,
    source: Seq<char>,
    now: u64,
) -> bool {
    &&& v.len() == start + known.len()
    &&& forall|j: int|
        0 <= j < known.len() ==> (#[trigger] v[start + j]).1 == source && stamped_bytes(
            v[start + j].0,
            encode_utf8(known[j]),
            chain,
            Topic::JoinResponse,
            now,
        )
}

/// Queues, for the address under key 1 of each bucket, a join response
/// carrying it to `source`.
fn answer_known(t: &Table<String>, chain: &Chain, source: &String, now: u64, out: &mut Vec<(Vec<u8>, String)>)
    ensures
        datagram_views(final(out)@).take(old(out)@.len() as int) == datagram_views(old(out)@),
        answers_from(
            datagram_views(final(out)@),
            old(out)@.len() as int,
            first_addresses(t@),
            *chain,
            source@,
            now,
        ),
{
    let buckets = t.buckets();
    let ghost tv = t@;
    let ghost start = datagram_views(out@);
    let ghost n0 = out@.len() as int;
    let mut i: usize = 0;
    while i < buckets.len()
        invariant
            i <= buckets@.len(),
            buckets@.map_values(|b: (String, Vec<(u8, String)>)| (b.0@, b.1@)) == tv,
            n0 == start.len(),
            datagram_views(out@).take(n0) == start,
            answers_from(datagram_views(out@), n0, first_addresses(tv.take(i as int)), *chain, source@, now),
        decreases buckets@.len() - i,
    {
        let bucket = &buckets[i].1;
        assert(tv[i as int].1 == bucket@);
        proof {
            assert(tv.take(i + 1).drop_last() =~= tv.take(i as int));
        }
        let ghost before = datagram_views(out@);
        let ghost known = first_addresses(tv.take(i as int));
        match bucket_get(bucket, 1) {
            Some(a) => {
                let text = a.as_str().as_bytes();
                let b = stamp(text, chain, &Topic::JoinResponse, now);
                out.push((b, source.clone()));
                proof {
                    let after = datagram_views(out@);
                    assert(after =~= before.push((b@, source@)));
                    let known2 = first_addresses(tv.take(i + 1));
                    assert(known2 =~= known.push(a@));
                    assert(after.take(n0) =~= before.take(n0));
                    assert forall|j: int| 0 <= j < known2.len() implies (#[trigger] after[n0 + j]).1
                        == source@ && stamped_bytes(
                        after[n0 + j].0,
                        encode_utf8(known2[j]),
                        *chain,
                        Topic::JoinResponse,
                        now,
                    ) by {
                        if j < known.len() {
                            assert(after[n0 + j] == before[n0 + j]);
                        }
                    }
                }
            },
            None => {
                proof {
                    assert(first_addresses(tv.take(i + 1)) =~= known);
                }
            },
        }
        i = i + 1;
    }
    proof {
        assert(tv.take(i as int) =~= tv);
    }
}

/// Joins the answers to a join request: the ping response, then the join
/// responses of both tables.
proof fn lemma_join_replies(
    v: Seq<(Seq<u8>, Seq<char>)>,
    route: Route,
    chain: Chain,
    source: Seq<char>,
    p: Seq<Seq<char>>,
    q: Seq<Seq<char>>,
    now: u64,
)
    requires
        v.len() >= 1,
        v[0].1 == source,
        stamped_bytes(v[0].0, seq![route.spec_byte()], chain, Topic::PingResponse, now),
        answers_from(v.take(1 + p.len() as int), 1, p, chain, source, now),
        v.take(1 + p.len() as int).len() == 1 + p.len() as int,
        answers_from(v, 1 + p.len() as int, q, chain, source, now),
    ensures
        join_replies(v, route, chain, source, p + q, now),
{
    let k = p + q;
    assert forall|j: int| 0 <= j < k.len() implies (#[trigger] v[j + 1]).1 == source && stamped_bytes(
        v[j + 1].0,
        encode_utf8(k[j]),
        chain,
        Topic::JoinResponse,
        now,
    ) by {
        if j < p.len() {
            assert(v.take(1 + p.len() as int)[1 + j] == v[1 + j]);
            assert(k[j] == p[j]);
        } else {
            assert(v[1 + p.len() as int + (j - p.len())] == v[j + 1]);
            assert(k[j] == q[j - p.len()]);
        }
    }
}

impl Node {
    /// Whether handling the datagram returns.
    pub fn handles(bytes: &[u8]) -> (r: bool)
        ensures
            r == !incoming_panics(bytes@),
    {
        if !Message::readable(bytes) {
            return false;
        }
        match Message::from_bytes(bytes) {
            Ok(m) => {
                let routed = match m.topic {
                    Topic::JoinRequest => true,
                    Topic::PingRequest => true,
                    Topic::PingResponse => true,
                    _ => false,
                };
                !(routed && m.body.len() == 0)
            },
            Err(_) => true,
        }
    }

    /// Files `source` in the table of `route`.
    fn file(&mut self, route: Route, source: &String)
        ensures
            final(self).peers@ == if route == Route::Peer {
                filed(old(self).peers@, old(self).address@, *source)
            } else {
                old(self).peers@
            },
            final(self).validators@ == if route == Route::Validation {
                filed(old(self).validators@, old(self).address@, *source)
            } else {
                old(self).validators@
            },
            final(self).bootstrap == old(self).bootstrap,
            final(self).chain == old(self).chain,
            final(self).route == old(self).route,
            final(self).address == old(self).address,
            final(self).seeders == old(self).seeders,
    {
        match route {
            Route::Peer => add_peer(&mut self.peers, &self.address, source),
            Route::Validation => add_peer(&mut self.validators, &self.address, source),
        }
    }

    /// What the node does with a datagram from `source`, its messages
    /// stamped at `now`: applications get blocks, block requests, cancelled
    /// and new transactions; a join request, ping request or ping response
    /// for a known route files the source in that route's table; a join
    /// request is then answered with a ping response and the first address
    /// of every bucket; a join response that is text names the address for
    /// a ping request; a ping request is answered with a ping response.
    pub fn incoming(&mut self, bytes: &[u8], source: &String, now: u64) -> (r: Incoming)
        requires
            !incoming_panics(bytes@),
        ensures
            final(self).bootstrap == old(self).bootstrap,
            final(self).chain == old(self).chain,
            final(self).route == old(self).route,
            final(self).address == old(self).address,
            final(self).seeders == old(self).seeders,
            final(self).peers@ == if filing_route(bytes@) == Some(Route::Peer) {
                filed(old(self).peers@, old(self).address@, *source)
            } else {
                old(self).peers@
            },
            final(self).validators@ == if filing_route(bytes@) == Some(Route::Validation) {
                filed(old(self).validators@, old(self).address@, *source)
            } else {
                old(self).validators@
            },
            match parse_message(bytes@) {
                Err(_) => r is Ignore,
                Ok(m) => if m.topic == Topic::Block || m.topic == Topic::BlockRequest || m.topic
                    == Topic::CancelTransaction || m.topic == Topic::Transaction {
                    r matches Incoming::Deliver(msg, from) && msg@ == m && from@ == source@
                } else if m.topic == Topic::JoinRequest {
                    match Route::spec_from_byte(m.body[0]) {
                        Err(_) => r is Ignore,
                        Ok(rt) => r matches Incoming::Send(v) && join_replies(
                            datagram_views(v@),
                            rt,
                            old(self).chain,
                            source@,
                            first_addresses(final(self).peers@) + first_addresses(
                                final(self).validators@,
                            ),
                            now,
                        ),
                    }
                } else if m.topic == Topic::JoinResponse {
                    if valid_utf8(m.body) {
                        r matches Incoming::PingAddress(b, a) && a@ == decode_utf8(m.body)
                            && stamped_bytes(
                            b@,
                            seq![old(self).route.spec_byte()],
                            old(self).chain,
                            Topic::PingRequest,
                            now,
                        )
                    } else {
                        r is Ignore
                    }
                } else if m.topic == Topic::PingRequest {
                    match Route::spec_from_byte(m.body[0]) {
                        Err(_) => r is Ignore,
                        Ok(rt) => r matches Incoming::Send(v) && v@.len() == 1 && v@[0].1@
                            == source@ && stamped_bytes(
                            v@[0].0@,
                            seq![rt.spec_byte()],
                            old(self).chain,
                            Topic::PingResponse,
                            now,
                        ),
                    }
                } else {
                    r is Ignore
                },
            },
    {
        let message = match Message::from_bytes(bytes) {
            Ok(m) => m,
            Err(_) => return Incoming::Ignore,
        };
        match message.topic {
            Topic::Block | Topic::BlockRequest | Topic::CancelTransaction | Topic::Transaction => {
                Incoming::Deliver(message, source.clone())
            },
            Topic::JoinRequest => {
                match Route::from_bytes(message.body.as_slice()) {
                    Ok(route) => {
                        self.file(route, source);
                        let mut out: Vec<(Vec<u8>, String)> = Vec::new();
                        let rb = route.to_bytes();
                        let ping = stamp(rb.as_slice(), &self.chain, &Topic::PingResponse, now);
                        out.push((ping, source.clone()));
                        let ghost first = datagram_views(out@);
                        answer_known(&self.peers, &self.chain, source, now, &mut out);
                        let ghost mid = datagram_views(out@);
                        answer_known(&self.validators, &self.chain, source, now, &mut out);
                        proof {
                            let v = datagram_views(out@);
                            let p = first_addresses(self.peers@);
                            assert(v.take(1 + p.len() as int) =~= mid);
                            assert(v[0] == mid[0]);
                            assert(mid[0] == first[0]);
                            lemma_join_replies(v, route, self.chain, source@, p, first_addresses(self.validators@), now);
                        }
                        Incoming::Send(out)
                    },
                    Err(_) => Incoming::Ignore,
                }
            },
            Topic::JoinResponse => {
                match utf8_text(message.body.as_slice()) {
                    Some(text) => {
                        let rb = self.route.to_bytes();
                        let ping = stamp(rb.as_slice(), &self.chain, &Topic::PingRequest, now);
                        Incoming::PingAddress(ping, text)
                    },
                    None => Incoming::Ignore,
                }
            },
            Topic::PingRequest => {
                match Route::from_bytes(message.body.as_slice()) {
                    Ok(route) => {
                        self.file(route, source);
                        let rb = route.to_bytes();
                        let ping = stamp(rb.as_slice(), &self.chain, &Topic::PingResponse, now);
                        let mut out: Vec<(Vec<u8>, String)> = Vec::new();
                        out.push((ping, source.clone()));
                        Incoming::Send(out)
                    },
                    Err(_) => Incoming::Ignore,
                }
            },
            Topic::PingResponse => {
                match Route::from_bytes(message.body.as_slice()) {
                    Ok(route) => {
                        self.file(route, source);
                    },
                    Err(_) => {},
                }
                Incoming::Ignore
            },
        }
    }
}

/// Every peer in the table, bucket after bucket.
pub open spec fn all_peers(t: Seq<(Seq<char>, Seq<(u8, Peer)>)>) -> Seq<Peer>
    decreases t.len(),
{
    if t.len() == 0 {
        Seq::empty()
    } else {
        all_peers(t.drop_last()) + t.last().1.map_values(|e: (u8, Peer)| e.1)
    }
}

/// The distance of a peer from a key: the exclusive or of the two keys'
/// integers.
pub open spec fn distance(key: Seq<u8>, p: Peer) -> nat {
    bits_value(xor_bits(spec_from_bytes(key), spec_from_bytes(p.public_key@)))
}

/// The distance of a peer from a key is the exclusive or of the two keys
/// read as big-endian integers: bit `i` of the distance is set exactly
/// where bit `i` of the key's integer and of the peer's key's integer
/// differ.
pub proof fn lemma_distance_is_xor(key: Seq<u8>, p: Peer, i: nat)
    ensures
        bit_of(distance(key, p), i) == (bit_of(be_value(key), i) != bit_of(be_value(p.public_key@), i)),
{
    lemma_xor_value_bits(spec_from_bytes(key), spec_from_bytes(p.public_key@), i);
    lemma_from_bytes_value(key);
    lemma_from_bytes_value(p.public_key@);
}

/// Whether position `i` holds a peer nearest to `key`, and the first such.
pub open spec fn is_nearest(key: Seq<u8>, ps: Seq<Peer>, i: int) -> bool {
    &&& 0 <= i < ps.len()
    &&& forall|j: int| 0 <= j < ps.len() ==> distance(key, ps[i]) <= distance(key, #[trigger] ps[j])
    &&& forall|j: int| 0 <= j < i ==> distance(key, #[trigger] ps[j]) > distance(key, ps[i])
}

/// The peer nearest to `public_key`, the first of them in table order where
/// several are as near.
pub fn nearest_peer(public_key: &[u8; 32], peers: &Table<Peer>) -> (r: Peer)
    requires
        all_peers(peers@).len() > 0,
    ensures
        exists|i: int|
            is_nearest(public_key@, all_peers(peers@), i) && r.address@ == all_peers(peers@)[i].address@
                && r.public_key == all_peers(peers@)[i].public_key && r.shared_key == all_peers(
                peers@,
            )[i].shared_key,
{
    let me = Natural::from_bytes(public_key.as_slice());
    proof {
        crate::peers::lemma_bytes_bits_len(public_key@);
        lemma_strip_nonempty(bytes_bits(public_key@));
    }
    let buckets = peers.buckets();
    let ghost tv = peers@;
    let mut best: Option<(&Peer, Vec<bool>)> = None;
    let ghost mut bi: int = 0;
    let mut i: usize = 0;
    while i < buckets.len()
        invariant
            i <= buckets@.len(),
            buckets@.map_values(|b: (String, Vec<(u8, Peer)>)| (b.0@, b.1@)) == tv,
            me@ == spec_from_bytes(public_key@),
            me@.len() > 0,
            match best {
                None => all_peers(tv.take(i as int)).len() == 0,
                Some((p, d)) => {
                    &&& is_nearest(public_key@, all_peers(tv.take(i as int)), bi)
                    &&& *p == all_peers(tv.take(i as int))[bi]
                    &&& d@.len() > 0
                    &&& bits_value(d@) == distance(public_key@, *p)
                },
            },
        decreases buckets@.len() - i,
    {
        let bucket = &buckets[i].1;
        assert(tv[i as int].1 == bucket@);
        let ghost before = all_peers(tv.take(i as int));
        let mut j: usize = 0;
        while j < bucket.len()
            invariant
                i < buckets@.len(),
                j <= bucket@.len(),
                me@ == spec_from_bytes(public_key@),
                me@.len() > 0,
                match best {
                    None => before.len() + j == 0,
                    Some((p, d)) => {
                        let seen = before + bucket@.take(j as int).map_values(|e: (u8, Peer)| e.1);
                        &&& is_nearest(public_key@, seen, bi)
                        &&& *p == seen[bi]
                        &&& d@.len() > 0
                        &&& bits_value(d@) == distance(public_key@, *p)
                    },
                },
            decreases bucket@.len() - j,
        {
            let ghost seen = before + bucket@.take(j as int).map_values(|e: (u8, Peer)| e.1);
            let ghost seen2 = before + bucket@.take(j + 1).map_values(|e: (u8, Peer)| e.1);
            proof {
                assert(seen2 =~= seen.push(bucket@[j as int].1));
            }
            let p = &bucket[j].1;
            let them = Natural::from_bytes(p.public_key.as_slice());
            let d = crate::natural::opis_xor(&me, &them);
            proof {
                lemma_xor_len(me@, them@);
            }
            let replace = match &best {
                None => true,
                Some((_, bd)) => {
                    let r = crate::natural::opis_less(&d, bd);
                    proof {
                        crate::natural::lemma_stripped_less(d@, bd@);
                    }
                    r
                },
            };
            if replace {
                proof {
                    bi = seen.len() as int;
                    assert forall|k: int| 0 <= k < seen2.len() implies distance(public_key@, seen2[bi])
                        <= distance(public_key@, #[trigger] seen2[k]) by {
                        if k < seen.len() {
                            assert(seen2[k] == seen[k]);
                        }
                    }
                    assert forall|k: int| 0 <= k < bi implies distance(public_key@, #[trigger] seen2[k])
                        > distance(public_key@, seen2[bi]) by {
                        assert(seen2[k] == seen[k]);
                    }
                }
                best = Some((p, d));
            } else {
                proof {
                    assert forall|k: int| 0 <= k < seen2.len() implies distance(public_key@, seen2[bi])
                        <= distance(public_key@, #[trigger] seen2[k]) by {
                        if k < seen.len() {
                            assert(seen2[k] == seen[k]);
                        }
                    }
                    assert forall|k: int| 0 <= k < bi implies distance(public_key@, #[trigger] seen2[k])
                        > distance(public_key@, seen2[bi]) by {
                        assert(seen2[k] == seen[k]);
                    }
                }
            }
            j = j + 1;
        }
        proof {
            assert(bucket@.take(j as int) =~= bucket@);
            assert(tv.take(i + 1).drop_last() =~= tv.take(i as int));
            assert(all_peers(tv.take(i + 1)) =~= before + bucket@.map_values(|e: (u8, Peer)| e.1));
        }
        i = i + 1;
    }
    proof {
        assert(tv.take(i as int) =~= tv);
    }
    match best {
        Some((p, _)) => p.clone(),
        None => {
            proof {
                assert(false);
            }
            Peer::new()
        },
    }
}

} // verus!
