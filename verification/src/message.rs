use vstd::prelude::*;
use crate::astro::{decode_arrays, encode_arrays, frame_safe, lemma_list_roundtrip, list_encoding, list_overruns, read_list, vec_views, Framing};
use crate::chain::Chain;
use crate::clock::unix_now;
use crate::crypto::{blake3_digest, hash, merkle_root, merkle_root_of, hash_views};
use crate::error::Error;
use crate::natural::{Natural, lemma_canonical_less, lemma_u64_bits, lemma_nat_bits, bits_bytes, bits_less, bits_value, canonical, nat_bits, spec_from_bytes, u64_be_bytes};
use crate::topic::Topic;

verus! {

/// What a message holds, as plain values.
pub struct MessageView {
    pub body: Seq<u8>,
    pub chain: Chain,
    pub nonce: Seq<bool>,
    pub time: Seq<bool>,
    pub topic: Topic,
}

/// A message: a body for a chain and a topic, stamped with the time it was
/// made and a nonce that makes its hash start with a zero byte.
#[derive(Debug)]
pub struct Message {
    pub body: Vec<u8>,
    pub chain: Chain,
    pub nonce: Natural,
    pub time: Natural,
    pub topic: Topic,
}

impl View for Message {
    type V = MessageView;

    open spec fn view(&self) -> MessageView {
        MessageView {
            body: self.body@,
            chain: self.chain,
            nonce: self.nonce@,
            time: self.time@,
            topic: self.topic,
        }
    }
}

impl Clone for Message {
    fn clone(&self) -> (r: Message)
        ensures
            r@ == self@,
    {
        let body = self.body.clone();
        assert(body@ =~= self.body@);
        Message {
            body,
            chain: self.chain,
            nonce: self.nonce.clone(),
            time: self.time.clone(),
            topic: self.topic,
        }
    }
}

impl MessageView {
    /// The fields in wire order: body, chain, nonce, time, topic.
    pub open spec fn fields(self) -> Seq<Seq<u8>> {
        seq![
            self.body,
            seq![self.chain.spec_byte()],
            bits_bytes(self.nonce),
            bits_bytes(self.time),
            seq![self.topic.spec_byte()],
        ]
    }

    /// The wire encoding: the fields as a list of arrays.
    pub open spec fn bytes(self) -> Seq<u8> {
        list_encoding(self.fields())
    }

    /// The hash: the Merkle root of the hashes of the fields.
    pub open spec fn hash(self) -> Seq<u8> {
        merkle_root_of(self.fields().map_values(|f: Seq<u8>| blake3_digest(f)))
    }

    /// Whether the message is valid exactly when `other` is, at every time.
    pub open spec fn valid_at_all_same(self, other: MessageView) -> bool {
        forall|now: u64| #[trigger] self.valid_at(now) == other.valid_at(now)
    }

    /// The same message with another topic.
    pub open spec fn with_topic(self, t: Topic) -> MessageView {
        MessageView { topic: t, ..self }
    }

    /// The same message with another nonce.
    pub open spec fn with_nonce(self, n: Seq<bool>) -> MessageView {
        MessageView { nonce: n, ..self }
    }

    /// Whether a message meets the difficulty: its hash starts with a zero byte.
    pub open spec fn meets_difficulty(self) -> bool {
        self.hash()[0] == 0
    }

    /// Whether the message is valid at `now`: it is not from the future,
    /// is less than five seconds old, and meets the difficulty.
    pub open spec fn valid_at(self, now: u64) -> bool {
        let current = spec_from_bytes(u64_be_bytes(now));
        &&& !bits_less(current, self.time)
        &&& bits_less(nat_bits((bits_value(current) - bits_value(self.time)) as nat), nat_bits(5))
        &&& self.meets_difficulty()
    }
}

/// The message, as plain values, that stamping starts from: nonce zero,
/// time `now`.
pub open spec fn unstamped(body: Seq<u8>, chain: Chain, topic: Topic, now: u64) -> MessageView {
    MessageView { body, chain, nonce: seq![false], time: spec_from_bytes(u64_be_bytes(now)), topic }
}

/// The nonce after `k` increments of `start`.
pub open spec fn nonce_after(start: Seq<bool>, k: nat) -> Seq<bool> {
    if k == 0 {
        start
    } else {
        nat_bits(bits_value(start) + k)
    }
}

/// Whether a stamped message `end` is what the search for a nonce makes of
/// `start`: it counts the nonce up from where it was until the hash starts
/// with a zero byte, and gives up after `u64::MAX` increments.
pub open spec fn stamped_from(start: MessageView, end: MessageView) -> bool {
    exists|k: nat|
        #![trigger nonce_after(start.nonce, k)]
        {
            &&& k <= u64::MAX
            &&& end == start.with_nonce(nonce_after(start.nonce, k))
            &&& (end.meets_difficulty() || k == u64::MAX)
            &&& forall|j: nat|
                j < k ==> !(#[trigger] start.with_nonce(nonce_after(start.nonce, j))).meets_difficulty()
        }
}

/// What reading a message from bytes gives (the bytes do not overrun).
pub open spec fn parse_message(b: Seq<u8>) -> Result<MessageView, Error> {
    match read_list(b) {
        Framing::Arrays(s) => if s.len() != 5 {
            Err(Error::FieldCount)
        } else {
            match Chain::spec_from_byte(s[1][0]) {
                Err(e) => Err(e),
                Ok(c) => match Topic::spec_from_byte(s[4][0]) {
                    Err(e) => Err(e),
                    Ok(t) => Ok(
                        MessageView {
                            body: s[0],
                            chain: c,
                            nonce: spec_from_bytes(s[2]),
                            time: spec_from_bytes(s[3]),
                            topic: t,
                        },
                    ),
                },
            }
        },
        _ => Err(Error::Decode),
    }
}

/// The bytes on which reading a message does not return: a length runs
/// past the end, or the chain field, or (after a known chain) the topic
/// field, is empty.
pub open spec fn message_parse_panics(b: Seq<u8>) -> bool {
    match read_list(b) {
        Framing::Overrun => true,
        Framing::Arrays(s) => s.len() == 5 && (s[1].len() == 0 || (Chain::spec_from_byte(
            s[1][0],
        ) is Ok && s[4].len() == 0)),
        Framing::Malformed => false,
    }
}

proof fn lemma_decimal_digit(c: char)
    requires
        '0' <= c <= '9',
    ensures
        crate::natural::decimal_value(seq![c]) == c as nat - '0' as nat,
        crate::natural::canonical_decimal(seq![c]),
{
    reveal_with_fuel(crate::natural::decimal_value, 2);
    assert(seq![c].drop_last() =~= Seq::<char>::empty());
}


/// Reading back the encoding of a message gives the message, when the
/// length of every field is one that the list format gets back.
pub proof fn lemma_message_roundtrip(v: MessageView)
    requires
        canonical(v.nonce),
        canonical(v.time),
        forall|j: int| 0 <= j < 5 ==> frame_safe(#[trigger] v.fields()[j]),
    ensures
        !message_parse_panics(v.bytes()),
        parse_message(v.bytes()) == Ok::<MessageView, Error>(v),
{
    let f = v.fields();
    assert forall|j: int| 0 <= j < f.len() implies frame_safe(#[trigger] f[j]) by {}
    lemma_list_roundtrip(f);
    crate::chain::lemma_chain_roundtrip(v.chain);
    crate::topic::lemma_topic_roundtrip(v.topic);
    crate::natural::lemma_natural_bytes_roundtrip(v.nonce);
    crate::natural::lemma_natural_bytes_roundtrip(v.time);
}

/// A message's hash does not cover its topic: the topic is the fifth field,
/// whose hash the Merkle root leaves out. So a message stays valid with
/// another topic.
pub proof fn lemma_message_hash_ignores_topic(v: MessageView, t: Topic)
    ensures
        v.with_topic(t).hash() == v.hash(),
        v.with_topic(t).valid_at_all_same(v),
{
    let w = v.with_topic(t);
    let lv = v.fields().map_values(|f: Seq<u8>| blake3_digest(f));
    let lw = w.fields().map_values(|f: Seq<u8>| blake3_digest(f));
    crate::crypto::lemma_five_leaf_root(lv);
    crate::crypto::lemma_five_leaf_root(lw);
    assert(lv[0] == lw[0] && lv[1] == lw[1] && lv[2] == lw[2] && lv[3] == lw[3]);
}

/// A message that met the difficulty when it was stamped at `now` is valid at `now`.
pub proof fn lemma_stamped_message_valid(start: MessageView, end: MessageView, now: u64)
    requires
        start.time == spec_from_bytes(u64_be_bytes(now)),
        stamped_from(start, end),
        end.meets_difficulty(),
    ensures
        end.valid_at(now),
{
    reveal_with_fuel(nat_bits, 4);
    assert(nat_bits(0) =~= seq![false]);
    assert(nat_bits(5).len() == 3);
}

/// A message's hash is the BLAKE3 digest of two pair digests: that of the
/// digests of its body and its chain byte, and that of the digests of its
/// nonce bytes and its time bytes, in that order. The topic is not hashed.
pub proof fn lemma_message_hash_tree(v: MessageView)
    ensures
        v.hash() == blake3_digest(
            blake3_digest(blake3_digest(v.body) + blake3_digest(seq![v.chain.spec_byte()])) + blake3_digest(
                blake3_digest(bits_bytes(v.nonce)) + blake3_digest(bits_bytes(v.time)),
            ),
        ),
{
    let l = v.fields().map_values(|f: Seq<u8>| blake3_digest(f));
    crate::crypto::lemma_five_leaf_root(l);
}

/// A message stamped at `t0` is valid at `t1` exactly when it met the
/// difficulty and `t1` lies in the five seconds that start at `t0`.
pub proof fn lemma_message_valid_window(start: MessageView, end: MessageView, t0: u64, t1: u64)
    requires
        start.time == spec_from_bytes(u64_be_bytes(t0)),
        stamped_from(start, end),
    ensures
        end.valid_at(t1) <==> (end.meets_difficulty() && t0 <= t1 && t1 < t0 + 5),
{
    assert(end.time == start.time);
    lemma_u64_bits(t0);
    lemma_u64_bits(t1);
    let c = spec_from_bytes(u64_be_bytes(t1));
    lemma_canonical_less(c, end.time);
    if t0 <= t1 {
        let d = (t1 - t0) as nat;
        lemma_nat_bits(d);
        lemma_nat_bits(5);
        lemma_canonical_less(nat_bits(d), nat_bits(5));
    }
}

impl Message {
    /// The wire encoding of the message.
    pub fn to_bytes(&self) -> (r: Vec<u8>)
        ensures
            r@ == self@.bytes(),
    {
        let mut fields: Vec<Vec<u8>> = Vec::new();
        let body = self.body.clone();
        assert(body@ =~= self.body@);
        fields.push(body);
        fields.push(self.chain.to_bytes());
        fields.push(self.nonce.to_bytes());
        fields.push(self.time.to_bytes());
        fields.push(self.topic.to_bytes());
        assert(vec_views(fields@) =~= self@.fields());
        encode_arrays(&fields)
    }

    /// The hash of the message.
    pub fn hash(&self) -> (r: [u8; 32])
        ensures
            r@ == self@.hash(),
    {
        let chain = self.chain.to_bytes();
        let nonce = self.nonce.to_bytes();
        let time = self.time.to_bytes();
        let topic = self.topic.to_bytes();
        let mut hashes: Vec<[u8; 32]> = Vec::new();
        hashes.push(hash(self.body.as_slice()));
        hashes.push(hash(chain.as_slice()));
        hashes.push(hash(nonce.as_slice()));
        hashes.push(hash(time.as_slice()));
        hashes.push(hash(topic.as_slice()));
        assert(hash_views(hashes@) =~= self@.fields().map_values(|f: Seq<u8>| blake3_digest(f)));
        merkle_root(hashes)
    }

    /// Counts the nonce up until the hash starts with a zero byte; gives up
    /// after `u64::MAX` increments.
    pub fn apply_difficulty(&mut self)
        ensures
            stamped_from(old(self)@, final(self)@),
    {
        let ghost start = self@;
        let mut h = self.hash();
        let mut count: u64 = 0;
        proof {
            assert(start.with_nonce(nonce_after(start.nonce, 0)) =~= start);
        }
        while h[0] != 0 && count < u64::MAX
            invariant
                self@ == start.with_nonce(nonce_after(start.nonce, count as nat)),
                h@ == self@.hash(),
                forall|j: nat|
                    j < count ==> !(#[trigger] start.with_nonce(
                        nonce_after(start.nonce, j),
                    )).meets_difficulty(),
            decreases u64::MAX - count,
        {
            let one = Natural::one();
            let next = self.nonce.add(&one);
            proof {
                lemma_nat_bits((bits_value(start.nonce) + count) as nat);
                assert(bits_value(seq![true]) == 1) by {
                    reveal_with_fuel(bits_value, 2);
                    assert(seq![true].drop_last() =~= Seq::<bool>::empty());
                }
            }
            self.nonce = next;
            count = count + 1;
            h = self.hash();
        }
        proof {
            let k = count as nat;
            assert(self@ == start.with_nonce(nonce_after(start.nonce, k)));
        }
    }

    /// A stamped message made at `now` (seconds since the Unix epoch).
    pub fn new_at(body: &[u8], chain: &Chain, topic: &Topic, now: u64) -> (r: Message)
        ensures
            stamped_from(unstamped(body@, *chain, *topic, now), r@),
    {
        let mut message = Message {
            body: vstd::slice::slice_to_vec(body),
            chain: *chain,
            nonce: Natural::zero(),
            time: Natural::from_u64(now),
            topic: *topic,
        };
        message.apply_difficulty();
        message
    }

    /// A stamped message made now; nothing where the clock reads a time
    /// before the Unix epoch.
    pub fn new(body: &[u8], chain: &Chain, topic: &Topic) -> (r: Option<Message>)
        ensures
            r matches Some(m) ==> exists|now: u64| stamped_from(unstamped(body@, *chain, *topic, now), m@),
    {
        match unix_now() {
            Some(now) => Some(Message::new_at(body, chain, topic, now)),
            None => None,
        }
    }

    /// Whether the message is valid at `now`.
    pub fn valid_at(&self, now: u64) -> (r: bool)
        ensures
            r == self@.valid_at(now),
    {
        let current = Natural::from_u64(now);
        if !current.less_than(&self.time) {
            let age = current.sub(&self.time);
            proof {
                reveal_strlit("5");
                lemma_decimal_digit('5');
                assert("5"@ =~= seq!['5']);
            }
            let limit = Natural::from_decimal("5");
            assert(limit@ == nat_bits(5));
            if age.less_than(&limit) {
                let h = self.hash();
                h[0] == 0
            } else {
                false
            }
        } else {
            false
        }
    }

    /// Whether the message is valid now; nothing where the clock reads a
    /// time before the Unix epoch.
    pub fn valid(&self) -> (r: Option<bool>)
        ensures
            r matches Some(v) ==> exists|now: u64| v == self@.valid_at(now),
    {
        match unix_now() {
            Some(now) => Some(self.valid_at(now)),
            None => None,
        }
    }

    /// Whether reading a message from the bytes returns.
    pub fn readable(bytes: &[u8]) -> (r: bool)
        ensures
            r == !message_parse_panics(bytes@),
    {
        if list_overruns(bytes) {
            return false;
        }
        match decode_arrays(bytes) {
            None => true,
            Some(d) => {
                if d.len() != 5 {
                    return true;
                }
                let ghost s = vec_views(d@);
                assert(d[1]@ == s[1]);
                assert(d[4]@ == s[4]);
                if d[1].len() == 0 {
                    return false;
                }
                match Chain::from_bytes(d[1].as_slice()) {
                    Ok(_) => d[4].len() != 0,
                    Err(_) => true,
                }
            },
        }
    }

    /// Reads a message from its wire encoding.
    pub fn from_bytes(bytes: &[u8]) -> (r: Result<Message, Error>)
        requires
            !message_parse_panics(bytes@),
        ensures
            r is Ok <==> parse_message(bytes@) is Ok,
            r matches Ok(m) ==> parse_message(bytes@) == Ok::<MessageView, Error>(m@),
            r matches Err(e) ==> parse_message(bytes@) == Err::<MessageView, Error>(e),
    {
        let details = match decode_arrays(bytes) {
            Some(d) => d,
            None => return Err(Error::Decode),
        };
        if details.len() == 5 {
            let ghost s = vec_views(details@);
            assert(details[1]@ == s[1]);
            let chain = match Chain::from_bytes(details[1].as_slice()) {
                Ok(c) => c,
                Err(e) => return Err(e),
            };
            assert(details[4]@ == s[4]);
            let topic = match Topic::from_bytes(details[4].as_slice()) {
                Ok(t) => t,
                Err(e) => return Err(e),
            };
            let body = details[0].clone();
            assert(body@ =~= s[0]);
            assert(details[2]@ == s[2]);
            assert(details[3]@ == s[3]);
            let m = Message {
                body,
                chain,
                nonce: Natural::from_bytes(details[2].as_slice()),
                time: Natural::from_bytes(details[3].as_slice()),
                topic,
            };
            Ok(m)
        } else {
            Err(Error::FieldCount)
        }
    }
}

} // verus!
