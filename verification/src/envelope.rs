use vstd::prelude::*;
use crate::astro::{
    decode_arrays, encode_arrays, frame_safe, lemma_list_roundtrip, list_encoding, list_overruns,
    read_list, vec_views, Framing,
};
use crate::clock::unix_now;
use crate::crypto::{blake3_digest, hash, hash_views, merkle_root, merkle_root_of};
use crate::error::Error;
use crate::kind::Kind;
use crate::natural::{
    Natural, lemma_canonical_less, lemma_u64_bits, lemma_nat_bits, bits_bytes, bits_less, bits_value, canonical, decimal_value, nat_bits,
    spec_from_bytes, u64_be_bytes,
};
use crate::route::Route;

verus! {

/// What an envelope holds, as plain values.
pub struct EnvelopeView {
    pub kind: Kind,
    pub message: Seq<u8>,
    pub nonce: Seq<bool>,
    pub route: Route,
    pub sender: Seq<u8>,
    pub time: Seq<bool>,
}

/// An envelope: a payload of some kind from a sender's key on a route,
/// stamped with the time it was made and a nonce that makes its hash start
/// with a zero byte.
#[derive(Debug)]
pub struct Envelope {
    pub kind: Kind,
    pub message: Vec<u8>,
    pub nonce: Natural,
    pub route: Route,
    pub sender: [u8; 32],
    pub time: Natural,
}

impl View for Envelope {
    type V = EnvelopeView;

    open spec fn view(&self) -> EnvelopeView {
        EnvelopeView {
            kind: self.kind,
            message: self.message@,
            nonce: self.nonce@,
            route: self.route,
            sender: self.sender@,
            time: self.time@,
        }
    }
}

impl Clone for Envelope {
    fn clone(&self) -> (r: Envelope)
        ensures
            r@ == self@,
    {
        let message = self.message.clone();
        assert(message@ =~= self.message@);
        Envelope {
            kind: self.kind,
            message,
            nonce: self.nonce.clone(),
            route: self.route,
            sender: self.sender,
            time: self.time.clone(),
        }
    }
}

/// The seconds an envelope stays fresh.
pub open spec fn envelope_lifetime() -> nat {
    86400
}

impl EnvelopeView {
    /// The fields in wire order: kind, message, nonce, route, sender, time.
    pub open spec fn fields(self) -> Seq<Seq<u8>> {
        seq![
            seq![self.kind.spec_byte()],
            self.message,
            bits_bytes(self.nonce),
            seq![self.route.spec_byte()],
            self.sender,
            bits_bytes(self.time),
        ]
    }

    /// The wire encoding: the fields as a list of arrays.
    pub open spec fn bytes(self) -> Seq<u8> {
        list_encoding(self.fields())
    }

    /// The hashed fields: all but the route.
    pub open spec fn hashed_fields(self) -> Seq<Seq<u8>> {
        seq![
            seq![self.kind.spec_byte()],
            self.message,
            bits_bytes(self.nonce),
            self.sender,
            bits_bytes(self.time),
        ]
    }

    /// The hash: the Merkle root of the hashes of all fields but the route.
    pub open spec fn hash(self) -> Seq<u8> {
        merkle_root_of(self.hashed_fields().map_values(|f: Seq<u8>| blake3_digest(f)))
    }

    /// The same envelope with another time and route.
    pub open spec fn with_time_and_route(self, time: Seq<bool>, route: Route) -> EnvelopeView {
        EnvelopeView { time, route, ..self }
    }

    /// The same envelope with another nonce.
    pub open spec fn with_nonce(self, n: Seq<bool>) -> EnvelopeView {
        EnvelopeView { nonce: n, ..self }
    }

    /// Whether the hash starts with a zero byte.
    pub open spec fn meets_difficulty(self) -> bool {
        self.hash()[0] == 0
    }

    /// Whether the envelope is fresh at `now`: not from the future and
    /// less than a day old.
    pub open spec fn fresh_at(self, now: u64) -> bool {
        let current = spec_from_bytes(u64_be_bytes(now));
        &&& !bits_less(current, self.time)
        &&& bits_less(
            nat_bits((bits_value(current) - bits_value(self.time)) as nat),
            nat_bits(envelope_lifetime()),
        )
    }
}

/// The envelope, as plain values, that stamping starts from: nonce zero,
/// time `now`.
pub open spec fn envelope_unstamped(kind: Kind, message: Seq<u8>, sender: Seq<u8>, route: Route, now: u64) -> EnvelopeView {
    EnvelopeView {
        kind,
        message,
        nonce: seq![false],
        route,
        sender,
        time: spec_from_bytes(u64_be_bytes(now)),
    }
}

/// Whether `end` is what the search for a nonce makes of `start` (see
/// `stamped_from` for messages).
pub open spec fn envelope_stamped_from(start: EnvelopeView, end: EnvelopeView) -> bool {
    exists|k: nat|
        #![trigger crate::message::nonce_after(start.nonce, k)]
        {
            &&& k <= u64::MAX
            &&& end == start.with_nonce(crate::message::nonce_after(start.nonce, k))
            &&& (end.meets_difficulty() || k == u64::MAX)
            &&& forall|j: nat|
                j < k ==> !(#[trigger] start.with_nonce(
                    crate::message::nonce_after(start.nonce, j),
                )).meets_difficulty()
        }
}

/// The envelope that six fields stand for, or the first field that is refused.
pub open spec fn envelope_from_fields(s: Seq<Seq<u8>>) -> Result<EnvelopeView, Error> {
    match Kind::spec_from_byte(s[0][0]) {
        Err(e) => Err(e),
        Ok(k) => match Route::spec_from_byte(s[3][0]) {
            Err(e) => Err(e),
            Ok(r) => if s[4].len() != 32 {
                Err(Error::SenderLength)
            } else {
                Ok(
                    EnvelopeView {
                        kind: k,
                        message: s[1],
                        nonce: spec_from_bytes(s[2]),
                        route: r,
                        sender: s[4],
                        time: spec_from_bytes(s[5]),
                    },
                )
            },
        },
    }
}

/// What reading an envelope gives before its age is looked at (the bytes
/// do not overrun): the envelope, or the first error among decoding, the
/// field count, the fields themselves and the difficulty.
pub open spec fn read_envelope(b: Seq<u8>) -> Result<EnvelopeView, Error> {
    match read_list(b) {
        Framing::Arrays(s) => if s.len() != 6 {
            Err(Error::FieldCount)
        } else {
            match envelope_from_fields(s) {
                Err(e) => Err(e),
                Ok(v) => if !v.meets_difficulty() {
                    Err(Error::TooEasy)
                } else {
                    Ok(v)
                },
            }
        },
        _ => Err(Error::Decode),
    }
}

/// What reading an envelope at `now` gives (the bytes do not overrun): what
/// reading gives, where that is an envelope too old or from the future
/// becoming `TooOld`.
pub open spec fn parse_envelope(b: Seq<u8>, now: u64) -> Result<EnvelopeView, Error> {
    match read_envelope(b) {
        Err(e) => Err(e),
        Ok(v) => if !v.fresh_at(now) {
            Err(Error::TooOld)
        } else {
            Ok(v)
        },
    }
}

/// The bytes on which reading an envelope does not return: a length runs
/// past the end, or the kind field, or (after a known kind) the route
/// field, is empty.
pub open spec fn envelope_parse_panics(b: Seq<u8>) -> bool {
    match read_list(b) {
        Framing::Overrun => true,
        Framing::Arrays(s) => s.len() == 6 && (s[0].len() == 0 || (Kind::spec_from_byte(s[0][0]) is Ok
            && s[3].len() == 0)),
        Framing::Malformed => false,
    }
}

/// Copies 32 bytes into a key; other lengths give nothing.
pub(crate) fn key_from_slice(d: &[u8]) -> (r: Option<[u8; 32]>)
    ensures
        r is Some <==> d@.len() == 32,
        r matches Some(a) ==> a@ == d@,
{
    if d.len() != 32 {
        return None;
    }
    let mut a: [u8; 32] = [0u8; 32];
    let mut i: usize = 0;
    while i < 32
        invariant
            d@.len() == 32,
            i <= 32,
            forall|j: int| 0 <= j < i ==> a@[j] == d@[j],
        decreases 32 - i,
    {
        a[i] = d[i];
        i = i + 1;
    }
    assert(a@ =~= d@);
    Some(a)
}

proof fn lemma_lifetime_decimal()
    ensures
        decimal_value("86400"@) == envelope_lifetime(),
        crate::natural::canonical_decimal("86400"@),
{
    reveal_strlit("86400");
    reveal_with_fuel(decimal_value, 6);
    let s = "86400"@;
    assert(s.drop_last() =~= seq!['8', '6', '4', '0']);
    assert(s.drop_last().drop_last() =~= seq!['8', '6', '4']);
    assert(s.drop_last().drop_last().drop_last() =~= seq!['8', '6']);
    assert(s.drop_last().drop_last().drop_last().drop_last() =~= seq!['8']);
    assert(seq!['8'].drop_last() =~= Seq::<char>::empty());
}

impl Envelope {
    /// The wire encoding of the envelope.
    pub fn to_bytes(&self) -> (r: Vec<u8>)
        ensures
            r@ == self@.bytes(),
    {
        let mut fields: Vec<Vec<u8>> = Vec::new();
        fields.push(self.kind.to_bytes());
        let message = self.message.clone();
        assert(message@ =~= self.message@);
        fields.push(message);
        fields.push(self.nonce.to_bytes());
        fields.push(self.route.to_bytes());
        fields.push(vstd::slice::slice_to_vec(self.sender.as_slice()));
        fields.push(self.time.to_bytes());
        assert(vec_views(fields@) =~= self@.fields());
        encode_arrays(&fields)
    }

    /// The hash of the envelope.
    pub fn hash(&self) -> (r: [u8; 32])
        ensures
            r@ == self@.hash(),
    {
        let kind = self.kind.to_bytes();
        let nonce = self.nonce.to_bytes();
        let time = self.time.to_bytes();
        let mut hashes: Vec<[u8; 32]> = Vec::new();
        hashes.push(hash(kind.as_slice()));
        hashes.push(hash(self.message.as_slice()));
        hashes.push(hash(nonce.as_slice()));
        hashes.push(hash(self.sender.as_slice()));
        hashes.push(hash(time.as_slice()));
        assert(hash_views(hashes@) =~= self@.hashed_fields().map_values(
            |f: Seq<u8>| blake3_digest(f),
        ));
        merkle_root(hashes)
    }

    /// Counts the nonce up until the hash starts with a zero byte; gives up
    /// after `u64::MAX` increments.
    pub fn apply_difficulty(&mut self)
        ensures
            envelope_stamped_from(old(self)@, final(self)@),
    {
        let ghost start = self@;
        let mut h = self.hash();
        let mut count: u64 = 0;
        proof {
            assert(start.with_nonce(crate::message::nonce_after(start.nonce, 0)) =~= start);
        }
        while h[0] != 0 && count < u64::MAX
            invariant
                self@ == start.with_nonce(crate::message::nonce_after(start.nonce, count as nat)),
                h@ == self@.hash(),
                forall|j: nat|
                    j < count ==> !(#[trigger] start.with_nonce(
                        crate::message::nonce_after(start.nonce, j),
                    )).meets_difficulty(),
            decreases u64::MAX - count,
        {
            let one = Natural::one();
            let next = self.nonce.add(&one);
            proof {
                lemma_nat_bits((bits_value(start.nonce) + count) as nat);
                assert(bits_value(seq![true]) == 1) by {
                    reveal_with_fuel(bits_value, 2);
                    assert(seq![true].drop_last() =~= Seq::<bool>::empty());
                }
            }
            self.nonce = next;
            count = count + 1;
            h = self.hash();
        }
        proof {
            let k = count as nat;
            assert(self@ == start.with_nonce(crate::message::nonce_after(start.nonce, k)));
        }
    }

    /// A stamped envelope made at `now` (seconds since the Unix epoch).
    pub fn new_at(kind: Kind, message: &[u8], public_key: &[u8; 32], route: &Route, now: u64) -> (r: Envelope)
        ensures
            envelope_stamped_from(envelope_unstamped(kind, message@, public_key@, *route, now), r@),
    {
        let mut envelope = Envelope {
            kind,
            message: vstd::slice::slice_to_vec(message),
            nonce: Natural::zero(),
            route: *route,
            sender: *public_key,
            time: Natural::from_u64(now),
        };
        envelope.apply_difficulty();
        envelope
    }

    /// A stamped envelope made now; nothing where the clock reads a time
    /// before the Unix epoch.
    pub fn new(kind: Kind, message: &[u8], public_key: &[u8; 32], route: &Route) -> (r: Option<Envelope>)
        ensures
            r matches Some(e) ==> exists|now: u64|
                envelope_stamped_from(envelope_unstamped(kind, message@, public_key@, *route, now), e@),
    {
        match unix_now() {
            Some(now) => Some(Envelope::new_at(kind, message, public_key, route, now)),
            None => None,
        }
    }

    /// Whether reading an envelope from the bytes returns.
    pub fn readable(bytes: &[u8]) -> (r: bool)
        ensures
            r == !envelope_parse_panics(bytes@),
    {
        if list_overruns(bytes) {
            return false;
        }
        match decode_arrays(bytes) {
            None => true,
            Some(d) => {
                if d.len() != 6 {
                    return true;
                }
                let ghost s = vec_views(d@);
                assert(d[0]@ == s[0]);
                assert(d[3]@ == s[3]);
                if d[0].len() == 0 {
                    return false;
                }
                match Kind::from_bytes(d[0].as_slice()) {
                    Ok(_) => d[3].len() != 0,
                    Err(_) => true,
                }
            },
        }
    }

    /// Reads an envelope and checks that it meets the difficulty; its age
    /// is not looked at.
    fn read(bytes: &[u8]) -> (r: Result<Envelope, Error>)
        requires
            !envelope_parse_panics(bytes@),
        ensures
            r is Ok <==> read_envelope(bytes@) is Ok,
            r matches Ok(e) ==> read_envelope(bytes@) == Ok::<EnvelopeView, Error>(e@),
            r matches Err(x) ==> read_envelope(bytes@) == Err::<EnvelopeView, Error>(x),
    {
        let details = match decode_arrays(bytes) {
            Some(d) => d,
            None => return Err(Error::Decode),
        };
        if details.len() != 6 {
            return Err(Error::FieldCount);
        }
        let ghost s = vec_views(details@);
        assert(details[0]@ == s[0]);
        let kind = match Kind::from_bytes(details[0].as_slice()) {
            Ok(k) => k,
            Err(e) => return Err(e),
        };
        let message = details[1].clone();
        assert(message@ =~= s[1]);
        assert(details[2]@ == s[2]);
        let nonce = Natural::from_bytes(details[2].as_slice());
        assert(details[3]@ == s[3]);
        let route = match Route::from_bytes(details[3].as_slice()) {
            Ok(r) => r,
            Err(e) => return Err(e),
        };
        assert(details[4]@ == s[4]);
        let sender = match key_from_slice(details[4].as_slice()) {
            Some(k) => k,
            None => return Err(Error::SenderLength),
        };
        assert(details[5]@ == s[5]);
        let time = Natural::from_bytes(details[5].as_slice());
        let envelope = Envelope { kind, message, nonce, route, sender, time };
        assert(envelope_from_fields(s) == Ok::<EnvelopeView, Error>(envelope@));
        let h = envelope.hash();
        if h[0] != 0 {
            return Err(Error::TooEasy);
        }
        Ok(envelope)
    }

    /// Whether the envelope is fresh at `now`.
    fn is_fresh_at(&self, now: u64) -> (r: bool)
        ensures
            r == self@.fresh_at(now),
    {
        let current = Natural::from_u64(now);
        if !current.less_than(&self.time) {
            let age = current.sub(&self.time);
            proof {
                lemma_lifetime_decimal();
            }
            let limit = Natural::from_decimal("86400");
            age.less_than(&limit)
        } else {
            false
        }
    }

    /// Reads an envelope and checks it at `now`: it must meet the difficulty
    /// and be fresh.
    pub fn from_bytes_at(bytes: &[u8], now: u64) -> (r: Result<Envelope, Error>)
        requires
            !envelope_parse_panics(bytes@),
        ensures
            r is Ok <==> parse_envelope(bytes@, now) is Ok,
            r matches Ok(e) ==> parse_envelope(bytes@, now) == Ok::<EnvelopeView, Error>(e@),
            r matches Err(x) ==> parse_envelope(bytes@, now) == Err::<EnvelopeView, Error>(x),
    {
        let envelope = match Envelope::read(bytes) {
            Ok(e) => e,
            Err(e) => return Err(e),
        };
        if envelope.is_fresh_at(now) {
            Ok(envelope)
        } else {
            Err(Error::TooOld)
        }
    }

    /// Reads an envelope and checks it now. Decoding, field and difficulty
    /// errors come before the clock is read, as they do at any time; then
    /// `Clock` where the clock reads a time before the Unix epoch, else
    /// `TooOld` where the envelope is not fresh at the time read.
    pub fn from_bytes(bytes: &[u8]) -> (r: Result<Envelope, Error>)
        requires
            !envelope_parse_panics(bytes@),
        ensures
            match read_envelope(bytes@) {
                Err(e) => r == Err::<Envelope, Error>(e),
                Ok(v) => r == Err::<Envelope, Error>(Error::Clock) || exists|now: u64|
                    if v.fresh_at(now) {
                        r matches Ok(e) && e@ == v
                    } else {
                        r == Err::<Envelope, Error>(Error::TooOld)
                    },
            },
    {
        let envelope = match Envelope::read(bytes) {
            Ok(e) => e,
            Err(e) => return Err(e),
        };
        match unix_now() {
            Some(now) => {
                if envelope.is_fresh_at(now) {
                    Ok(envelope)
                } else {
                    Err(Error::TooOld)
                }
            },
            None => Err(Error::Clock),
        }
    }
}

/// Reading back the encoding of a stamped, fresh envelope gives the
/// envelope, when the length of every field is one that the list format
/// gets back.
pub proof fn lemma_envelope_roundtrip(v: EnvelopeView, now: u64)
    requires
        canonical(v.nonce),
        canonical(v.time),
        v.sender.len() == 32,
        forall|j: int| 0 <= j < 6 ==> frame_safe(#[trigger] v.fields()[j]),
    ensures
        !envelope_parse_panics(v.bytes()),
        parse_envelope(v.bytes(), now) == (if !v.meets_difficulty() {
            Err(Error::TooEasy)
        } else if !v.fresh_at(now) {
            Err(Error::TooOld)
        } else {
            Ok::<EnvelopeView, Error>(v)
        }),
{
    let f = v.fields();
    assert forall|j: int| 0 <= j < f.len() implies frame_safe(#[trigger] f[j]) by {}
    lemma_list_roundtrip(f);
    crate::kind::lemma_kind_roundtrip(v.kind);
    crate::route::lemma_route_roundtrip(v.route);
    crate::natural::lemma_natural_bytes_roundtrip(v.nonce);
    crate::natural::lemma_natural_bytes_roundtrip(v.time);
    assert(envelope_from_fields(f) == Ok::<EnvelopeView, Error>(v));
}

/// An envelope's hash does not cover its time (the fifth hashed field,
/// which the Merkle root leaves out) nor its route (not hashed at all).
pub proof fn lemma_envelope_hash_ignores_time_and_route(v: EnvelopeView, time: Seq<bool>, route: Route)
    ensures
        v.with_time_and_route(time, route).hash() == v.hash(),
{
    let w = v.with_time_and_route(time, route);
    let lv = v.hashed_fields().map_values(|f: Seq<u8>| blake3_digest(f));
    let lw = w.hashed_fields().map_values(|f: Seq<u8>| blake3_digest(f));
    crate::crypto::lemma_five_leaf_root(lv);
    crate::crypto::lemma_five_leaf_root(lw);
    assert(lv[0] == lw[0] && lv[1] == lw[1] && lv[2] == lw[2] && lv[3] == lw[3]);
}

/// An envelope that met the difficulty when it was stamped at `now` is fresh at `now`.
pub proof fn lemma_stamped_envelope_fresh(start: EnvelopeView, end: EnvelopeView, now: u64)
    requires
        start.time == spec_from_bytes(u64_be_bytes(now)),
        envelope_stamped_from(start, end),
    ensures
        end.fresh_at(now),
{
    lemma_nat_bits(envelope_lifetime());
    reveal_with_fuel(nat_bits, 2);
    assert(nat_bits(0) =~= seq![false]);
}

/// An envelope's hash is the BLAKE3 digest of two pair digests: that of
/// the digests of its kind byte and its message, and that of the digests of
/// its nonce bytes and its sender, in that order. Neither the time nor the
/// route is hashed.
pub proof fn lemma_envelope_hash_tree(v: EnvelopeView)
    ensures
        v.hash() == blake3_digest(
            blake3_digest(blake3_digest(seq![v.kind.spec_byte()]) + blake3_digest(v.message)) + blake3_digest(
                blake3_digest(bits_bytes(v.nonce)) + blake3_digest(v.sender),
            ),
        ),
{
    let l = v.hashed_fields().map_values(|f: Seq<u8>| blake3_digest(f));
    crate::crypto::lemma_five_leaf_root(l);
}

/// An envelope stamped at `t0` is fresh at `t1` exactly when `t1` lies in
/// the day that starts at `t0`.
pub proof fn lemma_envelope_fresh_window(start: EnvelopeView, end: EnvelopeView, t0: u64, t1: u64)
    requires
        start.time == spec_from_bytes(u64_be_bytes(t0)),
        envelope_stamped_from(start, end),
    ensures
        end.fresh_at(t1) <==> (t0 <= t1 && t1 < t0 + envelope_lifetime()),
{
    assert(end.time == start.time);
    lemma_u64_bits(t0);
    lemma_u64_bits(t1);
    let c = spec_from_bytes(u64_be_bytes(t1));
    lemma_canonical_less(c, end.time);
    if t0 <= t1 {
        let d = (t1 - t0) as nat;
        lemma_nat_bits(d);
        lemma_nat_bits(envelope_lifetime());
        lemma_canonical_less(nat_bits(d), nat_bits(envelope_lifetime()));
    }
}

/// An envelope stamped at `t0` that met the difficulty reads back, at any
/// time `t1` within the day that starts at `t0`, as itself, when the length
/// of every field is one that the list format gets back.
pub proof fn lemma_stamped_envelope_reads_back(start: EnvelopeView, end: EnvelopeView, t0: u64, t1: u64)
    requires
        start.time == spec_from_bytes(u64_be_bytes(t0)),
        envelope_stamped_from(start, end),
        end.meets_difficulty(),
        canonical(end.nonce),
        end.sender.len() == 32,
        forall|j: int| 0 <= j < 6 ==> frame_safe(#[trigger] end.fields()[j]),
        t0 <= t1 < t0 + envelope_lifetime(),
    ensures
        !envelope_parse_panics(end.bytes()),
        parse_envelope(end.bytes(), t1) == Ok::<EnvelopeView, Error>(end),
{
    lemma_envelope_fresh_window(start, end, t0, t1);
    lemma_u64_bits(t0);
    assert(end.time == start.time);
    lemma_envelope_roundtrip(end, t1);
}

} // verus!
