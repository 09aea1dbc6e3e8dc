use vstd::prelude::*;
use vstd::string::StringExecFns;
use crate::table::{Table, bucket_or_empty, entry_lookup, entry_store, lookup, store};

verus! {

/// The bits as the characters `0` and `1`.
pub open spec fn bit_chars(s: Seq<bool>) -> Seq<char> {
    s.map_values(|b: bool| if b { '1' } else { '0' })
}

/// The binary rendering of an integer's bits: `b'` and then the bits.
pub open spec fn binary_string(s: Seq<bool>) -> Seq<char> {
    seq!['b', '\''] + bit_chars(s)
}

/// The key of the bucket for a bit prefix: its binary rendering, or its
/// bare bits.
pub open spec fn prefix_key(binary: bool, prefix: Seq<bool>) -> Seq<char> {
    if binary {
        binary_string(prefix)
    } else {
        bit_chars(prefix)
    }
}

/// Whether the bucket under `key` can take a peer: there is none, or it has
/// fewer than `cap` entries (its size taken as a byte).
pub open spec fn has_room<V>(t: Seq<(Seq<char>, Seq<(u8, V)>)>, key: Seq<char>, cap: nat) -> bool {
    match lookup(t, key) {
        None => true,
        Some(b) => (b.len() % 256) < cap,
    }
}

/// Whether position `i` is one where the node's and the peer's ids differ
/// and the bucket of the peer's prefix up to it has room.
pub open spec fn slot_ok<V>(
    t: Seq<(Seq<char>, Seq<(u8, V)>)>,
    node: Seq<bool>,
    peer: Seq<bool>,
    binary: bool,
    cap: nat,
    i: int,
) -> bool {
    &&& 0 <= i < peer.len()
    &&& i < node.len()
    &&& node[i] != peer[i]
    &&& has_room(t, prefix_key(binary, peer.take(i + 1)), cap)
}

/// The first such position.
pub open spec fn first_slot<V>(
    t: Seq<(Seq<char>, Seq<(u8, V)>)>,
    node: Seq<bool>,
    peer: Seq<bool>,
    binary: bool,
    cap: nat,
) -> int {
    choose|i: int|
        slot_ok(t, node, peer, binary, cap, i) && forall|j: int|
            0 <= j < i ==> !#[trigger] slot_ok(t, node, peer, binary, cap, j)
}

/// The table with `v` added to the bucket under `key`: a new bucket holds
/// it under 1, a bucket with `n` entries holds it under `n` (as a byte).
pub open spec fn placed<V>(t: Seq<(Seq<char>, Seq<(u8, V)>)>, key: Seq<char>, v: V) -> Seq<
    (Seq<char>, Seq<(u8, V)>),
> {
    let k: u8 = match lookup(t, key) {
        None => 1u8,
        Some(b) => (b.len() % 256) as u8,
    };
    store(t, key, entry_store(bucket_or_empty(t, key), k, v))
}

/// The table after a peer is placed in the bucket of the first position
/// where the ids differ and the bucket has room; unchanged where there is none.
pub open spec fn first_free_insert<V>(
    t: Seq<(Seq<char>, Seq<(u8, V)>)>,
    node: Seq<bool>,
    peer: Seq<bool>,
    binary: bool,
    v: V,
    cap: nat,
) -> Seq<(Seq<char>, Seq<(u8, V)>)> {
    if exists|i: int| slot_ok(t, node, peer, binary, cap, i) {
        let i = first_slot(t, node, peer, binary, cap);
        placed(t, prefix_key(binary, peer.take(i + 1)), v)
    } else {
        t
    }
}

/// Whether the walk over the peer's id never reads past the node's id.
pub open spec fn walk_in_bounds<V>(
    t: Seq<(Seq<char>, Seq<(u8, V)>)>,
    node: Seq<bool>,
    peer: Seq<bool>,
    binary: bool,
    cap: nat,
) -> bool {
    peer.len() <= node.len() || exists|j: int| slot_ok(t, node, peer, binary, cap, j)
}

/// `opis::Int::to_binary` on a non-negative integer with the given bits:
/// `b'` and then the bits as `0` and `1`.
#[verifier::external_body]
fn opis_to_binary(bits: &Vec<bool>) -> (r: String)
    ensures
        r@ == binary_string(bits@),
{
    let magnitude = bits.iter().map(|&x| if x { opis::Bit::One } else { opis::Bit::Zero }).collect();
    opis::Int { magnitude, sign: false }.to_binary()
}

/// The bits as a string of `0` and `1`.
fn bits_to_string(bits: &Vec<bool>) -> (r: String)
    ensures
        r@ == bit_chars(bits@),
{
    let mut r = String::new();
    let mut i: usize = 0;
    while i < bits.len()
        invariant
            i <= bits@.len(),
            r@ == bit_chars(bits@.take(i as int)),
        decreases bits@.len() - i,
    {
        let ghost c = if bits@[i as int] { '1' } else { '0' };
        proof {
            reveal_strlit("1");
            reveal_strlit("0");
            assert(bit_chars(bits@.take(i + 1)) =~= bit_chars(bits@.take(i as int)).push(c));
        }
        if bits[i] {
            r.append("1");
        } else {
            r.append("0");
        }
        assert(r@ =~= bit_chars(bits@.take(i + 1)));
        i = i + 1;
    }
    assert(bits@.take(bits@.len() as int) =~= bits@);
    r
}

/// The key and entry key of the bucket where the first position with room
/// leads, if there is such a position.
fn find_slot<V>(table: &Table<V>, node: &Vec<bool>, peer: &Vec<bool>, binary: bool, cap: usize) -> (r:
    Option<(String, u8)>)
    requires
        walk_in_bounds(table@, node@, peer@, binary, cap as nat),
    ensures
        match r {
            Some((key, k)) => {
                let t = table@;
                &&& exists|x: int| slot_ok(t, node@, peer@, binary, cap as nat, x)
                &&& key@ == prefix_key(
                    binary,
                    peer@.take(first_slot(t, node@, peer@, binary, cap as nat) + 1),
                )
                &&& k == match lookup(t, key@) {
                    None => 1u8,
                    Some(b) => (b.len() % 256) as u8,
                }
            },
            None => forall|x: int| !slot_ok(table@, node@, peer@, binary, cap as nat, x),
        },
{
    let ghost t0 = table@;
    let mut prefix: Vec<bool> = Vec::new();
    let mut i: usize = 0;
    while i < peer.len()
        invariant
            table@ == t0,
            i <= peer@.len(),
            prefix@ == peer@.take(i as int),
            walk_in_bounds(t0, node@, peer@, binary, cap as nat),
            forall|j: int| 0 <= j < i ==> !#[trigger] slot_ok(t0, node@, peer@, binary, cap as nat, j),
        decreases peer@.len() - i,
    {
        assert(i < node@.len()) by {
            if i >= node@.len() {
                let j = choose|j: int| slot_ok(t0, node@, peer@, binary, cap as nat, j);
                assert(j < node@.len());
                assert(!slot_ok(t0, node@, peer@, binary, cap as nat, j));
            }
        }
        prefix.push(peer[i]);
        assert(prefix@ =~= peer@.take(i + 1));
        if node[i] != peer[i] {
            let key = if binary { opis_to_binary(&prefix) } else { bits_to_string(&prefix) };
            assert(key@ == prefix_key(binary, peer@.take(i + 1)));
            let room: Option<u8> = match table.get(&key) {
                Some(b) => {
                    let n = (b.len() % 256) as u8;
                    if (n as usize) < cap {
                        Some(n)
                    } else {
                        None
                    }
                },
                None => Some(1u8),
            };
            if let Some(k) = room {
                proof {
                    assert(slot_ok(t0, node@, peer@, binary, cap as nat, i as int) && forall|j: int|
                        0 <= j < i ==> !#[trigger] slot_ok(t0, node@, peer@, binary, cap as nat, j));
                    let f = first_slot(t0, node@, peer@, binary, cap as nat);
                    assert(slot_ok(t0, node@, peer@, binary, cap as nat, f) && forall|j: int|
                        0 <= j < f ==> !#[trigger] slot_ok(t0, node@, peer@, binary, cap as nat, j));
                    if f < i {
                        assert(!slot_ok(t0, node@, peer@, binary, cap as nat, f));
                    }
                    if f > i {
                        assert(!slot_ok(t0, node@, peer@, binary, cap as nat, i as int));
                    }
                    assert(f == i);
                }
                return Some((key, k));
            }
        }
        i = i + 1;
    }
    None
}

/// Whether the walk over the peer's id stays within the node's id: the
/// peer's id is no longer, or some position within both leads to a bucket
/// with room.
pub(crate) fn walk_stays_in_bounds<V>(table: &Table<V>, node: &Vec<bool>, peer: &Vec<bool>, binary: bool, cap: usize) -> (r: bool)
    ensures
        r == walk_in_bounds(table@, node@, peer@, binary, cap as nat),
{
    if peer.len() <= node.len() {
        return true;
    }
    let ghost t0 = table@;
    let mut prefix: Vec<bool> = Vec::new();
    let mut i: usize = 0;
    while i < node.len()
        invariant
            table@ == t0,
            node@.len() < peer@.len(),
            i <= node@.len(),
            prefix@ == peer@.take(i as int),
            forall|j: int| 0 <= j < i ==> !#[trigger] slot_ok(t0, node@, peer@, binary, cap as nat, j),
        decreases node@.len() - i,
    {
        prefix.push(peer[i]);
        assert(prefix@ =~= peer@.take(i + 1));
        if node[i] != peer[i] {
            let key = if binary { opis_to_binary(&prefix) } else { bits_to_string(&prefix) };
            assert(key@ == prefix_key(binary, peer@.take(i + 1)));
            let room = match table.get(&key) {
                Some(b) => ((b.len() % 256) as usize) < cap,
                None => true,
            };
            if room {
                assert(slot_ok(t0, node@, peer@, binary, cap as nat, i as int));
                return true;
            }
        }
        i = i + 1;
    }
    proof {
        assert forall|j: int| !slot_ok(t0, node@, peer@, binary, cap as nat, j) by {
            if 0 <= j < i {
            }
        }
    }
    false
}

/// Places `value` in the bucket of the first position where `node` and
/// `peer` differ and the bucket has fewer than `cap` entries; leaves the
/// table as it is where there is no such position.
pub(crate) fn insert_first_free<V>(
    table: &mut Table<V>,
    node: &Vec<bool>,
    peer: &Vec<bool>,
    value: V,
    binary: bool,
    cap: usize,
)
    requires
        walk_in_bounds(old(table)@, node@, peer@, binary, cap as nat),
    ensures
        final(table)@ == first_free_insert(old(table)@, node@, peer@, binary, value, cap as nat),
{
    match find_slot(table, node, peer, binary, cap) {
        Some((key, k)) => {
            table.put(key, k, value);
        },
        None => {},
    }
}

/// Every bucket holds exactly one entry, under key 1.
pub open spec fn single_entry_buckets<V>(t: Seq<(Seq<char>, Seq<(u8, V)>)>) -> bool {
    forall|i: int| 0 <= i < t.len() ==> (#[trigger] t[i]).1.len() == 1 && t[i].1[0].0 == 1
}

proof fn lemma_lookup_member<V>(s: Seq<(Seq<char>, Seq<(u8, V)>)>, k: Seq<char>)
    ensures
        lookup(s, k) matches Some(b) ==> exists|i: int| 0 <= i < s.len() && #[trigger] s[i].1 == b,
    decreases s.len(),
{
    if s.len() > 0 && s[0].0 != k {
        let t = s.drop_first();
        lemma_lookup_member(t, k);
        if let Some(b) = lookup(t, k) {
            let i = choose|i: int| 0 <= i < t.len() && #[trigger] t[i].1 == b;
            assert(s[i + 1] == t[i]);
        }
    } else if s.len() > 0 {
        assert(s[0].1 == s[0].1);
    }
}

proof fn lemma_store_single<V>(s: Seq<(Seq<char>, Seq<(u8, V)>)>, k: Seq<char>, b: Seq<(u8, V)>)
    requires
        single_entry_buckets(s),
        b.len() == 1,
        b[0].0 == 1,
    ensures
        single_entry_buckets(store(s, k, b)),
    decreases s.len(),
{
    if s.len() > 0 && s[0].0 != k {
        let t = s.drop_first();
        assert(single_entry_buckets(t)) by {
            assert forall|i: int| 0 <= i < t.len() implies (#[trigger] t[i]).1.len() == 1 && t[i].1[0].0 == 1 by {
                assert(t[i] == s[i + 1]);
            }
        }
        lemma_store_single(t, k, b);
        let r = store(s, k, b);
        assert forall|i: int| 0 <= i < r.len() implies (#[trigger] r[i]).1.len() == 1 && r[i].1[0].0 == 1 by {
            if i > 0 {
                assert(r[i] == store(t, k, b)[i - 1]);
            }
        }
    } else if s.len() > 0 {
        let r = store(s, k, b);
        assert forall|i: int| 0 <= i < r.len() implies (#[trigger] r[i]).1.len() == 1 && r[i].1[0].0 == 1 by {
            if i > 0 {
                assert(r[i] == s[i]);
            }
        }
    }
}

proof fn lemma_placed_single<V>(t: Seq<(Seq<char>, Seq<(u8, V)>)>, key: Seq<char>, v: V)
    requires
        single_entry_buckets(t),
    ensures
        single_entry_buckets(placed(t, key, v)),
{
    lemma_lookup_member(t, key);
    match lookup(t, key) {
        None => {
            assert(entry_store(Seq::<(u8, V)>::empty(), 1u8, v) =~= seq![(1u8, v)]);
            lemma_store_single(t, key, seq![(1u8, v)]);
        },
        Some(b) => {
            let j = choose|j: int| 0 <= j < t.len() && #[trigger] t[j].1 == b;
            assert(b.len() == 1 && b[0].0 == 1);
            let nb = entry_store(b, 1u8, v);
            assert(nb =~= seq![(1u8, v)]);
            lemma_store_single(t, key, nb);
        },
    }
}

/// Filing a peer keeps every bucket at exactly one entry under key 1: a new
/// bucket starts with its entry under 1, and a bucket's size, 1, is the key
/// the next entry goes under, so it takes the place of the one there.
pub proof fn lemma_buckets_stay_single<V>(
    t: Seq<(Seq<char>, Seq<(u8, V)>)>,
    node: Seq<bool>,
    peer: Seq<bool>,
    binary: bool,
    v: V,
    cap: nat,
)
    requires
        single_entry_buckets(t),
    ensures
        single_entry_buckets(first_free_insert(t, node, peer, binary, v, cap)),
{
    let i = first_slot(t, node, peer, binary, cap);
    lemma_placed_single(t, prefix_key(binary, peer.take(i + 1)), v);
}

/// Every bucket holds at most `cap` entries.
pub open spec fn buckets_within<V>(t: Seq<(Seq<char>, Seq<(u8, V)>)>, cap: nat) -> bool {
    forall|i: int| 0 <= i < t.len() ==> (#[trigger] t[i]).1.len() <= cap
}

proof fn lemma_entry_store_len<V>(e: Seq<(u8, V)>, k: u8, v: V)
    ensures
        entry_store(e, k, v).len() <= e.len() + 1,
    decreases e.len(),
{
    if e.len() > 0 && e[0].0 != k {
        lemma_entry_store_len(e.drop_first(), k, v);
    }
}

proof fn lemma_entry_store_holds<V>(e: Seq<(u8, V)>, k: u8, v: V)
    ensures
        entry_lookup(entry_store(e, k, v), k) == Some(v),
    decreases e.len(),
{
    if e.len() > 0 && e[0].0 != k {
        lemma_entry_store_holds(e.drop_first(), k, v);
        assert(entry_store(e, k, v).drop_first() =~= entry_store(e.drop_first(), k, v));
    }
}

proof fn lemma_lookup_store<V>(s: Seq<(Seq<char>, Seq<(u8, V)>)>, k: Seq<char>, b: Seq<(u8, V)>)
    ensures
        lookup(store(s, k, b), k) == Some(b),
    decreases s.len(),
{
    if s.len() > 0 && s[0].0 != k {
        lemma_lookup_store(s.drop_first(), k, b);
        assert(store(s, k, b).drop_first() =~= store(s.drop_first(), k, b));
    }
}

proof fn lemma_store_within<V>(s: Seq<(Seq<char>, Seq<(u8, V)>)>, k: Seq<char>, b: Seq<(u8, V)>, cap: nat)
    requires
        buckets_within(s, cap),
        b.len() <= cap,
    ensures
        buckets_within(store(s, k, b), cap),
    decreases s.len(),
{
    let r = store(s, k, b);
    if s.len() > 0 && s[0].0 != k {
        let t = s.drop_first();
        assert(buckets_within(t, cap)) by {
            assert forall|i: int| 0 <= i < t.len() implies (#[trigger] t[i]).1.len() <= cap by {
                assert(t[i] == s[i + 1]);
            }
        }
        lemma_store_within(t, k, b, cap);
        assert forall|i: int| 0 <= i < r.len() implies (#[trigger] r[i]).1.len() <= cap by {
            if i > 0 {
                assert(r[i] == store(t, k, b)[i - 1]);
            } else {
                assert(r[0] == s[0]);
            }
        }
    } else if s.len() > 0 {
        assert forall|i: int| 0 <= i < r.len() implies (#[trigger] r[i]).1.len() <= cap by {
            if i > 0 {
                assert(r[i] == s[i]);
            }
        }
    }
}

proof fn lemma_least_slot<V>(
    t: Seq<(Seq<char>, Seq<(u8, V)>)>,
    node: Seq<bool>,
    peer: Seq<bool>,
    binary: bool,
    cap: nat,
    x: int,
)
    requires
        slot_ok(t, node, peer, binary, cap, x),
    ensures
        exists|i: int|
            slot_ok(t, node, peer, binary, cap, i) && forall|j: int|
                0 <= j < i ==> !#[trigger] slot_ok(t, node, peer, binary, cap, j),
    decreases x,
{
    if exists|j: int| 0 <= j < x && slot_ok(t, node, peer, binary, cap, j) {
        let j = choose|j: int| 0 <= j < x && slot_ok(t, node, peer, binary, cap, j);
        lemma_least_slot(t, node, peer, binary, cap, j);
    } else {
        assert(forall|j: int| 0 <= j < x ==> !#[trigger] slot_ok(t, node, peer, binary, cap, j));
    }
}

/// Where the walk has a position with room, the first one is such a
/// position.
proof fn lemma_first_slot<V>(
    t: Seq<(Seq<char>, Seq<(u8, V)>)>,
    node: Seq<bool>,
    peer: Seq<bool>,
    binary: bool,
    cap: nat,
)
    requires
        exists|i: int| slot_ok(t, node, peer, binary, cap, i),
    ensures
        slot_ok(t, node, peer, binary, cap, first_slot(t, node, peer, binary, cap)),
{
    let x = choose|i: int| slot_ok(t, node, peer, binary, cap, i);
    lemma_least_slot(t, node, peer, binary, cap, x);
}

proof fn lemma_placed_within<V>(t: Seq<(Seq<char>, Seq<(u8, V)>)>, key: Seq<char>, v: V, cap: nat)
    requires
        buckets_within(t, cap),
        has_room(t, key, cap),
        1 <= cap < 256,
    ensures
        buckets_within(placed(t, key, v), cap),
{
    let k: u8 = match lookup(t, key) {
        None => 1u8,
        Some(b) => (b.len() % 256) as u8,
    };
    let e = bucket_or_empty(t, key);
    lemma_entry_store_len(e, k, v);
    lemma_lookup_member(t, key);
    match lookup(t, key) {
        None => {
            assert(e.len() == 0);
        },
        Some(b) => {
            let j = choose|j: int| 0 <= j < t.len() && #[trigger] t[j].1 == b;
            assert(t[j].1.len() <= cap);
            assert(b.len() % 256 == b.len());
        },
    }
    lemma_store_within(t, key, entry_store(e, k, v), cap);
}

/// Filing keeps every bucket within its cap: a peer goes only to a new
/// bucket or to one with fewer entries than the cap, and it adds at most
/// one entry there.
pub proof fn lemma_filing_keeps_cap<V>(
    t: Seq<(Seq<char>, Seq<(u8, V)>)>,
    node: Seq<bool>,
    peer: Seq<bool>,
    binary: bool,
    v: V,
    cap: nat,
)
    requires
        buckets_within(t, cap),
        1 <= cap < 256,
    ensures
        buckets_within(first_free_insert(t, node, peer, binary, v, cap), cap),
{
    if exists|i: int| slot_ok(t, node, peer, binary, cap, i) {
        lemma_first_slot(t, node, peer, binary, cap);
        let i = first_slot(t, node, peer, binary, cap);
        lemma_placed_within(t, prefix_key(binary, peer.take(i + 1)), v, cap);
    }
}

/// Filing holds the peer: where some position of the walk leads to a
/// bucket with room, the bucket of the first such position holds it
/// afterwards.
pub proof fn lemma_filing_holds_peer<V>(
    t: Seq<(Seq<char>, Seq<(u8, V)>)>,
    node: Seq<bool>,
    peer: Seq<bool>,
    binary: bool,
    v: V,
    cap: nat,
)
    requires
        exists|i: int| slot_ok(t, node, peer, binary, cap, i),
    ensures
        exists|k: u8|
            #[trigger] entry_lookup(
                bucket_or_empty(
                    first_free_insert(t, node, peer, binary, v, cap),
                    prefix_key(binary, peer.take(first_slot(t, node, peer, binary, cap) + 1)),
                ),
                k,
            ) == Some(v),
{
    let i = first_slot(t, node, peer, binary, cap);
    let key = prefix_key(binary, peer.take(i + 1));
    let k: u8 = match lookup(t, key) {
        None => 1u8,
        Some(b) => (b.len() % 256) as u8,
    };
    let e = bucket_or_empty(t, key);
    let after = first_free_insert(t, node, peer, binary, v, cap);
    lemma_lookup_store(t, key, entry_store(e, k, v));
    lemma_entry_store_holds(e, k, v);
    assert(after == store(t, key, entry_store(e, k, v)));
    assert(bucket_or_empty(after, key) == entry_store(e, k, v));
    assert(entry_lookup(bucket_or_empty(after, key), k) == Some(v));
}

} // verus!
