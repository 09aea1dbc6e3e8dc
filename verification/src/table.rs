use vstd::prelude::*;

verus! {

/// The entry under key `k` in a bucket, if any.
pub open spec fn entry_lookup<V>(e: Seq<(u8, V)>, k: u8) -> Option<V>
    decreases e.len(),
{
    if e.len() == 0 {
        None
    } else if e[0].0 == k {
        Some(e[0].1)
    } else {
        entry_lookup(e.drop_first(), k)
    }
}

/// A bucket with `v` under key `k`: the entry under `k` is replaced where
/// there is one, else the entry is added at the end.
pub open spec fn entry_store<V>(e: Seq<(u8, V)>, k: u8, v: V) -> Seq<(u8, V)>
    decreases e.len(),
{
    if e.len() == 0 {
        seq![(k, v)]
    } else if e[0].0 == k {
        seq![(k, v)] + e.drop_first()
    } else {
        seq![e[0]] + entry_store(e.drop_first(), k, v)
    }
}

/// The bucket under a prefix key, if any.
pub open spec fn lookup<V>(s: Seq<(Seq<char>, Seq<(u8, V)>)>, k: Seq<char>) -> Option<
    Seq<(u8, V)>,
>
    decreases s.len(),
{
    if s.len() == 0 {
        None
    } else if s[0].0 == k {
        Some(s[0].1)
    } else {
        lookup(s.drop_first(), k)
    }
}

/// The buckets with `b` under key `k`: replaced where there is a bucket
/// under `k`, else added at the end.
pub open spec fn store<V>(s: Seq<(Seq<char>, Seq<(u8, V)>)>, k: Seq<char>, b: Seq<(u8, V)>) -> Seq<
    (Seq<char>, Seq<(u8, V)>),
>
    decreases s.len(),
{
    if s.len() == 0 {
        seq![(k, b)]
    } else if s[0].0 == k {
        seq![(k, b)] + s.drop_first()
    } else {
        seq![s[0]] + store(s.drop_first(), k, b)
    }
}

/// No key occurs twice.
pub open spec fn keys_unique<V>(s: Seq<(Seq<char>, Seq<(u8, V)>)>) -> bool {
    forall|i: int, j: int| 0 <= i < j < s.len() ==> s[i].0 != s[j].0
}

/// The bucket under `k` where there is one, else no entries.
pub open spec fn bucket_or_empty<V>(s: Seq<(Seq<char>, Seq<(u8, V)>)>, k: Seq<char>) -> Seq<(u8, V)> {
    match lookup(s, k) {
        Some(b) => b,
        None => Seq::empty(),
    }
}

proof fn lemma_lookup_index<V>(s: Seq<(Seq<char>, Seq<(u8, V)>)>, k: Seq<char>, i: int)
    requires
        0 <= i < s.len(),
        s[i].0 == k,
        forall|j: int| 0 <= j < i ==> s[j].0 != k,
    ensures
        lookup(s, k) == Some(s[i].1),
        forall|b: Seq<(u8, V)>| store(s, k, b) == s.update(i, (k, b)),
    decreases i,
{
    if i > 0 {
        let t = s.drop_first();
        assert forall|j: int| 0 <= j < i - 1 implies t[j].0 != k by {
            assert(t[j] == s[j + 1]);
        }
        lemma_lookup_index(t, k, i - 1);
        assert forall|b: Seq<(u8, V)>| store(s, k, b) == s.update(i, (k, b)) by {
            assert(store(t, k, b) == t.update(i - 1, (k, b)));
            assert(seq![s[0]] + t.update(i - 1, (k, b)) =~= s.update(i, (k, b)));
        }
    } else {
        assert forall|b: Seq<(u8, V)>| store(s, k, b) == s.update(i, (k, b)) by {
            assert(seq![(k, b)] + s.drop_first() =~= s.update(0, (k, b)));
        }
    }
}

proof fn lemma_lookup_absent<V>(s: Seq<(Seq<char>, Seq<(u8, V)>)>, k: Seq<char>)
    requires
        forall|j: int| 0 <= j < s.len() ==> s[j].0 != k,
    ensures
        lookup(s, k) is None,
        forall|b: Seq<(u8, V)>| store(s, k, b) == s.push((k, b)),
    decreases s.len(),
{
    if s.len() > 0 {
        let t = s.drop_first();
        assert forall|j: int| 0 <= j < t.len() implies t[j].0 != k by {
            assert(t[j] == s[j + 1]);
        }
        lemma_lookup_absent(t, k);
        assert forall|b: Seq<(u8, V)>| store(s, k, b) == s.push((k, b)) by {
            assert(store(t, k, b) == t.push((k, b)));
            assert(seq![s[0]] + t.push((k, b)) =~= s.push((k, b)));
        }
    } else {
        assert forall|b: Seq<(u8, V)>| store(s, k, b) == s.push((k, b)) by {
            assert(seq![(k, b)] =~= s.push((k, b)));
        }
    }
}

proof fn lemma_entry_index<V>(e: Seq<(u8, V)>, k: u8, i: int)
    requires
        0 <= i < e.len(),
        e[i].0 == k,
        forall|j: int| 0 <= j < i ==> e[j].0 != k,
    ensures
        entry_lookup(e, k) == Some(e[i].1),
        forall|v: V| entry_store(e, k, v) == e.update(i, (k, v)),
    decreases i,
{
    if i > 0 {
        let t = e.drop_first();
        assert forall|j: int| 0 <= j < i - 1 implies t[j].0 != k by {
            assert(t[j] == e[j + 1]);
        }
        lemma_entry_index(t, k, i - 1);
        assert forall|v: V| entry_store(e, k, v) == e.update(i, (k, v)) by {
            assert(entry_store(t, k, v) == t.update(i - 1, (k, v)));
            assert(seq![e[0]] + t.update(i - 1, (k, v)) =~= e.update(i, (k, v)));
        }
    } else {
        assert forall|v: V| entry_store(e, k, v) == e.update(i, (k, v)) by {
            assert(seq![(k, v)] + e.drop_first() =~= e.update(0, (k, v)));
        }
    }
}

proof fn lemma_entry_absent<V>(e: Seq<(u8, V)>, k: u8)
    requires
        forall|j: int| 0 <= j < e.len() ==> e[j].0 != k,
    ensures
        entry_lookup(e, k) is None,
        forall|v: V| entry_store(e, k, v) == e.push((k, v)),
    decreases e.len(),
{
    if e.len() > 0 {
        let t = e.drop_first();
        assert forall|j: int| 0 <= j < t.len() implies t[j].0 != k by {
            assert(t[j] == e[j + 1]);
        }
        lemma_entry_absent(t, k);
        assert forall|v: V| entry_store(e, k, v) == e.push((k, v)) by {
            assert(entry_store(t, k, v) == t.push((k, v)));
            assert(seq![e[0]] + t.push((k, v)) =~= e.push((k, v)));
        }
    } else {
        assert forall|v: V| entry_store(e, k, v) == e.push((k, v)) by {
            assert(seq![(k, v)] =~= e.push((k, v)));
        }
    }
}

/// The entry under key `k` in a bucket, if any.
pub fn bucket_get<V>(b: &Vec<(u8, V)>, k: u8) -> (r: Option<&V>)
    ensures
        match entry_lookup(b@, k) {
            Some(v) => r == Some(&v),
            None => r is None,
        },
{
    let mut i: usize = 0;
    while i < b.len()
        invariant
            i <= b@.len(),
            forall|j: int| 0 <= j < i ==> b@[j].0 != k,
        decreases b@.len() - i,
    {
        if b[i].0 == k {
            proof {
                lemma_entry_index(b@, k, i as int);
            }
            return Some(&b[i].1);
        }
        i = i + 1;
    }
    proof {
        lemma_entry_absent(b@, k);
    }
    None
}

/// Puts `v` under key `k` in a bucket, in place of the entry under `k`
/// where there is one, else at the end.
pub fn bucket_put<V>(b: &mut Vec<(u8, V)>, k: u8, v: V)
    ensures
        final(b)@ == entry_store(old(b)@, k, v),
{
    let mut i: usize = 0;
    while i < b.len()
        invariant
            i <= b@.len(),
            b@ == old(b)@,
            forall|j: int| 0 <= j < i ==> b@[j].0 != k,
        decreases b@.len() - i,
    {
        if b[i].0 == k {
            proof {
                lemma_entry_index(b@, k, i as int);
            }
            b.remove(i);
            b.insert(i, (k, v));
            assert(b@ =~= old(b)@.update(i as int, (k, v)));
            return;
        }
        i = i + 1;
    }
    proof {
        lemma_entry_absent(b@, k);
    }
    b.push((k, v));
}

/// A routing table: buckets of entries, each bucket under a key made of
/// the bit prefix that leads to it. The buckets keep their order of arrival.
pub struct Table<V> {
    buckets: Vec<(String, Vec<(u8, V)>)>,
}

impl<V> View for Table<V> {
    type V = Seq<(Seq<char>, Seq<(u8, V)>)>;

    closed spec fn view(&self) -> Seq<(Seq<char>, Seq<(u8, V)>)> {
        self.buckets@.map_values(|b: (String, Vec<(u8, V)>)| (b.0@, b.1@))
    }
}

impl<V> Table<V> {
    /// No key occurs twice.
    #[verifier::type_invariant]
    pub open spec fn wf(self) -> bool {
        keys_unique(self@)
    }

    /// An empty table.
    pub fn new() -> (r: Table<V>)
        ensures
            r@ == Seq::<(Seq<char>, Seq<(u8, V)>)>::empty(),
    {
        let r = Table { buckets: Vec::new() };
        assert(r@ =~= Seq::<(Seq<char>, Seq<(u8, V)>)>::empty());
        r
    }

    /// Where the bucket under `key` stands, if there is one.
    fn position(&self, key: &String) -> (r: Option<usize>)
        ensures
            match r {
                Some(i) => {
                    &&& i < self@.len()
                    &&& self@[i as int].0 == key@
                    &&& lookup(self@, key@) == Some(self@[i as int].1)
                    &&& forall|b: Seq<(u8, V)>| store(self@, key@, b) == self@.update(i as int, (key@, b))
                },
                None => {
                    &&& lookup(self@, key@) is None
                    &&& forall|b: Seq<(u8, V)>| store(self@, key@, b) == self@.push((key@, b))
                    &&& forall|j: int| 0 <= j < self@.len() ==> self@[j].0 != key@
                },
            },
    {
        let mut i: usize = 0;
        while i < self.buckets.len()
            invariant
                i <= self@.len(),
                self@.len() == self.buckets@.len(),
                forall|j: int| 0 <= j < i ==> self@[j].0 != key@,
            decreases self@.len() - i,
        {
            assert(self@[i as int].0 == self.buckets@[i as int].0@);
            if self.buckets[i].0 == *key {
                proof {
                    lemma_lookup_index(self@, key@, i as int);
                }
                return Some(i);
            }
            i = i + 1;
        }
        proof {
            lemma_lookup_absent(self@, key@);
        }
        None
    }

    /// The bucket under `key`, if any.
    pub fn get(&self, key: &String) -> (r: Option<&Vec<(u8, V)>>)
        ensures
            match lookup(self@, key@) {
                Some(b) => r matches Some(v) && v@ == b,
                None => r is None,
            },
    {
        match self.position(key) {
            Some(i) => Some(&self.buckets[i].1),
            None => None,
        }
    }

    /// Puts `v` under key `k` in the bucket under `key`, making the bucket
    /// where there is none.
    pub fn put(&mut self, key: String, k: u8, v: V)
        ensures
            final(self)@ == store(old(self)@, key@, entry_store(bucket_or_empty(old(self)@, key@), k, v)),
    {
        proof {
            use_type_invariant(&*self);
        }
        match self.position(&key) {
            Some(i) => {
                let ghost old_view = self@;
                let mut buckets: Vec<(String, Vec<(u8, V)>)> = Vec::new();
                std::mem::swap(&mut buckets, &mut self.buckets);
                let (name, mut bucket) = buckets.remove(i);
                bucket_put(&mut bucket, k, v);
                buckets.insert(i, (name, bucket));
                proof {
                    let nv = buckets@.map_values(|b: (String, Vec<(u8, V)>)| (b.0@, b.1@));
                    assert(nv =~= old_view.update(
                        i as int,
                        (key@, entry_store(old_view[i as int].1, k, v)),
                    ));
                    assert forall|a: int, c: int| 0 <= a < c < nv.len() implies nv[a].0
                        != nv[c].0 by {
                        assert(nv[a].0 == old_view[a].0);
                        assert(nv[c].0 == old_view[c].0);
                    }
                }
                self.buckets = buckets;
                proof {
                    assert(self@ =~= old_view.update(
                        i as int,
                        (key@, entry_store(old_view[i as int].1, k, v)),
                    ));
                    assert forall|a: int, c: int| 0 <= a < c < self@.len() implies self@[a].0
                        != self@[c].0 by {
                        assert(self@[a].0 == old_view[a].0);
                        assert(self@[c].0 == old_view[c].0);
                    }
                }
            },
            None => {
                let ghost old_view = self@;
                let mut bucket: Vec<(u8, V)> = Vec::new();
                bucket_put(&mut bucket, k, v);
                let mut buckets: Vec<(String, Vec<(u8, V)>)> = Vec::new();
                std::mem::swap(&mut buckets, &mut self.buckets);
                let ghost kv = key@;
                buckets.push((key, bucket));
                proof {
                    let nv = buckets@.map_values(|b: (String, Vec<(u8, V)>)| (b.0@, b.1@));
                    assert(nv =~= old_view.push((kv, entry_store(Seq::<(u8, V)>::empty(), k, v))));
                }
                self.buckets = buckets;
                proof {
                    assert(Seq::<(u8, V)>::empty() =~= bucket_or_empty(old_view, key@));
                    assert(self@ =~= old_view.push((key@, entry_store(Seq::<(u8, V)>::empty(), k, v))));
                }
            },
        }
    }

    /// Removes every bucket.
    pub fn clear(&mut self)
        ensures
            final(self)@ == Seq::<(Seq<char>, Seq<(u8, V)>)>::empty(),
    {
        self.buckets = Vec::new();
        assert(self@ =~= Seq::<(Seq<char>, Seq<(u8, V)>)>::empty());
    }

    /// The buckets, in order, with their keys.
    pub fn buckets(&self) -> (r: &Vec<(String, Vec<(u8, V)>)>)
        ensures
            r@.map_values(|b: (String, Vec<(u8, V)>)| (b.0@, b.1@)) == self@,
    {
        &self.buckets
    }
}

} // verus!
