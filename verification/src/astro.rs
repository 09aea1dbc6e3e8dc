use vstd::prelude::*;

verus! {

/// Little-endian bytes of `n` with no trailing zero byte (none for zero).
pub open spec fn le_min(n: nat) -> Seq<u8>
    decreases n,
{
    if n == 0 {
        Seq::empty()
    } else {
        seq![(n % 256) as u8] + le_min(n / 256)
    }
}

/// The number that little-endian bytes stand for.
pub open spec fn le_value(b: Seq<u8>) -> nat
    decreases b.len(),
{
    if b.len() == 0 {
        0
    } else {
        b[0] as nat + 256 * le_value(b.drop_first())
    }
}

/// One array in the list format: `0 0` for an empty array, else the
/// length as little-endian bytes without trailing zeros, a `0`, and the bytes.
pub open spec fn array_frame(x: Seq<u8>) -> Seq<u8> {
    if x.len() == 0 {
        seq![0u8, 0u8]
    } else {
        le_min(x.len()) + seq![0u8] + x
    }
}

/// The frames of the arrays, one after the other.
pub open spec fn frames(items: Seq<Seq<u8>>) -> Seq<u8>
    decreases items.len(),
{
    if items.len() == 0 {
        Seq::empty()
    } else {
        array_frame(items[0]) + frames(items.drop_first())
    }
}

/// The encoding of a list of arrays: the lone byte `0` for no arrays.
pub open spec fn list_encoding(items: Seq<Seq<u8>>) -> Seq<u8> {
    if items.len() == 0 {
        seq![0u8]
    } else {
        frames(items)
    }
}

/// What reading a list of arrays comes to.
pub enum Framing {
    /// The arrays read.
    Arrays(Seq<Seq<u8>>),
    /// The bytes are refused.
    Malformed,
    /// A length runs past the end of the bytes: the reader does not return.
    Overrun,
}

/// The first zero byte at or after `i`, or -1.
pub open spec fn first_zero(b: Seq<u8>, i: int) -> int
    decreases b.len() - i,
{
    if i < 0 || i >= b.len() {
        -1
    } else if b[i] == 0 {
        i
    } else {
        first_zero(b, i + 1)
    }
}

/// Puts an array in front of what the rest reads as.
pub open spec fn prepend(x: Seq<u8>, f: Framing) -> Framing {
    match f {
        Framing::Arrays(s) => Framing::Arrays(seq![x] + s),
        other => other,
    }
}

/// Reading the arrays from position `i` on.
pub open spec fn read_from(b: Seq<u8>, i: int) -> Framing
    decreases b.len() - i,
{
    if i < 0 || i >= b.len() {
        Framing::Arrays(Seq::empty())
    } else {
        let z = first_zero(b, i);
        if z < i {
            Framing::Malformed
        } else if z == i {
            if b.len() == 1 {
                Framing::Arrays(Seq::empty())
            } else if i + 1 < b.len() && b[i + 1] == 0 {
                prepend(Seq::empty(), read_from(b, i + 2))
            } else {
                Framing::Malformed
            }
        } else if z - i > (usize::BITS / 8) as int {
            Framing::Malformed
        } else {
            let n = le_value(b.subrange(i, z));
            let start = z + 1;
            if start + n > b.len() {
                Framing::Overrun
            } else {
                prepend(b.subrange(start, start + n), read_from(b, start + n))
            }
        }
    }
}

/// Reading a whole byte string as a list of arrays.
pub open spec fn read_list(b: Seq<u8>) -> Framing {
    read_from(b, 0)
}

/// The views of a list of byte vectors.
pub open spec fn vec_views(items: Seq<Vec<u8>>) -> Seq<Seq<u8>> {
    items.map_values(|v: Vec<u8>| v@)
}

/// `astro_format::arrays::encode`: the list encoding of the arrays.
#[verifier::external_body]
pub(crate) fn encode_arrays(items: &Vec<Vec<u8>>) -> (r: Vec<u8>)
    ensures
        r@ == list_encoding(vec_views(items@)),
{
    let refs: Vec<&[u8]> = items.iter().map(|x| x.as_slice()).collect();
    astro_format::arrays::encode(&refs)
}

/// `astro_format::arrays::decode`, on bytes where no length runs past the
/// end (there the slice it takes is out of range): the arrays read, or
/// nothing where the bytes are refused.
#[verifier::external_body]
pub(crate) fn decode_arrays(bytes: &[u8]) -> (r: Option<Vec<Vec<u8>>>)
    requires
        !(read_list(bytes@) is Overrun),
    ensures
        match read_list(bytes@) {
            Framing::Arrays(s) => r matches Some(v) && vec_views(v@) == s,
            _ => r is None,
        },
{
    match astro_format::arrays::decode(bytes) {
        Ok(v) => Some(v.iter().map(|x| x.to_vec()).collect()),
        Err(_) => None,
    }
}

/// An array whose length the reader gets back: its length bytes hold no
/// zero and fit a `usize`.
pub open spec fn frame_safe(x: Seq<u8>) -> bool {
    x.len() == 0 || (x.len() <= usize::MAX && forall|j: int|
        0 <= j < le_min(x.len()).len() ==> #[trigger] le_min(x.len())[j] != 0)
}

/// `256^k`.
pub open spec fn pow256(k: nat) -> nat
    decreases k,
{
    if k == 0 {
        1
    } else {
        256 * pow256((k - 1) as nat)
    }
}

proof fn lemma_le_value_le_min(n: nat)
    ensures
        le_value(le_min(n)) == n,
    decreases n,
{
    if n > 0 {
        lemma_le_value_le_min(n / 256);
        let m = le_min(n);
        assert(m.drop_first() =~= le_min(n / 256));
    }
}

proof fn lemma_le_min_len(n: nat, k: nat)
    requires
        n < pow256(k),
    ensures
        le_min(n).len() <= k,
    decreases k,
{
    if n > 0 {
        assert(k > 0);
        let p = pow256((k - 1) as nat);
        assert(n / 256 < p) by (nonlinear_arith)
            requires
                n < 256 * p,
        ;
        lemma_le_min_len(n / 256, (k - 1) as nat);
    }
}

proof fn lemma_le_min_fits(n: nat)
    requires
        n <= usize::MAX,
    ensures
        le_min(n).len() <= usize::BITS / 8,
{
    reveal_with_fuel(pow256, 9);
    if usize::BITS == 32 {
        lemma_le_min_len(n, 4);
    } else {
        lemma_le_min_len(n, 8);
    }
}

proof fn lemma_first_zero(b: Seq<u8>, i: int, m: int)
    requires
        0 <= i,
        0 <= m,
        i + m < b.len(),
        b[i + m] == 0,
        forall|j: int| i <= j < i + m ==> b[j] != 0,
    ensures
        first_zero(b, i) == i + m,
    decreases m,
{
    if m > 0 {
        lemma_first_zero(b, i + 1, m - 1);
    }
}

proof fn lemma_split_tail(b: Seq<u8>, i: int, p: Seq<u8>, q: Seq<u8>)
    requires
        0 <= i <= b.len(),
        b.subrange(i, b.len() as int) == p + q,
    ensures
        b.subrange(i, i + p.len()) == p,
        b.subrange(i + p.len(), b.len() as int) == q,
{
    assert(b.subrange(i, b.len() as int).len() == p.len() + q.len());
    assert forall|k: int| 0 <= k < p.len() implies b.subrange(i, i + p.len())[k] == p[k] by {
        assert(b[i + k] == b.subrange(i, b.len() as int)[k]);
        assert((p + q)[k] == p[k]);
    }
    assert(b.subrange(i, i + p.len()) =~= p);
    assert forall|k: int| 0 <= k < q.len() implies b.subrange(i + p.len(), b.len() as int)[k] == q[k] by {
        assert(b[i + p.len() + k] == b.subrange(i, b.len() as int)[p.len() + k]);
        assert((p + q)[p.len() + k] == q[k]);
    }
    assert(b.subrange(i + p.len(), b.len() as int) =~= q);
}

proof fn lemma_read_frames(b: Seq<u8>, i: int, items: Seq<Seq<u8>>)
    requires
        0 <= i <= b.len(),
        b.len() != 1,
        b.subrange(i, b.len() as int) == frames(items),
        forall|j: int| 0 <= j < items.len() ==> frame_safe(#[trigger] items[j]),
    ensures
        read_from(b, i) == Framing::Arrays(items),
    decreases items.len(),
{
    if items.len() == 0 {
        assert(b.subrange(i, b.len() as int).len() == 0);
        assert(items =~= Seq::<Seq<u8>>::empty());
    } else {
        let x = items[0];
        let rest = items.drop_first();
        assert forall|j: int| 0 <= j < rest.len() implies frame_safe(#[trigger] rest[j]) by {
            assert(rest[j] == items[j + 1]);
        }
        let f = array_frame(x);
        assert(frame_safe(items[0]));
        assert(b.subrange(i, b.len() as int) =~= f + frames(rest));
        if x.len() == 0 {
            assert(b[i] == b.subrange(i, b.len() as int)[0]);
            assert(b[i + 1] == b.subrange(i, b.len() as int)[1]);
            lemma_first_zero(b, i, 0);
            lemma_split_tail(b, i, f, frames(rest));
            lemma_read_frames(b, i + 2, rest);
            assert(seq![x] + rest =~= items);
            assert(read_from(b, i) == prepend(Seq::empty(), read_from(b, i + 2)));
            assert(x =~= Seq::<u8>::empty());
        } else {
            let lm = le_min(x.len());
            let m = lm.len() as int;
            assert forall|j: int| i <= j < i + m implies b[j] != 0 by {
                assert(b[j] == b.subrange(i, b.len() as int)[j - i]);
                assert(lm[j - i] != 0);
            }
            assert(b[i + m] == b.subrange(i, b.len() as int)[m]);
            lemma_first_zero(b, i, m);
            assert(m > 0) by {
                assert(lm =~= seq![(x.len() % 256) as u8] + le_min(x.len() / 256));
            }
            lemma_le_min_fits(x.len());
            lemma_split_tail(b, i, f, frames(rest));
            assert(f + frames(rest) =~= lm + (seq![0u8] + x + frames(rest)));
            lemma_split_tail(b, i, lm, seq![0u8] + x + frames(rest));
            assert(seq![0u8] + x + frames(rest) =~= seq![0u8] + (x + frames(rest)));
            lemma_split_tail(b, i + m, seq![0u8], x + frames(rest));
            lemma_split_tail(b, i + m + 1, x, frames(rest));
            lemma_le_value_le_min(x.len());
            let start = i + m + 1;
            lemma_read_frames(b, start + x.len(), rest);
            assert(seq![x] + rest =~= items);
            assert(first_zero(b, i) == i + m);
            assert(le_value(b.subrange(i, i + m)) == x.len());
            assert(read_from(b, i) == prepend(b.subrange(start, start + x.len()), read_from(b, start + x.len())));
        }
    }
}

proof fn lemma_frames_len(items: Seq<Seq<u8>>)
    ensures
        items.len() > 0 ==> frames(items).len() >= 2,
    decreases items.len(),
{
    if items.len() > 0 {
        lemma_frames_len(items.drop_first());
    }
}

/// Reading back the list encoding of arrays whose lengths the reader gets
/// back gives the arrays.
pub proof fn lemma_list_roundtrip(items: Seq<Seq<u8>>)
    requires
        forall|j: int| 0 <= j < items.len() ==> frame_safe(#[trigger] items[j]),
    ensures
        read_list(list_encoding(items)) == Framing::Arrays(items),
{
    let b = list_encoding(items);
    if items.len() == 0 {
        lemma_first_zero(b, 0, 0);
        assert(items =~= Seq::<Seq<u8>>::empty());
    } else {
        lemma_frames_len(items);
        assert(b.subrange(0, b.len() as int) =~= b);
        lemma_read_frames(b, 0, items);
    }
}

proof fn lemma_first_zero_none(b: Seq<u8>, i: int)
    requires
        0 <= i <= b.len(),
        forall|j: int| i <= j < b.len() ==> b[j] != 0,
    ensures
        first_zero(b, i) == -1,
    decreases b.len() - i,
{
    if i < b.len() {
        lemma_first_zero_none(b, i + 1);
    }
}

proof fn lemma_le_value_step(b: Seq<u8>, k: int, z: int)
    requires
        0 < k <= z <= b.len(),
    ensures
        le_value(b.subrange(k - 1, z)) == b[k - 1] as nat + 256 * le_value(b.subrange(k, z)),
{
    assert(b.subrange(k - 1, z).drop_first() =~= b.subrange(k, z));
}

/// Whether reading the bytes as a list of arrays would run a length past
/// the end.
pub fn list_overruns(b: &[u8]) -> (r: bool)
    ensures
        r == (read_list(b@) is Overrun),
{
    let n = b.len();
    let width: usize = (usize::BITS / 8) as usize;
    let mut i: usize = 0;
    loop
        invariant
            i <= n,
            n == b@.len(),
            width == usize::BITS / 8,
            (read_list(b@) is Overrun) == (read_from(b@, i as int) is Overrun),
        decreases n - i,
    {
        if i >= n {
            return false;
        }
        let mut z = i;
        while z < n && b[z] != 0
            invariant
                i <= z <= n,
                n == b@.len(),
                forall|j: int| i <= j < z ==> b@[j] != 0,
            decreases n - z,
        {
            z = z + 1;
        }
        if z == n {
            proof {
                lemma_first_zero_none(b@, i as int);
            }
            return false;
        }
        proof {
            lemma_first_zero(b@, i as int, (z - i) as int);
        }
        if z == i {
            if n == 1 {
                return false;
            }
            if i + 1 < n && b[i + 1] == 0 {
                i = i + 2;
            } else {
                return false;
            }
        } else if z - i > width {
            return false;
        } else {
            let mut k = z;
            let mut v: u128 = 0;
            proof {
                assert(b@.subrange(z as int, z as int) =~= Seq::<u8>::empty());
                assert(width <= 8) by {
                    assert(usize::BITS == 32 || usize::BITS == 64);
                }
            }
            while k > i
                invariant
                    i <= k <= z,
                    z - i <= 8,
                    z < n,
                    n == b@.len(),
                    v == le_value(b@.subrange(k as int, z as int)),
                    v < pow256((z - k) as nat),
                decreases k,
            {
                proof {
                    lemma_le_value_step(b@, k as int, z as int);
                    reveal_with_fuel(pow256, 9);
                    lemma_pow256_mono((z - k) as nat, 7);
                }
                let byte = b[k - 1];
                assert(v * 256 + byte < 256 * pow256((z - k) as nat)) by (nonlinear_arith)
                    requires
                        v < pow256((z - k) as nat),
                        byte < 256,
                ;
                k = k - 1;
                v = v * 256 + byte as u128;
            }
            proof {
                lemma_pow256_mono((z - k) as nat, 8);
                reveal_with_fuel(pow256, 9);
            }
            let start = z + 1;
            if (start as u128) + v > n as u128 {
                return true;
            }
            i = start + v as usize;
        }
    }
}

proof fn lemma_pow256_mono(a: nat, b: nat)
    requires
        a <= b,
    ensures
        pow256(a) <= pow256(b),
    decreases b,
{
    if a < b {
        lemma_pow256_mono(a, (b - 1) as nat);
    }
}

} // verus!
