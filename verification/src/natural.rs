use vstd::prelude::*;
use vstd::arithmetic::power2::{pow2, lemma2_to64, lemma_pow2_unfold, lemma_pow2_strictly_increases};

verus! {

/// The value of a bit string read most significant bit first.
pub open spec fn bits_value(s: Seq<bool>) -> nat
    decreases s.len(),
{
    if s.len() == 0 {
        0
    } else {
        2 * bits_value(s.drop_last()) + (if s.last() { 1nat } else { 0nat })
    }
}

/// A bit string with no leading zero, apart from the one-bit string `0`
/// (the empty string, which the byte decoder makes of no bytes, counts too).
pub open spec fn canonical(s: Seq<bool>) -> bool {
    s.len() <= 1 || s[0]
}

/// The shortest non-empty bit string of a number.
pub open spec fn nat_bits(v: nat) -> Seq<bool>
    decreases v,
{
    if v < 2 {
        seq![v == 1]
    } else {
        nat_bits(v / 2).push(v % 2 == 1)
    }
}

/// The low `n` bits of `x`, most significant first.
pub open spec fn low_bits(x: nat, n: nat) -> Seq<bool>
    decreases n,
{
    if n == 0 {
        Seq::empty()
    } else {
        low_bits(x / 2, (n - 1) as nat).push(x % 2 == 1)
    }
}

/// Each byte written as eight bits, most significant first.
pub open spec fn bytes_bits(b: Seq<u8>) -> Seq<bool>
    decreases b.len(),
{
    if b.len() == 0 {
        Seq::empty()
    } else {
        bytes_bits(b.drop_last()) + low_bits(b.last() as nat, 8)
    }
}

/// Drops leading zeros while more than one bit is left.
pub open spec fn strip_zeros(s: Seq<bool>) -> Seq<bool>
    decreases s.len(),
{
    if s.len() > 1 && !s[0] {
        strip_zeros(s.drop_first())
    } else {
        s
    }
}

/// The bits that reading a big-endian byte string gives.
pub open spec fn spec_from_bytes(b: Seq<u8>) -> Seq<bool> {
    strip_zeros(bytes_bits(b))
}

/// Bytes of a bit string, cut into groups of eight from the least
/// significant end; the most significant group may be shorter.
pub open spec fn bits_bytes(s: Seq<bool>) -> Seq<u8>
    decreases s.len(),
{
    if s.len() == 0 {
        Seq::empty()
    } else if s.len() <= 8 {
        seq![bits_value(s) as u8]
    } else {
        bits_bytes(s.take(s.len() - 8)).push(bits_value(s.skip(s.len() - 8)) as u8)
    }
}

/// Order of two canonical bit strings: the shorter is smaller, and strings
/// of one length compare by value.
pub open spec fn bits_less(a: Seq<bool>, b: Seq<bool>) -> bool {
    if a.len() != b.len() {
        a.len() < b.len()
    } else {
        bits_value(a) < bits_value(b)
    }
}

/// The value of a string of decimal digits.
pub open spec fn decimal_value(s: Seq<char>) -> nat
    decreases s.len(),
{
    if s.len() == 0 {
        0
    } else {
        (10 * decimal_value(s.drop_last()) + (s.last() as int - '0' as int)) as nat
    }
}

/// A non-empty string of decimal digits without a leading zero.
pub open spec fn canonical_decimal(s: Seq<char>) -> bool {
    &&& s.len() > 0
    &&& forall|i: int| 0 <= i < s.len() ==> '0' <= #[trigger] s[i] <= '9'
    &&& (s.len() == 1 || s[0] != '0')
}

/// The eight big-endian bytes of a `u64`.
pub open spec fn u64_be_bytes(x: u64) -> Seq<u8> {
    seq![
        ((x as nat / 0x100000000000000) % 256) as u8,
        ((x as nat / 0x1000000000000) % 256) as u8,
        ((x as nat / 0x10000000000) % 256) as u8,
        ((x as nat / 0x100000000) % 256) as u8,
        ((x as nat / 0x1000000) % 256) as u8,
        ((x as nat / 0x10000) % 256) as u8,
        ((x as nat / 0x100) % 256) as u8,
        (x as nat % 256) as u8,
    ]
}

/// A non-negative integer of any size, held as its bits, most significant
/// first, with no leading zero: the integers that messages carry.
#[derive(Debug)]
pub struct Natural {
    bits: Vec<bool>,
}

impl Clone for Natural {
    fn clone(&self) -> (r: Natural)
        ensures
            r@ == self@,
    {
        proof {
            use_type_invariant(self);
        }
        let bits = self.bits.clone();
        assert(bits@ =~= self.bits@);
        Natural { bits }
    }
}

impl View for Natural {
    type V = Seq<bool>;

    closed spec fn view(&self) -> Seq<bool> {
        self.bits@
    }
}

impl Natural {
    /// The bits are canonical.
    #[verifier::type_invariant]
    pub open spec fn wf(self) -> bool {
        canonical(self@)
    }

    /// The number this value stands for.
    pub open spec fn value(self) -> nat {
        bits_value(self@)
    }

    /// The bits, most significant first.
    pub fn bits(&self) -> (r: &Vec<bool>)
        ensures
            r@ == self@,
    {
        &self.bits
    }

    /// Zero, as the one bit `0`.
    pub fn zero() -> (r: Natural)
        ensures
            r@ == seq![false],
    {
        opis_zero()
    }

    /// One, as the one bit `1`.
    pub fn one() -> (r: Natural)
        ensures
            r@ == seq![true],
    {
        opis_one()
    }

    /// Reads a big-endian byte string; no bytes give the empty bit string.
    pub fn from_bytes(b: &[u8]) -> (r: Natural)
        ensures
            r@ == spec_from_bytes(b@),
    {
        opis_from_bytes(b)
    }

    /// Reads the eight big-endian bytes of a `u64`.
    pub fn from_u64(x: u64) -> (r: Natural)
        ensures
            r@ == spec_from_bytes(u64_be_bytes(x)),
    {
        let b: Vec<u8> = vec![
            ((x / 0x100000000000000) % 256) as u8,
            ((x / 0x1000000000000) % 256) as u8,
            ((x / 0x10000000000) % 256) as u8,
            ((x / 0x100000000) % 256) as u8,
            ((x / 0x1000000) % 256) as u8,
            ((x / 0x10000) % 256) as u8,
            ((x / 0x100) % 256) as u8,
            (x % 256) as u8,
        ];
        assert(b@ =~= u64_be_bytes(x));
        opis_from_bytes(b.as_slice())
    }

    /// The big-endian bytes of the value.
    pub fn to_bytes(&self) -> (r: Vec<u8>)
        ensures
            r@ == bits_bytes(self@),
    {
        opis_to_bytes(self)
    }
}

/// `opis::Int::zero`: the one bit `0`.
#[verifier::external_body]
fn opis_zero() -> (r: Natural)
    ensures
        r@ == seq![false],
{
    Natural { bits: opis::Int::zero().magnitude.iter().map(|x| matches!(x, opis::Bit::One)).collect() }
}

/// `opis::Int::one`: the one bit `1`.
#[verifier::external_body]
fn opis_one() -> (r: Natural)
    ensures
        r@ == seq![true],
{
    Natural { bits: opis::Int::one().magnitude.iter().map(|x| matches!(x, opis::Bit::One)).collect() }
}

/// `opis::Int::from_bytes`: every byte becomes eight bits, most significant
/// first, and leading zeros are dropped while more than one bit is left.
#[verifier::external_body]
fn opis_from_bytes(b: &[u8]) -> (r: Natural)
    ensures
        r@ == spec_from_bytes(b@),
{
    let i = opis::Int::from_bytes(b);
    Natural { bits: i.magnitude.iter().map(|x| matches!(x, opis::Bit::One)).collect() }
}

/// `opis::Int::to_bytes`: the bits are cut into bytes from the least
/// significant end, and the bytes are given most significant first.
#[verifier::external_body]
fn opis_to_bytes(n: &Natural) -> (r: Vec<u8>)
    ensures
        r@ == bits_bytes(n@),
{
    let magnitude = n.bits.iter().map(|&x| if x { opis::Bit::One } else { opis::Bit::Zero }).collect();
    opis::Int { magnitude, sign: false }.to_bytes()
}

/// `+` on two non-negative `opis::Int`s with canonical bits: the sum, with
/// canonical bits (none when both operands have none).
#[verifier::external_body]
fn opis_add(a: &Natural, b: &Natural) -> (r: Natural)
    requires
        canonical(a@),
        canonical(b@),
    ensures
        a@.len() + b@.len() > 0 ==> r@ == nat_bits(bits_value(a@) + bits_value(b@)),
        a@.len() + b@.len() == 0 ==> r@.len() == 0,
{
    let x = opis::Int { magnitude: a.bits.iter().map(|&x| if x { opis::Bit::One } else { opis::Bit::Zero }).collect(), sign: false };
    let y = opis::Int { magnitude: b.bits.iter().map(|&x| if x { opis::Bit::One } else { opis::Bit::Zero }).collect(), sign: false };
    let s = x + y;
    Natural { bits: s.magnitude.iter().map(|x| matches!(x, opis::Bit::One)).collect() }
}

/// `<` on two non-negative `opis::Int`s: leading zeros are dropped from
/// each (one bit is kept), then the shorter bit string is smaller and bit
/// strings of one length compare by value.
#[verifier::external_body]
pub(crate) fn opis_less(a: &Vec<bool>, b: &Vec<bool>) -> (r: bool)
    ensures
        r == bits_less(strip_zeros(a@), strip_zeros(b@)),
{
    let x = opis::Int { magnitude: a.iter().map(|&x| if x { opis::Bit::One } else { opis::Bit::Zero }).collect(), sign: false };
    let y = opis::Int { magnitude: b.iter().map(|&x| if x { opis::Bit::One } else { opis::Bit::Zero }).collect(), sign: false };
    x < y
}

/// `-` on two non-negative `opis::Int`s with canonical bits, the first not
/// below the second: the difference, as the shortest non-empty bit string.
#[verifier::external_body]
fn opis_sub(a: &Natural, b: &Natural) -> (r: Natural)
    requires
        canonical(a@),
        canonical(b@),
        !bits_less(a@, b@),
    ensures
        r@ == nat_bits((bits_value(a@) - bits_value(b@)) as nat),
{
    let x = opis::Int { magnitude: a.bits.iter().map(|&x| if x { opis::Bit::One } else { opis::Bit::Zero }).collect(), sign: false };
    let y = opis::Int { magnitude: b.bits.iter().map(|&x| if x { opis::Bit::One } else { opis::Bit::Zero }).collect(), sign: false };
    let d = x - y;
    Natural { bits: d.magnitude.iter().map(|x| matches!(x, opis::Bit::One)).collect() }
}

/// `opis::Int::from_decimal` on a string of digits without a leading zero:
/// the number, as the shortest non-empty bit string.
#[verifier::external_body]
fn opis_from_decimal(s: &str) -> (r: Natural)
    requires
        canonical_decimal(s@),
    ensures
        r@ == nat_bits(decimal_value(s@)),
{
    let i = opis::Int::from_decimal(s);
    Natural { bits: i.magnitude.iter().map(|x| matches!(x, opis::Bit::One)).collect() }
}

impl Natural {
    /// The sum.
    pub fn add(&self, other: &Natural) -> (r: Natural)
        ensures
            self@.len() + other@.len() > 0 ==> r@ == nat_bits(self.value() + other.value()),
            self@.len() + other@.len() == 0 ==> r@.len() == 0,
    {
        proof {
            use_type_invariant(self);
            use_type_invariant(other);
        }
        opis_add(self, other)
    }

    /// Whether `self` is below `other`: the shorter bit string is smaller,
    /// and bit strings of one length compare by value.
    pub fn less_than(&self, other: &Natural) -> (r: bool)
        ensures
            r == bits_less(self@, other@),
    {
        proof {
            use_type_invariant(self);
            use_type_invariant(other);
        }
        opis_less(&self.bits, &other.bits)
    }

    /// The difference, when `self` is not below `other`.
    pub fn sub(&self, other: &Natural) -> (r: Natural)
        requires
            !bits_less(self@, other@),
        ensures
            r@ == nat_bits((self.value() - other.value()) as nat),
    {
        proof {
            use_type_invariant(self);
            use_type_invariant(other);
        }
        opis_sub(self, other)
    }

    /// Reads a string of decimal digits without a leading zero.
    pub fn from_decimal(s: &str) -> (r: Natural)
        requires
            canonical_decimal(s@),
        ensures
            r@ == nat_bits(decimal_value(s@)),
    {
        opis_from_decimal(s)
    }
}

/// `k` zero bits.
pub open spec fn zeros(k: nat) -> Seq<bool> {
    Seq::new(k, |i: int| false)
}

/// Zero bits that fill a bit string of length `l` up to whole bytes.
pub open spec fn byte_pad(l: nat) -> nat {
    if l % 8 == 0 {
        0
    } else {
        (8 - l % 8) as nat
    }
}

proof fn lemma_value_bound(s: Seq<bool>)
    ensures
        bits_value(s) < vstd::arithmetic::power2::pow2(s.len()),
    decreases s.len(),
{
    vstd::arithmetic::power2::lemma_pow2_pos(s.len());
    if s.len() > 0 {
        lemma_value_bound(s.drop_last());
        vstd::arithmetic::power2::lemma_pow2_unfold(s.len());
    }
}

proof fn lemma_value_byte(s: Seq<bool>)
    requires
        s.len() <= 8,
    ensures
        bits_value(s) < 256,
{
    lemma_value_bound(s);
    vstd::arithmetic::power2::lemma2_to64();
    if s.len() < 8 {
        vstd::arithmetic::power2::lemma_pow2_strictly_increases(s.len(), 8);
    }
}

proof fn lemma_low_bits_zero(n: nat)
    ensures
        low_bits(0, n) == zeros(n),
    decreases n,
{
    if n > 0 {
        lemma_low_bits_zero((n - 1) as nat);
        assert(low_bits(0, n) =~= zeros(n));
    } else {
        assert(low_bits(0, n) =~= zeros(n));
    }
}

proof fn lemma_low_bits(s: Seq<bool>, n: nat)
    requires
        s.len() <= n,
    ensures
        low_bits(bits_value(s), n) == zeros((n - s.len()) as nat) + s,
    decreases n,
{
    if s.len() == 0 {
        lemma_low_bits_zero(n);
        assert(zeros(n) + s =~= zeros(n));
    } else {
        let x = bits_value(s);
        let d = s.drop_last();
        assert(x / 2 == bits_value(d));
        assert((x % 2 == 1) == s.last());
        lemma_low_bits(d, (n - 1) as nat);
        assert(low_bits(x, n) =~= zeros((n - s.len()) as nat) + s);
    }
}

proof fn lemma_bytes_bits_push(b: Seq<u8>, y: u8)
    ensures
        bytes_bits(b.push(y)) == bytes_bits(b) + low_bits(y as nat, 8),
{
    assert(b.push(y).drop_last() =~= b);
}

proof fn lemma_bytes_bits_of_bits_bytes(s: Seq<bool>)
    ensures
        bytes_bits(bits_bytes(s)) == zeros(byte_pad(s.len())) + s,
    decreases s.len(),
{
    if s.len() == 0 {
        assert(zeros(0) + s =~= s);
    } else if s.len() <= 8 {
        lemma_value_byte(s);
        lemma_bytes_bits_push(Seq::empty(), bits_value(s) as u8);
        assert(seq![bits_value(s) as u8] =~= Seq::<u8>::empty().push(bits_value(s) as u8));
        lemma_low_bits(s, 8);
        assert(Seq::<bool>::empty() + low_bits(bits_value(s), 8) =~= low_bits(bits_value(s), 8));
    } else {
        let t = s.take(s.len() - 8);
        let k = s.skip(s.len() - 8);
        lemma_bytes_bits_of_bits_bytes(t);
        lemma_value_byte(k);
        lemma_bytes_bits_push(bits_bytes(t), bits_value(k) as u8);
        lemma_low_bits(k, 8);
        assert(byte_pad(t.len()) == byte_pad(s.len()));
        assert(zeros(byte_pad(s.len())) + t + (zeros(0) + k) =~= zeros(byte_pad(s.len())) + s);
    }
}

proof fn lemma_strip_padding(k: nat, s: Seq<bool>)
    requires
        canonical(s),
        s.len() > 0 || k == 0,
    ensures
        strip_zeros(zeros(k) + s) == s,
    decreases k,
{
    if k == 0 {
        assert(zeros(0) + s =~= s);
    } else {
        let t = zeros(k) + s;
        assert(t[0] == false);
        assert(t.drop_first() =~= zeros((k - 1) as nat) + s);
        lemma_strip_padding((k - 1) as nat, s);
    }
}

/// Reading back the bytes of a canonical bit string gives the bit string.
pub proof fn lemma_natural_bytes_roundtrip(s: Seq<bool>)
    requires
        canonical(s),
    ensures
        spec_from_bytes(bits_bytes(s)) == s,
{
    lemma_bytes_bits_of_bits_bytes(s);
    lemma_strip_padding(byte_pad(s.len()), s);
}

/// The bits with the last one dropped; nothing for no bits.
pub open spec fn drop_last_bit(s: Seq<bool>) -> Seq<bool> {
    if s.len() == 0 {
        s
    } else {
        s.drop_last()
    }
}

/// The last bit; zero for no bits.
pub open spec fn last_bit(s: Seq<bool>) -> bool {
    s.len() > 0 && s.last()
}

/// Bitwise exclusive or, the shorter string padded with zeros in front.
pub open spec fn xor_bits(a: Seq<bool>, b: Seq<bool>) -> Seq<bool>
    decreases a.len() + b.len(),
{
    if a.len() == 0 && b.len() == 0 {
        Seq::empty()
    } else {
        xor_bits(drop_last_bit(a), drop_last_bit(b)).push(last_bit(a) != last_bit(b))
    }
}

/// `^` on two non-negative `opis::Int`s: the bits of the exclusive or, the
/// shorter padded with zeros in front; leading zeros are kept.
#[verifier::external_body]
pub(crate) fn opis_xor(a: &Natural, b: &Natural) -> (r: Vec<bool>)
    ensures
        r@ == xor_bits(a@, b@),
{
    let x = opis::Int { magnitude: a.bits.iter().map(|&x| if x { opis::Bit::One } else { opis::Bit::Zero }).collect(), sign: false };
    let y = opis::Int { magnitude: b.bits.iter().map(|&x| if x { opis::Bit::One } else { opis::Bit::Zero }).collect(), sign: false };
    (x ^ y).magnitude.iter().map(|x| matches!(x, opis::Bit::One)).collect()
}

/// The exclusive or is as long as the longer operand.
pub proof fn lemma_xor_len(a: Seq<bool>, b: Seq<bool>)
    ensures
        xor_bits(a, b).len() == if a.len() >= b.len() { a.len() } else { b.len() },
    decreases a.len() + b.len(),
{
    if a.len() > 0 || b.len() > 0 {
        lemma_xor_len(drop_last_bit(a), drop_last_bit(b));
    }
}

/// Stripping keeps at least one bit of a non-empty string.
pub proof fn lemma_strip_nonempty(s: Seq<bool>)
    ensures
        s.len() > 0 ==> strip_zeros(s).len() > 0,
        strip_zeros(s).len() <= s.len(),
    decreases s.len(),
{
    if s.len() > 1 && !s[0] {
        lemma_strip_nonempty(s.drop_first());
    }
}

/// The shortest bit string of a number stands for it, is canonical and is
/// not empty; it starts with a one unless the number is zero.
pub proof fn lemma_nat_bits(v: nat)
    ensures
        bits_value(nat_bits(v)) == v,
        canonical(nat_bits(v)),
        nat_bits(v).len() > 0,
        v > 0 ==> nat_bits(v)[0],
    decreases v,
{
    reveal_with_fuel(bits_value, 2);
    if v >= 2 {
        lemma_nat_bits(v / 2);
        assert(nat_bits(v).drop_last() =~= nat_bits(v / 2));
    } else {
        assert(nat_bits(v).drop_last() =~= Seq::<bool>::empty());
    }
}

/// The value of a non-empty bit string is its first bit's weight plus the
/// value of the rest.
proof fn lemma_value_first(s: Seq<bool>)
    requires
        s.len() > 0,
    ensures
        bits_value(s) == (if s[0] { pow2((s.len() - 1) as nat) } else { 0 }) + bits_value(s.drop_first()),
    decreases s.len(),
{
    lemma2_to64();
    if s.len() > 1 {
        let d = s.drop_last();
        lemma_value_first(d);
        let t = s.drop_first();
        assert(d.drop_first() =~= t.drop_last());
        assert(t.last() == s.last());
        assert(d[0] == s[0]);
        assert(bits_value(s) == 2 * bits_value(d) + (if s.last() { 1nat } else { 0nat }));
        assert(bits_value(t) == 2 * bits_value(t.drop_last()) + (if s.last() { 1nat } else { 0nat }));
        lemma_pow2_unfold((s.len() - 1) as nat);
    } else {
        assert(bits_value(s.drop_first()) == 0);
        assert(bits_value(s.drop_last()) == 0);
    }
}

/// Stripping leading zeros keeps the value, leaves a canonical string, and
/// is nothing new on a canonical one.
proof fn lemma_strip_value(s: Seq<bool>)
    ensures
        bits_value(strip_zeros(s)) == bits_value(s),
        canonical(strip_zeros(s)),
        canonical(s) ==> strip_zeros(s) == s,
    decreases s.len(),
{
    if s.len() > 1 && !s[0] {
        lemma_value_first(s);
        lemma_strip_value(s.drop_first());
    }
}

/// On non-empty bit strings, leading zeros allowed, comparing the stripped
/// strings is comparing values.
pub(crate) proof fn lemma_stripped_less(a: Seq<bool>, b: Seq<bool>)
    requires
        a.len() > 0,
        b.len() > 0,
    ensures
        bits_less(strip_zeros(a), strip_zeros(b)) == (bits_value(a) < bits_value(b)),
{
    lemma_strip_value(a);
    lemma_strip_value(b);
    lemma_strip_nonempty(a);
    lemma_strip_nonempty(b);
    let x = strip_zeros(a);
    let y = strip_zeros(b);
    lemma_value_bound(x);
    lemma_value_bound(y);
    if x.len() < y.len() {
        lemma_value_first(y);
        if x.len() < y.len() - 1 {
            lemma_pow2_strictly_increases(x.len(), (y.len() - 1) as nat);
        }
    } else if y.len() < x.len() {
        lemma_value_first(x);
        if y.len() < x.len() - 1 {
            lemma_pow2_strictly_increases(y.len(), (x.len() - 1) as nat);
        }
    }
}

/// The big-endian value of a byte string.
pub open spec fn be_value(b: Seq<u8>) -> nat
    decreases b.len(),
{
    if b.len() == 0 {
        0
    } else {
        be_value(b.drop_last()) * 256 + b.last() as nat
    }
}

proof fn lemma_value_concat(s: Seq<bool>, t: Seq<bool>)
    ensures
        bits_value(s + t) == bits_value(s) * pow2(t.len()) + bits_value(t),
    decreases t.len(),
{
    lemma2_to64();
    if t.len() == 0 {
        assert(s + t =~= s);
    } else {
        let d = t.drop_last();
        lemma_value_concat(s, d);
        assert((s + t).drop_last() =~= s + d);
        assert((s + t).last() == t.last());
        lemma_pow2_unfold(t.len());
        let a = bits_value(s);
        let p = pow2((t.len() - 1) as nat);
        assert(2 * (a * p) == a * (2 * p)) by (nonlinear_arith);
    }
}

proof fn lemma_low_bits_value(x: nat, n: nat)
    ensures
        bits_value(low_bits(x, n)) == x % pow2(n),
    decreases n,
{
    lemma2_to64();
    if n > 0 {
        lemma_low_bits_value(x / 2, (n - 1) as nat);
        lemma_pow2_unfold(n);
        vstd::arithmetic::power2::lemma_pow2_pos((n - 1) as nat);
        vstd::arithmetic::div_mod::lemma_breakdown(x as int, 2, pow2((n - 1) as nat) as int);
        assert(low_bits(x, n).drop_last() =~= low_bits(x / 2, (n - 1) as nat));
    }
}

proof fn lemma_bytes_value(b: Seq<u8>)
    ensures
        bits_value(bytes_bits(b)) == be_value(b),
    decreases b.len(),
{
    lemma2_to64();
    if b.len() > 0 {
        lemma_bytes_value(b.drop_last());
        lemma_value_concat(bytes_bits(b.drop_last()), low_bits(b.last() as nat, 8));
        lemma_low_bits_value(b.last() as nat, 8);
        lemma_low_bits_len(b.last() as nat, 8);
    }
}

proof fn lemma_low_bits_len(x: nat, n: nat)
    ensures
        low_bits(x, n).len() == n,
    decreases n,
{
    if n > 0 {
        lemma_low_bits_len(x / 2, (n - 1) as nat);
    }
}

proof fn lemma_be_u64(x: u64)
    ensures
        be_value(u64_be_bytes(x)) == x,
{
    let b = u64_be_bytes(x);
    reveal_with_fuel(be_value, 9);
    assert(b.drop_last().drop_last().drop_last().drop_last().drop_last().drop_last().drop_last().drop_last().len() == 0);
    assert(x == ((x / 0x100000000000000) % 256) * 0x100000000000000 + ((x / 0x1000000000000) % 256)
        * 0x1000000000000 + ((x / 0x10000000000) % 256) * 0x10000000000 + ((x / 0x100000000) % 256)
        * 0x100000000 + ((x / 0x1000000) % 256) * 0x1000000 + ((x / 0x10000) % 256) * 0x10000 + ((x
        / 0x100) % 256) * 0x100 + x % 256) by (bit_vector);
}

/// The bits of a `u64`'s eight big-endian bytes stand for it: they are
/// canonical, not empty, and their value is the number.
pub proof fn lemma_u64_bits(x: u64)
    ensures
        bits_value(spec_from_bytes(u64_be_bytes(x))) == x,
        canonical(spec_from_bytes(u64_be_bytes(x))),
        spec_from_bytes(u64_be_bytes(x)).len() > 0,
{
    let bb = bytes_bits(u64_be_bytes(x));
    lemma_be_u64(x);
    lemma_bytes_value(u64_be_bytes(x));
    lemma_strip_value(bb);
    crate::peers::lemma_bytes_bits_len(u64_be_bytes(x));
    lemma_strip_nonempty(bb);
}

/// On canonical, non-empty bit strings the order is the order of values.
pub proof fn lemma_canonical_less(a: Seq<bool>, b: Seq<bool>)
    requires
        canonical(a),
        canonical(b),
        a.len() > 0,
        b.len() > 0,
    ensures
        bits_less(a, b) == (bits_value(a) < bits_value(b)),
{
    lemma_strip_value(a);
    lemma_strip_value(b);
    lemma_stripped_less(a, b);
}

/// Bit `i` of a number, counted from the least significant bit.
pub open spec fn bit_of(x: nat, i: nat) -> bool {
    (x / pow2(i)) % 2 == 1
}

/// The bits of `2 * y + b`: the lowest is `b`, the others are those of `y`.
proof fn lemma_bit_of_double(y: nat, b: bool, i: nat)
    ensures
        bit_of(2 * y + (if b { 1nat } else { 0nat }), i) == if i == 0 { b } else { bit_of(y, (i - 1) as nat) },
{
    lemma2_to64();
    let x = 2 * y + (if b { 1nat } else { 0nat });
    if i > 0 {
        lemma_pow2_unfold(i);
        vstd::arithmetic::power2::lemma_pow2_pos((i - 1) as nat);
        vstd::arithmetic::div_mod::lemma_div_denominator(x as int, 2, pow2((i - 1) as nat) as int);
        assert(x / 2 == y);
    }
}

/// A bit string's value is twice the value of all but its last bit, plus
/// its last bit (no bits having value 0).
proof fn lemma_value_last(s: Seq<bool>)
    ensures
        bits_value(s) == 2 * bits_value(drop_last_bit(s)) + (if last_bit(s) { 1nat } else { 0nat }),
{
}

/// Each bit of the exclusive or is set exactly where the bits of the two
/// operands' values differ.
pub proof fn lemma_xor_value_bits(a: Seq<bool>, b: Seq<bool>, i: nat)
    ensures
        bit_of(bits_value(xor_bits(a, b)), i) == (bit_of(bits_value(a), i) != bit_of(bits_value(b), i)),
    decreases a.len() + b.len(),
{
    if a.len() == 0 && b.len() == 0 {
        lemma2_to64();
        vstd::arithmetic::power2::lemma_pow2_pos(i);
        assert(xor_bits(a, b).len() == 0);
        assert(bits_value(xor_bits(a, b)) == 0);
        assert(0nat / pow2(i) == 0) by (nonlinear_arith)
            requires
                pow2(i) > 0,
        ;
    } else {
        let x = xor_bits(a, b);
        let da = drop_last_bit(a);
        let db = drop_last_bit(b);
        let dx = xor_bits(da, db);
        assert(x == dx.push(last_bit(a) != last_bit(b)));
        assert(drop_last_bit(x) =~= dx);
        lemma_value_last(x);
        lemma_value_last(a);
        lemma_value_last(b);
        lemma_bit_of_double(bits_value(dx), last_bit(a) != last_bit(b), i);
        lemma_bit_of_double(bits_value(da), last_bit(a), i);
        lemma_bit_of_double(bits_value(db), last_bit(b), i);
        if i > 0 {
            lemma_xor_value_bits(da, db, (i - 1) as nat);
        }
    }
}

/// The bits that reading bytes gives stand for the bytes' big-endian value.
pub proof fn lemma_from_bytes_value(b: Seq<u8>)
    ensures
        bits_value(spec_from_bytes(b)) == be_value(b),
{
    lemma_bytes_value(b);
    lemma_strip_value(bytes_bits(b));
}

} // verus!
