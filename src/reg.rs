//! Registers: fixed-width unsigned integers, addressable byte by byte in
//! little-endian order.
use vstd::prelude::*;

use crate::mem::blank;

verus! {

/// `256` to the power `n`: the weight of byte `n` of a little-endian integer.
pub open spec fn place(n: nat) -> nat
    decreases n,
{
    if n == 0 {
        1
    } else {
        256 * place((n - 1) as nat)
    }
}

/// The `n` least-significant bytes of `x`, least significant first.
pub open spec fn le_bytes(x: nat, n: nat) -> Seq<u8>
    decreases n,
{
    if n == 0 {
        Seq::empty()
    } else {
        seq![(x % 256) as u8] + le_bytes(x / 256, (n - 1) as nat)
    }
}

/// The integer whose little-endian bytes are `s`.
pub open spec fn le_value(s: Seq<u8>) -> nat
    decreases s.len(),
{
    if s.len() == 0 {
        0
    } else {
        s[0] as nat + 256 * le_value(s.drop_first())
    }
}

proof fn lemma_place_positive(n: nat)
    ensures
        place(n) >= 1,
    decreases n,
{
    if n > 0 {
        lemma_place_positive((n - 1) as nat);
    }
}

proof fn lemma_place_monotonic(a: nat, b: nat)
    requires
        a <= b,
    ensures
        place(a) <= place(b),
    decreases b,
{
    if a < b {
        lemma_place_monotonic(a, (b - 1) as nat);
        lemma_place_positive((b - 1) as nat);
    }
}

proof fn lemma_place_16()
    ensures
        place(16) == 0x1_0000_0000_0000_0000_0000_0000_0000_0000int,
{
    reveal_with_fuel(place, 17);
}

proof fn lemma_le_bytes_len(x: nat, n: nat)
    ensures
        le_bytes(x, n).len() == n,
    decreases n,
{
    if n > 0 {
        lemma_le_bytes_len(x / 256, (n - 1) as nat);
    }
}

proof fn lemma_le_bytes_zero(n: nat)
    ensures
        le_bytes(0, n) == blank(n),
    decreases n,
{
    if n > 0 {
        lemma_le_bytes_zero((n - 1) as nat);
        assert(le_bytes(0, n) =~= blank(n));
    } else {
        assert(le_bytes(0, n) =~= blank(n));
    }
}

proof fn lemma_le_value_bound(s: Seq<u8>)
    ensures
        le_value(s) < place(s.len()),
    decreases s.len(),
{
    if s.len() > 0 {
        let rest = s.drop_first();
        lemma_le_value_bound(rest);
        let v = le_value(rest);
        let p = place(rest.len());
        let b = s[0] as nat;
        assert(b + 256 * v < 256 * p) by (nonlinear_arith)
            requires
                v < p,
                b < 256,
        ;
    }
}

/// Bytes read back from their integer are the bytes themselves.
proof fn lemma_le_round_trip(s: Seq<u8>)
    ensures
        le_bytes(le_value(s), s.len()) == s,
    decreases s.len(),
{
    if s.len() > 0 {
        let rest = s.drop_first();
        lemma_le_round_trip(rest);
        let x = le_value(s);
        vstd::arithmetic::div_mod::lemma_fundamental_div_mod_converse(
            x as int,
            256,
            le_value(rest) as int,
            s[0] as int,
        );
        assert(le_bytes(x, s.len()) =~= s);
    }
}

/// Byte `i` of the little-endian form of `x` is `x / 256^i` modulo `256`.
pub proof fn lemma_le_byte(x: nat, n: nat, i: nat)
    requires
        i < n,
    ensures
        le_bytes(x, n)[i as int] == ((x / place(i)) % 256) as u8,
    decreases i,
{
    lemma_le_bytes_len(x / 256, (n - 1) as nat);
    assert(le_bytes(x, n) == seq![(x % 256) as u8] + le_bytes(x / 256, (n - 1) as nat));
    if i == 0 {
        assert(place(0) == 1);
        assert(x / 1 == x);
    } else {
        lemma_le_byte(x / 256, (n - 1) as nat, (i - 1) as nat);
        lemma_place_positive((i - 1) as nat);
        vstd::arithmetic::div_mod::lemma_div_denominator(
            x as int,
            256,
            place((i - 1) as nat) as int,
        );
    }
}

/// An unsigned integer type that a register can hold.
pub trait Word: Sized + Copy {
    /// Width in bytes.
    spec fn width() -> nat;

    /// The value as a natural number.
    spec fn to_nat(self) -> nat;

    /// Width in bytes.
    fn size() -> (r: usize)
        ensures
            r == Self::width(),
            1 <= r <= 16,
    ;

    /// The value, widened.
    fn widen(self) -> (r: u128)
        ensures
            r == self.to_nat(),
            self.to_nat() < place(Self::width()),
    ;

    /// The value of a natural number that fits the width.
    fn narrow(v: u128) -> (r: Self)
        requires
            v < place(Self::width()),
        ensures
            r.to_nat() == v,
    ;
}

impl Word for u8 {
    open spec fn width() -> nat {
        1
    }

    open spec fn to_nat(self) -> nat {
        self as nat
    }

    fn size() -> (r: usize) {
        1
    }

    fn widen(self) -> (r: u128) {
        proof {
            reveal_with_fuel(place, 2);
        }
        self as u128
    }

    fn narrow(v: u128) -> (r: u8) {
        proof {
            reveal_with_fuel(place, 2);
        }
        v as u8
    }
}

impl Word for u16 {
    open spec fn width() -> nat {
        2
    }

    open spec fn to_nat(self) -> nat {
        self as nat
    }

    fn size() -> (r: usize) {
        2
    }

    fn widen(self) -> (r: u128) {
        proof {
            reveal_with_fuel(place, 3);
        }
        self as u128
    }

    fn narrow(v: u128) -> (r: u16) {
        proof {
            reveal_with_fuel(place, 3);
        }
        v as u16
    }
}

impl Word for u32 {
    open spec fn width() -> nat {
        4
    }

    open spec fn to_nat(self) -> nat {
        self as nat
    }

    fn size() -> (r: usize) {
        4
    }

    fn widen(self) -> (r: u128) {
        proof {
            reveal_with_fuel(place, 5);
        }
        self as u128
    }

    fn narrow(v: u128) -> (r: u32) {
        proof {
            reveal_with_fuel(place, 5);
        }
        v as u32
    }
}

impl Word for u64 {
    open spec fn width() -> nat {
        8
    }

    open spec fn to_nat(self) -> nat {
        self as nat
    }

    fn size() -> (r: usize) {
        8
    }

    fn widen(self) -> (r: u128) {
        proof {
            reveal_with_fuel(place, 9);
        }
        self as u128
    }

    fn narrow(v: u128) -> (r: u64) {
        proof {
            reveal_with_fuel(place, 9);
        }
        v as u64
    }
}

impl Word for u128 {
    open spec fn width() -> nat {
        16
    }

    open spec fn to_nat(self) -> nat {
        self as nat
    }

    fn size() -> (r: usize) {
        16
    }

    fn widen(self) -> (r: u128) {
        proof {
            lemma_place_16();
        }
        self
    }

    fn narrow(v: u128) -> (r: u128) {
        v
    }
}

/// The little-endian bytes of the `n` low bytes of `x`.
fn to_le(x: u128, n: usize) -> (r: Vec<u8>)
    requires
        n <= 16,
    ensures
        r@ == le_bytes(x as nat, n as nat),
{
    let mut r: Vec<u8> = Vec::with_capacity(n);
    let mut cur: u128 = x;
    let mut k: usize = 0;
    while k < n
        invariant
            k <= n,
            r@.len() == k,
            r@ + le_bytes(cur as nat, (n - k) as nat) == le_bytes(x as nat, n as nat),
        decreases n - k,
    {
        let ghost before = r@;
        assert(le_bytes(cur as nat, (n - k) as nat) == seq![(cur % 256) as u8] + le_bytes(
            (cur / 256) as nat,
            (n - k - 1) as nat,
        ));
        r.push((cur % 256) as u8);
        cur = cur / 256;
        k += 1;
        assert(r@ + le_bytes(cur as nat, (n - k) as nat) =~= before + (seq![r@[k - 1]]
            + le_bytes(cur as nat, (n - k) as nat)));
    }
    assert(le_bytes(cur as nat, 0) =~= Seq::<u8>::empty());
    assert(r@ =~= r@ + le_bytes(cur as nat, 0));
    r
}

/// The integer whose little-endian bytes are `s`.
fn from_le(s: &Vec<u8>) -> (r: u128)
    requires
        s@.len() <= 16,
    ensures
        r == le_value(s@),
{
    let n = s.len();
    let mut v: u128 = 0;
    let mut k: usize = n;
    proof {
        assert(s@.subrange(n as int, n as int) =~= Seq::<u8>::empty());
    }
    while k > 0
        invariant
            k <= n,
            n == s@.len(),
            n <= 16,
            v == le_value(s@.subrange(k as int, n as int)),
        decreases k,
    {
        let ghost tail = s@.subrange(k as int, n as int);
        k -= 1;
        proof {
            let sub = s@.subrange(k as int, n as int);
            assert(sub.drop_first() =~= tail);
            lemma_le_value_bound(tail);
            lemma_place_monotonic(tail.len() + 1, 16);
            lemma_place_16();
            let p = place(tail.len());
            let b = s@[k as int] as nat;
            assert(256 * v + b < 256 * p) by (nonlinear_arith)
                requires
                    v < p,
                    b < 256,
            ;
        }
        v = v * 256 + s[k] as u128;
    }
    assert(s@.subrange(0, n as int) =~= s@);
    v
}

/// A register holding a value of the word type `U`.
pub struct Register<U: Word> {
    value: U,
}

impl<U: Word> View for Register<U> {
    type V = Seq<u8>;

    /// The little-endian bytes of the value.
    closed spec fn view(&self) -> Seq<u8> {
        le_bytes(self.value.to_nat(), U::width())
    }
}

impl<U: Word> Register<U> {
    /// The value held.
    pub closed spec fn held(&self) -> U {
        self.value
    }

    /// The bytes of a register are those of its value.
    pub proof fn lemma_view(&self)
        ensures
            self@ == le_bytes(self.held().to_nat(), U::width()),
            self@.len() == U::width(),
    {
        lemma_le_bytes_len(self.held().to_nat(), U::width());
    }

    /// A register holding zero.
    pub fn new() -> (r: Register<U>)
        ensures
            r.held().to_nat() == 0,
            r@ == blank(U::width()),
    {
        proof {
            lemma_place_positive(U::width());
            lemma_le_bytes_zero(U::width());
        }
        Register { value: U::narrow(0) }
    }

    /// A register holding `value`.
    pub fn from(value: U) -> (r: Register<U>)
        ensures
            r.held() == value,
    {
        Register { value }
    }

    /// The value held.
    pub fn value(&self) -> (r: U)
        ensures
            r == self.held(),
    {
        self.value
    }

    /// Replaces the value held.
    pub fn set_value(&mut self, value: U)
        ensures
            final(self).held() == value,
    {
        self.value = value;
    }

    /// Whether `index` names a byte of the register.
    pub fn contains(&self, index: usize) -> (r: bool)
        ensures
            r == (index < self@.len()),
    {
        proof {
            self.lemma_view();
        }
        index < U::size()
    }

    /// Width in bytes.
    pub fn len(&self) -> (r: usize)
        ensures
            r == self@.len(),
            r == U::width(),
    {
        proof {
            self.lemma_view();
        }
        U::size()
    }

    /// Byte `index` of the value, least significant first.
    pub fn read(&self, index: usize) -> (r: u8)
        requires
            index < self@.len(),
        ensures
            r == self@[index as int],
    {
        proof {
            self.lemma_view();
        }
        let bytes = to_le(self.value.widen(), U::size());
        bytes[index]
    }

    /// Replaces byte `index` of the value with `value`, keeping the others.
    pub fn write(&mut self, index: usize, value: u8)
        requires
            index < old(self)@.len(),
        ensures
            final(self)@ == old(self)@.update(index as int, value),
    {
        proof {
            self.lemma_view();
        }
        let mut bytes = to_le(self.value.widen(), U::size());
        bytes.set(index, value);
        proof {
            lemma_le_value_bound(bytes@);
            lemma_le_round_trip(bytes@);
        }
        self.value = U::narrow(from_le(&bytes));
    }

    /// Clears the value to zero.
    pub fn reset(&mut self)
        ensures
            final(self).held().to_nat() == 0,
            final(self)@ == blank(old(self)@.len()),
    {
        proof {
            self.lemma_view();
            lemma_place_positive(U::width());
            lemma_le_bytes_zero(U::width());
        }
        self.value = U::narrow(0);
    }
}

} // verus!
