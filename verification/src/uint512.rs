use core::cmp::Ordering;
use vstd::prelude::*;

verus! {

/// The number denoted by eight 64-bit words, least significant word first.
pub open spec fn words_value(w: Seq<u64>) -> nat
    recommends
        w.len() == 8,
{
    (w[0] + 0x1_0000_0000_0000_0000int * (w[1] + 0x1_0000_0000_0000_0000int * (w[2]
        + 0x1_0000_0000_0000_0000int * (w[3] + 0x1_0000_0000_0000_0000int * (w[4]
        + 0x1_0000_0000_0000_0000int * (w[5] + 0x1_0000_0000_0000_0000int * (w[6]
        + 0x1_0000_0000_0000_0000int * w[7]))))))) as nat
}

/// 2^512: one more than the largest value a `U512` can hold.
pub open spec fn modulus() -> nat {
    0x1_0000_0000_0000_0000_0000_0000_0000_0000_0000_0000_0000_0000_0000_0000_0000_0000_0000_0000_0000_0000_0000_0000_0000_0000_0000_0000_0000_0000_0000_0000_0000_0000nat
}

/// Eight words always denote a number below 2^512.
pub proof fn lemma_words_value_bound(w: Seq<u64>)
    requires
        w.len() == 8,
    ensures
        words_value(w) < modulus(),
{
}

/// A number below 2^64 and a multiple of 2^64 are told apart in a sum.
proof fn lemma_radix_split(x: int, s: int, y: int, t: int)
    requires
        0 <= x < 0x1_0000_0000_0000_0000,
        0 <= y < 0x1_0000_0000_0000_0000,
        x + 0x1_0000_0000_0000_0000int * s == y + 0x1_0000_0000_0000_0000int * t,
    ensures
        x == y,
        s == t,
{
}

/// The higher part decides the order of two sums.
proof fn lemma_radix_order(x: int, s: int, y: int, t: int)
    requires
        0 <= x < 0x1_0000_0000_0000_0000,
        0 <= y < 0x1_0000_0000_0000_0000,
        s < t,
    ensures
        x + 0x1_0000_0000_0000_0000int * s < y + 0x1_0000_0000_0000_0000int * t,
{
}

/// The lowest word and the rest of a sum of a word and a multiple of 2^64.
proof fn lemma_radix_digits(x: int, s: int)
    requires
        0 <= x < 0x1_0000_0000_0000_0000,
        0 <= s,
    ensures
        (x + 0x1_0000_0000_0000_0000int * s) % 0x1_0000_0000_0000_0000 == x,
        (x + 0x1_0000_0000_0000_0000int * s) / 0x1_0000_0000_0000_0000 == s,
{
    vstd::arithmetic::div_mod::lemma_fundamental_div_mod_converse(
        x + 0x1_0000_0000_0000_0000int * s,
        0x1_0000_0000_0000_0000,
        s,
        x,
    );
}

/// The bytes of the first `count` words, each least significant byte first.
pub open spec fn word_bytes(w: Seq<u64>, count: int) -> Seq<u8>
    decreases count,
{
    if count <= 0 {
        Seq::<u8>::empty()
    } else {
        word_bytes(w, count - 1) + vstd::bytes::spec_u64_to_le_bytes(w[count - 1])
    }
}

/// Distinct word sequences denote distinct numbers.
pub proof fn lemma_words_value_injective(a: Seq<u64>, b: Seq<u64>)
    requires
        a.len() == 8,
        b.len() == 8,
        words_value(a) == words_value(b),
    ensures
        a == b,
{
    let a7: int = a[7] as int;
    let a6: int = a[6] + 0x1_0000_0000_0000_0000int * a7;
    let a5: int = a[5] + 0x1_0000_0000_0000_0000int * a6;
    let a4: int = a[4] + 0x1_0000_0000_0000_0000int * a5;
    let a3: int = a[3] + 0x1_0000_0000_0000_0000int * a4;
    let a2: int = a[2] + 0x1_0000_0000_0000_0000int * a3;
    let a1: int = a[1] + 0x1_0000_0000_0000_0000int * a2;
    let a0: int = a[0] + 0x1_0000_0000_0000_0000int * a1;
    let b7: int = b[7] as int;
    let b6: int = b[6] + 0x1_0000_0000_0000_0000int * b7;
    let b5: int = b[5] + 0x1_0000_0000_0000_0000int * b6;
    let b4: int = b[4] + 0x1_0000_0000_0000_0000int * b5;
    let b3: int = b[3] + 0x1_0000_0000_0000_0000int * b4;
    let b2: int = b[2] + 0x1_0000_0000_0000_0000int * b3;
    let b1: int = b[1] + 0x1_0000_0000_0000_0000int * b2;
    let b0: int = b[0] + 0x1_0000_0000_0000_0000int * b1;
    assert(a0 == b0);
    lemma_radix_split(a[0] as int, a1, b[0] as int, b1);
    lemma_radix_split(a[1] as int, a2, b[1] as int, b2);
    lemma_radix_split(a[2] as int, a3, b[2] as int, b3);
    lemma_radix_split(a[3] as int, a4, b[3] as int, b4);
    lemma_radix_split(a[4] as int, a5, b[4] as int, b5);
    lemma_radix_split(a[5] as int, a6, b[5] as int, b6);
    lemma_radix_split(a[6] as int, a7, b[6] as int, b7);
    assert(a =~= b);
}

/// If two word sequences agree above position `i` and differ at `i`, the one
/// with the smaller word at `i` denotes the smaller number.
pub proof fn lemma_words_value_order(a: Seq<u64>, b: Seq<u64>, i: int)
    requires
        a.len() == 8,
        b.len() == 8,
        0 <= i < 8,
        forall|j: int| i < j < 8 ==> a[j] == b[j],
        a[i] < b[i],
    ensures
        words_value(a) < words_value(b),
{
    let a7: int = a[7] as int;
    let a6: int = a[6] + 0x1_0000_0000_0000_0000int * a7;
    let a5: int = a[5] + 0x1_0000_0000_0000_0000int * a6;
    let a4: int = a[4] + 0x1_0000_0000_0000_0000int * a5;
    let a3: int = a[3] + 0x1_0000_0000_0000_0000int * a4;
    let a2: int = a[2] + 0x1_0000_0000_0000_0000int * a3;
    let a1: int = a[1] + 0x1_0000_0000_0000_0000int * a2;
    let a0: int = a[0] + 0x1_0000_0000_0000_0000int * a1;
    let b7: int = b[7] as int;
    let b6: int = b[6] + 0x1_0000_0000_0000_0000int * b7;
    let b5: int = b[5] + 0x1_0000_0000_0000_0000int * b6;
    let b4: int = b[4] + 0x1_0000_0000_0000_0000int * b5;
    let b3: int = b[3] + 0x1_0000_0000_0000_0000int * b4;
    let b2: int = b[2] + 0x1_0000_0000_0000_0000int * b3;
    let b1: int = b[1] + 0x1_0000_0000_0000_0000int * b2;
    let b0: int = b[0] + 0x1_0000_0000_0000_0000int * b1;
    assert(i < 7 ==> a7 == b7);
    assert(i >= 7 ==> a7 < b7);
    assert(i < 6 ==> a6 == b6);
    assert(i >= 6 ==> a6 < b6) by {
        if i > 6 {
            lemma_radix_order(a[6] as int, a7, b[6] as int, b7);
        }
    }
    assert(i < 5 ==> a5 == b5);
    assert(i >= 5 ==> a5 < b5) by {
        if i > 5 {
            lemma_radix_order(a[5] as int, a6, b[5] as int, b6);
        }
    }
    assert(i < 4 ==> a4 == b4);
    assert(i >= 4 ==> a4 < b4) by {
        if i > 4 {
            lemma_radix_order(a[4] as int, a5, b[4] as int, b5);
        }
    }
    assert(i < 3 ==> a3 == b3);
    assert(i >= 3 ==> a3 < b3) by {
        if i > 3 {
            lemma_radix_order(a[3] as int, a4, b[3] as int, b4);
        }
    }
    assert(i < 2 ==> a2 == b2);
    assert(i >= 2 ==> a2 < b2) by {
        if i > 2 {
            lemma_radix_order(a[2] as int, a3, b[2] as int, b3);
        }
    }
    assert(i < 1 ==> a1 == b1);
    assert(i >= 1 ==> a1 < b1) by {
        if i > 1 {
            lemma_radix_order(a[1] as int, a2, b[1] as int, b2);
        }
    }
    assert(i < 0 ==> a0 == b0);
    assert(i >= 0 ==> a0 < b0) by {
        if i > 0 {
            lemma_radix_order(a[0] as int, a1, b[0] as int, b1);
        }
    }
}

/// The character of a decimal digit.
pub open spec fn digit_char(d: nat) -> char {
    if d == 0 {
        '0'
    } else if d == 1 {
        '1'
    } else if d == 2 {
        '2'
    } else if d == 3 {
        '3'
    } else if d == 4 {
        '4'
    } else if d == 5 {
        '5'
    } else if d == 6 {
        '6'
    } else if d == 7 {
        '7'
    } else if d == 8 {
        '8'
    } else {
        '9'
    }
}

/// The decimal numeral of `n`, without leading zeros.
pub open spec fn decimal_digits(n: nat) -> Seq<char>
    decreases n,
{
    if n < 10 {
        seq![digit_char(n)]
    } else {
        decimal_digits(n / 10).push(digit_char(n % 10))
    }
}

/// Calls `primitive_types::U512::overflowing_add`: the sum modulo 2^512, and
/// whether the exact sum reached 2^512.
#[verifier::external_body]
fn words_overflowing_add(a: [u64; 8], b: [u64; 8]) -> (r: ([u64; 8], bool))
    ensures
        words_value(r.0@) == (words_value(a@) + words_value(b@)) % modulus(),
        r.1 == (words_value(a@) + words_value(b@) >= modulus()),
{
    let (sum, overflow) = primitive_types::U512(a).overflowing_add(primitive_types::U512(b));
    (sum.0, overflow)
}

/// Calls `primitive_types::U512::overflowing_sub`: the difference modulo
/// 2^512, and whether the subtrahend was the larger number.
#[verifier::external_body]
fn words_overflowing_sub(a: [u64; 8], b: [u64; 8]) -> (r: ([u64; 8], bool))
    ensures
        words_value(r.0@) == (words_value(a@) - words_value(b@)) % (modulus() as int),
        r.1 == (words_value(a@) < words_value(b@)),
{
    let (difference, overflow) = primitive_types::U512(a).overflowing_sub(primitive_types::U512(b));
    (difference.0, overflow)
}

/// Calls `primitive_types::U512::overflowing_mul`: the product modulo 2^512,
/// and whether the exact product reached 2^512.
#[verifier::external_body]
fn words_overflowing_mul(a: [u64; 8], b: [u64; 8]) -> (r: ([u64; 8], bool))
    ensures
        words_value(r.0@) == (words_value(a@) * words_value(b@)) % modulus(),
        r.1 == (words_value(a@) * words_value(b@) >= modulus()),
{
    let (product, overflow) = primitive_types::U512(a).overflowing_mul(primitive_types::U512(b));
    (product.0, overflow)
}

/// Calls `primitive_types::U512::div_mod`, which panics on a zero divisor:
/// the quotient and the remainder of the division.
#[verifier::external_body]
fn words_div_mod(a: [u64; 8], b: [u64; 8]) -> (r: ([u64; 8], [u64; 8]))
    requires
        words_value(b@) != 0,
    ensures
        words_value(r.0@) == words_value(a@) / words_value(b@),
        words_value(r.1@) == words_value(a@) % words_value(b@),
{
    let (quotient, remainder) = primitive_types::U512(a).div_mod(primitive_types::U512(b));
    (quotient.0, remainder.0)
}

/// Formats through the `Display` impl of `primitive_types::U512`: the decimal
/// numeral, without sign, padding or leading zeros.
#[verifier::external_body]
fn words_to_decimal(w: [u64; 8]) -> (s: String)
    ensures
        s@ == decimal_digits(words_value(w@)),
{
    format!("{}", primitive_types::U512(w))
}

/// The 64 bytes of a number below 2^512, least significant byte first.
pub open spec fn nat_to_le_bytes(n: nat) -> Seq<u8> {
    words_to_le_bytes(n, 8)
}

/// The bytes of the `count` lowest 64-bit words of `n`, lowest word first.
pub open spec fn words_to_le_bytes(n: nat, count: nat) -> Seq<u8>
    decreases count,
{
    if count == 0 {
        Seq::<u8>::empty()
    } else {
        vstd::bytes::spec_u64_to_le_bytes((n % 0x1_0000_0000_0000_0000) as u64)
            + words_to_le_bytes(n / 0x1_0000_0000_0000_0000, (count - 1) as nat)
    }
}

/// The number that 64 bytes denote, least significant byte first.
pub open spec fn le_bytes_to_nat(bytes: Seq<u8>) -> nat
    recommends
        bytes.len() == 64,
{
    words_value(le_bytes_to_words(bytes))
}

/// The eight words that 64 bytes make, least significant byte first.
pub open spec fn le_bytes_to_words(bytes: Seq<u8>) -> Seq<u64>
    recommends
        bytes.len() == 64,
{
    Seq::new(8, |i: int| vstd::bytes::spec_u64_from_le_bytes(bytes.subrange(8 * i, 8 * i + 8)))
}

/// The 64 bytes of a number below 2^512 denote the number.
pub proof fn lemma_le_bytes_to_nat(n: nat)
    requires
        n < modulus(),
    ensures
        nat_to_le_bytes(n).len() == 64,
        le_bytes_to_nat(nat_to_le_bytes(n)) == n,
{
    let r: int = 0x1_0000_0000_0000_0000;
    let m: int = n as int;
    let q1 = m / r;
    let q2 = q1 / r;
    let q3 = q2 / r;
    let q4 = q3 / r;
    let q5 = q4 / r;
    let q6 = q5 / r;
    let q7 = q6 / r;
    vstd::arithmetic::div_mod::lemma_fundamental_div_mod(m, r);
    vstd::arithmetic::div_mod::lemma_fundamental_div_mod(q1, r);
    vstd::arithmetic::div_mod::lemma_fundamental_div_mod(q2, r);
    vstd::arithmetic::div_mod::lemma_fundamental_div_mod(q3, r);
    vstd::arithmetic::div_mod::lemma_fundamental_div_mod(q4, r);
    vstd::arithmetic::div_mod::lemma_fundamental_div_mod(q5, r);
    vstd::arithmetic::div_mod::lemma_fundamental_div_mod(q6, r);
    vstd::arithmetic::div_mod::lemma_fundamental_div_mod(q7, r);
    assert(q7 < r);
    let d0 = (m % r) as u64;
    let d1 = (q1 % r) as u64;
    let d2 = (q2 % r) as u64;
    let d3 = (q3 % r) as u64;
    let d4 = (q4 % r) as u64;
    let d5 = (q5 % r) as u64;
    let d6 = (q6 % r) as u64;
    let d7 = (q7 % r) as u64;
    vstd::bytes::lemma_auto_spec_u64_to_from_le_bytes();
    let b0 = vstd::bytes::spec_u64_to_le_bytes(d0);
    let b1 = vstd::bytes::spec_u64_to_le_bytes(d1);
    let b2 = vstd::bytes::spec_u64_to_le_bytes(d2);
    let b3 = vstd::bytes::spec_u64_to_le_bytes(d3);
    let b4 = vstd::bytes::spec_u64_to_le_bytes(d4);
    let b5 = vstd::bytes::spec_u64_to_le_bytes(d5);
    let b6 = vstd::bytes::spec_u64_to_le_bytes(d6);
    let b7 = vstd::bytes::spec_u64_to_le_bytes(d7);
    let bytes = nat_to_le_bytes(n);
    reveal_with_fuel(words_to_le_bytes, 9);
    assert(bytes =~= b0 + b1 + b2 + b3 + b4 + b5 + b6 + b7);
    assert(bytes.subrange(0, 8) =~= b0);
    assert(bytes.subrange(8, 16) =~= b1);
    assert(bytes.subrange(16, 24) =~= b2);
    assert(bytes.subrange(24, 32) =~= b3);
    assert(bytes.subrange(32, 40) =~= b4);
    assert(bytes.subrange(40, 48) =~= b5);
    assert(bytes.subrange(48, 56) =~= b6);
    assert(bytes.subrange(56, 64) =~= b7);
    let w = le_bytes_to_words(bytes);
    assert(w[0] == d0 && w[1] == d1 && w[2] == d2 && w[3] == d3 && w[4] == d4 && w[5] == d5
        && w[6] == d6 && w[7] == d7);
    assert(words_value(w) == n);
}

/// 64 bytes are the bytes of the number that they denote.
pub proof fn lemma_nat_to_le_bytes(bytes: Seq<u8>)
    requires
        bytes.len() == 64,
    ensures
        le_bytes_to_nat(bytes) < modulus(),
        nat_to_le_bytes(le_bytes_to_nat(bytes)) == bytes,
{
    let w = le_bytes_to_words(bytes);
    let n = le_bytes_to_nat(bytes);
    lemma_words_value_bound(w);
    let r: int = 0x1_0000_0000_0000_0000;
    let t7: int = w[7] as int;
    let t6: int = w[6] + r * t7;
    let t5: int = w[5] + r * t6;
    let t4: int = w[4] + r * t5;
    let t3: int = w[3] + r * t4;
    let t2: int = w[2] + r * t3;
    let t1: int = w[1] + r * t2;
    let t0: int = w[0] + r * t1;
    assert(t0 == n);
    lemma_radix_digits(w[0] as int, t1);
    lemma_radix_digits(w[1] as int, t2);
    lemma_radix_digits(w[2] as int, t3);
    lemma_radix_digits(w[3] as int, t4);
    lemma_radix_digits(w[4] as int, t5);
    lemma_radix_digits(w[5] as int, t6);
    lemma_radix_digits(w[6] as int, t7);
    lemma_radix_digits(w[7] as int, 0);
    vstd::bytes::lemma_auto_spec_u64_to_from_le_bytes();
    let b0 = bytes.subrange(0, 8);
    let b1 = bytes.subrange(8, 16);
    let b2 = bytes.subrange(16, 24);
    let b3 = bytes.subrange(24, 32);
    let b4 = bytes.subrange(32, 40);
    let b5 = bytes.subrange(40, 48);
    let b6 = bytes.subrange(48, 56);
    let b7 = bytes.subrange(56, 64);
    assert(vstd::bytes::spec_u64_to_le_bytes(vstd::bytes::spec_u64_from_le_bytes(b0)) == b0);
    assert(vstd::bytes::spec_u64_to_le_bytes(vstd::bytes::spec_u64_from_le_bytes(b1)) == b1);
    assert(vstd::bytes::spec_u64_to_le_bytes(vstd::bytes::spec_u64_from_le_bytes(b2)) == b2);
    assert(vstd::bytes::spec_u64_to_le_bytes(vstd::bytes::spec_u64_from_le_bytes(b3)) == b3);
    assert(vstd::bytes::spec_u64_to_le_bytes(vstd::bytes::spec_u64_from_le_bytes(b4)) == b4);
    assert(vstd::bytes::spec_u64_to_le_bytes(vstd::bytes::spec_u64_from_le_bytes(b5)) == b5);
    assert(vstd::bytes::spec_u64_to_le_bytes(vstd::bytes::spec_u64_from_le_bytes(b6)) == b6);
    assert(vstd::bytes::spec_u64_to_le_bytes(vstd::bytes::spec_u64_from_le_bytes(b7)) == b7);
    assert(w[0] == vstd::bytes::spec_u64_from_le_bytes(b0));
    assert(w[1] == vstd::bytes::spec_u64_from_le_bytes(b1));
    assert(w[2] == vstd::bytes::spec_u64_from_le_bytes(b2));
    assert(w[3] == vstd::bytes::spec_u64_from_le_bytes(b3));
    assert(w[4] == vstd::bytes::spec_u64_from_le_bytes(b4));
    assert(w[5] == vstd::bytes::spec_u64_from_le_bytes(b5));
    assert(w[6] == vstd::bytes::spec_u64_from_le_bytes(b6));
    assert(w[7] == vstd::bytes::spec_u64_from_le_bytes(b7));
    reveal_with_fuel(words_to_le_bytes, 9);
    assert(nat_to_le_bytes(n) =~= b0 + b1 + b2 + b3 + b4 + b5 + b6 + b7);
    assert(b0 + b1 + b2 + b3 + b4 + b5 + b6 + b7 =~= bytes);
}

/// An unsigned 512-bit integer, held as eight 64-bit words.
#[derive(Clone, Copy, Debug)]
pub struct U512 {
    pub(crate) words: [u64; 8],
}

impl View for U512 {
    type V = nat;

    open(crate) spec fn view(&self) -> nat {
        words_value(self.words@)
    }
}

impl U512 {
    /// The integer that a 64-bit integer widens to.
    pub closed spec fn spec_from_u64(value: u64) -> U512 {
        U512 { words: [value, 0, 0, 0, 0, 0, 0, 0] }
    }

    /// Every value is below 2^512.
    pub proof fn lemma_bound(self)
        ensures
            self@ < modulus(),
    {
        lemma_words_value_bound(self.words@);
    }

    /// Two values are the same exactly when they denote the same number.
    pub proof fn lemma_view_injective(self, other: U512)
        ensures
            (self@ == other@) <==> (self == other),
    {
        if self@ == other@ {
            lemma_words_value_injective(self.words@, other.words@);
            assert(self.words =~= other.words);
        }
    }

    /// The value that denotes `n`, for `n` below 2^512.
    pub closed spec fn from_nat(n: nat) -> U512 {
        choose|u: U512| u@ == n
    }

    /// `from_nat` inverts the view.
    pub proof fn lemma_from_nat(self)
        ensures
            Self::from_nat(self@) == self,
    {
        let c = Self::from_nat(self@);
        assert(c@ == self@);
        c.lemma_view_injective(self);
    }

    /// The words of a number below 2^512.
    pub closed spec fn words_of(n: nat) -> [u64; 8] {
        let r: int = 0x1_0000_0000_0000_0000;
        let m: int = n as int;
        let q1 = m / r;
        let q2 = q1 / r;
        let q3 = q2 / r;
        let q4 = q3 / r;
        let q5 = q4 / r;
        let q6 = q5 / r;
        let q7 = q6 / r;
        [
            (m % r) as u64,
            (q1 % r) as u64,
            (q2 % r) as u64,
            (q3 % r) as u64,
            (q4 % r) as u64,
            (q5 % r) as u64,
            (q6 % r) as u64,
            (q7 % r) as u64,
        ]
    }

    /// `from_nat` gives the value that denotes the number.
    pub proof fn lemma_from_nat_view(n: nat)
        requires
            n < modulus(),
        ensures
            Self::from_nat(n)@ == n,
    {
        let r: int = 0x1_0000_0000_0000_0000;
        let m: int = n as int;
        let q1 = m / r;
        let q2 = q1 / r;
        let q3 = q2 / r;
        let q4 = q3 / r;
        let q5 = q4 / r;
        let q6 = q5 / r;
        let q7 = q6 / r;
        vstd::arithmetic::div_mod::lemma_fundamental_div_mod(m, r);
        vstd::arithmetic::div_mod::lemma_fundamental_div_mod(q1, r);
        vstd::arithmetic::div_mod::lemma_fundamental_div_mod(q2, r);
        vstd::arithmetic::div_mod::lemma_fundamental_div_mod(q3, r);
        vstd::arithmetic::div_mod::lemma_fundamental_div_mod(q4, r);
        vstd::arithmetic::div_mod::lemma_fundamental_div_mod(q5, r);
        vstd::arithmetic::div_mod::lemma_fundamental_div_mod(q6, r);
        vstd::arithmetic::div_mod::lemma_fundamental_div_mod(q7, r);
        assert(q7 < r);
        let u = U512 { words: Self::words_of(n) };
        let w = u.words@;
        assert(w[0] == m % r && w[1] == q1 % r && w[2] == q2 % r && w[3] == q3 % r && w[4] == q4
            % r && w[5] == q5 % r && w[6] == q6 % r && w[7] == q7 % r);
        assert(u@ == n);
    }

    /// -1, 0 or 1 as the value is below, equal to or above `other`.
    pub fn compare(&self, other: &U512) -> (r: i8)
        ensures
            r == -1 <==> self@ < other@,
            r == 0 <==> self@ == other@,
            r == 1 <==> self@ > other@,
    {
        let mut i: usize = 8;
        while i > 0
            invariant
                i <= 8,
                forall|j: int| i <= j < 8 ==> self.words@[j] == other.words@[j],
            decreases i,
        {
            i = i - 1;
            if self.words[i] < other.words[i] {
                proof {
                    lemma_words_value_order(self.words@, other.words@, i as int);
                }
                return -1;
            }
            if self.words[i] > other.words[i] {
                proof {
                    lemma_words_value_order(other.words@, self.words@, i as int);
                }
                return 1;
            }
        }
        assert(self.words@ =~= other.words@);
        0
    }

    /// The integer zero.
    pub fn zero() -> (r: U512)
        ensures
            r@ == 0,
    {
        U512 { words: [0, 0, 0, 0, 0, 0, 0, 0] }
    }

    /// The largest value, 2^512 - 1.
    pub fn max_value() -> (r: U512)
        ensures
            r@ == modulus() - 1,
    {
        let m: u64 = 0xffff_ffff_ffff_ffff;
        let r = U512 { words: [m, m, m, m, m, m, m, m] };
        assert(r.words@[0] == m && r.words@[1] == m && r.words@[2] == m && r.words@[3] == m
            && r.words@[4] == m && r.words@[5] == m && r.words@[6] == m && r.words@[7] == m);
        r
    }

    /// Widens a 64-bit integer.
    pub fn from_u64(value: u64) -> (r: U512)
        ensures
            r@ == value,
            r == Self::spec_from_u64(value),
    {
        let r = U512 { words: [value, 0, 0, 0, 0, 0, 0, 0] };
        assert(r.words =~= Self::spec_from_u64(value).words);
        r
    }

    /// Whether the value is zero.
    pub fn is_zero(&self) -> (r: bool)
        ensures
            r == (self@ == 0),
    {
        self.words[0] == 0 && self.words[1] == 0 && self.words[2] == 0 && self.words[3] == 0
            && self.words[4] == 0 && self.words[5] == 0 && self.words[6] == 0 && self.words[7]
            == 0
    }

    /// Whether the value fits in 64 bits.
    pub fn fits_u64(&self) -> (r: bool)
        ensures
            r == (self@ <= u64::MAX),
    {
        self.words[1] == 0 && self.words[2] == 0 && self.words[3] == 0 && self.words[4] == 0
            && self.words[5] == 0 && self.words[6] == 0 && self.words[7] == 0
    }

    /// The value as a 64-bit integer.
    pub fn as_u64(&self) -> (r: u64)
        requires
            self@ <= u64::MAX,
        ensures
            r == self@,
    {
        self.words[0]
    }

    /// The sum modulo 2^512, and whether the exact sum reached 2^512.
    pub fn overflowing_add(self, other: U512) -> (r: (U512, bool))
        ensures
            r.0@ == (self@ + other@) % modulus(),
            r.1 == (self@ + other@ >= modulus()),
            !r.1 ==> r.0@ == self@ + other@,
    {
        let (sum, overflow) = words_overflowing_add(self.words, other.words);
        proof {
            if !overflow {
                vstd::arithmetic::div_mod::lemma_small_mod(self@ + other@, modulus());
            }
        }
        (U512 { words: sum }, overflow)
    }

    /// The difference modulo 2^512, and whether `other` is the larger.
    pub fn overflowing_sub(self, other: U512) -> (r: (U512, bool))
        ensures
            r.0@ == (self@ - other@) % (modulus() as int),
            r.1 == (self@ < other@),
            !r.1 ==> r.0@ == self@ - other@,
    {
        let (difference, overflow) = words_overflowing_sub(self.words, other.words);
        proof {
            if !overflow {
                self.lemma_bound();
                vstd::arithmetic::div_mod::lemma_small_mod((self@ - other@) as nat, modulus());
            }
        }
        (U512 { words: difference }, overflow)
    }

    /// The product modulo 2^512, and whether the exact product reached 2^512.
    pub fn overflowing_mul(self, other: U512) -> (r: (U512, bool))
        ensures
            r.0@ == (self@ * other@) % modulus(),
            r.1 == (self@ * other@ >= modulus()),
            !r.1 ==> r.0@ == self@ * other@,
    {
        let (product, overflow) = words_overflowing_mul(self.words, other.words);
        proof {
            if !overflow {
                vstd::arithmetic::div_mod::lemma_small_mod(self@ * other@, modulus());
            }
        }
        (U512 { words: product }, overflow)
    }

    /// The quotient and the remainder of the division by a non-zero divisor.
    pub fn div_mod(self, other: U512) -> (r: (U512, U512))
        requires
            other@ != 0,
        ensures
            r.0@ == self@ / other@,
            r.1@ == self@ % other@,
    {
        let (quotient, remainder) = words_div_mod(self.words, other.words);
        (U512 { words: quotient }, U512 { words: remainder })
    }

    /// The sum, or `None` where it does not fit in 512 bits.
    pub fn checked_add(self, other: U512) -> (r: Option<U512>)
        ensures
            self@ + other@ < modulus() ==> r.is_some() && r.unwrap()@ == self@ + other@,
            self@ + other@ >= modulus() ==> r.is_none(),
    {
        let (sum, overflow) = self.overflowing_add(other);
        if overflow {
            None
        } else {
            Some(sum)
        }
    }

    /// The product, or `None` where it does not fit in 512 bits.
    pub fn checked_mul(self, other: U512) -> (r: Option<U512>)
        ensures
            self@ * other@ < modulus() ==> r.is_some() && r.unwrap()@ == self@ * other@,
            self@ * other@ >= modulus() ==> r.is_none(),
    {
        let (product, overflow) = self.overflowing_mul(other);
        if overflow {
            None
        } else {
            Some(product)
        }
    }

    /// Writes the 64 bytes of the value, least significant byte first.
    pub fn write_le_bytes(&self, out: &mut Vec<u8>)
        ensures
            final(out)@ == old(out)@ + nat_to_le_bytes(self@),
    {
        let ghost w = self.words@;
        let ghost r: int = 0x1_0000_0000_0000_0000;
        let ghost t7: int = w[7] as int;
        let ghost t6: int = w[6] + r * t7;
        let ghost t5: int = w[5] + r * t6;
        let ghost t4: int = w[4] + r * t5;
        let ghost t3: int = w[3] + r * t4;
        let ghost t2: int = w[2] + r * t3;
        let ghost t1: int = w[1] + r * t2;
        let ghost t0: int = w[0] + r * t1;
        proof {
            assert(t0 == self@);
            lemma_radix_digits(w[0] as int, t1);
            lemma_radix_digits(w[1] as int, t2);
            lemma_radix_digits(w[2] as int, t3);
            lemma_radix_digits(w[3] as int, t4);
            lemma_radix_digits(w[4] as int, t5);
            lemma_radix_digits(w[5] as int, t6);
            lemma_radix_digits(w[6] as int, t7);
            lemma_radix_digits(w[7] as int, 0);
            reveal_with_fuel(words_to_le_bytes, 9);
            assert(nat_to_le_bytes(self@) =~= vstd::bytes::spec_u64_to_le_bytes(w[0])
                + vstd::bytes::spec_u64_to_le_bytes(w[1]) + vstd::bytes::spec_u64_to_le_bytes(
                w[2],
            ) + vstd::bytes::spec_u64_to_le_bytes(w[3]) + vstd::bytes::spec_u64_to_le_bytes(w[4])
                + vstd::bytes::spec_u64_to_le_bytes(w[5]) + vstd::bytes::spec_u64_to_le_bytes(
                w[6],
            ) + vstd::bytes::spec_u64_to_le_bytes(w[7]));
        }
        let mut i: usize = 0;
        while i < 8
            invariant
                i <= 8,
                w == self.words@,
                out@ == old(out)@ + word_bytes(w, i as int),
            decreases 8 - i,
        {
            let bytes = vstd::bytes::u64_to_le_bytes(self.words[i]);
            out.extend_from_slice(bytes.as_slice());
            proof {
                reveal_with_fuel(word_bytes, 2);
                assert(out@ =~= old(out)@ + word_bytes(w, i + 1));
            }
            i = i + 1;
        }
        proof {
            reveal_with_fuel(word_bytes, 9);
            assert(out@ =~= old(out)@ + nat_to_le_bytes(self@));
        }
    }

    /// Reads the 64 bytes of a value, least significant byte first.
    pub fn read_le_bytes(data: &[u8], pos: usize) -> (r: Option<(U512, usize)>)
        ensures
            match r {
                Some((value, end)) => pos + 64 <= data@.len() && end == pos + 64 && value@
                    == le_bytes_to_nat(data@.subrange(pos as int, pos + 64)),
                None => !(pos + 64 <= data@.len()),
            },
    {
        if !(pos <= data.len() && data.len() - pos >= 64) {
            return None;
        }
        let mut words: [u64; 8] = [0, 0, 0, 0, 0, 0, 0, 0];
        let ghost bytes = data@.subrange(pos as int, pos + 64);
        let mut i: usize = 0;
        while i < 8
            invariant
                i <= 8,
                pos + 64 <= data@.len(),
                pos + 64 <= usize::MAX,
                bytes == data@.subrange(pos as int, pos + 64),
                forall|j: int| 0 <= j < i ==> words@[j] == le_bytes_to_words(bytes)[j],
            decreases 8 - i,
        {
            let word = vstd::bytes::u64_from_le_bytes(
                vstd::slice::slice_subrange(data, pos + 8 * i, pos + 8 * i + 8),
            );
            proof {
                assert(data@.subrange(pos + 8 * i, pos + 8 * i + 8) =~= bytes.subrange(
                    8 * i,
                    8 * i + 8,
                ));
            }
            words[i] = word;
            i = i + 1;
        }
        assert(words@ =~= le_bytes_to_words(bytes));
        Some((U512 { words }, pos + 64))
    }

    /// The decimal numeral of the value.
    pub fn to_string(&self) -> (s: String)
        ensures
            s@ == decimal_digits(self@),
    {
        words_to_decimal(self.words)
    }
}

impl PartialEq for U512 {
    fn eq(&self, other: &U512) -> (r: bool) {
        proof {
            self.lemma_view_injective(*other);
        }
        self.words[0] == other.words[0] && self.words[1] == other.words[1] && self.words[2]
            == other.words[2] && self.words[3] == other.words[3] && self.words[4]
            == other.words[4] && self.words[5] == other.words[5] && self.words[6]
            == other.words[6] && self.words[7] == other.words[7]
    }
}

impl Eq for U512 {

}

impl vstd::std_specs::cmp::PartialEqSpecImpl for U512 {
    open spec fn obeys_eq_spec() -> bool {
        true
    }

    open spec fn eq_spec(&self, other: &U512) -> bool {
        self@ == other@
    }
}

impl PartialOrd for U512 {
    fn partial_cmp(&self, other: &U512) -> (r: Option<Ordering>) {
        let c = self.compare(other);
        if c < 0 {
            Some(Ordering::Less)
        } else if c == 0 {
            Some(Ordering::Equal)
        } else {
            Some(Ordering::Greater)
        }
    }
}

impl vstd::std_specs::cmp::PartialOrdSpecImpl for U512 {
    open spec fn obeys_partial_cmp_spec() -> bool {
        true
    }

    open spec fn partial_cmp_spec(&self, other: &U512) -> Option<Ordering> {
        if self@ < other@ {
            Some(Ordering::Less)
        } else if self@ == other@ {
            Some(Ordering::Equal)
        } else {
            Some(Ordering::Greater)
        }
    }
}

impl From<u64> for U512 {
    fn from(value: u64) -> (r: U512)
        ensures
            r@ == value,
    {
        U512::from_u64(value)
    }
}

impl vstd::std_specs::convert::FromSpecImpl<u64> for U512 {
    open spec fn obeys_from_spec() -> bool {
        true
    }

    open spec fn from_spec(value: u64) -> U512 {
        U512::spec_from_u64(value)
    }
}

impl Default for U512 {
    fn default() -> (r: U512)
        ensures
            r@ == 0,
    {
        U512::zero()
    }
}

} // verus!
