//! The mathematical model of the wire format: big-endian byte strings as
//! natural numbers, two's-complement signed values, the canonical (shortest
//! sign-preserving) form that `mpint` mandates, and bit lengths.

use vstd::prelude::*;

verus! {

/// 256 raised to `k`: the number of values a `k`-byte string can hold.
pub open spec fn pow256(k: nat) -> nat
    decreases k,
{
    if k == 0 {
        1
    } else {
        256 * pow256((k - 1) as nat)
    }
}

/// The natural number a big-endian byte string denotes.
pub open spec fn be_value(b: Seq<u8>) -> nat
    decreases b.len(),
{
    if b.len() == 0 {
        0
    } else {
        be_value(b.drop_last()) * 256 + b.last() as nat
    }
}

/// The `k`-byte big-endian encoding of `n` (of `n % 256^k` when `n` is larger).
pub open spec fn be_bytes(n: nat, k: nat) -> Seq<u8>
    decreases k,
{
    if k == 0 {
        Seq::empty()
    } else {
        be_bytes(n / 256, (k - 1) as nat).push((n % 256) as u8)
    }
}

pub proof fn lemma_be_bytes_len(n: nat, k: nat)
    ensures
        be_bytes(n, k).len() == k,
    decreases k,
{
    if k > 0 {
        lemma_be_bytes_len(n / 256, (k - 1) as nat);
    }
}

/// The signed value of a big-endian two's-complement byte string;
/// the empty string denotes zero.
pub open spec fn twos_complement(b: Seq<u8>) -> int {
    if b.len() > 0 && b[0] >= 0x80 {
        be_value(b) - pow256(b.len())
    } else {
        be_value(b) as int
    }
}

/// The shortest sign-preserving two's-complement form: a leading zero byte
/// only where the next byte would flip the sign, a leading `0xff` byte only
/// where dropping it would flip the sign, and zero as the empty string.
pub open spec fn is_canonical_mpint(b: Seq<u8>) -> bool {
    b.len() == 0 || {
        &&& b[0] == 0x00 ==> b.len() >= 2 && b[1] >= 0x80
        &&& b[0] == 0xff ==> b.len() == 1 || b[1] < 0x80
    }
}

/// How many bits are needed to write `n`: zero for zero, otherwise one more
/// than the index of the highest set bit.
pub open spec fn bit_len(n: nat) -> nat
    decreases n,
{
    if n == 0 {
        0
    } else {
        1 + bit_len(n / 2)
    }
}

/// 2 raised to `k`.
pub open spec fn pow2(k: nat) -> nat
    decreases k,
{
    if k == 0 {
        1
    } else {
        2 * pow2((k - 1) as nat)
    }
}

pub proof fn lemma_pow2_pos(k: nat)
    ensures
        pow2(k) >= 1,
    decreases k,
{
    if k > 0 {
        lemma_pow2_pos((k - 1) as nat);
    }
}

pub proof fn lemma_pow2_adds(a: nat, b: nat)
    ensures
        pow2(a + b) == pow2(a) * pow2(b),
    decreases a,
{
    if a == 0 {
        assert(pow2(0 + b) == 1 * pow2(b));
    } else {
        lemma_pow2_adds((a - 1) as nat, b);
        assert(pow2(a) * pow2(b) == 2 * (pow2((a - 1) as nat) * pow2(b))) by (nonlinear_arith)
            requires
                pow2(a) == 2 * pow2((a - 1) as nat),
        ;
    }
}

pub proof fn lemma_pow2_small()
    ensures
        pow2(8) == 256,
{
    assert(pow2(0) == 1);
    assert(pow2(1) == 2);
    assert(pow2(2) == 4);
    assert(pow2(3) == 8);
    assert(pow2(4) == 16);
    assert(pow2(5) == 32);
    assert(pow2(6) == 64);
    assert(pow2(7) == 128);
    assert(pow2(8) == 256);
}

/// A byte is eight bits.
pub proof fn lemma_pow256_is_pow2(k: nat)
    ensures
        pow256(k) == pow2(8 * k),
    decreases k,
{
    if k > 0 {
        lemma_pow256_is_pow2((k - 1) as nat);
        lemma_pow2_adds(8, 8 * (k - 1) as nat);
        lemma_pow2_small();
        assert(8 * k == 8 + 8 * (k - 1) as nat);
    }
}

/// Writing `x` before `k` further bits takes `k` more bits than writing
/// `x` alone.
pub proof fn lemma_bit_len_shift(x: nat, y: nat, k: nat)
    requires
        x >= 1,
        y < pow2(k),
    ensures
        bit_len(x * pow2(k) + y) == bit_len(x) + k,
    decreases k,
{
    if k == 0 {
        assert(x * 1 == x) by (nonlinear_arith);
    } else {
        let p1 = pow2((k - 1) as nat);
        lemma_pow2_pos((k - 1) as nat);
        assert(pow2(k) == 2 * p1);
        let z = x * pow2(k) + y;
        vstd::arithmetic::div_mod::lemma_fundamental_div_mod(y as int, 2);
        let yh = y / 2;
        let yr = y % 2;
        assert(z == 2 * (x * p1 + yh) + yr) by (nonlinear_arith)
            requires
                z == x * (2 * p1) + y,
                y == 2 * yh + yr,
        ;
        vstd::arithmetic::div_mod::lemma_fundamental_div_mod_converse(
            z as int,
            2,
            (x * p1 + yh) as int,
            yr as int,
        );
        assert(z / 2 == x * p1 + yh);
        assert(z >= 1) by (nonlinear_arith)
            requires
                z == x * (2 * p1) + y,
                x >= 1,
                p1 >= 1,
                y >= 0,
        ;
        assert(yh < p1) by (nonlinear_arith)
            requires
                y == 2 * yh + yr,
                y < 2 * p1,
                0 <= yr < 2,
        ;
        lemma_bit_len_shift(x, yh, (k - 1) as nat);
        assert(bit_len(z) == 1 + bit_len(z / 2));
    }
}

/// How many base-256 digits are needed to write `n`: zero for zero.
pub open spec fn byte_len(n: nat) -> nat
    decreases n,
{
    if n == 0 {
        0
    } else {
        1 + byte_len(n / 256)
    }
}

/// A positive number needs exactly the digits between two neighbouring
/// powers.
pub proof fn lemma_byte_len_bounds(n: nat)
    requires
        n >= 1,
    ensures
        byte_len(n) >= 1,
        pow256((byte_len(n) - 1) as nat) <= n < pow256(byte_len(n)),
    decreases n,
{
    let q = n / 256;
    vstd::arithmetic::div_mod::lemma_fundamental_div_mod(n as int, 256);
    if q == 0 {
        assert(byte_len(q) == 0);
        assert(byte_len(n) == 1);
        assert(pow256(0) == 1 && pow256(1) == 256);
    } else {
        assert(q < n) by (nonlinear_arith)
            requires
                n == 256 * q + n % 256,
                q >= 1,
                n % 256 >= 0,
        ;
        lemma_byte_len_bounds(q);
        let l = byte_len(q);
        assert(byte_len(n) == 1 + l);
        assert(pow256(l) == 256 * pow256((l - 1) as nat));
        assert(pow256((l + 1) as nat) == 256 * pow256(l));
        assert(pow256((l - 1) as nat) <= q < pow256(l));
        assert(256 * pow256((l - 1) as nat) <= n < 256 * pow256(l)) by (nonlinear_arith)
            requires
                n == 256 * q + n % 256,
                0 <= n % 256 < 256,
                pow256((l - 1) as nat) <= q < pow256(l),
        ;
    }
}

/// The length of a string with no leading zero byte is the digit count of
/// its value.
pub proof fn lemma_byte_len_of_value(b: Seq<u8>)
    requires
        b.len() > 0 ==> b[0] != 0,
    ensures
        byte_len(be_value(b)) == b.len(),
{
    if b.len() == 0 {
    } else {
        let p = pow256((b.len() - 1) as nat);
        lemma_pow256_pos((b.len() - 1) as nat);
        lemma_be_value_first(b);
        lemma_be_value_bound(b);
        assert(be_value(b) >= p) by (nonlinear_arith)
            requires
                be_value(b) == b[0] * p + be_value(b.skip(1)),
                b[0] >= 1,
                be_value(b.skip(1)) >= 0,
                p >= 1,
        ;
        lemma_byte_len_bounds(be_value(b));
        let l = byte_len(be_value(b));
        if l < b.len() {
            lemma_pow256_increases(l, (b.len() - 1) as nat);
            assert(false);
        }
        if l > b.len() {
            lemma_pow256_increases(b.len(), (l - 1) as nat);
            assert(false);
        }
    }
}

pub proof fn lemma_pow256_pos(k: nat)
    ensures
        pow256(k) >= 1,
    decreases k,
{
    if k > 0 {
        lemma_pow256_pos((k - 1) as nat);
    }
}

pub proof fn lemma_pow256_adds(a: nat, b: nat)
    ensures
        pow256(a + b) == pow256(a) * pow256(b),
    decreases a,
{
    if a == 0 {
        assert(pow256(0 + b) == 1 * pow256(b));
    } else {
        lemma_pow256_adds((a - 1) as nat, b);
        assert(pow256(a + b) == 256 * pow256(((a + b) - 1) as nat));
        assert(pow256(a) * pow256(b) == 256 * (pow256((a - 1) as nat) * pow256(b)))
            by (nonlinear_arith)
            requires
                pow256(a) == 256 * pow256((a - 1) as nat),
        ;
    }
}

pub proof fn lemma_be_value_bound(b: Seq<u8>)
    ensures
        be_value(b) < pow256(b.len()),
    decreases b.len(),
{
    if b.len() > 0 {
        lemma_be_value_bound(b.drop_last());
        assert(be_value(b.drop_last()) * 256 + b.last() < 256 * pow256((b.len() - 1) as nat))
            by (nonlinear_arith)
            requires
                be_value(b.drop_last()) < pow256((b.len() - 1) as nat),
                b.last() < 256,
        ;
    }
}

/// Concatenation shifts the left part by the width of the right part.
pub proof fn lemma_be_value_concat(a: Seq<u8>, b: Seq<u8>)
    ensures
        be_value(a + b) == be_value(a) * pow256(b.len()) + be_value(b),
    decreases b.len(),
{
    if b.len() == 0 {
        assert(a + b =~= a);
        assert(pow256(0) == 1);
        assert(be_value(a) * 1 == be_value(a)) by (nonlinear_arith);
    } else {
        lemma_be_value_concat(a, b.drop_last());
        assert((a + b).drop_last() =~= a + b.drop_last());
        assert((a + b).last() == b.last());
        let x = be_value(a);
        let y = be_value(b.drop_last());
        let p = pow256((b.len() - 1) as nat);
        assert(pow256(b.len()) == 256 * p);
        assert(be_value(a + b) == (x * p + y) * 256 + b.last());
        assert((x * p + y) * 256 == x * (256 * p) + y * 256) by (nonlinear_arith);
        assert(be_value(b) == y * 256 + b.last());
    }
}

/// Reading the value from the front: the first byte carries `256^(len-1)`.
pub proof fn lemma_be_value_first(b: Seq<u8>)
    requires
        b.len() > 0,
    ensures
        be_value(b) == b[0] * pow256((b.len() - 1) as nat) + be_value(b.skip(1)),
{
    let head = seq![b[0]];
    assert(head + b.skip(1) =~= b);
    lemma_be_value_concat(head, b.skip(1));
    assert(be_value(head) == be_value(head.drop_last()) * 256 + head.last());
    assert(be_value(head) == b[0]);
}

/// Encoding a value below `256^k` and reading it back is the identity.
pub proof fn lemma_be_bytes_value(n: nat, k: nat)
    requires
        n < pow256(k),
    ensures
        be_bytes(n, k).len() == k,
        be_value(be_bytes(n, k)) == n,
    decreases k,
{
    if k == 0 {
    } else {
        let q = n / 256;
        let r = n % 256;
        vstd::arithmetic::div_mod::lemma_fundamental_div_mod(n as int, 256);
        assert(n == 256 * q + r);
        assert(q < pow256((k - 1) as nat)) by (nonlinear_arith)
            requires
                n < pow256(k),
                pow256(k) == 256 * pow256((k - 1) as nat),
                n == 256 * q + r,
                r >= 0,
        ;
        lemma_be_bytes_value(q, (k - 1) as nat);
        let e = be_bytes(n, k);
        assert(e.drop_last() =~= be_bytes(q, (k - 1) as nat));
        assert(e.last() == r as u8);
        assert(be_value(e) == q * 256 + r);
    }
}

/// A byte string is recovered from its value and its length.
pub proof fn lemma_be_bytes_of_value(b: Seq<u8>)
    ensures
        be_bytes(be_value(b), b.len()) =~= b,
    decreases b.len(),
{
    if b.len() > 0 {
        let n = be_value(b);
        let hi = be_value(b.drop_last());
        lemma_be_bytes_of_value(b.drop_last());
        assert(n == hi * 256 + b.last());
        assert(n / 256 == hi && n % 256 == b.last()) by (nonlinear_arith)
            requires
                n == hi * 256 + b.last(),
                0 <= b.last() < 256,
                hi >= 0,
        ;
        assert(be_bytes(n, b.len()).drop_last() =~= be_bytes(hi, (b.len() - 1) as nat));
    }
}

/// Two byte strings of one length with one value are the same string.
pub proof fn lemma_be_value_injective(a: Seq<u8>, b: Seq<u8>)
    requires
        a.len() == b.len(),
        be_value(a) == be_value(b),
    ensures
        a =~= b,
{
    lemma_be_bytes_of_value(a);
    lemma_be_bytes_of_value(b);
}

/// The first byte is the value's highest base-256 digit.
pub proof fn lemma_be_value_first_byte(b: Seq<u8>)
    requires
        b.len() > 0,
    ensures
        b[0] == be_value(b) / pow256((b.len() - 1) as nat),
{
    lemma_be_value_first(b);
    lemma_be_value_bound(b.skip(1));
    let p = pow256((b.len() - 1) as nat);
    lemma_pow256_pos((b.len() - 1) as nat);
    assert(be_value(b) / p == b[0]) by (nonlinear_arith)
        requires
            p >= 1,
            be_value(b) == b[0] * p + be_value(b.skip(1)),
            0 <= be_value(b.skip(1)) < p,
    ;
}

/// Small powers written out, for the fixed-width integer codecs.
pub proof fn lemma_pow256_small()
    ensures
        pow256(0) == 1,
        pow256(1) == 0x100,
        pow256(2) == 0x1_0000,
        pow256(3) == 0x100_0000,
        pow256(4) == 0x1_0000_0000,
{
    assert(pow256(0) == 1);
    assert(pow256(1) == 0x100);
    assert(pow256(2) == 0x1_0000);
    assert(pow256(3) == 0x100_0000);
    assert(pow256(4) == 0x1_0000_0000);
}

/// The value of a four-byte string, written as nested Horner steps.
pub proof fn lemma_be_value_4(s: Seq<u8>)
    requires
        s.len() == 4,
    ensures
        be_value(s) == ((s[0] * 256 + s[1]) * 256 + s[2]) * 256 + s[3],
        be_value(s) < 0x1_0000_0000,
{
    let s3 = s.drop_last();
    let s2 = s3.drop_last();
    let s1 = s2.drop_last();
    let s0 = s1.drop_last();
    assert(s0 =~= Seq::empty());
    assert(be_value(s0) == 0);
    assert(be_value(s1) == s[0]);
    assert(be_value(s2) == s[0] * 256 + s[1]);
    assert(be_value(s3) == (s[0] * 256 + s[1]) * 256 + s[2]);
    lemma_pow256_small();
    lemma_be_value_bound(s);
}

/// The value of an eight-byte string, split into two four-byte halves.
pub proof fn lemma_be_value_8(s: Seq<u8>)
    requires
        s.len() == 8,
    ensures
        be_value(s) == (((s[0] * 256 + s[1]) * 256 + s[2]) * 256 + s[3]) * 0x1_0000_0000 + (((s[4]
            * 256 + s[5]) * 256 + s[6]) * 256 + s[7]),
        be_value(s) < 0x1_0000_0000_0000_0000,
{
    let a = s.take(4);
    let b = s.skip(4);
    assert(a + b =~= s);
    lemma_be_value_concat(a, b);
    lemma_pow256_small();
    lemma_be_value_4(a);
    lemma_be_value_4(b);
    assert(be_value(s) == be_value(a) * 0x1_0000_0000 + be_value(b));
}

/// An encoding splits at any byte boundary into the encodings of the
/// quotient and the remainder by that boundary's power.
pub proof fn lemma_be_bytes_split(n: nat, a: nat, b: nat)
    ensures
        be_bytes(n, a + b) =~= be_bytes(n / pow256(b), a) + be_bytes(n % pow256(b), b),
    decreases b,
{
    if b == 0 {
        assert(pow256(0) == 1);
        assert(n / 1 == n) by (nonlinear_arith);
        assert(n % 1 == 0) by (nonlinear_arith);
        assert(be_bytes(n % pow256(0), 0) =~= Seq::empty());
        assert(be_bytes(n / pow256(0), a) + Seq::empty() =~= be_bytes(n, a));
    } else {
        let p = pow256(b);
        let p1 = pow256((b - 1) as nat);
        lemma_pow256_pos((b - 1) as nat);
        assert(p == 256 * p1);
        vstd::arithmetic::div_mod::lemma_breakdown(n as int, 256, p1 as int);
        vstd::arithmetic::div_mod::lemma_div_denominator(n as int, 256, p1 as int);
        lemma_be_bytes_split(n / 256, a, (b - 1) as nat);
        let q = (n / 256) % p1;
        let r = n % 256;
        vstd::arithmetic::div_mod::lemma_fundamental_div_mod_converse(
            (n % p) as int,
            256,
            q as int,
            r as int,
        );
        assert((n % p) / 256 == q);
        assert((n % p) % 256 == r);
        assert(be_bytes(n % p, b) =~= be_bytes(q, (b - 1) as nat).push(r as u8));
        assert(be_bytes(n, a + b) =~= be_bytes(n / 256, a + (b - 1) as nat).push(r as u8));
        assert(be_bytes(n / p, a) + be_bytes(n % p, b) =~= (be_bytes(n / p, a) + be_bytes(
            q,
            (b - 1) as nat,
        )).push(r as u8));
    }
}

/// The four base-256 digits of a value below `256^4`.
pub proof fn lemma_be_bytes_4(n: nat)
    requires
        n < 0x1_0000_0000,
    ensures
        be_bytes(n, 4) =~= seq![
            (n / 0x100_0000) as u8,
            ((n / 0x1_0000) % 0x100) as u8,
            ((n / 0x100) % 0x100) as u8,
            (n % 0x100) as u8,
        ],
{
    vstd::arithmetic::div_mod::lemma_div_denominator(n as int, 0x100, 0x100);
    vstd::arithmetic::div_mod::lemma_div_denominator(n as int, 0x1_0000, 0x100);
    assert((n / 0x100) / 0x100 == n / 0x1_0000);
    assert((n / 0x1_0000) / 0x100 == n / 0x100_0000);
    assert(n / 0x100_0000 < 0x100) by (nonlinear_arith)
        requires
            n < 0x1_0000_0000,
    ;
    vstd::arithmetic::div_mod::lemma_small_mod((n / 0x100_0000) as nat, 0x100);
    assert(be_bytes((n / 0x100_0000) / 0x100, 0) =~= Seq::<u8>::empty());
    assert(be_bytes(n / 0x100_0000, 1) =~= seq![(n / 0x100_0000) as u8]);
    assert(be_bytes(n / 0x1_0000, 2) =~= seq![
        (n / 0x100_0000) as u8,
        ((n / 0x1_0000) % 0x100) as u8,
    ]);
    assert(be_bytes(n / 0x100, 3) =~= seq![
        (n / 0x100_0000) as u8,
        ((n / 0x1_0000) % 0x100) as u8,
        ((n / 0x100) % 0x100) as u8,
    ]);
}

pub proof fn lemma_pow256_increases(a: nat, b: nat)
    requires
        a <= b,
    ensures
        pow256(a) <= pow256(b),
    decreases b,
{
    if a < b {
        lemma_pow256_increases(a, (b - 1) as nat);
        lemma_pow256_pos((b - 1) as nat);
    }
}

pub proof fn lemma_div_ge(x: int, d: int, a: int)
    requires
        d > 0,
        a * d <= x,
    ensures
        x / d >= a,
{
    vstd::arithmetic::div_mod::lemma_fundamental_div_mod(x, d);
    assert(x / d >= a) by (nonlinear_arith)
        requires
            x == d * (x / d) + x % d,
            0 <= x % d < d,
            a * d <= x,
            d > 0,
    ;
}

pub proof fn lemma_div_lt(x: int, d: int, a: int)
    requires
        d > 0,
        0 <= x < a * d,
    ensures
        x / d < a,
{
    vstd::arithmetic::div_mod::lemma_fundamental_div_mod(x, d);
    assert(x / d < a) by (nonlinear_arith)
        requires
            x == d * (x / d) + x % d,
            0 <= x % d < d,
            0 <= x < a * d,
            d > 0,
    ;
}

/// A byte string denotes zero exactly when every byte is zero.
pub proof fn lemma_be_value_zero(b: Seq<u8>)
    ensures
        (be_value(b) == 0) <==> (forall|k: int| 0 <= k < b.len() ==> b[k] == 0),
    decreases b.len(),
{
    if b.len() > 0 {
        lemma_be_value_zero(b.drop_last());
        if be_value(b) == 0 {
            assert(forall|k: int| 0 <= k < b.len() - 1 ==> b.drop_last()[k] == b[k]);
        } else {
            if forall|k: int| 0 <= k < b.len() ==> b[k] == 0 {
                assert(forall|k: int| 0 <= k < b.len() - 1 ==> b.drop_last()[k] == 0);
                assert(be_value(b.drop_last()) == 0);
                assert(b.last() == 0);
            }
        }
    }
}

/// A leading zero byte does not change the value.
pub proof fn lemma_be_value_leading_zero(b: Seq<u8>)
    requires
        b.len() > 0,
        b[0] == 0,
    ensures
        be_value(b) == be_value(b.skip(1)),
{
    lemma_be_value_first(b);
}

} // verus!
