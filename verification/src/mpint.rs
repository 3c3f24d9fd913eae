//! Multi-precision signed integers. A value is held as a sign and a
//! big-endian magnitude with no leading zero byte, so every integer has
//! exactly one representation and semantically equal values are equal byte
//! for byte. On the wire an `mpint` is a `string` whose content is the
//! two's-complement big-endian form, canonical (shortest sign-preserving;
//! zero is the empty string).

use vstd::pervasive::VecAdditionalExecFns;
use vstd::prelude::*;

use crate::bytes::{
    be_bytes, be_value, is_canonical_mpint, lemma_be_bytes_of_value, lemma_be_bytes_value,
    lemma_be_value_bound,
    lemma_be_value_first, lemma_be_value_first_byte, lemma_be_value_injective,
    lemma_be_value_leading_zero, lemma_div_ge, lemma_div_lt, lemma_pow256_increases,
    lemma_pow256_pos, pow256, twos_complement,
};
use crate::error::Error;
use crate::unpack::{Unpack, Unpacker};

verus! {

/// A signed big integer in its unique sign-magnitude form.
#[derive(Debug)]
pub struct Mpint {
    neg: bool,
    mag: Vec<u8>,
}

impl View for Mpint {
    type V = int;

    closed spec fn view(&self) -> int {
        if self.neg {
            -(be_value(self.mag@) as int)
        } else {
            be_value(self.mag@) as int
        }
    }
}

impl Mpint {
    /// The magnitude carries no leading zero byte and zero is never negative.
    pub closed spec fn wf(&self) -> bool {
        &&& self.mag@.len() > 0 ==> self.mag@[0] != 0
        &&& self.neg ==> self.mag@.len() > 0
    }

    /// How many bytes the magnitude takes.
    pub closed spec fn spec_mag_len(&self) -> nat {
        self.mag@.len()
    }

    /// The canonical two's-complement content bytes of this value: the
    /// shortest sign-preserving form, with zero as the empty string.
    pub closed spec fn spec_content(&self) -> Seq<u8> {
        let n = self.mag@.len();
        if n == 0 {
            Seq::empty()
        } else if !self.neg {
            if self.mag@[0] >= 0x80 {
                seq![0u8] + self.mag@
            } else {
                self.mag@
            }
        } else {
            if 2 * be_value(self.mag@) <= pow256(n) {
                be_bytes((pow256(n) - be_value(self.mag@)) as nat, n)
            } else {
                be_bytes((pow256(n + 1) - be_value(self.mag@)) as nat, n + 1)
            }
        }
    }

    /// The value zero.
    pub fn zero() -> (m: Mpint)
        ensures
            m.wf(),
            m@ == 0,
            m.spec_mag_len() == 0,
    {
        let m = Mpint { neg: false, mag: Vec::new() };
        m
    }

    /// The value of a machine integer.
    pub fn from_i64(v: i64) -> (m: Mpint)
        ensures
            m.wf(),
            m@ == v as int,
            m.spec_mag_len() <= 8,
    {
        let neg = v < 0;
        let mag_val: u64 = if v < 0 {
            (-(v as i128)) as u64
        } else {
            v as u64
        };
        let mut packer = crate::pack::Packer::new();
        packer.pack(mag_val);
        let eight = packer.inner();
        proof {
            crate::bytes::lemma_pow256_small();
            crate::bytes::lemma_pow256_adds(4, 4);
            crate::bytes::lemma_be_bytes_value(mag_val as nat, 8);
            assert(be_value(eight@) == mag_val);
        }
        let mag = strip_leading_zeros(&eight);
        let m = Mpint { neg, mag };
        m
    }
}

impl Mpint {
    /// The bit length of this value's magnitude: zero for zero, otherwise
    /// one more than the index of the highest set bit.
    pub fn magnitude_bits(&self) -> (r: u64)
        requires
            self.wf(),
            self.spec_mag_len() <= u32::MAX,
        ensures
            r == crate::bytes::bit_len(
                if self@ < 0 {
                    (-self@) as nat
                } else {
                    self@ as nat
                },
            ),
    {
        let n = self.mag.len();
        if n == 0 {
            proof {
                assert(be_value(self.mag@) == 0);
                assert(crate::bytes::bit_len(0) == 0);
            }
            0
        } else {
            let mut b = self.mag[0];
            let mut c: u64 = 0;
            proof {
                crate::bytes::lemma_pow2_small();
            }
            while b > 0
                invariant
                    c <= 8,
                    (b as nat) < crate::bytes::pow2((8 - c) as nat),
                    c + crate::bytes::bit_len(b as nat) == crate::bytes::bit_len(
                        self.mag@[0] as nat,
                    ),
                decreases b,
            {
                proof {
                    crate::bytes::lemma_pow2_pos((8 - c) as nat);
                    assert(8 - c >= 1) by {
                        if 8 - c == 0 {
                            assert(crate::bytes::pow2(0) == 1);
                        }
                    }
                    assert(crate::bytes::pow2((8 - c) as nat) == 2 * crate::bytes::pow2(
                        (8 - c - 1) as nat,
                    ));
                    crate::bytes::lemma_div_lt(
                        b as int,
                        2,
                        crate::bytes::pow2((8 - c - 1) as nat) as int,
                    );
                }
                b = b / 2;
                c = c + 1;
            }
            proof {
                crate::bytes::lemma_pow256_is_pow2((n - 1) as nat);
                lemma_be_value_first(self.mag@);
                lemma_be_value_bound(self.mag@.skip(1));
                crate::bytes::lemma_bit_len_shift(
                    self.mag@[0] as nat,
                    be_value(self.mag@.skip(1)),
                    (8 * (n - 1)) as nat,
                );
            }
            8 * (n as u64 - 1) + c
        }
    }
}

/// Drop every leading zero byte; the value is unchanged.
fn strip_leading_zeros(v: &Vec<u8>) -> (out: Vec<u8>)
    ensures
        be_value(out@) == be_value(v@),
        out@.len() > 0 ==> out@[0] != 0,
        out@.len() <= v@.len(),
        out@.len() == 0 ==> be_value(v@) == 0,
{
    let n = v.len();
    let mut i: usize = 0;
    proof {
        assert(v@.skip(0) =~= v@);
    }
    while i < n && v[i] == 0
        invariant
            i <= n,
            n == v@.len(),
            be_value(v@.skip(i as int)) == be_value(v@),
        decreases n - i,
    {
        proof {
            lemma_be_value_leading_zero(v@.skip(i as int));
            assert(v@.skip(i as int).skip(1) =~= v@.skip(i + 1));
        }
        i = i + 1;
    }
    let mut out: Vec<u8> = Vec::new();
    let mut j: usize = i;
    while j < n
        invariant
            i <= j <= n,
            n == v@.len(),
            out@ =~= v@.subrange(i as int, j as int),
        decreases n - j,
    {
        out.push(v[j]);
        j = j + 1;
    }
    proof {
        assert(out@ =~= v@.skip(i as int));
        if i == n {
            assert(v@.skip(i as int) =~= Seq::<u8>::empty());
            assert(be_value(Seq::<u8>::empty()) == 0);
        }
    }
    out
}

/// The two's-complement negation over a fixed width: the returned string has
/// the same length and the complementary value `256^len - value`.
fn negate_be(v: &Vec<u8>) -> (out: Vec<u8>)
    requires
        be_value(v@) >= 1,
    ensures
        out@.len() == v@.len(),
        be_value(out@) == pow256(v@.len()) - be_value(v@),
{
    let n = v.len();
    let mut out: Vec<u8> = Vec::new();
    let mut k: usize = 0;
    while k < n
        invariant
            k <= n,
            n == v@.len(),
            out@.len() == k,
        decreases n - k,
    {
        out.push(0);
        k = k + 1;
    }
    let mut carry: u8 = 1;
    let mut i: usize = n;
    proof {
        assert(out@.skip(n as int) =~= Seq::<u8>::empty());
        assert(v@.skip(n as int) =~= Seq::<u8>::empty());
        assert(be_value(Seq::<u8>::empty()) == 0);
    }
    while i > 0
        invariant
            i <= n,
            n == v@.len(),
            out@.len() == n,
            carry <= 1,
            be_value(out@.skip(i as int)) + (carry as int) * pow256((n - i) as nat) == pow256(
                (n - i) as nat,
            ) - be_value(v@.skip(i as int)),
        decreases i,
    {
        i = i - 1;
        let t: u16 = (255 - v[i]) as u16 + carry as u16;
        let o: u8 = (t % 256) as u8;
        let c2: u8 = (t / 256) as u8;
        let ghost prev = out@;
        let ghost c1 = carry;
        out.set(i, o);
        proof {
            let p = pow256((n - i - 1) as nat);
            let sv = be_value(v@.skip(i + 1));
            let so = be_value(prev.skip(i + 1));
            assert(pow256((n - i) as nat) == 256 * p);
            assert(out@.skip(i + 1) =~= prev.skip(i + 1));
            lemma_be_value_first(out@.skip(i as int));
            assert(out@.skip(i as int).skip(1) =~= out@.skip(i + 1));
            assert(out@.skip(i as int)[0] == o);
            lemma_be_value_first(v@.skip(i as int));
            assert(v@.skip(i as int).skip(1) =~= v@.skip(i + 1));
            assert(v@.skip(i as int)[0] == v@[i as int]);
            vstd::arithmetic::div_mod::lemma_fundamental_div_mod(t as int, 256);
            assert(o + 256 * c2 == 255 - v@[i as int] + c1);
            assert(be_value(out@.skip(i as int)) == o * p + so);
            assert(be_value(v@.skip(i as int)) == v@[i as int] * p + sv);
            assert(o * p + so + c2 * (256 * p) == 256 * p - (v@[i as int] * p + sv))
                by (nonlinear_arith)
                requires
                    so + c1 * p == p - sv,
                    o + 256 * c2 == 255 - v@[i as int] + c1,
            ;
        }
        carry = c2;
    }
    proof {
        assert(out@.skip(0) =~= out@);
        assert(v@.skip(0) =~= v@);
        if carry == 1 {
            lemma_be_value_bound(out@);
            assert(false);
        }
    }
    out
}

/// Read an `mpint` value off its two's-complement content bytes, into the
/// unique representation. Any content is accepted, canonical or not.
pub fn from_twos_complement(content: &Vec<u8>) -> (m: Mpint)
    ensures
        m.wf(),
        m@ == twos_complement(content@),
        m.spec_mag_len() <= content@.len(),
        m.spec_content().len() <= content@.len(),
{
    let n = content.len();
    if n == 0 {
        let m = Mpint::zero();
        proof {
            lemma_content_properties(&m);
        }
        m
    } else if content[0] < 0x80 {
        let mag = strip_leading_zeros(content);
        let m = Mpint { neg: false, mag };
        proof {
            lemma_content_properties(&m);
            lemma_canonical_minimal(m.spec_content(), content@);
        }
        m
    } else {
        proof {
            lemma_be_value_first(content@);
            lemma_pow256_pos((content@.len() - 1) as nat);
            assert(content@[0] * pow256((content@.len() - 1) as nat) >= 1 * 1)
                by (nonlinear_arith)
                requires
                    content@[0] >= 1,
                    pow256((content@.len() - 1) as nat) >= 1,
            ;
            lemma_be_value_bound(content@);
        }
        let flipped = negate_be(content);
        let mag = strip_leading_zeros(&flipped);
        let m = Mpint { neg: true, mag };
        proof {
            assert(be_value(flipped@) >= 1);
            lemma_content_properties(&m);
            lemma_canonical_minimal(m.spec_content(), content@);
        }
        m
    }
}

/// The canonical content of a well-formed value is canonical, denotes the
/// value, and is at most one byte longer than the magnitude.
pub proof fn lemma_content_properties(m: &Mpint)
    requires
        m.wf(),
    ensures
        is_canonical_mpint(m.spec_content()),
        twos_complement(m.spec_content()) == m@,
        m.spec_content().len() <= m.spec_mag_len() + 1,
{
    let mag = m.mag@;
    let n = mag.len();
    let c = m.spec_content();
    if n == 0 {
        assert(be_value(c) == 0);
    } else {
        let p = pow256((n - 1) as nat);
        lemma_pow256_pos((n - 1) as nat);
        lemma_be_value_first(mag);
        lemma_be_value_bound(mag);
        lemma_be_value_bound(mag.skip(1));
        let uv = be_value(mag);
        let rest = be_value(mag.skip(1));
        assert(uv >= p && uv >= 1) by (nonlinear_arith)
            requires
                uv == mag[0] * p + rest,
                mag[0] >= 1,
                rest >= 0,
                p >= 1,
        ;
        assert(pow256(n) == 256 * p);
        if !m.neg {
            if mag[0] >= 0x80 {
                assert(c =~= seq![0u8] + mag);
                assert(c[0] == 0 && c[1] == mag[0] && c.len() == n + 1);
                lemma_be_value_leading_zero(c);
                assert(c.skip(1) =~= mag);
                assert(twos_complement(c) == uv);
            } else {
                assert(c =~= mag);
                assert(c[0] != 0 && c[0] < 0x80);
            }
        } else {
            if 2 * uv <= pow256(n) {
                let nn = (pow256(n) - uv) as nat;
                lemma_be_bytes_value(nn, n);
                assert(c =~= be_bytes(nn, n));
                assert(c.len() == n && be_value(c) == nn);
                assert(nn >= 128 * p && nn <= 255 * p) by (nonlinear_arith)
                    requires
                        nn == 256 * p - uv,
                        p <= uv,
                        2 * uv <= 256 * p,
                ;
                lemma_be_value_first_byte(c);
                lemma_div_ge(nn as int, p as int, 128);
                assert(c[0] >= 0x80);
                assert(twos_complement(c) == nn - 256 * p == -(uv as int));
                if c[0] == 0xff {
                    // only the boundary value -256^(n-1) has a 0xff top byte,
                    // and there the next byte is zero
                    let pi = p as int;
                    let q = nn as int / pi;
                    let r = nn as int % pi;
                    vstd::arithmetic::div_mod::lemma_fundamental_div_mod(nn as int, pi);
                    assert(q == c[0] == 255);
                    assert(nn >= 255 * p) by (nonlinear_arith)
                        requires
                            nn == pi * q + r,
                            r >= 0,
                            q == 255,
                            pi == p,
                    ;
                    if n >= 2 {
                        lemma_be_value_first(c);
                        assert(be_value(c.skip(1)) == nn - c[0] * p);
                        assert(nn == 255 * p);
                        assert(be_value(c.skip(1)) == 0);
                        lemma_be_value_first_byte(c.skip(1));
                        lemma_pow256_pos((n - 2) as nat);
                        lemma_div_lt(0, pow256((n - 2) as nat) as int, 1);
                        assert(c.skip(1)[0] == 0);
                        assert(c[1] == 0);
                    }
                }
            } else {
                let nn = (pow256(n + 1) - uv) as nat;
                assert(pow256(n + 1) == 256 * pow256(n));
                assert(pow256(n + 1) == 65536 * p);
                lemma_pow256_increases(n, n + 1);
                lemma_be_bytes_value(nn, n + 1);
                assert(c =~= be_bytes(nn, n + 1));
                assert(c.len() == n + 1 && be_value(c) == nn);
                assert(65280 * p <= nn < 65408 * p) by (nonlinear_arith)
                    requires
                        nn == 65536 * p - uv,
                        2 * uv > 256 * p,
                        uv < 256 * p,
                ;
                lemma_be_value_first_byte(c);
                assert(pow256(n) == 256 * p);
                lemma_div_ge(nn as int, pow256(n) as int, 255);
                lemma_div_lt(nn as int, pow256(n) as int, 256);
                assert(255 * pow256(n) == 65280 * p && 256 * pow256(n) == 65536 * p)
                    by (nonlinear_arith)
                    requires
                        pow256(n) == 256 * p,
                ;
                assert(c[0] == 0xff);
                lemma_be_value_first(c);
                assert(be_value(c.skip(1)) == nn - 255 * pow256(n));
                assert(be_value(c.skip(1)) < 128 * p) by (nonlinear_arith)
                    requires
                        be_value(c.skip(1)) == nn - 65280 * p,
                        nn < 65408 * p,
                ;
                lemma_be_value_first_byte(c.skip(1));
                lemma_div_lt(be_value(c.skip(1)) as int, p as int, 128);
                assert(c.skip(1)[0] == c[1]);
                assert(c[1] < 0x80);
                assert(twos_complement(c) == nn - pow256(n + 1) == -(uv as int));
            }
        }
    }
}

/// Two canonical content strings that denote one value are the same string:
/// the canonical form is unique. This is what makes fingerprints
/// reproducible across re-encodings.
pub proof fn lemma_canonical_injective(a: Seq<u8>, b: Seq<u8>)
    requires
        is_canonical_mpint(a),
        is_canonical_mpint(b),
        twos_complement(a) == twos_complement(b),
    ensures
        a =~= b,
{
    let v = twos_complement(a);
    if a.len() == 0 || b.len() == 0 {
        if a.len() > 0 {
            lemma_canonical_bounds(a);
            assert(false);
        }
        if b.len() > 0 {
            lemma_canonical_bounds(b);
            assert(false);
        }
    } else {
        lemma_canonical_bounds(a);
        lemma_canonical_bounds(b);
        let na = a.len();
        let nb = b.len();
        if v >= 1 {
            // positive: the length windows [256^(n-1)/2, 256^n/2) are disjoint
            if na < nb {
                lemma_pow256_increases(na, (nb - 1) as nat);
                assert(false);
            }
            if nb < na {
                lemma_pow256_increases(nb, (na - 1) as nat);
                assert(false);
            }
            lemma_be_value_injective(a, b);
        } else {
            // negative: the windows [-256^n/2, -256^(n-1)/2) are disjoint
            if na < nb {
                lemma_pow256_increases(na, (nb - 1) as nat);
                assert(false);
            }
            if nb < na {
                lemma_pow256_increases(nb, (na - 1) as nat);
                assert(false);
            }
            lemma_be_value_injective(a, b);
        }
    }
}

/// Where a canonical string's value lies, by its sign, first byte and
/// length: the windows that make the canonical form unique.
proof fn lemma_canonical_bounds(b: Seq<u8>)
    requires
        is_canonical_mpint(b),
        b.len() > 0,
    ensures
        b[0] < 0x80 ==> {
            &&& twos_complement(b) >= 1
            &&& 2 * twos_complement(b) < pow256(b.len())
            &&& b.len() >= 2 ==> 2 * twos_complement(b) >= pow256((b.len() - 1) as nat)
        },
        b[0] >= 0x80 ==> {
            &&& twos_complement(b) <= -1
            &&& 2 * twos_complement(b) + pow256(b.len()) >= 0
            &&& b.len() >= 2 ==> 2 * twos_complement(b) + pow256((b.len() - 1) as nat) < 0
        },
        b[0] < 0x80 ==> twos_complement(b) == be_value(b),
        b[0] >= 0x80 ==> twos_complement(b) == be_value(b) - pow256(b.len()),
{
    let n = b.len();
    let p = pow256((n - 1) as nat);
    let v = twos_complement(b);
    lemma_pow256_pos((n - 1) as nat);
    lemma_be_value_first(b);
    lemma_be_value_bound(b);
    lemma_be_value_bound(b.skip(1));
    let uv = be_value(b);
    let rest = be_value(b.skip(1));
    assert(pow256(n) == 256 * p);
    if b[0] < 0x80 {
        if b[0] == 0 {
            // canonical: n >= 2 and b[1] >= 0x80
            let q = pow256((n - 2) as nat);
            lemma_pow256_pos((n - 2) as nat);
            lemma_be_value_first(b.skip(1));
            lemma_be_value_bound(b.skip(1).skip(1));
            assert(b.skip(1).skip(1) =~= b.skip(2));
            assert(p == 256 * q);
            assert(uv == rest);
            assert(rest >= 128 * q && rest < 256 * q) by (nonlinear_arith)
                requires
                    rest == b.skip(1)[0] * q + be_value(b.skip(2)),
                    b.skip(1)[0] >= 128,
                    b.skip(1)[0] <= 255,
                    0 <= be_value(b.skip(2)) < q,
            ;
            assert(2 * uv >= 256 * q == p);
            assert(2 * uv < 512 * q && 512 * q <= 256 * p) by (nonlinear_arith)
                requires
                    uv < 256 * q,
                    p == 256 * q,
            ;
        } else {
            assert(uv >= p && 2 * uv >= p) by (nonlinear_arith)
                requires
                    uv == b[0] * p + rest,
                    b[0] >= 1,
                    rest >= 0,
                    p >= 1,
            ;
            assert(2 * uv < 256 * p) by (nonlinear_arith)
                requires
                    uv == b[0] * p + rest,
                    b[0] <= 127,
                    0 <= rest < p,
            ;
        }
    } else {
        assert(v == uv - 256 * p);
        assert(uv >= 128 * p) by (nonlinear_arith)
            requires
                uv == b[0] * p + rest,
                b[0] >= 128,
                rest >= 0,
        ;
        assert(2 * v + 256 * p >= 0) by (nonlinear_arith)
            requires
                v == uv - 256 * p,
                uv >= 128 * p,
        ;
        assert(v <= -1);
        if n >= 2 {
            if b[0] == 0xff {
                // canonical: b[1] < 0x80
                let q = pow256((n - 2) as nat);
                lemma_pow256_pos((n - 2) as nat);
                lemma_be_value_first(b.skip(1));
                lemma_be_value_bound(b.skip(1).skip(1));
                assert(b.skip(1).skip(1) =~= b.skip(2));
                assert(p == 256 * q);
                assert(rest < 128 * q) by (nonlinear_arith)
                    requires
                        rest == b.skip(1)[0] * q + be_value(b.skip(2)),
                        b.skip(1)[0] <= 127,
                        0 <= be_value(b.skip(2)) < q,
                ;
                assert(2 * uv < 511 * p) by (nonlinear_arith)
                    requires
                        uv == 255 * p + rest,
                        2 * rest < 256 * q,
                        p == 256 * q,
                ;
                assert(2 * v + p < 0) by (nonlinear_arith)
                    requires
                        v == uv - 256 * p,
                        2 * uv < 511 * p,
                ;
            } else {
                assert(uv <= 254 * p + rest && rest < p) by (nonlinear_arith)
                    requires
                        uv == b[0] * p + rest,
                        b[0] <= 254,
                        0 <= rest < p,
                ;
                assert(2 * v + p < 0) by (nonlinear_arith)
                    requires
                        v == uv - 256 * p,
                        uv < 255 * p,
                ;
            }
        }
    }
}

/// Any two's-complement string bounds its value by its width:
/// `-256^len <= 2v < 256^len`.
proof fn lemma_tc_range(b: Seq<u8>)
    ensures
        2 * twos_complement(b) < pow256(b.len()),
        2 * twos_complement(b) >= -pow256(b.len()),
{
    let n = b.len();
    if n == 0 {
        assert(pow256(0) == 1);
    } else {
        let p = pow256((n - 1) as nat);
        lemma_pow256_pos((n - 1) as nat);
        lemma_be_value_first(b);
        lemma_be_value_bound(b.skip(1));
        let uv = be_value(b);
        let rest = be_value(b.skip(1));
        assert(pow256(n) == 256 * p);
        if b[0] < 0x80 {
            assert(2 * uv < 256 * p) by (nonlinear_arith)
                requires
                    uv == b[0] * p + rest,
                    b[0] <= 127,
                    0 <= rest < p,
            ;
        } else {
            assert(2 * (uv - 256 * p) >= -(256 * p) && uv - 256 * p < 0) by (nonlinear_arith)
                requires
                    uv == b[0] * p + rest,
                    128 <= b[0] <= 255,
                    0 <= rest < p,
                    p >= 1,
            ;
        }
    }
}

/// The canonical form is the shortest two's-complement form of its value.
proof fn lemma_canonical_minimal(c: Seq<u8>, b: Seq<u8>)
    requires
        is_canonical_mpint(c),
        twos_complement(c) == twos_complement(b),
    ensures
        c.len() <= b.len(),
{
    if c.len() > 0 {
        lemma_canonical_bounds(c);
        lemma_tc_range(b);
        let v = twos_complement(c);
        if b.len() == 0 {
            assert(be_value(b) == 0);
            assert(false);
        }
        if c.len() > b.len() {
            lemma_pow256_increases(b.len(), (c.len() - 1) as nat);
            if c.len() >= 2 {
                assert(false);
            } else {
                assert(false);
            }
        }
    }
}

impl Unpack for Mpint {
    /// A `string` whose content is read as two's complement.
    open spec fn spec_unpack(data: Seq<u8>) -> Result<(int, int), Error> {
        match <Vec<u8>>::spec_unpack(data) {
            Ok(p) => Ok((twos_complement(p.0), p.1)),
            Err(e) => Err(e),
        }
    }

    fn unpack(u: &mut Unpacker) -> (r: Result<Self, Error>) {
        Mpint::decode(u)
    }
}

impl Mpint {
    /// Decode one `mpint`, carrying besides the value the representation
    /// facts that a later canonical re-encoding needs.
    pub fn decode(u: &mut Unpacker) -> (r: Result<Mpint, Error>)
        requires
            old(u).wf(),
        ensures
            final(u).wf(),
            match Mpint::spec_unpack(old(u).remaining()) {
                Ok(p) => {
                    &&& r matches Ok(m) && m@ == p.0
                    &&& r matches Ok(m) && m.wf() && m.spec_content().len() <= u32::MAX
                    &&& r matches Ok(m) && m.spec_mag_len() <= u32::MAX
                    &&& 0 <= p.1 <= old(u).remaining().len()
                    &&& final(u).remaining() == old(u).remaining().skip(p.1)
                },
                Err(e) => r matches Err(e2) && e2 == e,
            },
    {
        match u.unpack::<Vec<u8>>() {
            Ok(content) => Ok(from_twos_complement(&content)),
            Err(e) => Err(e),
        }
    }
}

impl crate::pack::Pack for &Mpint {
    /// Well-formed, with a content the wire's length prefix can carry.
    open spec fn packable(self) -> bool {
        self.wf() && self.spec_content().len() <= u32::MAX
    }

    /// A `string` whose content is the canonical two's-complement form.
    open spec fn spec_pack(self) -> Seq<u8> {
        be_bytes(self.spec_content().len(), 4) + self.spec_content()
    }

    fn pack(self, packer: &mut crate::pack::Packer) {
        proof {
            lemma_content_properties(self);
        }
        let n = self.mag.len();
        if n == 0 {
            packer.pack(0u32);
            proof {
                assert(self.spec_content() =~= Seq::<u8>::empty());
                assert(packer@ =~= old(packer)@ + self.spec_pack());
            }
        } else if !self.neg {
            if self.mag[0] >= 0x80 {
                let len = n + 1;
                packer.pack(len as u32);
                packer.write_byte(0);
                packer.write_bytes(self.mag.as_slice());
                proof {
                    assert(self.spec_content() =~= seq![0u8] + self.mag@);
                    assert(packer@ =~= old(packer)@ + self.spec_pack());
                }
            } else {
                packer.pack(self.mag.as_slice());
                proof {
                    assert(self.spec_content() =~= self.mag@);
                    assert(packer@ =~= old(packer)@ + self.spec_pack());
                }
            }
        } else {
            let wide = complement_widens(&self.mag);
            proof {
                lemma_pow256_pos((n - 1) as nat);
                lemma_be_value_first(self.mag@);
                lemma_be_value_bound(self.mag@);
                lemma_be_value_bound(self.mag@.skip(1));
                assert(be_value(self.mag@) >= 1) by (nonlinear_arith)
                    requires
                        be_value(self.mag@) == self.mag@[0] * pow256((n - 1) as nat) + be_value(
                            self.mag@.skip(1),
                        ),
                        self.mag@[0] >= 1,
                        be_value(self.mag@.skip(1)) >= 0,
                        pow256((n - 1) as nat) >= 1,
                ;
            }
            if wide {
                let mut ext: Vec<u8> = Vec::new();
                ext.push(0);
                ext.extend_from_slice(self.mag.as_slice());
                proof {
                    assert(ext@ =~= seq![0u8] + self.mag@);
                    lemma_be_value_leading_zero(ext@);
                    assert(ext@.skip(1) =~= self.mag@);
                    crate::bytes::lemma_be_bytes_len(
                        (pow256((n + 1) as nat) - be_value(self.mag@)) as nat,
                        (n + 1) as nat,
                    );
                    assert(self.spec_content().len() == n + 1);
                }
                let out = negate_be(&ext);
                packer.pack(out.as_slice());
                proof {
                    crate::bytes::lemma_be_bytes_of_value(out@);
                    assert(out@ =~= self.spec_content());
                    assert(packer@ =~= old(packer)@ + self.spec_pack());
                }
            } else {
                proof {
                    crate::bytes::lemma_be_bytes_len(
                        (pow256(n as nat) - be_value(self.mag@)) as nat,
                        n as nat,
                    );
                    assert(self.spec_content().len() == n);
                }
                let out = negate_be(&self.mag);
                packer.pack(out.as_slice());
                proof {
                    crate::bytes::lemma_be_bytes_of_value(out@);
                    assert(out@ =~= self.spec_content());
                    assert(packer@ =~= old(packer)@ + self.spec_pack());
                }
            }
        }
    }
}

/// Whether the two's-complement form of the negated magnitude needs one
/// byte more than the magnitude itself: exactly when the value lies beyond
/// the half-way point of the magnitude's width.
fn complement_widens(mag: &Vec<u8>) -> (r: bool)
    requires
        mag@.len() > 0,
        mag@[0] != 0,
    ensures
        r <==> 2 * be_value(mag@) > pow256(mag@.len()),
{
    let n = mag.len();
    proof {
        lemma_pow256_pos((n - 1) as nat);
        lemma_be_value_first(mag@);
        lemma_be_value_bound(mag@.skip(1));
    }
    if mag[0] > 0x80 {
        proof {
            assert(2 * be_value(mag@) > pow256(n as nat)) by (nonlinear_arith)
                requires
                    be_value(mag@) == mag@[0] * pow256((n - 1) as nat) + be_value(mag@.skip(1)),
                    mag@[0] >= 129,
                    be_value(mag@.skip(1)) >= 0,
                    pow256((n - 1) as nat) >= 1,
                    pow256(n as nat) == 256 * pow256((n - 1) as nat),
            ;
        }
        true
    } else if mag[0] < 0x80 {
        proof {
            assert(2 * be_value(mag@) <= pow256(n as nat)) by (nonlinear_arith)
                requires
                    be_value(mag@) == mag@[0] * pow256((n - 1) as nat) + be_value(mag@.skip(1)),
                    mag@[0] <= 127,
                    be_value(mag@.skip(1)) < pow256((n - 1) as nat),
                    pow256(n as nat) == 256 * pow256((n - 1) as nat),
            ;
        }
        false
    } else {
        // top byte 0x80: widen exactly when some lower byte is set
        let mut any = false;
        let mut j: usize = 1;
        while j < n
            invariant
                1 <= j <= n,
                n == mag@.len(),
                any == exists|k: int| 1 <= k < j && mag@[k] != 0,
            decreases n - j,
        {
            if mag[j] != 0 {
                any = true;
                proof {
                    assert(1 <= j < j + 1 && mag@[j as int] != 0);
                }
            }
            j = j + 1;
        }
        proof {
            crate::bytes::lemma_be_value_zero(mag@.skip(1));
            assert(forall|k: int| 0 <= k < n - 1 ==> mag@.skip(1)[k] == mag@[k + 1]);
            if any {
                let k = choose|k: int| 1 <= k < n && mag@[k] != 0;
                assert(mag@.skip(1)[k - 1] != 0);
                assert(be_value(mag@.skip(1)) != 0);
            } else {
                assert(forall|k: int| 0 <= k < n - 1 ==> mag@.skip(1)[k] == 0);
                assert(be_value(mag@.skip(1)) == 0);
            }
            assert(2 * be_value(mag@) > pow256(n as nat) <==> be_value(mag@.skip(1)) != 0)
                by (nonlinear_arith)
                requires
                    be_value(mag@) == 128 * pow256((n - 1) as nat) + be_value(mag@.skip(1)),
                    pow256(n as nat) == 256 * pow256((n - 1) as nat),
                    be_value(mag@.skip(1)) >= 0,
            ;
        }
        any
    }
}

/// The canonical two's-complement content of an integer value, written
/// over the value alone.
pub open spec fn spec_mpint_content(v: int) -> Seq<u8> {
    let m = if v < 0 {
        (-v) as nat
    } else {
        v as nat
    };
    let l = crate::bytes::byte_len(m);
    let mag = be_bytes(m, l);
    if v == 0 {
        Seq::empty()
    } else if v > 0 {
        if mag[0] >= 0x80 {
            seq![0u8] + mag
        } else {
            mag
        }
    } else {
        if 2 * m <= pow256(l) {
            be_bytes((pow256(l) - m) as nat, l)
        } else {
            be_bytes((pow256(l + 1) - m) as nat, l + 1)
        }
    }
}

/// A well-formed value's content is the content of the integer it denotes.
pub proof fn lemma_content_of_value(m: &Mpint)
    requires
        m.wf(),
    ensures
        m.spec_content() == spec_mpint_content(m@),
{
    let mag = m.mag@;
    let uv = be_value(mag);
    crate::bytes::lemma_byte_len_of_value(mag);
    lemma_be_bytes_of_value(mag);
    if mag.len() == 0 {
        assert(m@ == 0);
    } else {
        lemma_mag_nonzero(m);
        assert(uv >= 1);
        let mv = if m@ < 0 {
            (-m@) as nat
        } else {
            m@ as nat
        };
        assert(mv == uv);
        assert(crate::bytes::byte_len(mv) == mag.len());
        assert(be_bytes(mv, crate::bytes::byte_len(mv)) =~= mag);
    }
}

/// The canonical content is a function of the value alone: two well-formed
/// equal values have byte-identical contents, whatever bytes each was
/// parsed from.
pub proof fn lemma_value_determines_content(m1: &Mpint, m2: &Mpint)
    requires
        m1.wf(),
        m2.wf(),
        m1@ == m2@,
    ensures
        m1.spec_content() == m2.spec_content(),
{
    lemma_content_properties(m1);
    lemma_content_properties(m2);
    lemma_canonical_injective(m1.spec_content(), m2.spec_content());
}

/// Re-encoding the value read from a canonical content string reproduces
/// that string exactly.
pub proof fn lemma_canonical_reencode(m: &Mpint, content: Seq<u8>)
    requires
        m.wf(),
        is_canonical_mpint(content),
        m@ == twos_complement(content),
    ensures
        m.spec_content() == content,
{
    lemma_content_properties(m);
    lemma_canonical_injective(m.spec_content(), content);
}

/// Byte-string equality.
pub(crate) fn bytes_eq(a: &Vec<u8>, b: &Vec<u8>) -> (r: bool)
    ensures
        r == (a@ == b@),
{
    if a.len() != b.len() {
        return false;
    }
    let mut i: usize = 0;
    while i < a.len()
        invariant
            i <= a@.len(),
            a@.len() == b@.len(),
            forall|k: int| 0 <= k < i ==> a@[k] == b@[k],
        decreases a@.len() - i,
    {
        if a[i] != b[i] {
            return false;
        }
        i = i + 1;
    }
    proof {
        assert(a@ =~= b@);
    }
    true
}

impl PartialEq for Mpint {
    /// Value equality; because the representation is unique this is plain
    /// field equality.
    fn eq(&self, other: &Self) -> (r: bool) {
        let same_mag = bytes_eq(&self.mag, &other.mag);
        let r = self.neg == other.neg && same_mag;
        proof {
            assert(same_mag == (self.mag@ == other.mag@));
            assert(r == (self.neg == other.neg && self.mag@ == other.mag@));
        }
        r
    }
}

impl vstd::std_specs::cmp::PartialEqSpecImpl for Mpint {
    open spec fn obeys_eq_spec() -> bool {
        true
    }

    open spec fn eq_spec(&self, other: &Mpint) -> bool {
        self.spec_fields_eq(other)
    }
}

impl Mpint {
    /// What `==` compares: the unique representation, field by field.
    pub closed spec fn spec_fields_eq(&self, other: &Mpint) -> bool {
        self.neg == other.neg && self.mag@ == other.mag@
    }
}

/// Because the representation is unique, `==` on well-formed values means
/// equality of the integers they denote.
pub proof fn lemma_eq_is_value_eq(m1: &Mpint, m2: &Mpint)
    requires
        m1.wf(),
        m2.wf(),
    ensures
        m1.spec_fields_eq(m2) <==> m1@ == m2@,
{
    if m1.spec_fields_eq(m2) {
    } else {
        if m1@ == m2@ {
            lemma_mag_nonzero(m1);
            lemma_mag_nonzero(m2);
            if m1@ == 0 {
                assert(m1.mag@ =~= m2.mag@);
            } else {
                assert(m1.neg == m2.neg);
                assert(be_value(m1.mag@) == be_value(m2.mag@));
                lemma_mag_unique(m1.mag@, m2.mag@);
            }
            assert(false);
        }
    }
}

/// A well-formed magnitude is empty exactly for the value zero, and a
/// negative value has a negative view.
proof fn lemma_mag_nonzero(m: &Mpint)
    requires
        m.wf(),
    ensures
        m.mag@.len() > 0 ==> be_value(m.mag@) >= 1,
        m@ == 0 <==> m.mag@.len() == 0,
{
    if m.mag@.len() > 0 {
        lemma_be_value_first(m.mag@);
        lemma_pow256_pos((m.mag@.len() - 1) as nat);
        assert(be_value(m.mag@) >= 1) by (nonlinear_arith)
            requires
                be_value(m.mag@) == m.mag@[0] * pow256((m.mag@.len() - 1) as nat) + be_value(
                    m.mag@.skip(1),
                ),
                m.mag@[0] >= 1,
                be_value(m.mag@.skip(1)) >= 0,
                pow256((m.mag@.len() - 1) as nat) >= 1,
        ;
    }
}

/// Two magnitudes without leading zeros that denote one number are the
/// same bytes.
proof fn lemma_mag_unique(a: Seq<u8>, b: Seq<u8>)
    requires
        a.len() > 0 ==> a[0] != 0,
        b.len() > 0 ==> b[0] != 0,
        be_value(a) == be_value(b),
    ensures
        a =~= b,
{
    if a.len() > 0 {
        lemma_be_value_first(a);
        lemma_be_value_bound(a.skip(1));
        lemma_pow256_pos((a.len() - 1) as nat);
        assert(pow256((a.len() - 1) as nat) <= be_value(a)) by (nonlinear_arith)
            requires
                be_value(a) == a[0] * pow256((a.len() - 1) as nat) + be_value(a.skip(1)),
                a[0] >= 1,
                be_value(a.skip(1)) >= 0,
        ;
    }
    if b.len() > 0 {
        lemma_be_value_first(b);
        lemma_be_value_bound(b.skip(1));
        lemma_pow256_pos((b.len() - 1) as nat);
        assert(pow256((b.len() - 1) as nat) <= be_value(b)) by (nonlinear_arith)
            requires
                be_value(b) == b[0] * pow256((b.len() - 1) as nat) + be_value(b.skip(1)),
                b[0] >= 1,
                be_value(b.skip(1)) >= 0,
        ;
    }
    lemma_be_value_bound(a);
    lemma_be_value_bound(b);
    if a.len() == 0 || b.len() == 0 {
        if a.len() == 0 && b.len() == 0 {
            assert(a =~= b);
        } else {
            assert(false);
        }
    } else {
        if a.len() < b.len() {
            lemma_pow256_increases(a.len(), (b.len() - 1) as nat);
            assert(false);
        }
        if b.len() < a.len() {
            lemma_pow256_increases(b.len(), (a.len() - 1) as nat);
            assert(false);
        }
        lemma_be_value_injective(a, b);
    }
}

} // verus!
