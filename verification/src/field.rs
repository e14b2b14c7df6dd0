use vstd::prelude::*;
use vstd::arithmetic::power::pow;
use vstd::arithmetic::div_mod::lemma_fundamental_div_mod_converse;

verus! {

/// The prime modulus of the scalar field of the BLS12-381 curve.  Every field
/// element of this library is a canonical representative in `[0, p())`.
pub open spec fn p() -> int {
    52435875175126190479447740508185965837690552500527637822603658699938581184513int
}

/// `x` is a canonical field value.
pub open spec fn in_field(x: int) -> bool {
    0 <= x < p()
}

/// Addition modulo `p()`.
pub open spec fn f_add(a: int, b: int) -> int {
    (a + b) % p()
}

/// Subtraction modulo `p()`.
pub open spec fn f_sub(a: int, b: int) -> int {
    (a - b) % p()
}

/// Multiplication modulo `p()`.
pub open spec fn f_mul(a: int, b: int) -> int {
    (a * b) % p()
}

/// The multiplicative inverse of `a` modulo `p()`, or `0` if none exists.
pub open spec fn f_inv(a: int) -> int {
    if exists|w: int| in_field(w) && f_mul(a, w) == 1 {
        choose|w: int| in_field(w) && f_mul(a, w) == 1
    } else {
        0
    }
}

/// Every sequence entry is a canonical field value.
pub open spec fn in_field_seq(s: Seq<int>) -> bool {
    forall|i: int| 0 <= i < s.len() ==> in_field(#[trigger] s[i])
}

/// The values of a sequence of field elements.
pub open spec fn vals(s: Seq<FieldElement>) -> Seq<int> {
    s.map_values(|e: FieldElement| e@)
}

/// The sum of a sequence modulo `p()`.
pub open spec fn sum_mod(s: Seq<int>) -> int
    decreases s.len(),
{
    if s.len() == 0 {
        0
    } else {
        f_add(sum_mod(s.drop_last()), s.last())
    }
}

/// The 32-byte little-endian encoding of a canonical field value.
pub open spec fn le_bytes_32(v: int) -> Seq<u8> {
    Seq::new(32, |i: int| (((v / pow(256, i as nat)) % 256) as u8))
}

/// The little-endian value of a byte string.
pub open spec fn bytes_le_val(s: Seq<u8>) -> int
    decreases s.len(),
{
    if s.len() == 0 {
        0
    } else {
        s[0] + 256 * bytes_le_val(s.drop_first())
    }
}

/// The concatenation of the 32-byte encodings of a sequence of field values.
pub open spec fn elems_to_bytes(s: Seq<int>) -> Seq<u8>
    decreases s.len(),
{
    if s.len() == 0 {
        Seq::<u8>::empty()
    } else {
        elems_to_bytes(s.drop_last()) + le_bytes_32(s.last())
    }
}

/// An element of the prime field, held as the four little-endian 64-bit limbs
/// of its canonical integer representative.
#[derive(Clone, Copy, Debug, PartialEq, Eq, Structural)]
pub struct FieldElement {
    l0: u64,
    l1: u64,
    l2: u64,
    l3: u64,
}

impl View for FieldElement {
    type V = int;

    closed spec fn view(&self) -> int {
        self.l0 + self.l1 * 0x1_0000_0000_0000_0000int
            + self.l2 * 0x1_0000_0000_0000_0000_0000_0000_0000_0000int
            + self.l3 * 0x1_0000_0000_0000_0000_0000_0000_0000_0000_0000_0000_0000_0000int
    }
}

/// Two field elements with the same canonical value are equal limb for limb.
pub proof fn lemma_view_injective(a: FieldElement, b: FieldElement)
    requires
        a@ == b@,
    ensures
        a == b,
{
    lemma_limbs_from_view(a);
    lemma_limbs_from_view(b);
}

/// Each limb is a base-2^64 digit of the canonical value, so the value
/// determines the limbs.
proof fn lemma_limbs_from_view(a: FieldElement)
    ensures
        a.l0 == a@ % 0x1_0000_0000_0000_0000int,
        a.l1 == (a@ / 0x1_0000_0000_0000_0000int) % 0x1_0000_0000_0000_0000int,
        a.l2 == ((a@ / 0x1_0000_0000_0000_0000int) / 0x1_0000_0000_0000_0000int)
            % 0x1_0000_0000_0000_0000int,
        a.l3 == ((a@ / 0x1_0000_0000_0000_0000int) / 0x1_0000_0000_0000_0000int)
            / 0x1_0000_0000_0000_0000int,
{
    let base: int = 0x1_0000_0000_0000_0000int;
    let va: int = a@;
    let qa: int = a.l1 + a.l2 * base + a.l3 * (base * base);
    let qa2: int = a.l2 + a.l3 * base;
    assert(va == a.l0 + a.l1 * base + a.l2 * (base * base) + a.l3 * ((base * base) * base));
    assert(va == qa * base + a.l0) by (nonlinear_arith)
        requires
            va == a.l0 + a.l1 * base + a.l2 * (base * base) + a.l3 * ((base * base) * base),
            qa == a.l1 + a.l2 * base + a.l3 * (base * base),
    ;
    lemma_fundamental_div_mod_converse(va, base, qa, a.l0 as int);
    assert(qa == qa2 * base + a.l1) by (nonlinear_arith)
        requires
            qa == a.l1 + a.l2 * base + a.l3 * (base * base),
            qa2 == a.l2 + a.l3 * base,
    ;
    lemma_fundamental_div_mod_converse(qa, base, qa2, a.l1 as int);
    lemma_fundamental_div_mod_converse(qa2, base, a.l3 as int, a.l2 as int);
}

/// Relies on `ark_ff` field addition on `ark_bls12_381::Fr`: the sum of the
/// canonical representatives, reduced modulo the prime.
#[verifier::external_body]
pub(crate) fn fe_add(a: &FieldElement, b: &FieldElement) -> (r: FieldElement)
    requires
        in_field(a@),
        in_field(b@),
    ensures
        in_field(r@),
        r@ == f_add(a@, b@),
{
    let fa = ark_bls12_381::Fr::from(ark_ff::BigInt([a.l0, a.l1, a.l2, a.l3]));
    let fb = ark_bls12_381::Fr::from(ark_ff::BigInt([b.l0, b.l1, b.l2, b.l3]));
    let s = ark_ff::PrimeField::into_bigint(fa + fb).0;
    FieldElement { l0: s[0], l1: s[1], l2: s[2], l3: s[3] }
}

/// Relies on `ark_ff` field subtraction on `ark_bls12_381::Fr`: the difference
/// of the canonical representatives, reduced modulo the prime.
#[verifier::external_body]
pub(crate) fn fe_sub(a: &FieldElement, b: &FieldElement) -> (r: FieldElement)
    requires
        in_field(a@),
        in_field(b@),
    ensures
        in_field(r@),
        r@ == f_sub(a@, b@),
{
    let fa = ark_bls12_381::Fr::from(ark_ff::BigInt([a.l0, a.l1, a.l2, a.l3]));
    let fb = ark_bls12_381::Fr::from(ark_ff::BigInt([b.l0, b.l1, b.l2, b.l3]));
    let s = ark_ff::PrimeField::into_bigint(fa - fb).0;
    FieldElement { l0: s[0], l1: s[1], l2: s[2], l3: s[3] }
}

/// Relies on `ark_ff` field multiplication on `ark_bls12_381::Fr`: the product
/// of the canonical representatives, reduced modulo the prime.  A product of
/// two non-zero elements of a prime field is non-zero.
#[verifier::external_body]
pub(crate) fn fe_mul(a: &FieldElement, b: &FieldElement) -> (r: FieldElement)
    requires
        in_field(a@),
        in_field(b@),
    ensures
        in_field(r@),
        r@ == f_mul(a@, b@),
        a@ != 0 && b@ != 0 ==> r@ != 0,
{
    let fa = ark_bls12_381::Fr::from(ark_ff::BigInt([a.l0, a.l1, a.l2, a.l3]));
    let fb = ark_bls12_381::Fr::from(ark_ff::BigInt([b.l0, b.l1, b.l2, b.l3]));
    let s = ark_ff::PrimeField::into_bigint(fa * fb).0;
    FieldElement { l0: s[0], l1: s[1], l2: s[2], l3: s[3] }
}

/// Relies on `ark_ff::Field::inverse` on `ark_bls12_381::Fr`: `None` exactly
/// on zero, otherwise the multiplicative inverse.
#[verifier::external_body]
pub(crate) fn fe_inv(a: &FieldElement) -> (r: Option<FieldElement>)
    requires
        in_field(a@),
    ensures
        match r {
            Some(v) => a@ != 0 && in_field(v@) && f_mul(a@, v@) == 1,
            None => a@ == 0,
        },
{
    let fa = ark_bls12_381::Fr::from(ark_ff::BigInt([a.l0, a.l1, a.l2, a.l3]));
    match ark_ff::Field::inverse(&fa) {
        Some(inv) => {
            let s = ark_ff::PrimeField::into_bigint(inv).0;
            Some(FieldElement { l0: s[0], l1: s[1], l2: s[2], l3: s[3] })
        }
        None => None,
    }
}

/// Relies on `ark_bls12_381::Fr::from::<u64>`: the canonical embedding of an
/// unsigned integer, which is below the prime and so left unreduced.
#[verifier::external_body]
pub(crate) fn fe_from_u64(x: u64) -> (r: FieldElement)
    ensures
        in_field(r@),
        r@ == x as int,
{
    let s = ark_ff::PrimeField::into_bigint(ark_bls12_381::Fr::from(x)).0;
    FieldElement { l0: s[0], l1: s[1], l2: s[2], l3: s[3] }
}

/// Relies on `ark_ff::BigInt::to_bytes_le`: the 32-byte little-endian
/// encoding of the canonical representative.
#[verifier::external_body]
pub(crate) fn fe_to_bytes(a: &FieldElement) -> (r: Vec<u8>)
    requires
        in_field(a@),
    ensures
        r@ == le_bytes_32(a@),
{
    let fa = ark_bls12_381::Fr::from(ark_ff::BigInt([a.l0, a.l1, a.l2, a.l3]));
    ark_ff::BigInteger::to_bytes_le(&ark_ff::PrimeField::into_bigint(fa))
}

/// Relies on `ark_ff::PrimeField::from_le_bytes_mod_order`: the little-endian
/// value of the bytes, reduced modulo the prime.
#[verifier::external_body]
pub(crate) fn fe_from_le_bytes_mod_order(bytes: &[u8]) -> (r: FieldElement)
    ensures
        in_field(r@),
        r@ == bytes_le_val(bytes@) % p(),
{
    let fa = <ark_bls12_381::Fr as ark_ff::PrimeField>::from_le_bytes_mod_order(bytes);
    let s = ark_ff::PrimeField::into_bigint(fa).0;
    FieldElement { l0: s[0], l1: s[1], l2: s[2], l3: s[3] }
}

/// A fresh vector with the same elements.
pub(crate) fn copy_elems(v: &Vec<FieldElement>) -> (r: Vec<FieldElement>)
    ensures
        r@ == v@,
{
    let mut out: Vec<FieldElement> = Vec::new();
    let mut i: usize = 0;
    while i < v.len()
        invariant
            i <= v@.len(),
            out@ == v@.take(i as int),
        decreases v@.len() - i,
    {
        proof {
            assert(v@.take(i + 1).drop_last() =~= v@.take(i as int));
            assert(v@.take(i + 1) =~= v@.take(i as int).push(v@[i as int]));
        }
        out.push(v[i]);
        i = i + 1;
    }
    proof {
        assert(v@.take(v@.len() as int) =~= v@);
    }
    out
}

/// A fresh vector with the elements of a slice.
pub(crate) fn copy_slice(v: &[FieldElement]) -> (r: Vec<FieldElement>)
    ensures
        r@ == v@,
{
    let mut out: Vec<FieldElement> = Vec::new();
    let mut i: usize = 0;
    while i < v.len()
        invariant
            i <= v@.len(),
            out@ == v@.take(i as int),
        decreases v@.len() - i,
    {
        proof {
            assert(v@.take(i + 1) =~= v@.take(i as int).push(v@[i as int]));
        }
        out.push(v[i]);
        i = i + 1;
    }
    proof {
        assert(v@.take(v@.len() as int) =~= v@);
    }
    out
}

/// The running modular sum of a vector of field elements.
pub(crate) fn sum_elems(v: &Vec<FieldElement>) -> (r: FieldElement)
    requires
        in_field_seq(vals(v@)),
    ensures
        in_field(r@),
        r@ == sum_mod(vals(v@)),
{
    let mut acc = fe_from_u64(0);
    let mut i: usize = 0;
    while i < v.len()
        invariant
            in_field_seq(vals(v@)),
            i <= v@.len(),
            in_field(acc@),
            acc@ == sum_mod(vals(v@).take(i as int)),
        decreases v@.len() - i,
    {
        proof {
            assert(vals(v@).take(i + 1).drop_last() =~= vals(v@).take(i as int));
            assert(vals(v@)[i as int] == v@[i as int]@);
            assert(in_field(vals(v@)[i as int]));
        }
        acc = fe_add(&acc, &v[i]);
        i = i + 1;
    }
    proof {
        assert(vals(v@).take(v@.len() as int) =~= vals(v@));
    }
    acc
}

impl FieldElement {
    /// The canonical embedding of an unsigned integer.
    pub fn from_u64(x: u64) -> (r: Self)
        ensures
            in_field(r@),
            r@ == x as int,
    {
        fe_from_u64(x)
    }

    /// The additive identity.
    pub fn zero() -> (r: Self)
        ensures
            in_field(r@),
            r@ == 0,
    {
        fe_from_u64(0)
    }

    /// The multiplicative identity.
    pub fn one() -> (r: Self)
        ensures
            in_field(r@),
            r@ == 1,
    {
        fe_from_u64(1)
    }

    /// Field addition.
    pub fn add(&self, other: &Self) -> (r: Self)
        requires
            in_field(self@),
            in_field(other@),
        ensures
            in_field(r@),
            r@ == f_add(self@, other@),
    {
        fe_add(self, other)
    }

    /// Field subtraction.
    pub fn sub(&self, other: &Self) -> (r: Self)
        requires
            in_field(self@),
            in_field(other@),
        ensures
            in_field(r@),
            r@ == f_sub(self@, other@),
    {
        fe_sub(self, other)
    }

    /// Field multiplication.
    pub fn mul(&self, other: &Self) -> (r: Self)
        requires
            in_field(self@),
            in_field(other@),
        ensures
            in_field(r@),
            r@ == f_mul(self@, other@),
    {
        fe_mul(self, other)
    }

    /// The multiplicative inverse, or `None` for zero.
    pub fn inverse(&self) -> (r: Option<Self>)
        requires
            in_field(self@),
        ensures
            match r {
                Some(v) => self@ != 0 && in_field(v@) && f_mul(self@, v@) == 1 && v@ == f_inv(
                    self@,
                ),
                None => self@ == 0,
            },
    {
        let r = fe_inv(self);
        proof {
            if r is Some {
                lemma_inverse_unique(self@, r->Some_0@);
            }
        }
        r
    }
}

/// Adding zero leaves a canonical value unchanged.
pub proof fn lemma_add_zero(a: int)
    requires
        in_field(a),
    ensures
        f_add(a, 0) == a,
{
    vstd::arithmetic::div_mod::lemma_small_mod(a as nat, p() as nat);
}

/// Distinct canonical values have a non-zero difference modulo `p()`.
pub proof fn lemma_sub_nonzero(a: int, b: int)
    requires
        in_field(a),
        in_field(b),
        a != b,
    ensures
        f_sub(a, b) != 0,
        in_field(f_sub(a, b)),
{
    if a > b {
        vstd::arithmetic::div_mod::lemma_small_mod((a - b) as nat, p() as nat);
    } else {
        vstd::arithmetic::div_mod::lemma_mod_add_multiples_vanish(a - b, p());
        vstd::arithmetic::div_mod::lemma_small_mod((a - b + p()) as nat, p() as nat);
    }
}

/// Modular addition is associative.
pub proof fn lemma_add_assoc_mod(a: int, b: int, c: int)
    ensures
        f_add(f_add(a, b), c) == f_add(a, f_add(b, c)),
{
    let pp = p();
    vstd::arithmetic::div_mod::lemma_add_mod_noop(a + b, c, pp);
    vstd::arithmetic::div_mod::lemma_add_mod_noop(a, b + c, pp);
    vstd::arithmetic::div_mod::lemma_mod_twice(a + b, pp);
    vstd::arithmetic::div_mod::lemma_mod_twice(b + c, pp);
    vstd::arithmetic::div_mod::lemma_mod_twice(c, pp);
    vstd::arithmetic::div_mod::lemma_mod_twice(a, pp);
    assert(((a + b) % pp + c % pp) % pp == ((a + b) + c) % pp) by {
        vstd::arithmetic::div_mod::lemma_add_mod_noop(a + b, c, pp);
    }
    assert((a % pp + (b + c) % pp) % pp == (a + (b + c)) % pp) by {
        vstd::arithmetic::div_mod::lemma_add_mod_noop(a, b + c, pp);
    }
    assert(f_add(f_add(a, b), c) == ((a + b) % pp + c) % pp);
    assert(((a + b) % pp + c) % pp == ((a + b) % pp + c % pp) % pp) by {
        vstd::arithmetic::div_mod::lemma_add_mod_noop_right((a + b) % pp, c, pp);
    }
    assert(f_add(a, f_add(b, c)) == (a + (b + c) % pp) % pp);
    assert((a + (b + c) % pp) % pp == (a % pp + (b + c) % pp) % pp) by {
        vstd::arithmetic::div_mod::lemma_add_mod_noop((b + c) % pp, a, pp);
        vstd::arithmetic::div_mod::lemma_mod_twice(b + c, pp);
    }
}

/// Modular multiplication is associative.
pub proof fn lemma_mul_assoc_mod(a: int, b: int, c: int)
    ensures
        f_mul(a, f_mul(b, c)) == f_mul(f_mul(a, b), c),
{
    let pp = p();
    assert((a * ((b * c) % pp)) % pp == (a * (b * c)) % pp) by {
        vstd::arithmetic::div_mod::lemma_mul_mod_noop_right(a, b * c, pp);
    }
    assert((((a * b) % pp) * c) % pp == ((a * b) * c) % pp) by {
        vstd::arithmetic::div_mod::lemma_mul_mod_noop_left(a * b, c, pp);
    }
    assert(a * (b * c) == (a * b) * c) by (nonlinear_arith);
}

/// Modular multiplication distributes over modular addition.
pub proof fn lemma_mul_distributes(c: int, a: int, b: int)
    ensures
        f_mul(c, f_add(a, b)) == f_add(f_mul(c, a), f_mul(c, b)),
{
    let pp = p();
    assert(f_mul(c, f_add(a, b)) == (c * (a + b)) % pp) by {
        vstd::arithmetic::div_mod::lemma_mul_mod_noop_right(c, a + b, pp);
    }
    assert(f_add(f_mul(c, a), f_mul(c, b)) == (c * a + c * b) % pp) by {
        vstd::arithmetic::div_mod::lemma_add_mod_noop(c * a, c * b, pp);
    }
    assert(c * (a + b) == c * a + c * b) by (nonlinear_arith);
}

/// Swapping the outer factors of a double product changes nothing.
pub proof fn lemma_mul_left_comm(a: int, b: int, c: int)
    ensures
        f_mul(a, f_mul(b, c)) == f_mul(b, f_mul(a, c)),
{
    lemma_mul_assoc_mod(a, b, c);
    lemma_mul_assoc_mod(b, a, c);
    assert(a * b == b * a) by (nonlinear_arith);
}

/// An element with `f_mul(a, w) == 1` is the unique inverse `f_inv(a)`.
pub proof fn lemma_inverse_unique(a: int, w: int)
    requires
        in_field(w),
        f_mul(a, w) == 1,
    ensures
        w == f_inv(a),
{
    let u = f_inv(a);
    assert(in_field(u) && f_mul(a, u) == 1);
    lemma_mul_mod_cancel(a, w, u);
}

/// If `a·w ≡ 1` and `a·u ≡ 1 (mod p())` with `w, u` canonical, then `w == u`.
proof fn lemma_mul_mod_cancel(a: int, w: int, u: int)
    requires
        in_field(w),
        in_field(u),
        f_mul(a, w) == 1,
        f_mul(a, u) == 1,
    ensures
        w == u,
{
    let pp = p();
    assert((w * ((a * u) % pp)) % pp == (w * (a * u)) % pp) by {
        vstd::arithmetic::div_mod::lemma_mul_mod_noop_right(w, a * u, pp);
    }
    assert((u * ((a * w) % pp)) % pp == (u * (a * w)) % pp) by {
        vstd::arithmetic::div_mod::lemma_mul_mod_noop_right(u, a * w, pp);
    }
    assert(w * (a * u) == u * (a * w)) by (nonlinear_arith);
    assert((w * 1) % pp == w) by {
        vstd::arithmetic::div_mod::lemma_small_mod(w as nat, pp as nat);
    }
    assert((u * 1) % pp == u) by {
        vstd::arithmetic::div_mod::lemma_small_mod(u as nat, pp as nat);
    }
}

} // verus!
