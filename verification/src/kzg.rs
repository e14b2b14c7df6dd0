use vstd::prelude::*;
use vstd::arithmetic::power2::pow2;
use crate::errors::Error;
use crate::field::{
    FieldElement, f_add, f_mul, f_sub, in_field, in_field_seq, vals, fe_mul, fe_sub, fe_from_u64,
};
use crate::multilinear::{
    MultiLinearPolynomial, BlowUpDirection, multi_eval, opt_vals, opts_in_field, minus_seq,
    partial_eval, quotient_seq,
};
use crate::bits::{lg, lemma_pow2_lg, lemma_lg_pow2};

verus! {

// The trusted discrete-log model of the pairing groups.  Every point this
// library ever constructs comes out of the operations below, so each is the
// relevant generator raised to some exponent; the uninterpreted functions
// `g1_dlog`, `g2_dlog` and `gt_dlog` name that exponent.  G1, G2 and the
// pairing target group all have exact prime order `p()` with the pairing
// non-degenerate on the generators, so points built here are equal exactly
// when their canonical exponents agree, and `e(g1^a, g2^b) = e(g1, g2)^{a·b}`.
// Each operation's `ensures` states its exponent arithmetic and nothing
// else; the curve values themselves stay opaque.
/// An opaque point of the BLS12-381 group G1.
#[verifier::external_body]
pub struct G1Point(pub ark_bls12_381::G1Projective);

/// An opaque point of the BLS12-381 group G2.
#[verifier::external_body]
pub struct G2Point(pub ark_bls12_381::G2Projective);

/// An opaque element of the BLS12-381 pairing target group.
#[verifier::external_body]
pub struct GtPoint(pub ark_ec::pairing::PairingOutput<ark_bls12_381::Bls12_381>);

/// The exponent of a G1 point over the G1 generator.
pub uninterp spec fn g1_dlog(p: G1Point) -> int;

/// The exponent of a G2 point over the G2 generator.
pub uninterp spec fn g2_dlog(p: G2Point) -> int;

/// The exponent of a target-group element over `e(g1, g2)`.
pub uninterp spec fn gt_dlog(p: GtPoint) -> int;

/// The byte form of the G1 point with exponent `d`: the `Display` string of
/// `g1^d`, a function of the exponent alone since the group is cyclic.
pub uninterp spec fn g1_string_of(d: int) -> Seq<u8>;

/// Relies on `ark_ec::PrimeGroup::generator` and `mul_bigint`: the BLS12-381
/// G1 generator raised to the canonical representative of a field element.
#[verifier::external_body]
pub(crate) fn g1_gen_mul(s: &FieldElement) -> (r: G1Point)
    requires
        in_field(s@),
    ensures
        g1_dlog(r) == s@,
{
    let f = crate::field::fe_to_bytes(s);
    let scalar = <ark_bls12_381::Fr as ark_ff::PrimeField>::from_le_bytes_mod_order(f.as_slice());
    G1Point(ark_ec::PrimeGroup::mul_bigint(
        &<ark_bls12_381::G1Projective as ark_ec::PrimeGroup>::generator(),
        ark_ff::PrimeField::into_bigint(scalar),
    ))
}

/// Relies on `ark_ec::PrimeGroup::mul_bigint`: scaling `g1^d` by a canonical
/// scalar `s` yields `g1^{d·s}`.
#[verifier::external_body]
pub(crate) fn g1_scale(p: &G1Point, s: &FieldElement) -> (r: G1Point)
    requires
        in_field(s@),
    ensures
        g1_dlog(r) == f_mul(g1_dlog(*p), s@),
{
    let f = crate::field::fe_to_bytes(s);
    let scalar = <ark_bls12_381::Fr as ark_ff::PrimeField>::from_le_bytes_mod_order(f.as_slice());
    G1Point(ark_ec::PrimeGroup::mul_bigint(&p.0, ark_ff::PrimeField::into_bigint(scalar)))
}

/// Relies on the `Add` implementation of `ark_ec` projective G1 points:
/// `g1^a + g1^b == g1^{a+b}`.
#[verifier::external_body]
pub(crate) fn g1_add(a: &G1Point, b: &G1Point) -> (r: G1Point)
    ensures
        g1_dlog(r) == crate::field::f_add(g1_dlog(*a), g1_dlog(*b)),
{
    G1Point(a.0 + b.0)
}

/// Relies on the `Sub` implementation of `ark_ec` projective G1 points:
/// `g1^a - g1^b == g1^{a-b}`.
#[verifier::external_body]
pub(crate) fn g1_sub(a: &G1Point, b: &G1Point) -> (r: G1Point)
    ensures
        g1_dlog(r) == f_sub(g1_dlog(*a), g1_dlog(*b)),
{
    G1Point(a.0 - b.0)
}

/// Relies on `ark_ff::AdditiveGroup::ZERO`: the G1 identity, `g1^0`.
#[verifier::external_body]
pub(crate) fn g1_zero() -> (r: G1Point)
    ensures
        g1_dlog(r) == 0,
{
    G1Point(<ark_bls12_381::G1Projective as ark_ff::AdditiveGroup>::ZERO)
}

/// Relies on `ark_ec::PrimeGroup::generator` and `mul_bigint`: the BLS12-381
/// G2 generator raised to the canonical representative of a field element.
#[verifier::external_body]
pub(crate) fn g2_gen_mul(s: &FieldElement) -> (r: G2Point)
    requires
        in_field(s@),
    ensures
        g2_dlog(r) == s@,
{
    let f = crate::field::fe_to_bytes(s);
    let scalar = <ark_bls12_381::Fr as ark_ff::PrimeField>::from_le_bytes_mod_order(f.as_slice());
    G2Point(ark_ec::PrimeGroup::mul_bigint(
        &<ark_bls12_381::G2Projective as ark_ec::PrimeGroup>::generator(),
        ark_ff::PrimeField::into_bigint(scalar),
    ))
}

/// Relies on the `Sub` implementation of `ark_ec` projective G2 points:
/// `g2^a - g2^b == g2^{a-b}`.
#[verifier::external_body]
pub(crate) fn g2_sub(a: &G2Point, b: &G2Point) -> (r: G2Point)
    ensures
        g2_dlog(r) == f_sub(g2_dlog(*a), g2_dlog(*b)),
{
    G2Point(a.0 - b.0)
}

/// Relies on `ark_ec::pairing::Pairing::pairing` over BLS12-381: bilinearity
/// on the cyclic groups, `e(g1^a, g2^b) == e(g1, g2)^{a·b}`.
#[verifier::external_body]
pub(crate) fn pairing(a: &G1Point, b: &G2Point) -> (r: GtPoint)
    ensures
        gt_dlog(r) == f_mul(g1_dlog(*a), g2_dlog(*b)),
{
    GtPoint(<ark_bls12_381::Bls12_381 as ark_ec::pairing::Pairing>::pairing(a.0, b.0))
}

/// Relies on the `Add` implementation of `ark_ec::pairing::PairingOutput`
/// (the target group written additively): exponents add.
#[verifier::external_body]
pub(crate) fn po_add(a: &GtPoint, b: &GtPoint) -> (r: GtPoint)
    ensures
        gt_dlog(r) == crate::field::f_add(gt_dlog(*a), gt_dlog(*b)),
{
    GtPoint(a.0 + b.0)
}

/// Relies on `ark_ff::AdditiveGroup::ZERO`: the target-group identity,
/// `e(g1, g2)^0`.
#[verifier::external_body]
pub(crate) fn po_zero() -> (r: GtPoint)
    ensures
        gt_dlog(r) == 0,
{
    GtPoint(
        <ark_ec::pairing::PairingOutput<ark_bls12_381::Bls12_381> as ark_ff::AdditiveGroup>::ZERO,
    )
}

/// Relies on the `PartialEq` implementation of `ark_ec` pairing outputs:
/// the target group has exact prime order `p()`, so elements built from its
/// generator are equal exactly when their canonical exponents agree.
#[verifier::external_body]
pub(crate) fn po_eq(a: &GtPoint, b: &GtPoint) -> (r: bool)
    requires
        in_field(gt_dlog(*a)),
        in_field(gt_dlog(*b)),
    ensures
        r == (gt_dlog(*a) == gt_dlog(*b)),
{
    a.0 == b.0
}

/// Relies on the `PartialEq` implementation of `ark_ec` projective G1
/// points: the group has exact prime order `p()`, so points are equal
/// exactly when their canonical exponents agree.
#[verifier::external_body]
pub(crate) fn g1_eq(a: &G1Point, b: &G1Point) -> (r: bool)
    ensures
        r == (g1_dlog(*a) == g1_dlog(*b)),
{
    a.0 == b.0
}

/// Relies on the `Display` implementation of an `ark_ec` projective G1
/// point: the string depends on the point alone, hence on its exponent; it
/// is used only as transcript absorption material.
#[verifier::external_body]
pub(crate) fn g1_to_string_bytes(p: &G1Point) -> (r: Vec<u8>)
    ensures
        r@ == g1_string_of(g1_dlog(*p)),
{
    format!("{}", p.0).into_bytes()
}

/// The Lagrange basis value at hypercube vertex `i`: the product over the
/// variables of `tau_t` where bit `t` of `i` is set (most significant
/// variable first) and `1 − tau_t` where it is clear, over the first `t`
/// factors.
pub open spec fn lagrange_factor(taus: Seq<int>, n: nat, i: int, t: int) -> int {
    if (i / pow2((n - 1 - t) as nat) as int) % 2 == 1 {
        taus[t]
    } else {
        f_sub(1, taus[t])
    }
}

/// The running product of the first `t` Lagrange factors.
pub open spec fn lagrange_partial(taus: Seq<int>, n: nat, i: int, t: nat) -> int
    decreases t,
{
    if t == 0 {
        1
    } else {
        f_mul(lagrange_partial(taus, n, i, (t - 1) as nat), lagrange_factor(taus, n, i, t - 1))
    }
}

/// The full Lagrange basis over the Boolean hypercube at the points `taus`.
pub open spec fn lagrange_basis(taus: Seq<int>) -> Seq<int> {
    Seq::new(pow2(taus.len()), |i: int| lagrange_partial(taus, taus.len(), i, taus.len()))
}

/// The Lagrange basis values `L_i(taus)` for every hypercube vertex `i`.
pub fn generate_lagrange_basis_for_n_variables(n: usize, taus: &[FieldElement]) -> (res: Result<
    Vec<FieldElement>,
    Error,
>)
    requires
        in_field_seq(vals(taus@)),
        pow2(taus@.len()) <= usize::MAX,
    ensures
        res is Ok <==> n == taus@.len(),
        res is Ok ==> vals(res->Ok_0@) == lagrange_basis(vals(taus@)) && in_field_seq(
            vals(res->Ok_0@),
        ) && res->Ok_0@.len() == pow2(taus@.len()),
        res is Err ==> res->Err_0 == Error::LengthMismatch,
{
    if n != taus.len() {
        return Err(Error::LengthMismatch);
    }
    let ghost tv = vals(taus@);
    proof {
        crate::bits::lemma_pow2_bounded(n as nat);
    }
    let total = crate::bits::pow2_usize(n as u32);
    proof {
        assert(total as nat == pow2(n as nat));
    }
    let mut out: Vec<FieldElement> = Vec::new();
    let mut i: usize = 0;
    while i < total
        invariant
            n == taus@.len(),
            tv == vals(taus@),
            in_field_seq(tv),
            total as nat == pow2(n as nat),
            n < 64,
            i <= total,
            out@.len() == i,
            forall|q: int|
                0 <= q < i ==> (#[trigger] out@[q])@ == lagrange_partial(tv, n as nat, q, n as nat)
                    && in_field(out@[q]@),
        decreases total - i,
    {
        let mut acc = fe_from_u64(1);
        let one = fe_from_u64(1);
        let mut t: usize = 0;
        while t < n
            invariant
                n == taus@.len(),
                tv == vals(taus@),
                in_field_seq(tv),
                total as nat == pow2(n as nat),
                i < total,
                one@ == 1,
                t <= n,
                n < 64,
                in_field(acc@),
                acc@ == lagrange_partial(tv, n as nat, i as int, t as nat),
            decreases n - t,
        {
            let shift = (n - 1 - t) as u32;
            proof {
                assert(shift as nat == (n - 1 - t) as nat);
                crate::bits::lemma_pow2_le(shift as nat, n as nat);
            }
            let skip_value = crate::bits::pow2_usize(shift);
            proof {
                assert(skip_value as nat == pow2((n - 1 - t) as nat));
            }
            proof {
                assert(tv[t as int] == taus@[t as int]@);
                assert(in_field(tv[t as int]));
            }
            let factor = if (i / skip_value) % 2 == 1 {
                taus[t]
            } else {
                fe_sub(&one, &taus[t])
            };
            proof {
                assert(factor@ == lagrange_factor(tv, n as nat, i as int, t as int));
            }
            acc = fe_mul(&acc, &factor);
            t = t + 1;
        }
        out.push(acc);
        proof {
            assert(out@[i as int] == acc);
        }
        i = i + 1;
    }
    proof {
        assert forall|q: int|
            0 <= q < total implies vals(out@)[q] == lagrange_basis(tv)[q] by {
            assert(vals(out@)[q] == out@[q]@);
        }
        assert(vals(out@) =~= lagrange_basis(tv));
    }
    Ok(out)
}

/// The G1 encryptions of a list of field values: the generator scaled by
/// each value in turn.
pub fn encrypt_lagrange_basis(lagrange_basis: &[FieldElement]) -> (r: Vec<G1Point>)
    requires
        in_field_seq(vals(lagrange_basis@)),
    ensures
        r@.len() == lagrange_basis@.len(),
        forall|i: int|
            0 <= i < r@.len() ==> g1_dlog(#[trigger] r@[i]) == vals(lagrange_basis@)[i],
{
    let mut out: Vec<G1Point> = Vec::new();
    let mut i: usize = 0;
    while i < lagrange_basis.len()
        invariant
            in_field_seq(vals(lagrange_basis@)),
            i <= lagrange_basis@.len(),
            out@.len() == i,
            forall|j: int|
                0 <= j < i ==> g1_dlog(#[trigger] out@[j]) == vals(lagrange_basis@)[j],
        decreases lagrange_basis@.len() - i,
    {
        proof {
            assert(vals(lagrange_basis@)[i as int] == lagrange_basis@[i as int]@);
            assert(in_field(vals(lagrange_basis@)[i as int]));
        }
        let pt = g1_gen_mul(&lagrange_basis[i]);
        out.push(pt);
        proof {
            assert(out@[i as int] == pt);
        }
        i = i + 1;
    }
    out
}

/// The consumed output of a trusted setup over secret values `tau_1 … tau_n`:
/// the G1-encrypted Lagrange basis at the taus, and the G2-encrypted taus.
pub struct TrustedSetup {
    pub encrypted_taus: Vec<G2Point>,
    pub encrypted_lagrange_basis: Vec<G1Point>,
}

impl TrustedSetup {
    /// Derives the public setup material from the secret taus.
    pub fn new(taus: &[FieldElement]) -> (r: Self)
        requires
            in_field_seq(vals(taus@)),
            pow2(taus@.len()) <= usize::MAX,
        ensures
            r.encrypted_taus@.len() == taus@.len(),
            r.encrypted_lagrange_basis@.len() == pow2(taus@.len()),
            forall|j: int|
                0 <= j < taus@.len() ==> g2_dlog(#[trigger] r.encrypted_taus@[j]) == vals(
                    taus@,
                )[j],
            forall|i: int|
                0 <= i < r.encrypted_lagrange_basis@.len() ==> g1_dlog(
                    #[trigger] r.encrypted_lagrange_basis@[i],
                ) == lagrange_basis(vals(taus@))[i],
    {
        let basis = match generate_lagrange_basis_for_n_variables(taus.len(), taus) {
            Ok(b) => b,
            Err(_) => {
                proof {
                    assert(false);
                }
                return TrustedSetup {
                    encrypted_taus: Vec::new(),
                    encrypted_lagrange_basis: Vec::new(),
                };
            },
        };
        let encrypted_lagrange_basis = encrypt_lagrange_basis(basis.as_slice());
        let mut encrypted_taus: Vec<G2Point> = Vec::new();
        let mut i: usize = 0;
        while i < taus.len()
            invariant
                in_field_seq(vals(taus@)),
                i <= taus@.len(),
                encrypted_taus@.len() == i,
                forall|j: int|
                    0 <= j < i ==> g2_dlog(#[trigger] encrypted_taus@[j]) == vals(taus@)[j],
            decreases taus@.len() - i,
        {
            proof {
                assert(vals(taus@)[i as int] == taus@[i as int]@);
                assert(in_field(vals(taus@)[i as int]));
            }
            let pt = g2_gen_mul(&taus[i]);
            encrypted_taus.push(pt);
            proof {
                assert(encrypted_taus@[i as int] == pt);
            }
            i = i + 1;
        }
        TrustedSetup { encrypted_taus, encrypted_lagrange_basis }
    }
}

/// A multilinear KZG opening proof: the commitment, the claimed value, and
/// one quotient commitment per variable.
pub struct MultilinearKZGProof {
    pub commitment: G1Point,
    pub v: FieldElement,
    pub q_taus: Vec<G1Point>,
}

impl MultilinearKZGProof {
    pub fn new(
        commitment: G1Point,
        v: FieldElement,
        q_taus: Vec<G1Point>,
    ) -> (r: Self)
        ensures
            r.commitment == commitment,
            r.v == v,
            r.q_taus == q_taus,
    {
        MultilinearKZGProof { commitment, v, q_taus }
    }
}

/// The whole-list `Some` wrapping of an opening list.
pub open spec fn all_some(s: Seq<int>) -> Seq<Option<int>> {
    s.map_values(|x: int| Option::<int>::Some(x))
}

/// A point list that sets every entry.
pub(crate) fn all_points_vec(openings: &[FieldElement]) -> (r: Vec<Option<FieldElement>>)
    requires
        in_field_seq(vals(openings@)),
    ensures
        opt_vals(r@) == all_some(vals(openings@)),
        r@.len() == openings@.len(),
        opts_in_field(opt_vals(r@)),
{
    let mut out: Vec<Option<FieldElement>> = Vec::new();
    let mut i: usize = 0;
    while i < openings.len()
        invariant
            in_field_seq(vals(openings@)),
            i <= openings@.len(),
            out@.len() == i,
            forall|j: int| 0 <= j < i ==> (#[trigger] out@[j]) == Some(openings@[j]),
        decreases openings@.len() - i,
    {
        let v = openings[i];
        out.push(Some(v));
        proof {
            assert(out@[i as int] == Some(v));
        }
        i = i + 1;
    }
    proof {
        assert forall|j: int|
            0 <= j < openings@.len() implies opt_vals(out@)[j] == all_some(vals(openings@))[j] by {
            assert(out@[j] == Some(openings@[j]));
            assert(vals(openings@)[j] == openings@[j]@);
        }
        assert(opt_vals(out@) =~= all_some(vals(openings@)));
    }
    out
}

/// Blows an evaluation table up to `no_of_vars` variables: the variables
/// already fixed go on the left, the ones still to come on the right.
pub fn blowup(
    no_of_vars: usize,
    variable_idx: usize,
    evaluation_points: &[FieldElement],
) -> (r: Vec<FieldElement>)
    requires
        in_field_seq(vals(evaluation_points@)),
        variable_idx < no_of_vars,
        vals(evaluation_points@).len() * pow2(no_of_vars as nat) <= usize::MAX,
    ensures
        vals(r@) == crate::multilinear::blow_up_seq(
            BlowUpDirection::Right,
            (no_of_vars - variable_idx - 1) as nat,
            crate::multilinear::blow_up_seq(
                BlowUpDirection::Left,
                variable_idx as nat,
                vals(evaluation_points@),
            ),
        ),
        in_field_seq(vals(r@)),
{
    proof {
        crate::bits::lemma_pow2_le(variable_idx as nat, no_of_vars as nat);
        vstd::arithmetic::power2::lemma_pow2_pos(variable_idx as nat);
        assert(vals(evaluation_points@).len() * pow2(variable_idx as nat) <= vals(
            evaluation_points@,
        ).len() * pow2(no_of_vars as nat)) by (nonlinear_arith)
            requires
                pow2(variable_idx as nat) <= pow2(no_of_vars as nat),
                vals(evaluation_points@).len() >= 0,
        ;
    }
    let blown_up_left = MultiLinearPolynomial::blow_up_n_times(
        BlowUpDirection::Left,
        variable_idx,
        evaluation_points,
    );
    proof {
        lemma_blow_up_len(
            BlowUpDirection::Left,
            variable_idx as nat,
            vals(evaluation_points@),
        );
        vstd::arithmetic::power2::lemma_pow2_adds(
            variable_idx as nat,
            (no_of_vars - variable_idx - 1) as nat,
        );
        crate::bits::lemma_pow2_le(
            (variable_idx + (no_of_vars - variable_idx - 1)) as nat,
            no_of_vars as nat,
        );
        assert(vals(blown_up_left@).len() * pow2((no_of_vars - variable_idx - 1) as nat) <= vals(
            evaluation_points@,
        ).len() * pow2(no_of_vars as nat)) by (nonlinear_arith)
            requires
                vals(blown_up_left@).len() == vals(evaluation_points@).len() * pow2(
                    variable_idx as nat,
                ),
                pow2(variable_idx as nat) * pow2((no_of_vars - variable_idx - 1) as nat) == pow2(
                    (variable_idx + (no_of_vars - variable_idx - 1)) as nat,
                ),
                pow2((variable_idx + (no_of_vars - variable_idx - 1)) as nat) <= pow2(
                    no_of_vars as nat,
                ),
                vals(evaluation_points@).len() >= 0,
        ;
    }
    MultiLinearPolynomial::blow_up_n_times(
        BlowUpDirection::Right,
        no_of_vars - variable_idx - 1,
        blown_up_left.as_slice(),
    )
}

/// The exponents of a list of G1 points.
pub open spec fn g1_dlogs(s: Seq<G1Point>) -> Seq<int> {
    s.map_values(|q: G1Point| g1_dlog(q))
}

/// The exponents of a list of G2 points.
pub open spec fn g2_dlogs(s: Seq<G2Point>) -> Seq<int> {
    s.map_values(|q: G2Point| g2_dlog(q))
}

/// The multi-scalar exponent `Σ aᵢ·bᵢ (mod p())` over the first `n` pairs.
pub open spec fn dot_mod(a: Seq<int>, b: Seq<int>, n: nat) -> int
    decreases n,
{
    if n == 0 {
        0
    } else {
        f_add(dot_mod(a, b, (n - 1) as nat), f_mul(a[n - 1], b[n - 1]))
    }
}

/// The running dividend of the opening procedure: the polynomial minus its
/// claimed value, with the first `j` variables divided out at the openings.
pub open spec fn kzg_dividend(fv: Seq<int>, ops: Seq<int>, j: nat) -> Seq<int>
    decreases j,
{
    if j == 0 {
        minus_seq(fv, multi_eval(fv, all_some(ops))[0])
    } else {
        partial_eval(kzg_dividend(fv, ops, (j - 1) as nat), 0, ops[j - 1])
    }
}

/// The `j`-th quotient table, blown back up to the basis width.
pub open spec fn kzg_blown_quotient(fv: Seq<int>, ops: Seq<int>, j: nat) -> Seq<int> {
    crate::multilinear::blow_up_seq(
        BlowUpDirection::Left,
        j + 1,
        quotient_seq(kzg_dividend(fv, ops, j), 0),
    )
}

/// The right side of the pairing identity over exponents:
/// `Σ_j q_j·(τ_j − a_j) (mod p())` over the first `n` terms.
pub open spec fn kzg_rhs(qd: Seq<int>, taud: Seq<int>, ops: Seq<int>, n: nat) -> int
    decreases n,
{
    if n == 0 {
        0
    } else {
        f_add(kzg_rhs(qd, taud, ops, (n - 1) as nat), f_mul(qd[n - 1], f_sub(taud[n - 1], ops[n - 1])))
    }
}

/// The verifier's verdict over exponents: the shapes match, and
/// `(commitment − v)·1 ≡ Σ_j q_j·(τ_j − a_j) (mod p())` — the exponent form
/// of `e(C − g1^v, g2) == Π_j e(q_j, g2^{τ_j − a_j})`.
pub open spec fn kzg_accepts(
    cd: int,
    v: int,
    qd: Seq<int>,
    taud: Seq<int>,
    ops: Seq<int>,
) -> bool {
    &&& qd.len() == ops.len()
    &&& ops.len() <= taud.len()
    &&& f_mul(f_sub(cd, v), 1) == kzg_rhs(qd, taud, ops, ops.len())
}

/// The multilinear KZG prover.
pub struct MultilinearKZGProver {
}

impl MultilinearKZGProver {
    /// The multi-scalar combination of the encrypted basis with a table of
    /// field values: the commitment `g1^{f(tau)}`.
    fn evaluate_at_tau(
        polynomial: &MultiLinearPolynomial,
        encrypted_lagrange_basis: &[G1Point],
    ) -> (res: Result<G1Point, Error>)
        requires
            polynomial.wf(),
        ensures
            res is Ok <==> polynomial@.len() == encrypted_lagrange_basis@.len(),
            res is Ok ==> g1_dlog(res->Ok_0) == dot_mod(
                g1_dlogs(encrypted_lagrange_basis@),
                polynomial@,
                polynomial@.len(),
            ),
            res is Err ==> res->Err_0 == Error::LengthMismatch,
    {
        let pts = polynomial.get_evaluation_points();
        if pts.len() != encrypted_lagrange_basis.len() {
            return Err(Error::LengthMismatch);
        }
        let ghost bd = g1_dlogs(encrypted_lagrange_basis@);
        let mut acc = g1_zero();
        let mut i: usize = 0;
        while i < pts.len()
            invariant
                polynomial.wf(),
                vals(pts@) == polynomial@,
                bd == g1_dlogs(encrypted_lagrange_basis@),
                pts@.len() == encrypted_lagrange_basis@.len(),
                i <= pts@.len(),
                g1_dlog(acc) == dot_mod(bd, polynomial@, i as nat),
            decreases pts@.len() - i,
        {
            proof {
                assert(vals(pts@)[i as int] == pts@[i as int]@);
                assert(in_field(polynomial@[i as int]));
                assert(bd[i as int] == g1_dlog(encrypted_lagrange_basis@[i as int]));
            }
            let term = g1_scale(&encrypted_lagrange_basis[i], &pts[i]);
            acc = g1_add(&acc, &term);
            i = i + 1;
        }
        Ok(acc)
    }

    /// Commits to a multilinear polynomial against the encrypted basis.
    pub fn generate_commitment(
        f: &MultiLinearPolynomial,
        encrypted_lagrange_basis: &[G1Point],
    ) -> (res: Result<G1Point, Error>)
        requires
            f.wf(),
        ensures
            res is Ok <==> f@.len() == encrypted_lagrange_basis@.len(),
            res is Ok ==> g1_dlog(res->Ok_0) == dot_mod(
                g1_dlogs(encrypted_lagrange_basis@),
                f@,
                f@.len(),
            ),
            res is Err ==> res->Err_0 == Error::LengthMismatch,
    {
        Self::evaluate_at_tau(f, encrypted_lagrange_basis)
    }

    /// Opens `polynomial` at the point `openings`: computes the claimed
    /// value `v`, and per variable the quotient of dividing by
    /// `x_j − openings[j]`, blown back up to the basis width and committed.
    pub fn generate_proof(
        openings: &[FieldElement],
        encrypted_lagrange_basis: &[G1Point],
        polynomial: &MultiLinearPolynomial,
    ) -> (res: Result<MultilinearKZGProof, Error>)
        requires
            polynomial.wf(),
            in_field_seq(vals(openings@)),
        ensures
            res is Ok <==> openings@.len() == lg(polynomial@.len()) && polynomial@.len()
                == encrypted_lagrange_basis@.len(),
            res is Ok ==> res->Ok_0.v@ == multi_eval(
                polynomial@,
                all_some(vals(openings@)),
            )[0] && in_field(res->Ok_0.v@) && res->Ok_0.q_taus@.len() == openings@.len(),
            res is Ok ==> g1_dlog(res->Ok_0.commitment) == dot_mod(
                g1_dlogs(encrypted_lagrange_basis@),
                polynomial@,
                polynomial@.len(),
            ),
            res is Ok ==> forall|j: int|
                0 <= j < openings@.len() ==> g1_dlog(#[trigger] res->Ok_0.q_taus@[j]) == dot_mod(
                    g1_dlogs(encrypted_lagrange_basis@),
                    kzg_blown_quotient(polynomial@, vals(openings@), j as nat),
                    polynomial@.len(),
                ),
            res is Err ==> res->Err_0 == Error::LengthMismatch,
    {
        let commitment = match Self::generate_commitment(polynomial, encrypted_lagrange_basis) {
            Ok(c) => c,
            Err(e) => {
                return Err(e);
            },
        };
        let pts_opt = all_points_vec(openings);
        let v_poly = match polynomial.evaluate(pts_opt.as_slice()) {
            Ok(v) => v,
            Err(_) => {
                return Err(Error::LengthMismatch);
            },
        };
        let v = {
            let vp = v_poly.get_evaluation_points();
            proof {
                assert(v_poly@.len() >= 1);
                assert(vals(vp@)[0] == vp@[0]@);
                assert(in_field(v_poly@[0]));
            }
            vp[0]
        };
        let f_minus_v = polynomial.minus(&v);
        let n = openings.len();
        let basis_len = encrypted_lagrange_basis.len();
        let ghost full_len = polynomial@.len();
        proof {
            lemma_pow2_lg(full_len);
            assert(full_len == basis_len as nat);
        }
        let ghost fv = polynomial@;
        let ghost opsv = vals(openings@);
        let ghost bd = g1_dlogs(encrypted_lagrange_basis@);
        let mut dividend = f_minus_v;
        let mut quotients: Vec<G1Point> = Vec::new();
        let mut idx: usize = 0;
        proof {
            assert(dividend@ == kzg_dividend(fv, opsv, 0));
        }
        while idx < n
            invariant
                in_field_seq(vals(openings@)),
                n == openings@.len(),
                n == lg(full_len),
                fv == polynomial@,
                opsv == vals(openings@),
                bd == g1_dlogs(encrypted_lagrange_basis@),
                full_len == fv.len(),
                full_len == encrypted_lagrange_basis@.len(),
                full_len == pow2(n as nat),
                pow2(n as nat) <= usize::MAX,
                idx <= n,
                dividend.wf(),
                dividend@ == kzg_dividend(fv, opsv, idx as nat),
                lg(dividend@.len()) == n - idx,
                dividend@.len() == pow2((n - idx) as nat),
                quotients@.len() == idx,
                forall|j: int|
                    0 <= j < idx ==> g1_dlog(#[trigger] quotients@[j]) == dot_mod(
                        bd,
                        kzg_blown_quotient(fv, opsv, j as nat),
                        full_len,
                    ),
            decreases n - idx,
        {
            proof {
                assert(vals(openings@)[idx as int] == openings@[idx as int]@);
                assert(in_field(vals(openings@)[idx as int]));
                vstd::arithmetic::power2::lemma_pow2_pos((n - idx) as nat);
            }
            let (quotient, remainder) = match dividend.compute_quotient_remainder(
                &openings[idx],
                0,
            ) {
                Ok(qr) => qr,
                Err(_) => {
                    proof {
                        assert(false);
                    }
                    return Err(Error::LengthMismatch);
                },
            };
            proof {
                // the quotient has one variable fewer; blowing it up left by
                // idx + 1 restores the basis width
                assert(quotient@.len() == pow2((n - idx) as nat) / 2);
                assert(pow2((n - idx) as nat) == 2 * pow2((n - idx - 1) as nat)) by {
                    vstd::arithmetic::power2::lemma_pow2_adds(1, (n - idx - 1) as nat);
                    vstd::arithmetic::power2::lemma2_to64();
                }
                assert(vals(quotient@).len() * pow2((idx + 1) as nat) == pow2(n as nat)) by {
                    vstd::arithmetic::power2::lemma_pow2_adds((n - idx - 1) as nat, (idx + 1) as nat);
                }
            }
            let blown = MultiLinearPolynomial::blow_up_n_times(
                BlowUpDirection::Left,
                idx + 1,
                quotient.as_slice(),
            );
            let blown_poly = match MultiLinearPolynomial::new(&blown) {
                Ok(b) => b,
                Err(_) => {
                    proof {
                        lemma_blow_up_len(
                            BlowUpDirection::Left,
                            (idx + 1) as nat,
                            vals(quotient@),
                        );
                        lemma_lg_pow2(n as nat);
                        assert(false);
                    }
                    return Err(Error::LengthMismatch);
                },
            };
            proof {
                lemma_blow_up_len(BlowUpDirection::Left, (idx + 1) as nat, vals(quotient@));
            }
            let q_tau = match Self::evaluate_at_tau(&blown_poly, encrypted_lagrange_basis) {
                Ok(q) => q,
                Err(_) => {
                    proof {
                        assert(false);
                    }
                    return Err(Error::LengthMismatch);
                },
            };
            proof {
                assert(vals(quotient@) == quotient_seq(kzg_dividend(fv, opsv, idx as nat), 0));
                assert(blown_poly@ == kzg_blown_quotient(fv, opsv, idx as nat));
                assert(g1_dlog(q_tau) == dot_mod(bd, kzg_blown_quotient(fv, opsv, idx as nat), full_len));
            }
            quotients.push(q_tau);
            proof {
                assert(quotients@[idx as int] == q_tau);
                assert(remainder@ == kzg_dividend(fv, opsv, (idx + 1) as nat));
            }
            dividend = remainder;
            idx = idx + 1;
        }
        Ok(MultilinearKZGProof { commitment, v, q_taus: quotients })
    }
}

/// Each blow-up step doubles the table, so `n` steps scale it by `2^n`.
pub proof fn lemma_blow_up_len(dir: BlowUpDirection, n: nat, s: Seq<int>)
    ensures
        crate::multilinear::blow_up_seq(dir, n, s).len() == s.len() * pow2(n),
    decreases n,
{
    if n == 0 {
        vstd::arithmetic::power2::lemma2_to64();
        assert(s.len() * 1 == s.len()) by (nonlinear_arith);
    } else {
        let d = crate::multilinear::double_seq(dir, s);
        lemma_blow_up_len(dir, (n - 1) as nat, d);
        assert(d.len() == 2 * s.len());
        assert(pow2(n) == 2 * pow2((n - 1) as nat)) by {
            vstd::arithmetic::power2::lemma_pow2_adds(1, (n - 1) as nat);
            vstd::arithmetic::power2::lemma2_to64();
        }
        assert((2 * s.len()) * pow2((n - 1) as nat) == s.len() * (2 * pow2((n - 1) as nat)))
            by (nonlinear_arith);
    }
}

/// The multilinear KZG verifier.
pub struct MultilinearKZGVerifier {
}

impl MultilinearKZGVerifier {
    /// Checks the pairing identity
    /// `e(C − g1^v, g2) == Π_j e(q_j, g2^{τ_j} − g2^{a_j})`:
    /// under the trusted exponent model the verdict is exactly
    /// `kzg_accepts` over the points' exponents; a shape mismatch between
    /// the proof, the openings and the setup is rejected.
    pub fn verify_proof(
        proof: &MultilinearKZGProof,
        openings: &[FieldElement],
        encrypted_taus: &[G2Point],
    ) -> (r: bool)
        requires
            in_field(proof.v@),
            in_field_seq(vals(openings@)),
        ensures
            r == kzg_accepts(
                g1_dlog(proof.commitment),
                proof.v@,
                g1_dlogs(proof.q_taus@),
                g2_dlogs(encrypted_taus@),
                vals(openings@),
            ),
    {
        let ghost qd = g1_dlogs(proof.q_taus@);
        let ghost taud = g2_dlogs(encrypted_taus@);
        let ghost opsv = vals(openings@);
        if proof.q_taus.len() != openings.len() || openings.len() > encrypted_taus.len() {
            return false;
        }
        let one = fe_from_u64(1);
        let g1_v = g1_gen_mul(&proof.v);
        let f_tau_minus_v = g1_sub(&proof.commitment, &g1_v);
        let g2_1 = g2_gen_mul(&one);
        let lhs = pairing(&f_tau_minus_v, &g2_1);
        let mut rhs = po_zero();
        let mut i: usize = 0;
        while i < proof.q_taus.len()
            invariant
                in_field_seq(vals(openings@)),
                qd == g1_dlogs(proof.q_taus@),
                taud == g2_dlogs(encrypted_taus@),
                opsv == vals(openings@),
                proof.q_taus@.len() == openings@.len(),
                openings@.len() <= encrypted_taus@.len(),
                i <= proof.q_taus@.len(),
                gt_dlog(rhs) == kzg_rhs(qd, taud, opsv, i as nat),
                in_field(gt_dlog(rhs)),
            decreases proof.q_taus@.len() - i,
        {
            proof {
                assert(vals(openings@)[i as int] == openings@[i as int]@);
                assert(in_field(vals(openings@)[i as int]));
                assert(qd[i as int] == g1_dlog(proof.q_taus@[i as int]));
                assert(taud[i as int] == g2_dlog(encrypted_taus@[i as int]));
            }
            let g2_a = g2_gen_mul(&openings[i]);
            let diff = g2_sub(&encrypted_taus[i], &g2_a);
            let term = pairing(&proof.q_taus[i], &diff);
            rhs = po_add(&rhs, &term);
            i = i + 1;
        }
        po_eq(&lhs, &rhs)
    }
}

/// A multi-scalar exponent is a canonical field value.
proof fn lemma_dot_in_field(a: Seq<int>, b: Seq<int>, n: nat)
    ensures
        0 <= dot_mod(a, b, n) < crate::field::p(),
    decreases n,
{
    if n > 0 {
        lemma_dot_in_field(a, b, (n - 1) as nat);
    }
}

/// A multi-scalar sum splits at any prefix.
proof fn lemma_dot_mod_concat(a: Seq<int>, b: Seq<int>, m: nat, n: nat)
    requires
        m <= n,
        n <= a.len(),
        n <= b.len(),
    ensures
        dot_mod(a, b, n) == f_add(
            dot_mod(a, b, m),
            dot_mod(a.skip(m as int), b.skip(m as int), (n - m) as nat),
        ),
    decreases n - m,
{
    let pp = crate::field::p();
    if n == m {
        lemma_dot_in_field(a, b, m);
        crate::field::lemma_add_zero(dot_mod(a, b, m));
    } else {
        lemma_dot_mod_concat(a, b, m, (n - 1) as nat);
        assert(a.skip(m as int)[n - 1 - m] == a[n - 1]);
        assert(b.skip(m as int)[n - 1 - m] == b[n - 1]);
        crate::field::lemma_add_assoc_mod(
            dot_mod(a, b, m),
            dot_mod(a.skip(m as int), b.skip(m as int), (n - 1 - m) as nat),
            f_mul(a[n - 1], b[n - 1]),
        );
    }
}

/// A common factor in the first operand comes out of the multi-scalar sum.
proof fn lemma_dot_mod_factor(
    a: Seq<int>,
    b: Seq<int>,
    w: int,
    base: Seq<int>,
    b2: Seq<int>,
    n: nat,
)
    requires
        forall|i: int| 0 <= i < n ==> #[trigger] a[i] == f_mul(w, base[i]),
        forall|i: int| 0 <= i < n ==> #[trigger] b[i] == b2[i],
    ensures
        dot_mod(a, b, n) == f_mul(w, dot_mod(base, b2, n)),
    decreases n,
{
    let pp = crate::field::p();
    if n == 0 {
        assert(f_mul(w, 0) == 0) by {
            assert(w * 0 == 0) by (nonlinear_arith);
            vstd::arithmetic::div_mod::lemma_small_mod(0nat, pp as nat);
        }
    } else {
        lemma_dot_mod_factor(a, b, w, base, b2, (n - 1) as nat);
        // w·base[i]·b[i] regroups as w·(base[i]·b[i])
        crate::field::lemma_mul_assoc_mod(w, base[n - 1], b2[n - 1]);
        crate::field::lemma_mul_distributes(
            w,
            dot_mod(base, b2, (n - 1) as nat),
            f_mul(base[n - 1], b2[n - 1]),
        );
        assert(f_mul(f_mul(w, base[n - 1]), b2[n - 1]) == f_mul(w, f_mul(base[n - 1], b2[n - 1])));
    }
}

/// A bit below the stripped top bits survives reduction: for `e < m`,
/// bit `e` of `i mod 2^m` equals bit `e` of `i`.
proof fn lemma_mod_div_bit(i: int, e: nat, m: nat)
    requires
        0 <= i,
        e + 1 <= m,
    ensures
        ((i % pow2(m) as int) / pow2(e) as int) % 2 == (i / pow2(e) as int) % 2,
{
    let pm = pow2(m) as int;
    let pe = pow2(e) as int;
    vstd::arithmetic::power2::lemma_pow2_pos(m);
    vstd::arithmetic::power2::lemma_pow2_pos(e);
    vstd::arithmetic::power2::lemma_pow2_pos((m - e) as nat);
    let q = i / pm;
    let r = i % pm;
    vstd::arithmetic::div_mod::lemma_fundamental_div_mod(i, pm);
    assert(pm == pow2((m - e) as nat) as int * pe) by {
        vstd::arithmetic::power2::lemma_pow2_adds((m - e) as nat, e);
    }
    let c = pow2((m - e) as nat) as int;
    assert(i == (q * c) * pe + r) by (nonlinear_arith)
        requires
            i == q * pm + r,
            pm == c * pe,
    ;
    assert(i / pe == r / pe + q * c) by {
        vstd::arithmetic::div_mod::lemma_hoist_over_denominator(r, q * c, pow2(e));
        assert((q * c) * pow2(e) == (q * c) * pe);
    }
    assert(c == 2 * pow2((m - e - 1) as nat) as int) by {
        vstd::arithmetic::power2::lemma_pow2_adds(1, (m - e - 1) as nat);
        vstd::arithmetic::power2::lemma2_to64();
    }
    assert((r / pe + q * c) % 2 == (r / pe) % 2) by {
        let h = q * pow2((m - e - 1) as nat) as int;
        assert(q * c == 2 * h) by (nonlinear_arith)
            requires
                c == 2 * pow2((m - e - 1) as nat) as int,
                h == q * pow2((m - e - 1) as nat) as int,
        ;
        vstd::arithmetic::div_mod::lemma_mod_multiples_vanish(h, r / pe, 2);
    }
}

/// Peeling the leading Lagrange factor: the product over all variables is
/// the leading factor times the product over the remaining variables at the
/// reduced vertex.
proof fn lemma_lagrange_peel(taus: Seq<int>, i: int, t: nat)
    requires
        taus.len() >= 1,
        1 <= t <= taus.len(),
        0 <= i,
    ensures
        lagrange_partial(taus, taus.len(), i, t) == f_mul(
            lagrange_factor(taus, taus.len(), i, 0),
            lagrange_partial(
                taus.drop_first(),
                (taus.len() - 1) as nat,
                i % pow2((taus.len() - 1) as nat) as int,
                (t - 1) as nat,
            ),
        ),
    decreases t,
{
    let n = taus.len();
    let tp = taus.drop_first();
    let ii = i % pow2((n - 1) as nat) as int;
    let f0 = lagrange_factor(taus, n, i, 0);
    vstd::arithmetic::power2::lemma_pow2_pos((n - 1) as nat);
    reveal_with_fuel(lagrange_partial, 3);
    if t == 1 {
        assert(lagrange_partial(taus, n, i, 1) == f_mul(1, f0));
        assert(lagrange_partial(tp, (n - 1) as nat, ii, 0) == 1);
        assert(1 * f0 == f0 * 1) by (nonlinear_arith);
    } else {
        lemma_lagrange_peel(taus, i, (t - 1) as nat);
        // the factor for step t − 1 is the reduced vertex's factor
        assert(lagrange_factor(taus, n, i, t - 1) == lagrange_factor(
            tp,
            (n - 1) as nat,
            ii,
            t - 2,
        )) by {
            assert(tp[t - 2] == taus[t - 1]);
            assert((n - 1 - (t - 1)) as nat == ((n - 1) - 1 - (t - 2)) as nat);
            lemma_mod_div_bit(i, (n - 1 - (t - 1)) as nat, (n - 1) as nat);
        }
        crate::field::lemma_mul_assoc_mod(
            f0,
            lagrange_partial(tp, (n - 1) as nat, ii, (t - 2) as nat),
            lagrange_factor(tp, (n - 1) as nat, ii, t - 2),
        );
    }
}

/// The encrypted Lagrange basis computes the direct multilinear-extension
/// evaluation: the basis-weighted sum of a table equals the table's value
/// at the secret point.
pub proof fn lemma_dot_lagrange_is_mle(taus: Seq<int>, s: Seq<int>)
    requires
        in_field_seq(taus),
        in_field_seq(s),
        s.len() == pow2(taus.len()),
    ensures
        dot_mod(lagrange_basis(taus), s, s.len()) == crate::multilinear::mle_eval(s, taus),
    decreases taus.len(),
{
    let pp = crate::field::p();
    let n = taus.len();
    if n == 0 {
        vstd::arithmetic::power2::lemma2_to64();
        assert(s.len() == 1);
        assert(lagrange_basis(taus)[0] == 1);
        assert(dot_mod(lagrange_basis(taus), s, 0) == 0);
        assert(dot_mod(lagrange_basis(taus), s, 1) == f_add(0, f_mul(1, s[0])));
        assert(in_field(s[0]));
        assert(f_mul(1, s[0]) == s[0]) by {
            vstd::arithmetic::div_mod::lemma_small_mod(s[0] as nat, pp as nat);
        }
        crate::field::lemma_add_zero(s[0]);
    } else {
        let tp = taus.drop_first();
        let half = pow2((n - 1) as nat);
        vstd::arithmetic::power2::lemma_pow2_pos((n - 1) as nat);
        assert(s.len() == 2 * half) by {
            vstd::arithmetic::power2::lemma_pow2_adds(1, (n - 1) as nat);
            vstd::arithmetic::power2::lemma2_to64();
        }
        let lb = lagrange_basis(taus);
        let lbp = lagrange_basis(tp);
        let lo = s.take(half as int);
        let hi = s.skip(half as int);
        let w0 = f_sub(1, taus[0]);
        let w1 = taus[0];
        // every basis entry peels into the leading factor and the reduced
        // basis entry
        assert forall|i: int| 0 <= i < half implies #[trigger] lb[i] == f_mul(w0, lbp[i]) by {
            lemma_lagrange_peel(taus, i, n);
            vstd::arithmetic::div_mod::lemma_small_mod(i as nat, half);
            assert(i / half as int == 0) by {
                vstd::arithmetic::div_mod::lemma_basic_div(i, half as int);
            }
            assert(lagrange_factor(taus, n, i, 0) == w0);
        }
        assert forall|i: int|
            0 <= i < half implies #[trigger] lb.skip(half as int)[i] == f_mul(w1, lbp[i]) by {
            let j = i + half;
            assert(lb.skip(half as int)[i] == lb[j]);
            lemma_lagrange_peel(taus, j, n);
            vstd::arithmetic::div_mod::lemma_fundamental_div_mod_converse(
                j,
                half as int,
                1,
                i,
            );
            assert(lagrange_factor(taus, n, j, 0) == w1);
        }
        lemma_dot_mod_concat(lb, s, half, s.len());
        assert forall|i: int| 0 <= i < half implies #[trigger] s[i] == lo[i] by {}
        lemma_dot_mod_factor(lb, s, w0, lbp, lo, half);
        assert forall|i: int|
            0 <= i < half implies #[trigger] s.skip(half as int)[i] == hi[i] by {}
        lemma_dot_mod_factor(lb.skip(half as int), s.skip(half as int), w1, lbp, hi, half);
        assert forall|j: int| 0 <= j < lo.len() implies in_field(#[trigger] lo[j]) by {
            assert(lo[j] == s[j]);
        }
        assert forall|j: int| 0 <= j < hi.len() implies in_field(#[trigger] hi[j]) by {
            assert(hi[j] == s[j + half]);
        }
        assert forall|j: int| 0 <= j < tp.len() implies in_field(#[trigger] tp[j]) by {
            assert(tp[j] == taus[j + 1]);
        }
        lemma_dot_lagrange_is_mle(tp, lo);
        lemma_dot_lagrange_is_mle(tp, hi);
        assert(crate::multilinear::mle_eval(s, taus) == f_add(
            f_mul(w0, crate::multilinear::mle_eval(lo, tp)),
            f_mul(w1, crate::multilinear::mle_eval(hi, tp)),
        ));
    }
}

/// A direct evaluation of a canonical table is canonical.
proof fn lemma_mle_in_field(s: Seq<int>, pt: Seq<int>)
    requires
        in_field_seq(s),
        s.len() == pow2(pt.len()),
    ensures
        in_field(crate::multilinear::mle_eval(s, pt)),
    decreases pt.len(),
{
    if pt.len() == 0 {
        vstd::arithmetic::power2::lemma2_to64();
        assert(in_field(s[0]));
    }
}

/// The running dividend keeps a power-of-two length and canonical entries.
proof fn lemma_kzg_dividend_wf(fv: Seq<int>, ops: Seq<int>, j: nat)
    requires
        j <= ops.len(),
        in_field_seq(fv),
        fv.len() == pow2(ops.len()),
    ensures
        kzg_dividend(fv, ops, j).len() == pow2((ops.len() - j) as nat),
        in_field_seq(kzg_dividend(fv, ops, j)),
    decreases j,
{
    let n = ops.len();
    if j == 0 {
        let d0 = kzg_dividend(fv, ops, 0);
        assert forall|k: int| 0 <= k < d0.len() implies in_field(#[trigger] d0[k]) by {
            assert(d0[k] == f_sub(fv[k], multi_eval(fv, all_some(ops))[0]));
        }
    } else {
        lemma_kzg_dividend_wf(fv, ops, (j - 1) as nat);
        let prev = kzg_dividend(fv, ops, (j - 1) as nat);
        let cur = kzg_dividend(fv, ops, j);
        assert(cur == partial_eval(prev, 0, ops[j - 1]));
        assert(pow2((n - j + 1) as nat) == 2 * pow2((n - j) as nat)) by {
            vstd::arithmetic::power2::lemma_pow2_adds(1, (n - j) as nat);
            vstd::arithmetic::power2::lemma2_to64();
        }
        assert forall|k: int| 0 <= k < cur.len() implies in_field(#[trigger] cur[k]) by {
            assert(cur[k] == crate::field::f_add(
                prev[crate::multilinear::lo_index(prev.len(), 0, k)],
                f_mul(
                    ops[j - 1],
                    f_sub(
                        prev[crate::multilinear::hi_index(prev.len(), 0, k)],
                        prev[crate::multilinear::lo_index(prev.len(), 0, k)],
                    ),
                ),
            ));
        }
    }
}

/// The fully divided-out dividend is the dividend evaluated at the
/// openings: both walk the same chain of leading-variable fixings.
proof fn lemma_dividend_is_multi_eval(fv: Seq<int>, ops: Seq<int>, j: nat)
    requires
        j <= ops.len(),
    ensures
        crate::multilinear::multi_eval_aux(
            kzg_dividend(fv, ops, j),
            all_some(ops.skip(j as int)),
            0,
        ) == kzg_dividend(fv, ops, ops.len()),
    decreases ops.len() - j,
{
    let n = ops.len();
    if j == n {
        assert(all_some(ops.skip(n as int)).len() == 0);
    } else {
        lemma_dividend_is_multi_eval(fv, ops, j + 1);
        assert(all_some(ops.skip(j as int))[0] == Option::Some(ops[j as int]));
        assert(all_some(ops.skip(j as int)).drop_first() =~= all_some(
            ops.skip(j as int + 1),
        ));
        assert(partial_eval(kzg_dividend(fv, ops, j), 0, ops[j as int]) == kzg_dividend(
            fv,
            ops,
            j + 1,
        ));
    }
}

/// The pairing right side stays canonical as it accumulates.
proof fn lemma_kzg_rhs_in_field(qd: Seq<int>, taud: Seq<int>, ops: Seq<int>, n: nat)
    ensures
        0 <= kzg_rhs(qd, taud, ops, n) < crate::field::p(),
    decreases n,
{
    if n > 0 {
        lemma_kzg_rhs_in_field(qd, taud, ops, (n - 1) as nat);
    }
}

/// The division telescope: the first `j` quotient terms plus the remaining
/// dividend's value rebuild the full dividend's value at the secret point.
proof fn lemma_kzg_telescope(fv: Seq<int>, ops: Seq<int>, taus: Seq<int>, j: nat)
    requires
        j <= ops.len(),
        in_field_seq(fv),
        in_field_seq(ops),
        in_field_seq(taus),
        taus.len() == ops.len(),
        fv.len() == pow2(ops.len()),
    ensures
        crate::field::f_add(
            kzg_rhs(
                Seq::new(
                    ops.len(),
                    |t: int|
                        crate::multilinear::mle_eval(
                            quotient_seq(kzg_dividend(fv, ops, t as nat), 0),
                            taus.skip(t + 1),
                        ),
                ),
                taus,
                ops,
                j,
            ),
            crate::multilinear::mle_eval(kzg_dividend(fv, ops, j), taus.skip(j as int)),
        ) == crate::multilinear::mle_eval(kzg_dividend(fv, ops, 0), taus),
    decreases j,
{
    let n = ops.len();
    let qd = Seq::new(
        n,
        |t: int|
            crate::multilinear::mle_eval(
                quotient_seq(kzg_dividend(fv, ops, t as nat), 0),
                taus.skip(t + 1),
            ),
    );
    if j == 0 {
        assert(taus.skip(0) =~= taus);
        lemma_kzg_dividend_wf(fv, ops, 0);
        lemma_mle_in_field(kzg_dividend(fv, ops, 0), taus);
        crate::field::lemma_add_zero(
            crate::multilinear::mle_eval(kzg_dividend(fv, ops, 0), taus),
        );
        assert(crate::field::f_add(
            0,
            crate::multilinear::mle_eval(kzg_dividend(fv, ops, 0), taus),
        ) == crate::multilinear::mle_eval(kzg_dividend(fv, ops, 0), taus)) by {
            vstd::arithmetic::div_mod::lemma_small_mod(0nat, crate::field::p() as nat);
            lemma_mle_in_field(kzg_dividend(fv, ops, 0), taus);
            crate::field::lemma_add_zero(
                crate::multilinear::mle_eval(kzg_dividend(fv, ops, 0), taus),
            );
        }
    } else {
        lemma_kzg_telescope(fv, ops, taus, (j - 1) as nat);
        let dprev = kzg_dividend(fv, ops, (j - 1) as nat);
        lemma_kzg_dividend_wf(fv, ops, (j - 1) as nat);
        let rest = taus.skip(j as int - 1);
        assert(rest.len() == n - j + 1);
        assert(dprev.len() == pow2((n - j + 1) as nat));
        assert(dprev.len() >= 2) by {
            vstd::arithmetic::power2::lemma_pow2_adds(1, (n - j) as nat);
            vstd::arithmetic::power2::lemma2_to64();
            vstd::arithmetic::power2::lemma_pow2_pos((n - j) as nat);
        }
        assert(crate::bits::is_pow2(dprev.len()) && lg(dprev.len()) == n - j + 1) by {
            crate::bits::lemma_lg_pow2((n - j + 1) as nat);
        }
        assert(rest[0] == taus[j - 1]);
        assert(rest.drop_first() =~= taus.skip(j as int));
        crate::multilinear::lemma_mle_divide_step(dprev, ops[j - 1], rest);
        let qv = crate::multilinear::mle_eval(
            quotient_seq(dprev, 0),
            taus.skip(j as int),
        );
        let dv = crate::multilinear::mle_eval(kzg_dividend(fv, ops, j), taus.skip(j as int));
        assert(partial_eval(dprev, 0, ops[j - 1]) == kzg_dividend(fv, ops, j));
        assert(f_mul(1, dv) == dv) by {
            lemma_kzg_dividend_wf(fv, ops, j);
            lemma_mle_in_field(kzg_dividend(fv, ops, j), taus.skip(j as int));
            vstd::arithmetic::div_mod::lemma_small_mod(dv as nat, crate::field::p() as nat);
        }
        assert(crate::multilinear::mle_eval(dprev, rest) == crate::field::f_add(
            f_mul(f_sub(taus[j - 1], ops[j - 1]), qv),
            dv,
        ));
        assert(qd[j - 1] == qv);
        // fold the new term into the running sum
        assert(kzg_rhs(qd, taus, ops, j) == crate::field::f_add(
            kzg_rhs(qd, taus, ops, (j - 1) as nat),
            f_mul(qd[j - 1], f_sub(taus[j - 1], ops[j - 1])),
        ));
        assert(f_mul(qv, f_sub(taus[j - 1], ops[j - 1])) == f_mul(
            f_sub(taus[j - 1], ops[j - 1]),
            qv,
        )) by {
            assert(qv * (f_sub(taus[j - 1], ops[j - 1])) == (f_sub(taus[j - 1], ops[j - 1]))
                * qv) by (nonlinear_arith);
        }
        crate::field::lemma_add_assoc_mod(
            kzg_rhs(qd, taus, ops, (j - 1) as nat),
            f_mul(f_sub(taus[j - 1], ops[j - 1]), qv),
            dv,
        );
    }
}

/// KZG completeness: an honest opening is accepted.  Over a trusted setup
/// at the secret point `taus`, the commitment to `fv`, the claimed value
/// `fv(ops)`, and the blown-up quotient commitments satisfy the pairing
/// identity the verifier checks, exponent for exponent.  The arguments are
/// exactly what the contracts produce: `TrustedSetup::new` pins the basis
/// exponents to `lagrange_basis` and the tau exponents to the taus,
/// `MultilinearKZGProver::generate_proof` pins `v`, the commitment exponent
/// and each quotient exponent to the values named here, and
/// `MultilinearKZGVerifier::verify_proof` returns `kzg_accepts` of them —
/// so an honest prove-then-verify run returns true.
pub proof fn lemma_kzg_honest_accepts(taus: Seq<int>, fv: Seq<int>, ops: Seq<int>)
    requires
        in_field_seq(taus),
        in_field_seq(fv),
        in_field_seq(ops),
        fv.len() == pow2(taus.len()),
        ops.len() == taus.len(),
    ensures
        kzg_accepts(
            dot_mod(lagrange_basis(taus), fv, fv.len()),
            multi_eval(fv, all_some(ops))[0],
            Seq::new(
                ops.len(),
                |j: int| dot_mod(lagrange_basis(taus), kzg_blown_quotient(fv, ops, j as nat), fv.len()),
            ),
            taus,
            ops,
        ),
{
    let pp = crate::field::p();
    let n = ops.len();
    crate::bits::lemma_lg_pow2(n);
    assert(lg(fv.len()) == n);
    // the claimed value is the direct evaluation at the openings
    crate::multilinear::lemma_evaluate_is_mle(fv, ops);
    assert(all_some(ops) =~= ops.map_values(|x: int| Option::<int>::Some(x)));
    let v = multi_eval(fv, all_some(ops))[0];
    assert(v == crate::multilinear::mle_eval(fv, ops));
    lemma_mle_in_field(fv, ops);
    // the commitment exponent is the evaluation at the secret point
    lemma_dot_lagrange_is_mle(taus, fv);
    let cd = dot_mod(lagrange_basis(taus), fv, fv.len());
    assert(cd == crate::multilinear::mle_eval(fv, taus));
    // the dividend's value at the secret point is the left side
    let d0 = kzg_dividend(fv, ops, 0);
    assert(d0 == crate::multilinear::minus_seq(fv, v));
    crate::multilinear::lemma_mle_eval_minus(fv, v, taus);
    assert(crate::multilinear::mle_eval(d0, taus) == f_sub(cd, v));
    assert(f_mul(f_sub(cd, v), 1) == f_sub(cd, v)) by {
        vstd::arithmetic::div_mod::lemma_small_mod((f_sub(cd, v)) as nat, pp as nat);
    }
    // the divided-out dividend vanishes at the openings
    lemma_dividend_is_multi_eval(fv, ops, 0);
    assert(all_some(ops.skip(0)) =~= all_some(ops));
    let dn = kzg_dividend(fv, ops, n);
    assert(dn == multi_eval(d0, all_some(ops)));
    lemma_kzg_dividend_wf(fv, ops, 0);
    crate::multilinear::lemma_evaluate_is_mle(d0, ops);
    crate::multilinear::lemma_mle_eval_minus(fv, v, ops);
    assert(crate::multilinear::mle_eval(d0, ops) == f_sub(v, v));
    assert(f_sub(v, v) == 0) by {
        vstd::arithmetic::div_mod::lemma_small_mod(0nat, pp as nat);
    }
    assert(dn =~= seq![0int]) by {
        assert(multi_eval(d0, all_some(ops)) =~= seq![crate::multilinear::mle_eval(d0, ops)]);
    }
    // telescope the quotient terms
    lemma_kzg_telescope(fv, ops, taus, n);
    let qd_mle = Seq::new(
        n,
        |t: int|
            crate::multilinear::mle_eval(
                quotient_seq(kzg_dividend(fv, ops, t as nat), 0),
                taus.skip(t + 1),
            ),
    );
    assert(taus.skip(n as int).len() == 0);
    assert(crate::multilinear::mle_eval(dn, taus.skip(n as int)) == dn[0]);
    assert(dn[0] == 0);
    lemma_kzg_rhs_in_field(qd_mle, taus, ops, n);
    assert(crate::field::f_add(kzg_rhs(qd_mle, taus, ops, n), 0) == kzg_rhs(
        qd_mle,
        taus,
        ops,
        n,
    )) by {
        crate::field::lemma_add_zero(kzg_rhs(qd_mle, taus, ops, n));
    }
    assert(kzg_rhs(qd_mle, taus, ops, n) == f_sub(cd, v));
    // the stated quotient exponents are the same values
    let qd_stated = Seq::new(
        n,
        |j: int| dot_mod(lagrange_basis(taus), kzg_blown_quotient(fv, ops, j as nat), fv.len()),
    );
    assert forall|t: int| 0 <= t < n implies #[trigger] qd_stated[t] == qd_mle[t] by {
        let q = quotient_seq(kzg_dividend(fv, ops, t as nat), 0);
        let blown = kzg_blown_quotient(fv, ops, t as nat);
        lemma_kzg_dividend_wf(fv, ops, t as nat);
        assert(q.len() == pow2((n - t) as nat) / 2);
        assert(pow2((n - t) as nat) == 2 * pow2((n - t - 1) as nat)) by {
            vstd::arithmetic::power2::lemma_pow2_adds(1, (n - t - 1) as nat);
            vstd::arithmetic::power2::lemma2_to64();
        }
        assert(q.len() == pow2((n - t - 1) as nat));
        assert forall|k: int| 0 <= k < q.len() implies in_field(#[trigger] q[k]) by {
            let d = kzg_dividend(fv, ops, t as nat);
            assert(q[k] == f_sub(
                d[crate::multilinear::hi_index(d.len(), 0, k)],
                d[crate::multilinear::lo_index(d.len(), 0, k)],
            ));
        }
        lemma_blow_up_len(BlowUpDirection::Left, (t + 1) as nat, q);
        assert(blown.len() == pow2((n - t - 1) as nat) * pow2((t + 1) as nat));
        assert(blown.len() == pow2(n)) by {
            vstd::arithmetic::power2::lemma_pow2_adds((n - t - 1) as nat, (t + 1) as nat);
        }
        lemma_blow_up_in_field(BlowUpDirection::Left, (t + 1) as nat, q);
        lemma_dot_lagrange_is_mle(taus, blown);
        assert(crate::bits::is_pow2(q.len()) && lg(q.len()) == n - t - 1) by {
            crate::bits::lemma_lg_pow2((n - t - 1) as nat);
        }
        crate::multilinear::lemma_mle_blow_up_left(q, (t + 1) as nat, taus);
    }
    assert(qd_stated =~= qd_mle);
}

/// Blow-up keeps entries canonical.
proof fn lemma_blow_up_in_field(dir: BlowUpDirection, k: nat, s: Seq<int>)
    requires
        in_field_seq(s),
    ensures
        in_field_seq(crate::multilinear::blow_up_seq(dir, k, s)),
    decreases k,
{
    if k > 0 {
        let d = crate::multilinear::double_seq(dir, s);
        assert forall|j: int| 0 <= j < d.len() implies in_field(#[trigger] d[j]) by {
            match dir {
                BlowUpDirection::Left => {
                    if j < s.len() {
                        assert(d[j] == s[j]);
                    } else {
                        assert(d[j] == s[j - s.len()]);
                    }
                },
                BlowUpDirection::Right => {
                    assert(d[j] == s[j / 2]);
                },
            }
        }
        lemma_blow_up_in_field(dir, (k - 1) as nat, d);
    }
}

} // verus!
