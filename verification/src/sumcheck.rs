use vstd::prelude::*;
use crate::field::{
    FieldElement, f_add, f_mul, f_sub, in_field, in_field_seq, vals, sum_mod, elems_to_bytes,
    le_bytes_32, fe_add, fe_from_u64, fe_to_bytes, sum_elems, lemma_view_injective,
};
use crate::multilinear::{
    MultiLinearPolynomial, multi_eval, opt_vals, opts_in_field, partial_eval, mix_tables,
};
use crate::sum_polynomial::{SumPolynomial, sum_pe_views, reduce_sum};
use crate::univariate::{UnivariatePolynomial, poly_eval, interp, distinct};
use crate::transcript::{Transcript, challenge_of, state_after_challenge, flatten_bytes};
use crate::bits::lg;

verus! {

/// The views of a list of round polynomials.
pub open spec fn round_views(ps: Seq<UnivariatePolynomial>) -> Seq<Seq<int>> {
    ps.map_values(|q: UnivariatePolynomial| q@)
}

/// The bytes one sum-check round absorbs: the running claim, then the round
/// polynomial's coefficients.
pub open spec fn round_absorb(t: Seq<u8>, claim: int, g: Seq<int>) -> Seq<u8> {
    t + le_bytes_32(claim) + elems_to_bytes(g)
}

/// The partial verifier's walk over the round polynomials: whether every
/// round's two-point sum matched the running claim, the final claim, the
/// challenges drawn, and the transcript state left behind.
pub open spec fn pv(polys: Seq<Seq<int>>, claim: int, t: Seq<u8>) -> (
    bool,
    int,
    Seq<Option<int>>,
    Seq<u8>,
)
    decreases polys.len(),
{
    if polys.len() == 0 {
        (true, claim, Seq::<Option<int>>::empty(), t)
    } else {
        let g = polys.first();
        if f_add(poly_eval(g, 0), poly_eval(g, 1)) != claim {
            (false, claim, Seq::<Option<int>>::empty(), t)
        } else {
            let ab = round_absorb(t, claim, g);
            let r = challenge_of(ab);
            let rest = pv(polys.drop_first(), poly_eval(g, r), state_after_challenge(ab));
            (rest.0, rest.1, seq![Option::Some(r)] + rest.2, rest.3)
        }
    }
}

/// The whole sum-check verdict over a plain multilinear polynomial: the
/// claimed sum matches the table's sum, every round matches, and the final
/// claim equals the polynomial at the drawn challenges (an empty proof is
/// accepted only for the zero claim).
pub open spec fn verify_spec(fv: Seq<int>, init: int, polys: Seq<Seq<int>>) -> bool {
    let r = pv(polys, init, Seq::<u8>::empty() + elems_to_bytes(fv));
    &&& sum_mod(fv) == init
    &&& r.0
    &&& if polys.len() == 0 {
        init == 0
    } else {
        r.2.len() == lg(fv.len()) && multi_eval(fv, r.2)[0] == r.1
    }
}

/// A sum-check proof: the claimed hypercube sum and one univariate round
/// polynomial per variable.
pub struct SumCheckProof {
    pub initial_claim_sum: FieldElement,
    pub round_polys: Vec<UnivariatePolynomial>,
}

impl SumCheckProof {
    /// The claim and every coefficient are canonical field values.
    pub open spec fn wf(&self) -> bool {
        &&& in_field(self.initial_claim_sum@)
        &&& forall|j: int|
            0 <= j < self.round_polys@.len() ==> in_field_seq(
                #[trigger] round_views(self.round_polys@)[j],
            )
    }
}

/// The sum-check verifier.
pub struct SumcheckVerifier {
}

impl SumcheckVerifier {
    /// Checks that the final claim equals the original polynomial evaluated
    /// at the drawn challenges.
    pub fn perform_oracle_check(
        initial_polynomial: &MultiLinearPolynomial,
        challenges: &[Option<FieldElement>],
        final_claim_sum: &FieldElement,
    ) -> (r: bool)
        requires
            initial_polynomial.wf(),
            opts_in_field(opt_vals(challenges@)),
            in_field(final_claim_sum@),
        ensures
            r == (challenges@.len() == lg(initial_polynomial@.len()) && multi_eval(
                initial_polynomial@,
                opt_vals(challenges@),
            )[0] == final_claim_sum@),
    {
        match initial_polynomial.evaluate(challenges) {
            Ok(v) => {
                let pts = v.get_evaluation_points();
                proof {
                    assert(v@.len() >= 1);
                    assert(vals(pts@)[0] == pts@[0]@);
                    assert(in_field(v@[0]));
                }
                let eq = {
                    let lhs = pts[0];
                    proof {
                        if lhs@ == final_claim_sum@ {
                            lemma_view_injective(lhs, *final_claim_sum);
                        }
                    }
                    lhs == *final_claim_sum
                };
                eq
            },
            Err(_) => false,
        }
    }

    /// Replays the rounds against the transcript: checks each round
    /// polynomial's sum at 0 and 1 against the running claim, absorbs the
    /// claim and the polynomial, and draws the next challenge.
    pub fn partial_verify(proof: &SumCheckProof, transcript: &mut Transcript) -> (res: (
        bool,
        FieldElement,
        Vec<Option<FieldElement>>,
    ))
        requires
            proof.wf(),
        ensures
            ({
                let full = pv(
                    round_views(proof.round_polys@),
                    proof.initial_claim_sum@,
                    old(transcript)@,
                );
                &&& res.0 == full.0
                &&& res.1@ == full.1
                &&& opt_vals(res.2@) == full.2
                &&& final(transcript)@ == full.3
                &&& in_field(res.1@)
                &&& opts_in_field(opt_vals(res.2@))
                &&& forall|j: int| 0 <= j < res.2@.len() ==> (#[trigger] res.2@[j]) is Some
            }),
    {
        let ghost allviews = round_views(proof.round_polys@);
        let ghost full = pv(allviews, proof.initial_claim_sum@, old(transcript)@);
        let num = proof.round_polys.len();
        let mut challenges: Vec<Option<FieldElement>> = Vec::new();
        let mut cur = proof.initial_claim_sum;
        let mut i: usize = 0;
        proof {
            assert(allviews.skip(0) =~= allviews);
            assert(opt_vals(challenges@) =~= Seq::<Option<int>>::empty());
            assert(Seq::<Option<int>>::empty() + full.2 =~= full.2);
        }
        while i < num
            invariant
                proof.wf(),
                num == proof.round_polys@.len(),
                allviews == round_views(proof.round_polys@),
                full == pv(allviews, proof.initial_claim_sum@, old(transcript)@),
                i <= num,
                in_field(cur@),
                challenges@.len() == i,
                opts_in_field(opt_vals(challenges@)),
                forall|j: int| 0 <= j < i ==> (#[trigger] challenges@[j]) is Some,
                ({
                    let rest = pv(allviews.skip(i as int), cur@, transcript@);
                    &&& full.0 == rest.0
                    &&& full.1 == rest.1
                    &&& full.2 == opt_vals(challenges@) + rest.2
                    &&& full.3 == rest.3
                }),
            decreases num - i,
        {
            let ghost pre_t = transcript@;
            proof {
                assert(allviews[i as int] == proof.round_polys@[i as int]@);
                assert(allviews.skip(i as int).first() == allviews[i as int]);
                assert(allviews.skip(i as int).drop_first() =~= allviews.skip(i as int + 1));
                assert(in_field_seq(allviews[i as int]));
            }
            let g = &proof.round_polys[i];
            let s01 = g.evaluate_sum_over_boolean_hypercube();
            let matches_claim = {
                proof {
                    if s01@ == cur@ {
                        lemma_view_injective(s01, cur);
                    }
                }
                s01 == cur
            };
            if !matches_claim {
                proof {
                    assert(opt_vals(challenges@) + pv(
                        allviews.skip(i as int),
                        cur@,
                        pre_t,
                    ).2 =~= opt_vals(challenges@));
                }
                return (false, cur, challenges);
            }
            let mut chunks: Vec<Vec<u8>> = Vec::new();
            let claim_bytes = fe_to_bytes(&cur);
            let poly_bytes = g.to_bytes();
            chunks.push(claim_bytes);
            chunks.push(poly_bytes);
            proof {
                assert(chunks@.len() == 2);
                assert(chunks@[0] == claim_bytes);
                assert(chunks@[1] == poly_bytes);
                assert(chunks@.last() == poly_bytes);
                assert(chunks@.drop_last() =~= seq![claim_bytes]);
                assert(seq![claim_bytes].drop_last() =~= Seq::<Vec<u8>>::empty());
                assert(seq![claim_bytes].last() == claim_bytes);
                assert(flatten_bytes(Seq::<Vec<u8>>::empty()) =~= Seq::<u8>::empty());
                assert(flatten_bytes(seq![claim_bytes]) == flatten_bytes(
                    seq![claim_bytes].drop_last(),
                ) + claim_bytes@);
                assert(flatten_bytes(seq![claim_bytes]) =~= claim_bytes@);
                assert(flatten_bytes(chunks@) == flatten_bytes(chunks@.drop_last())
                    + poly_bytes@);
                assert(flatten_bytes(chunks@) =~= le_bytes_32(cur@) + elems_to_bytes(
                    allviews[i as int],
                ));
            }
            transcript.append_n(&chunks);
            proof {
                assert(transcript@ =~= round_absorb(pre_t, cur@, allviews[i as int]));
            }
            let chal = transcript.sample_challenge();
            let ghost prev_ch = challenges@;
            challenges.push(Some(chal));
            let newcur = g.evaluate(&chal);
            proof {
                assert(challenges@ == prev_ch.push(Some(chal)));
                assert(challenges@[i as int] == Some(chal));
                let ab = round_absorb(pre_t, cur@, allviews[i as int]);
                let rest = pv(allviews.skip(i as int + 1), poly_eval(allviews[i as int], chal@),
                    state_after_challenge(ab));
                assert(opt_vals(challenges@) =~= opt_vals(prev_ch) + seq![
                    Option::<int>::Some(chal@)
                ]);
                assert((opt_vals(prev_ch) + seq![Option::<int>::Some(chal@)]) + rest.2
                    =~= opt_vals(prev_ch) + (seq![Option::<int>::Some(chal@)] + rest.2));
                assert forall|j: int| 0 <= j < challenges@.len() implies (
                #[trigger] challenges@[j]) is Some by {
                    if j < prev_ch.len() {
                        assert(challenges@[j] == prev_ch[j]);
                    }
                }
                assert forall|j: int|
                    0 <= j < opt_vals(challenges@).len() && opt_vals(challenges@)[j] is Some
                    implies in_field(#[trigger] opt_vals(challenges@)[j]->0) by {
                    if j < prev_ch.len() {
                        assert(opt_vals(challenges@)[j] == opt_vals(prev_ch)[j]);
                        assert(opt_vals(prev_ch)[j] is Some ==> in_field(opt_vals(prev_ch)[j]->0));
                    }
                }
            }
            cur = newcur;
            i = i + 1;
        }
        proof {
            assert(allviews.skip(num as int) =~= Seq::<Seq<int>>::empty());
            assert(opt_vals(challenges@) + Seq::<Option<int>>::empty() =~= opt_vals(challenges@));
        }
        (true, cur, challenges)
    }

    /// The full verifier: seeds a fresh transcript with the polynomial,
    /// checks the claimed sum, replays the rounds, and closes with the
    /// oracle check (an empty proof is accepted only for the zero claim).
    pub fn verify_proof(initial_polynomial: &MultiLinearPolynomial, proof: SumCheckProof) -> (r:
        bool)
        requires
            initial_polynomial.wf(),
            proof.wf(),
        ensures
            r == verify_spec(
                initial_polynomial@,
                proof.initial_claim_sum@,
                round_views(proof.round_polys@),
            ),
    {
        let mut transcript = Transcript::new();
        let f_bytes = initial_polynomial.to_bytes();
        transcript.append(f_bytes.as_slice());
        let total = initial_polynomial.evaluation_sum();
        let sums_match = {
            proof {
                if total@ == proof.initial_claim_sum@ {
                    lemma_view_injective(total, proof.initial_claim_sum);
                }
            }
            total == proof.initial_claim_sum
        };
        if !sums_match {
            return false;
        }
        let (partially_verified, final_claim_sum, challenges) = Self::partial_verify(
            &proof,
            &mut transcript,
        );
        if !partially_verified {
            return false;
        }
        if proof.round_polys.len() == 0 {
            let zero = fe_from_u64(0);
            let is_zero = {
                proof {
                    if proof.initial_claim_sum@ == zero@ {
                        lemma_view_injective(proof.initial_claim_sum, zero);
                    }
                }
                proof.initial_claim_sum == zero
            };
            return is_zero;
        }
        Self::perform_oracle_check(initial_polynomial, challenges.as_slice(), &final_claim_sum)
    }
}

/// The sum of the first half of a table.
pub open spec fn ml_s0(s: Seq<int>) -> int {
    sum_mod(s.take((s.len() / 2) as int))
}

/// The sum of the second half of a table.
pub open spec fn ml_s1(s: Seq<int>) -> int {
    sum_mod(s.skip((s.len() / 2) as int))
}

/// The round polynomial over a plain multilinear table: the line through
/// `(0, first-half sum)` and `(1, second-half sum)`.
pub open spec fn ml_round_poly(s: Seq<int>) -> Seq<int> {
    interp(seq![0int, 1int], seq![ml_s0(s), ml_s1(s)])
}

/// The transcript after one multilinear round's absorption.
pub open spec fn ml_absorb(s: Seq<int>, t: Seq<u8>) -> Seq<u8> {
    round_absorb(t, f_add(ml_s0(s), ml_s1(s)), ml_round_poly(s))
}

/// The prover's round polynomials over a plain multilinear table: each round
/// interpolates the half sums, absorbs claim and polynomial, draws the
/// challenge, and fixes the leading variable to it.
pub open spec fn prover_ml(s: Seq<int>, t: Seq<u8>, n: nat) -> Seq<Seq<int>>
    decreases n,
{
    if n == 0 {
        Seq::<Seq<int>>::empty()
    } else {
        seq![ml_round_poly(s)] + prover_ml(
            partial_eval(s, 0, challenge_of(ml_absorb(s, t))),
            state_after_challenge(ml_absorb(s, t)),
            (n - 1) as nat,
        )
    }
}

/// The point list fixing the leading variable to `v` and leaving the other
/// `nv − 1` variables free.
pub open spec fn first_point(v: int, nv: nat) -> Seq<Option<int>> {
    seq![Option::<int>::Some(v)] + Seq::new((nv - 1) as nat, |x: int| Option::<int>::None)
}

/// The sample values of one sum-polynomial round: entry `i` is the hypercube
/// sum of the polynomial with its leading variable fixed to `i`.
pub open spec fn sum_ys(q: Seq<Seq<Seq<int>>>, nv: nat, len: nat, d: nat) -> Seq<int> {
    Seq::new(
        (d + 1) as nat,
        |i: int| sum_mod(reduce_sum(sum_pe_views(q, first_point(i, nv)), len / 2)),
    )
}

/// The integers `0 ..= d` as field sample points.
pub open spec fn nums(d: nat) -> Seq<int> {
    Seq::new((d + 1) as nat, |i: int| i)
}

/// The prover's walk over a sum polynomial: the round polynomials, the
/// challenges drawn, and the transcript state left behind.
pub open spec fn prover_sum(q: Seq<Seq<Seq<int>>>, t: Seq<u8>, n: nat) -> (
    Seq<Seq<int>>,
    Seq<int>,
    Seq<u8>,
)
    decreases n,
{
    if n == 0 {
        (Seq::<Seq<int>>::empty(), Seq::<int>::empty(), t)
    } else {
        let len = q[0][0].len();
        let nv = lg(len);
        let d = q[0].len();
        let ys = sum_ys(q, nv, len, d);
        let g = interp(nums(d), ys);
        let ab = round_absorb(t, f_add(ys[0], ys[1]), g);
        let r = challenge_of(ab);
        let rest = prover_sum(
            sum_pe_views(q, first_point(r, nv)),
            state_after_challenge(ab),
            (n - 1) as nat,
        );
        (seq![g] + rest.0, seq![r] + rest.1, rest.2)
    }
}

/// A point list of `c` unset entries halves nothing.
proof fn lemma_me_len_nones(n: nat, c: nat)
    ensures
        crate::product_polynomial::me_len(n, Seq::new(c, |x: int| Option::<int>::None)) == n,
    decreases c,
{
    if c > 0 {
        lemma_me_len_nones(n, (c - 1) as nat);
        assert(Seq::new(c, |x: int| Option::<int>::None).drop_first() =~= Seq::new(
            (c - 1) as nat,
            |x: int| Option::<int>::None,
        ));
    }
}

/// Fixing only the leading variable halves the table length.
pub proof fn lemma_me_len_first_point(n: nat, v: int, nv: nat)
    requires
        nv >= 1,
    ensures
        crate::product_polynomial::me_len(n, first_point(v, nv)) == n / 2,
{
    lemma_me_len_nones(n / 2, (nv - 1) as nat);
    assert(first_point(v, nv).drop_first() =~= Seq::new(
        (nv - 1) as nat,
        |x: int| Option::<int>::None,
    ));
    assert(first_point(v, nv)[0] == Option::<int>::Some(v));
}

/// Absorbs one round's claim and round polynomial into the transcript.
fn absorb_round(transcript: &mut Transcript, claim: &FieldElement, g: &UnivariatePolynomial)
    requires
        in_field(claim@),
        g.wf(),
    ensures
        final(transcript)@ == round_absorb(old(transcript)@, claim@, g@),
{
    let mut chunks: Vec<Vec<u8>> = Vec::new();
    let claim_bytes = fe_to_bytes(claim);
    let poly_bytes = g.to_bytes();
    chunks.push(claim_bytes);
    chunks.push(poly_bytes);
    proof {
        assert(chunks@.len() == 2);
        assert(chunks@[0] == claim_bytes);
        assert(chunks@[1] == poly_bytes);
        assert(chunks@.last() == poly_bytes);
        assert(chunks@.drop_last() =~= seq![claim_bytes]);
        assert(seq![claim_bytes].drop_last() =~= Seq::<Vec<u8>>::empty());
        assert(seq![claim_bytes].last() == claim_bytes);
        assert(flatten_bytes(Seq::<Vec<u8>>::empty()) =~= Seq::<u8>::empty());
        assert(flatten_bytes(seq![claim_bytes]) == flatten_bytes(seq![claim_bytes].drop_last())
            + claim_bytes@);
        assert(flatten_bytes(seq![claim_bytes]) =~= claim_bytes@);
        assert(flatten_bytes(chunks@) == flatten_bytes(chunks@.drop_last()) + poly_bytes@);
        assert(flatten_bytes(chunks@) =~= le_bytes_32(claim@) + elems_to_bytes(g@));
    }
    transcript.append_n(&chunks);
    proof {
        assert(final(transcript)@ =~= round_absorb(old(transcript)@, claim@, g@));
    }
}

/// The point list `[Some(v), None, …]` over `nv` variables.
fn first_point_vec(v: &FieldElement, nv: u32) -> (r: Vec<Option<FieldElement>>)
    requires
        in_field(v@),
        nv >= 1,
    ensures
        opt_vals(r@) == first_point(v@, nv as nat),
        r@.len() == nv,
        opts_in_field(opt_vals(r@)),
{
    let mut out: Vec<Option<FieldElement>> = Vec::new();
    out.push(Some(*v));
    let mut i: u32 = 1;
    while i < nv
        invariant
            1 <= i <= nv,
            out@.len() == i,
            out@[0] == Some(*v),
            forall|j: int| 1 <= j < i ==> (#[trigger] out@[j]) is None,
        decreases nv - i,
    {
        out.push(None);
        i = i + 1;
    }
    proof {
        assert forall|j: int|
            0 <= j < nv implies opt_vals(out@)[j] == first_point(v@, nv as nat)[j] by {
            if j == 0 {
                assert(out@[0] == Some(*v));
            } else {
                assert(out@[j] is None);
                assert(first_point(v@, nv as nat)[j] == Seq::new(
                    (nv - 1) as nat,
                    |x: int| Option::<int>::None,
                )[j - 1]);
            }
        }
        assert(opt_vals(out@) =~= first_point(v@, nv as nat));
    }
    out
}

/// The sum-check prover.
pub struct SumcheckProver {
}

impl SumcheckProver {
    /// Generates a proof for the hypercube sum of a plain multilinear
    /// polynomial, seeding a fresh transcript with its bytes.
    pub fn generate_sumcheck_proof(init_polynomial: &MultiLinearPolynomial) -> (r: SumCheckProof)
        requires
            init_polynomial.wf(),
        ensures
            r.initial_claim_sum@ == sum_mod(init_polynomial@),
            round_views(r.round_polys@) == prover_ml(
                init_polynomial@,
                Seq::<u8>::empty() + elems_to_bytes(init_polynomial@),
                lg(init_polynomial@.len()),
            ),
            r.round_polys@.len() == lg(init_polynomial@.len()),
            r.wf(),
    {
        let ghost fv = init_polynomial@;
        let mut transcript = Transcript::new();
        let f_bytes = init_polynomial.to_bytes();
        transcript.append(f_bytes.as_slice());
        let ghost t0 = Seq::<u8>::empty() + elems_to_bytes(fv);
        let n = init_polynomial.number_of_variables();
        let mut cur = match MultiLinearPolynomial::new(init_polynomial.get_evaluation_points()) {
            Ok(c) => c,
            Err(_) => {
                proof {
                    assert(false);
                }
                return SumCheckProof {
                    initial_claim_sum: fe_from_u64(0),
                    round_polys: Vec::new(),
                };
            },
        };
        let mut round_polys: Vec<UnivariatePolynomial> = Vec::new();
        let mut k: u32 = 0;
        proof {
            assert(round_views(round_polys@) + prover_ml(cur@, transcript@, (n - k) as nat)
                =~= prover_ml(fv, t0, n as nat));
        }
        while k < n
            invariant
                cur.wf(),
                k <= n,
                lg(cur@.len()) == n - k,
                round_polys@.len() == k,
                forall|j: int|
                    0 <= j < round_polys@.len() ==> in_field_seq(
                        #[trigger] round_views(round_polys@)[j],
                    ),
                round_views(round_polys@) + prover_ml(cur@, transcript@, (n - k) as nat)
                    == prover_ml(fv, t0, n as nat),
            decreases n - k,
        {
            let ghost pre_cur = cur@;
            let ghost pre_t = transcript@;
            let len = cur.get_evaluation_points().len();
            let half = len / 2;
            let mut s0 = fe_from_u64(0);
            let mut i: usize = 0;
            while i < half
                invariant
                    cur.wf(),
                    len == cur@.len(),
                    half == len / 2,
                    i <= half,
                    in_field(s0@),
                    s0@ == sum_mod(cur@.take(half as int).take(i as int)),
                decreases half - i,
            {
                let pts = cur.get_evaluation_points();
                proof {
                    let pre = cur@.take(half as int);
                    assert(pre.take(i + 1).drop_last() =~= pre.take(i as int));
                    assert(pre[i as int] == cur@[i as int]);
                    assert(vals(pts@)[i as int] == pts@[i as int]@);
                    assert(in_field(cur@[i as int]));
                }
                s0 = fe_add(&s0, &pts[i]);
                i = i + 1;
            }
            proof {
                assert(cur@.take(half as int).take(half as int) =~= cur@.take(half as int));
            }
            let mut s1 = fe_from_u64(0);
            let mut i2: usize = half;
            while i2 < len
                invariant
                    cur.wf(),
                    len == cur@.len(),
                    half == len / 2,
                    half <= i2 <= len,
                    in_field(s1@),
                    s1@ == sum_mod(cur@.subrange(half as int, i2 as int)),
                decreases len - i2,
            {
                let pts = cur.get_evaluation_points();
                proof {
                    assert(cur@.subrange(half as int, i2 + 1).drop_last() =~= cur@.subrange(
                        half as int,
                        i2 as int,
                    ));
                    assert(vals(pts@)[i2 as int] == pts@[i2 as int]@);
                    assert(in_field(cur@[i2 as int]));
                }
                s1 = fe_add(&s1, &pts[i2]);
                i2 = i2 + 1;
            }
            proof {
                assert(cur@.subrange(half as int, len as int) =~= cur@.skip(half as int));
                assert(s0@ == ml_s0(cur@));
                assert(s1@ == ml_s1(cur@));
            }
            let claim = fe_add(&s0, &s1);
            let mut xs: Vec<FieldElement> = Vec::new();
            xs.push(fe_from_u64(0));
            xs.push(fe_from_u64(1));
            let mut ys: Vec<FieldElement> = Vec::new();
            ys.push(s0);
            ys.push(s1);
            proof {
                assert(vals(xs@) =~= seq![0int, 1int]);
                assert(vals(ys@) =~= seq![ml_s0(pre_cur), ml_s1(pre_cur)]);
                assert(distinct(vals(xs@)));
            }
            let g = match UnivariatePolynomial::interpolate(xs.as_slice(), ys.as_slice()) {
                Ok(q) => q,
                Err(_) => {
                    proof {
                        assert(false);
                    }
                    return SumCheckProof {
                        initial_claim_sum: fe_from_u64(0),
                        round_polys: Vec::new(),
                    };
                },
            };
            proof {
                assert(g@ == ml_round_poly(pre_cur));
            }
            absorb_round(&mut transcript, &claim, &g);
            let chal = transcript.sample_challenge();
            let newcur = match cur.partially_evaluate(0, &chal) {
                Ok(c) => c,
                Err(_) => {
                    proof {
                        assert(false);
                    }
                    return SumCheckProof {
                        initial_claim_sum: fe_from_u64(0),
                        round_polys: Vec::new(),
                    };
                },
            };
            let ghost prev_polys = round_polys@;
            round_polys.push(g);
            cur = newcur;
            k = k + 1;
            proof {
                assert(round_polys@ == prev_polys.push(g));
                assert(round_views(round_polys@) =~= round_views(prev_polys) + seq![g@]);
                assert(chal@ == challenge_of(ml_absorb(pre_cur, pre_t)));
                assert(cur@ == partial_eval(pre_cur, 0, chal@));
                assert(prover_ml(pre_cur, pre_t, (n - k + 1) as nat) == seq![
                    ml_round_poly(pre_cur)
                ] + prover_ml(cur@, transcript@, (n - k) as nat));
                assert((round_views(prev_polys) + seq![g@]) + prover_ml(
                    cur@,
                    transcript@,
                    (n - k) as nat,
                ) =~= round_views(prev_polys) + (seq![g@] + prover_ml(
                    cur@,
                    transcript@,
                    (n - k) as nat,
                )));
                assert(cur@.len() == pre_cur.len() / 2);
                assert forall|j: int|
                    0 <= j < round_polys@.len() implies in_field_seq(
                    #[trigger] round_views(round_polys@)[j],
                ) by {
                    assert(round_views(round_polys@)[j] == round_polys@[j]@);
                    if j < prev_polys.len() {
                        assert(round_polys@[j] == prev_polys[j]);
                        assert(round_views(prev_polys)[j] == prev_polys[j]@);
                    }
                }
            }
        }
        proof {
            assert(prover_ml(cur@, transcript@, 0) =~= Seq::<Seq<int>>::empty());
            assert(round_views(round_polys@) + Seq::<Seq<int>>::empty() =~= round_views(
                round_polys@,
            ));
        }
        let initial_claim_sum = init_polynomial.evaluation_sum();
        SumCheckProof { initial_claim_sum, round_polys }
    }

    /// Generates the round polynomials and challenges for a sum polynomial
    /// against a caller-supplied claim and transcript; the oracle check is
    /// left to the enclosing protocol.
    pub fn generate_proof_for_partial_verify(
        initial_claim_sum: FieldElement,
        init_poly: SumPolynomial,
        transcript: &mut Transcript,
    ) -> (res: (SumCheckProof, Vec<FieldElement>))
        requires
            init_poly.wf(),
            in_field(initial_claim_sum@),
            init_poly.spec_degree() <= usize::MAX - 3,
        ensures
            ({
                let full = prover_sum(
                    init_poly@,
                    old(transcript)@,
                    lg(init_poly.spec_length()),
                );
                &&& round_views(res.0.round_polys@) == full.0
                &&& vals(res.1@) == full.1
                &&& final(transcript)@ == full.2
                &&& res.0.initial_claim_sum == initial_claim_sum
                &&& res.0.wf()
                &&& in_field_seq(vals(res.1@))
                &&& res.0.round_polys@.len() == lg(init_poly.spec_length())
                &&& res.1@.len() == lg(init_poly.spec_length())
            }),
    {
        let ghost qv0 = init_poly@;
        let ghost t0 = old(transcript)@;
        let nv = init_poly.number_of_variables();
        let ghost nv0 = lg(init_poly.spec_length());
        let mut cur = init_poly;
        let mut round_polys: Vec<UnivariatePolynomial> = Vec::new();
        let mut challenges: Vec<FieldElement> = Vec::new();
        let mut k: u32 = 0;
        proof {
            assert(round_views(round_polys@) + prover_sum(cur@, transcript@, (nv - k) as nat).0
                =~= prover_sum(qv0, t0, nv0).0);
            assert(vals(challenges@) + prover_sum(cur@, transcript@, (nv - k) as nat).1
                =~= prover_sum(qv0, t0, nv0).1);
        }
        while k < nv
            invariant
                cur.wf(),
                k <= nv,
                lg(cur.spec_length()) == nv - k,
                cur@[0].len() == qv0[0].len(),
                qv0[0].len() <= usize::MAX - 3,
                round_polys@.len() == k,
                challenges@.len() == k,
                in_field_seq(vals(challenges@)),
                forall|j: int|
                    0 <= j < round_polys@.len() ==> in_field_seq(
                        #[trigger] round_views(round_polys@)[j],
                    ),
                round_views(round_polys@) + prover_sum(cur@, transcript@, (nv - k) as nat).0
                    == prover_sum(qv0, t0, nv0).0,
                vals(challenges@) + prover_sum(cur@, transcript@, (nv - k) as nat).1
                    == prover_sum(qv0, t0, nv0).1,
                prover_sum(cur@, transcript@, (nv - k) as nat).2 == prover_sum(qv0, t0, nv0).2,
            decreases nv - k,
        {
            let ghost pre_q = cur@;
            let ghost pre_t = transcript@;
            let ghost len = cur.spec_length();
            let ghost cnv = lg(len);
            let d = cur.degree();
            let curnv = cur.number_of_variables();
            let mut xs: Vec<FieldElement> = Vec::new();
            let mut ys: Vec<FieldElement> = Vec::new();
            let mut i: usize = 0;
            while i < d + 1
                invariant
                    cur.wf(),
                    cur@ == pre_q,
                    d == cur@[0].len(),
                    d <= usize::MAX - 3,
                    len == cur.spec_length(),
                    cnv == lg(len),
                    cnv == curnv,
                    curnv >= 1,
                    i <= d + 1,
                    xs@.len() == i,
                    ys@.len() == i,
                    forall|j: int| 0 <= j < i ==> (#[trigger] xs@[j])@ == j,
                    forall|j: int|
                        0 <= j < i ==> (#[trigger] ys@[j])@ == sum_ys(pre_q, cnv, len, d as nat)[j]
                            && in_field(ys@[j]@),
                decreases d + 1 - i,
            {
                let xi = fe_from_u64(i as u64);
                let pts = first_point_vec(&xi, curnv);
                let pe = match cur.partial_evaluate(pts.as_slice()) {
                    Ok(q) => q,
                    Err(_) => {
                        proof {
                            assert(false);
                        }
                        return (
                            SumCheckProof {
                                initial_claim_sum: fe_from_u64(0),
                                round_polys: Vec::new(),
                            },
                            Vec::new(),
                        );
                    },
                };
                let table = pe.reduce();
                proof {
                    lemma_me_len_first_point(len, i as int, cnv);
                    crate::product_polynomial::lemma_multi_eval_len(
                        pre_q[0][0],
                        first_point(i as int, cnv),
                    );
                    assert(pe@[0][0] == crate::multilinear::multi_eval(
                        pre_q[0][0],
                        first_point(i as int, cnv),
                    ));
                    assert(pe.spec_length() == len / 2);
                    assert(vals(table@) == reduce_sum(
                        sum_pe_views(pre_q, first_point(i as int, cnv)),
                        len / 2,
                    ));
                }
                let y = sum_elems(&table);
                xs.push(xi);
                ys.push(y);
                proof {
                    assert(xs@[i as int] == xi);
                    assert(ys@[i as int] == y);
                    assert(sum_ys(pre_q, cnv, len, d as nat)[i as int] == sum_mod(
                        reduce_sum(sum_pe_views(pre_q, first_point(i as int, cnv)), len / 2),
                    ));
                }
                i = i + 1;
            }
            proof {
                assert(vals(xs@) =~= nums(d as nat));
                assert(vals(ys@) =~= sum_ys(pre_q, cnv, len, d as nat));
                assert forall|a: int, b: int|
                    #![trigger vals(xs@)[a], vals(xs@)[b]]
                    0 <= a < b < vals(xs@).len() implies vals(xs@)[a] != vals(xs@)[b] by {
                    assert(vals(xs@)[a] == a && vals(xs@)[b] == b);
                }
                assert(distinct(vals(xs@)));
            }
            let claim = {
                proof {
                    assert(ys@.len() >= 2);
                    assert(vals(ys@)[0] == ys@[0]@ && vals(ys@)[1] == ys@[1]@);
                }
                fe_add(&ys[0], &ys[1])
            };
            let g = match UnivariatePolynomial::interpolate(xs.as_slice(), ys.as_slice()) {
                Ok(q) => q,
                Err(_) => {
                    proof {
                        assert(false);
                    }
                    return (
                        SumCheckProof {
                            initial_claim_sum: fe_from_u64(0),
                            round_polys: Vec::new(),
                        },
                        Vec::new(),
                    );
                },
            };
            absorb_round(transcript, &claim, &g);
            let chal = transcript.sample_challenge();
            let pts2 = first_point_vec(&chal, curnv);
            let newcur = match cur.partial_evaluate(pts2.as_slice()) {
                Ok(q) => q,
                Err(_) => {
                    proof {
                        assert(false);
                    }
                    return (
                        SumCheckProof {
                            initial_claim_sum: fe_from_u64(0),
                            round_polys: Vec::new(),
                        },
                        Vec::new(),
                    );
                },
            };
            let ghost prev_polys = round_polys@;
            let ghost prev_ch = challenges@;
            round_polys.push(g);
            challenges.push(chal);
            cur = newcur;
            k = k + 1;
            proof {
                assert(round_polys@ == prev_polys.push(g));
                assert(challenges@ == prev_ch.push(chal));
                assert(round_views(round_polys@) =~= round_views(prev_polys) + seq![g@]);
                assert(vals(challenges@) =~= vals(prev_ch) + seq![chal@]);
                let ys_spec = sum_ys(pre_q, cnv, len, d as nat);
                let g_spec = interp(nums(d as nat), ys_spec);
                assert(g@ == g_spec);
                let ab = round_absorb(pre_t, f_add(ys_spec[0], ys_spec[1]), g_spec);
                assert(claim@ == f_add(ys_spec[0], ys_spec[1]));
                assert(chal@ == challenge_of(ab));
                assert(cur@ == sum_pe_views(pre_q, first_point(chal@, cnv)));
                let rest = prover_sum(cur@, transcript@, (nv - k) as nat);
                assert(prover_sum(pre_q, pre_t, (nv - k + 1) as nat).0 == seq![g_spec] + rest.0);
                assert(prover_sum(pre_q, pre_t, (nv - k + 1) as nat).1 == seq![chal@] + rest.1);
                assert((round_views(prev_polys) + seq![g@]) + rest.0 =~= round_views(prev_polys)
                    + (seq![g@] + rest.0));
                assert((vals(prev_ch) + seq![chal@]) + rest.1 =~= vals(prev_ch) + (seq![chal@]
                    + rest.1));
                crate::product_polynomial::lemma_multi_eval_len(pre_q[0][0], first_point(chal@, cnv));
                lemma_me_len_first_point(len, chal@, cnv);
                assert(cur@[0][0] == crate::multilinear::multi_eval(
                    pre_q[0][0],
                    first_point(chal@, cnv),
                ));
                assert(cur.spec_length() == len / 2);
                assert(lg(cur.spec_length()) == nv - k);
                assert forall|j: int|
                    0 <= j < round_polys@.len() implies in_field_seq(
                    #[trigger] round_views(round_polys@)[j],
                ) by {
                    assert(round_views(round_polys@)[j] == round_polys@[j]@);
                    if j < prev_polys.len() {
                        assert(round_polys@[j] == prev_polys[j]);
                        assert(round_views(prev_polys)[j] == prev_polys[j]@);
                    }
                }
                assert forall|j: int|
                    0 <= j < vals(challenges@).len() implies in_field(
                    #[trigger] vals(challenges@)[j],
                ) by {
                    assert(vals(challenges@)[j] == challenges@[j]@);
                    if j < prev_ch.len() {
                        assert(challenges@[j] == prev_ch[j]);
                        assert(vals(prev_ch)[j] == prev_ch[j]@);
                    }
                }
            }
        }
        proof {
            assert(prover_sum(cur@, transcript@, 0).0 =~= Seq::<Seq<int>>::empty());
            assert(round_views(round_polys@) + Seq::<Seq<int>>::empty() =~= round_views(
                round_polys@,
            ));
            assert(vals(challenges@) + Seq::<int>::empty() =~= vals(challenges@));
        }
        (SumCheckProof { initial_claim_sum, round_polys }, challenges)
    }
}

/// A hypercube sum is always a canonical field value.
pub proof fn lemma_sum_mod_in_field(s: Seq<int>)
    ensures
        0 <= sum_mod(s) < crate::field::p(),
    decreases s.len(),
{
    if s.len() > 0 {
        lemma_sum_mod_in_field(s.drop_last());
    }
}

/// The sum of a concatenation is the sum of the sums.
pub proof fn lemma_sum_mod_split(a: Seq<int>, b: Seq<int>)
    ensures
        sum_mod(a + b) == f_add(sum_mod(a), sum_mod(b)),
    decreases b.len(),
{
    let pp = crate::field::p();
    if b.len() == 0 {
        assert(a + b =~= a);
        lemma_sum_mod_in_field(a);
        crate::field::lemma_add_zero(sum_mod(a));
    } else {
        lemma_sum_mod_split(a, b.drop_last());
        assert((a + b).drop_last() =~= a + b.drop_last());
        assert((a + b).last() == b.last());
        crate::field::lemma_add_assoc_mod(sum_mod(a), sum_mod(b.drop_last()), b.last());
    }
}

/// Summing the pairwise combination distributes: the result is
/// `sum(a) + r·(sum(b) − sum(a))`.
pub proof fn lemma_mix_sum(a: Seq<int>, b: Seq<int>, r: int)
    requires
        a.len() == b.len(),
    ensures
        sum_mod(mix_tables(a, b, r)) == f_add(
            sum_mod(a),
            f_mul(r, f_sub(sum_mod(b), sum_mod(a))),
        ),
    decreases a.len(),
{
    let pp = crate::field::p();
    if a.len() == 0 {
        assert(mix_tables(a, b, r).len() == 0);
        assert(f_mul(r, f_sub(0, 0)) == 0) by {
            vstd::arithmetic::div_mod::lemma_small_mod(0nat, pp as nat);
        }
        vstd::arithmetic::div_mod::lemma_small_mod(0nat, pp as nat);
    } else {
        let ad = a.drop_last();
        let bd = b.drop_last();
        lemma_mix_sum(ad, bd, r);
        assert(mix_tables(a, b, r).drop_last() =~= mix_tables(ad, bd, r));
        assert(mix_tables(a, b, r).last() == f_add(a.last(), f_mul(r, f_sub(b.last(), a.last()))));
        let sa = sum_mod(ad);
        let sb = sum_mod(bd);
        let la = a.last();
        let lb = b.last();
        lemma_sum_mod_in_field(ad);
        lemma_sum_mod_in_field(bd);
        // rewrite each reduced term over raw integers
        let u = sa + r * (sb - sa);
        let v = la + r * (lb - la);
        assert(f_mul(r, f_sub(sb, sa)) == (r * (sb - sa)) % pp) by {
            vstd::arithmetic::div_mod::lemma_mul_mod_noop_right(r, sb - sa, pp);
        }
        assert(f_add(sa, f_mul(r, f_sub(sb, sa))) == u % pp) by {
            vstd::arithmetic::div_mod::lemma_add_mod_noop_right(sa, r * (sb - sa), pp);
        }
        assert(f_mul(r, f_sub(lb, la)) == (r * (lb - la)) % pp) by {
            vstd::arithmetic::div_mod::lemma_mul_mod_noop_right(r, lb - la, pp);
        }
        assert(f_add(la, f_mul(r, f_sub(lb, la))) == v % pp) by {
            vstd::arithmetic::div_mod::lemma_add_mod_noop_right(la, r * (lb - la), pp);
        }
        assert(sum_mod(mix_tables(a, b, r)) == (u % pp + v % pp) % pp);
        assert((u % pp + v % pp) % pp == (u + v) % pp) by {
            vstd::arithmetic::div_mod::lemma_add_mod_noop(u, v, pp);
        }
        // and the target likewise
        let su = sum_mod(a);
        let sv = sum_mod(b);
        assert(su == (sa + la) % pp);
        assert(sv == (sb + lb) % pp);
        let w = (sa + la) + r * ((sb + lb) - (sa + la));
        assert(f_sub(sv, su) == ((sb + lb) - (sa + la)) % pp) by {
            vstd::arithmetic::div_mod::lemma_sub_mod_noop(sb + lb, sa + la, pp);
            vstd::arithmetic::div_mod::lemma_mod_twice(sb + lb, pp);
            vstd::arithmetic::div_mod::lemma_mod_twice(sa + la, pp);
        }
        assert(f_mul(r, f_sub(sv, su)) == (r * ((sb + lb) - (sa + la))) % pp) by {
            vstd::arithmetic::div_mod::lemma_mul_mod_noop_right(
                r,
                (sb + lb) - (sa + la),
                pp,
            );
        }
        assert(f_add(su, f_mul(r, f_sub(sv, su))) == w % pp) by {
            vstd::arithmetic::div_mod::lemma_add_mod_noop(
                sa + la,
                r * ((sb + lb) - (sa + la)),
                pp,
            );
            vstd::arithmetic::div_mod::lemma_mod_twice(sa + la, pp);
            vstd::arithmetic::div_mod::lemma_mod_twice(r * ((sb + lb) - (sa + la)), pp);
            vstd::arithmetic::div_mod::lemma_add_mod_noop_right(
                su,
                r * ((sb + lb) - (sa + la)),
                pp,
            );
        }
        assert(u + v == w) by (nonlinear_arith)
            requires
                u == sa + r * (sb - sa),
                v == la + r * (lb - la),
                w == (sa + la) + r * ((sb + lb) - (sa + la)),
        ;
    }
}

/// Fixing the leading variable is exactly the pairwise combination of the
/// two halves of the table.
pub proof fn lemma_partial_leading_is_mix(s: Seq<int>, r: int)
    requires
        crate::bits::is_pow2(s.len()),
        s.len() >= 2,
        lg(s.len()) >= 1,
    ensures
        partial_eval(s, 0, r) == mix_tables(
            s.take((s.len() / 2) as int),
            s.skip((s.len() / 2) as int),
            r,
        ),
{
    let half = (s.len() / 2) as int;
    assert forall|k: int|
        0 <= k < half implies #[trigger] partial_eval(s, 0, r)[k] == mix_tables(
        s.take(half),
        s.skip(half),
        r,
    )[k] by {
        crate::multilinear::lemma_leading_pair_indices(s, k);
    }
    assert(partial_eval(s, 0, r) =~= mix_tables(s.take(half), s.skip(half), r));
}

/// One multilinear prover round against the verifier's checks: the round
/// polynomial is the two-point line through the half sums, its values at 0
/// and 1 rebuild the table's sum, and its value anywhere equals the sum of
/// the table with the leading variable fixed there.
pub proof fn lemma_ml_round(s: Seq<int>, r: int)
    requires
        crate::bits::is_pow2(s.len()),
        s.len() >= 2,
        in_field_seq(s),
        lg(s.len()) >= 1,
        in_field(r),
    ensures
        ml_round_poly(s) == seq![ml_s0(s), f_sub(ml_s1(s), ml_s0(s))],
        in_field_seq(ml_round_poly(s)),
        f_add(poly_eval(ml_round_poly(s), 0), poly_eval(ml_round_poly(s), 1)) == sum_mod(s),
        poly_eval(ml_round_poly(s), r) == sum_mod(partial_eval(s, 0, r)),
{
    let pp = crate::field::p();
    let half = (s.len() / 2) as int;
    let a = s.take(half);
    let b = s.skip(half);
    let s0 = ml_s0(s);
    let s1 = ml_s1(s);
    lemma_sum_mod_in_field(a);
    lemma_sum_mod_in_field(b);
    crate::univariate::lemma_interp_two(s0, s1);
    let g = ml_round_poly(s);
    let d = f_sub(s1, s0);
    assert(g == seq![s0, d]);
    assert forall|j: int| 0 <= j < g.len() implies in_field(#[trigger] g[j]) by {
        if j == 0 {
            assert(g[j] == s0);
        } else {
            assert(g[j] == d);
        }
    }
    crate::univariate::lemma_poly_eval_two(s0, d, 0);
    crate::univariate::lemma_poly_eval_two(s0, d, 1);
    crate::univariate::lemma_poly_eval_two(s0, d, r);
    // g(0) + g(1) == s0 + s1 == the table's sum
    assert(f_mul(d, 1) == d) by {
        vstd::arithmetic::div_mod::lemma_small_mod(d as nat, pp as nat);
    }
    assert(f_add(s0, d) == s1) by {
        vstd::arithmetic::div_mod::lemma_add_mod_noop_right(s0, s1 - s0, pp);
        vstd::arithmetic::div_mod::lemma_small_mod(s1 as nat, pp as nat);
    }
    assert(a + b =~= s);
    lemma_sum_mod_split(a, b);
    // g(r) matches the sum of the fixed table
    lemma_partial_leading_is_mix(s, r);
    lemma_mix_sum(a, b, r);
    assert(f_mul(d, r) == f_mul(r, d)) by {
        assert(d * r == r * d) by (nonlinear_arith);
    }
}

/// Sum-check round trip: the proof the prover builds for a multilinear
/// table passes the verifier, clause by clause of `verify_spec`.  A table
/// with no variables is left out: an empty proof is accepted only for the
/// zero claim.
pub proof fn lemma_sumcheck_roundtrip(fv: Seq<int>)
    requires
        crate::bits::is_pow2(fv.len()),
        fv.len() >= 2,
        in_field_seq(fv),
    ensures
        verify_spec(
            fv,
            sum_mod(fv),
            prover_ml(fv, Seq::<u8>::empty() + elems_to_bytes(fv), lg(fv.len())),
        ),
{
    let t0 = Seq::<u8>::empty() + elems_to_bytes(fv);
    lemma_pv_of_prover(fv, t0, lg(fv.len()));
    crate::bits::lemma_pow2_lg(fv.len());
    let polys = prover_ml(fv, t0, lg(fv.len()));
    assert(polys.len() == lg(fv.len()) >= 1) by {
        lemma_prover_ml_len(fv, t0, lg(fv.len()));
        if lg(fv.len()) == 0 {
            assert(fv.len() == vstd::arithmetic::power2::pow2(0));
            vstd::arithmetic::power2::lemma2_to64();
        }
    }
}

/// The prover emits one round polynomial per variable.
pub proof fn lemma_prover_ml_len(s: Seq<int>, t: Seq<u8>, n: nat)
    ensures
        prover_ml(s, t, n).len() == n,
    decreases n,
{
    if n > 0 {
        lemma_prover_ml_len(
            partial_eval(s, 0, challenge_of(ml_absorb(s, t))),
            state_after_challenge(ml_absorb(s, t)),
            (n - 1) as nat,
        );
    }
}

/// The verifier's walk accepts the prover's rounds, ends at the challenge
/// point's value, and draws exactly one challenge per round.
pub proof fn lemma_pv_of_prover(s: Seq<int>, t: Seq<u8>, n: nat)
    requires
        crate::bits::is_pow2(s.len()),
        in_field_seq(s),
        lg(s.len()) == n,
    ensures
        ({
            let r = pv(prover_ml(s, t, n), sum_mod(s), t);
            &&& r.0
            &&& r.2.len() == n
            &&& multi_eval(s, r.2) =~= seq![r.1]
        }),
    decreases n,
{
    let pp = crate::field::p();
    let polys = prover_ml(s, t, n);
    if n == 0 {
        assert(s.len() == vstd::arithmetic::power2::pow2(0)) by {
            crate::bits::lemma_pow2_lg(s.len());
        }
        vstd::arithmetic::power2::lemma2_to64();
        assert(s.len() == 1);
        assert(polys.len() == 0);
        let r = pv(polys, sum_mod(s), t);
        assert(r.1 == sum_mod(s));
        assert(s.drop_last() =~= Seq::<int>::empty());
        assert(sum_mod(s) == f_add(0, s[0]));
        assert(in_field(s[0]));
        crate::field::lemma_add_zero(s[0]);
        assert((0 + s[0]) % pp == s[0] % pp);
        assert(sum_mod(s) == s[0]) by {
            vstd::arithmetic::div_mod::lemma_small_mod(s[0] as nat, pp as nat);
        }
        assert(multi_eval(s, r.2) == s);
        assert(multi_eval(s, r.2) =~= seq![r.1]);
    } else {
        assert(s.len() >= 2) by {
            crate::bits::lemma_pow2_lg(s.len());
            vstd::arithmetic::power2::lemma_pow2_adds(1, (n - 1) as nat);
            vstd::arithmetic::power2::lemma2_to64();
            vstd::arithmetic::power2::lemma_pow2_pos((n - 1) as nat);
        }
        let g = ml_round_poly(s);
        let ab = ml_absorb(s, t);
        let chal = challenge_of(ab);
        let s2 = partial_eval(s, 0, chal);
        let t2 = state_after_challenge(ab);
        lemma_ml_round(s, chal);
        assert(polys == seq![g] + prover_ml(s2, t2, (n - 1) as nat));
        assert(polys.first() == g);
        assert(polys.drop_first() =~= prover_ml(s2, t2, (n - 1) as nat));
        // the absorbed bytes agree with the verifier's running claim
        lemma_claim_is_sum(s);
        assert(ab == round_absorb(t, sum_mod(s), g));
        // the verifier's round check passes and its next claim is the
        // fixed table's sum
        assert(f_add(poly_eval(g, 0), poly_eval(g, 1)) == sum_mod(s));
        assert(poly_eval(g, chal) == sum_mod(s2));
        // the fixed table is well formed for the induction
        assert(s2.len() == s.len() / 2);
        assert(crate::bits::is_pow2(s2.len()));
        assert(lg(s2.len()) == n - 1) by {
            assert(lg(s.len()) == 1 + lg(s.len() / 2));
        }
        assert forall|j: int| 0 <= j < s2.len() implies in_field(#[trigger] s2[j]) by {
            assert(s2[j] == f_add(
                s[crate::multilinear::lo_index(s.len(), 0, j)],
                f_mul(
                    chal,
                    f_sub(
                        s[crate::multilinear::hi_index(s.len(), 0, j)],
                        s[crate::multilinear::lo_index(s.len(), 0, j)],
                    ),
                ),
            ));
        }
        lemma_pv_of_prover(s2, t2, (n - 1) as nat);
        let rest = pv(prover_ml(s2, t2, (n - 1) as nat), sum_mod(s2), t2);
        let r = pv(polys, sum_mod(s), t);
        assert(r.0 == rest.0);
        assert(r.1 == rest.1);
        assert(r.2 == seq![Option::<int>::Some(chal)] + rest.2);
        // one challenge per round, and the final claim is the table's value
        // at the challenge point
        assert(r.2.len() == n);
        assert(r.2[0] == Option::<int>::Some(chal));
        assert(r.2.drop_first() =~= rest.2);
        assert(multi_eval(s, r.2) == crate::multilinear::multi_eval_aux(s2, rest.2, 0));
        assert(multi_eval(s, r.2) =~= seq![r.1]);
    }
}

/// The claim the prover absorbs each round equals the running table's sum.
proof fn lemma_claim_is_sum(s: Seq<int>)
    ensures
        f_add(ml_s0(s), ml_s1(s)) == sum_mod(s),
{
    let half = (s.len() / 2) as int;
    assert(s.take(half) + s.skip(half) =~= s);
    lemma_sum_mod_split(s.take(half), s.skip(half));
}

/// Half of two: the explicit inverse of 2 modulo the odd prime `p()`.
proof fn lemma_two_inverse()
    ensures
        f_mul(2, (crate::field::p() + 1) / 2) == 1,
{
    let pp = crate::field::p();
    assert(pp % 2 == 1);
    let w = (pp + 1) / 2;
    assert(2 * w == pp + 1);
    assert((pp + 1) % pp == 1) by {
        vstd::arithmetic::div_mod::lemma_mod_add_multiples_vanish(1, pp);
        vstd::arithmetic::div_mod::lemma_small_mod(1nat, pp as nat);
    }
}

/// Doubling is injective on canonical values: the prime is odd, so `2` has
/// an inverse.
proof fn lemma_double_injective(a: int, b: int)
    requires
        in_field(a),
        in_field(b),
        f_add(a, a) == f_add(b, b),
    ensures
        a == b,
{
    let pp = crate::field::p();
    lemma_two_inverse();
    let w = (pp + 1) / 2;
    // 2a ≡ 2b, so multiplying by the inverse of 2 gives a ≡ b
    assert(f_mul(f_add(a, a), w) == f_mul(f_add(b, b), w));
    assert(f_mul(f_add(a, a), w) == a) by {
        assert(f_add(a, a) == (2 * a) % pp);
        assert(((2 * a) % pp * w) % pp == ((2 * a) * w) % pp) by {
            vstd::arithmetic::div_mod::lemma_mul_mod_noop_left(2 * a, w, pp);
        }
        assert((2 * a) * w == a * (2 * w)) by (nonlinear_arith);
        assert((a * (2 * w)) % pp == a) by {
            assert(a * (2 * w) == a * pp + a) by (nonlinear_arith)
                requires
                    2 * w == pp + 1,
            ;
            vstd::arithmetic::div_mod::lemma_mod_multiples_vanish(a, a, pp);
            vstd::arithmetic::div_mod::lemma_small_mod(a as nat, pp as nat);
        }
    }
    assert(f_mul(f_add(b, b), w) == b) by {
        assert(f_add(b, b) == (2 * b) % pp);
        assert(((2 * b) % pp * w) % pp == ((2 * b) * w) % pp) by {
            vstd::arithmetic::div_mod::lemma_mul_mod_noop_left(2 * b, w, pp);
        }
        assert((2 * b) * w == b * (2 * w)) by (nonlinear_arith);
        assert((b * (2 * w)) % pp == b) by {
            assert(b * (2 * w) == b * pp + b) by (nonlinear_arith)
                requires
                    2 * w == pp + 1,
            ;
            vstd::arithmetic::div_mod::lemma_mod_multiples_vanish(b, b, pp);
            vstd::arithmetic::div_mod::lemma_small_mod(b as nat, pp as nat);
        }
    }
}

/// Tamper rejection: replacing the constant coefficient of the last round
/// polynomial of an honestly generated proof by any other value makes the
/// verifier reject — the altered round's two-point sum shifts by twice the
/// change, which is non-zero in an odd-prime field.
pub proof fn lemma_sumcheck_tamper_rejected(fv: Seq<int>, d: int)
    requires
        crate::bits::is_pow2(fv.len()),
        fv.len() >= 2,
        in_field_seq(fv),
        in_field(d),
        d != prover_ml(
            fv,
            Seq::<u8>::empty() + elems_to_bytes(fv),
            lg(fv.len()),
        )[lg(fv.len()) - 1][0],
    ensures
        !verify_spec(
            fv,
            sum_mod(fv),
            prover_ml(fv, Seq::<u8>::empty() + elems_to_bytes(fv), lg(fv.len())).update(
                lg(fv.len()) - 1,
                prover_ml(
                    fv,
                    Seq::<u8>::empty() + elems_to_bytes(fv),
                    lg(fv.len()),
                )[lg(fv.len()) - 1].update(0, d),
            ),
        ),
{
    let t0 = Seq::<u8>::empty() + elems_to_bytes(fv);
    let n = lg(fv.len());
    crate::bits::lemma_pow2_lg(fv.len());
    if n == 0 {
        vstd::arithmetic::power2::lemma2_to64();
        assert(false);
    }
    lemma_prover_ml_len(fv, t0, n);
    lemma_pv_tamper(fv, t0, n, d);
}

/// The tampered walk fails: by induction, the rounds before the last replay
/// identically, and the altered last round fails its two-point check.
proof fn lemma_pv_tamper(s: Seq<int>, t: Seq<u8>, n: nat, d: int)
    requires
        crate::bits::is_pow2(s.len()),
        in_field_seq(s),
        lg(s.len()) == n,
        n >= 1,
        in_field(d),
        d != prover_ml(s, t, n)[n - 1][0],
    ensures
        !pv(
            prover_ml(s, t, n).update(n - 1, prover_ml(s, t, n)[n - 1].update(0, d)),
            sum_mod(s),
            t,
        ).0,
    decreases n,
{
    let pp = crate::field::p();
    let polys = prover_ml(s, t, n);
    lemma_prover_ml_len(s, t, n);
    assert(s.len() >= 2) by {
        crate::bits::lemma_pow2_lg(s.len());
        vstd::arithmetic::power2::lemma_pow2_adds(1, (n - 1) as nat);
        vstd::arithmetic::power2::lemma2_to64();
        vstd::arithmetic::power2::lemma_pow2_pos((n - 1) as nat);
    }
    let g = ml_round_poly(s);
    let ab = ml_absorb(s, t);
    let chal = challenge_of(ab);
    let s2 = partial_eval(s, 0, chal);
    let t2 = state_after_challenge(ab);
    lemma_ml_round(s, chal);
    let tampered = polys.update(n - 1, polys[n - 1].update(0, d));
    if n == 1 {
        assert(polys == seq![g] + prover_ml(s2, t2, 0));
        assert(polys =~= seq![g]);
        assert(tampered.len() == 1);
        assert(tampered.first() == polys[0].update(0, d));
        lemma_tampered_round_fails(s, d);
        assert(!pv(tampered, sum_mod(s), t).0);
    } else {
        // the first round is untouched and replays identically
        assert(polys == seq![g] + prover_ml(s2, t2, (n - 1) as nat));
        assert(polys[0] == g);
        assert(tampered[0] == g);
        assert(tampered.first() == g);
        lemma_claim_is_sum(s);
        assert(f_add(poly_eval(g, 0), poly_eval(g, 1)) == sum_mod(s));
        assert(tampered.drop_first() =~= prover_ml(s2, t2, (n - 1) as nat).update(
            n - 2,
            prover_ml(s2, t2, (n - 1) as nat)[n - 2].update(0, d),
        ));
        assert(polys[n - 1] == prover_ml(s2, t2, (n - 1) as nat)[n - 2]);
        assert(s2.len() == s.len() / 2);
        assert(crate::bits::is_pow2(s2.len()));
        assert(lg(s2.len()) == n - 1) by {
            assert(lg(s.len()) == 1 + lg(s.len() / 2));
        }
        assert forall|j: int| 0 <= j < s2.len() implies in_field(#[trigger] s2[j]) by {
            assert(s2[j] == f_add(
                s[crate::multilinear::lo_index(s.len(), 0, j)],
                f_mul(
                    chal,
                    f_sub(
                        s[crate::multilinear::hi_index(s.len(), 0, j)],
                        s[crate::multilinear::lo_index(s.len(), 0, j)],
                    ),
                ),
            ));
        }
        lemma_pv_tamper(s2, t2, (n - 1) as nat, d);
        assert(round_absorb(t, sum_mod(s), g) == ab);
        assert(poly_eval(g, chal) == sum_mod(s2));
        assert(!pv(tampered, sum_mod(s), t).0);
    }
}

/// A round polynomial whose constant coefficient was changed fails the
/// two-point check against the table's sum.
proof fn lemma_tampered_round_fails(s: Seq<int>, d: int)
    requires
        crate::bits::is_pow2(s.len()),
        in_field_seq(s),
        s.len() >= 2,
        lg(s.len()) >= 1,
        in_field(d),
        d != ml_round_poly(s)[0],
    ensures
        f_add(
            poly_eval(ml_round_poly(s).update(0, d), 0),
            poly_eval(ml_round_poly(s).update(0, d), 1),
        ) != sum_mod(s),
{
    let pp = crate::field::p();
    lemma_ml_round(s, 0);
    let s0 = ml_s0(s);
    let s1 = ml_s1(s);
    let c1 = f_sub(s1, s0);
    let g = ml_round_poly(s);
    let gt = g.update(0, d);
    assert(gt =~= seq![d, c1]);
    lemma_sum_mod_in_field(s.take((s.len() / 2) as int));
    lemma_sum_mod_in_field(s.skip((s.len() / 2) as int));
    crate::univariate::lemma_poly_eval_two(d, c1, 0);
    crate::univariate::lemma_poly_eval_two(d, c1, 1);
    crate::univariate::lemma_poly_eval_two(s0, c1, 0);
    crate::univariate::lemma_poly_eval_two(s0, c1, 1);
    assert(f_mul(c1, 1) == c1) by {
        vstd::arithmetic::div_mod::lemma_small_mod(c1 as nat, pp as nat);
    }
    assert(f_add(poly_eval(g, 0), poly_eval(g, 1)) == sum_mod(s));
    // both two-point sums have the shape `x + (x + c1)`; if they agreed,
    // the constants would too
    if f_add(poly_eval(gt, 0), poly_eval(gt, 1)) == sum_mod(s) {
        assert(f_add(d, f_add(d, c1)) == f_add(s0, f_add(s0, c1)));
        crate::field::lemma_add_assoc_mod(d, d, c1);
        crate::field::lemma_add_assoc_mod(s0, s0, c1);
        lemma_cancel_right(f_add(d, d), f_add(s0, s0), c1);
        lemma_double_injective(d, s0);
        assert(false);
    }
}

/// Right cancellation of addition on canonical values.
proof fn lemma_cancel_right(a: int, b: int, c: int)
    requires
        in_field(a),
        in_field(b),
        f_add(a, c) == f_add(b, c),
    ensures
        a == b,
{
    let pp = crate::field::p();
    assert(f_sub(f_add(a, c), c) == a) by {
        vstd::arithmetic::div_mod::lemma_sub_mod_noop(a + c, c, pp);
        vstd::arithmetic::div_mod::lemma_mod_twice(a + c, pp);
        vstd::arithmetic::div_mod::lemma_mod_twice(c, pp);
        vstd::arithmetic::div_mod::lemma_small_mod(a as nat, pp as nat);
    }
    assert(f_sub(f_add(b, c), c) == b) by {
        vstd::arithmetic::div_mod::lemma_sub_mod_noop(b + c, c, pp);
        vstd::arithmetic::div_mod::lemma_mod_twice(b + c, pp);
        vstd::arithmetic::div_mod::lemma_mod_twice(c, pp);
        vstd::arithmetic::div_mod::lemma_small_mod(b as nat, pp as nat);
    }
}

} // verus!
