use vstd::prelude::*;
use crate::errors::Error;
use crate::field::{
    FieldElement, f_add, f_mul, in_field, in_field_seq, vals, fe_add, fe_mul, fe_to_bytes,
    copy_slice,
};
use crate::multilinear::{
    MultiLinearPolynomial, multi_eval, opt_vals, opts_in_field, add_seq, scale_seq,
};
use crate::product_polynomial::ProductPolynomial;
use crate::sum_polynomial::SumPolynomial;
use crate::sumcheck::{SumCheckProof, SumcheckProver, SumcheckVerifier};
use crate::transcript::{Transcript, flatten_bytes};
use crate::circuit::Circuit;
use crate::gate::Gate;
use crate::kzg::{
    G1Point, G2Point, MultilinearKZGProof, MultilinearKZGProver, MultilinearKZGVerifier,
    g1_to_string_bytes,
};
use crate::bits::lg;

verus! {

/// A GKR proof: the output layer's table, the prover's claimed W-values at
/// `(rb, rc)` for each inner layer, and one sum-check proof per layer.
pub struct GKRProof {
    pub output_poly: MultiLinearPolynomial,
    pub w_polys_evals: Vec<(FieldElement, FieldElement)>,
    pub sumcheck_proofs: Vec<SumCheckProof>,
}

impl GKRProof {
    /// Every carried value is canonical.
    pub open spec fn wf(&self) -> bool {
        &&& self.output_poly.wf()
        &&& forall|j: int|
            0 <= j < self.w_polys_evals@.len() ==> in_field(
                (#[trigger] self.w_polys_evals@[j]).0@,
            ) && in_field(self.w_polys_evals@[j].1@)
        &&& forall|j: int|
            0 <= j < self.sumcheck_proofs@.len() ==> (#[trigger] self.sumcheck_proofs@[j]).wf()
    }

    pub fn new(
        output_poly: MultiLinearPolynomial,
        w_polys_evals: Vec<(FieldElement, FieldElement)>,
        sumcheck_proofs: Vec<SumCheckProof>,
    ) -> (r: Self)
        ensures
            r.output_poly == output_poly,
            r.w_polys_evals == w_polys_evals,
            r.sumcheck_proofs == sumcheck_proofs,
    {
        GKRProof { output_poly, w_polys_evals, sumcheck_proofs }
    }
}

/// A GKR proof whose input-layer claim is closed by KZG openings instead of
/// the verifier reading the input.
pub struct GKRProofWithKZG {
    pub commitment: G1Point,
    pub output_poly: MultiLinearPolynomial,
    pub w_polys_evals: Vec<(FieldElement, FieldElement)>,
    pub sumcheck_proofs: Vec<SumCheckProof>,
    pub kzg_proofs: Vec<MultilinearKZGProof>,
}

impl GKRProofWithKZG {
    /// Every carried value is canonical.
    pub open spec fn wf(&self) -> bool {
        &&& self.output_poly.wf()
        &&& forall|j: int|
            0 <= j < self.w_polys_evals@.len() ==> in_field(
                (#[trigger] self.w_polys_evals@[j]).0@,
            ) && in_field(self.w_polys_evals@[j].1@)
        &&& forall|j: int|
            0 <= j < self.sumcheck_proofs@.len() ==> (#[trigger] self.sumcheck_proofs@[j]).wf()
        &&& forall|j: int|
            0 <= j < self.kzg_proofs@.len() ==> in_field((#[trigger] self.kzg_proofs@[j]).v@)
    }

    pub fn new(
        commitment: G1Point,
        output_poly: MultiLinearPolynomial,
        w_polys_evals: Vec<(FieldElement, FieldElement)>,
        sumcheck_proofs: Vec<SumCheckProof>,
        kzg_proofs: Vec<MultilinearKZGProof>,
    ) -> (r: Self)
        ensures
            r.commitment == commitment,
            r.output_poly == output_poly,
            r.w_polys_evals == w_polys_evals,
            r.sumcheck_proofs == sumcheck_proofs,
            r.kzg_proofs == kzg_proofs,
    {
        GKRProofWithKZG { commitment, output_poly, w_polys_evals, sumcheck_proofs, kzg_proofs }
    }
}

/// A point list padded with unset entries to `n` slots.
pub open spec fn padded_points(pts: Seq<Option<int>>, n: nat) -> Seq<Option<int>> {
    Seq::new(
        n,
        |i: int|
            if i < pts.len() {
                pts[i]
            } else {
                Option::<int>::None
            },
    )
}

/// Pads a point list with unset entries up to `n` slots.
fn pad_points(pts: &[Option<FieldElement>], n: u32) -> (r: Vec<Option<FieldElement>>)
    requires
        opts_in_field(opt_vals(pts@)),
        pts@.len() <= n,
    ensures
        opt_vals(r@) == padded_points(opt_vals(pts@), n as nat),
        r@.len() == n,
        opts_in_field(opt_vals(r@)),
{
    let mut out: Vec<Option<FieldElement>> = Vec::new();
    let mut i: usize = 0;
    while i < n as usize
        invariant
            opts_in_field(opt_vals(pts@)),
            pts@.len() <= n,
            i <= n,
            out@.len() == i,
            forall|j: int|
                0 <= j < i ==> (#[trigger] out@[j]) == (if j < pts@.len() {
                    pts@[j]
                } else {
                    Option::<FieldElement>::None
                }),
        decreases n - i,
    {
        if i < pts.len() {
            let v = pts[i];
            out.push(v);
            proof {
                assert(out@[i as int] == v);
            }
        } else {
            out.push(None);
            proof {
                assert(out@[i as int] == Option::<FieldElement>::None);
            }
        }
        i = i + 1;
    }
    proof {
        assert forall|j: int|
            0 <= j < n implies opt_vals(out@)[j] == padded_points(opt_vals(pts@), n as nat)[j] by {
            if j < pts@.len() {
                assert(out@[j] == pts@[j]);
                assert(opt_vals(pts@)[j] == padded_points(opt_vals(pts@), n as nat)[j]);
            } else {
                assert(out@[j] is None);
            }
        }
        assert(opt_vals(out@) =~= padded_points(opt_vals(pts@), n as nat));
    }
    out
}

/// A prefix copy of a point list.
fn copy_opts(pts: &[Option<FieldElement>], from: usize, to: usize) -> (r: Vec<
    Option<FieldElement>,
>)
    requires
        from <= to <= pts@.len(),
        opts_in_field(opt_vals(pts@)),
    ensures
        r@ == pts@.subrange(from as int, to as int),
        r@.len() == to - from,
        opts_in_field(opt_vals(r@)),
{
    let mut out: Vec<Option<FieldElement>> = Vec::new();
    let mut i: usize = from;
    while i < to
        invariant
            from <= i <= to <= pts@.len(),
            out@ == pts@.subrange(from as int, i as int),
        decreases to - i,
    {
        proof {
            assert(pts@.subrange(from as int, i + 1) =~= pts@.subrange(from as int, i as int).push(
                pts@[i as int],
            ));
        }
        out.push(pts[i]);
        i = i + 1;
    }
    proof {
        assert forall|j: int|
            0 <= j < opt_vals(out@).len() && opt_vals(out@)[j] is Some implies in_field(
            #[trigger] opt_vals(out@)[j]->0,
        ) by {
            assert(out@[j] == pts@[from + j]);
            assert(opt_vals(out@)[j] == opt_vals(pts@)[from + j]);
        }
    }
    out
}

/// The α/β fold of one claim pair: `w_b·α + w_c·β`.
pub fn get_folded_claim_sum(
    w_i_b_eval: &FieldElement,
    w_i_c_eval: &FieldElement,
    alpha: &FieldElement,
    beta: &FieldElement,
) -> (r: FieldElement)
    requires
        in_field(w_i_b_eval@),
        in_field(w_i_c_eval@),
        in_field(alpha@),
        in_field(beta@),
    ensures
        in_field(r@),
        r@ == f_add(f_mul(w_i_b_eval@, alpha@), f_mul(w_i_c_eval@, beta@)),
{
    fe_add(&fe_mul(w_i_b_eval, alpha), &fe_mul(w_i_c_eval, beta))
}

/// The α/β fold of the two selector polynomials:
/// `α·poly(rb, ·) + β·poly(rc, ·)` for both the multiplication and the
/// addition selector.
pub fn get_folded_polys(
    alpha: &FieldElement,
    beta: &FieldElement,
    muli_a_b_c: MultiLinearPolynomial,
    addi_a_b_c: MultiLinearPolynomial,
    r_b: &[Option<FieldElement>],
    r_c: &[Option<FieldElement>],
) -> (res: Result<(MultiLinearPolynomial, MultiLinearPolynomial), Error>)
    requires
        in_field(alpha@),
        in_field(beta@),
        muli_a_b_c.wf(),
        addi_a_b_c.wf(),
        opts_in_field(opt_vals(r_b@)),
        opts_in_field(opt_vals(r_c@)),
    ensures
        res is Ok <==> fold_ok(muli_a_b_c@, addi_a_b_c@, opt_vals(r_b@), opt_vals(r_c@)),
        res is Ok ==> ({
            let n = lg(muli_a_b_c@.len());
            let mb = multi_eval(muli_a_b_c@, padded_points(opt_vals(r_b@), n));
            let mc = multi_eval(muli_a_b_c@, padded_points(opt_vals(r_c@), n));
            let ab = multi_eval(addi_a_b_c@, padded_points(opt_vals(r_b@), n));
            let ac = multi_eval(addi_a_b_c@, padded_points(opt_vals(r_c@), n));
            &&& res->Ok_0.0@ == add_seq(scale_seq(mb, alpha@), scale_seq(mc, beta@))
            &&& res->Ok_0.1@ == add_seq(scale_seq(ab, alpha@), scale_seq(ac, beta@))
            &&& res->Ok_0.0.wf()
            &&& res->Ok_0.1.wf()
        }),
{
    let n = muli_a_b_c.number_of_variables();
    if r_b.len() > n as usize || r_c.len() > n as usize {
        return Err(Error::LengthMismatch);
    }
    let eval_points_rb = pad_points(r_b, n);
    let eval_points_rc = pad_points(r_c, n);
    proof {
        crate::product_polynomial::lemma_multi_eval_len(
            muli_a_b_c@,
            opt_vals(eval_points_rb@),
        );
        crate::product_polynomial::lemma_multi_eval_len(
            muli_a_b_c@,
            opt_vals(eval_points_rc@),
        );
        crate::product_polynomial::lemma_multi_eval_len(
            addi_a_b_c@,
            opt_vals(eval_points_rb@),
        );
        crate::product_polynomial::lemma_multi_eval_len(
            addi_a_b_c@,
            opt_vals(eval_points_rc@),
        );
    }
    let mb = match muli_a_b_c.evaluate(eval_points_rb.as_slice()) {
        Ok(x) => x,
        Err(_) => {
            proof {
                assert(false);
            }
            return Err(Error::LengthMismatch);
        },
    };
    let mc = match muli_a_b_c.evaluate(eval_points_rc.as_slice()) {
        Ok(x) => x,
        Err(_) => {
            proof {
                assert(false);
            }
            return Err(Error::LengthMismatch);
        },
    };
    let new_muli_b_c = match mb.scalar_mul(alpha)._add(&mc.scalar_mul(beta)) {
        Ok(x) => x,
        Err(e) => {
            return Err(e);
        },
    };
    let ab = match addi_a_b_c.evaluate(eval_points_rb.as_slice()) {
        Ok(x) => x,
        Err(e) => {
            return Err(e);
        },
    };
    let ac = match addi_a_b_c.evaluate(eval_points_rc.as_slice()) {
        Ok(x) => x,
        Err(_) => {
            proof {
                assert(false);
            }
            return Err(Error::LengthMismatch);
        },
    };
    let new_addi_b_c = match ab.scalar_mul(alpha)._add(&ac.scalar_mul(beta)) {
        Ok(x) => x,
        Err(_) => {
            proof {
                crate::bits::lemma_pow2_lg(muli_a_b_c@.len());
                crate::bits::lemma_pow2_lg(addi_a_b_c@.len());
                assert(addi_a_b_c@.len() == muli_a_b_c@.len());
                assert(false);
            }
            return Err(Error::InvalidShape);
        },
    };
    proof {
        crate::bits::lemma_pow2_lg(muli_a_b_c@.len());
        crate::bits::lemma_pow2_lg(addi_a_b_c@.len());
    }
    Ok((new_muli_b_c, new_addi_b_c))
}

/// When the α/β fold is defined: both point lists fit into the variable
/// count, both selectors span the same variables, and the two partial
/// evaluations have equal shapes.
pub open spec fn fold_ok(
    muli: Seq<int>,
    addi: Seq<int>,
    rb: Seq<Option<int>>,
    rc: Seq<Option<int>>,
) -> bool {
    let n = lg(muli.len());
    &&& rb.len() <= n
    &&& rc.len() <= n
    &&& crate::product_polynomial::me_len(muli.len(), padded_points(rb, n))
        == crate::product_polynomial::me_len(muli.len(), padded_points(rc, n))
    &&& lg(addi.len()) == n
}

/// When the output-layer evaluation is defined: the point list fits into the
/// variable count and both selectors span the same variables.
pub open spec fn eval_at_a_ok(muli: Seq<int>, addi: Seq<int>, rv: Seq<Option<int>>) -> bool {
    &&& rv.len() <= lg(muli.len())
    &&& lg(addi.len()) == lg(muli.len())
}

/// Both selector polynomials partially evaluated at the output-layer point.
pub fn get_evaluated_muli_addi_at_a(
    muli_a_b_c: MultiLinearPolynomial,
    addi_a_b_c: MultiLinearPolynomial,
    random_values: &[Option<FieldElement>],
) -> (res: Result<(MultiLinearPolynomial, MultiLinearPolynomial), Error>)
    requires
        muli_a_b_c.wf(),
        addi_a_b_c.wf(),
        opts_in_field(opt_vals(random_values@)),
    ensures
        res is Ok <==> eval_at_a_ok(muli_a_b_c@, addi_a_b_c@, opt_vals(random_values@)),
        res is Ok ==> ({
            let n = lg(muli_a_b_c@.len());
            &&& res->Ok_0.0@ == multi_eval(
                muli_a_b_c@,
                padded_points(opt_vals(random_values@), n),
            )
            &&& res->Ok_0.1@ == multi_eval(
                addi_a_b_c@,
                padded_points(opt_vals(random_values@), n),
            )
            &&& res->Ok_0.0.wf()
            &&& res->Ok_0.1.wf()
        }),
{
    let n = muli_a_b_c.number_of_variables();
    if random_values.len() > n as usize {
        return Err(Error::LengthMismatch);
    }
    let evaluation_points = pad_points(random_values, n);
    let m = match muli_a_b_c.evaluate(evaluation_points.as_slice()) {
        Ok(x) => x,
        Err(e) => {
            return Err(e);
        },
    };
    let a = match addi_a_b_c.evaluate(evaluation_points.as_slice()) {
        Ok(x) => x,
        Err(e) => {
            return Err(e);
        },
    };
    Ok((m, a))
}

/// Absorbs two field values into the transcript, one after the other.
fn absorb_pair(transcript: &mut Transcript, a: &FieldElement, b: &FieldElement)
    requires
        in_field(a@),
        in_field(b@),
    ensures
        final(transcript)@ == old(transcript)@ + crate::field::le_bytes_32(a@)
            + crate::field::le_bytes_32(b@),
{
    let mut chunks: Vec<Vec<u8>> = Vec::new();
    let a_bytes = fe_to_bytes(a);
    let b_bytes = fe_to_bytes(b);
    chunks.push(a_bytes);
    chunks.push(b_bytes);
    proof {
        assert(chunks@.len() == 2);
        assert(chunks@[0] == a_bytes);
        assert(chunks@[1] == b_bytes);
        assert(chunks@.last() == b_bytes);
        assert(chunks@.drop_last() =~= seq![a_bytes]);
        assert(seq![a_bytes].drop_last() =~= Seq::<Vec<u8>>::empty());
        assert(seq![a_bytes].last() == a_bytes);
        assert(flatten_bytes(Seq::<Vec<u8>>::empty()) =~= Seq::<u8>::empty());
        assert(flatten_bytes(seq![a_bytes]) == flatten_bytes(seq![a_bytes].drop_last())
            + a_bytes@);
        assert(flatten_bytes(seq![a_bytes]) =~= a_bytes@);
        assert(flatten_bytes(chunks@) == flatten_bytes(chunks@.drop_last()) + b_bytes@);
        assert(flatten_bytes(chunks@) =~= crate::field::le_bytes_32(a@)
            + crate::field::le_bytes_32(b@));
    }
    transcript.append_n(&chunks);
    proof {
        assert(final(transcript)@ =~= old(transcript)@ + crate::field::le_bytes_32(a@)
            + crate::field::le_bytes_32(b@));
    }
}

/// Wraps each drawn challenge as a set point.
fn to_some_points(points: &Vec<FieldElement>) -> (r: Vec<Option<FieldElement>>)
    requires
        in_field_seq(vals(points@)),
    ensures
        r@.len() == points@.len(),
        opts_in_field(opt_vals(r@)),
        forall|j: int| 0 <= j < r@.len() ==> (#[trigger] r@[j]) == Some(points@[j]),
{
    let mut out: Vec<Option<FieldElement>> = Vec::new();
    let mut i: usize = 0;
    while i < points.len()
        invariant
            in_field_seq(vals(points@)),
            i <= points@.len(),
            out@.len() == i,
            forall|j: int| 0 <= j < i ==> (#[trigger] out@[j]) == Some(points@[j]),
        decreases points@.len() - i,
    {
        let v = points[i];
        out.push(Some(v));
        proof {
            assert(out@[i as int] == Some(v));
        }
        i = i + 1;
    }
    proof {
        assert forall|j: int|
            0 <= j < opt_vals(out@).len() && opt_vals(out@)[j] is Some implies in_field(
            #[trigger] opt_vals(out@)[j]->0,
        ) by {
            assert(out@[j] == Some(points@[j]));
            assert(vals(points@)[j] == points@[j]@);
        }
    }
    out
}

/// Unwraps the set points of a challenge list.
fn unwrap_points(points: &[Option<FieldElement>]) -> (res: Result<Vec<FieldElement>, Error>)
    requires
        opts_in_field(opt_vals(points@)),
    ensures
        res is Ok ==> res->Ok_0@.len() == points@.len() && in_field_seq(vals(res->Ok_0@)) && (
        forall|j: int|
            0 <= j < points@.len() ==> vals(#[trigger] res->Ok_0@)[j] == opt_vals(
                points@,
            )[j]->0),
        (forall|j: int| 0 <= j < points@.len() ==> (#[trigger] points@[j]) is Some) ==> res is Ok,
{
    let mut out: Vec<FieldElement> = Vec::new();
    let mut i: usize = 0;
    while i < points.len()
        invariant
            opts_in_field(opt_vals(points@)),
            i <= points@.len(),
            out@.len() == i,
            forall|j: int| 0 <= j < i ==> (#[trigger] points@[j]) is Some,
            forall|j: int| 0 <= j < i ==> (#[trigger] out@[j]) == points@[j]->0,
        decreases points@.len() - i,
    {
        let cur = points[i];
        proof {
            assert(cur == points@[i as int]);
        }
        match cur {
            Some(v) => {
                let ghost prev = out@;
                out.push(v);
                proof {
                    assert(out@ == prev.push(v));
                    assert(points@[i as int] == Some(v));
                    assert forall|j: int| 0 <= j < i + 1 implies (
                    #[trigger] points@[j]) is Some by {
                        if j < i {
                            assert(points@[j] is Some);
                        }
                    }
                    assert forall|j: int|
                        0 <= j < i + 1 implies (#[trigger] out@[j]) == points@[j]->0 by {
                        if j < i {
                            assert(out@[j] == prev[j]);
                        } else {
                            assert(out@[j] == v);
                        }
                    }
                }
            },
            None => {
                return Err(Error::InvalidShape);
            },
        }
        i = i + 1;
    }
    proof {
        assert forall|j: int|
            0 <= j < vals(out@).len() implies in_field(#[trigger] vals(out@)[j]) by {
            assert(vals(out@)[j] == out@[j]@);
            assert(opt_vals(points@)[j] == Some(out@[j]@));
        }
        assert forall|j: int|
            0 <= j < points@.len() implies vals(#[trigger] out@)[j] == opt_vals(
            points@,
        )[j]->0 by {
            assert(vals(out@)[j] == out@[j]@);
            assert(opt_vals(points@)[j] == Some(out@[j]@));
        }
    }
    Ok(out)
}

/// The claimed W pairs as plain values.
pub open spec fn weval_views(s: Seq<(FieldElement, FieldElement)>) -> Seq<(int, int)> {
    s.map_values(|p: (FieldElement, FieldElement)| (p.0@, p.1@))
}

/// The prover's walk from `layer_idx` on, as a specification: `None` where
/// a shape check fails, otherwise the claimed W pairs, the per-layer
/// sum-check claims with their round polynomials, and the transcript left
/// behind.  `evals` holds the per-layer wire tables, inputs first, and `rv`
/// the current random point.
pub open spec fn gkr_prove_layers(
    layers: Seq<Seq<Gate>>,
    evals: Seq<Seq<int>>,
    layer_idx: nat,
    rv: Seq<int>,
    t: Seq<u8>,
) -> Option<(Seq<(int, int)>, Seq<(int, Seq<Seq<int>>)>, Seq<u8>, Seq<int>)>
    decreases layers.len() - layer_idx,
{
    if layer_idx >= layers.len() {
        Some((Seq::<(int, int)>::empty(), Seq::<(int, Seq<Seq<int>>)>::empty(), t, rv))
    } else {
        let gates = layers[layer_idx as int];
        let muli = crate::circuit::selector(gates, false);
        let addi = crate::circuit::selector(gates, true);
        let n = lg(muli.len());
        let wk = evals[evals.len() - 1 - layer_idx];
        let step = if layer_idx == 0 {
            if !eval_at_a_ok(muli, addi, crate::kzg::all_some(rv)) {
                Option::<(Seq<int>, Seq<int>, int, Seq<(int, int)>, Seq<u8>)>::None
            } else if rv.len() != lg(wk.len()) {
                Option::None
            } else {
                let pts = padded_points(crate::kzg::all_some(rv), n);
                Option::Some(
                    (
                        multi_eval(muli, pts),
                        multi_eval(addi, pts),
                        multi_eval(wk, crate::kzg::all_some(rv))[0],
                        Seq::<(int, int)>::empty(),
                        t,
                    ),
                )
            }
        } else {
            let rb = rv.take((rv.len() / 2) as int);
            let rc = rv.skip((rv.len() / 2) as int);
            if rb.len() != lg(wk.len()) || rc.len() != lg(wk.len()) {
                Option::None
            } else {
                let u = multi_eval(wk, crate::kzg::all_some(rb))[0];
                let v = multi_eval(wk, crate::kzg::all_some(rc))[0];
                let ta = t + crate::field::le_bytes_32(u) + crate::field::le_bytes_32(v);
                let alpha = crate::transcript::challenge_of(ta);
                let tb = crate::transcript::state_after_challenge(ta);
                let beta = crate::transcript::challenge_of(tb);
                let t2 = crate::transcript::state_after_challenge(tb);
                if !fold_ok(muli, addi, crate::kzg::all_some(rb), crate::kzg::all_some(rc)) {
                    Option::None
                } else {
                    let nm = add_seq(
                        scale_seq(multi_eval(muli, padded_points(crate::kzg::all_some(rb), n)), alpha),
                        scale_seq(multi_eval(muli, padded_points(crate::kzg::all_some(rc), n)), beta),
                    );
                    let na = add_seq(
                        scale_seq(multi_eval(addi, padded_points(crate::kzg::all_some(rb), n)), alpha),
                        scale_seq(multi_eval(addi, padded_points(crate::kzg::all_some(rc), n)), beta),
                    );
                    Option::Some(
                        (nm, na, f_add(f_mul(u, alpha), f_mul(v, beta)), seq![(u, v)], t2),
                    )
                }
            }
        };
        match step {
            Option::None => Option::None,
            Option::Some(st) => {
                let nm = st.0;
                let na = st.1;
                let wnext = evals[evals.len() - 2 - layer_idx];
                let nl = wnext.len();
                if nl == 0 || nl as int > usize::MAX as int / (nl as int) {
                    Option::None
                } else {
                    let wmul = crate::multilinear::tensor_seq(wnext, wnext, true);
                    let wadd = crate::multilinear::tensor_seq(wnext, wnext, false);
                    if wmul.len() != nm.len() || wadd.len() != na.len() || na.len() != nm.len() {
                        Option::None
                    } else {
                        let fbc = seq![seq![nm, wmul], seq![na, wadd]];
                        let ps = crate::sumcheck::prover_sum(fbc, st.4, lg(nm.len()));
                        match gkr_prove_layers(layers, evals, layer_idx + 1, ps.1, ps.2) {
                            Option::None => Option::None,
                            Option::Some(rest) => Option::Some(
                                (st.3 + rest.0, seq![(st.2, ps.0)] + rest.1, rest.2, rest.3),
                            ),
                        }
                    }
                }
            },
        }
    }
}

/// The whole prover run as a specification: `None` where the circuit or the
/// inputs are rejected, otherwise the output table, the claimed W pairs,
/// the per-layer claims with their round polynomials, and the transcript
/// left behind.
pub open spec fn gkr_prove_spec(layers: Seq<Seq<Gate>>, inputs: Seq<int>, t0: Seq<u8>) -> Option<
    (Seq<int>, Seq<(int, int)>, Seq<(int, Seq<Seq<int>>)>, Seq<u8>),
> {
    if !(crate::bits::is_pow2(inputs.len()) && crate::circuit::layers_ok(layers, inputs)) {
        Option::None
    } else {
        let evals = crate::circuit::circuit_evals(layers, inputs);
        let w0 = evals.last();
        let t1 = t0 + crate::field::elems_to_bytes(w0);
        let n = lg(w0.len());
        match gkr_prove_layers(
            layers,
            evals,
            0,
            crate::transcript::challenges_of(t1, n),
            crate::transcript::state_after_n(t1, n),
        ) {
            Option::None => Option::None,
            Option::Some(rest) => Option::Some((w0, rest.0, rest.1, rest.2)),
        }
    }
}

/// The KZG-closed prover run as a specification: `None` where the circuit,
/// the inputs or the setup are rejected, otherwise the output table, the
/// claimed W pairs, the per-layer claims with their round polynomials, the
/// transcript left behind, and the final random point that the two KZG
/// openings are taken at.
pub open spec fn gkr_kzg_prove_spec(
    layers: Seq<Seq<Gate>>,
    inputs: Seq<int>,
    basis: Seq<G1Point>,
    t0: Seq<u8>,
) -> Option<(Seq<int>, Seq<(int, int)>, Seq<(int, Seq<Seq<int>>)>, Seq<u8>, Seq<int>)> {
    if !(crate::bits::is_pow2(inputs.len()) && basis.len() == inputs.len()
        && crate::circuit::layers_ok(layers, inputs)) {
        Option::None
    } else {
        let evals = crate::circuit::circuit_evals(layers, inputs);
        let w0 = evals.last();
        let cd = crate::kzg::dot_mod(crate::kzg::g1_dlogs(basis), inputs, inputs.len());
        let t1 = t0 + crate::kzg::g1_string_of(cd) + crate::field::elems_to_bytes(w0);
        let n = lg(w0.len());
        match gkr_prove_layers(
            layers,
            evals,
            0,
            crate::transcript::challenges_of(t1, n),
            crate::transcript::state_after_n(t1, n),
        ) {
            Option::None => Option::None,
            Option::Some(rest) => {
                let rv = rest.3;
                let rb = rv.take((rv.len() / 2) as int);
                let rc = rv.skip((rv.len() / 2) as int);
                if rb.len() != lg(inputs.len()) || rc.len() != lg(inputs.len()) {
                    Option::None
                } else {
                    Option::Some((w0, rest.0, rest.1, rest.2, rv))
                }
            },
        }
    }
}

/// The GKR prover.
pub struct GKRProver {
}

impl GKRProver {
    /// Generates a layered GKR proof for the circuit over the inputs: the
    /// output table is committed to the transcript, and each layer's claim
    /// is reduced by one sum-check over
    /// `muli(b,c)·W(b)·W(c) + addi(b,c)·(W(b)+W(c))`, with the α/β fold
    /// joining the two carried claims of every inner layer.  The result is
    /// exactly the walk of `gkr_prove_spec`, which also says when `Ok` is
    /// owed.
    #[verifier::rlimit(100)]
    pub fn generate_proof(
        circuit: &mut Circuit,
        transcript: &mut Transcript,
        inputs: &[FieldElement],
    ) -> (res: Result<GKRProof, Error>)
        requires
            old(circuit).wf(),
            in_field_seq(vals(inputs@)),
        ensures
            final(circuit)@ == old(circuit)@,
            res is Ok <==> gkr_prove_spec(old(circuit)@, vals(inputs@), old(transcript)@)
                is Some,
            res is Ok ==> ({
                let sp = gkr_prove_spec(
                    old(circuit)@,
                    vals(inputs@),
                    old(transcript)@,
                )->Some_0;
                &&& res->Ok_0.output_poly@ == sp.0
                &&& weval_views(res->Ok_0.w_polys_evals@) == sp.1
                &&& res->Ok_0.sumcheck_proofs@.len() == sp.2.len()
                &&& res->Ok_0.sumcheck_proofs@.len() == old(circuit)@.len()
                &&& (forall|k: int|
                    0 <= k < sp.2.len() ==> (
                    #[trigger] res->Ok_0.sumcheck_proofs@[k]).initial_claim_sum@ == sp.2[k].0
                        && crate::sumcheck::round_views(
                        res->Ok_0.sumcheck_proofs@[k].round_polys@,
                    ) == sp.2[k].1)
                &&& final(transcript)@ == sp.3
                &&& res->Ok_0.wf()
            }),
    {
        let ghost inputsv = vals(inputs@);
        let ghost full = gkr_prove_spec(old(circuit)@, inputsv, old(transcript)@);
        let circuit_evaluations = match circuit.evaluate_at_input(copy_slice(inputs)) {
            Ok(e) => e,
            Err(e) => {
                proof {
                    assert(full is None);
                }
                return Err(e);
            },
        };
        let ghost evalsv = crate::product_polynomial::poly_views(circuit_evaluations@);
        proof {
            assert(evalsv == crate::circuit::circuit_evals(old(circuit)@, inputsv));
        }
        let layer_count = circuit.get_layer_count();
        let mut w_polys_evals: Vec<(FieldElement, FieldElement)> = Vec::new();
        let mut sum_check_proofs: Vec<SumCheckProof> = Vec::new();
        let mut running_layer_polynomial = match circuit.get_w_i(
            0,
            circuit_evaluations.as_slice(),
        ) {
            Ok(w) => w,
            Err(e) => {
                proof {
                    assert(false);
                }
                return Err(e);
            },
        };
        proof {
            assert(running_layer_polynomial@ == evalsv[evalsv.len() - 1]);
            assert(evalsv[evalsv.len() - 1] == evalsv.last());
        }
        let w0_bytes = running_layer_polynomial.to_bytes();
        transcript.append(w0_bytes.as_slice());
        let ghost t1 = old(transcript)@ + crate::field::elems_to_bytes(evalsv.last());
        let length_of_rs = running_layer_polynomial.number_of_variables();
        let sampled = transcript.sample_n_challenges(length_of_rs as usize);
        let mut random_values = to_some_points(&sampled);
        let ghost mut rv_now = vals(sampled@);
        let ghost mut wacc = Seq::<(int, int)>::empty();
        let ghost mut prfacc = Seq::<(int, Seq<Seq<int>>)>::empty();
        proof {
            assert(rv_now == crate::transcript::challenges_of(t1, lg(evalsv.last().len())));
            assert(opt_vals(random_values@) =~= crate::kzg::all_some(rv_now));
            assert(weval_views(w_polys_evals@) =~= wacc);
            if full is Some {
                assert(wacc + gkr_prove_layers(
                    old(circuit)@,
                    evalsv,
                    0,
                    rv_now,
                    transcript@,
                )->Some_0.0 =~= gkr_prove_layers(
                    old(circuit)@,
                    evalsv,
                    0,
                    rv_now,
                    transcript@,
                )->Some_0.0);
                assert(prfacc + gkr_prove_layers(
                    old(circuit)@,
                    evalsv,
                    0,
                    rv_now,
                    transcript@,
                )->Some_0.1 =~= gkr_prove_layers(
                    old(circuit)@,
                    evalsv,
                    0,
                    rv_now,
                    transcript@,
                )->Some_0.1);
            }
        }
        let mut layer_idx: usize = 0;
        while layer_idx < layer_count
            invariant
                circuit.wf(),
                circuit@ == old(circuit)@,
                layer_count == circuit@.len(),
                layer_idx <= layer_count,
                inputsv == vals(inputs@),
                in_field_seq(inputsv),
                full == gkr_prove_spec(old(circuit)@, inputsv, old(transcript)@),
                evalsv == crate::circuit::circuit_evals(old(circuit)@, inputsv),
                forall|j: int|
                    0 <= j < circuit_evaluations@.len() ==> (
                    #[trigger] circuit_evaluations@[j]).wf(),
                circuit_evaluations@.len() == layer_count + 1,
                crate::product_polynomial::poly_views(circuit_evaluations@) == evalsv,
                running_layer_polynomial.wf(),
                running_layer_polynomial@ == evalsv[evalsv.len() - 1 - layer_idx],
                opt_vals(random_values@) == crate::kzg::all_some(rv_now),
                opts_in_field(opt_vals(random_values@)),
                wacc == weval_views(w_polys_evals@),
                forall|j: int|
                    0 <= j < w_polys_evals@.len() ==> in_field(
                        (#[trigger] w_polys_evals@[j]).0@,
                    ) && in_field(w_polys_evals@[j].1@),
                prfacc.len() == sum_check_proofs@.len(),
                sum_check_proofs@.len() == layer_idx,
                forall|k: int|
                    0 <= k < prfacc.len() ==> (
                    #[trigger] sum_check_proofs@[k]).initial_claim_sum@ == prfacc[k].0
                        && crate::sumcheck::round_views(sum_check_proofs@[k].round_polys@)
                        == prfacc[k].1,
                forall|k: int|
                    0 <= k < sum_check_proofs@.len() ==> (#[trigger] sum_check_proofs@[k]).wf(),
                (full is Some) == (gkr_prove_layers(
                    circuit@,
                    evalsv,
                    layer_idx as nat,
                    rv_now,
                    transcript@,
                ) is Some),
                full is Some ==> ({
                    let rest = gkr_prove_layers(
                        circuit@,
                        evalsv,
                        layer_idx as nat,
                        rv_now,
                        transcript@,
                    )->Some_0;
                    &&& full->Some_0.0 == evalsv.last()
                    &&& full->Some_0.1 == wacc + rest.0
                    &&& full->Some_0.2 == prfacc + rest.1
                    &&& full->Some_0.3 == rest.2
                }),
            decreases layer_count - layer_idx,
        {
            let ghost rv_spec = rv_now;
            let ghost t_at_entry = transcript@;
            let ghost gates = circuit@[layer_idx as int];
            let ghost muli_spec = crate::circuit::selector(gates, false);
            let ghost addi_spec = crate::circuit::selector(gates, true);
            let ghost nspec = lg(muli_spec.len());
            let ghost wk = evalsv[evalsv.len() - 1 - layer_idx];
            let muli_a_b_c = match circuit.get_mul_i(layer_idx) {
                Ok(m) => m,
                Err(e) => {
                    proof {
                        assert(false);
                    }
                    return Err(e);
                },
            };
            let addi_a_b_c = match circuit.get_add_i(layer_idx) {
                Ok(a) => a,
                Err(e) => {
                    proof {
                        assert(false);
                    }
                    return Err(e);
                },
            };
            let claim_sum: FieldElement;
            let new_muli_b_c: MultiLinearPolynomial;
            let new_addi_b_c: MultiLinearPolynomial;
            let ghost nm_spec: Seq<int>;
            let ghost na_spec: Seq<int>;
            let ghost wstep: Seq<(int, int)>;
            if layer_idx == 0 {
                let pair = match get_evaluated_muli_addi_at_a(
                    muli_a_b_c,
                    addi_a_b_c,
                    random_values.as_slice(),
                ) {
                    Ok(p) => p,
                    Err(e) => {
                        proof {
                            assert(!eval_at_a_ok(
                                muli_spec,
                                addi_spec,
                                crate::kzg::all_some(rv_spec),
                            ));
                            assert(full is None);
                        }
                        return Err(e);
                    },
                };
                let evaluated = match running_layer_polynomial.evaluate(random_values.as_slice()) {
                    Ok(x) => x,
                    Err(e) => {
                        proof {
                            assert(rv_spec.len() != lg(wk.len()));
                            assert(full is None);
                        }
                        return Err(e);
                    },
                };
                let first = {
                    let pts = evaluated.get_evaluation_points();
                    proof {
                        assert(evaluated@.len() >= 1);
                        assert(vals(pts@)[0] == pts@[0]@);
                        assert(in_field(evaluated@[0]));
                    }
                    pts[0]
                };
                claim_sum = first;
                new_muli_b_c = pair.0;
                new_addi_b_c = pair.1;
                proof {
                    nm_spec = multi_eval(
                        muli_spec,
                        padded_points(crate::kzg::all_some(rv_spec), nspec),
                    );
                    na_spec = multi_eval(
                        addi_spec,
                        padded_points(crate::kzg::all_some(rv_spec), nspec),
                    );
                    wstep = Seq::<(int, int)>::empty();
                    assert(new_muli_b_c@ == nm_spec);
                    assert(new_addi_b_c@ == na_spec);
                    assert(claim_sum@ == multi_eval(wk, crate::kzg::all_some(rv_spec))[0]);
                }
            } else {
                let half = random_values.len() / 2;
                let r_b = copy_opts(random_values.as_slice(), 0, half);
                let r_c = copy_opts(random_values.as_slice(), half, random_values.len());
                proof {
                    let hh = (rv_spec.len() / 2) as int;
                    assert(random_values@.len() == rv_spec.len());
                    assert forall|j: int|
                        0 <= j < hh implies opt_vals(r_b@)[j] == crate::kzg::all_some(
                        rv_spec.take(hh),
                    )[j] by {
                        assert(r_b@[j] == random_values@[j]);
                        assert(opt_vals(r_b@)[j] == opt_vals(random_values@)[j]);
                        assert(opt_vals(random_values@)[j] == crate::kzg::all_some(rv_spec)[j]);
                        assert(rv_spec.take(hh)[j] == rv_spec[j]);
                    }
                    assert(opt_vals(r_b@) =~= crate::kzg::all_some(rv_spec.take(hh)));
                    assert forall|j: int|
                        0 <= j < rv_spec.len() - hh implies opt_vals(r_c@)[j]
                        == crate::kzg::all_some(rv_spec.skip(hh))[j] by {
                        assert(r_c@[j] == random_values@[j + hh]);
                        assert(opt_vals(r_c@)[j] == opt_vals(random_values@)[j + hh]);
                        assert(opt_vals(random_values@)[j + hh] == crate::kzg::all_some(
                            rv_spec,
                        )[j + hh]);
                        assert(rv_spec.skip(hh)[j] == rv_spec[j + hh]);
                    }
                    assert(opt_vals(r_c@) =~= crate::kzg::all_some(rv_spec.skip(hh)));
                }
                let eval_b = match running_layer_polynomial.evaluate(r_b.as_slice()) {
                    Ok(x) => x,
                    Err(e) => {
                        proof {
                            assert(rv_spec.take((rv_spec.len() / 2) as int).len() != lg(
                                wk.len(),
                            ));
                            assert(full is None);
                        }
                        return Err(e);
                    },
                };
                let eval_c = match running_layer_polynomial.evaluate(r_c.as_slice()) {
                    Ok(x) => x,
                    Err(e) => {
                        proof {
                            assert(rv_spec.skip((rv_spec.len() / 2) as int).len() != lg(
                                wk.len(),
                            ));
                            assert(full is None);
                        }
                        return Err(e);
                    },
                };
                let w_i_b_eval = {
                    let pts = eval_b.get_evaluation_points();
                    proof {
                        assert(eval_b@.len() >= 1);
                        assert(vals(pts@)[0] == pts@[0]@);
                        assert(in_field(eval_b@[0]));
                    }
                    pts[0]
                };
                let w_i_c_eval = {
                    let pts = eval_c.get_evaluation_points();
                    proof {
                        assert(eval_c@.len() >= 1);
                        assert(vals(pts@)[0] == pts@[0]@);
                        assert(in_field(eval_c@[0]));
                    }
                    pts[0]
                };
                absorb_pair(transcript, &w_i_b_eval, &w_i_c_eval);
                let alpha = transcript.sample_challenge();
                let beta = transcript.sample_challenge();
                let folded = match get_folded_polys(
                    &alpha,
                    &beta,
                    muli_a_b_c,
                    addi_a_b_c,
                    r_b.as_slice(),
                    r_c.as_slice(),
                ) {
                    Ok(p) => p,
                    Err(e) => {
                        proof {
                            assert(!fold_ok(
                                muli_spec,
                                addi_spec,
                                crate::kzg::all_some(rv_spec.take((rv_spec.len() / 2) as int)),
                                crate::kzg::all_some(rv_spec.skip((rv_spec.len() / 2) as int)),
                            ));
                            assert(full is None);
                        }
                        return Err(e);
                    },
                };
                let ghost prev_wacc = wacc;
                w_polys_evals.push((w_i_b_eval, w_i_c_eval));
                claim_sum = get_folded_claim_sum(&w_i_b_eval, &w_i_c_eval, &alpha, &beta);
                new_muli_b_c = folded.0;
                new_addi_b_c = folded.1;
                proof {
                    let rbs = crate::kzg::all_some(rv_spec.take((rv_spec.len() / 2) as int));
                    let rcs = crate::kzg::all_some(rv_spec.skip((rv_spec.len() / 2) as int));
                    nm_spec = add_seq(
                        scale_seq(multi_eval(muli_spec, padded_points(rbs, nspec)), alpha@),
                        scale_seq(multi_eval(muli_spec, padded_points(rcs, nspec)), beta@),
                    );
                    na_spec = add_seq(
                        scale_seq(multi_eval(addi_spec, padded_points(rbs, nspec)), alpha@),
                        scale_seq(multi_eval(addi_spec, padded_points(rcs, nspec)), beta@),
                    );
                    wstep = seq![(w_i_b_eval@, w_i_c_eval@)];
                    wacc = prev_wacc + wstep;
                    assert(w_polys_evals@[w_polys_evals@.len() - 1] == (w_i_b_eval, w_i_c_eval));
                    assert(weval_views(w_polys_evals@) =~= wacc);
                    assert(new_muli_b_c@ == nm_spec);
                    assert(new_addi_b_c@ == na_spec);
                }
            }
            let next_w_i = match circuit.get_w_i(layer_idx + 1, circuit_evaluations.as_slice()) {
                Ok(w) => w,
                Err(e) => {
                    proof {
                        assert(false);
                    }
                    return Err(e);
                },
            };
            proof {
                assert(next_w_i@ == evalsv[evalsv.len() - 2 - layer_idx]);
            }
            let next_len = next_w_i.get_evaluation_points().len();
            if next_len == 0 || next_len > usize::MAX / next_len {
                proof {
                    assert(full is None);
                }
                return Err(Error::InvalidShape);
            }
            proof {
                lemma_square_bound(next_len as nat);
            }
            let w_mul = next_w_i.w_mul(&next_w_i);
            let w_add = MultiLinearPolynomial::w_add(&next_w_i, &next_w_i);
            let mut mul_factors: Vec<MultiLinearPolynomial> = Vec::new();
            mul_factors.push(new_muli_b_c);
            mul_factors.push(w_mul);
            let mul_prod = match ProductPolynomial::new(mul_factors) {
                Ok(p) => p,
                Err(e) => {
                    proof {
                        assert(full is None);
                    }
                    return Err(e);
                },
            };
            let mut add_factors: Vec<MultiLinearPolynomial> = Vec::new();
            add_factors.push(new_addi_b_c);
            add_factors.push(w_add);
            let add_prod = match ProductPolynomial::new(add_factors) {
                Ok(p) => p,
                Err(e) => {
                    proof {
                        assert(full is None);
                    }
                    return Err(e);
                },
            };
            let mut members: Vec<ProductPolynomial> = Vec::new();
            members.push(mul_prod);
            members.push(add_prod);
            let f_b_c = match SumPolynomial::new(members) {
                Ok(sp) => sp,
                Err(e) => {
                    proof {
                        assert(full is None);
                    }
                    return Err(e);
                },
            };
            let ghost wnext = evalsv[evalsv.len() - 2 - layer_idx];
            let ghost fbcv = seq![
                seq![nm_spec, crate::multilinear::tensor_seq(wnext, wnext, true)],
                seq![na_spec, crate::multilinear::tensor_seq(wnext, wnext, false)],
            ];
            proof {
                assert(f_b_c@ =~~= fbcv);
                assert(f_b_c@.len() == 2);
                assert(f_b_c@[0].len() == 2);
                assert(f_b_c.spec_length() == nm_spec.len());
            }
            let ghost t_before_rounds = transcript@;
            let (sumcheck_proof, random_points) = SumcheckProver::generate_proof_for_partial_verify(
                claim_sum,
                f_b_c,
                transcript,
            );
            let ghost ps = crate::sumcheck::prover_sum(fbcv, t_before_rounds, lg(nm_spec.len()));
            random_values = to_some_points(&random_points);
            running_layer_polynomial = match circuit.get_w_i(
                layer_idx + 1,
                circuit_evaluations.as_slice(),
            ) {
                Ok(w) => w,
                Err(e) => {
                    proof {
                        assert(false);
                    }
                    return Err(e);
                },
            };
            let ghost prev_prfacc = prfacc;
            sum_check_proofs.push(sumcheck_proof);
            proof {
                rv_now = ps.1;
                prfacc = prev_prfacc.push((claim_sum@, ps.0));
                assert(opt_vals(random_values@) =~= crate::kzg::all_some(rv_now));
                assert(sum_check_proofs@[sum_check_proofs@.len() - 1] == sumcheck_proof);
                assert forall|k: int|
                    0 <= k < prfacc.len() implies (
                #[trigger] sum_check_proofs@[k]).initial_claim_sum@ == prfacc[k].0
                    && crate::sumcheck::round_views(sum_check_proofs@[k].round_polys@)
                    == prfacc[k].1 by {
                    if k < prfacc.len() - 1 {
                        assert(sum_check_proofs@[k] == sum_check_proofs@.drop_last()[k]);
                        assert(prfacc[k] == prev_prfacc[k]);
                    }
                }
                assert forall|k: int|
                    0 <= k < sum_check_proofs@.len() implies (
                #[trigger] sum_check_proofs@[k]).wf() by {
                    if k < sum_check_proofs@.len() - 1 {
                        assert(sum_check_proofs@[k] == sum_check_proofs@.drop_last()[k]);
                    }
                }
                // the walk unfolds one layer: regroup the accumulators
                if full is Some {
                    let rest_new = gkr_prove_layers(
                        circuit@,
                        evalsv,
                        (layer_idx + 1) as nat,
                        rv_now,
                        transcript@,
                    )->Some_0;
                    assert((wacc) + rest_new.0 =~= (if layer_idx == 0 {
                        wacc
                    } else {
                        wacc.drop_last().push(wacc.last())
                    }) + rest_new.0);
                    assert(gkr_prove_layers(
                        circuit@,
                        evalsv,
                        layer_idx as nat,
                        rv_spec,
                        t_at_entry,
                    )->Some_0.0 =~= wstep + rest_new.0);
                    assert(gkr_prove_layers(
                        circuit@,
                        evalsv,
                        layer_idx as nat,
                        rv_spec,
                        t_at_entry,
                    )->Some_0.1 =~= seq![(claim_sum@, ps.0)] + rest_new.1);
                    assert((wacc.subrange(0, wacc.len() - wstep.len() as int) + wstep)
                        + rest_new.0 =~= wacc.subrange(0, wacc.len() - wstep.len() as int) + (
                    wstep + rest_new.0));
                    assert(wacc.subrange(0, wacc.len() - wstep.len() as int) + wstep =~= wacc);
                    assert((prev_prfacc + seq![(claim_sum@, ps.0)]) + rest_new.1
                        =~= prev_prfacc + (seq![(claim_sum@, ps.0)] + rest_new.1));
                    assert(prev_prfacc + seq![(claim_sum@, ps.0)] =~= prfacc);
                }
            }
            layer_idx = layer_idx + 1;
        }
        let output_poly = match circuit.get_w_i(0, circuit_evaluations.as_slice()) {
            Ok(w) => w,
            Err(e) => {
                proof {
                    assert(false);
                }
                return Err(e);
            },
        };
        proof {
            assert(output_poly@ == evalsv[evalsv.len() - 1]);
            assert(output_poly@ == evalsv.last());
            if full is Some {
                let rest = gkr_prove_layers(
                    circuit@,
                    evalsv,
                    layer_count as nat,
                    rv_now,
                    transcript@,
                )->Some_0;
                assert(rest.0 =~= Seq::<(int, int)>::empty());
                assert(rest.1 =~= Seq::<(int, Seq<Seq<int>>)>::empty());
                assert(wacc + rest.0 =~= wacc);
                assert(prfacc + rest.1 =~= prfacc);
            }
        }
        Ok(GKRProof { output_poly, w_polys_evals, sumcheck_proofs: sum_check_proofs })
    }

    /// The KZG-closed variant: commits to the input polynomial, absorbs the
    /// commitment before the output table, runs the layered protocol, and
    /// closes the input-layer claim with two KZG openings at `(rb, rc)`.
    /// The result is exactly the walk of `gkr_kzg_prove_spec`, which also
    /// says when `Ok` is owed.
    #[verifier::rlimit(100)]
    pub fn generate_proof_with_kzg(
        circuit: &mut Circuit,
        transcript: &mut Transcript,
        inputs: &[FieldElement],
        encrypted_lagrange_basis: &[G1Point],
    ) -> (res: Result<GKRProofWithKZG, Error>)
        requires
            old(circuit).wf(),
            in_field_seq(vals(inputs@)),
        ensures
            final(circuit)@ == old(circuit)@,
            res is Ok <==> gkr_kzg_prove_spec(
                old(circuit)@,
                vals(inputs@),
                encrypted_lagrange_basis@,
                old(transcript)@,
            ) is Some,
            res is Ok ==> ({
                let sp = gkr_kzg_prove_spec(
                    old(circuit)@,
                    vals(inputs@),
                    encrypted_lagrange_basis@,
                    old(transcript)@,
                )->Some_0;
                let bd = crate::kzg::g1_dlogs(encrypted_lagrange_basis@);
                let rbv = sp.4.take((sp.4.len() / 2) as int);
                let rcv = sp.4.skip((sp.4.len() / 2) as int);
                &&& res->Ok_0.output_poly@ == sp.0
                &&& weval_views(res->Ok_0.w_polys_evals@) == sp.1
                &&& res->Ok_0.sumcheck_proofs@.len() == sp.2.len()
                &&& res->Ok_0.sumcheck_proofs@.len() == old(circuit)@.len()
                &&& (forall|k: int|
                    0 <= k < sp.2.len() ==> (
                    #[trigger] res->Ok_0.sumcheck_proofs@[k]).initial_claim_sum@ == sp.2[k].0
                        && crate::sumcheck::round_views(
                        res->Ok_0.sumcheck_proofs@[k].round_polys@,
                    ) == sp.2[k].1)
                &&& final(transcript)@ == sp.3
                &&& crate::kzg::g1_dlog(res->Ok_0.commitment) == crate::kzg::dot_mod(
                    bd,
                    vals(inputs@),
                    vals(inputs@).len(),
                )
                &&& res->Ok_0.kzg_proofs@.len() == 2
                &&& res->Ok_0.kzg_proofs@[0].v@ == multi_eval(
                    vals(inputs@),
                    crate::kzg::all_some(rbv),
                )[0]
                &&& res->Ok_0.kzg_proofs@[1].v@ == multi_eval(
                    vals(inputs@),
                    crate::kzg::all_some(rcv),
                )[0]
                &&& crate::kzg::g1_dlog(res->Ok_0.kzg_proofs@[0].commitment)
                    == crate::kzg::dot_mod(bd, vals(inputs@), vals(inputs@).len())
                &&& crate::kzg::g1_dlog(res->Ok_0.kzg_proofs@[1].commitment)
                    == crate::kzg::dot_mod(bd, vals(inputs@), vals(inputs@).len())
                &&& (forall|j: int|
                    0 <= j < rbv.len() ==> crate::kzg::g1_dlog(
                        #[trigger] res->Ok_0.kzg_proofs@[0].q_taus@[j],
                    ) == crate::kzg::dot_mod(
                        bd,
                        crate::kzg::kzg_blown_quotient(vals(inputs@), rbv, j as nat),
                        vals(inputs@).len(),
                    ))
                &&& (forall|j: int|
                    0 <= j < rcv.len() ==> crate::kzg::g1_dlog(
                        #[trigger] res->Ok_0.kzg_proofs@[1].q_taus@[j],
                    ) == crate::kzg::dot_mod(
                        bd,
                        crate::kzg::kzg_blown_quotient(vals(inputs@), rcv, j as nat),
                        vals(inputs@).len(),
                    ))
                &&& res->Ok_0.wf()
            }),
    {
        let ghost inputsv = vals(inputs@);
        let ghost basisv = encrypted_lagrange_basis@;
        let ghost full = gkr_kzg_prove_spec(old(circuit)@, inputsv, basisv, old(transcript)@);
        let input_poly = match MultiLinearPolynomial::new(&copy_slice(inputs)) {
            Ok(p) => p,
            Err(e) => {
                proof {
                    assert(full is None);
                }
                return Err(e);
            },
        };
        let commitment = match MultilinearKZGProver::generate_commitment(
            &input_poly,
            encrypted_lagrange_basis,
        ) {
            Ok(c) => c,
            Err(e) => {
                proof {
                    assert(full is None);
                }
                return Err(e);
            },
        };
        let ghost cdv = crate::kzg::dot_mod(crate::kzg::g1_dlogs(basisv), inputsv, inputsv.len());
        let circuit_evaluations = match circuit.evaluate_at_input(copy_slice(inputs)) {
            Ok(e) => e,
            Err(e) => {
                proof {
                    assert(full is None);
                }
                return Err(e);
            },
        };
        let ghost evalsv = crate::product_polynomial::poly_views(circuit_evaluations@);
        proof {
            assert(evalsv == crate::circuit::circuit_evals(old(circuit)@, inputsv));
        }
        let layer_count = circuit.get_layer_count();
        let mut w_polys_evals: Vec<(FieldElement, FieldElement)> = Vec::new();
        let mut sum_check_proofs: Vec<SumCheckProof> = Vec::new();
        let mut running_layer_polynomial = match circuit.get_w_i(
            0,
            circuit_evaluations.as_slice(),
        ) {
            Ok(w) => w,
            Err(e) => {
                proof {
                    assert(false);
                }
                return Err(e);
            },
        };
        proof {
            assert(running_layer_polynomial@ == evalsv[evalsv.len() - 1]);
            assert(evalsv[evalsv.len() - 1] == evalsv.last());
        }
        let mut chunks: Vec<Vec<u8>> = Vec::new();
        let commitment_bytes = g1_to_string_bytes(&commitment);
        let w0_bytes = running_layer_polynomial.to_bytes();
        chunks.push(commitment_bytes);
        chunks.push(w0_bytes);
        proof {
            assert(chunks@.len() == 2);
            assert(chunks@[0] == commitment_bytes);
            assert(chunks@[1] == w0_bytes);
            assert(chunks@.last() == w0_bytes);
            assert(chunks@.drop_last() =~= seq![commitment_bytes]);
            assert(seq![commitment_bytes].drop_last() =~= Seq::<Vec<u8>>::empty());
            assert(seq![commitment_bytes].last() == commitment_bytes);
            assert(flatten_bytes(Seq::<Vec<u8>>::empty()) =~= Seq::<u8>::empty());
            assert(flatten_bytes(seq![commitment_bytes]) == flatten_bytes(
                seq![commitment_bytes].drop_last(),
            ) + commitment_bytes@);
            assert(flatten_bytes(seq![commitment_bytes]) =~= commitment_bytes@);
            assert(flatten_bytes(chunks@) == flatten_bytes(chunks@.drop_last()) + w0_bytes@);
        }
        transcript.append_n(&chunks);
        let ghost t1 = old(transcript)@ + crate::kzg::g1_string_of(cdv)
            + crate::field::elems_to_bytes(evalsv.last());
        proof {
            assert(transcript@ =~= t1);
        }
        let length_of_rs = running_layer_polynomial.number_of_variables();
        let sampled = transcript.sample_n_challenges(length_of_rs as usize);
        let mut random_values = to_some_points(&sampled);
        let ghost mut rv_now = vals(sampled@);
        let ghost mut wacc = Seq::<(int, int)>::empty();
        let ghost mut prfacc = Seq::<(int, Seq<Seq<int>>)>::empty();
        proof {
            assert(rv_now == crate::transcript::challenges_of(t1, lg(evalsv.last().len())));
            assert(opt_vals(random_values@) =~= crate::kzg::all_some(rv_now));
            assert(weval_views(w_polys_evals@) =~= wacc);
            if gkr_prove_layers(old(circuit)@, evalsv, 0, rv_now, transcript@) is Some {
                let rest = gkr_prove_layers(old(circuit)@, evalsv, 0, rv_now, transcript@)->Some_0;
                assert(wacc + rest.0 =~= rest.0);
                assert(prfacc + rest.1 =~= rest.1);
            }
        }
        let mut layer_idx: usize = 0;
        while layer_idx < layer_count
            invariant
                circuit.wf(),
                circuit@ == old(circuit)@,
                layer_count == circuit@.len(),
                layer_idx <= layer_count,
                inputsv == vals(inputs@),
                in_field_seq(inputsv),
                basisv == encrypted_lagrange_basis@,
                full == gkr_kzg_prove_spec(old(circuit)@, inputsv, basisv, old(transcript)@),
                crate::bits::is_pow2(inputsv.len()),
                basisv.len() == inputsv.len(),
                crate::circuit::layers_ok(old(circuit)@, inputsv),
                input_poly.wf(),
                input_poly@ == inputsv,
                crate::kzg::g1_dlog(commitment) == cdv,
                cdv == crate::kzg::dot_mod(
                    crate::kzg::g1_dlogs(basisv),
                    inputsv,
                    inputsv.len(),
                ),
                evalsv == crate::circuit::circuit_evals(old(circuit)@, inputsv),
                forall|j: int|
                    0 <= j < circuit_evaluations@.len() ==> (
                    #[trigger] circuit_evaluations@[j]).wf(),
                circuit_evaluations@.len() == layer_count + 1,
                crate::product_polynomial::poly_views(circuit_evaluations@) == evalsv,
                running_layer_polynomial.wf(),
                running_layer_polynomial@ == evalsv[evalsv.len() - 1 - layer_idx],
                opt_vals(random_values@) == crate::kzg::all_some(rv_now),
                opts_in_field(opt_vals(random_values@)),
                wacc == weval_views(w_polys_evals@),
                forall|j: int|
                    0 <= j < w_polys_evals@.len() ==> in_field(
                        (#[trigger] w_polys_evals@[j]).0@,
                    ) && in_field(w_polys_evals@[j].1@),
                prfacc.len() == sum_check_proofs@.len(),
                sum_check_proofs@.len() == layer_idx,
                forall|k: int|
                    0 <= k < prfacc.len() ==> (
                    #[trigger] sum_check_proofs@[k]).initial_claim_sum@ == prfacc[k].0
                        && crate::sumcheck::round_views(sum_check_proofs@[k].round_polys@)
                        == prfacc[k].1,
                forall|k: int|
                    0 <= k < sum_check_proofs@.len() ==> (#[trigger] sum_check_proofs@[k]).wf(),
                full is Some ==> ({
                    let walk = gkr_prove_layers(
                        circuit@,
                        evalsv,
                        layer_idx as nat,
                        rv_now,
                        transcript@,
                    );
                    let rest = walk->Some_0;
                    let sp = full->Some_0;
                    &&& walk is Some
                    &&& sp.0 == evalsv.last()
                    &&& sp.1 == wacc + rest.0
                    &&& sp.2 == prfacc + rest.1
                    &&& sp.3 == rest.2
                    &&& sp.4 == rest.3
                }),
                full is None ==> ({
                    let walk = gkr_prove_layers(
                        circuit@,
                        evalsv,
                        layer_idx as nat,
                        rv_now,
                        transcript@,
                    );
                    let rest = walk->Some_0;
                    ||| walk is None
                    ||| rest.3.take((rest.3.len() / 2) as int).len() != lg(inputsv.len())
                    ||| rest.3.skip((rest.3.len() / 2) as int).len() != lg(inputsv.len())
                }),
            decreases layer_count - layer_idx,
        {
            let ghost rv_spec = rv_now;
            let ghost t_at_entry = transcript@;
            let ghost gates = circuit@[layer_idx as int];
            let ghost muli_spec = crate::circuit::selector(gates, false);
            let ghost addi_spec = crate::circuit::selector(gates, true);
            let ghost nspec = lg(muli_spec.len());
            let ghost wk = evalsv[evalsv.len() - 1 - layer_idx];
            let muli_a_b_c = match circuit.get_mul_i(layer_idx) {
                Ok(m) => m,
                Err(e) => {
                    proof {
                        assert(false);
                    }
                    return Err(e);
                },
            };
            let addi_a_b_c = match circuit.get_add_i(layer_idx) {
                Ok(a) => a,
                Err(e) => {
                    proof {
                        assert(false);
                    }
                    return Err(e);
                },
            };
            let claim_sum: FieldElement;
            let new_muli_b_c: MultiLinearPolynomial;
            let new_addi_b_c: MultiLinearPolynomial;
            let ghost nm_spec: Seq<int>;
            let ghost na_spec: Seq<int>;
            let ghost wstep: Seq<(int, int)>;
            if layer_idx == 0 {
                let pair = match get_evaluated_muli_addi_at_a(
                    muli_a_b_c,
                    addi_a_b_c,
                    random_values.as_slice(),
                ) {
                    Ok(p) => p,
                    Err(e) => {
                        proof {
                            assert(!eval_at_a_ok(
                                muli_spec,
                                addi_spec,
                                crate::kzg::all_some(rv_spec),
                            ));
                            assert(full is None);
                        }
                        return Err(e);
                    },
                };
                let evaluated = match running_layer_polynomial.evaluate(random_values.as_slice()) {
                    Ok(x) => x,
                    Err(e) => {
                        proof {
                            assert(rv_spec.len() != lg(wk.len()));
                            assert(full is None);
                        }
                        return Err(e);
                    },
                };
                let first = {
                    let pts = evaluated.get_evaluation_points();
                    proof {
                        assert(evaluated@.len() >= 1);
                        assert(vals(pts@)[0] == pts@[0]@);
                        assert(in_field(evaluated@[0]));
                    }
                    pts[0]
                };
                claim_sum = first;
                new_muli_b_c = pair.0;
                new_addi_b_c = pair.1;
                proof {
                    nm_spec = multi_eval(
                        muli_spec,
                        padded_points(crate::kzg::all_some(rv_spec), nspec),
                    );
                    na_spec = multi_eval(
                        addi_spec,
                        padded_points(crate::kzg::all_some(rv_spec), nspec),
                    );
                    wstep = Seq::<(int, int)>::empty();
                    assert(new_muli_b_c@ == nm_spec);
                    assert(new_addi_b_c@ == na_spec);
                    assert(claim_sum@ == multi_eval(wk, crate::kzg::all_some(rv_spec))[0]);
                }
            } else {
                let half = random_values.len() / 2;
                let r_b = copy_opts(random_values.as_slice(), 0, half);
                let r_c = copy_opts(random_values.as_slice(), half, random_values.len());
                proof {
                    let hh = (rv_spec.len() / 2) as int;
                    assert(random_values@.len() == rv_spec.len());
                    assert forall|j: int|
                        0 <= j < hh implies opt_vals(r_b@)[j] == crate::kzg::all_some(
                        rv_spec.take(hh),
                    )[j] by {
                        assert(r_b@[j] == random_values@[j]);
                        assert(opt_vals(r_b@)[j] == opt_vals(random_values@)[j]);
                        assert(opt_vals(random_values@)[j] == crate::kzg::all_some(rv_spec)[j]);
                        assert(rv_spec.take(hh)[j] == rv_spec[j]);
                    }
                    assert(opt_vals(r_b@) =~= crate::kzg::all_some(rv_spec.take(hh)));
                    assert forall|j: int|
                        0 <= j < rv_spec.len() - hh implies opt_vals(r_c@)[j]
                        == crate::kzg::all_some(rv_spec.skip(hh))[j] by {
                        assert(r_c@[j] == random_values@[j + hh]);
                        assert(opt_vals(r_c@)[j] == opt_vals(random_values@)[j + hh]);
                        assert(opt_vals(random_values@)[j + hh] == crate::kzg::all_some(
                            rv_spec,
                        )[j + hh]);
                        assert(rv_spec.skip(hh)[j] == rv_spec[j + hh]);
                    }
                    assert(opt_vals(r_c@) =~= crate::kzg::all_some(rv_spec.skip(hh)));
                }
                let eval_b = match running_layer_polynomial.evaluate(r_b.as_slice()) {
                    Ok(x) => x,
                    Err(e) => {
                        proof {
                            assert(rv_spec.take((rv_spec.len() / 2) as int).len() != lg(
                                wk.len(),
                            ));
                            assert(full is None);
                        }
                        return Err(e);
                    },
                };
                let eval_c = match running_layer_polynomial.evaluate(r_c.as_slice()) {
                    Ok(x) => x,
                    Err(e) => {
                        proof {
                            assert(rv_spec.skip((rv_spec.len() / 2) as int).len() != lg(
                                wk.len(),
                            ));
                            assert(full is None);
                        }
                        return Err(e);
                    },
                };
                let w_i_b_eval = {
                    let pts = eval_b.get_evaluation_points();
                    proof {
                        assert(eval_b@.len() >= 1);
                        assert(vals(pts@)[0] == pts@[0]@);
                        assert(in_field(eval_b@[0]));
                    }
                    pts[0]
                };
                let w_i_c_eval = {
                    let pts = eval_c.get_evaluation_points();
                    proof {
                        assert(eval_c@.len() >= 1);
                        assert(vals(pts@)[0] == pts@[0]@);
                        assert(in_field(eval_c@[0]));
                    }
                    pts[0]
                };
                absorb_pair(transcript, &w_i_b_eval, &w_i_c_eval);
                let alpha = transcript.sample_challenge();
                let beta = transcript.sample_challenge();
                let folded = match get_folded_polys(
                    &alpha,
                    &beta,
                    muli_a_b_c,
                    addi_a_b_c,
                    r_b.as_slice(),
                    r_c.as_slice(),
                ) {
                    Ok(p) => p,
                    Err(e) => {
                        proof {
                            assert(!fold_ok(
                                muli_spec,
                                addi_spec,
                                crate::kzg::all_some(rv_spec.take((rv_spec.len() / 2) as int)),
                                crate::kzg::all_some(rv_spec.skip((rv_spec.len() / 2) as int)),
                            ));
                            assert(full is None);
                        }
                        return Err(e);
                    },
                };
                let ghost prev_wacc = wacc;
                w_polys_evals.push((w_i_b_eval, w_i_c_eval));
                claim_sum = get_folded_claim_sum(&w_i_b_eval, &w_i_c_eval, &alpha, &beta);
                new_muli_b_c = folded.0;
                new_addi_b_c = folded.1;
                proof {
                    let rbs = crate::kzg::all_some(rv_spec.take((rv_spec.len() / 2) as int));
                    let rcs = crate::kzg::all_some(rv_spec.skip((rv_spec.len() / 2) as int));
                    nm_spec = add_seq(
                        scale_seq(multi_eval(muli_spec, padded_points(rbs, nspec)), alpha@),
                        scale_seq(multi_eval(muli_spec, padded_points(rcs, nspec)), beta@),
                    );
                    na_spec = add_seq(
                        scale_seq(multi_eval(addi_spec, padded_points(rbs, nspec)), alpha@),
                        scale_seq(multi_eval(addi_spec, padded_points(rcs, nspec)), beta@),
                    );
                    wstep = seq![(w_i_b_eval@, w_i_c_eval@)];
                    wacc = prev_wacc + wstep;
                    assert(w_polys_evals@[w_polys_evals@.len() - 1] == (w_i_b_eval, w_i_c_eval));
                    assert(weval_views(w_polys_evals@) =~= wacc);
                    assert(new_muli_b_c@ == nm_spec);
                    assert(new_addi_b_c@ == na_spec);
                }
            }
            let next_w_i = match circuit.get_w_i(layer_idx + 1, circuit_evaluations.as_slice()) {
                Ok(w) => w,
                Err(e) => {
                    proof {
                        assert(false);
                    }
                    return Err(e);
                },
            };
            proof {
                assert(next_w_i@ == evalsv[evalsv.len() - 2 - layer_idx]);
            }
            let next_len = next_w_i.get_evaluation_points().len();
            if next_len == 0 || next_len > usize::MAX / next_len {
                proof {
                    assert(full is None);
                }
                return Err(Error::InvalidShape);
            }
            proof {
                lemma_square_bound(next_len as nat);
            }
            let w_mul = next_w_i.w_mul(&next_w_i);
            let w_add = MultiLinearPolynomial::w_add(&next_w_i, &next_w_i);
            let mut mul_factors: Vec<MultiLinearPolynomial> = Vec::new();
            mul_factors.push(new_muli_b_c);
            mul_factors.push(w_mul);
            let mul_prod = match ProductPolynomial::new(mul_factors) {
                Ok(p) => p,
                Err(e) => {
                    proof {
                        assert(full is None);
                    }
                    return Err(e);
                },
            };
            let mut add_factors: Vec<MultiLinearPolynomial> = Vec::new();
            add_factors.push(new_addi_b_c);
            add_factors.push(w_add);
            let add_prod = match ProductPolynomial::new(add_factors) {
                Ok(p) => p,
                Err(e) => {
                    proof {
                        assert(full is None);
                    }
                    return Err(e);
                },
            };
            let mut members: Vec<ProductPolynomial> = Vec::new();
            members.push(mul_prod);
            members.push(add_prod);
            let f_b_c = match SumPolynomial::new(members) {
                Ok(sp) => sp,
                Err(e) => {
                    proof {
                        assert(full is None);
                    }
                    return Err(e);
                },
            };
            let ghost wnext = evalsv[evalsv.len() - 2 - layer_idx];
            let ghost fbcv = seq![
                seq![nm_spec, crate::multilinear::tensor_seq(wnext, wnext, true)],
                seq![na_spec, crate::multilinear::tensor_seq(wnext, wnext, false)],
            ];
            proof {
                assert(f_b_c@ =~~= fbcv);
                assert(f_b_c@.len() == 2);
                assert(f_b_c@[0].len() == 2);
                assert(f_b_c.spec_length() == nm_spec.len());
            }
            let ghost t_before_rounds = transcript@;
            let (sumcheck_proof, random_points) = SumcheckProver::generate_proof_for_partial_verify(
                claim_sum,
                f_b_c,
                transcript,
            );
            let ghost ps = crate::sumcheck::prover_sum(fbcv, t_before_rounds, lg(nm_spec.len()));
            random_values = to_some_points(&random_points);
            running_layer_polynomial = match circuit.get_w_i(
                layer_idx + 1,
                circuit_evaluations.as_slice(),
            ) {
                Ok(w) => w,
                Err(e) => {
                    proof {
                        assert(false);
                    }
                    return Err(e);
                },
            };
            let ghost prev_prfacc = prfacc;
            sum_check_proofs.push(sumcheck_proof);
            proof {
                rv_now = ps.1;
                prfacc = prev_prfacc.push((claim_sum@, ps.0));
                assert(opt_vals(random_values@) =~= crate::kzg::all_some(rv_now));
                assert(sum_check_proofs@[sum_check_proofs@.len() - 1] == sumcheck_proof);
                assert forall|k: int|
                    0 <= k < prfacc.len() implies (
                #[trigger] sum_check_proofs@[k]).initial_claim_sum@ == prfacc[k].0
                    && crate::sumcheck::round_views(sum_check_proofs@[k].round_polys@)
                    == prfacc[k].1 by {
                    if k < prfacc.len() - 1 {
                        assert(sum_check_proofs@[k] == sum_check_proofs@.drop_last()[k]);
                        assert(prfacc[k] == prev_prfacc[k]);
                    }
                }
                assert forall|k: int|
                    0 <= k < sum_check_proofs@.len() implies (
                #[trigger] sum_check_proofs@[k]).wf() by {
                    if k < sum_check_proofs@.len() - 1 {
                        assert(sum_check_proofs@[k] == sum_check_proofs@.drop_last()[k]);
                    }
                }
                if gkr_prove_layers(circuit@, evalsv, (layer_idx + 1) as nat, rv_now, transcript@)
                    is Some {
                    let rest_new = gkr_prove_layers(
                        circuit@,
                        evalsv,
                        (layer_idx + 1) as nat,
                        rv_now,
                        transcript@,
                    )->Some_0;
                    assert(gkr_prove_layers(
                        circuit@,
                        evalsv,
                        layer_idx as nat,
                        rv_spec,
                        t_at_entry,
                    )->Some_0.0 =~= wstep + rest_new.0);
                    assert(gkr_prove_layers(
                        circuit@,
                        evalsv,
                        layer_idx as nat,
                        rv_spec,
                        t_at_entry,
                    )->Some_0.1 =~= seq![(claim_sum@, ps.0)] + rest_new.1);
                    assert((wacc.subrange(0, wacc.len() - wstep.len() as int) + wstep)
                        + rest_new.0 =~= wacc.subrange(0, wacc.len() - wstep.len() as int) + (
                    wstep + rest_new.0));
                    assert(wacc.subrange(0, wacc.len() - wstep.len() as int) + wstep =~= wacc);
                    assert((prev_prfacc + seq![(claim_sum@, ps.0)]) + rest_new.1
                        =~= prev_prfacc + (seq![(claim_sum@, ps.0)] + rest_new.1));
                    assert(prev_prfacc + seq![(claim_sum@, ps.0)] =~= prfacc);
                }
            }
            layer_idx = layer_idx + 1;
        }
        let half = random_values.len() / 2;
        let r_b_opts = copy_opts(random_values.as_slice(), 0, half);
        let r_c_opts = copy_opts(random_values.as_slice(), half, random_values.len());
        proof {
            let hh = (rv_now.len() / 2) as int;
            assert(random_values@.len() == rv_now.len());
            assert forall|j: int| 0 <= j < hh implies opt_vals(r_b_opts@)[j]
                == crate::kzg::all_some(rv_now.take(hh))[j] by {
                assert(r_b_opts@[j] == random_values@[j]);
                assert(opt_vals(r_b_opts@)[j] == opt_vals(random_values@)[j]);
                assert(opt_vals(random_values@)[j] == crate::kzg::all_some(rv_now)[j]);
                assert(rv_now.take(hh)[j] == rv_now[j]);
            }
            assert(opt_vals(r_b_opts@) =~= crate::kzg::all_some(rv_now.take(hh)));
            assert forall|j: int|
                0 <= j < rv_now.len() - hh implies opt_vals(r_c_opts@)[j]
                == crate::kzg::all_some(rv_now.skip(hh))[j] by {
                assert(r_c_opts@[j] == random_values@[j + hh]);
                assert(opt_vals(r_c_opts@)[j] == opt_vals(random_values@)[j + hh]);
                assert(opt_vals(random_values@)[j + hh] == crate::kzg::all_some(rv_now)[j + hh]);
                assert(rv_now.skip(hh)[j] == rv_now[j + hh]);
            }
            assert(opt_vals(r_c_opts@) =~= crate::kzg::all_some(rv_now.skip(hh)));
            assert forall|j: int|
                0 <= j < r_b_opts@.len() implies (#[trigger] r_b_opts@[j]) is Some by {
                assert(opt_vals(r_b_opts@)[j] == crate::kzg::all_some(rv_now.take(hh))[j]);
            }
            assert forall|j: int|
                0 <= j < r_c_opts@.len() implies (#[trigger] r_c_opts@[j]) is Some by {
                assert(opt_vals(r_c_opts@)[j] == crate::kzg::all_some(rv_now.skip(hh))[j]);
            }
        }
        let r_b = match unwrap_points(r_b_opts.as_slice()) {
            Ok(v) => v,
            Err(_) => {
                proof {
                    assert(false);
                }
                return Err(Error::InvalidShape);
            },
        };
        let r_c = match unwrap_points(r_c_opts.as_slice()) {
            Ok(v) => v,
            Err(_) => {
                proof {
                    assert(false);
                }
                return Err(Error::InvalidShape);
            },
        };
        proof {
            let hh = (rv_now.len() / 2) as int;
            assert(vals(r_b@) =~= rv_now.take(hh));
            assert(vals(r_c@) =~= rv_now.skip(hh));
        }
        let kzg_b = match MultilinearKZGProver::generate_proof(
            r_b.as_slice(),
            encrypted_lagrange_basis,
            &input_poly,
        ) {
            Ok(p) => p,
            Err(e) => {
                proof {
                    assert(rv_now.take((rv_now.len() / 2) as int).len() != lg(inputsv.len()));
                    assert(full is None);
                }
                return Err(e);
            },
        };
        let kzg_c = match MultilinearKZGProver::generate_proof(
            r_c.as_slice(),
            encrypted_lagrange_basis,
            &input_poly,
        ) {
            Ok(p) => p,
            Err(e) => {
                proof {
                    assert(rv_now.skip((rv_now.len() / 2) as int).len() != lg(inputsv.len()));
                    assert(full is None);
                }
                return Err(e);
            },
        };
        let mut kzg_proofs: Vec<MultilinearKZGProof> = Vec::new();
        kzg_proofs.push(kzg_b);
        kzg_proofs.push(kzg_c);
        let output_poly = match circuit.get_w_i(0, circuit_evaluations.as_slice()) {
            Ok(w) => w,
            Err(e) => {
                proof {
                    assert(false);
                }
                return Err(e);
            },
        };
        proof {
            assert(output_poly@ == evalsv[evalsv.len() - 1]);
            assert(output_poly@ == evalsv.last());
            assert(kzg_proofs@.len() == 2);
            assert(kzg_proofs@[0] == kzg_b);
            assert(kzg_proofs@[1] == kzg_c);
            if full is Some {
                let rest = gkr_prove_layers(
                    circuit@,
                    evalsv,
                    layer_count as nat,
                    rv_now,
                    transcript@,
                )->Some_0;
                assert(rest.0 =~= Seq::<(int, int)>::empty());
                assert(rest.1 =~= Seq::<(int, Seq<Seq<int>>)>::empty());
                assert(wacc + rest.0 =~= wacc);
                assert(prfacc + rest.1 =~= prfacc);
            }
        }
        Ok(
            GKRProofWithKZG {
                commitment,
                output_poly,
                w_polys_evals,
                sumcheck_proofs: sum_check_proofs,
                kzg_proofs,
            },
        )
    }

}

/// If `a <= usize::MAX / a` then `a * a` fits a machine word.
proof fn lemma_square_bound(a: nat)
    requires
        a >= 1,
        a <= usize::MAX as nat / a,
    ensures
        a * a <= usize::MAX as nat,
{
    let m = usize::MAX as nat;
    vstd::arithmetic::div_mod::lemma_fundamental_div_mod(m as int, a as int);
    assert(a * a <= (m / a) * a <= m) by (nonlinear_arith)
        requires
            a >= 1,
            a <= m / a,
            m == (a * (m / a) + m % a),
            m % a >= 0,
    ;
}


/// The KZG-closed verifier's whole walk, mirrored as a specification: the
/// commitment's byte form is absorbed before the output table, and the
/// input layer closes through the two openings instead of reading the
/// inputs.
pub open spec fn gkr_kzg_verify_spec(
    layers: Seq<Seq<Gate>>,
    proof: GKRProofWithKZG,
    taus: Seq<G2Point>,
    t0: Seq<u8>,
) -> bool {
    let w0 = proof.output_poly@;
    let t1 = t0 + crate::kzg::g1_string_of(crate::kzg::g1_dlog(proof.commitment))
        + crate::field::elems_to_bytes(w0);
    let n = lg(w0.len());
    let rv = crate::transcript::challenges_of(t1, n).map_values(
        |x: int| Option::<int>::Some(x),
    );
    gkr_kzg_layers_ok(
        layers,
        proof.commitment,
        proof.kzg_proofs@,
        taus,
        proof.w_polys_evals@,
        proof.sumcheck_proofs@,
        0,
        rv,
        crate::transcript::state_after_n(t1, n),
    )
}

/// The layers from `layer_idx` on, as in `gkr_layers_ok`, but closing the
/// innermost layer with the KZG openings.
pub open spec fn gkr_kzg_layers_ok(
    layers: Seq<Seq<Gate>>,
    cm: G1Point,
    kzg_proofs: Seq<MultilinearKZGProof>,
    taus: Seq<G2Point>,
    wevals: Seq<(FieldElement, FieldElement)>,
    sproofs: Seq<SumCheckProof>,
    layer_idx: nat,
    rv: Seq<Option<int>>,
    t: Seq<u8>,
) -> bool
    decreases layers.len() - layer_idx, 1int,
{
    if layer_idx >= layers.len() {
        true
    } else {
        let gates = layers[layer_idx as int];
        let muli = crate::circuit::selector(gates, false);
        let addi = crate::circuit::selector(gates, true);
        let n = lg(muli.len());
        if layer_idx == 0 {
            if !eval_at_a_ok(muli, addi, rv) {
                false
            } else {
                gkr_kzg_after_fold(
                    layers,
                    cm,
                    kzg_proofs,
                    taus,
                    wevals,
                    sproofs,
                    layer_idx,
                    multi_eval(muli, padded_points(rv, n)),
                    multi_eval(addi, padded_points(rv, n)),
                    t,
                )
            }
        } else {
            let alpha = crate::transcript::challenge_of(t);
            let t1 = crate::transcript::state_after_challenge(t);
            let beta = crate::transcript::challenge_of(t1);
            let t2 = crate::transcript::state_after_challenge(t1);
            let rb = rv.take((rv.len() / 2) as int);
            let rc = rv.skip((rv.len() / 2) as int);
            if !fold_ok(muli, addi, rb, rc) {
                false
            } else {
                let nm = add_seq(
                    scale_seq(multi_eval(muli, padded_points(rb, n)), alpha),
                    scale_seq(multi_eval(muli, padded_points(rc, n)), beta),
                );
                let na = add_seq(
                    scale_seq(multi_eval(addi, padded_points(rb, n)), alpha),
                    scale_seq(multi_eval(addi, padded_points(rc, n)), beta),
                );
                gkr_kzg_after_fold(
                    layers,
                    cm,
                    kzg_proofs,
                    taus,
                    wevals,
                    sproofs,
                    layer_idx,
                    nm,
                    na,
                    t2,
                )
            }
        }
    }
}

/// The W-evaluations the KZG-closed verifier adopts: the prover's claimed
/// pair for an inner layer, or at the innermost layer the two openings'
/// claimed values, provided both openings carry the commitment that was
/// absorbed into the transcript and both pairing checks accept.
pub open spec fn gkr_kzg_next_w_evals(
    layers: Seq<Seq<Gate>>,
    cm: G1Point,
    kzg_proofs: Seq<MultilinearKZGProof>,
    taus: Seq<G2Point>,
    wevals: Seq<(FieldElement, FieldElement)>,
    layer_idx: nat,
    chals: Seq<Option<int>>,
) -> (bool, int, int) {
    if layer_idx + 1 == layers.len() {
        let half = (chals.len() / 2) as int;
        let rb = chals.take(half).map_values(|o: Option<int>| o->0);
        let rc = chals.skip(half).map_values(|o: Option<int>| o->0);
        if kzg_proofs.len() != 2 {
            (false, 0int, 0int)
        } else {
            let bound = crate::kzg::g1_dlog(kzg_proofs[0].commitment) == crate::kzg::g1_dlog(cm)
                && crate::kzg::g1_dlog(kzg_proofs[1].commitment) == crate::kzg::g1_dlog(cm);
            let ok_b = crate::kzg::kzg_accepts(
                crate::kzg::g1_dlog(kzg_proofs[0].commitment),
                kzg_proofs[0].v@,
                crate::kzg::g1_dlogs(kzg_proofs[0].q_taus@),
                crate::kzg::g2_dlogs(taus),
                rb,
            );
            let ok_c = crate::kzg::kzg_accepts(
                crate::kzg::g1_dlog(kzg_proofs[1].commitment),
                kzg_proofs[1].v@,
                crate::kzg::g1_dlogs(kzg_proofs[1].q_taus@),
                crate::kzg::g2_dlogs(taus),
                rc,
            );
            (bound && ok_b && ok_c, kzg_proofs[0].v@, kzg_proofs[1].v@)
        }
    } else {
        if layer_idx >= wevals.len() {
            (false, 0int, 0int)
        } else {
            (true, wevals[layer_idx as int].0@, wevals[layer_idx as int].1@)
        }
    }
}

/// One layer's checks after the fold, KZG-closed variant.
pub open spec fn gkr_kzg_after_fold(
    layers: Seq<Seq<Gate>>,
    cm: G1Point,
    kzg_proofs: Seq<MultilinearKZGProof>,
    taus: Seq<G2Point>,
    wevals: Seq<(FieldElement, FieldElement)>,
    sproofs: Seq<SumCheckProof>,
    layer_idx: nat,
    nm: Seq<int>,
    na: Seq<int>,
    t: Seq<u8>,
) -> bool
    decreases layers.len() - layer_idx, 0int,
{
    if layer_idx >= sproofs.len() || layer_idx >= layers.len() {
        false
    } else {
        let sp = sproofs[layer_idx as int];
        let pvr = crate::sumcheck::pv(
            crate::sumcheck::round_views(sp.round_polys@),
            sp.initial_claim_sum@,
            t,
        );
        let chals = pvr.2;
        if chals.len() != lg(na.len()) || chals.len() != lg(nm.len()) {
            false
        } else {
            let ae = multi_eval(na, chals)[0];
            let me = multi_eval(nm, chals)[0];
            let uv = gkr_kzg_next_w_evals(layers, cm, kzg_proofs, taus, wevals, layer_idx, chals);
            if !uv.0 {
                false
            } else {
                let t3 = pvr.3 + crate::field::le_bytes_32(uv.1) + crate::field::le_bytes_32(
                    uv.2,
                );
                let fbc = f_add(f_mul(ae, f_add(uv.1, uv.2)), f_mul(me, f_mul(uv.1, uv.2)));
                if !pvr.0 || fbc != pvr.1 {
                    false
                } else {
                    gkr_kzg_layers_ok(
                        layers,
                        cm,
                        kzg_proofs,
                        taus,
                        wevals,
                        sproofs,
                        layer_idx + 1,
                        chals,
                        t3,
                    )
                }
            }
        }
    }
}

/// The verifier's whole walk, mirrored as a specification: seeds the
/// transcript with the output table, draws the output point, and then
/// checks the layers one by one.
pub open spec fn gkr_verify_spec(
    layers: Seq<Seq<Gate>>,
    inputs: Seq<int>,
    proof: GKRProof,
    t0: Seq<u8>,
) -> bool {
    let w0 = proof.output_poly@;
    let t1 = t0 + crate::field::elems_to_bytes(w0);
    let n = lg(w0.len());
    let rv = crate::transcript::challenges_of(t1, n).map_values(
        |x: int| Option::<int>::Some(x),
    );
    gkr_layers_ok(
        layers,
        inputs,
        proof.w_polys_evals@,
        proof.sumcheck_proofs@,
        0,
        rv,
        crate::transcript::state_after_n(t1, n),
    )
}

/// The layers from `layer_idx` on, each reduced through its fold (or the
/// output-point evaluation for the outermost layer) and its sum-check.
pub open spec fn gkr_layers_ok(
    layers: Seq<Seq<Gate>>,
    inputs: Seq<int>,
    wevals: Seq<(FieldElement, FieldElement)>,
    sproofs: Seq<SumCheckProof>,
    layer_idx: nat,
    rv: Seq<Option<int>>,
    t: Seq<u8>,
) -> bool
    decreases layers.len() - layer_idx, 1int,
{
    if layer_idx >= layers.len() {
        true
    } else {
        let gates = layers[layer_idx as int];
        let muli = crate::circuit::selector(gates, false);
        let addi = crate::circuit::selector(gates, true);
        let n = lg(muli.len());
        if layer_idx == 0 {
            if !eval_at_a_ok(muli, addi, rv) {
                false
            } else {
                gkr_after_fold(
                    layers,
                    inputs,
                    wevals,
                    sproofs,
                    layer_idx,
                    multi_eval(muli, padded_points(rv, n)),
                    multi_eval(addi, padded_points(rv, n)),
                    t,
                )
            }
        } else {
            let alpha = crate::transcript::challenge_of(t);
            let t1 = crate::transcript::state_after_challenge(t);
            let beta = crate::transcript::challenge_of(t1);
            let t2 = crate::transcript::state_after_challenge(t1);
            let rb = rv.take((rv.len() / 2) as int);
            let rc = rv.skip((rv.len() / 2) as int);
            if !fold_ok(muli, addi, rb, rc) {
                false
            } else {
                let nm = add_seq(
                    scale_seq(multi_eval(muli, padded_points(rb, n)), alpha),
                    scale_seq(multi_eval(muli, padded_points(rc, n)), beta),
                );
                let na = add_seq(
                    scale_seq(multi_eval(addi, padded_points(rb, n)), alpha),
                    scale_seq(multi_eval(addi, padded_points(rc, n)), beta),
                );
                gkr_after_fold(layers, inputs, wevals, sproofs, layer_idx, nm, na, t2)
            }
        }
    }
}

/// The W-evaluations the verifier adopts after a layer's sum-check: the
/// prover's claimed pair for an inner layer, or its own reading of the
/// inputs at the innermost layer.
pub open spec fn gkr_next_w_evals(
    layers: Seq<Seq<Gate>>,
    inputs: Seq<int>,
    wevals: Seq<(FieldElement, FieldElement)>,
    layer_idx: nat,
    chals: Seq<Option<int>>,
) -> (bool, int, int) {
    if layer_idx + 1 == layers.len() {
        let half = (chals.len() / 2) as int;
        let rb = chals.take(half);
        let rc = chals.skip(half);
        if !crate::bits::is_pow2(inputs.len()) {
            (false, 0int, 0int)
        } else if rb.len() != lg(inputs.len()) || rc.len() != lg(inputs.len()) {
            (false, 0int, 0int)
        } else {
            (true, multi_eval(inputs, rb)[0], multi_eval(inputs, rc)[0])
        }
    } else {
        if layer_idx >= wevals.len() {
            (false, 0int, 0int)
        } else {
            (true, wevals[layer_idx as int].0@, wevals[layer_idx as int].1@)
        }
    }
}

/// One layer's checks after the fold: the partial sum-check, the oracle
/// identity `addi·(u + v) + muli·(u·v)` against the final claim, and the
/// recursion into the next layer at the drawn challenges.
pub open spec fn gkr_after_fold(
    layers: Seq<Seq<Gate>>,
    inputs: Seq<int>,
    wevals: Seq<(FieldElement, FieldElement)>,
    sproofs: Seq<SumCheckProof>,
    layer_idx: nat,
    nm: Seq<int>,
    na: Seq<int>,
    t: Seq<u8>,
) -> bool
    decreases layers.len() - layer_idx, 0int,
{
    if layer_idx >= sproofs.len() || layer_idx >= layers.len() {
        false
    } else {
        let sp = sproofs[layer_idx as int];
        let pvr = crate::sumcheck::pv(
            crate::sumcheck::round_views(sp.round_polys@),
            sp.initial_claim_sum@,
            t,
        );
        let chals = pvr.2;
        if chals.len() != lg(na.len()) || chals.len() != lg(nm.len()) {
            false
        } else {
            let ae = multi_eval(na, chals)[0];
            let me = multi_eval(nm, chals)[0];
            let uv = gkr_next_w_evals(layers, inputs, wevals, layer_idx, chals);
            if !uv.0 {
                false
            } else {
                let t3 = pvr.3 + crate::field::le_bytes_32(uv.1) + crate::field::le_bytes_32(
                    uv.2,
                );
                let fbc = f_add(f_mul(ae, f_add(uv.1, uv.2)), f_mul(me, f_mul(uv.1, uv.2)));
                if !pvr.0 || fbc != pvr.1 {
                    false
                } else {
                    gkr_layers_ok(layers, inputs, wevals, sproofs, layer_idx + 1, chals, t3)
                }
            }
        }
    }
}

/// The GKR verifier.
pub struct GKRVerifier {
}

impl GKRVerifier {
    /// Mirrors the prover layer by layer: replays the transcript, checks
    /// each layer's partial sum-check, recomputes the folded selectors at
    /// the drawn challenges, and checks the oracle identity
    /// `addi·(u + v) + muli·(u·v)` against the final claim, reading the
    /// inputs directly at the innermost layer.  Any shape mismatch rejects.
    pub fn verify_proof(
        initial_inputs: &[FieldElement],
        circuit: &mut Circuit,
        transcript: &mut Transcript,
        proof: GKRProof,
    ) -> (r: bool)
        requires
            old(circuit).wf(),
            in_field_seq(vals(initial_inputs@)),
            proof.wf(),
        ensures
            final(circuit)@ == old(circuit)@,
            r == gkr_verify_spec(
                old(circuit)@,
                vals(initial_inputs@),
                proof,
                old(transcript)@,
            ),
    {
        let ghost inputsv = vals(initial_inputs@);
        let ghost full = gkr_verify_spec(old(circuit)@, inputsv, proof, old(transcript)@);
        let length_of_rs = proof.output_poly.number_of_variables();
        let w0_bytes = proof.output_poly.to_bytes();
        transcript.append(w0_bytes.as_slice());
        let ghost t1 = old(transcript)@ + crate::field::elems_to_bytes(proof.output_poly@);
        let sampled = transcript.sample_n_challenges(length_of_rs as usize);
        let mut random_values = to_some_points(&sampled);
        proof {
            assert(opt_vals(random_values@) =~= crate::transcript::challenges_of(
                t1,
                lg(proof.output_poly@.len()),
            ).map_values(|x: int| Option::<int>::Some(x)));
        }
        let layer_count = circuit.get_layer_count();
        let mut layer_idx: usize = 0;
        while layer_idx < layer_count
            invariant
                circuit.wf(),
                circuit@ == old(circuit)@,
                layer_count == circuit@.len(),
                layer_idx <= layer_count,
                proof.wf(),
                inputsv == vals(initial_inputs@),
                in_field_seq(inputsv),
                opts_in_field(opt_vals(random_values@)),
                full == gkr_verify_spec(old(circuit)@, inputsv, proof, old(transcript)@),
                full == gkr_layers_ok(
                    circuit@,
                    inputsv,
                    proof.w_polys_evals@,
                    proof.sumcheck_proofs@,
                    layer_idx as nat,
                    opt_vals(random_values@),
                    transcript@,
                ),
            decreases layer_count - layer_idx,
        {
            let ghost rv_spec = opt_vals(random_values@);
            let ghost t_at_entry = transcript@;
            let ghost gates = circuit@[layer_idx as int];
            let ghost muli_spec = crate::circuit::selector(gates, false);
            let ghost addi_spec = crate::circuit::selector(gates, true);
            let ghost nspec = lg(muli_spec.len());
            let muli_a_b_c = match circuit.get_mul_i(layer_idx) {
                Ok(m) => m,
                Err(_) => {
                    proof {
                        assert(false);
                    }
                    return false;
                },
            };
            let addi_a_b_c = match circuit.get_add_i(layer_idx) {
                Ok(a) => a,
                Err(_) => {
                    proof {
                        assert(false);
                    }
                    return false;
                },
            };
            let new_muli_b_c: MultiLinearPolynomial;
            let new_addi_b_c: MultiLinearPolynomial;
            let ghost nm_spec: Seq<int>;
            let ghost na_spec: Seq<int>;
            if layer_idx == 0 {
                let pair = match get_evaluated_muli_addi_at_a(
                    muli_a_b_c,
                    addi_a_b_c,
                    random_values.as_slice(),
                ) {
                    Ok(p) => p,
                    Err(_) => {
                        proof {
                            assert(!eval_at_a_ok(muli_spec, addi_spec, rv_spec));
                            assert(full == false);
                        }
                        return false;
                    },
                };
                new_muli_b_c = pair.0;
                new_addi_b_c = pair.1;
                proof {
                    nm_spec = multi_eval(muli_spec, padded_points(rv_spec, nspec));
                    na_spec = multi_eval(addi_spec, padded_points(rv_spec, nspec));
                    assert(new_muli_b_c@ == nm_spec);
                    assert(new_addi_b_c@ == na_spec);
                }
            } else {
                let alpha = transcript.sample_challenge();
                let beta = transcript.sample_challenge();
                let half = random_values.len() / 2;
                let r_b = copy_opts(random_values.as_slice(), 0, half);
                let r_c = copy_opts(random_values.as_slice(), half, random_values.len());
                proof {
                    assert(opt_vals(r_b@) =~= rv_spec.take((rv_spec.len() / 2) as int));
                    assert(opt_vals(r_c@) =~= rv_spec.skip((rv_spec.len() / 2) as int));
                }
                let folded = match get_folded_polys(
                    &alpha,
                    &beta,
                    muli_a_b_c,
                    addi_a_b_c,
                    r_b.as_slice(),
                    r_c.as_slice(),
                ) {
                    Ok(p) => p,
                    Err(_) => {
                        proof {
                            assert(!fold_ok(
                                muli_spec,
                                addi_spec,
                                rv_spec.take((rv_spec.len() / 2) as int),
                                rv_spec.skip((rv_spec.len() / 2) as int),
                            ));
                            assert(full == false);
                        }
                        return false;
                    },
                };
                new_muli_b_c = folded.0;
                new_addi_b_c = folded.1;
                proof {
                    let rbs = rv_spec.take((rv_spec.len() / 2) as int);
                    let rcs = rv_spec.skip((rv_spec.len() / 2) as int);
                    nm_spec = add_seq(
                        scale_seq(multi_eval(muli_spec, padded_points(rbs, nspec)), alpha@),
                        scale_seq(multi_eval(muli_spec, padded_points(rcs, nspec)), beta@),
                    );
                    na_spec = add_seq(
                        scale_seq(multi_eval(addi_spec, padded_points(rbs, nspec)), alpha@),
                        scale_seq(multi_eval(addi_spec, padded_points(rcs, nspec)), beta@),
                    );
                    assert(new_muli_b_c@ == nm_spec);
                    assert(new_addi_b_c@ == na_spec);
                }
            }
            let ghost t_after_fold = transcript@;
            proof {
                assert(gkr_layers_ok(
                    circuit@,
                    inputsv,
                    proof.w_polys_evals@,
                    proof.sumcheck_proofs@,
                    layer_idx as nat,
                    rv_spec,
                    t_at_entry,
                ) == gkr_after_fold(
                    circuit@,
                    inputsv,
                    proof.w_polys_evals@,
                    proof.sumcheck_proofs@,
                    layer_idx as nat,
                    nm_spec,
                    na_spec,
                    t_after_fold,
                ));
            }
            if layer_idx >= proof.sumcheck_proofs.len() {
                proof {
                    assert(full == false);
                }
                return false;
            }
            proof {
                assert((#[trigger] proof.sumcheck_proofs@[layer_idx as int]).wf());
            }
            let (is_verified, final_claim_sum, next_evaluation_values) =
                SumcheckVerifier::partial_verify(&proof.sumcheck_proofs[layer_idx], transcript);
            let ghost pvr = crate::sumcheck::pv(
                crate::sumcheck::round_views(
                    proof.sumcheck_proofs@[layer_idx as int].round_polys@,
                ),
                proof.sumcheck_proofs@[layer_idx as int].initial_claim_sum@,
                t_after_fold,
            );
            let ghost chals = pvr.2;
            proof {
                assert(opt_vals(next_evaluation_values@) == chals);
                assert(transcript@ == pvr.3);
            }
            let evaluated_addi = match new_addi_b_c.evaluate(next_evaluation_values.as_slice()) {
                Ok(x) => x,
                Err(_) => {
                    proof {
                        assert(chals.len() != lg(na_spec.len()));
                        assert(full == false);
                    }
                    return false;
                },
            };
            let evaluated_muli = match new_muli_b_c.evaluate(next_evaluation_values.as_slice()) {
                Ok(x) => x,
                Err(_) => {
                    proof {
                        assert(chals.len() != lg(nm_spec.len()));
                        assert(full == false);
                    }
                    return false;
                },
            };
            let new_addi_eval = {
                let pts = evaluated_addi.get_evaluation_points();
                proof {
                    assert(evaluated_addi@.len() >= 1);
                    assert(vals(pts@)[0] == pts@[0]@);
                    assert(in_field(evaluated_addi@[0]));
                }
                pts[0]
            };
            let new_muli_eval = {
                let pts = evaluated_muli.get_evaluation_points();
                proof {
                    assert(evaluated_muli@.len() >= 1);
                    assert(vals(pts@)[0] == pts@[0]@);
                    assert(in_field(evaluated_muli@[0]));
                }
                pts[0]
            };
            proof {
                assert(new_addi_eval@ == multi_eval(na_spec, chals)[0]);
                assert(new_muli_eval@ == multi_eval(nm_spec, chals)[0]);
            }
            let ghost uv_spec = gkr_next_w_evals(
                circuit@,
                inputsv,
                proof.w_polys_evals@,
                layer_idx as nat,
                chals,
            );
            let next_w_i_b_eval: FieldElement;
            let next_w_i_c_eval: FieldElement;
            if layer_idx + 1 == layer_count {
                let half = next_evaluation_values.len() / 2;
                let r_b = copy_opts(next_evaluation_values.as_slice(), 0, half);
                let r_c = copy_opts(
                    next_evaluation_values.as_slice(),
                    half,
                    next_evaluation_values.len(),
                );
                proof {
                    assert(opt_vals(r_b@) =~= chals.take((chals.len() / 2) as int));
                    assert(opt_vals(r_c@) =~= chals.skip((chals.len() / 2) as int));
                }
                let next_w_i = match MultiLinearPolynomial::new(&copy_slice(initial_inputs)) {
                    Ok(w) => w,
                    Err(_) => {
                        proof {
                            assert(!uv_spec.0);
                            assert(full == false);
                        }
                        return false;
                    },
                };
                proof {
                    assert(next_w_i@ == inputsv);
                }
                let eb = match next_w_i.evaluate(r_b.as_slice()) {
                    Ok(x) => x,
                    Err(_) => {
                        proof {
                            assert(!uv_spec.0);
                            assert(full == false);
                        }
                        return false;
                    },
                };
                let ec = match next_w_i.evaluate(r_c.as_slice()) {
                    Ok(x) => x,
                    Err(_) => {
                        proof {
                            assert(!uv_spec.0);
                            assert(full == false);
                        }
                        return false;
                    },
                };
                next_w_i_b_eval = {
                    let pts = eb.get_evaluation_points();
                    proof {
                        assert(eb@.len() >= 1);
                        assert(vals(pts@)[0] == pts@[0]@);
                        assert(in_field(eb@[0]));
                    }
                    pts[0]
                };
                next_w_i_c_eval = {
                    let pts = ec.get_evaluation_points();
                    proof {
                        assert(ec@.len() >= 1);
                        assert(vals(pts@)[0] == pts@[0]@);
                        assert(in_field(ec@[0]));
                    }
                    pts[0]
                };
                proof {
                    assert(uv_spec.0);
                    assert(next_w_i_b_eval@ == uv_spec.1);
                    assert(next_w_i_c_eval@ == uv_spec.2);
                }
            } else {
                if layer_idx >= proof.w_polys_evals.len() {
                    proof {
                        assert(!uv_spec.0);
                        assert(full == false);
                    }
                    return false;
                }
                let pair = proof.w_polys_evals[layer_idx];
                next_w_i_b_eval = pair.0;
                next_w_i_c_eval = pair.1;
                proof {
                    assert(uv_spec.0);
                    assert(next_w_i_b_eval@ == uv_spec.1);
                    assert(next_w_i_c_eval@ == uv_spec.2);
                    assert(in_field((#[trigger] proof.w_polys_evals@[layer_idx as int]).0@));
                }
            }
            absorb_pair(transcript, &next_w_i_b_eval, &next_w_i_c_eval);
            proof {
                assert(transcript@ == pvr.3 + crate::field::le_bytes_32(uv_spec.1)
                    + crate::field::le_bytes_32(uv_spec.2));
            }
            let fbc_eval = fe_add(
                &fe_mul(&new_addi_eval, &fe_add(&next_w_i_b_eval, &next_w_i_c_eval)),
                &fe_mul(&new_muli_eval, &fe_mul(&next_w_i_b_eval, &next_w_i_c_eval)),
            );
            let claims_match = {
                proof {
                    if fbc_eval@ == final_claim_sum@ {
                        crate::field::lemma_view_injective(fbc_eval, final_claim_sum);
                    }
                }
                fbc_eval == final_claim_sum
            };
            if !is_verified || !claims_match {
                proof {
                    assert(!pvr.0 || fbc_eval@ != pvr.1);
                    assert(full == false);
                }
                return false;
            }
            random_values = next_evaluation_values;
            layer_idx = layer_idx + 1;
            proof {
                assert(full == gkr_layers_ok(
                    circuit@,
                    inputsv,
                    proof.w_polys_evals@,
                    proof.sumcheck_proofs@,
                    layer_idx as nat,
                    opt_vals(random_values@),
                    transcript@,
                ));
            }
        }
        true
    }


    /// The KZG-closed verifier: absorbs the commitment before the output
    /// table, replays the layers, and at the input layer checks the two KZG
    /// openings instead of reading the input, using their claimed values as
    /// the W-evaluations.  Under the trusted exponent model the verdict is
    /// exactly `gkr_kzg_verify_spec`.
    pub fn verify_proof_with_kzg(
        circuit: &mut Circuit,
        transcript: &mut Transcript,
        proof: GKRProofWithKZG,
        encrypted_taus: &[G2Point],
    ) -> (r: bool)
        requires
            old(circuit).wf(),
            proof.wf(),
        ensures
            final(circuit)@ == old(circuit)@,
            r == gkr_kzg_verify_spec(old(circuit)@, proof, encrypted_taus@, old(transcript)@),
    {
        let ghost full = gkr_kzg_verify_spec(
            old(circuit)@,
            proof,
            encrypted_taus@,
            old(transcript)@,
        );
        let length_of_rs = proof.output_poly.number_of_variables();
        let mut chunks: Vec<Vec<u8>> = Vec::new();
        let commitment_bytes = g1_to_string_bytes(&proof.commitment);
        let w0_bytes = proof.output_poly.to_bytes();
        chunks.push(commitment_bytes);
        chunks.push(w0_bytes);
        proof {
            assert(chunks@.len() == 2);
            assert(chunks@[0] == commitment_bytes);
            assert(chunks@[1] == w0_bytes);
            assert(chunks@.last() == w0_bytes);
            assert(chunks@.drop_last() =~= seq![commitment_bytes]);
            assert(seq![commitment_bytes].drop_last() =~= Seq::<Vec<u8>>::empty());
            assert(seq![commitment_bytes].last() == commitment_bytes);
            assert(flatten_bytes(Seq::<Vec<u8>>::empty()) =~= Seq::<u8>::empty());
            assert(flatten_bytes(seq![commitment_bytes]) == flatten_bytes(
                seq![commitment_bytes].drop_last(),
            ) + commitment_bytes@);
            assert(flatten_bytes(seq![commitment_bytes]) =~= commitment_bytes@);
            assert(flatten_bytes(chunks@) == flatten_bytes(chunks@.drop_last()) + w0_bytes@);
        }
        transcript.append_n(&chunks);
        let ghost t1 = old(transcript)@ + crate::kzg::g1_string_of(
            crate::kzg::g1_dlog(proof.commitment),
        ) + crate::field::elems_to_bytes(proof.output_poly@);
        proof {
            assert(transcript@ =~= t1);
        }
        let sampled = transcript.sample_n_challenges(length_of_rs as usize);
        let mut random_values = to_some_points(&sampled);
        proof {
            assert(opt_vals(random_values@) =~= crate::transcript::challenges_of(
                t1,
                lg(proof.output_poly@.len()),
            ).map_values(|x: int| Option::<int>::Some(x)));
        }
        let layer_count = circuit.get_layer_count();
        let mut layer_idx: usize = 0;
        while layer_idx < layer_count
            invariant
                circuit.wf(),
                circuit@ == old(circuit)@,
                layer_count == circuit@.len(),
                layer_idx <= layer_count,
                proof.wf(),
                opts_in_field(opt_vals(random_values@)),
                full == gkr_kzg_verify_spec(
                    old(circuit)@,
                    proof,
                    encrypted_taus@,
                    old(transcript)@,
                ),
                full == gkr_kzg_layers_ok(
                    circuit@,
                    proof.commitment,
                    proof.kzg_proofs@,
                    encrypted_taus@,
                    proof.w_polys_evals@,
                    proof.sumcheck_proofs@,
                    layer_idx as nat,
                    opt_vals(random_values@),
                    transcript@,
                ),
            decreases layer_count - layer_idx,
        {
            let ghost rv_spec = opt_vals(random_values@);
            let ghost t_at_entry = transcript@;
            let ghost gates = circuit@[layer_idx as int];
            let ghost muli_spec = crate::circuit::selector(gates, false);
            let ghost addi_spec = crate::circuit::selector(gates, true);
            let ghost nspec = lg(muli_spec.len());
            let muli_a_b_c = match circuit.get_mul_i(layer_idx) {
                Ok(m) => m,
                Err(_) => {
                    proof {
                        assert(false);
                    }
                    return false;
                },
            };
            let addi_a_b_c = match circuit.get_add_i(layer_idx) {
                Ok(a) => a,
                Err(_) => {
                    proof {
                        assert(false);
                    }
                    return false;
                },
            };
            let new_muli_b_c: MultiLinearPolynomial;
            let new_addi_b_c: MultiLinearPolynomial;
            let ghost nm_spec: Seq<int>;
            let ghost na_spec: Seq<int>;
            if layer_idx == 0 {
                let pair = match get_evaluated_muli_addi_at_a(
                    muli_a_b_c,
                    addi_a_b_c,
                    random_values.as_slice(),
                ) {
                    Ok(p) => p,
                    Err(_) => {
                        proof {
                            assert(!eval_at_a_ok(muli_spec, addi_spec, rv_spec));
                            assert(full == false);
                        }
                        return false;
                    },
                };
                new_muli_b_c = pair.0;
                new_addi_b_c = pair.1;
                proof {
                    nm_spec = multi_eval(muli_spec, padded_points(rv_spec, nspec));
                    na_spec = multi_eval(addi_spec, padded_points(rv_spec, nspec));
                    assert(new_muli_b_c@ == nm_spec);
                    assert(new_addi_b_c@ == na_spec);
                }
            } else {
                let alpha = transcript.sample_challenge();
                let beta = transcript.sample_challenge();
                let half = random_values.len() / 2;
                let r_b = copy_opts(random_values.as_slice(), 0, half);
                let r_c = copy_opts(random_values.as_slice(), half, random_values.len());
                proof {
                    assert(opt_vals(r_b@) =~= rv_spec.take((rv_spec.len() / 2) as int));
                    assert(opt_vals(r_c@) =~= rv_spec.skip((rv_spec.len() / 2) as int));
                }
                let folded = match get_folded_polys(
                    &alpha,
                    &beta,
                    muli_a_b_c,
                    addi_a_b_c,
                    r_b.as_slice(),
                    r_c.as_slice(),
                ) {
                    Ok(p) => p,
                    Err(_) => {
                        proof {
                            assert(!fold_ok(
                                muli_spec,
                                addi_spec,
                                rv_spec.take((rv_spec.len() / 2) as int),
                                rv_spec.skip((rv_spec.len() / 2) as int),
                            ));
                            assert(full == false);
                        }
                        return false;
                    },
                };
                new_muli_b_c = folded.0;
                new_addi_b_c = folded.1;
                proof {
                    let rbs = rv_spec.take((rv_spec.len() / 2) as int);
                    let rcs = rv_spec.skip((rv_spec.len() / 2) as int);
                    nm_spec = add_seq(
                        scale_seq(multi_eval(muli_spec, padded_points(rbs, nspec)), alpha@),
                        scale_seq(multi_eval(muli_spec, padded_points(rcs, nspec)), beta@),
                    );
                    na_spec = add_seq(
                        scale_seq(multi_eval(addi_spec, padded_points(rbs, nspec)), alpha@),
                        scale_seq(multi_eval(addi_spec, padded_points(rcs, nspec)), beta@),
                    );
                    assert(new_muli_b_c@ == nm_spec);
                    assert(new_addi_b_c@ == na_spec);
                }
            }
            let ghost t_after_fold = transcript@;
            proof {
                assert(gkr_kzg_layers_ok(
                    circuit@,
                    proof.commitment,
                    proof.kzg_proofs@,
                    encrypted_taus@,
                    proof.w_polys_evals@,
                    proof.sumcheck_proofs@,
                    layer_idx as nat,
                    rv_spec,
                    t_at_entry,
                ) == gkr_kzg_after_fold(
                    circuit@,
                    proof.commitment,
                    proof.kzg_proofs@,
                    encrypted_taus@,
                    proof.w_polys_evals@,
                    proof.sumcheck_proofs@,
                    layer_idx as nat,
                    nm_spec,
                    na_spec,
                    t_after_fold,
                ));
            }
            if layer_idx >= proof.sumcheck_proofs.len() {
                proof {
                    assert(full == false);
                }
                return false;
            }
            proof {
                assert((#[trigger] proof.sumcheck_proofs@[layer_idx as int]).wf());
            }
            let (is_verified, final_claim_sum, next_evaluation_values) =
                SumcheckVerifier::partial_verify(&proof.sumcheck_proofs[layer_idx], transcript);
            let ghost pvr = crate::sumcheck::pv(
                crate::sumcheck::round_views(
                    proof.sumcheck_proofs@[layer_idx as int].round_polys@,
                ),
                proof.sumcheck_proofs@[layer_idx as int].initial_claim_sum@,
                t_after_fold,
            );
            let ghost chals = pvr.2;
            proof {
                assert(opt_vals(next_evaluation_values@) == chals);
                assert(transcript@ == pvr.3);
            }
            let evaluated_addi = match new_addi_b_c.evaluate(next_evaluation_values.as_slice()) {
                Ok(x) => x,
                Err(_) => {
                    proof {
                        assert(chals.len() != lg(na_spec.len()));
                        assert(full == false);
                    }
                    return false;
                },
            };
            let evaluated_muli = match new_muli_b_c.evaluate(next_evaluation_values.as_slice()) {
                Ok(x) => x,
                Err(_) => {
                    proof {
                        assert(chals.len() != lg(nm_spec.len()));
                        assert(full == false);
                    }
                    return false;
                },
            };
            let new_addi_eval = {
                let pts = evaluated_addi.get_evaluation_points();
                proof {
                    assert(evaluated_addi@.len() >= 1);
                    assert(vals(pts@)[0] == pts@[0]@);
                    assert(in_field(evaluated_addi@[0]));
                }
                pts[0]
            };
            let new_muli_eval = {
                let pts = evaluated_muli.get_evaluation_points();
                proof {
                    assert(evaluated_muli@.len() >= 1);
                    assert(vals(pts@)[0] == pts@[0]@);
                    assert(in_field(evaluated_muli@[0]));
                }
                pts[0]
            };
            proof {
                assert(new_addi_eval@ == multi_eval(na_spec, chals)[0]);
                assert(new_muli_eval@ == multi_eval(nm_spec, chals)[0]);
            }
            let ghost uv_spec = gkr_kzg_next_w_evals(
                circuit@,
                proof.commitment,
                proof.kzg_proofs@,
                encrypted_taus@,
                proof.w_polys_evals@,
                layer_idx as nat,
                chals,
            );
            let next_w_i_b_eval: FieldElement;
            let next_w_i_c_eval: FieldElement;
            if layer_idx + 1 == layer_count {
                let half = next_evaluation_values.len() / 2;
                let r_b_opts = copy_opts(next_evaluation_values.as_slice(), 0, half);
                let r_c_opts = copy_opts(
                    next_evaluation_values.as_slice(),
                    half,
                    next_evaluation_values.len(),
                );
                proof {
                    assert(opt_vals(r_b_opts@) =~= chals.take((chals.len() / 2) as int));
                    assert(opt_vals(r_c_opts@) =~= chals.skip((chals.len() / 2) as int));
                }
                let r_b = match unwrap_points(r_b_opts.as_slice()) {
                    Ok(v) => v,
                    Err(_) => {
                        proof {
                            assert(false);
                        }
                        return false;
                    },
                };
                let r_c = match unwrap_points(r_c_opts.as_slice()) {
                    Ok(v) => v,
                    Err(_) => {
                        proof {
                            assert(false);
                        }
                        return false;
                    },
                };
                proof {
                    assert(vals(r_b@) =~= chals.take((chals.len() / 2) as int).map_values(
                        |o: Option<int>| o->0,
                    ));
                    assert(vals(r_c@) =~= chals.skip((chals.len() / 2) as int).map_values(
                        |o: Option<int>| o->0,
                    ));
                }
                if proof.kzg_proofs.len() != 2 {
                    proof {
                        assert(!uv_spec.0);
                        assert(full == false);
                    }
                    return false;
                }
                // the openings must open the commitment that was absorbed
                // into the transcript, or the input-layer claim is unbound
                let bound_b = crate::kzg::g1_eq(&proof.kzg_proofs[0].commitment, &proof.commitment);
                let bound_c = crate::kzg::g1_eq(&proof.kzg_proofs[1].commitment, &proof.commitment);
                if !bound_b || !bound_c {
                    proof {
                        assert(!uv_spec.0);
                        assert(full == false);
                    }
                    return false;
                }
                proof {
                    assert(in_field(proof.kzg_proofs@[0].v@));
                    assert(in_field(proof.kzg_proofs@[1].v@));
                }
                let ok_b = MultilinearKZGVerifier::verify_proof(
                    &proof.kzg_proofs[0],
                    r_b.as_slice(),
                    encrypted_taus,
                );
                let ok_c = MultilinearKZGVerifier::verify_proof(
                    &proof.kzg_proofs[1],
                    r_c.as_slice(),
                    encrypted_taus,
                );
                if !ok_b || !ok_c {
                    proof {
                        assert(!uv_spec.0);
                        assert(full == false);
                    }
                    return false;
                }
                next_w_i_b_eval = proof.kzg_proofs[0].v;
                next_w_i_c_eval = proof.kzg_proofs[1].v;
                proof {
                    assert(uv_spec.0);
                    assert(next_w_i_b_eval@ == uv_spec.1);
                    assert(next_w_i_c_eval@ == uv_spec.2);
                }
            } else {
                if layer_idx >= proof.w_polys_evals.len() {
                    proof {
                        assert(!uv_spec.0);
                        assert(full == false);
                    }
                    return false;
                }
                let pair = proof.w_polys_evals[layer_idx];
                next_w_i_b_eval = pair.0;
                next_w_i_c_eval = pair.1;
                proof {
                    assert(uv_spec.0);
                    assert(next_w_i_b_eval@ == uv_spec.1);
                    assert(next_w_i_c_eval@ == uv_spec.2);
                    assert(in_field((#[trigger] proof.w_polys_evals@[layer_idx as int]).0@));
                }
            }
            absorb_pair(transcript, &next_w_i_b_eval, &next_w_i_c_eval);
            proof {
                assert(transcript@ == pvr.3 + crate::field::le_bytes_32(uv_spec.1)
                    + crate::field::le_bytes_32(uv_spec.2));
            }
            let fbc_eval = fe_add(
                &fe_mul(&new_addi_eval, &fe_add(&next_w_i_b_eval, &next_w_i_c_eval)),
                &fe_mul(&new_muli_eval, &fe_mul(&next_w_i_b_eval, &next_w_i_c_eval)),
            );
            let claims_match = {
                proof {
                    if fbc_eval@ == final_claim_sum@ {
                        crate::field::lemma_view_injective(fbc_eval, final_claim_sum);
                    }
                }
                fbc_eval == final_claim_sum
            };
            if !is_verified || !claims_match {
                proof {
                    assert(!pvr.0 || fbc_eval@ != pvr.1);
                    assert(full == false);
                }
                return false;
            }
            random_values = next_evaluation_values;
            layer_idx = layer_idx + 1;
            proof {
                assert(full == gkr_kzg_layers_ok(
                    circuit@,
                    proof.commitment,
                    proof.kzg_proofs@,
                    encrypted_taus@,
                    proof.w_polys_evals@,
                    proof.sumcheck_proofs@,
                    layer_idx as nat,
                    opt_vals(random_values@),
                    transcript@,
                ));
            }
        }
        true
    }
}

} // verus!
