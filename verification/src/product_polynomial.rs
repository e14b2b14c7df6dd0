use vstd::prelude::*;
use crate::errors::Error;
use crate::field::{FieldElement, f_mul, in_field, in_field_seq, fe_mul, fe_from_u64, vals};
use crate::multilinear::{MultiLinearPolynomial, multi_eval, opt_vals, opts_in_field};
use crate::bits::{is_pow2, lg};

verus! {

/// The views of the factors of a product polynomial.
pub open spec fn poly_views(ps: Seq<MultiLinearPolynomial>) -> Seq<Seq<int>> {
    ps.map_values(|q: MultiLinearPolynomial| q@)
}

/// The product of the entries at index `i` of the tables in `ps`.
pub open spec fn prod_at(ps: Seq<Seq<int>>, i: int) -> int
    decreases ps.len(),
{
    if ps.len() == 0 {
        1
    } else {
        f_mul(prod_at(ps.drop_last(), i), ps.last()[i])
    }
}

/// The pointwise product of the tables in `ps`, entry by entry.
pub open spec fn reduce_prod(ps: Seq<Seq<int>>, len: nat) -> Seq<int> {
    Seq::new(len, |i: int| prod_at(ps, i))
}

/// Every factor fixed at the listed points, factor by factor.
pub open spec fn pe_views(ps: Seq<Seq<int>>, pts: Seq<Option<int>>) -> Seq<Seq<int>> {
    ps.map_values(|s: Seq<int>| multi_eval(s, pts))
}

/// The product of the first entries of every factor's fixed table.
pub open spec fn prod_of_evals(ps: Seq<Seq<int>>, pts: Seq<Option<int>>) -> int
    decreases ps.len(),
{
    if ps.len() == 0 {
        1
    } else {
        f_mul(prod_of_evals(ps.drop_last(), pts), multi_eval(ps.last(), pts)[0])
    }
}

/// An ordered product of multilinear polynomials over the same variables,
/// representing their pointwise product over the hypercube.  Its degree in
/// each variable equals the number of factors.
pub struct ProductPolynomial {
    polys: Vec<MultiLinearPolynomial>,
}

impl View for ProductPolynomial {
    type V = Seq<Seq<int>>;

    closed spec fn view(&self) -> Seq<Seq<int>> {
        poly_views(self.polys@)
    }
}

impl ProductPolynomial {
    /// At least one factor; all factors share one power-of-two length with
    /// canonical entries.
    pub open spec fn wf(&self) -> bool {
        &&& self@.len() >= 1

    &&& forall|i: int|
        0 <= i < self@.len() ==> (#[trigger] self@[i]).len() == self@[0].len()
    &&& forall|i: int| 0 <= i < self@.len() ==> in_field_seq(#[trigger] self@[i])
    &&& is_pow2(self@[0].len())
    }

    /// The shared table length.
    pub open spec fn spec_length(&self) -> nat {
        self@[0].len()
    }

    /// Wraps the factors; they must be non-empty and of one shared length.
    pub fn new(polys: Vec<MultiLinearPolynomial>) -> (res: Result<Self, Error>)
        requires
            forall|i: int| 0 <= i < polys@.len() ==> (#[trigger] polys@[i]).wf(),
        ensures
            res is Ok <==> polys@.len() >= 1 && (forall|i: int|
                0 <= i < polys@.len() ==> (#[trigger] polys@[i])@.len() == polys@[0]@.len()),
            res is Ok ==> res->Ok_0@ == poly_views(polys@) && res->Ok_0.wf(),
            res is Err ==> res->Err_0 == Error::InvalidShape,
    {
        if polys.len() == 0 {
            return Err(Error::InvalidShape);
        }
        let general_len = polys[0].get_evaluation_points().len();
        let mut i: usize = 0;
        while i < polys.len()
            invariant
                polys@.len() >= 1,
                general_len == polys@[0]@.len(),
                i <= polys@.len(),
                forall|j: int| 0 <= j < i ==> (#[trigger] polys@[j])@.len() == general_len,
            decreases polys@.len() - i,
        {
            if polys[i].get_evaluation_points().len() != general_len {
                return Err(Error::InvalidShape);
            }
            i = i + 1;
        }
        Ok(ProductPolynomial { polys })
    }

    /// The factors.
    pub fn get_polys(&self) -> (r: &Vec<MultiLinearPolynomial>)
        ensures
            poly_views(r@) == self@,
            r@.len() == self@.len(),
    {
        &self.polys
    }

    /// The shared table length.
    pub fn length(&self) -> (r: usize)
        requires
            self.wf(),
        ensures
            r == self.spec_length(),
    {
        self.polys[0].get_evaluation_points().len()
    }

    /// The shared variable count.
    pub fn number_of_variables(&self) -> (r: u32)
        requires
            self.wf(),
        ensures
            r as nat == lg(self.spec_length()),
    {
        proof {
            assert(self@[0] == self.polys@[0]@);
        }
        self.polys[0].number_of_variables()
    }

    /// Fixes the listed points in every factor.
    pub fn partial_evaluate(&self, t: &[Option<FieldElement>]) -> (res: Result<Self, Error>)
        requires
            self.wf(),
            opts_in_field(opt_vals(t@)),
        ensures
            res is Ok <==> t@.len() == lg(self.spec_length()),
            res is Ok ==> res->Ok_0@ == pe_views(self@, opt_vals(t@)) && res->Ok_0.wf(),
            res is Err ==> res->Err_0 == Error::LengthMismatch,
    {
        if !self.check_point_len(t) {
            return Err(Error::LengthMismatch);
        }
        let len = self.polys.len();
        let mut out: Vec<MultiLinearPolynomial> = Vec::new();
        let mut i: usize = 0;
        while i < len
            invariant
                self.wf(),
                opts_in_field(opt_vals(t@)),
                t@.len() == lg(self.spec_length()),
                len == self@.len(),
                i <= len,
                out@.len() == i,
                forall|j: int|
                    0 <= j < i ==> (#[trigger] out@[j])@ == multi_eval(self@[j], opt_vals(t@)),
                forall|j: int| 0 <= j < i ==> (#[trigger] out@[j]).wf(),
                forall|j: int|
                    0 <= j < i ==> (#[trigger] out@[j])@.len() == me_len(
                        self.spec_length(),
                        opt_vals(t@),
                    ),
            decreases len - i,
        {
            proof {
                assert(self@[i as int] == self.polys@[i as int]@);
                assert(self@[i as int].len() == self@[0].len());
                assert(lg(self@[i as int].len()) == lg(self.spec_length()));
            }
            let q = match self.polys[i].evaluate(t) {
                Ok(q) => q,
                Err(_) => {
                    proof {
                        assert(false);
                    }
                    return Err(Error::LengthMismatch);
                },
            };
            proof {
                lemma_multi_eval_len(self@[i as int], opt_vals(t@));
            }
            out.push(q);
            proof {
                assert(out@[i as int] == q);
            }
            i = i + 1;
        }
        proof {
            assert forall|j: int|
                0 <= j < len implies poly_views(out@)[j] == pe_views(self@, opt_vals(t@))[j] by {
                assert(poly_views(out@)[j] == out@[j]@);
            }
            assert(poly_views(out@) =~= pe_views(self@, opt_vals(t@)));
        }
        let r = ProductPolynomial { polys: out };
        proof {
            assert(r@.len() >= 1);
            assert(r@[0] == out@[0]@);
        }
        Ok(r)
    }

    /// The length check shared by the callers: the points must cover every
    /// variable of the factors.
    fn check_point_len(&self, t: &[Option<FieldElement>]) -> (r: bool)
        requires
            self.wf(),
        ensures
            r == (t@.len() == lg(self.spec_length())),
    {
        let n = self.number_of_variables();
        t.len() == n as usize
    }

    /// The product of the factors' values after fixing the listed points;
    /// with every point set this is the product of the factors' evaluations.
    pub fn evaluate(&self, t: &[Option<FieldElement>]) -> (res: Result<FieldElement, Error>)
        requires
            self.wf(),
            opts_in_field(opt_vals(t@)),
        ensures
            res is Ok <==> t@.len() == lg(self.spec_length()),
            res is Ok ==> res->Ok_0@ == prod_of_evals(self@, opt_vals(t@)) && in_field(
                res->Ok_0@,
            ),
            res is Err ==> res->Err_0 == Error::LengthMismatch,
    {
        if !self.check_point_len(t) {
            return Err(Error::LengthMismatch);
        }
        let len = self.polys.len();
        let mut acc = fe_from_u64(1);
        let mut i: usize = 0;
        while i < len
            invariant
                self.wf(),
                opts_in_field(opt_vals(t@)),
                t@.len() == lg(self.spec_length()),
                len == self@.len(),
                i <= len,
                in_field(acc@),
                acc@ == prod_of_evals(self@.take(i as int), opt_vals(t@)),
            decreases len - i,
        {
            proof {
                assert(self@[i as int] == self.polys@[i as int]@);
                assert(self@[i as int].len() == self@[0].len());
                assert(self@.take(i + 1).drop_last() =~= self@.take(i as int));
            }
            let q = match self.polys[i].evaluate(t) {
                Ok(q) => q,
                Err(_) => {
                    proof {
                        assert(false);
                    }
                    return Err(Error::LengthMismatch);
                },
            };
            let pts = q.get_evaluation_points();
            proof {
                assert(q@.len() >= 1);
                assert(vals(pts@)[0] == pts@[0]@);
                assert(in_field(q@[0]));
            }
            acc = fe_mul(&acc, &pts[0]);
            i = i + 1;
        }
        proof {
            assert(self@.take(len as int) =~= self@);
        }
        Ok(acc)
    }

    /// The pointwise product of the factors, entry by entry.
    pub fn reduce(&self) -> (r: Vec<FieldElement>)
        requires
            self.wf(),
        ensures
            vals(r@) == reduce_prod(self@, self.spec_length()),
            in_field_seq(vals(r@)),
            r@.len() == self.spec_length(),
    {
        let len = self.length();
        let m = self.polys.len();
        let mut out: Vec<FieldElement> = Vec::new();
        let mut idx: usize = 0;
        while idx < len
            invariant
                self.wf(),
                len == self.spec_length(),
                m == self@.len(),
                idx <= len,
                out@.len() == idx,
                forall|j: int|
                    0 <= j < idx ==> (#[trigger] out@[j])@ == prod_at(self@, j) && in_field(
                        out@[j]@,
                    ),
            decreases len - idx,
        {
            let mut acc = fe_from_u64(1);
            let mut k: usize = 0;
            while k < m
                invariant
                    self.wf(),
                    len == self.spec_length(),
                    m == self@.len(),
                    idx < len,
                    k <= m,
                    in_field(acc@),
                    acc@ == prod_at(self@.take(k as int), idx as int),
                decreases m - k,
            {
                proof {
                    assert(self@[k as int] == self.polys@[k as int]@);
                    assert(self@[k as int].len() == self@[0].len());
                    assert(self@.take(k + 1).drop_last() =~= self@.take(k as int));
                    assert(in_field(self@[k as int][idx as int]));
                }
                let pts = self.polys[k].get_evaluation_points();
                proof {
                    assert(vals(pts@)[idx as int] == pts@[idx as int]@);
                }
                acc = fe_mul(&acc, &pts[idx]);
                k = k + 1;
            }
            proof {
                assert(self@.take(m as int) =~= self@);
            }
            out.push(acc);
            proof {
                assert(out@[idx as int] == acc);
            }
            idx = idx + 1;
        }
        proof {
            assert forall|j: int|
                0 <= j < len implies vals(out@)[j] == reduce_prod(self@, self.spec_length())[j] by {
                assert(vals(out@)[j] == out@[j]@);
            }
            assert(vals(out@) =~= reduce_prod(self@, self.spec_length()));
        }
        out
    }

    /// The concatenated byte encodings of the factors.
    pub fn to_bytes(&self) -> (r: Vec<u8>)
        requires
            self.wf(),
        ensures
            r@ == prod_bytes(self@),
    {
        let len = self.polys.len();
        let mut out: Vec<u8> = Vec::new();
        let mut i: usize = 0;
        while i < len
            invariant
                self.wf(),
                len == self@.len(),
                i <= len,
                out@ == prod_bytes(self@.take(i as int)),
            decreases len - i,
        {
            proof {
                assert(self@[i as int] == self.polys@[i as int]@);
                assert(in_field_seq(self@[i as int]));
                assert(is_pow2(self@[i as int].len()));
                assert(self@.take(i + 1).drop_last() =~= self@.take(i as int));
            }
            let mut bytes = self.polys[i].to_bytes();
            out.append(&mut bytes);
            i = i + 1;
        }
        proof {
            assert(self@.take(len as int) =~= self@);
        }
        out
    }
}

/// The concatenated byte encodings of a sequence of tables.
pub open spec fn prod_bytes(ps: Seq<Seq<int>>) -> Seq<u8>
    decreases ps.len(),
{
    if ps.len() == 0 {
        Seq::<u8>::empty()
    } else {
        prod_bytes(ps.drop_last()) + crate::field::elems_to_bytes(ps.last())
    }
}

/// The length of a fixed table depends only on the input length: each set
/// point halves it.
pub open spec fn me_len(n: nat, pts: Seq<Option<int>>) -> nat
    decreases pts.len(),
{
    if pts.len() == 0 {
        n
    } else {
        match pts[0] {
            Option::None => me_len(n, pts.drop_first()),
            Option::Some(_) => me_len(n / 2, pts.drop_first()),
        }
    }
}

pub proof fn lemma_multi_eval_len(s: Seq<int>, pts: Seq<Option<int>>)
    ensures
        multi_eval(s, pts).len() == me_len(s.len(), pts),
{
    lemma_multi_eval_aux_len(s, pts, 0);
}

proof fn lemma_multi_eval_aux_len(s: Seq<int>, pts: Seq<Option<int>>, skip: nat)
    ensures
        crate::multilinear::multi_eval_aux(s, pts, skip).len() == me_len(s.len(), pts),
    decreases pts.len(),
{
    if pts.len() > 0 {
        match pts[0] {
            Option::None => {
                lemma_multi_eval_aux_len(s, pts.drop_first(), skip + 1);
            },
            Option::Some(r) => {
                lemma_multi_eval_aux_len(
                    crate::multilinear::partial_eval(s, skip, r),
                    pts.drop_first(),
                    skip,
                );
            },
        }
    }
}

} // verus!
