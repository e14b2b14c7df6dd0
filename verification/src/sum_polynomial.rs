use vstd::prelude::*;
use crate::errors::Error;
use crate::field::{FieldElement, f_add, in_field, in_field_seq, fe_add, fe_from_u64, vals};
use crate::multilinear::{opt_vals, opts_in_field};
use crate::product_polynomial::{
    ProductPolynomial, prod_at, prod_of_evals, prod_bytes, pe_views,
};
use crate::bits::{is_pow2, lg};

verus! {

/// The views of the members of a sum polynomial.
pub open spec fn prod_poly_views(qs: Seq<ProductPolynomial>) -> Seq<Seq<Seq<int>>> {
    qs.map_values(|q: ProductPolynomial| q@)
}

/// The sum over the members of the pointwise product at index `i`.
pub open spec fn sum_at(qs: Seq<Seq<Seq<int>>>, i: int) -> int
    decreases qs.len(),
{
    if qs.len() == 0 {
        0
    } else {
        f_add(sum_at(qs.drop_last(), i), prod_at(qs.last(), i))
    }
}

/// The pointwise sum of the members' reduced tables.
pub open spec fn reduce_sum(qs: Seq<Seq<Seq<int>>>, len: nat) -> Seq<int> {
    Seq::new(len, |i: int| sum_at(qs, i))
}

/// The sum over the members of their evaluations at the listed points.
pub open spec fn sum_of_evals(qs: Seq<Seq<Seq<int>>>, pts: Seq<Option<int>>) -> int
    decreases qs.len(),
{
    if qs.len() == 0 {
        0
    } else {
        f_add(sum_of_evals(qs.drop_last(), pts), prod_of_evals(qs.last(), pts))
    }
}

/// Every member fixed at the listed points.
pub open spec fn sum_pe_views(qs: Seq<Seq<Seq<int>>>, pts: Seq<Option<int>>) -> Seq<
    Seq<Seq<int>>,
> {
    qs.map_values(|q: Seq<Seq<int>>| pe_views(q, pts))
}

/// The concatenated byte encodings of the members.
pub open spec fn sum_bytes(qs: Seq<Seq<Seq<int>>>) -> Seq<u8>
    decreases qs.len(),
{
    if qs.len() == 0 {
        Seq::<u8>::empty()
    } else {
        sum_bytes(qs.drop_last()) + prod_bytes(qs.last())
    }
}

/// An ordered sum of product polynomials over the same variables,
/// representing their pointwise sum over the hypercube.  Its degree for
/// sum-check purposes is the factor count of any member.
pub struct SumPolynomial {
    prod_polys: Vec<ProductPolynomial>,
}

impl View for SumPolynomial {
    type V = Seq<Seq<Seq<int>>>;

    closed spec fn view(&self) -> Seq<Seq<Seq<int>>> {
        prod_poly_views(self.prod_polys@)
    }
}

impl SumPolynomial {
    /// At least one member; all members are well formed with one shared
    /// table length and one shared factor count.
    pub open spec fn wf(&self) -> bool {
        &&& self@.len() >= 1
        &&& forall|i: int| 0 <= i < self@.len() ==> wf_view(#[trigger] self@[i])
        &&& forall|i: int|
            0 <= i < self@.len() ==> (#[trigger] self@[i])[0].len() == self@[0][0].len()
        &&& forall|i: int| 0 <= i < self@.len() ==> (#[trigger] self@[i]).len() == self@[0].len()
    }

    /// The shared table length.
    pub open spec fn spec_length(&self) -> nat {
        self@[0][0].len()
    }

    /// The shared factor count of the members: the degree in each variable,
    /// and the sum-check round-polynomial degree.
    pub open spec fn spec_degree(&self) -> nat {
        self@[0].len()
    }

    /// Wraps the members; they must be non-empty and of one shared length.
    pub fn new(prod_polys: Vec<ProductPolynomial>) -> (res: Result<Self, Error>)
        requires
            forall|i: int| 0 <= i < prod_polys@.len() ==> (#[trigger] prod_polys@[i]).wf(),
        ensures
            res is Ok <==> prod_polys@.len() >= 1 && (forall|i: int|
                0 <= i < prod_polys@.len() ==> (#[trigger] prod_polys@[i]).spec_length()
                    == prod_polys@[0].spec_length()) && (forall|i: int|
                0 <= i < prod_polys@.len() ==> (#[trigger] prod_polys@[i])@.len()
                    == prod_polys@[0]@.len()),
            res is Ok ==> res->Ok_0@ == prod_poly_views(prod_polys@) && res->Ok_0.wf(),
            res is Err ==> res->Err_0 == Error::InvalidShape,
    {
        if prod_polys.len() == 0 {
            return Err(Error::InvalidShape);
        }
        let general_len = prod_polys[0].length();
        let general_factors = prod_polys[0].get_polys().len();
        let mut i: usize = 0;
        while i < prod_polys.len()
            invariant
                forall|j: int| 0 <= j < prod_polys@.len() ==> (#[trigger] prod_polys@[j]).wf(),
                prod_polys@.len() >= 1,
                general_len == prod_polys@[0].spec_length(),
                general_factors == prod_polys@[0]@.len(),
                i <= prod_polys@.len(),
                forall|j: int|
                    0 <= j < i ==> (#[trigger] prod_polys@[j]).spec_length() == general_len,
                forall|j: int|
                    0 <= j < i ==> (#[trigger] prod_polys@[j])@.len() == general_factors,
            decreases prod_polys@.len() - i,
        {
            if prod_polys[i].length() != general_len {
                return Err(Error::InvalidShape);
            }
            if prod_polys[i].get_polys().len() != general_factors {
                return Err(Error::InvalidShape);
            }
            i = i + 1;
        }
        let r = SumPolynomial { prod_polys };
        proof {
            assert forall|j: int| 0 <= j < r@.len() implies wf_view(#[trigger] r@[j]) by {
                assert(r@[j] == r.prod_polys@[j]@);
            }
            assert forall|j: int|
                0 <= j < r@.len() implies (#[trigger] r@[j])[0].len() == r@[0][0].len() by {
                assert(r@[j] == r.prod_polys@[j]@);
            }
            assert forall|j: int|
                0 <= j < r@.len() implies (#[trigger] r@[j]).len() == r@[0].len() by {
                assert(r@[j] == r.prod_polys@[j]@);
            }
        }
        Ok(r)
    }

    /// The members.
    pub fn get_prod_polys(&self) -> (r: &Vec<ProductPolynomial>)
        ensures
            prod_poly_views(r@) == self@,
            r@.len() == self@.len(),
    {
        &self.prod_polys
    }

    /// The shared table length of a non-empty member list.
    pub fn get_poly_length(prod_polys: &[ProductPolynomial]) -> (r: usize)
        requires
            prod_polys@.len() >= 1,
            prod_polys@[0].wf(),
        ensures
            r == prod_polys@[0].spec_length(),
    {
        prod_polys[0].length()
    }

    /// The shared table length.
    pub fn length(&self) -> (r: usize)
        requires
            self.wf(),
        ensures
            r == self.spec_length(),
    {
        proof {
            assert(self@[0] == self.prod_polys@[0]@);
        }
        self.prod_polys[0].length()
    }

    /// The shared variable count.
    pub fn number_of_variables(&self) -> (r: u32)
        requires
            self.wf(),
        ensures
            r as nat == lg(self.spec_length()),
    {
        proof {
            assert(self@[0] == self.prod_polys@[0]@);
        }
        self.prod_polys[0].number_of_variables()
    }

    /// The members' shared factor count: the degree of each sum-check round
    /// polynomial.
    pub fn degree(&self) -> (r: usize)
        requires
            self.wf(),
        ensures
            r == self.spec_degree(),
    {
        proof {
            assert(self@[0] == self.prod_polys@[0]@);
        }
        self.prod_polys[0].get_polys().len()
    }

    /// Fixes the listed points in every member.
    pub fn partial_evaluate(&self, t: &[Option<FieldElement>]) -> (res: Result<Self, Error>)
        requires
            self.wf(),
            opts_in_field(opt_vals(t@)),
        ensures
            res is Ok <==> t@.len() == lg(self.spec_length()),
            res is Ok ==> res->Ok_0@ == sum_pe_views(self@, opt_vals(t@)) && res->Ok_0.wf(),
            res is Err ==> res->Err_0 == Error::LengthMismatch,
    {
        let len = self.prod_polys.len();
        let mut out: Vec<ProductPolynomial> = Vec::new();
        let mut i: usize = 0;
        while i < len
            invariant
                self.wf(),
                opts_in_field(opt_vals(t@)),
                len == self@.len(),
                i <= len,
                i >= 1 ==> t@.len() == lg(self.spec_length()),
                out@.len() == i,
                forall|j: int|
                    0 <= j < i ==> (#[trigger] out@[j])@ == pe_views(self@[j], opt_vals(t@)),
                forall|j: int| 0 <= j < i ==> (#[trigger] out@[j]).wf(),
                forall|j: int|
                    0 <= j < i ==> (#[trigger] out@[j]).spec_length() == crate::product_polynomial::me_len(
                        self.spec_length(),
                        opt_vals(t@),
                    ),
            decreases len - i,
        {
            proof {
                assert(self@[i as int] == self.prod_polys@[i as int]@);
                assert(self@[i as int][0].len() == self@[0][0].len());
            }
            let q = match self.prod_polys[i].partial_evaluate(t) {
                Ok(q) => q,
                Err(_) => {
                    return Err(Error::LengthMismatch);
                },
            };
            proof {
                crate::product_polynomial::lemma_multi_eval_len(
                    self@[i as int][0],
                    opt_vals(t@),
                );
                assert(q@[0] == multi_eval_first(self@[i as int], opt_vals(t@)));
            }
            out.push(q);
            proof {
                assert(out@[i as int] == q);
            }
            i = i + 1;
        }
        proof {
            assert forall|j: int|
                0 <= j < len implies prod_poly_views(out@)[j] == sum_pe_views(
                self@,
                opt_vals(t@),
            )[j] by {
                assert(prod_poly_views(out@)[j] == out@[j]@);
            }
            assert(prod_poly_views(out@) =~= sum_pe_views(self@, opt_vals(t@)));
        }
        let r = SumPolynomial { prod_polys: out };
        proof {
            assert(r@.len() >= 1);
            assert(r@[0] == out@[0]@);
        }
        Ok(r)
    }

    /// The sum over the members of their values at the listed points.
    pub fn evaluate(&self, t: &[Option<FieldElement>]) -> (res: Result<FieldElement, Error>)
        requires
            self.wf(),
            opts_in_field(opt_vals(t@)),
        ensures
            res is Ok <==> t@.len() == lg(self.spec_length()),
            res is Ok ==> res->Ok_0@ == sum_of_evals(self@, opt_vals(t@)) && in_field(
                res->Ok_0@,
            ),
            res is Err ==> res->Err_0 == Error::LengthMismatch,
    {
        let len = self.prod_polys.len();
        let mut acc = fe_from_u64(0);
        let mut i: usize = 0;
        while i < len
            invariant
                self.wf(),
                opts_in_field(opt_vals(t@)),
                len == self@.len(),
                i <= len,
                i >= 1 ==> t@.len() == lg(self.spec_length()),
                in_field(acc@),
                acc@ == sum_of_evals(self@.take(i as int), opt_vals(t@)),
            decreases len - i,
        {
            proof {
                assert(self@[i as int] == self.prod_polys@[i as int]@);
                assert(self@[i as int][0].len() == self@[0][0].len());
                assert(self@.take(i + 1).drop_last() =~= self@.take(i as int));
            }
            let v = match self.prod_polys[i].evaluate(t) {
                Ok(v) => v,
                Err(_) => {
                    return Err(Error::LengthMismatch);
                },
            };
            acc = fe_add(&acc, &v);
            i = i + 1;
        }
        proof {
            assert(self@.take(len as int) =~= self@);
        }
        Ok(acc)
    }

    /// The pointwise sum of the members' reduced tables.
    pub fn reduce(&self) -> (r: Vec<FieldElement>)
        requires
            self.wf(),
        ensures
            vals(r@) == reduce_sum(self@, self.spec_length()),
            in_field_seq(vals(r@)),
            r@.len() == self.spec_length(),
    {
        let len = self.length();
        let m = self.prod_polys.len();
        let mut reduced: Vec<Vec<FieldElement>> = Vec::new();
        let mut k: usize = 0;
        while k < m
            invariant
                self.wf(),
                len == self.spec_length(),
                m == self@.len(),
                k <= m,
                reduced@.len() == k,
                forall|j: int|
                    0 <= j < k ==> vals(#[trigger] reduced@[j]@) == crate::product_polynomial::reduce_prod(
                        self@[j],
                        self.spec_length(),
                    ),
                forall|j: int| 0 <= j < k ==> (#[trigger] reduced@[j])@.len() == len,
            decreases m - k,
        {
            proof {
                assert(self@[k as int] == self.prod_polys@[k as int]@);
                assert(self@[k as int][0].len() == self@[0][0].len());
            }
            let v = self.prod_polys[k].reduce();
            reduced.push(v);
            proof {
                assert(reduced@[k as int] == v);
            }
            k = k + 1;
        }
        let mut out: Vec<FieldElement> = Vec::new();
        let mut idx: usize = 0;
        while idx < len
            invariant
                self.wf(),
                len == self.spec_length(),
                m == self@.len(),
                reduced@.len() == m,
                forall|j: int|
                    0 <= j < m ==> vals(#[trigger] reduced@[j]@) == crate::product_polynomial::reduce_prod(
                        self@[j],
                        self.spec_length(),
                    ),
                forall|j: int| 0 <= j < m ==> (#[trigger] reduced@[j])@.len() == len,
                idx <= len,
                out@.len() == idx,
                forall|j: int|
                    0 <= j < idx ==> (#[trigger] out@[j])@ == sum_at(self@, j) && in_field(
                        out@[j]@,
                    ),
            decreases len - idx,
        {
            let mut acc = fe_from_u64(0);
            let mut k2: usize = 0;
            while k2 < m
                invariant
                    self.wf(),
                    len == self.spec_length(),
                    m == self@.len(),
                    reduced@.len() == m,
                    forall|j: int|
                        0 <= j < m ==> vals(#[trigger] reduced@[j]@) == crate::product_polynomial::reduce_prod(
                            self@[j],
                            self.spec_length(),
                        ),
                    forall|j: int| 0 <= j < m ==> (#[trigger] reduced@[j])@.len() == len,
                    idx < len,
                    k2 <= m,
                    in_field(acc@),
                    acc@ == sum_at(self@.take(k2 as int), idx as int),
                decreases m - k2,
            {
                proof {
                    assert(self@.take(k2 + 1).drop_last() =~= self@.take(k2 as int));
                    assert(vals(reduced@[k2 as int]@)[idx as int] == reduced@[k2 as int]@[idx as int]@);
                    assert(in_field(vals(reduced@[k2 as int]@)[idx as int]));
                }
                let row = &reduced[k2];
                acc = fe_add(&acc, &row[idx]);
                k2 = k2 + 1;
            }
            proof {
                assert(self@.take(m as int) =~= self@);
            }
            out.push(acc);
            proof {
                assert(out@[idx as int] == acc);
            }
            idx = idx + 1;
        }
        proof {
            assert forall|j: int|
                0 <= j < len implies vals(out@)[j] == reduce_sum(self@, self.spec_length())[j] by {
                assert(vals(out@)[j] == out@[j]@);
            }
            assert(vals(out@) =~= reduce_sum(self@, self.spec_length()));
        }
        out
    }

    /// The concatenated byte encodings of the members.
    pub fn to_bytes(&self) -> (r: Vec<u8>)
        requires
            self.wf(),
        ensures
            r@ == sum_bytes(self@),
    {
        let len = self.prod_polys.len();
        let mut out: Vec<u8> = Vec::new();
        let mut i: usize = 0;
        while i < len
            invariant
                self.wf(),
                len == self@.len(),
                i <= len,
                out@ == sum_bytes(self@.take(i as int)),
            decreases len - i,
        {
            proof {
                assert(self@[i as int] == self.prod_polys@[i as int]@);
                assert(self@.take(i + 1).drop_last() =~= self@.take(i as int));
            }
            let mut bytes = self.prod_polys[i].to_bytes();
            out.append(&mut bytes);
            i = i + 1;
        }
        proof {
            assert(self@.take(len as int) =~= self@);
        }
        out
    }
}

/// Well-formedness of a member's view: non-empty factors of one shared
/// power-of-two length, all entries canonical.
pub open spec fn wf_view(q: Seq<Seq<int>>) -> bool {
    &&& q.len() >= 1
    &&& forall|i: int| 0 <= i < q.len() ==> (#[trigger] q[i]).len() == q[0].len()
    &&& forall|i: int| 0 <= i < q.len() ==> in_field_seq(#[trigger] q[i])
    &&& is_pow2(q[0].len())
}

/// The first entry of the first factor after fixing points (the member's
/// evaluation when every point is set).
pub open spec fn multi_eval_first(q: Seq<Seq<int>>, pts: Seq<Option<int>>) -> Seq<int> {
    crate::multilinear::multi_eval(q[0], pts)
}

} // verus!
