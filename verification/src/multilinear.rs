use vstd::prelude::*;
use vstd::arithmetic::power2::pow2;
use crate::bits::{is_pow2, lg, log2, is_power_of_two, pow2_usize, lemma_pow2_lg, lemma_pow2_le};
use crate::errors::Error;
use crate::field::{
    FieldElement, f_add, f_sub, f_mul, in_field, in_field_seq, vals, sum_mod, elems_to_bytes,
    fe_add, fe_sub, fe_mul, fe_to_bytes, fe_from_u64, copy_elems, copy_slice,
};

verus! {

/// Which side new variables are appended on when a polynomial is blown up.
#[derive(Clone, Copy, Debug, PartialEq, Eq, Structural)]
pub enum BlowUpDirection {
    Left,
    Right,
}

/// The stride between the two hypercube points paired when variable `var` of
/// a table of `len` evaluations is fixed: variables are numbered from the
/// most significant index bit down.
pub open spec fn pair_stride(len: nat, var: nat) -> nat {
    pow2((lg(len) - 1 - var) as nat)
}

/// The index whose bit for variable `var` is clear in the `k`-th pair.
pub open spec fn lo_index(len: nat, var: nat, k: int) -> int {
    let t = pair_stride(len, var) as int;
    (k / t) * (2 * t) + k % t
}

/// The index whose bit for variable `var` is set in the `k`-th pair.
pub open spec fn hi_index(len: nat, var: nat, k: int) -> int {
    lo_index(len, var, k) + pair_stride(len, var)
}

/// The table obtained by fixing variable `var` to `r`: pairs `(y0, y1)`
/// across the variable's bit are replaced by `y0 + r·(y1 − y0)`.
pub open spec fn partial_eval(s: Seq<int>, var: nat, r: int) -> Seq<int> {
    Seq::new(
        s.len() / 2,
        |k: int|
            f_add(
                s[lo_index(s.len(), var, k)],
                f_mul(r, f_sub(s[hi_index(s.len(), var, k)], s[lo_index(s.len(), var, k)])),
            ),
    )
}

/// The per-pair slopes `y1 − y0` across variable `var`: the quotient of the
/// division by `x_var − r`.
pub open spec fn quotient_seq(s: Seq<int>, var: nat) -> Seq<int> {
    Seq::new(
        s.len() / 2,
        |k: int| f_sub(s[hi_index(s.len(), var, k)], s[lo_index(s.len(), var, k)]),
    )
}

/// Fixing the listed variables in order; entry `i` refers to the `i`-th
/// variable still present, so `skip` counts the unset entries passed so far.
pub open spec fn multi_eval_aux(s: Seq<int>, pts: Seq<Option<int>>, skip: nat) -> Seq<int>
    decreases pts.len(),
{
    if pts.len() == 0 {
        s
    } else {
        match pts[0] {
            Option::None => multi_eval_aux(s, pts.drop_first(), skip + 1),
            Option::Some(r) => multi_eval_aux(partial_eval(s, skip, r), pts.drop_first(), skip),
        }
    }
}

/// The table after fixing every set entry of `pts`, in order.
pub open spec fn multi_eval(s: Seq<int>, pts: Seq<Option<int>>) -> Seq<int> {
    multi_eval_aux(s, pts, 0)
}

/// Pointwise scaling modulo `p()`.
pub open spec fn scale_seq(s: Seq<int>, c: int) -> Seq<int> {
    Seq::new(s.len(), |i: int| f_mul(s[i], c))
}

/// Pointwise subtraction of a constant modulo `p()`.
pub open spec fn minus_seq(s: Seq<int>, v: int) -> Seq<int> {
    Seq::new(s.len(), |i: int| f_sub(s[i], v))
}

/// Pointwise addition modulo `p()`.
pub open spec fn add_seq(a: Seq<int>, b: Seq<int>) -> Seq<int> {
    Seq::new(a.len(), |i: int| f_add(a[i], b[i]))
}

/// The tensor combination of two tables: entry `(i, j)` (with `i` on the high
/// index bits) is `a[i] ⊕ b[j]`.
pub open spec fn tensor_seq(a: Seq<int>, b: Seq<int>, is_mul: bool) -> Seq<int> {
    Seq::new(
        a.len() * b.len(),
        |i: int|
            if is_mul {
                f_mul(a[i / b.len() as int], b[i % b.len() as int])
            } else {
                f_add(a[i / b.len() as int], b[i % b.len() as int])
            },
    )
}

/// One blow-up step: repeat the whole table (`Left`) or each entry (`Right`).
pub open spec fn double_seq(dir: BlowUpDirection, s: Seq<int>) -> Seq<int> {
    match dir {
        BlowUpDirection::Left => s + s,
        BlowUpDirection::Right => Seq::new(2 * s.len(), |i: int| s[i / 2]),
    }
}

/// `n` blow-up steps applied in order.
pub open spec fn blow_up_seq(dir: BlowUpDirection, n: nat, s: Seq<int>) -> Seq<int>
    decreases n,
{
    if n == 0 {
        s
    } else {
        blow_up_seq(dir, (n - 1) as nat, double_seq(dir, s))
    }
}

/// The canonical-value views of an optional-point list.
pub open spec fn opt_vals(s: Seq<Option<FieldElement>>) -> Seq<Option<int>> {
    s.map_values(
        |o: Option<FieldElement>|
            match o {
                Option::Some(e) => Option::Some(e@),
                Option::None => Option::<int>::None,
            },
    )
}

/// Every set entry is a canonical field value.
pub open spec fn opts_in_field(s: Seq<Option<int>>) -> bool {
    forall|i: int| 0 <= i < s.len() && s[i] is Some ==> in_field(#[trigger] s[i]->0)
}

/// For `k < len/2` the paired indices lie inside the table and are distinct.
pub proof fn lemma_pair_indices_in_range(len: nat, var: nat, k: int)
    requires
        is_pow2(len),
        len >= 2,
        var < lg(len),
        0 <= k < len / 2,
    ensures
        0 <= lo_index(len, var, k),
        hi_index(len, var, k) < len,
        lo_index(len, var, k) < hi_index(len, var, k),
        pair_stride(len, var) >= 1,
        2 * pair_stride(len, var) <= len,
{
    let n = lg(len);
    let t = pair_stride(len, var) as int;
    vstd::arithmetic::power2::lemma_pow2_pos((n - 1 - var) as nat);
    lemma_pow2_lg(len);
    // len == pow2(var) * (2 * t) and len / 2 == pow2(var) * t
    let m = pow2(var) as int;
    vstd::arithmetic::power2::lemma_pow2_pos(var);
    assert(pow2(n) == pow2(var) * pow2((n - 1 - var) as nat) * 2) by {
        vstd::arithmetic::power2::lemma_pow2_adds(var, (n - 1 - var) as nat);
        vstd::arithmetic::power2::lemma_pow2_adds((n - 1) as nat, 1);
        vstd::arithmetic::power2::lemma2_to64();
        assert(pow2((n - 1) as nat) == pow2(var) * pow2((n - 1 - var) as nat));
    }
    assert(len == m * (2 * t)) by (nonlinear_arith)
        requires
            len == pow2(var) * (pow2((n - 1 - var) as nat) as int) * 2,
            m == pow2(var),
            t == pow2((n - 1 - var) as nat),
    ;
    assert(len / 2 == m * t) by (nonlinear_arith)
        requires
            len == m * (2 * t),
            t >= 1,
            m >= 1,
    ;
    vstd::arithmetic::div_mod::lemma_mod_division_less_than_divisor(k, t);
    assert(k / t < m) by {
        assert(t * m == m * t);
        vstd::arithmetic::div_mod::lemma_multiply_divide_lt(k, t, m);
    }
    vstd::arithmetic::div_mod::lemma_div_pos_is_pos(k, t);
    assert((k / t) * (2 * t) + 2 * t <= m * (2 * t)) by (nonlinear_arith)
        requires
            k / t < m,
            t >= 1,
    ;
    assert(0 <= k % t && k % t < t);
}

/// A multilinear polynomial over the Boolean hypercube, held as its table of
/// evaluations: entry `i` is the value at the point whose coordinates are the
/// bits of `i`, most significant variable first.
#[derive(Clone, Debug, PartialEq, Eq)]
pub struct MultiLinearPolynomial {
    evaluation_points: Vec<FieldElement>,
}

impl View for MultiLinearPolynomial {
    type V = Seq<int>;

    closed spec fn view(&self) -> Seq<int> {
        vals(self.evaluation_points@)
    }
}

impl MultiLinearPolynomial {
    /// The table has power-of-two length and canonical entries.
    pub open spec fn wf(&self) -> bool {
        is_pow2(self@.len()) && in_field_seq(self@)
    }

    /// Wraps a table of evaluations; the length must be a power of two.
    pub fn new(evaluation_points: &Vec<FieldElement>) -> (res: Result<Self, Error>)
        requires
            in_field_seq(vals(evaluation_points@)),
        ensures
            res is Ok <==> is_pow2(evaluation_points@.len()),
            res is Ok ==> res->Ok_0@ == vals(evaluation_points@) && res->Ok_0.wf(),
            res is Err ==> res->Err_0 == Error::InvalidShape,
    {
        if !is_power_of_two(evaluation_points.len()) {
            return Err(Error::InvalidShape);
        }
        Ok(MultiLinearPolynomial { evaluation_points: copy_elems(evaluation_points) })
    }

    /// The evaluation table.
    pub fn get_evaluation_points(&self) -> (r: &Vec<FieldElement>)
        ensures
            vals(r@) == self@,
            r@.len() == self@.len(),
    {
        &self.evaluation_points
    }

    /// The variable count `log2(len)`.
    pub fn number_of_variables(&self) -> (r: u32)
        requires
            self.wf(),
        ensures
            r as nat == lg(self@.len()),
            pow2(r as nat) == self@.len(),
    {
        let r = log2(self.evaluation_points.len());
        proof {
            lemma_pow2_lg(self@.len());
        }
        r
    }

    /// Multiplies every evaluation by `scalar`.
    pub fn scalar_mul(&self, scalar: &FieldElement) -> (r: Self)
        requires
            self.wf(),
            in_field(scalar@),
        ensures
            r@ == scale_seq(self@, scalar@),
            r.wf(),
            r@.len() == self@.len(),
    {
        let len = self.evaluation_points.len();
        let mut out: Vec<FieldElement> = Vec::new();
        let mut i: usize = 0;
        while i < len
            invariant
                self.wf(),
                in_field(scalar@),
                i <= len,
                len == self@.len(),
                out@.len() == i,
                forall|j: int| 0 <= j < i ==> (#[trigger] out@[j])@ == f_mul(self@[j], scalar@),
            decreases len - i,
        {
            proof {
                assert(self@[i as int] == self.evaluation_points@[i as int]@);
                assert(in_field(self@[i as int]));
            }
            let v = fe_mul(&self.evaluation_points[i], scalar);
            out.push(v);
            proof {
                assert(out@[i as int] == v);
            }
            i = i + 1;
        }
        proof {
            assert forall|j: int| 0 <= j < len implies vals(out@)[j] == scale_seq(self@, scalar@)[j] by {
                assert(vals(out@)[j] == out@[j]@);
            }
            assert(vals(out@) =~= scale_seq(self@, scalar@));
        }
        MultiLinearPolynomial { evaluation_points: out }
    }

    /// Subtracts `other` from every evaluation.
    pub fn minus(&self, other: &FieldElement) -> (r: Self)
        requires
            self.wf(),
            in_field(other@),
        ensures
            r@ == minus_seq(self@, other@),
            r.wf(),
            r@.len() == self@.len(),
    {
        let len = self.evaluation_points.len();
        let mut out: Vec<FieldElement> = Vec::new();
        let mut i: usize = 0;
        while i < len
            invariant
                self.wf(),
                in_field(other@),
                i <= len,
                len == self@.len(),
                out@.len() == i,
                forall|j: int| 0 <= j < i ==> (#[trigger] out@[j])@ == f_sub(self@[j], other@),
            decreases len - i,
        {
            proof {
                assert(self@[i as int] == self.evaluation_points@[i as int]@);
                assert(in_field(self@[i as int]));
            }
            let v = fe_sub(&self.evaluation_points[i], other);
            out.push(v);
            proof {
                assert(out@[i as int] == v);
            }
            i = i + 1;
        }
        proof {
            assert forall|j: int| 0 <= j < len implies vals(out@)[j] == minus_seq(self@, other@)[j] by {
                assert(vals(out@)[j] == out@[j]@);
            }
            assert(vals(out@) =~= minus_seq(self@, other@));
        }
        MultiLinearPolynomial { evaluation_points: out }
    }

    /// Adds two polynomials over the same variables pointwise.
    pub fn _add(&self, other: &Self) -> (res: Result<Self, Error>)
        requires
            self.wf(),
            other.wf(),
        ensures
            res is Ok <==> self@.len() == other@.len(),
            res is Ok ==> res->Ok_0@ == add_seq(self@, other@) && res->Ok_0.wf()
                && res->Ok_0@.len() == self@.len(),
            res is Err ==> res->Err_0 == Error::InvalidShape,
    {
        let len = self.evaluation_points.len();
        if len != other.evaluation_points.len() {
            return Err(Error::InvalidShape);
        }
        let mut out: Vec<FieldElement> = Vec::new();
        let mut i: usize = 0;
        while i < len
            invariant
                self.wf(),
                other.wf(),
                i <= len,
                len == self@.len(),
                len == other@.len(),
                out@.len() == i,
                forall|j: int| 0 <= j < i ==> (#[trigger] out@[j])@ == f_add(self@[j], other@[j]),
            decreases len - i,
        {
            proof {
                assert(self@[i as int] == self.evaluation_points@[i as int]@);
                assert(other@[i as int] == other.evaluation_points@[i as int]@);
                assert(in_field(self@[i as int]) && in_field(other@[i as int]));
            }
            let v = fe_add(&self.evaluation_points[i], &other.evaluation_points[i]);
            out.push(v);
            proof {
                assert(out@[i as int] == v);
            }
            i = i + 1;
        }
        proof {
            assert forall|j: int| 0 <= j < len implies vals(out@)[j] == add_seq(self@, other@)[j] by {
                assert(vals(out@)[j] == out@[j]@);
            }
            assert(vals(out@) =~= add_seq(self@, other@));
        }
        Ok(MultiLinearPolynomial { evaluation_points: out })
    }

    /// The sum of all evaluations modulo `p()`.
    pub fn evaluation_sum(&self) -> (r: FieldElement)
        requires
            self.wf(),
        ensures
            in_field(r@),
            r@ == sum_mod(self@),
    {
        let len = self.evaluation_points.len();
        let mut acc = fe_from_u64(0);
        let mut i: usize = 0;
        while i < len
            invariant
                self.wf(),
                i <= len,
                len == self@.len(),
                in_field(acc@),
                acc@ == sum_mod(self@.take(i as int)),
            decreases len - i,
        {
            proof {
                assert(self@.take(i + 1).drop_last() =~= self@.take(i as int));
                assert(self@[i as int] == self.evaluation_points@[i as int]@);
                assert(in_field(self@[i as int]));
            }
            acc = fe_add(&acc, &self.evaluation_points[i]);
            i = i + 1;
        }
        proof {
            assert(self@.take(len as int) =~= self@);
        }
        acc
    }

    /// The concatenated little-endian encodings of the evaluations.
    pub fn to_bytes(&self) -> (r: Vec<u8>)
        requires
            self.wf(),
        ensures
            r@ == elems_to_bytes(self@),
    {
        let len = self.evaluation_points.len();
        let mut out: Vec<u8> = Vec::new();
        let mut i: usize = 0;
        while i < len
            invariant
                self.wf(),
                i <= len,
                len == self@.len(),
                out@ == elems_to_bytes(self@.take(i as int)),
            decreases len - i,
        {
            proof {
                assert(self@.take(i + 1).drop_last() =~= self@.take(i as int));
                assert(self@[i as int] == self.evaluation_points@[i as int]@);
                assert(in_field(self@[i as int]));
            }
            let mut bytes = fe_to_bytes(&self.evaluation_points[i]);
            out.append(&mut bytes);
            i = i + 1;
        }
        proof {
            assert(self@.take(len as int) =~= self@);
        }
        out
    }

    /// Fixes variable `var_index` to `r`, producing the table over the
    /// remaining variables.
    pub fn partially_evaluate(&self, var_index: usize, r: &FieldElement) -> (res: Result<
        Self,
        Error,
    >)
        requires
            self.wf(),
            in_field(r@),
        ensures
            res is Ok <==> (var_index as nat) < lg(self@.len()),
            res is Ok ==> res->Ok_0@ == partial_eval(self@, var_index as nat, r@)
                && res->Ok_0.wf() && res->Ok_0@.len() == self@.len() / 2,
            res is Err ==> res->Err_0 == Error::IndexOutOfBounds,
    {
        let n = self.number_of_variables();
        if var_index >= n as usize {
            return Err(Error::IndexOutOfBounds);
        }
        let len = self.evaluation_points.len();
        let half = len / 2;
        let shift = n - 1 - (var_index as u32);
        proof {
            lemma_pow2_le(shift as nat, lg(self@.len()));
            lemma_pow2_lg(self@.len());
        }
        let t = pow2_usize(shift);
        let mut out: Vec<FieldElement> = Vec::new();
        let mut k: usize = 0;
        while k < half
            invariant
                self.wf(),
                in_field(r@),
                len == self@.len(),
                len >= 2,
                half == len / 2,
                (var_index as nat) < lg(len as nat),
                t as nat == pair_stride(len as nat, var_index as nat),
                t >= 1,
                k <= half,
                out@.len() == k,
                forall|j: int|
                    0 <= j < k ==> (#[trigger] out@[j])@ == partial_eval(
                        self@,
                        var_index as nat,
                        r@,
                    )[j],
            decreases half - k,
        {
            proof {
                lemma_pair_indices_in_range(len as nat, var_index as nat, k as int);
            }
            let lo = (k / t) * (2 * t) + k % t;
            let hi = lo + t;
            proof {
                assert(lo as int == lo_index(len as nat, var_index as nat, k as int));
                assert(hi as int == hi_index(len as nat, var_index as nat, k as int));
                assert(self@[lo as int] == self.evaluation_points@[lo as int]@);
                assert(self@[hi as int] == self.evaluation_points@[hi as int]@);
                assert(in_field(self@[lo as int]) && in_field(self@[hi as int]));
            }
            let y0 = self.evaluation_points[lo];
            let y1 = self.evaluation_points[hi];
            let v = fe_add(&y0, &fe_mul(r, &fe_sub(&y1, &y0)));
            out.push(v);
            proof {
                assert(out@[k as int] == v);
            }
            k = k + 1;
        }
        proof {
            assert forall|j: int|
                0 <= j < half implies vals(out@)[j] == partial_eval(
                self@,
                var_index as nat,
                r@,
            )[j] by {
                assert(vals(out@)[j] == out@[j]@);
            }
            assert(vals(out@) =~= partial_eval(self@, var_index as nat, r@));
        }
        Ok(MultiLinearPolynomial { evaluation_points: out })
    }

    /// Divides by `x_{var_index} − divisor`: the quotient holds the per-pair
    /// slopes, the remainder is the partial evaluation at `divisor`.
    pub fn compute_quotient_remainder(&self, divisor: &FieldElement, var_index: usize) -> (res:
        Result<(Vec<FieldElement>, Self), Error>)
        requires
            self.wf(),
            in_field(divisor@),
        ensures
            res is Ok <==> (var_index as nat) < lg(self@.len()),
            res is Ok ==> vals(res->Ok_0.0@) == quotient_seq(self@, var_index as nat)
                && res->Ok_0.1@ == partial_eval(self@, var_index as nat, divisor@)
                && res->Ok_0.1.wf() && res->Ok_0.0@.len() == self@.len() / 2,
            res is Err ==> res->Err_0 == Error::IndexOutOfBounds,
    {
        let remainder = match self.partially_evaluate(var_index, divisor) {
            Ok(r) => r,
            Err(e) => {
                return Err(e);
            },
        };
        let n = self.number_of_variables();
        let len = self.evaluation_points.len();
        let half = len / 2;
        let shift = n - 1 - (var_index as u32);
        proof {
            lemma_pow2_le(shift as nat, lg(self@.len()));
            lemma_pow2_lg(self@.len());
        }
        let t = pow2_usize(shift);
        let mut out: Vec<FieldElement> = Vec::new();
        let mut k: usize = 0;
        while k < half
            invariant
                self.wf(),
                len == self@.len(),
                len >= 2,
                half == len / 2,
                (var_index as nat) < lg(len as nat),
                t as nat == pair_stride(len as nat, var_index as nat),
                t >= 1,
                k <= half,
                out@.len() == k,
                forall|j: int|
                    0 <= j < k ==> (#[trigger] out@[j])@ == quotient_seq(
                        self@,
                        var_index as nat,
                    )[j],
            decreases half - k,
        {
            proof {
                lemma_pair_indices_in_range(len as nat, var_index as nat, k as int);
            }
            let lo = (k / t) * (2 * t) + k % t;
            let hi = lo + t;
            proof {
                assert(lo as int == lo_index(len as nat, var_index as nat, k as int));
                assert(hi as int == hi_index(len as nat, var_index as nat, k as int));
                assert(self@[lo as int] == self.evaluation_points@[lo as int]@);
                assert(self@[hi as int] == self.evaluation_points@[hi as int]@);
                assert(in_field(self@[lo as int]) && in_field(self@[hi as int]));
            }
            let y0 = self.evaluation_points[lo];
            let y1 = self.evaluation_points[hi];
            let v = fe_sub(&y1, &y0);
            out.push(v);
            proof {
                assert(out@[k as int] == v);
            }
            k = k + 1;
        }
        proof {
            assert forall|j: int|
                0 <= j < half implies vals(out@)[j] == quotient_seq(self@, var_index as nat)[j] by {
                assert(vals(out@)[j] == out@[j]@);
            }
            assert(vals(out@) =~= quotient_seq(self@, var_index as nat));
        }
        Ok((out, remainder))
    }

    /// Fixes every set entry of `points` in order; entry `i` refers to the
    /// `i`-th variable still present after the earlier fixings.
    pub fn evaluate(&self, points: &[Option<FieldElement>]) -> (res: Result<Self, Error>)
        requires
            self.wf(),
            opts_in_field(opt_vals(points@)),
        ensures
            res is Ok <==> points@.len() == lg(self@.len()),
            res is Ok ==> res->Ok_0@ == multi_eval(self@, opt_vals(points@)) && res->Ok_0.wf(),
            res is Err ==> res->Err_0 == Error::LengthMismatch,
    {
        let n = self.number_of_variables();
        if points.len() != n as usize {
            return Err(Error::LengthMismatch);
        }
        let mut acc = MultiLinearPolynomial { evaluation_points: copy_elems(
            &self.evaluation_points,
        ) };
        let mut done: usize = 0;
        let mut i: usize = 0;
        let num = points.len();
        proof {
            assert(acc@ == self@);
            assert(opt_vals(points@).skip(0) =~= opt_vals(points@));
        }
        while i < num
            invariant
                self.wf(),
                acc.wf(),
                opts_in_field(opt_vals(points@)),
                num == points@.len(),
                num == lg(self@.len()),
                i <= num,
                done <= i,
                lg(acc@.len()) == num - done,
                multi_eval_aux(acc@, opt_vals(points@).skip(i as int), (i - done) as nat)
                    == multi_eval(self@, opt_vals(points@)),
            decreases num - i,
        {
            let ghost pts = opt_vals(points@);
            proof {
                assert(pts.skip(i as int).len() > 0);
                assert(pts.skip(i as int)[0] == pts[i as int]);
                assert(pts.skip(i as int).drop_first() =~= pts.skip(i as int + 1));
            }
            match points[i] {
                Some(r) => {
                    proof {
                        assert(pts[i as int] == Some(r@));
                        assert(in_field(pts[i as int]->0));
                    }
                    let sub = i - done;
                    let newacc = match acc.partially_evaluate(sub, &r) {
                        Ok(x) => x,
                        Err(_) => {
                            proof {
                                assert(false);
                            }
                            return Err(Error::LengthMismatch);
                        },
                    };
                    proof {
                        assert(acc@.len() >= 2);
                        assert(newacc@.len() == acc@.len() / 2);
                        assert(lg(newacc@.len()) == lg(acc@.len()) - 1);
                    }
                    acc = newacc;
                    done = done + 1;
                },
                None => {
                },
            }
            i = i + 1;
        }
        proof {
            assert(opt_vals(points@).skip(num as int) =~= Seq::<Option<int>>::empty());
        }
        Ok(acc)
    }

    /// The tensor sum of two polynomials: `r(i, j) = w_b(i) + w_c(j)` with
    /// the variables of `w_b` in front.
    pub fn w_add(w_b: &Self, w_c: &Self) -> (r: Self)
        requires
            w_b.wf(),
            w_c.wf(),
            w_b@.len() * w_c@.len() <= usize::MAX,
        ensures
            r@ == tensor_seq(w_b@, w_c@, false),
            r.wf(),
            r@.len() == w_b@.len() * w_c@.len(),
    {
        Self::operate_w(w_b, w_c, false)
    }

    /// The tensor product of two polynomials: `r(i, j) = self(i) · other(j)`
    /// with the variables of `self` in front.
    pub fn w_mul(&self, other: &Self) -> (r: Self)
        requires
            self.wf(),
            other.wf(),
            self@.len() * other@.len() <= usize::MAX,
        ensures
            r@ == tensor_seq(self@, other@, true),
            r.wf(),
            r@.len() == self@.len() * other@.len(),
    {
        Self::operate_w(self, other, true)
    }

    /// Shared tensor loop for `w_add` and `w_mul`.
    fn operate_w(a: &Self, b: &Self, is_mul: bool) -> (r: Self)
        requires
            a.wf(),
            b.wf(),
            a@.len() * b@.len() <= usize::MAX,
        ensures
            r@ == tensor_seq(a@, b@, is_mul),
            r.wf(),
            r@.len() == a@.len() * b@.len(),
    {
        let la = a.evaluation_points.len();
        let lb = b.evaluation_points.len();
        let total = la * lb;
        let mut out: Vec<FieldElement> = Vec::new();
        let mut i: usize = 0;
        while i < total
            invariant
                a.wf(),
                b.wf(),
                la == a@.len(),
                lb == b@.len(),
                lb >= 1,
                total == la * lb,
                i <= total,
                out@.len() == i,
                forall|j: int|
                    0 <= j < i ==> (#[trigger] out@[j])@ == tensor_seq(a@, b@, is_mul)[j],
            decreases total - i,
        {
            let idx_a = i / lb;
            let idx_b = i % lb;
            proof {
                assert(lb * la == la * lb);
                vstd::arithmetic::div_mod::lemma_multiply_divide_lt(i as int, lb as int, la as int);
                vstd::arithmetic::div_mod::lemma_mod_division_less_than_divisor(i as int, lb as int);
                assert(a@[idx_a as int] == a.evaluation_points@[idx_a as int]@);
                assert(b@[idx_b as int] == b.evaluation_points@[idx_b as int]@);
                assert(in_field(a@[idx_a as int]) && in_field(b@[idx_b as int]));
            }
            let v = if is_mul {
                fe_mul(&a.evaluation_points[idx_a], &b.evaluation_points[idx_b])
            } else {
                fe_add(&a.evaluation_points[idx_a], &b.evaluation_points[idx_b])
            };
            out.push(v);
            proof {
                assert(out@[i as int] == v);
            }
            i = i + 1;
        }
        proof {
            assert forall|j: int|
                0 <= j < total implies vals(out@)[j] == tensor_seq(a@, b@, is_mul)[j] by {
                assert(vals(out@)[j] == out@[j]@);
            }
            assert(vals(out@) =~= tensor_seq(a@, b@, is_mul));
            lemma_pow2_lg(a@.len());
            lemma_pow2_lg(b@.len());
            vstd::arithmetic::power2::lemma_pow2_adds(lg(a@.len()), lg(b@.len()));
            crate::bits::lemma_lg_pow2(lg(a@.len()) + lg(b@.len()));
        }
        MultiLinearPolynomial { evaluation_points: out }
    }

    /// Applies `n` blow-up steps to an evaluation table: `Left` repeats the
    /// whole table, `Right` repeats each entry, doubling the length each time.
    pub fn blow_up_n_times(
        dir: BlowUpDirection,
        n: usize,
        evaluation_points: &[FieldElement],
    ) -> (r: Vec<FieldElement>)
        requires
            in_field_seq(vals(evaluation_points@)),
            vals(evaluation_points@).len() * pow2(n as nat) <= usize::MAX,
        ensures
            vals(r@) == blow_up_seq(dir, n as nat, vals(evaluation_points@)),
            in_field_seq(vals(r@)),
    {
        let mut cur: Vec<FieldElement> = copy_slice(evaluation_points);
        let mut step: usize = 0;
        while step < n
            invariant
                step <= n,
                in_field_seq(vals(cur@)),
                cur@.len() * pow2((n - step) as nat) <= usize::MAX,
                blow_up_seq(dir, (n - step) as nat, vals(cur@)) == blow_up_seq(
                    dir,
                    n as nat,
                    vals(evaluation_points@),
                ),
            decreases n - step,
        {
            proof {
                assert(pow2((n - step) as nat) == 2 * pow2((n - step - 1) as nat)) by {
                    vstd::arithmetic::power2::lemma_pow2_adds(1, (n - step - 1) as nat);
                    vstd::arithmetic::power2::lemma2_to64();
                }
                vstd::arithmetic::power2::lemma_pow2_pos((n - step - 1) as nat);
                assert((2 * cur@.len()) * pow2((n - step - 1) as nat) == cur@.len() * pow2(
                    (n - step) as nat,
                )) by (nonlinear_arith)
                    requires
                        pow2((n - step) as nat) == 2 * pow2((n - step - 1) as nat),
                ;
                assert(cur@.len() <= cur@.len() * pow2((n - step) as nat)) by (nonlinear_arith)
                    requires
                        pow2((n - step) as nat) >= 1,
                        cur@.len() >= 0,
                ;
            }
            let next = match dir {
                BlowUpDirection::Left => {
                    let mut next = copy_elems(&cur);
                    let mut tail = copy_elems(&cur);
                    next.append(&mut tail);
                    proof {
                        assert(vals(next@) =~= vals(cur@) + vals(cur@));
                    }
                    next
                },
                BlowUpDirection::Right => {
                    let len = cur.len();
                    let mut next: Vec<FieldElement> = Vec::new();
                    let mut k: usize = 0;
                    while k < len
                        invariant
                            k <= len,
                            len == cur@.len(),
                            in_field_seq(vals(cur@)),
                            next@.len() == 2 * k,
                            forall|j: int|
                                0 <= j < 2 * k ==> (#[trigger] next@[j]) == cur@[j / 2],
                        decreases len - k,
                    {
                        let v = cur[k];
                        next.push(v);
                        next.push(v);
                        proof {
                            assert(next@[2 * k as int] == v);
                            assert(next@[2 * k as int + 1] == v);
                        }
                        k = k + 1;
                    }
                    proof {
                        assert forall|j: int|
                            0 <= j < 2 * len implies vals(next@)[j] == double_seq(
                            BlowUpDirection::Right,
                            vals(cur@),
                        )[j] by {
                            assert(vals(next@)[j] == next@[j]@);
                            assert(next@[j] == cur@[j / 2]);
                            assert(vals(cur@)[j / 2] == cur@[j / 2]@);
                        }
                        assert(vals(next@) =~= double_seq(BlowUpDirection::Right, vals(cur@)));
                    }
                    next
                },
            };
            proof {
                assert(vals(next@) == double_seq(dir, vals(cur@)));
            }
            cur = next;
            step = step + 1;
        }
        cur
    }
}

/// Fixing a variable to 0 keeps, at each pair, the evaluation whose bit for
/// that variable is clear; fixing it to 1 keeps the one whose bit is set.
/// For the leading variable these are exactly the first and second half of
/// the table.
pub proof fn lemma_partial_evaluate_at_bits(s: Seq<int>, var: nat)
    requires
        is_pow2(s.len()),
        s.len() >= 2,
        in_field_seq(s),
        var < lg(s.len()),
    ensures
        forall|k: int|
            0 <= k < s.len() / 2 ==> #[trigger] partial_eval(s, var, 0)[k] == s[lo_index(
                s.len(),
                var,
                k,
            )],
        forall|k: int|
            0 <= k < s.len() / 2 ==> #[trigger] partial_eval(s, var, 1)[k] == s[hi_index(
                s.len(),
                var,
                k,
            )],
{
    assert forall|k: int|
        0 <= k < s.len() / 2 implies #[trigger] partial_eval(s, var, 0)[k] == s[lo_index(
        s.len(),
        var,
        k,
    )] by {
        lemma_partial_evaluate_one_pair(s, var, k);
    }
    assert forall|k: int|
        0 <= k < s.len() / 2 implies #[trigger] partial_eval(s, var, 1)[k] == s[hi_index(
        s.len(),
        var,
        k,
    )] by {
        lemma_partial_evaluate_one_pair(s, var, k);
    }
}

/// One pair of `lemma_partial_evaluate_at_bits`.
proof fn lemma_partial_evaluate_one_pair(s: Seq<int>, var: nat, k: int)
    requires
        is_pow2(s.len()),
        s.len() >= 2,
        in_field_seq(s),
        var < lg(s.len()),
        0 <= k < s.len() / 2,
    ensures
        partial_eval(s, var, 0)[k] == s[lo_index(s.len(), var, k)],
        partial_eval(s, var, 1)[k] == s[hi_index(s.len(), var, k)],
{
    {
        lemma_pair_indices_in_range(s.len(), var, k);
        let y0 = s[lo_index(s.len(), var, k)];
        let y1 = s[hi_index(s.len(), var, k)];
        let d = f_sub(y1, y0);
        assert(in_field(y0) && in_field(y1));
        assert(f_mul(0, d) == 0) by {
            vstd::arithmetic::div_mod::lemma_small_mod(0nat, crate::field::p() as nat);
        }
        crate::field::lemma_add_zero(y0);
        assert(partial_eval(s, var, 0)[k] == y0);
        assert(f_mul(1, d) == d) by {
            vstd::arithmetic::div_mod::lemma_small_mod(d as nat, crate::field::p() as nat);
        }
        assert(f_add(y0, d) == y1) by {
            vstd::arithmetic::div_mod::lemma_add_mod_noop_right(
                y0,
                y1 - y0,
                crate::field::p(),
            );
            vstd::arithmetic::div_mod::lemma_small_mod(y1 as nat, crate::field::p() as nat);
        }
        assert(partial_eval(s, var, 1)[k] == y1);
    }
}

/// For the leading variable, fixing to 0 yields the first half of the table
/// and fixing to 1 yields the second half.
pub proof fn lemma_partial_evaluate_leading_halves(s: Seq<int>)
    requires
        is_pow2(s.len()),
        s.len() >= 2,
        in_field_seq(s),
        lg(s.len()) >= 1,
    ensures
        partial_eval(s, 0, 0) == s.take((s.len() / 2) as int),
        partial_eval(s, 0, 1) == s.skip((s.len() / 2) as int),
{
    lemma_partial_evaluate_at_bits(s, 0);
    let half = (s.len() / 2) as int;
    assert forall|k: int| 0 <= k < half implies lo_index(s.len(), 0, k) == k by {
        lemma_leading_pair_indices(s, k);
    }
    assert forall|k: int| 0 <= k < half implies hi_index(s.len(), 0, k) == k + half by {
        lemma_leading_pair_indices(s, k);
    }
    assert(partial_eval(s, 0, 0) =~= s.take(half));
    assert(partial_eval(s, 0, 1) =~= s.skip(half));
}

/// For the leading variable the pair stride is half the table, so pair `k`
/// joins entry `k` with entry `k + len/2`.
pub proof fn lemma_leading_pair_indices(s: Seq<int>, k: int)
    requires
        is_pow2(s.len()),
        s.len() >= 2,
        lg(s.len()) >= 1,
        0 <= k < s.len() / 2,
    ensures
        lo_index(s.len(), 0, k) == k,
        hi_index(s.len(), 0, k) == k + s.len() / 2,
{
    let half = (s.len() / 2) as int;
    let t = pair_stride(s.len(), 0) as int;
    crate::bits::lemma_pow2_lg(s.len());
    assert(pow2(lg(s.len())) == 2 * pow2((lg(s.len()) - 1) as nat)) by {
        vstd::arithmetic::power2::lemma_pow2_adds(1, (lg(s.len()) - 1) as nat);
        vstd::arithmetic::power2::lemma2_to64();
    }
    assert((lg(s.len()) - 1 - 0) as nat == (lg(s.len()) - 1) as nat);
    assert(t == half);
    vstd::arithmetic::div_mod::lemma_basic_div(k, t);
    vstd::arithmetic::div_mod::lemma_small_mod(k as nat, t as nat);
    assert(lo_index(s.len(), 0, k) == (k / t) * (2 * t) + k % t);
    assert((k / t) * (2 * t) == 0) by (nonlinear_arith)
        requires
            k / t == 0,
    ;
}

/// Subtracting a scalar from every evaluation lowers the hypercube sum by
/// the scalar times the table length, modulo `p()`.
pub proof fn lemma_minus_evaluation_sum(s: Seq<int>, v: int)
    requires
        in_field_seq(s),
        in_field(v),
    ensures
        sum_mod(minus_seq(s, v)) == (sum_mod(s) - s.len() * v) % crate::field::p(),
    decreases s.len(),
{
    let pp = crate::field::p();
    if s.len() == 0 {
        assert(minus_seq(s, v).len() == 0);
        assert((0 - 0) % pp == 0) by {
            vstd::arithmetic::div_mod::lemma_small_mod(0nat, pp as nat);
        }
    } else {
        let d = s.drop_last();
        lemma_minus_evaluation_sum(d, v);
        assert(minus_seq(s, v).drop_last() =~= minus_seq(d, v));
        assert(minus_seq(s, v).last() == f_sub(s.last(), v));
        let a = sum_mod(d) - d.len() * v;
        let b = s.last() - v;
        // f_add(a % p, b % p) == (a + b) % p
        assert(sum_mod(minus_seq(s, v)) == (a % pp + b % pp) % pp);
        assert((a % pp + b % pp) % pp == (a + b) % pp) by {
            vstd::arithmetic::div_mod::lemma_add_mod_noop(a, b, pp);
        }
        // fold the tail sum back in
        assert((a + b) == (sum_mod(d) + s.last()) - s.len() * v) by (nonlinear_arith)
            requires
                a == sum_mod(d) - d.len() * v,
                b == s.last() - v,
                d.len() == s.len() - 1,
        ;
        let sfull = sum_mod(d) + s.last();
        let lv = s.len() * v;
        assert((sfull - lv) % pp == (sfull % pp - lv) % pp) by {
            vstd::arithmetic::div_mod::lemma_sub_mod_noop(sfull, lv, pp);
            vstd::arithmetic::div_mod::lemma_sub_mod_noop(sfull % pp, lv, pp);
            vstd::arithmetic::div_mod::lemma_mod_twice(sfull, pp);
        }
        assert(sum_mod(s) == (sum_mod(d) + s.last()) % pp);
    }
}

/// The direct value of the multilinear extension at a full point, by the
/// Horner-style recursion on the leading variable: a table over no
/// variables is its single entry, and otherwise the value is
/// `(1 − r)·low + r·high` for the two half-tables.
pub open spec fn mle_eval(s: Seq<int>, pt: Seq<int>) -> int
    decreases pt.len(),
{
    if pt.len() == 0 {
        s[0]
    } else {
        f_add(
            f_mul(f_sub(1, pt[0]), mle_eval(s.take((s.len() / 2) as int), pt.drop_first())),
            f_mul(pt[0], mle_eval(s.skip((s.len() / 2) as int), pt.drop_first())),
        )
    }
}

/// The per-entry combination used when a variable is fixed, as a whole-table
/// operation.
pub open spec fn mix_tables(a: Seq<int>, b: Seq<int>, r: int) -> Seq<int> {
    Seq::new(a.len(), |k: int| f_add(a[k], f_mul(r, f_sub(b[k], a[k]))))
}

/// The direct evaluation is linear in the table: evaluating the pairwise
/// combination of two tables combines their evaluations the same way.
proof fn lemma_mle_eval_linear(a: Seq<int>, b: Seq<int>, r: int, pt: Seq<int>)
    requires
        a.len() == b.len(),
        a.len() == pow2(pt.len()),
    ensures
        mle_eval(mix_tables(a, b, r), pt) == f_add(
            mle_eval(a, pt),
            f_mul(r, f_sub(mle_eval(b, pt), mle_eval(a, pt))),
        ),
    decreases pt.len(),
{
    let pp = crate::field::p();
    let m = mix_tables(a, b, r);
    if pt.len() == 0 {
        vstd::arithmetic::power2::lemma2_to64();
        assert(m[0] == f_add(a[0], f_mul(r, f_sub(b[0], a[0]))));
    } else {
        let half = (a.len() / 2) as int;
        vstd::arithmetic::power2::lemma_pow2_adds(1, (pt.len() - 1) as nat);
        vstd::arithmetic::power2::lemma2_to64();
        assert(a.len() == 2 * pow2((pt.len() - 1) as nat));
        assert(m.take(half) =~= mix_tables(a.take(half), b.take(half), r));
        assert(m.skip(half) =~= mix_tables(a.skip(half), b.skip(half), r));
        lemma_mle_eval_linear(a.take(half), b.take(half), r, pt.drop_first());
        lemma_mle_eval_linear(a.skip(half), b.skip(half), r, pt.drop_first());
        let r0 = pt[0];
        let al = mle_eval(a.take(half), pt.drop_first());
        let ah = mle_eval(a.skip(half), pt.drop_first());
        let bl = mle_eval(b.take(half), pt.drop_first());
        let bh = mle_eval(b.skip(half), pt.drop_first());
        // both sides reduce to the same raw integer expression modulo p()
        lemma_two_term_bilinear(r0, r, al, ah, bl, bh);
    }
}

/// The shared algebraic step of `lemma_mle_eval_linear`: combining before or
/// after weighting by `(1 − r0, r0)` gives the same value modulo `p()`.
proof fn lemma_two_term_bilinear(r0: int, r: int, al: int, ah: int, bl: int, bh: int)
    ensures
        f_add(
            f_mul(f_sub(1, r0), f_add(al, f_mul(r, f_sub(bl, al)))),
            f_mul(r0, f_add(ah, f_mul(r, f_sub(bh, ah)))),
        ) == f_add(
            f_add(f_mul(f_sub(1, r0), al), f_mul(r0, ah)),
            f_mul(
                r,
                f_sub(
                    f_add(f_mul(f_sub(1, r0), bl), f_mul(r0, bh)),
                    f_add(f_mul(f_sub(1, r0), al), f_mul(r0, ah)),
                ),
            ),
        ),
{
    let pp = crate::field::p();
    let w0 = (1 - r0) % pp;
    let lhs_raw = w0 * (al + r * (bl - al)) + r0 * (ah + r * (bh - ah));
    let e0 = w0 * al + r0 * ah;
    let e1 = w0 * bl + r0 * bh;
    let rhs_raw = e0 + r * (e1 - e0);
    // reduce the left side
    assert(f_mul(r, f_sub(bl, al)) == (r * (bl - al)) % pp) by {
        vstd::arithmetic::div_mod::lemma_mul_mod_noop_right(r, bl - al, pp);
    }
    assert(f_add(al, f_mul(r, f_sub(bl, al))) == (al + r * (bl - al)) % pp) by {
        vstd::arithmetic::div_mod::lemma_add_mod_noop_right(al, r * (bl - al), pp);
    }
    assert(f_mul(f_sub(1, r0), f_add(al, f_mul(r, f_sub(bl, al)))) == (w0 * (al + r * (bl - al)))
        % pp) by {
        vstd::arithmetic::div_mod::lemma_mul_mod_noop_right(w0, al + r * (bl - al), pp);
    }
    assert(f_mul(r, f_sub(bh, ah)) == (r * (bh - ah)) % pp) by {
        vstd::arithmetic::div_mod::lemma_mul_mod_noop_right(r, bh - ah, pp);
    }
    assert(f_add(ah, f_mul(r, f_sub(bh, ah))) == (ah + r * (bh - ah)) % pp) by {
        vstd::arithmetic::div_mod::lemma_add_mod_noop_right(ah, r * (bh - ah), pp);
    }
    assert(f_mul(r0, f_add(ah, f_mul(r, f_sub(bh, ah)))) == (r0 * (ah + r * (bh - ah))) % pp) by {
        vstd::arithmetic::div_mod::lemma_mul_mod_noop_right(r0, ah + r * (bh - ah), pp);
    }
    assert(f_add(
        f_mul(f_sub(1, r0), f_add(al, f_mul(r, f_sub(bl, al)))),
        f_mul(r0, f_add(ah, f_mul(r, f_sub(bh, ah)))),
    ) == lhs_raw % pp) by {
        vstd::arithmetic::div_mod::lemma_add_mod_noop(
            w0 * (al + r * (bl - al)),
            r0 * (ah + r * (bh - ah)),
            pp,
        );
    }
    // reduce the right side
    assert(f_mul(f_sub(1, r0), al) == (w0 * al) % pp) by {
        vstd::arithmetic::div_mod::lemma_mul_mod_noop_left(w0, al, pp);
        vstd::arithmetic::div_mod::lemma_mod_twice(1 - r0, pp);
    }
    assert(f_mul(r0, ah) == (r0 * ah) % pp);
    assert(f_add(f_mul(f_sub(1, r0), al), f_mul(r0, ah)) == e0 % pp) by {
        vstd::arithmetic::div_mod::lemma_add_mod_noop(w0 * al, r0 * ah, pp);
    }
    assert(f_mul(f_sub(1, r0), bl) == (w0 * bl) % pp) by {
        vstd::arithmetic::div_mod::lemma_mul_mod_noop_left(w0, bl, pp);
        vstd::arithmetic::div_mod::lemma_mod_twice(1 - r0, pp);
    }
    assert(f_mul(r0, bh) == (r0 * bh) % pp);
    assert(f_add(f_mul(f_sub(1, r0), bl), f_mul(r0, bh)) == e1 % pp) by {
        vstd::arithmetic::div_mod::lemma_add_mod_noop(w0 * bl, r0 * bh, pp);
    }
    assert(f_sub(e1 % pp, e0 % pp) == (e1 - e0) % pp) by {
        vstd::arithmetic::div_mod::lemma_sub_mod_noop(e1, e0, pp);
    }
    assert(f_mul(r, (e1 - e0) % pp) == (r * (e1 - e0)) % pp) by {
        vstd::arithmetic::div_mod::lemma_mul_mod_noop_right(r, e1 - e0, pp);
    }
    assert(f_add(e0 % pp, (r * (e1 - e0)) % pp) == rhs_raw % pp) by {
        vstd::arithmetic::div_mod::lemma_add_mod_noop(e0, r * (e1 - e0), pp);
        vstd::arithmetic::div_mod::lemma_mod_twice(e0, pp);
        vstd::arithmetic::div_mod::lemma_mod_twice(r * (e1 - e0), pp);
    }
    // and the raw integer expressions agree
    assert(lhs_raw == rhs_raw) by (nonlinear_arith)
        requires
            lhs_raw == w0 * (al + r * (bl - al)) + r0 * (ah + r * (bh - ah)),
            e0 == w0 * al + r0 * ah,
            e1 == w0 * bl + r0 * bh,
            rhs_raw == e0 + r * (e1 - e0),
    ;
}

/// Fixing every variable in order gives the direct multilinear-extension
/// value: the single surviving entry is the Horner-style evaluation of the
/// table at the point.
pub proof fn lemma_evaluate_is_mle(s: Seq<int>, pt: Seq<int>)
    requires
        is_pow2(s.len()),
        in_field_seq(s),
        lg(s.len()) == pt.len(),
        in_field_seq(pt),
    ensures
        multi_eval(s, pt.map_values(|x: int| Option::<int>::Some(x))) =~= seq![
            mle_eval(s, pt)
        ],
    decreases pt.len(),
{
    let pp = crate::field::p();
    let opts = pt.map_values(|x: int| Option::<int>::Some(x));
    if pt.len() == 0 {
        crate::bits::lemma_pow2_lg(s.len());
        vstd::arithmetic::power2::lemma2_to64();
        assert(s.len() == 1);
        assert(multi_eval(s, opts) == s);
    } else {
        crate::bits::lemma_pow2_lg(s.len());
        vstd::arithmetic::power2::lemma_pow2_adds(1, (pt.len() - 1) as nat);
        vstd::arithmetic::power2::lemma2_to64();
        vstd::arithmetic::power2::lemma_pow2_pos((pt.len() - 1) as nat);
        assert(s.len() == 2 * pow2((pt.len() - 1) as nat));
        let r = pt[0];
        let half = (s.len() / 2) as int;
        let s2 = partial_eval(s, 0, r);
        assert(opts[0] == Option::<int>::Some(r));
        assert(opts.drop_first() =~= pt.drop_first().map_values(
            |x: int| Option::<int>::Some(x),
        ));
        assert(multi_eval(s, opts) == multi_eval_aux(s2, opts.drop_first(), 0));
        // the fixed table is the pairwise combination of the halves
        assert forall|k: int| 0 <= k < half implies #[trigger] s2[k] == mix_tables(
            s.take(half),
            s.skip(half),
            r,
        )[k] by {
            lemma_leading_pair_indices(s, k);
        }
        assert(s2 =~= mix_tables(s.take(half), s.skip(half), r));
        assert forall|k: int| 0 <= k < s2.len() implies in_field(#[trigger] s2[k]) by {
            assert(s2[k] == f_add(
                s[lo_index(s.len(), 0, k)],
                f_mul(r, f_sub(s[hi_index(s.len(), 0, k)], s[lo_index(s.len(), 0, k)])),
            ));
        }
        assert(is_pow2(s2.len()) && lg(s2.len()) == pt.len() - 1) by {
            crate::bits::lemma_lg_pow2((pt.len() - 1) as nat);
        }
        assert forall|k: int| 0 <= k < pt.drop_first().len() implies in_field(
            #[trigger] pt.drop_first()[k],
        ) by {
            assert(pt.drop_first()[k] == pt[k + 1]);
        }
        lemma_evaluate_is_mle(s2, pt.drop_first());
        // the linearity of the direct evaluation closes the induction
        lemma_mle_eval_linear(s.take(half), s.skip(half), r, pt.drop_first());
        let al = mle_eval(s.take(half), pt.drop_first());
        let ah = mle_eval(s.skip(half), pt.drop_first());
        assert(mle_eval(s2, pt.drop_first()) == f_add(al, f_mul(r, f_sub(ah, al))));
        // `(1 − r)·al + r·ah` and `al + r·(ah − al)` agree modulo p()
        assert(mle_eval(s, pt) == f_add(f_mul(f_sub(1, r), al), f_mul(r, ah)));
        lemma_convex_forms(r, al, ah);
    }
}

/// `(1 − r)·x + r·y` and `x + r·(y − x)` agree modulo `p()`.
proof fn lemma_convex_forms(r: int, x: int, y: int)
    ensures
        f_add(f_mul(f_sub(1, r), x), f_mul(r, y)) == f_add(x, f_mul(r, f_sub(y, x))),
{
    let pp = crate::field::p();
    let w = (1 - r) % pp;
    assert(f_mul(f_sub(1, r), x) == (w * x) % pp);
    assert((w * x) % pp == ((1 - r) * x) % pp) by {
        vstd::arithmetic::div_mod::lemma_mul_mod_noop_left(1 - r, x, pp);
        vstd::arithmetic::div_mod::lemma_mod_twice(1 - r, pp);
    }
    assert(f_add(f_mul(f_sub(1, r), x), f_mul(r, y)) == ((1 - r) * x + r * y) % pp) by {
        vstd::arithmetic::div_mod::lemma_add_mod_noop((1 - r) * x, r * y, pp);
        vstd::arithmetic::div_mod::lemma_mod_twice(r * y, pp);
    }
    assert(f_mul(r, f_sub(y, x)) == (r * (y - x)) % pp) by {
        vstd::arithmetic::div_mod::lemma_mul_mod_noop_right(r, y - x, pp);
    }
    assert(f_add(x, f_mul(r, f_sub(y, x))) == (x + r * (y - x)) % pp) by {
        vstd::arithmetic::div_mod::lemma_add_mod_noop_right(x, r * (y - x), pp);
    }
    assert((1 - r) * x + r * y == x + r * (y - x)) by (nonlinear_arith);
}

/// The pointwise difference of two tables.
pub open spec fn sub_tables(a: Seq<int>, b: Seq<int>) -> Seq<int> {
    Seq::new(a.len(), |k: int| f_sub(a[k], b[k]))
}

/// Subtracting a constant from every entry subtracts it from the direct
/// evaluation.
pub proof fn lemma_mle_eval_minus(s: Seq<int>, v: int, pt: Seq<int>)
    requires
        s.len() == pow2(pt.len()),
    ensures
        mle_eval(minus_seq(s, v), pt) == f_sub(mle_eval(s, pt), v),
    decreases pt.len(),
{
    let pp = crate::field::p();
    if pt.len() == 0 {
        vstd::arithmetic::power2::lemma2_to64();
        assert(minus_seq(s, v)[0] == f_sub(s[0], v));
    } else {
        let half = (s.len() / 2) as int;
        vstd::arithmetic::power2::lemma_pow2_adds(1, (pt.len() - 1) as nat);
        vstd::arithmetic::power2::lemma2_to64();
        assert(s.len() == 2 * pow2((pt.len() - 1) as nat));
        assert(minus_seq(s, v).take(half) =~= minus_seq(s.take(half), v));
        assert(minus_seq(s, v).skip(half) =~= minus_seq(s.skip(half), v));
        lemma_mle_eval_minus(s.take(half), v, pt.drop_first());
        lemma_mle_eval_minus(s.skip(half), v, pt.drop_first());
        let t = pt[0];
        let lo = mle_eval(s.take(half), pt.drop_first());
        let hi = mle_eval(s.skip(half), pt.drop_first());
        lemma_convex_minus(t, lo, hi, v);
    }
}

/// `(1 − t)·(x − v) + t·(y − v) ≡ ((1 − t)·x + t·y) − v (mod p())`.
proof fn lemma_convex_minus(t: int, x: int, y: int, v: int)
    ensures
        f_add(f_mul(f_sub(1, t), f_sub(x, v)), f_mul(t, f_sub(y, v))) == f_sub(
            f_add(f_mul(f_sub(1, t), x), f_mul(t, y)),
            v,
        ),
{
    let pp = crate::field::p();
    let w = (1 - t) % pp;
    assert(f_mul(f_sub(1, t), f_sub(x, v)) == (w * (x - v)) % pp) by {
        vstd::arithmetic::div_mod::lemma_mul_mod_noop_right(w, x - v, pp);
    }
    assert((w * (x - v)) % pp == ((1 - t) * (x - v)) % pp) by {
        vstd::arithmetic::div_mod::lemma_mul_mod_noop_left(1 - t, x - v, pp);
        vstd::arithmetic::div_mod::lemma_mod_twice(1 - t, pp);
    }
    assert(f_mul(t, f_sub(y, v)) == (t * (y - v)) % pp) by {
        vstd::arithmetic::div_mod::lemma_mul_mod_noop_right(t, y - v, pp);
    }
    assert(f_add(f_mul(f_sub(1, t), f_sub(x, v)), f_mul(t, f_sub(y, v))) == ((1 - t) * (x - v) + t
        * (y - v)) % pp) by {
        vstd::arithmetic::div_mod::lemma_add_mod_noop((1 - t) * (x - v), t * (y - v), pp);
    }
    assert(f_mul(f_sub(1, t), x) == ((1 - t) * x) % pp) by {
        vstd::arithmetic::div_mod::lemma_mul_mod_noop_right(w, x, pp);
        vstd::arithmetic::div_mod::lemma_mul_mod_noop_left(1 - t, x, pp);
        vstd::arithmetic::div_mod::lemma_mod_twice(1 - t, pp);
    }
    assert(f_mul(t, y) == (t * y) % pp);
    assert(f_add(f_mul(f_sub(1, t), x), f_mul(t, y)) == ((1 - t) * x + t * y) % pp) by {
        vstd::arithmetic::div_mod::lemma_add_mod_noop((1 - t) * x, t * y, pp);
    }
    assert(f_sub(f_add(f_mul(f_sub(1, t), x), f_mul(t, y)), v) == (((1 - t) * x + t * y) - v)
        % pp) by {
        vstd::arithmetic::div_mod::lemma_sub_mod_noop((1 - t) * x + t * y, v, pp);
        vstd::arithmetic::div_mod::lemma_mod_twice((1 - t) * x + t * y, pp);
        vstd::arithmetic::div_mod::lemma_mod_twice(v, pp);
    }
    assert((1 - t) * (x - v) + t * (y - v) == ((1 - t) * x + t * y) - v) by (nonlinear_arith);
}

/// Evaluating a pointwise difference subtracts the evaluations.
pub proof fn lemma_mle_eval_sub(a: Seq<int>, b: Seq<int>, pt: Seq<int>)
    requires
        a.len() == b.len(),
        a.len() == pow2(pt.len()),
    ensures
        mle_eval(sub_tables(a, b), pt) == f_sub(mle_eval(a, pt), mle_eval(b, pt)),
    decreases pt.len(),
{
    let pp = crate::field::p();
    if pt.len() == 0 {
        vstd::arithmetic::power2::lemma2_to64();
        assert(sub_tables(a, b)[0] == f_sub(a[0], b[0]));
    } else {
        let half = (a.len() / 2) as int;
        vstd::arithmetic::power2::lemma_pow2_adds(1, (pt.len() - 1) as nat);
        vstd::arithmetic::power2::lemma2_to64();
        assert(a.len() == 2 * pow2((pt.len() - 1) as nat));
        assert(sub_tables(a, b).take(half) =~= sub_tables(a.take(half), b.take(half)));
        assert(sub_tables(a, b).skip(half) =~= sub_tables(a.skip(half), b.skip(half)));
        lemma_mle_eval_sub(a.take(half), b.take(half), pt.drop_first());
        lemma_mle_eval_sub(a.skip(half), b.skip(half), pt.drop_first());
        let t = pt[0];
        lemma_convex_sub(
            t,
            mle_eval(a.take(half), pt.drop_first()),
            mle_eval(a.skip(half), pt.drop_first()),
            mle_eval(b.take(half), pt.drop_first()),
            mle_eval(b.skip(half), pt.drop_first()),
        );
    }
}

/// `(1 − t)·(x − u) + t·(y − w) ≡ ((1 − t)·x + t·y) − ((1 − t)·u + t·w)`.
proof fn lemma_convex_sub(t: int, x: int, y: int, u: int, w: int)
    ensures
        f_add(f_mul(f_sub(1, t), f_sub(x, u)), f_mul(t, f_sub(y, w))) == f_sub(
            f_add(f_mul(f_sub(1, t), x), f_mul(t, y)),
            f_add(f_mul(f_sub(1, t), u), f_mul(t, w)),
        ),
{
    let pp = crate::field::p();
    let c = (1 - t) % pp;
    assert(f_mul(f_sub(1, t), f_sub(x, u)) == ((1 - t) * (x - u)) % pp) by {
        vstd::arithmetic::div_mod::lemma_mul_mod_noop_right(c, x - u, pp);
        vstd::arithmetic::div_mod::lemma_mul_mod_noop_left(1 - t, x - u, pp);
        vstd::arithmetic::div_mod::lemma_mod_twice(1 - t, pp);
    }
    assert(f_mul(t, f_sub(y, w)) == (t * (y - w)) % pp) by {
        vstd::arithmetic::div_mod::lemma_mul_mod_noop_right(t, y - w, pp);
    }
    assert(f_add(f_mul(f_sub(1, t), f_sub(x, u)), f_mul(t, f_sub(y, w))) == ((1 - t) * (x - u) + t
        * (y - w)) % pp) by {
        vstd::arithmetic::div_mod::lemma_add_mod_noop((1 - t) * (x - u), t * (y - w), pp);
    }
    assert(f_mul(f_sub(1, t), x) == ((1 - t) * x) % pp) by {
        vstd::arithmetic::div_mod::lemma_mul_mod_noop_right(c, x, pp);
        vstd::arithmetic::div_mod::lemma_mul_mod_noop_left(1 - t, x, pp);
        vstd::arithmetic::div_mod::lemma_mod_twice(1 - t, pp);
    }
    assert(f_mul(f_sub(1, t), u) == ((1 - t) * u) % pp) by {
        vstd::arithmetic::div_mod::lemma_mul_mod_noop_right(c, u, pp);
        vstd::arithmetic::div_mod::lemma_mul_mod_noop_left(1 - t, u, pp);
        vstd::arithmetic::div_mod::lemma_mod_twice(1 - t, pp);
    }
    assert(f_add(f_mul(f_sub(1, t), x), f_mul(t, y)) == ((1 - t) * x + t * y) % pp) by {
        vstd::arithmetic::div_mod::lemma_add_mod_noop((1 - t) * x, t * y, pp);
    }
    assert(f_add(f_mul(f_sub(1, t), u), f_mul(t, w)) == ((1 - t) * u + t * w) % pp) by {
        vstd::arithmetic::div_mod::lemma_add_mod_noop((1 - t) * u, t * w, pp);
    }
    assert(f_sub(((1 - t) * x + t * y) % pp, ((1 - t) * u + t * w) % pp) == (((1 - t) * x + t * y)
        - ((1 - t) * u + t * w)) % pp) by {
        vstd::arithmetic::div_mod::lemma_sub_mod_noop((1 - t) * x + t * y, (1 - t) * u + t * w, pp);
    }
    assert((1 - t) * (x - u) + t * (y - w) == ((1 - t) * x + t * y) - ((1 - t) * u + t * w))
        by (nonlinear_arith);
}

/// A table repeated on the left ignores the new leading variables: its
/// direct evaluation is the base table's at the remaining point.
pub proof fn lemma_mle_blow_up_left(s: Seq<int>, k: nat, pt: Seq<int>)
    requires
        s.len() >= 1,
        pt.len() == k + lg(s.len()),
        is_pow2(s.len()),
        in_field_seq(s),
    ensures
        mle_eval(blow_up_seq(BlowUpDirection::Left, k, s), pt) == mle_eval(
            s,
            pt.skip(k as int),
        ),
    decreases k,
{
    if k == 0 {
        assert(pt.skip(0) =~= pt);
    } else {
        let s2 = double_seq(BlowUpDirection::Left, s);
        assert(s2 == s + s);
        assert(s2.len() == 2 * s.len());
        assert(is_pow2(s2.len()));
        assert(lg(s2.len()) == 1 + lg(s.len())) by {
            crate::bits::lemma_pow2_lg(s.len());
            crate::bits::lemma_lg_pow2(lg(s.len()) + 1);
            vstd::arithmetic::power2::lemma_pow2_adds(1, lg(s.len()));
            vstd::arithmetic::power2::lemma2_to64();
        }
        assert forall|j: int| 0 <= j < s2.len() implies in_field(#[trigger] s2[j]) by {
            if j < s.len() {
                assert(s2[j] == s[j]);
            } else {
                assert(s2[j] == s[j - s.len()]);
            }
        }
        lemma_mle_blow_up_left(s2, (k - 1) as nat, pt);
        // one doubling step disappears at the next point coordinate
        let rest = pt.skip(k as int - 1);
        assert(rest.len() >= 1);
        let half = (s2.len() / 2) as int;
        assert(s2.take(half) =~= s);
        assert(s2.skip(half) =~= s);
        assert(rest.drop_first() =~= pt.skip(k as int));
        assert(mle_eval(s2, rest) == f_add(
            f_mul(f_sub(1, rest[0]), mle_eval(s, rest.drop_first())),
            f_mul(rest[0], mle_eval(s, rest.drop_first())),
        )) by {
            crate::bits::lemma_pow2_lg(s.len());
        }
        lemma_convex_collapse(rest[0], mle_eval(s, rest.drop_first()));
    }
}

/// `(1 − t)·x + t·x ≡ x (mod p())` for canonical `x`.
proof fn lemma_convex_collapse(t: int, x: int)
    requires
        in_field(x),
    ensures
        f_add(f_mul(f_sub(1, t), x), f_mul(t, x)) == x,
{
    let pp = crate::field::p();
    assert(f_mul(f_sub(1, t), x) == ((1 - t) * x) % pp) by {
        vstd::arithmetic::div_mod::lemma_mul_mod_noop_left(1 - t, x, pp);
        vstd::arithmetic::div_mod::lemma_mod_twice(1 - t, pp);
    }
    assert(f_add(((1 - t) * x) % pp, (t * x) % pp) == ((1 - t) * x + t * x) % pp) by {
        vstd::arithmetic::div_mod::lemma_add_mod_noop((1 - t) * x, t * x, pp);
        vstd::arithmetic::div_mod::lemma_mod_twice((1 - t) * x, pp);
        vstd::arithmetic::div_mod::lemma_mod_twice(t * x, pp);
    }
    assert((1 - t) * x + t * x == x) by (nonlinear_arith);
    vstd::arithmetic::div_mod::lemma_small_mod(x as nat, pp as nat);
}

/// One division step, seen by the direct evaluation: the table's value at
/// `(t, rest)` splits into the slope times `t − a` plus the remainder's
/// value at `rest`.
pub proof fn lemma_mle_divide_step(s: Seq<int>, a: int, pt: Seq<int>)
    requires
        is_pow2(s.len()),
        s.len() >= 2,
        in_field_seq(s),
        pt.len() == lg(s.len()),
        pt.len() >= 1,
    ensures
        mle_eval(s, pt) == f_add(
            f_mul(f_sub(pt[0], a), mle_eval(quotient_seq(s, 0), pt.drop_first())),
            f_mul(1, mle_eval(partial_eval(s, 0, a), pt.drop_first())),
        ),
{
    let pp = crate::field::p();
    let half = (s.len() / 2) as int;
    let lo = s.take(half);
    let hi = s.skip(half);
    let rest = pt.drop_first();
    assert(lg(s.len()) >= 1);
    // the quotient is the pointwise difference of the halves, the
    // remainder their pairwise combination
    assert forall|j: int| 0 <= j < half implies #[trigger] quotient_seq(s, 0)[j] == sub_tables(
        hi,
        lo,
    )[j] by {
        lemma_leading_pair_indices(s, j);
    }
    assert(quotient_seq(s, 0) =~= sub_tables(hi, lo));
    lemma_partial_evaluate_leading_mix(s, a);
    assert(partial_eval(s, 0, a) =~= mix_tables(lo, hi, a));
    assert(lo.len() == pow2(rest.len()) && hi.len() == pow2(rest.len())) by {
        crate::bits::lemma_pow2_lg(s.len());
        vstd::arithmetic::power2::lemma_pow2_adds(1, (pt.len() - 1) as nat);
        vstd::arithmetic::power2::lemma2_to64();
    }
    lemma_mle_eval_sub(hi, lo, rest);
    lemma_mle_eval_linear(lo, hi, a, rest);
    let lv = mle_eval(lo, rest);
    let hv = mle_eval(hi, rest);
    assert(mle_eval(s, pt) == f_add(f_mul(f_sub(1, pt[0]), lv), f_mul(pt[0], hv)));
    lemma_divide_algebra(pt[0], a, lv, hv);
}

/// `(1 − t)·x + t·y ≡ (t − a)·(y − x) + 1·(x + a·(y − x)) (mod p())`.
proof fn lemma_divide_algebra(t: int, a: int, x: int, y: int)
    ensures
        f_add(f_mul(f_sub(1, t), x), f_mul(t, y)) == f_add(
            f_mul(f_sub(t, a), f_sub(y, x)),
            f_mul(1, f_add(x, f_mul(a, f_sub(y, x)))),
        ),
{
    let pp = crate::field::p();
    assert(f_mul(f_sub(1, t), x) == ((1 - t) * x) % pp) by {
        vstd::arithmetic::div_mod::lemma_mul_mod_noop_left(1 - t, x, pp);
        vstd::arithmetic::div_mod::lemma_mod_twice(1 - t, pp);
    }
    assert(f_add(f_mul(f_sub(1, t), x), f_mul(t, y)) == ((1 - t) * x + t * y) % pp) by {
        vstd::arithmetic::div_mod::lemma_add_mod_noop((1 - t) * x, t * y, pp);
        vstd::arithmetic::div_mod::lemma_mod_twice((1 - t) * x, pp);
        vstd::arithmetic::div_mod::lemma_mod_twice(t * y, pp);
    }
    assert(f_mul(f_sub(t, a), f_sub(y, x)) == ((t - a) * (y - x)) % pp) by {
        vstd::arithmetic::div_mod::lemma_mul_mod_noop(t - a, y - x, pp);
    }
    assert(f_mul(a, f_sub(y, x)) == (a * (y - x)) % pp) by {
        vstd::arithmetic::div_mod::lemma_mul_mod_noop_right(a, y - x, pp);
    }
    assert(f_add(x, f_mul(a, f_sub(y, x))) == (x + a * (y - x)) % pp) by {
        vstd::arithmetic::div_mod::lemma_add_mod_noop_right(x, a * (y - x), pp);
    }
    assert(f_mul(1, f_add(x, f_mul(a, f_sub(y, x)))) == (x + a * (y - x)) % pp) by {
        vstd::arithmetic::div_mod::lemma_mod_twice(x + a * (y - x), pp);
        assert(1 * ((x + a * (y - x)) % pp) == (x + a * (y - x)) % pp) by (nonlinear_arith);
    }
    assert(f_add(
        f_mul(f_sub(t, a), f_sub(y, x)),
        f_mul(1, f_add(x, f_mul(a, f_sub(y, x)))),
    ) == ((t - a) * (y - x) + (x + a * (y - x))) % pp) by {
        vstd::arithmetic::div_mod::lemma_add_mod_noop((t - a) * (y - x), x + a * (y - x), pp);
        vstd::arithmetic::div_mod::lemma_mod_twice((t - a) * (y - x), pp);
        vstd::arithmetic::div_mod::lemma_mod_twice(x + a * (y - x), pp);
    }
    assert((1 - t) * x + t * y == (t - a) * (y - x) + (x + a * (y - x))) by (nonlinear_arith);
}

/// Fixing the leading variable is the pairwise combination of the halves
/// (restated here over `mix_tables`).
proof fn lemma_partial_evaluate_leading_mix(s: Seq<int>, a: int)
    requires
        is_pow2(s.len()),
        s.len() >= 2,
        lg(s.len()) >= 1,
    ensures
        partial_eval(s, 0, a) == mix_tables(
            s.take((s.len() / 2) as int),
            s.skip((s.len() / 2) as int),
            a,
        ),
{
    let half = (s.len() / 2) as int;
    assert forall|k: int| 0 <= k < half implies #[trigger] partial_eval(s, 0, a)[k] == mix_tables(
        s.take(half),
        s.skip(half),
        a,
    )[k] by {
        lemma_leading_pair_indices(s, k);
    }
    assert(partial_eval(s, 0, a) =~= mix_tables(s.take(half), s.skip(half), a));
}

} // verus!

