use vstd::prelude::*;
use crate::errors::Error;
use crate::field::{
    FieldElement, f_add, f_sub, f_mul, f_inv, in_field, in_field_seq, vals, elems_to_bytes,
    fe_add, fe_sub, fe_mul, fe_to_bytes, fe_from_u64, lemma_add_zero, lemma_sub_nonzero,
    lemma_view_injective,
};
use crate::multilinear::scale_seq;

verus! {

/// Exponentiation modulo `p()`.
pub open spec fn pow_mod(x: int, e: nat) -> int
    decreases e,
{
    if e == 0 {
        1
    } else {
        f_mul(x, pow_mod(x, (e - 1) as nat))
    }
}

/// The value of the dense-coefficient polynomial `s` at `x`:
/// `Σ s[i] · x^i (mod p())`.
pub open spec fn poly_eval(s: Seq<int>, x: int) -> int
    decreases s.len(),
{
    if s.len() == 0 {
        0
    } else {
        f_add(poly_eval(s.drop_last(), x), f_mul(s.last(), pow_mod(x, (s.len() - 1) as nat)))
    }
}

/// Coefficient-wise sum; the result has the longer length, missing
/// coefficients count as zero.
pub open spec fn padd(a: Seq<int>, b: Seq<int>) -> Seq<int> {
    Seq::new(
        if a.len() >= b.len() {
            a.len()
        } else {
            b.len()
        },
        |i: int|
            f_add(
                if i < a.len() {
                    a[i]
                } else {
                    0
                },
                if i < b.len() {
                    b[i]
                } else {
                    0
                },
            ),
    )
}

/// The `i`-th term of the convolution at output index `k`.
pub open spec fn conv_term(a: Seq<int>, b: Seq<int>, k: int, i: int) -> int {
    if 0 <= k - i < b.len() {
        f_mul(a[i], b[k - i])
    } else {
        0
    }
}

/// The convolution at output index `k`, summed over the first `n` terms.
pub open spec fn conv_partial(a: Seq<int>, b: Seq<int>, k: int, n: nat) -> int
    decreases n,
{
    if n == 0 {
        0
    } else {
        f_add(conv_partial(a, b, k, (n - 1) as nat), conv_term(a, b, k, n - 1))
    }
}

/// Dense polynomial product; empty factors give the empty (zero) polynomial.
pub open spec fn pmul(a: Seq<int>, b: Seq<int>) -> Seq<int> {
    if a.len() == 0 || b.len() == 0 {
        Seq::<int>::empty()
    } else {
        Seq::new((a.len() + b.len() - 1) as nat, |k: int| conv_partial(a, b, k, a.len()))
    }
}

/// No two entries are equal.
pub open spec fn distinct(s: Seq<int>) -> bool {
    forall|i: int, j: int| #![trigger s[i], s[j]] 0 <= i < j < s.len() ==> s[i] != s[j]
}

/// The running Lagrange numerator for base point `i`: the product of
/// `(x − xs[j])` over `j < upto`, `j != i`.
pub open spec fn lag_num(xs: Seq<int>, i: int, upto: nat) -> Seq<int>
    decreases upto,
{
    if upto == 0 {
        seq![1int]
    } else if upto - 1 == i {
        lag_num(xs, i, (upto - 1) as nat)
    } else {
        pmul(lag_num(xs, i, (upto - 1) as nat), seq![f_sub(0, xs[upto - 1]), 1int])
    }
}

/// The running Lagrange denominator for base point `i`: the product of
/// `xs[i] − xs[j]` over `j < upto`, `j != i`.
pub open spec fn lag_den(xs: Seq<int>, i: int, upto: nat) -> int
    decreases upto,
{
    if upto == 0 {
        1
    } else if upto - 1 == i {
        lag_den(xs, i, (upto - 1) as nat)
    } else {
        f_mul(lag_den(xs, i, (upto - 1) as nat), f_sub(xs[i], xs[upto - 1]))
    }
}

/// The all-zero coefficient vector of length `n`.
pub open spec fn zero_poly(n: nat) -> Seq<int> {
    Seq::new(n, |i: int| 0int)
}

/// The partial Lagrange interpolation: the sum over base points `i < upto`
/// of the numerator scaled by `ys[i] / denominator`.
pub open spec fn lag_sum(xs: Seq<int>, ys: Seq<int>, upto: nat) -> Seq<int>
    decreases upto,
{
    if upto == 0 {
        zero_poly(xs.len())
    } else {
        padd(
            lag_sum(xs, ys, (upto - 1) as nat),
            scale_seq(
                lag_num(xs, upto - 1, xs.len()),
                f_mul(ys[upto - 1], f_inv(lag_den(xs, upto - 1, xs.len()))),
            ),
        )
    }
}

/// The Lagrange interpolation of the points `(xs[i], ys[i])`.
pub open spec fn interp(xs: Seq<int>, ys: Seq<int>) -> Seq<int> {
    lag_sum(xs, ys, xs.len())
}

/// A univariate polynomial in dense coefficient form: entry `i` is the
/// coefficient of `x^i`.
#[derive(Clone, Debug, PartialEq, Eq)]
pub struct UnivariatePolynomial {
    pub coefficients: Vec<FieldElement>,
}

impl View for UnivariatePolynomial {
    type V = Seq<int>;

    open spec fn view(&self) -> Seq<int> {
        vals(self.coefficients@)
    }
}

impl UnivariatePolynomial {
    /// All coefficients are canonical field values.
    pub open spec fn wf(&self) -> bool {
        in_field_seq(self@)
    }

    /// Wraps a coefficient vector.
    pub fn new(coefficients: Vec<FieldElement>) -> (r: Self)
        requires
            in_field_seq(vals(coefficients@)),
        ensures
            r@ == vals(coefficients@),
            r.wf(),
    {
        UnivariatePolynomial { coefficients }
    }

    /// Evaluates the polynomial at `x` with a running power.
    pub fn evaluate(&self, x: &FieldElement) -> (r: FieldElement)
        requires
            self.wf(),
            in_field(x@),
        ensures
            in_field(r@),
            r@ == poly_eval(self@, x@),
    {
        let len = self.coefficients.len();
        let mut result = fe_from_u64(0);
        let mut running_x = fe_from_u64(1);
        let mut i: usize = 0;
        while i < len
            invariant
                self.wf(),
                in_field(x@),
                i <= len,
                len == self@.len(),
                in_field(result@),
                in_field(running_x@),
                result@ == poly_eval(self@.take(i as int), x@),
                running_x@ == pow_mod(x@, i as nat),
            decreases len - i,
        {
            proof {
                assert(self@.take(i + 1).drop_last() =~= self@.take(i as int));
                assert(self@[i as int] == self.coefficients@[i as int]@);
                assert(in_field(self@[i as int]));
            }
            result = fe_add(&result, &fe_mul(&self.coefficients[i], &running_x));
            proof {
                assert(f_mul(running_x@, x@) == f_mul(x@, running_x@)) by {
                    assert(running_x@ * x@ == x@ * running_x@) by (nonlinear_arith);
                }
            }
            running_x = fe_mul(&running_x, x);
            i = i + 1;
        }
        proof {
            assert(self@.take(len as int) =~= self@);
        }
        result
    }

    /// The sum of the evaluations at 0 and 1.
    pub fn evaluate_sum_over_boolean_hypercube(&self) -> (r: FieldElement)
        requires
            self.wf(),
        ensures
            in_field(r@),
            r@ == f_add(poly_eval(self@, 0), poly_eval(self@, 1)),
    {
        let at0 = self.evaluate(&fe_from_u64(0));
        let at1 = self.evaluate(&fe_from_u64(1));
        fe_add(&at0, &at1)
    }

    /// Multiplies every coefficient by `num`.
    pub fn scalar_mul(&self, num: &FieldElement) -> (r: Self)
        requires
            self.wf(),
            in_field(num@),
        ensures
            r@ == scale_seq(self@, num@),
            r.wf(),
            r@.len() == self@.len(),
    {
        let len = self.coefficients.len();
        let mut out: Vec<FieldElement> = Vec::new();
        let mut i: usize = 0;
        while i < len
            invariant
                self.wf(),
                in_field(num@),
                i <= len,
                len == self@.len(),
                out@.len() == i,
                forall|j: int| 0 <= j < i ==> (#[trigger] out@[j])@ == f_mul(self@[j], num@),
            decreases len - i,
        {
            proof {
                assert(self@[i as int] == self.coefficients@[i as int]@);
                assert(in_field(self@[i as int]));
            }
            let v = fe_mul(&self.coefficients[i], num);
            out.push(v);
            proof {
                assert(out@[i as int] == v);
            }
            i = i + 1;
        }
        proof {
            assert forall|j: int| 0 <= j < len implies vals(out@)[j] == scale_seq(self@, num@)[j] by {
                assert(vals(out@)[j] == out@[j]@);
            }
            assert(vals(out@) =~= scale_seq(self@, num@));
        }
        UnivariatePolynomial { coefficients: out }
    }

    /// Coefficient-wise sum; the shorter polynomial is padded with zeros.
    pub fn _add(&self, p2: &Self) -> (r: Self)
        requires
            self.wf(),
            p2.wf(),
        ensures
            r@ == padd(self@, p2@),
            r.wf(),
    {
        let len_1 = self.coefficients.len();
        let len_2 = p2.coefficients.len();
        let max_len = if len_1 >= len_2 {
            len_1
        } else {
            len_2
        };
        let mut out: Vec<FieldElement> = Vec::new();
        let mut i: usize = 0;
        while i < max_len
            invariant
                self.wf(),
                p2.wf(),
                i <= max_len,
                len_1 == self@.len(),
                len_2 == p2@.len(),
                max_len == if len_1 >= len_2 {
                    len_1
                } else {
                    len_2
                },
                out@.len() == i,
                forall|j: int| 0 <= j < i ==> (#[trigger] out@[j])@ == padd(self@, p2@)[j],
            decreases max_len - i,
        {
            let a = if i < len_1 {
                proof {
                    assert(self@[i as int] == self.coefficients@[i as int]@);
                    assert(in_field(self@[i as int]));
                }
                self.coefficients[i]
            } else {
                fe_from_u64(0)
            };
            let b = if i < len_2 {
                proof {
                    assert(p2@[i as int] == p2.coefficients@[i as int]@);
                    assert(in_field(p2@[i as int]));
                }
                p2.coefficients[i]
            } else {
                fe_from_u64(0)
            };
            let v = fe_add(&a, &b);
            out.push(v);
            proof {
                assert(out@[i as int] == v);
            }
            i = i + 1;
        }
        proof {
            assert forall|j: int| 0 <= j < max_len implies vals(out@)[j] == padd(self@, p2@)[j] by {
                assert(vals(out@)[j] == out@[j]@);
            }
            assert(vals(out@) =~= padd(self@, p2@));
        }
        UnivariatePolynomial { coefficients: out }
    }

    /// Dense polynomial product by convolution.
    pub fn _mul(&self, p2: &Self) -> (r: Self)
        requires
            self.wf(),
            p2.wf(),
            self@.len() + p2@.len() <= usize::MAX,
        ensures
            r@ == pmul(self@, p2@),
            r.wf(),
    {
        let len_1 = self.coefficients.len();
        let len_2 = p2.coefficients.len();
        if len_1 == 0 || len_2 == 0 {
            proof {
                assert(vals(Seq::<FieldElement>::empty()) =~= pmul(self@, p2@));
            }
            return UnivariatePolynomial { coefficients: Vec::new() };
        }
        let total = len_1 + len_2 - 1;
        let mut out: Vec<FieldElement> = Vec::new();
        let mut k: usize = 0;
        while k < total
            invariant
                self.wf(),
                p2.wf(),
                len_1 == self@.len(),
                len_2 == p2@.len(),
                len_1 >= 1,
                len_2 >= 1,
                total == len_1 + len_2 - 1,
                k <= total,
                out@.len() == k,
                forall|j: int| 0 <= j < k ==> (#[trigger] out@[j])@ == pmul(self@, p2@)[j],
            decreases total - k,
        {
            let mut acc = fe_from_u64(0);
            let mut i: usize = 0;
            while i < len_1
                invariant
                    self.wf(),
                    p2.wf(),
                    len_1 == self@.len(),
                    len_2 == p2@.len(),
                    i <= len_1,
                    in_field(acc@),
                    acc@ == conv_partial(self@, p2@, k as int, i as nat),
                decreases len_1 - i,
            {
                if k >= i && k - i < len_2 {
                    proof {
                        assert(self@[i as int] == self.coefficients@[i as int]@);
                        assert(p2@[k - i] == p2.coefficients@[(k - i) as int]@);
                        assert(in_field(self@[i as int]) && in_field(p2@[k - i]));
                    }
                    acc = fe_add(&acc, &fe_mul(&self.coefficients[i], &p2.coefficients[k - i]));
                } else {
                    proof {
                        assert(conv_term(self@, p2@, k as int, i as int) == 0);
                        lemma_add_zero(acc@);
                    }
                }
                i = i + 1;
            }
            out.push(acc);
            proof {
                assert(out@[k as int] == acc);
            }
            k = k + 1;
        }
        proof {
            assert forall|j: int| 0 <= j < total implies vals(out@)[j] == pmul(self@, p2@)[j] by {
                assert(vals(out@)[j] == out@[j]@);
            }
            assert(vals(out@) =~= pmul(self@, p2@));
        }
        UnivariatePolynomial { coefficients: out }
    }

    /// The concatenated little-endian encodings of the coefficients.
    pub fn to_bytes(&self) -> (r: Vec<u8>)
        requires
            self.wf(),
        ensures
            r@ == elems_to_bytes(self@),
    {
        let len = self.coefficients.len();
        let mut out: Vec<u8> = Vec::new();
        let mut i: usize = 0;
        while i < len
            invariant
                self.wf(),
                i <= len,
                len == self@.len(),
                out@ == elems_to_bytes(self@.take(i as int)),
            decreases len - i,
        {
            proof {
                assert(self@.take(i + 1).drop_last() =~= self@.take(i as int));
                assert(self@[i as int] == self.coefficients@[i as int]@);
                assert(in_field(self@[i as int]));
            }
            let mut bytes = fe_to_bytes(&self.coefficients[i]);
            out.append(&mut bytes);
            i = i + 1;
        }
        proof {
            assert(self@.take(len as int) =~= self@);
        }
        out
    }

    /// Lagrange interpolation through the points `(x_points[i], y_points[i])`.
    /// The sample points must be pairwise distinct.
    pub fn interpolate(x_points: &[FieldElement], y_points: &[FieldElement]) -> (res: Result<
        Self,
        Error,
    >)
        requires
            in_field_seq(vals(x_points@)),
            in_field_seq(vals(y_points@)),
            x_points@.len() <= usize::MAX - 2,
        ensures
            res is Ok <==> x_points@.len() == y_points@.len() && distinct(vals(x_points@)),
            res is Ok ==> res->Ok_0@ == interp(vals(x_points@), vals(y_points@))
                && res->Ok_0.wf() && inverses_exist(vals(x_points@)),
            res is Err ==> (res->Err_0 == Error::LengthMismatch && x_points@.len()
                != y_points@.len()) || (res->Err_0 == Error::InvalidProof && x_points@.len()
                == y_points@.len() && !distinct(vals(x_points@))),
    {
        let n = x_points.len();
        if n != y_points.len() {
            return Err(Error::LengthMismatch);
        }
        let ghost xsv = vals(x_points@);
        let ghost ysv = vals(y_points@);
        // reject duplicate sample points
        let mut i: usize = 0;
        while i < n
            invariant
                n == x_points@.len(),
                n == y_points@.len(),
                in_field_seq(xsv),
                xsv == vals(x_points@),
                i <= n,
                forall|a: int, b: int|
                    #![trigger xsv[a], xsv[b]]
                    0 <= a < b < n && a < i ==> xsv[a] != xsv[b],
            decreases n - i,
        {
            let mut j: usize = i + 1;
            while j < n
                invariant
                    n == x_points@.len(),
                    n == y_points@.len(),
                    in_field_seq(xsv),
                    xsv == vals(x_points@),
                    i < n,
                    i + 1 <= j <= n,
                    forall|b: int| i < b < j ==> xsv[i as int] != #[trigger] xsv[b],
                decreases n - j,
            {
                proof {
                    assert(xsv[i as int] == x_points@[i as int]@);
                    assert(xsv[j as int] == x_points@[j as int]@);
                }
                if x_points[i] == x_points[j] {
                    proof {
                        assert(xsv[i as int] == xsv[j as int]);
                        assert(!distinct(xsv));
                    }
                    return Err(Error::InvalidProof);
                }
                proof {
                    if xsv[i as int] == xsv[j as int] {
                        lemma_view_injective(x_points@[i as int], x_points@[j as int]);
                    }
                }
                j = j + 1;
            }
            i = i + 1;
        }
        assert(distinct(xsv));
        // accumulate the scaled Lagrange numerators
        let mut res_coeffs: Vec<FieldElement> = Vec::new();
        let mut z: usize = 0;
        while z < n
            invariant
                z <= n,
                res_coeffs@.len() == z,
                forall|j: int| 0 <= j < z ==> (#[trigger] res_coeffs@[j])@ == 0,
            decreases n - z,
        {
            let v = fe_from_u64(0);
            res_coeffs.push(v);
            proof {
                assert(res_coeffs@[z as int] == v);
            }
            z = z + 1;
        }
        let mut res = UnivariatePolynomial { coefficients: res_coeffs };
        proof {
            assert forall|j: int| 0 <= j < n implies vals(res.coefficients@)[j] == zero_poly(
                n as nat,
            )[j] by {
                assert(vals(res.coefficients@)[j] == res.coefficients@[j]@);
            }
            assert(res@ =~= zero_poly(n as nat));
        }
        let mut i2: usize = 0;
        while i2 < n
            invariant
                n == x_points@.len(),
                n == y_points@.len(),
                n <= usize::MAX - 2,
                xsv == vals(x_points@),
                ysv == vals(y_points@),
                in_field_seq(xsv),
                in_field_seq(ysv),
                distinct(xsv),
                i2 <= n,
                res.wf(),
                res@.len() == n,
                res@ == lag_sum(xsv, ysv, i2 as nat),
                forall|i: int|
                    0 <= i < i2 ==> exists|w: int|
                        in_field(w) && f_mul(#[trigger] lag_den(xsv, i, xsv.len()), w) == 1,
            decreases n - i2,
        {
            let mut denominator = fe_from_u64(1);
            let one = fe_from_u64(1);
            let mut num_coeffs: Vec<FieldElement> = Vec::new();
            num_coeffs.push(one);
            let mut numerator = UnivariatePolynomial { coefficients: num_coeffs };
            proof {
                assert(numerator@ =~= lag_num(xsv, i2 as int, 0));
            }
            let mut j: usize = 0;
            while j < n
                invariant
                    n == x_points@.len(),
                    n <= usize::MAX - 2,
                    xsv == vals(x_points@),
                    in_field_seq(xsv),
                    distinct(xsv),
                    one@ == 1,
                    i2 < n,
                    j <= n,
                    numerator.wf(),
                    numerator@ == lag_num(xsv, i2 as int, j as nat),
                    numerator@.len() == if (i2 as int) < (j as int) {
                        j as int
                    } else {
                        j + 1
                    },
                    in_field(denominator@),
                    denominator@ == lag_den(xsv, i2 as int, j as nat),
                    denominator@ != 0,
                decreases n - j,
            {
                if i2 != j {
                    proof {
                        assert(xsv[j as int] == x_points@[j as int]@);
                        assert(xsv[i2 as int] == x_points@[i2 as int]@);
                        assert(in_field(xsv[j as int]) && in_field(xsv[i2 as int]));
                        if i2 < j {
                            assert(xsv[i2 as int] != xsv[j as int]);
                        } else {
                            assert(xsv[j as int] != xsv[i2 as int]);
                        }
                        lemma_sub_nonzero(xsv[i2 as int], xsv[j as int]);
                    }
                    let zero = fe_from_u64(0);
                    let neg_xj = fe_sub(&zero, &x_points[j]);
                    let mut int_coeffs: Vec<FieldElement> = Vec::new();
                    int_coeffs.push(neg_xj);
                    int_coeffs.push(one);
                    let int_poly = UnivariatePolynomial { coefficients: int_coeffs };
                    proof {
                        assert(int_poly.coefficients@[0] == neg_xj);
                        assert(int_poly.coefficients@[1] == one);
                        assert(vals(int_poly.coefficients@)[0] == neg_xj@);
                        assert(vals(int_poly.coefficients@)[1] == one@);
                        assert(int_poly@ =~= seq![f_sub(0, xsv[j as int]), 1int]);
                        assert(numerator@.len() <= n);
                    }
                    denominator = fe_mul(&denominator, &fe_sub(&x_points[i2], &x_points[j]));
                    numerator = numerator._mul(&int_poly);
                }
                j = j + 1;
            }
            let inv = match denominator.inverse() {
                Some(v) => v,
                None => {
                    proof {
                        assert(false);
                    }
                    return Err(Error::InvalidProof);
                },
            };
            proof {
                assert(ysv[i2 as int] == y_points@[i2 as int]@);
                assert(in_field(ysv[i2 as int]));
                assert(denominator@ == lag_den(xsv, i2 as int, xsv.len()));
                assert(in_field(inv@) && f_mul(lag_den(xsv, i2 as int, xsv.len()), inv@) == 1);
                assert(exists|w: int|
                    in_field(w) && f_mul(lag_den(xsv, i2 as int, xsv.len()), w) == 1);
            }
            let coef = fe_mul(&y_points[i2], &inv);
            let term = numerator.scalar_mul(&coef);
            let new_res = res._add(&term);
            proof {
                assert(padd(res@, term@) =~= lag_sum(xsv, ysv, (i2 + 1) as nat));
            }
            res = new_res;
            i2 = i2 + 1;
        }
        Ok(res)
    }
}

/// The value of a two-coefficient polynomial: `a + b·x (mod p())`.
pub proof fn lemma_poly_eval_two(a: int, b: int, x: int)
    requires
        in_field(a),
        in_field(b),
        in_field(x),
    ensures
        poly_eval(seq![a, b], x) == f_add(a, f_mul(b, x)),
        poly_eval(seq![a, b], 0) == a,
{
    let pp = crate::field::p();
    let s = seq![a, b];
    reveal_with_fuel(pow_mod, 3);
    reveal_with_fuel(poly_eval, 3);
    assert(s.drop_last() =~= seq![a]);
    assert(seq![a].drop_last() =~= Seq::<int>::empty());
    assert(pow_mod(x, 1) == f_mul(x, 1));
    assert(f_mul(x, 1) == x) by {
        vstd::arithmetic::div_mod::lemma_small_mod(x as nat, pp as nat);
    }
    assert(f_mul(a, 1) == a) by {
        vstd::arithmetic::div_mod::lemma_small_mod(a as nat, pp as nat);
    }
    assert(poly_eval(seq![a], x) == f_add(0, f_mul(a, pow_mod(x, 0))));
    crate::field::lemma_add_zero(a);
    assert((0 + a) % pp == a % pp);
    assert(poly_eval(seq![a], x) == a) by {
        vstd::arithmetic::div_mod::lemma_small_mod(a as nat, pp as nat);
    }
    assert(poly_eval(s, x) == f_add(a, f_mul(b, x)));
    // at zero the linear term vanishes
    assert(f_mul(b, 0) == 0) by {
        vstd::arithmetic::div_mod::lemma_small_mod(0nat, pp as nat);
    }
    assert(poly_eval(s, 0) == f_add(a, 0));
    crate::field::lemma_add_zero(a);
}

/// Interpolation through `(0, y0)` and `(1, y1)` yields the line
/// `y0 + (y1 − y0)·x` in coefficient form.
pub proof fn lemma_interp_two(y0: int, y1: int)
    requires
        in_field(y0),
        in_field(y1),
    ensures
        interp(seq![0int, 1int], seq![y0, y1]) == seq![y0, f_sub(y1, y0)],
{
    let pp = crate::field::p();
    let xs = seq![0int, 1int];
    let ys = seq![y0, y1];
    reveal_with_fuel(lag_num, 4);
    reveal_with_fuel(lag_den, 4);
    reveal_with_fuel(lag_sum, 4);
    reveal_with_fuel(conv_partial, 3);
    let m1 = f_sub(0, 1);
    assert(m1 == pp - 1) by {
        vstd::arithmetic::div_mod::lemma_mod_add_multiples_vanish(-1, pp);
        vstd::arithmetic::div_mod::lemma_small_mod((pp - 1) as nat, pp as nat);
    }
    // the numerator and denominator for base point 0
    assert(lag_num(xs, 0, 0) == seq![1int]);
    assert(lag_num(xs, 0, 1) == lag_num(xs, 0, 0));
    assert(lag_num(xs, 0, 2) == pmul(seq![1int], seq![f_sub(0, 1), 1int]));
    let num0 = pmul(seq![1int], seq![m1, 1int]);
    assert(num0.len() == 2);
    assert(conv_partial(seq![1int], seq![m1, 1int], 0, 1) == f_add(
        0,
        conv_term(seq![1int], seq![m1, 1int], 0, 0),
    ));
    assert(conv_term(seq![1int], seq![m1, 1int], 0, 0) == f_mul(1, m1));
    assert(conv_term(seq![1int], seq![m1, 1int], 1, 0) == f_mul(1, 1));
    assert(f_mul(1, m1) == m1) by {
        vstd::arithmetic::div_mod::lemma_small_mod(m1 as nat, pp as nat);
    }
    assert(f_mul(1, 1) == 1) by {
        vstd::arithmetic::div_mod::lemma_small_mod(1nat, pp as nat);
    }
    crate::field::lemma_add_zero(m1);
    crate::field::lemma_add_zero(1);
    assert(num0 =~= seq![m1, 1int]);
    assert(lag_den(xs, 0, 2) == f_mul(lag_den(xs, 0, 1), f_sub(0, 1)));
    assert(lag_den(xs, 0, 1) == 1);
    assert(f_mul(1, m1) == m1);
    assert(lag_den(xs, 0, 2) == m1);
    // the inverse of −1 is −1
    assert((pp - 1) * (pp - 1) == pp * (pp - 2) + 1) by (nonlinear_arith);
    assert(f_mul(m1, m1) == 1) by {
        vstd::arithmetic::div_mod::lemma_mod_multiples_vanish(pp - 2, 1, pp);
        vstd::arithmetic::div_mod::lemma_small_mod(1nat, pp as nat);
    }
    crate::field::lemma_inverse_unique(m1, m1);
    assert(f_inv(m1) == m1);
    // the numerator and denominator for base point 1
    assert(lag_num(xs, 1, 2) == lag_num(xs, 1, 1));
    assert(lag_num(xs, 1, 1) == pmul(seq![1int], seq![f_sub(0, 0), 1int]));
    assert(f_sub(0, 0) == 0) by {
        vstd::arithmetic::div_mod::lemma_small_mod(0nat, pp as nat);
    }
    let num1 = pmul(seq![1int], seq![0int, 1int]);
    assert(conv_term(seq![1int], seq![0int, 1int], 0, 0) == f_mul(1, 0));
    assert(conv_term(seq![1int], seq![0int, 1int], 1, 0) == f_mul(1, 1));
    assert(f_mul(1, 0) == 0) by {
        vstd::arithmetic::div_mod::lemma_small_mod(0nat, pp as nat);
    }
    crate::field::lemma_add_zero(0);
    assert(num1 =~= seq![0int, 1int]);
    assert(lag_den(xs, 1, 2) == lag_den(xs, 1, 1));
    assert(lag_den(xs, 1, 1) == f_mul(1, f_sub(1, 0)));
    assert(f_sub(1, 0) == 1) by {
        vstd::arithmetic::div_mod::lemma_small_mod(1nat, pp as nat);
    }
    assert(lag_den(xs, 1, 2) == 1);
    assert(f_mul(1, 1) == 1);
    crate::field::lemma_inverse_unique(1, 1);
    assert(f_inv(1int) == 1);
    // the scaled basis polynomials
    let c0 = f_mul(y0, m1);
    let b0 = scale_seq(num0, c0);
    assert(b0.len() == 2);
    assert(b0[0] == f_mul(m1, c0));
    assert(b0[1] == f_mul(1, c0));
    assert(f_mul(m1, c0) == y0) by {
        crate::field::lemma_mul_assoc_mod(m1, y0, m1);
        // m1·(y0·m1) == y0·(m1·m1) == y0
        assert(m1 * y0 == y0 * m1) by (nonlinear_arith);
        crate::field::lemma_mul_assoc_mod(y0, m1, m1);
        assert(f_mul(f_mul(m1, y0), m1) == f_mul(f_mul(y0, m1), m1));
        assert(f_mul(y0, f_mul(m1, m1)) == f_mul(y0, 1));
        vstd::arithmetic::div_mod::lemma_small_mod(y0 as nat, pp as nat);
    }
    assert(f_mul(1, c0) == c0) by {
        vstd::arithmetic::div_mod::lemma_small_mod(c0 as nat, pp as nat);
    }
    let c1 = f_mul(y1, f_inv(lag_den(xs, 1, 2)));
    assert(c1 == f_mul(y1, 1));
    assert(c1 == y1) by {
        vstd::arithmetic::div_mod::lemma_small_mod(y1 as nat, pp as nat);
    }
    let b1 = scale_seq(num1, c1);
    assert(b1[0] == f_mul(0, y1));
    assert(b1[1] == f_mul(1, y1));
    assert(f_mul(0, y1) == 0) by {
        vstd::arithmetic::div_mod::lemma_small_mod(0nat, pp as nat);
    }
    assert(f_mul(1, y1) == y1) by {
        vstd::arithmetic::div_mod::lemma_small_mod(y1 as nat, pp as nat);
    }
    // assemble the partial sums
    assert(lag_sum(xs, ys, 0) == zero_poly(2));
    assert(lag_sum(xs, ys, 1) == padd(zero_poly(2), b0));
    assert(lag_sum(xs, ys, 2) == padd(lag_sum(xs, ys, 1), b1));
    let s1 = padd(zero_poly(2), b0);
    assert(s1.len() == 2);
    assert(s1[0] == f_add(0, y0));
    assert(s1[1] == f_add(0, c0));
    crate::field::lemma_add_zero(y0);
    crate::field::lemma_add_zero(c0);
    let s2 = padd(s1, b1);
    assert(s2.len() == 2);
    assert(s2[0] == f_add(y0, 0));
    assert(s2[1] == f_add(c0, y1));
    crate::field::lemma_add_zero(y0);
    // y0·(p − 1) ≡ −y0, so the linear coefficient is y1 − y0
    assert(y0 * (pp - 1) == pp * y0 + (0 - y0)) by (nonlinear_arith);
    assert(c0 == (0 - y0) % pp) by {
        vstd::arithmetic::div_mod::lemma_mod_multiples_vanish(y0, 0 - y0, pp);
    }
    assert(f_add(c0, y1) == f_sub(y1, y0)) by {
        vstd::arithmetic::div_mod::lemma_add_mod_noop(0 - y0, y1, pp);
        vstd::arithmetic::div_mod::lemma_small_mod(y1 as nat, pp as nat);
    }
    assert(interp(xs, ys) == lag_sum(xs, ys, 2));
    assert(lag_sum(xs, ys, 2) =~= seq![y0, f_sub(y1, y0)]);
}

/// Two-point interpolation passes back through its samples: the line through
/// `(0, y0)` and `(1, y1)` takes those values there.
pub proof fn lemma_interp_two_matches_samples(y0: int, y1: int)
    requires
        in_field(y0),
        in_field(y1),
    ensures
        poly_eval(interp(seq![0int, 1int], seq![y0, y1]), 0) == y0,
        poly_eval(interp(seq![0int, 1int], seq![y0, y1]), 1) == y1,
{
    let pp = crate::field::p();
    lemma_interp_two(y0, y1);
    let d = f_sub(y1, y0);
    lemma_poly_eval_two(y0, d, 0);
    lemma_poly_eval_two(y0, d, 1);
    assert(f_mul(d, 1) == d) by {
        vstd::arithmetic::div_mod::lemma_small_mod(d as nat, pp as nat);
    }
    assert(f_add(y0, d) == y1) by {
        vstd::arithmetic::div_mod::lemma_add_mod_noop_right(y0, y1 - y0, pp);
        vstd::arithmetic::div_mod::lemma_small_mod(y1 as nat, pp as nat);
    }
}

/// The convolution prefix reads only the first `n` entries of `a`.
proof fn lemma_conv_partial_prefix(a: Seq<int>, b: Seq<int>, k: int, n: nat)
    requires
        n <= a.len() - 1,
        a.len() >= 1,
    ensures
        conv_partial(a, b, k, n) == conv_partial(a.drop_last(), b, k, n),
    decreases n,
{
    if n > 0 {
        lemma_conv_partial_prefix(a, b, k, (n - 1) as nat);
        assert(a.drop_last()[n - 1] == a[n - 1]);
    }
}

/// Beyond the top degree the convolution with a linear factor is empty.
proof fn lemma_conv_partial_high_zero(a: Seq<int>, b: Seq<int>, k: int, n: nat)
    requires
        b.len() == 2,
        k >= n + 1,
    ensures
        conv_partial(a, b, k, n) == 0,
    decreases n,
{
    if n > 0 {
        lemma_conv_partial_high_zero(a, b, k, (n - 1) as nat);
        assert(conv_term(a, b, k, n - 1) == 0);
        assert(f_add(0, 0) == 0) by {
            vstd::arithmetic::div_mod::lemma_small_mod(0nat, crate::field::p() as nat);
        }
    }
}

/// The zero polynomial evaluates to zero.
proof fn lemma_poly_eval_zero(n: nat, x: int)
    ensures
        poly_eval(zero_poly(n), x) == 0,
    decreases n,
{
    let pp = crate::field::p();
    if n > 0 {
        lemma_poly_eval_zero((n - 1) as nat, x);
        assert(zero_poly(n).drop_last() =~= zero_poly((n - 1) as nat));
        assert(f_mul(0, pow_mod(x, (n - 1) as nat)) == 0) by {
            vstd::arithmetic::div_mod::lemma_small_mod(0nat, pp as nat);
            assert(0 * pow_mod(x, (n - 1) as nat) == 0) by (nonlinear_arith);
        }
        assert(f_add(0, 0) == 0) by {
            vstd::arithmetic::div_mod::lemma_small_mod(0nat, pp as nat);
        }
    }
}

/// A single monomial `c·x^j` evaluates to just that.
proof fn lemma_poly_eval_monomial(j: nat, c: int, x: int)
    requires
        in_field(c),
    ensures
        poly_eval(zero_poly(j).push(c), x) == f_mul(c, pow_mod(x, j)),
{
    let pp = crate::field::p();
    let m = zero_poly(j).push(c);
    assert(m.drop_last() =~= zero_poly(j));
    assert(m.last() == c);
    lemma_poly_eval_zero(j, x);
    assert(poly_eval(m, x) == f_add(0, f_mul(c, pow_mod(x, j))));
    crate::field::lemma_add_zero(f_mul(c, pow_mod(x, j)));
}

/// Evaluating a coefficient-wise sum adds the evaluations.
proof fn lemma_poly_eval_padd(a: Seq<int>, b: Seq<int>, x: int)
    requires
        in_field_seq(a),
        in_field_seq(b),
    ensures
        poly_eval(padd(a, b), x) == f_add(poly_eval(a, x), poly_eval(b, x)),
    decreases a.len() + b.len(),
{
    let pp = crate::field::p();
    let s = padd(a, b);
    if a.len() == 0 && b.len() == 0 {
        assert(s.len() == 0);
        assert(f_add(0, 0) == 0) by {
            vstd::arithmetic::div_mod::lemma_small_mod(0nat, pp as nat);
        }
    } else if a.len() == b.len() {
        let ad = a.drop_last();
        let bd = b.drop_last();
        lemma_poly_eval_padd(ad, bd, x);
        assert(s.drop_last() =~= padd(ad, bd));
        assert(s.last() == f_add(a.last(), b.last()));
        let ea = poly_eval(ad, x);
        let eb = poly_eval(bd, x);
        let pw = pow_mod(x, (a.len() - 1) as nat);
        crate::field::lemma_mul_distributes(pw, a.last(), b.last());
        assert(f_mul(f_add(a.last(), b.last()), pw) == f_mul(pw, f_add(a.last(), b.last()))) by {
            assert((f_add(a.last(), b.last())) * pw == pw * (f_add(a.last(), b.last())))
                by (nonlinear_arith);
        }
        assert(f_mul(pw, a.last()) == f_mul(a.last(), pw)) by {
            assert(pw * a.last() == a.last() * pw) by (nonlinear_arith);
        }
        assert(f_mul(pw, b.last()) == f_mul(b.last(), pw)) by {
            assert(pw * b.last() == b.last() * pw) by (nonlinear_arith);
        }
        // (ea + eb) + (la·pw + lb·pw) == (ea + la·pw) + (eb + lb·pw)
        lemma_add_shuffle(ea, eb, f_mul(a.last(), pw), f_mul(b.last(), pw));
    } else if a.len() > b.len() {
        let ad = a.drop_last();
        lemma_poly_eval_padd(ad, b, x);
        assert(s.drop_last() =~= padd(ad, b));
        assert(s.last() == f_add(a.last(), 0));
        crate::field::lemma_add_zero(a.last());
        let ea = poly_eval(ad, x);
        let eb = poly_eval(b, x);
        let t = f_mul(a.last(), pow_mod(x, (a.len() - 1) as nat));
        // (ea + eb) + t == (ea + t) + eb
        crate::field::lemma_add_assoc_mod(ea, eb, t);
        crate::field::lemma_add_assoc_mod(ea, t, eb);
        assert(f_add(eb, t) == f_add(t, eb));
    } else {
        let bd = b.drop_last();
        lemma_poly_eval_padd(a, bd, x);
        assert(s.drop_last() =~= padd(a, bd));
        assert(s.last() == f_add(0, b.last()));
        crate::field::lemma_add_zero(b.last());
        assert(f_add(0, b.last()) == f_add(b.last(), 0));
        let ea = poly_eval(a, x);
        let eb = poly_eval(bd, x);
        let t = f_mul(b.last(), pow_mod(x, (b.len() - 1) as nat));
        crate::field::lemma_add_assoc_mod(ea, eb, t);
    }
}

/// Regrouping four summands modulo `p()`.
proof fn lemma_add_shuffle(a: int, b: int, c: int, d: int)
    ensures
        f_add(f_add(a, b), f_add(c, d)) == f_add(f_add(a, c), f_add(b, d)),
{
    crate::field::lemma_add_assoc_mod(f_add(a, b), c, d);
    crate::field::lemma_add_assoc_mod(a, b, c);
    assert(f_add(b, c) == f_add(c, b));
    crate::field::lemma_add_assoc_mod(a, c, b);
    crate::field::lemma_add_assoc_mod(f_add(a, c), b, d);
}

/// Evaluating a scaled polynomial scales the evaluation.
proof fn lemma_poly_eval_scale(q: Seq<int>, c: int, x: int)
    ensures
        poly_eval(scale_seq(q, c), x) == f_mul(c, poly_eval(q, x)),
    decreases q.len(),
{
    let pp = crate::field::p();
    if q.len() == 0 {
        assert(scale_seq(q, c).len() == 0);
        assert(f_mul(c, 0) == 0) by {
            assert(c * 0 == 0) by (nonlinear_arith);
            vstd::arithmetic::div_mod::lemma_small_mod(0nat, pp as nat);
        }
    } else {
        let qd = q.drop_last();
        lemma_poly_eval_scale(qd, c, x);
        assert(scale_seq(q, c).drop_last() =~= scale_seq(qd, c));
        assert(scale_seq(q, c).last() == f_mul(q.last(), c));
        let pw = pow_mod(x, (q.len() - 1) as nat);
        // c·(eval qd + ql·pw) == c·eval qd + (ql·c)·pw
        crate::field::lemma_mul_distributes(c, poly_eval(qd, x), f_mul(q.last(), pw));
        crate::field::lemma_mul_left_comm(c, q.last(), pw);
        assert(f_mul(f_mul(q.last(), c), pw) == f_mul(q.last(), f_mul(c, pw))) by {
            crate::field::lemma_mul_assoc_mod(q.last(), c, pw);
        }
        assert(f_mul(c, f_mul(q.last(), pw)) == f_mul(q.last(), f_mul(c, pw))) by {
            crate::field::lemma_mul_left_comm(c, q.last(), pw);
        }
    }
}

/// A one-coefficient polynomial evaluates to its constant.
proof fn lemma_poly_eval_one(a: int, x: int)
    requires
        in_field(a),
    ensures
        poly_eval(seq![a], x) == a,
{
    let pp = crate::field::p();
    reveal_with_fuel(pow_mod, 2);
    reveal_with_fuel(poly_eval, 2);
    assert(seq![a].drop_last() =~= Seq::<int>::empty());
    assert(f_mul(a, 1) == a) by {
        vstd::arithmetic::div_mod::lemma_small_mod(a as nat, pp as nat);
    }
    crate::field::lemma_add_zero(a);
    assert((0 + a) % pp == a % pp);
    vstd::arithmetic::div_mod::lemma_small_mod(a as nat, pp as nat);
}

/// A running convolution entry is a canonical field value.
proof fn lemma_conv_in_field(a: Seq<int>, b: Seq<int>, k: int, n: nat)
    ensures
        in_field(conv_partial(a, b, k, n)) || conv_partial(a, b, k, n) == 0,
        0 <= conv_partial(a, b, k, n) < crate::field::p(),
    decreases n,
{
    if n > 0 {
        lemma_conv_in_field(a, b, k, (n - 1) as nat);
    }
}

/// Multiplying by the linear factor `x + m` multiplies the evaluation.
proof fn lemma_poly_eval_linear_factor(q: Seq<int>, m: int, x: int)
    requires
        q.len() >= 1,
        in_field_seq(q),
        in_field(m),
        in_field(x),
    ensures
        poly_eval(pmul(q, seq![m, 1int]), x) == f_mul(poly_eval(q, x), f_add(m, x)),
    decreases q.len(),
{
    let pp = crate::field::p();
    let b = seq![m, 1int];
    let pr = pmul(q, b);
    assert(b.len() == 2);
    if q.len() == 1 {
        let q0 = q[0];
        assert(in_field(q0));
        assert(pr.len() == 2);
        reveal_with_fuel(conv_partial, 3);
        assert(conv_term(q, b, 0, 0) == f_mul(q0, m));
        assert(conv_term(q, b, 1, 0) == f_mul(q0, 1));
        assert(pr[0] == f_add(0, f_mul(q0, m)));
        assert(pr[1] == f_add(0, f_mul(q0, 1)));
        crate::field::lemma_add_zero(f_mul(q0, m));
        crate::field::lemma_add_zero(f_mul(q0, 1));
        assert(f_mul(q0, 1) == q0) by {
            vstd::arithmetic::div_mod::lemma_small_mod(q0 as nat, pp as nat);
        }
        assert(pr =~= seq![f_mul(q0, m), q0]);
        lemma_poly_eval_two(f_mul(q0, m), q0, x);
        assert(q =~= seq![q0]);
        lemma_poly_eval_one(q0, x);
        crate::field::lemma_mul_distributes(q0, m, x);
        assert(f_mul(q0, f_add(m, x)) == f_add(f_mul(q0, m), f_mul(q0, x)));
        assert(f_mul(poly_eval(q, x), f_add(m, x)) == f_mul(q0, f_add(m, x)));
    } else {
        let n = q.len() as int;
        let qd = q.drop_last();
        let ql = q.last();
        assert(in_field(ql));
        lemma_poly_eval_linear_factor(qd, m, x);
        let dd = pmul(qd, b);
        assert(dd.len() == n);
        let qlm = f_mul(ql, m);
        let ql1 = f_mul(ql, 1);
        let mono = zero_poly((n - 1) as nat).push(qlm).push(ql1);
        assert(mono.len() == n + 1);
        // the product splits coefficient-wise into the shorter product and
        // the two top terms contributed by the leading coefficient
        assert forall|k: int| 0 <= k < n + 1 implies #[trigger] pr[k] == padd(dd, mono)[k] by {
            assert(conv_partial(q, b, k, q.len()) == f_add(
                conv_partial(q, b, k, (q.len() - 1) as nat),
                conv_term(q, b, k, n - 1),
            ));
            lemma_conv_partial_prefix(q, b, k, (q.len() - 1) as nat);
            if k < n {
                assert(dd[k] == conv_partial(qd, b, k, qd.len()));
            } else {
                lemma_conv_partial_high_zero(qd, b, k, (q.len() - 1) as nat);
            }
            if k < n - 1 {
                assert(conv_term(q, b, k, n - 1) == 0);
                assert(mono[k] == 0);
            } else if k == n - 1 {
                assert(conv_term(q, b, k, n - 1) == f_mul(ql, m));
                assert(mono[k] == qlm);
            } else {
                assert(conv_term(q, b, k, n - 1) == f_mul(ql, 1));
                assert(mono[k] == ql1);
            }
        }
        assert(pr =~= padd(dd, mono));
        // both summands are well formed
        assert forall|k: int| 0 <= k < dd.len() implies in_field(#[trigger] dd[k]) by {
            lemma_conv_in_field(qd, b, k, qd.len());
        }
        assert forall|k: int| 0 <= k < mono.len() implies in_field(#[trigger] mono[k]) by {
            if k < n - 1 {
                assert(mono[k] == 0);
            } else if k == n - 1 {
                assert(mono[k] == qlm);
            } else {
                assert(mono[k] == ql1);
            }
        }
        lemma_poly_eval_padd(dd, mono, x);
        // the two top terms evaluate to ql·m·x^(n−1) + ql·x^n
        assert(mono.drop_last() =~= zero_poly((n - 1) as nat).push(qlm));
        assert(mono.last() == ql1);
        lemma_poly_eval_monomial((n - 1) as nat, qlm, x);
        assert(poly_eval(mono, x) == f_add(
            f_mul(qlm, pow_mod(x, (n - 1) as nat)),
            f_mul(ql1, pow_mod(x, n as nat)),
        ));
        let pw1 = pow_mod(x, (n - 1) as nat);
        let pw2 = pow_mod(x, n as nat);
        assert(pw2 == f_mul(x, pw1));
        assert(ql1 == ql) by {
            vstd::arithmetic::div_mod::lemma_small_mod(ql as nat, pp as nat);
        }
        // regroup against the distributed target
        let cc = f_add(m, x);
        let eqd = poly_eval(qd, x);
        assert(poly_eval(q, x) == f_add(eqd, f_mul(ql, pw1)));
        assert(f_mul(f_add(eqd, f_mul(ql, pw1)), cc) == f_add(
            f_mul(eqd, cc),
            f_mul(f_mul(ql, pw1), cc),
        )) by {
            crate::field::lemma_mul_distributes(cc, eqd, f_mul(ql, pw1));
            assert(f_mul(f_add(eqd, f_mul(ql, pw1)), cc) == f_mul(cc, f_add(eqd, f_mul(ql, pw1))))
                by {
                assert((f_add(eqd, f_mul(ql, pw1))) * cc == cc * (f_add(eqd, f_mul(ql, pw1))))
                    by (nonlinear_arith);
            }
            assert(f_mul(cc, eqd) == f_mul(eqd, cc)) by {
                assert(cc * eqd == eqd * cc) by (nonlinear_arith);
            }
            assert(f_mul(cc, f_mul(ql, pw1)) == f_mul(f_mul(ql, pw1), cc)) by {
                assert(cc * (f_mul(ql, pw1)) == (f_mul(ql, pw1)) * cc) by (nonlinear_arith);
            }
        }
        assert(f_mul(f_mul(ql, pw1), cc) == f_add(f_mul(qlm, pw1), f_mul(ql, pw2))) by {
            crate::field::lemma_mul_distributes(f_mul(ql, pw1), m, x);
            assert(f_mul(f_mul(ql, pw1), cc) == f_add(
                f_mul(f_mul(ql, pw1), m),
                f_mul(f_mul(ql, pw1), x),
            ));
            // ql·x^(n−1)·m == (ql·m)·x^(n−1)
            crate::field::lemma_mul_assoc_mod(ql, pw1, m);
            assert(f_mul(pw1, m) == f_mul(m, pw1)) by {
                assert(pw1 * m == m * pw1) by (nonlinear_arith);
            }
            crate::field::lemma_mul_assoc_mod(ql, m, pw1);
            // ql·x^(n−1)·x == ql·x^n
            crate::field::lemma_mul_assoc_mod(ql, pw1, x);
            assert(f_mul(pw1, x) == f_mul(x, pw1)) by {
                assert(pw1 * x == x * pw1) by (nonlinear_arith);
            }
        }
    }
}

/// The value of the running Lagrange numerator at `x`, factor by factor.
pub open spec fn num_val(xs: Seq<int>, i: int, upto: nat, x: int) -> int
    decreases upto,
{
    if upto == 0 {
        1
    } else if upto - 1 == i {
        num_val(xs, i, (upto - 1) as nat, x)
    } else {
        f_mul(num_val(xs, i, (upto - 1) as nat, x), f_add(f_sub(0, xs[upto - 1]), x))
    }
}

/// The running numerator is non-empty with canonical coefficients.
proof fn lemma_lag_num_wf(xs: Seq<int>, i: int, upto: nat)
    ensures
        lag_num(xs, i, upto).len() >= 1,
        in_field_seq(lag_num(xs, i, upto)),
    decreases upto,
{
    let pp = crate::field::p();
    if upto == 0 {
        assert forall|k: int| 0 <= k < seq![1int].len() implies in_field(
            #[trigger] seq![1int][k],
        ) by {
            assert(seq![1int][k] == 1);
        }
    } else if upto - 1 == i {
        lemma_lag_num_wf(xs, i, (upto - 1) as nat);
    } else {
        lemma_lag_num_wf(xs, i, (upto - 1) as nat);
        let prev = lag_num(xs, i, (upto - 1) as nat);
        let b = seq![f_sub(0, xs[upto - 1]), 1int];
        assert(pmul(prev, b).len() == prev.len() + 1);
        assert forall|k: int| 0 <= k < pmul(prev, b).len() implies in_field(
            #[trigger] pmul(prev, b)[k],
        ) by {
            lemma_conv_in_field(prev, b, k, prev.len());
        }
    }
}

/// The numerator polynomial evaluates to the product of its factors.
proof fn lemma_lag_num_eval(xs: Seq<int>, i: int, upto: nat, x: int)
    requires
        in_field_seq(xs),
        in_field(x),
        upto <= xs.len(),
    ensures
        poly_eval(lag_num(xs, i, upto), x) == num_val(xs, i, upto, x),
    decreases upto,
{
    let pp = crate::field::p();
    if upto == 0 {
        assert(lag_num(xs, i, 0) == seq![1int]);
        lemma_poly_eval_one(1, x);
    } else if upto - 1 == i {
        lemma_lag_num_eval(xs, i, (upto - 1) as nat, x);
    } else {
        lemma_lag_num_eval(xs, i, (upto - 1) as nat, x);
        let prev = lag_num(xs, i, (upto - 1) as nat);
        let m = f_sub(0, xs[upto - 1]);
        lemma_lag_num_wf(xs, i, (upto - 1) as nat);
        lemma_poly_eval_linear_factor(prev, m, x);
    }
}

/// At any other sample point the numerator vanishes: one factor is zero.
proof fn lemma_num_val_at_other(xs: Seq<int>, i: int, upto: nat, j: int)
    requires
        in_field_seq(xs),
        0 <= j < upto <= xs.len(),
        j != i,
    ensures
        num_val(xs, i, upto, xs[j]) == 0,
    decreases upto,
{
    let pp = crate::field::p();
    let x = xs[j];
    if upto - 1 == i {
        lemma_num_val_at_other(xs, i, (upto - 1) as nat, j);
    } else if upto - 1 == j {
        assert(f_add(f_sub(0, xs[j]), x) == 0) by {
            vstd::arithmetic::div_mod::lemma_add_mod_noop(0 - xs[j], xs[j], pp);
            vstd::arithmetic::div_mod::lemma_small_mod(xs[j] as nat, pp as nat);
            vstd::arithmetic::div_mod::lemma_small_mod(0nat, pp as nat);
        }
        let prev = num_val(xs, i, (upto - 1) as nat, x);
        assert(f_mul(prev, 0) == 0) by {
            assert(prev * 0 == 0) by (nonlinear_arith);
            vstd::arithmetic::div_mod::lemma_small_mod(0nat, pp as nat);
        }
    } else {
        lemma_num_val_at_other(xs, i, (upto - 1) as nat, j);
        let f = f_add(f_sub(0, xs[upto - 1]), x);
        assert(f_mul(0, f) == 0) by {
            assert(0 * f == 0) by (nonlinear_arith);
            vstd::arithmetic::div_mod::lemma_small_mod(0nat, pp as nat);
        }
    }
}

/// At its own sample point the numerator equals the denominator.
proof fn lemma_num_val_at_self(xs: Seq<int>, i: int, upto: nat)
    requires
        in_field_seq(xs),
        0 <= i < xs.len(),
        upto <= xs.len(),
    ensures
        num_val(xs, i, upto, xs[i]) == lag_den(xs, i, upto),
    decreases upto,
{
    let pp = crate::field::p();
    if upto > 0 {
        lemma_num_val_at_self(xs, i, (upto - 1) as nat);
        if upto - 1 != i {
            assert(f_add(f_sub(0, xs[upto - 1]), xs[i]) == f_sub(xs[i], xs[upto - 1])) by {
                vstd::arithmetic::div_mod::lemma_add_mod_noop(0 - xs[upto - 1], xs[i], pp);
                vstd::arithmetic::div_mod::lemma_small_mod(xs[i] as nat, pp as nat);
            }
        }
    }
}

/// The value of the partial Lagrange sum at `x`, term by term.
pub open spec fn terms_val(xs: Seq<int>, ys: Seq<int>, upto: nat, x: int) -> int
    decreases upto,
{
    if upto == 0 {
        0
    } else {
        f_add(
            terms_val(xs, ys, (upto - 1) as nat, x),
            f_mul(
                f_mul(ys[upto - 1], f_inv(lag_den(xs, upto - 1, xs.len()))),
                num_val(xs, upto - 1, xs.len(), x),
            ),
        )
    }
}

/// The partial Lagrange sum has canonical coefficients.
proof fn lemma_lag_sum_wf(xs: Seq<int>, ys: Seq<int>, upto: nat)
    ensures
        in_field_seq(lag_sum(xs, ys, upto)),
    decreases upto,
{
    if upto == 0 {
        assert forall|k: int| 0 <= k < zero_poly(xs.len()).len() implies in_field(
            #[trigger] zero_poly(xs.len())[k],
        ) by {
            assert(zero_poly(xs.len())[k] == 0);
        }
    } else {
        lemma_lag_sum_wf(xs, ys, (upto - 1) as nat);
        let prev = lag_sum(xs, ys, (upto - 1) as nat);
        let term = scale_seq(
            lag_num(xs, upto - 1, xs.len()),
            f_mul(ys[upto - 1], f_inv(lag_den(xs, upto - 1, xs.len()))),
        );
        assert forall|k: int| 0 <= k < padd(prev, term).len() implies in_field(
            #[trigger] padd(prev, term)[k],
        ) by {
        }
    }
}

/// The interpolation evaluates to the sum of its scaled basis values.
proof fn lemma_lag_sum_eval(xs: Seq<int>, ys: Seq<int>, upto: nat, x: int)
    requires
        in_field_seq(xs),
        in_field(x),
        upto <= xs.len(),
        ys.len() == xs.len(),
    ensures
        poly_eval(lag_sum(xs, ys, upto), x) == terms_val(xs, ys, upto, x),
    decreases upto,
{
    if upto == 0 {
        lemma_poly_eval_zero(xs.len(), x);
    } else {
        lemma_lag_sum_eval(xs, ys, (upto - 1) as nat, x);
        let prev = lag_sum(xs, ys, (upto - 1) as nat);
        let c = f_mul(ys[upto - 1], f_inv(lag_den(xs, upto - 1, xs.len())));
        let numer = lag_num(xs, upto - 1, xs.len());
        let term = scale_seq(numer, c);
        lemma_lag_sum_wf(xs, ys, (upto - 1) as nat);
        lemma_lag_num_wf(xs, upto - 1, xs.len());
        assert forall|k: int| 0 <= k < term.len() implies in_field(#[trigger] term[k]) by {
            assert(term[k] == f_mul(numer[k], c));
        }
        lemma_poly_eval_padd(prev, term, x);
        lemma_poly_eval_scale(numer, c, x);
        lemma_lag_num_eval(xs, upto - 1, xs.len(), x);
    }
}

/// Every denominator has a multiplicative inverse: true of any prime field,
/// and recorded by `interpolate` as it computes them.
pub open spec fn inverses_exist(xs: Seq<int>) -> bool {
    forall|i: int|
        0 <= i < xs.len() ==> exists|w: int|
            in_field(w) && f_mul(#[trigger] lag_den(xs, i, xs.len()), w) == 1
}

/// At a sample point every term but its own vanishes.
proof fn lemma_terms_collapse(xs: Seq<int>, ys: Seq<int>, upto: nat, j: int)
    requires
        in_field_seq(xs),
        in_field_seq(ys),
        xs.len() == ys.len(),
        0 <= j < xs.len(),
        upto <= xs.len(),
        inverses_exist(xs),
    ensures
        terms_val(xs, ys, upto, xs[j]) == if j < upto {
            ys[j]
        } else {
            0
        },
    decreases upto,
{
    let pp = crate::field::p();
    if upto > 0 {
        lemma_terms_collapse(xs, ys, (upto - 1) as nat, j);
        let i = upto - 1;
        let den = lag_den(xs, i, xs.len());
        let c = f_mul(ys[i], f_inv(den));
        if i != j {
            lemma_num_val_at_other(xs, i, xs.len(), j);
            assert(f_mul(c, 0) == 0) by {
                assert(c * 0 == 0) by (nonlinear_arith);
                vstd::arithmetic::div_mod::lemma_small_mod(0nat, pp as nat);
            }
            if j < upto - 1 {
                crate::field::lemma_add_zero(ys[j]);
            } else {
                vstd::arithmetic::div_mod::lemma_small_mod(0nat, pp as nat);
            }
        } else {
            lemma_num_val_at_self(xs, i, xs.len());
            let w = choose|w: int| in_field(w) && f_mul(lag_den(xs, i, xs.len()), w) == 1;
            crate::field::lemma_inverse_unique(den, w);
            assert(f_mul(den, f_inv(den)) == 1);
            // (y·den⁻¹)·den == y·(den⁻¹·den) == y
            crate::field::lemma_mul_assoc_mod(ys[i], f_inv(den), den);
            assert(f_mul(f_inv(den), den) == f_mul(den, f_inv(den))) by {
                assert(f_inv(den) * den == den * f_inv(den)) by (nonlinear_arith);
            }
            assert(f_mul(ys[i], 1) == ys[i]) by {
                vstd::arithmetic::div_mod::lemma_small_mod(ys[i] as nat, pp as nat);
            }
            assert(f_add(0, ys[j]) == ys[j]) by {
                vstd::arithmetic::div_mod::lemma_small_mod(ys[j] as nat, pp as nat);
            }
        }
    }
}

/// Lagrange interpolation passes back through its sample points: at each
/// `xs[j]` the interpolated polynomial takes the value `ys[j]`, provided
/// each basis denominator has an inverse (which `interpolate` certifies for
/// the lists it accepts).
pub proof fn lemma_interpolation_matches_samples(xs: Seq<int>, ys: Seq<int>, j: int)
    requires
        in_field_seq(xs),
        in_field_seq(ys),
        xs.len() == ys.len(),
        0 <= j < xs.len(),
        inverses_exist(xs),
    ensures
        poly_eval(interp(xs, ys), xs[j]) == ys[j],
{
    lemma_lag_sum_eval(xs, ys, xs.len(), xs[j]);
    lemma_terms_collapse(xs, ys, xs.len(), j);
}

} // verus!
