//! The `Polynomial` value type: normalized storage of `i64` coefficients,
//! construction, degree, addition and multiplication.

use vstd::prelude::*;

use crate::model::coeff_at;
use crate::model::conv_at;
use crate::model::conv_sum;
use crate::model::degree_of;
use crate::model::is_normalized;
use crate::model::lemma_conv_sum_bound;
use crate::model::lemma_trim_coeff_at;
use crate::model::lemma_trim_identity;
use crate::model::poly_add;
use crate::model::poly_mul;
use crate::model::term_seq;
use crate::model::trim;

verus! {

/// The coefficients of a stored vector, read as mathematical integers.
pub open spec fn int_view(s: Seq<i64>) -> Seq<int> {
    s.map_values(|c: i64| c as int)
}

/// Whether a mathematical integer fits into a stored coefficient.
pub open spec fn in_i64(x: int) -> bool {
    i64::MIN <= x <= i64::MAX
}

/// Whether every coefficient of the sum of `a` and `b` fits into a stored
/// coefficient.
pub open spec fn add_fits(a: Seq<int>, b: Seq<int>) -> bool {
    forall|i: int| #![trigger coeff_at(a, i)] in_i64(coeff_at(a, i) + coeff_at(b, i))
}

/// Whether every coefficient-by-coefficient product and every partial
/// convolution sum of `a` and `b` fits into a stored coefficient.
pub open spec fn mul_fits(a: Seq<int>, b: Seq<int>) -> bool {
    &&& forall|i: int, j: int| #![trigger coeff_at(a, i), coeff_at(b, j)]
        in_i64(coeff_at(a, i) * coeff_at(b, j))
    &&& forall|k: int, n: nat| #![trigger conv_sum(a, b, k, n)] in_i64(conv_sum(a, b, k, n))
}

/// A polynomial with `i64` coefficients, stored lowest power first and kept
/// normalized: the coefficient vector never ends in a zero, and the empty
/// vector represents the zero polynomial.
#[derive(Debug, Clone)]
pub struct Polynomial {
    coefficients: Vec<i64>,
}

impl View for Polynomial {
    type V = Seq<int>;

    closed spec fn view(&self) -> Seq<int> {
        int_view(self.coefficients@)
    }
}

impl PartialEq for Polynomial {
    fn eq(&self, other: &Polynomial) -> (r: bool) {
        let la: usize = self.coefficients.len();
        if la != other.coefficients.len() {
            assert(self@.len() != other@.len());
            return false;
        }
        let mut i: usize = 0;
        while i < la
            invariant
                i <= la,
                la == self.coefficients@.len(),
                la == other.coefficients@.len(),
                forall|j: int| 0 <= j < i ==> self@[j] == other@[j],
            decreases la - i,
        {
            if self.coefficients[i] != other.coefficients[i] {
                assert(self@[i as int] != other@[i as int]);
                return false;
            }
            i += 1;
        }
        proof {
            assert(self@ =~= other@);
        }
        true
    }
}

impl vstd::std_specs::cmp::PartialEqSpecImpl for Polynomial {
    open spec fn obeys_eq_spec() -> bool {
        true
    }

    open spec fn eq_spec(&self, other: &Polynomial) -> bool {
        self@ == other@
    }
}

impl Polynomial {
    /// The normalization invariant: the stored coefficients carry no trailing
    /// zero.
    pub open spec fn wf(&self) -> bool {
        is_normalized(self@)
    }

    /// Builds the polynomial with the given coefficients (index `i` holding
    /// the coefficient of `x^i`), trimming trailing zero coefficients.
    pub fn new(coefficients: Vec<i64>) -> (r: Polynomial)
        ensures
            r@ == trim(int_view(coefficients@)),
            r.wf(),
    {
        let ghost orig: Seq<i64> = coefficients@;
        let mut v: Vec<i64> = coefficients;
        while v.len() > 0 && v[v.len() - 1] == 0
            invariant
                trim(int_view(v@)) == trim(int_view(orig)),
            decreases v.len(),
        {
            proof {
                assert(int_view(v@)[v@.len() - 1] == 0);
                assert(int_view(v@.drop_last()) =~= int_view(v@).drop_last());
            }
            v.pop();
        }
        proof {
            if v@.len() > 0 {
                assert(int_view(v@)[v@.len() - 1] == v@[v@.len() - 1] as int);
            }
            assert(is_normalized(int_view(v@)));
            lemma_trim_identity(int_view(v@));
        }
        Polynomial { coefficients: v }
    }

    /// Builds the single-term polynomial `coefficient * x^power`.
    pub fn new_term(coefficient: i64, power: usize) -> (r: Polynomial)
        requires
            power < usize::MAX,
        ensures
            r@ == trim(term_seq(coefficient as int, power as nat)),
            r.wf(),
    {
        let mut v: Vec<i64> = Vec::new();
        let mut i: usize = 0;
        while i < power
            invariant
                i <= power,
                v@.len() == i,
                forall|j: int| 0 <= j < i ==> v@[j] == 0i64,
            decreases power - i,
        {
            v.push(0);
            i += 1;
        }
        v.push(coefficient);
        proof {
            assert(int_view(v@) =~= term_seq(coefficient as int, power as nat));
        }
        Polynomial::new(v)
    }

    /// The zero polynomial: the empty coefficient sequence.
    pub fn zero() -> (r: Polynomial)
        ensures
            r@ == Seq::<int>::empty(),
            r.wf(),
    {
        let p = Polynomial::new(Vec::new());
        proof {
            assert(int_view(Seq::<i64>::empty()) =~= Seq::<int>::empty());
        }
        p
    }

    /// Whether this is the zero polynomial.
    pub fn is_zero(&self) -> (r: bool)
        ensures
            r == (self@.len() == 0),
    {
        self.coefficients.len() == 0
    }

    /// The degree: `-1` for the zero polynomial, else one less than the
    /// number of stored coefficients.
    pub fn get_degree(&self) -> (d: i64)
        requires
            self@.len() <= i64::MAX as int,
        ensures
            d == degree_of(self@),
    {
        let n: usize = self.coefficients.len();
        if n == 0 {
            -1
        } else {
            (n - 1) as i64
        }
    }

    /// Coefficient-wise sum with overflow detection: `None` exactly when some
    /// coefficient of the sum does not fit into an `i64`.
    pub fn checked_add(&self, other: &Polynomial) -> (r: Option<Polynomial>)
        ensures
            r is Some <==> add_fits(self@, other@),
            r matches Some(p) ==> p@ == trim(poly_add(self@, other@)) && p.wf(),
    {
        let la: usize = self.coefficients.len();
        let lb: usize = other.coefficients.len();
        let n: usize = if la >= lb {
            la
        } else {
            lb
        };
        let mut v: Vec<i64> = Vec::new();
        let mut i: usize = 0;
        while i < n
            invariant
                i <= n,
                la == self@.len(),
                lb == other@.len(),
                n == if la >= lb {
                    la
                } else {
                    lb
                },
                v@.len() == i,
                forall|j: int| #![trigger v@[j]]
                    0 <= j < i ==> v@[j] as int == coeff_at(self@, j) + coeff_at(other@, j),
            decreases n - i,
        {
            let ai: i64 = if i < la {
                self.coefficients[i]
            } else {
                0
            };
            let bi: i64 = if i < lb {
                other.coefficients[i]
            } else {
                0
            };
            proof {
                assert(ai as int == coeff_at(self@, i as int));
                assert(bi as int == coeff_at(other@, i as int));
            }
            let wide: i128 = ai as i128 + bi as i128;
            if wide < i64::MIN as i128 || wide > i64::MAX as i128 {
                proof {
                    assert(!in_i64(coeff_at(self@, i as int) + coeff_at(other@, i as int)));
                }
                return None;
            }
            v.push(wide as i64);
            i += 1;
        }
        proof {
            assert forall|j: int| in_i64(coeff_at(self@, j) + coeff_at(other@, j)) by {
                if 0 <= j < n {
                    assert(v@[j] as int == coeff_at(self@, j) + coeff_at(other@, j));
                } else {
                    assert(coeff_at(self@, j) == 0 && coeff_at(other@, j) == 0);
                }
            }
            assert(int_view(v@) =~= poly_add(self@, other@));
        }
        Some(Polynomial::new(v))
    }

    /// The sum of two polynomials: coefficient-wise addition out to the
    /// longer operand, normalized.
    pub fn add(&self, other: &Polynomial) -> (r: Polynomial)
        requires
            add_fits(self@, other@),
        ensures
            r@ == trim(poly_add(self@, other@)),
            r.wf(),
    {
        match self.checked_add(other) {
            Some(p) => p,
            None => vstd::pervasive::unreached(),
        }
    }

    /// The product of two polynomials: the coefficient of `x^k` in the
    /// result is the convolution sum over all index pairs adding up to `k`.
    pub fn mul(&self, other: &Polynomial) -> (r: Polynomial)
        requires
            mul_fits(self@, other@),
            self@.len() + other@.len() <= usize::MAX as int,
        ensures
            r@ == trim(poly_mul(self@, other@)),
            r.wf(),
    {
        let la: usize = self.coefficients.len();
        let lb: usize = other.coefficients.len();
        if la == 0 || lb == 0 {
            return Polynomial::zero();
        }
        let out_len: usize = la - 1 + lb;
        let mut v: Vec<i64> = Vec::new();
        let mut k: usize = 0;
        while k < out_len
            invariant
                k <= out_len,
                out_len == la - 1 + lb,
                la == self@.len(),
                lb == other@.len(),
                la >= 1,
                lb >= 1,
                mul_fits(self@, other@),
                v@.len() == k,
                forall|j: int| #![trigger v@[j]]
                    0 <= j < k ==> v@[j] as int == conv_at(self@, other@, j),
            decreases out_len - k,
        {
            let mut acc: i64 = 0;
            let mut i: usize = 0;
            while i < k + 1
                invariant
                    i <= k + 1,
                    k < out_len,
                    out_len == la - 1 + lb,
                    la == self@.len(),
                    lb == other@.len(),
                    la >= 1,
                    lb >= 1,
                    mul_fits(self@, other@),
                    acc as int == conv_sum(self@, other@, k as int, i as nat),
                decreases k + 1 - i,
            {
                let term: i64 = if i < la && k - i < lb {
                    proof {
                        assert(in_i64(
                            coeff_at(self@, i as int) * coeff_at(other@, k - i as int),
                        ));
                        assert(self.coefficients@[i as int] as int == coeff_at(
                            self@,
                            i as int,
                        ));
                        assert(other.coefficients@[k - i as int] as int == coeff_at(
                            other@,
                            k - i as int,
                        ));
                    }
                    self.coefficients[i] * other.coefficients[k - i]
                } else {
                    0
                };
                proof {
                    assert(term as int == coeff_at(self@, i as int) * coeff_at(
                        other@,
                        k - i as int,
                    )) by {
                        if i >= la {
                            assert(coeff_at(self@, i as int) == 0);
                            assert(0 * coeff_at(other@, k - i as int) == 0) by (nonlinear_arith);
                        } else if k - i >= lb {
                            assert(coeff_at(other@, k - i as int) == 0);
                            assert(coeff_at(self@, i as int) * 0 == 0) by (nonlinear_arith);
                        }
                    }
                    assert(conv_sum(self@, other@, k as int, (i + 1) as nat) == conv_sum(
                        self@,
                        other@,
                        k as int,
                        i as nat,
                    ) + coeff_at(self@, i as int) * coeff_at(other@, k - i as int));
                    assert(in_i64(conv_sum(self@, other@, k as int, (i + 1) as nat)));
                }
                acc = acc + term;
                i += 1;
            }
            v.push(acc);
            k += 1;
        }
        proof {
            assert(int_view(v@) =~= poly_mul(self@, other@));
        }
        Polynomial::new(v)
    }

    /// Builds `-(c) * x^k * self` with overflow detection: `k` zeros followed
    /// by the coefficients of `self`, each scaled by `-c`.  Returns `None`
    /// exactly when some scaled coefficient does not fit into an `i64`.
    pub(crate) fn neg_scaled_shift(&self, c: i64, k: usize) -> (r: Option<Polynomial>)
        requires
            k + self@.len() <= usize::MAX as int,
        ensures
            r is Some <==> forall|i: int| #![trigger self@[i]]
                0 <= i < self@.len() ==> in_i64(-(c as int) * self@[i]),
            r matches Some(p) ==> p.wf() && forall|i: int| #![trigger coeff_at(p@, i)]
                coeff_at(p@, i) == -(c as int) * coeff_at(self@, i - k),
    {
        let lm: usize = self.coefficients.len();
        let nc: i128 = -(c as i128);
        let mut v: Vec<i64> = Vec::new();
        let mut i: usize = 0;
        while i < k
            invariant
                i <= k,
                v@.len() == i,
                forall|j: int| 0 <= j < i ==> v@[j] == 0i64,
            decreases k - i,
        {
            v.push(0);
            i += 1;
        }
        let mut j: usize = 0;
        while j < lm
            invariant
                j <= lm,
                lm == self@.len(),
                nc == -(c as int),
                v@.len() == k + j,
                forall|t: int| 0 <= t < k ==> v@[t] == 0i64,
                forall|t: int| #![trigger v@[t]]
                    k <= t < k + j ==> v@[t] as int == -(c as int) * coeff_at(self@, t - k),
                forall|t: int| #![trigger self@[t]]
                    0 <= t < j ==> in_i64(-(c as int) * self@[t]),
            decreases lm - j,
        {
            let mj: i64 = self.coefficients[j];
            proof {
                let big: int = 0x8000_0000_0000_0000;
                assert(-big <= nc as int <= big);
                assert(-big <= mj as int <= big);
                assert(-(big * big) <= (nc as int) * (mj as int) <= big * big)
                    by (nonlinear_arith)
                    requires -big <= nc as int <= big, -big <= mj as int <= big, big == 0x8000_0000_0000_0000int;
            }
            let wide: i128 = nc * (mj as i128);
            if wide < i64::MIN as i128 || wide > i64::MAX as i128 {
                proof {
                    assert(!in_i64(-(c as int) * self@[j as int]));
                }
                return None;
            }
            v.push(wide as i64);
            proof {
                assert(mj as int == coeff_at(self@, j as int));
                assert(in_i64(-(c as int) * self@[j as int]));
            }
            j += 1;
        }
        let p = Polynomial::new(v);
        proof {
            lemma_trim_coeff_at(int_view(v@));
            assert forall|i2: int| coeff_at(p@, i2) == -(c as int) * coeff_at(
                self@,
                i2 - k,
            ) by {
                assert(coeff_at(p@, i2) == coeff_at(int_view(v@), i2));
                if 0 <= i2 < k {
                    assert(coeff_at(self@, i2 - k) == 0);
                    assert(-(c as int) * 0 == 0) by (nonlinear_arith);
                } else if k <= i2 < k + lm {
                    assert(int_view(v@)[i2] == v@[i2] as int);
                } else {
                    assert(coeff_at(self@, i2 - k) == 0);
                    assert(-(c as int) * 0 == 0) by (nonlinear_arith);
                }
            }
        }
        Some(p)
    }

    /// The number of stored coefficients.
    pub(crate) fn num_coeffs(&self) -> (n: usize)
        ensures
            n == self@.len(),
    {
        self.coefficients.len()
    }

    /// The stored coefficient of `x^i`.
    pub(crate) fn coeff(&self, i: usize) -> (c: i64)
        requires
            i < self@.len(),
        ensures
            c as int == self@[i as int],
    {
        self.coefficients[i]
    }

    /// The leading (highest-power) coefficient.
    pub(crate) fn leading(&self) -> (c: i64)
        requires
            self@.len() > 0,
        ensures
            c as int == self@[self@.len() - 1],
    {
        self.coefficients[self.coefficients.len() - 1]
    }
}

/// Every coefficient of a polynomial lies within `i64`'s range: the view is
/// the stored `i64` vector read as integers, and positions beyond it are
/// zero.  Callers use this to discharge `add_fits` and coefficient bounds
/// for an abstract polynomial.
pub proof fn lemma_coefficients_fit(p: &Polynomial)
    ensures
        forall|i: int| #![trigger coeff_at(p@, i)] in_i64(coeff_at(p@, i)),
{
    assert forall|i: int| in_i64(coeff_at(p@, i)) by {
        if 0 <= i < p@.len() {
            assert(p@[i] == p.coefficients@[i] as int);
        }
    }
}

/// A sufficient condition for `mul_fits` that callers can check coefficient
/// by coefficient: if every coefficient of `a` lies within `ca`, every
/// coefficient of `b` within `cb`, and the worst convolution sum
/// `a.len() * ca * cb` fits into an `i64`, multiplication cannot overflow.
pub proof fn lemma_mul_fits_when_bounded(a: Seq<int>, b: Seq<int>, ca: int, cb: int)
    requires
        ca >= 0,
        cb >= 0,
        forall|i: int| #![trigger coeff_at(a, i)] -ca <= coeff_at(a, i) <= ca,
        forall|i: int| #![trigger coeff_at(b, i)] -cb <= coeff_at(b, i) <= cb,
        a.len() * ca * cb <= i64::MAX as int,
    ensures
        mul_fits(a, b),
{
    assert forall|i: int, j: int| #![trigger coeff_at(a, i), coeff_at(b, j)]
        in_i64(coeff_at(a, i) * coeff_at(b, j)) by {
        let x: int = coeff_at(a, i);
        let y: int = coeff_at(b, j);
        if a.len() == 0 {
            assert(x == 0);
            assert(x * y == 0) by (nonlinear_arith)
                requires x == 0;
        } else {
            assert(-(ca * cb) <= x * y <= ca * cb) by (nonlinear_arith)
                requires -ca <= x <= ca, -cb <= y <= cb, ca >= 0, cb >= 0;
            assert(ca * cb <= a.len() * ca * cb) by (nonlinear_arith)
                requires a.len() >= 1, ca >= 0, cb >= 0;
        }
    }
    assert forall|k: int, n: nat| #![trigger conv_sum(a, b, k, n)]
        in_i64(conv_sum(a, b, k, n)) by {
        lemma_conv_sum_bound(a, b, k, n, ca, cb);
        let w: int = if n <= a.len() {
            n as int
        } else {
            a.len() as int
        };
        assert(w * ca * cb <= a.len() * ca * cb) by (nonlinear_arith)
            requires 0 <= w <= a.len(), ca >= 0, cb >= 0;
        assert(-w * ca * cb >= -(a.len() * ca * cb)) by (nonlinear_arith)
            requires 0 <= w <= a.len(), ca >= 0, cb >= 0;
    }
}

} // verus!
