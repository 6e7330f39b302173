//! The quotient ring: a fixed modulus polynomial (ideal generator) and the
//! reduction of arbitrary polynomials to the canonical representative of
//! their equivalence class, by polynomial long division.

use vstd::prelude::*;

use crate::model::coeff_at;
use crate::model::conv_at;
use crate::model::degree_of;
use crate::model::is_normalized;
use crate::model::lemma_conv_sum_linear;
use crate::model::lemma_conv_sum_monomial;
use crate::model::lemma_poly_add_coeff;
use crate::model::lemma_poly_mul_coeff;
use crate::model::lemma_trim_coeff_at;
use crate::model::lemma_trim_congruent;
use crate::model::lemma_trim_identity;
use crate::model::lemma_trim_len_bound;
use crate::model::poly_add;
use crate::model::poly_mul;
use crate::model::term_seq;
use crate::model::trim;
use crate::poly::add_fits;
use crate::poly::in_i64;
use crate::poly::Polynomial;

verus! {

/// The ways construction or reduction can fail.
#[derive(Debug, PartialEq, Eq, Structural, Clone, Copy)]
pub enum RingError {
    /// The zero polynomial was offered as a modulus.
    ZeroModulus,
    /// A leading coefficient did not divide evenly during long division over
    /// the integer coefficient ring.
    InexactDivision,
    /// A coefficient produced by the reduction does not fit into an `i64`.
    Overflow,
}

/// Integer division that succeeds only when it is exact: `Some(c)` with
/// `a == c * b` when such an integer exists, `None` otherwise.
fn exact_div(a: i64, b: i64) -> (r: Option<i64>)
    requires
        b != 0,
        !(a == i64::MIN && b == -1),
    ensures
        r matches Some(c) ==> a as int == c as int * b as int,
        r is None ==> forall|c: int| #![trigger c * (b as int)] c * (b as int) != a as int,
{
    let neg_a: bool = a < 0;
    let neg_b: bool = b < 0;
    let ua: u64 = if neg_a {
        (-(a as i128)) as u64
    } else {
        a as u64
    };
    let ub: u64 = if neg_b {
        (-(b as i128)) as u64
    } else {
        b as u64
    };
    proof {
        assert(ub as int >= 1);
        assert(ua as int <= 0x8000_0000_0000_0000);
    }
    let q: u64 = ua / ub;
    let rr: u64 = ua % ub;
    proof {
        vstd::arithmetic::div_mod::lemma_fundamental_div_mod(ua as int, ub as int);
        vstd::arithmetic::div_mod::lemma_mod_bound(ua as int, ub as int);
        assert((ub as int) * (q as int) + (rr as int) == ua as int);
    }
    if rr != 0 {
        proof {
            assert forall|c: int| #![trigger c * (b as int)] c * (b as int) != a as int by {
                if c * (b as int) == a as int {
                    let mabs: int = if c >= 0 {
                        c
                    } else {
                        -c
                    };
                    assert(mabs * (ub as int) == ua as int) by (nonlinear_arith)
                        requires
                            c * (b as int) == a as int,
                            mabs == if c >= 0 { c } else { -c },
                            ub as int == if b < 0 { -(b as int) } else { b as int },
                            ua as int == if a < 0 { -(a as int) } else { a as int },
                    ;
                    assert(false) by (nonlinear_arith)
                        requires
                            mabs * (ub as int) == ua as int,
                            (ub as int) * (q as int) + (rr as int) == ua as int,
                            0 <= rr as int,
                            (rr as int) < ub as int,
                            rr as int != 0,
                            q as int >= 0,
                    ;
                }
            }
        }
        return None;
    }
    proof {
        assert((ub as int) * (q as int) == ua as int);
    }
    if neg_a == neg_b {
        proof {
            if q as int > i64::MAX as int {
                assert(q as int <= ua as int) by (nonlinear_arith)
                    requires
                        (ub as int) * (q as int) == ua as int,
                        ub as int >= 1,
                        q as int >= 0,
                ;
                assert(q as int == 0x8000_0000_0000_0000 && ua as int
                    == 0x8000_0000_0000_0000);
                assert(ub as int == 1) by (nonlinear_arith)
                    requires
                        (ub as int) * (q as int) == ua as int,
                        q as int == 0x8000_0000_0000_0000,
                        ua as int == 0x8000_0000_0000_0000,
                        ub as int >= 1,
                ;
                assert(a == i64::MIN);
                assert(b == -1);
                assert(false);
            }
        }
        let ci: i64 = q as i64;
        proof {
            if neg_a {
                assert(a as int == ci as int * b as int) by (nonlinear_arith)
                    requires
                        ci as int == q as int,
                        a as int == -(ua as int),
                        b as int == -(ub as int),
                        (ub as int) * (q as int) == ua as int,
                ;
            } else {
                assert(a as int == ci as int * b as int) by (nonlinear_arith)
                    requires
                        ci as int == q as int,
                        a as int == ua as int,
                        b as int == ub as int,
                        (ub as int) * (q as int) == ua as int,
                ;
            }
        }
        Some(ci)
    } else {
        proof {
            assert(q as int <= ua as int) by (nonlinear_arith)
                requires
                    (ub as int) * (q as int) == ua as int,
                    ub as int >= 1,
                    q as int >= 0,
            ;
        }
        let ci: i64 = (-(q as i128)) as i64;
        proof {
            if neg_a {
                assert(a as int == ci as int * b as int) by (nonlinear_arith)
                    requires
                        ci as int == -(q as int),
                        a as int == -(ua as int),
                        b as int == ub as int,
                        (ub as int) * (q as int) == ua as int,
                ;
            } else {
                assert(a as int == ci as int * b as int) by (nonlinear_arith)
                    requires
                        ci as int == -(q as int),
                        a as int == ua as int,
                        b as int == -(ub as int),
                        (ub as int) * (q as int) == ua as int,
                ;
            }
        }
        Some(ci)
    }
}

/// The subtrahend of one elimination step: `k` zeros followed by the
/// coefficients of `m`, each scaled by `-c`.
pub open spec fn neg_shift(c: int, k: nat, m: Seq<int>) -> Seq<int> {
    Seq::new(k + m.len(), |i: int| if i < k { 0 } else { -c * m[i - k] })
}

/// Whether the leading coefficient of `m` divides the leading coefficient
/// of `e` evenly over the integers.
pub open spec fn step_exact(m: Seq<int>, e: Seq<int>) -> bool {
    exists|c: int| #![trigger c * m.last()] c * m.last() == e.last()
}

/// The quotient coefficient of one elimination step; it is unique whenever
/// the leading coefficient of `m` is non-zero.
pub open spec fn step_quot(m: Seq<int>, e: Seq<int>) -> int {
    choose|c: int| #![trigger c * m.last()] c * m.last() == e.last()
}

/// Whether every coefficient of the step's subtrahend and of the step's sum
/// fits into an `i64`.
pub open spec fn step_fits(m: Seq<int>, e: Seq<int>) -> bool {
    &&& forall|i: int| #![trigger m[i]]
        0 <= i < m.len() ==> in_i64(-step_quot(m, e) * m[i])
    &&& add_fits(e, neg_shift(step_quot(m, e), (e.len() - m.len()) as nat, m))
}

/// The remainder left by one elimination step: the element minus the scaled
/// and shifted modulus, normalized.
pub open spec fn step_remainder(m: Seq<int>, e: Seq<int>) -> Seq<int> {
    trim(poly_add(e, neg_shift(step_quot(m, e), (e.len() - m.len()) as nat, m)))
}

/// Long division of `e` by a normalized non-zero `m` over the integers, one
/// leading-term elimination per step.  It fails exactly as the executable
/// reduction does: `InexactDivision` when a leading coefficient does not
/// divide evenly, `Overflow` when the quotient coefficient, a subtrahend
/// coefficient or a remainder coefficient leaves `i64`'s range.  For a
/// degenerate `m` (empty or not normalized) it returns `e` unchanged.
pub open spec fn spec_reduce(m: Seq<int>, e: Seq<int>) -> Result<Seq<int>, RingError>
    decreases e.len(),
    via spec_reduce_decreases
{
    if m.len() == 0 || m.last() == 0 || e.len() < m.len() {
        Ok(e)
    } else if !step_exact(m, e) {
        Err(RingError::InexactDivision)
    } else if !in_i64(step_quot(m, e)) || !step_fits(m, e) {
        Err(RingError::Overflow)
    } else {
        spec_reduce(m, step_remainder(m, e))
    }
}

#[via_fn]
proof fn spec_reduce_decreases(m: Seq<int>, e: Seq<int>) {
    if !(m.len() == 0 || m.last() == 0 || e.len() < m.len()) && step_exact(m, e) {
        lemma_step_shrinks(m, e);
    }
}

/// The coefficients of the step subtrahend, at every position.
pub proof fn lemma_neg_shift_coeff(c: int, k: nat, m: Seq<int>)
    ensures
        forall|i: int| #![trigger coeff_at(neg_shift(c, k, m), i)]
            coeff_at(neg_shift(c, k, m), i) == -c * coeff_at(m, i - k),
{
    assert forall|i: int|
        coeff_at(neg_shift(c, k, m), i) == -c * coeff_at(m, i - k) by {
        if 0 <= i < k || i >= k + m.len() || i < 0 {
            assert(coeff_at(m, i - k) == 0);
            assert(-c * 0 == 0) by (nonlinear_arith);
        }
    }
}

/// A witness for the step quotient pins it down: exact quotients are unique
/// when the divisor is non-zero.  Callers evaluating `spec_reduce` on given
/// polynomials use this to resolve `step_quot` step by step.
pub proof fn lemma_exact_quot(m: Seq<int>, e: Seq<int>, c: int)
    requires
        m.len() > 0,
        m.last() != 0,
        c * m.last() == e.last(),
    ensures
        step_exact(m, e),
        step_quot(m, e) == c,
{
    assert(step_exact(m, e));
    let c0: int = step_quot(m, e);
    assert(c0 * m.last() == e.last());
    assert(c0 == c) by (nonlinear_arith)
        requires
            c0 * m.last() == e.last(),
            c * m.last() == e.last(),
            m.last() != 0,
    ;
}

/// After an exact elimination step the leading term cancels, so the
/// remainder is strictly shorter than the element.
proof fn lemma_step_shrinks(m: Seq<int>, e: Seq<int>)
    requires
        m.len() > 0,
        m.last() != 0,
        e.len() >= m.len(),
        step_exact(m, e),
    ensures
        step_remainder(m, e).len() < e.len(),
{
    let c: int = step_quot(m, e);
    assert(c * m.last() == e.last());
    let k: nat = (e.len() - m.len()) as nat;
    let ns: Seq<int> = neg_shift(c, k, m);
    lemma_neg_shift_coeff(c, k, m);
    lemma_poly_add_coeff(e, ns);
    assert forall|i: int| #![trigger coeff_at(poly_add(e, ns), i)]
        i >= e.len() - 1 implies coeff_at(poly_add(e, ns), i) == 0 by {
        assert(coeff_at(ns, i) == -c * coeff_at(m, i - k));
        if i == e.len() - 1 {
            assert(coeff_at(m, i - k) == m.last());
            assert(coeff_at(e, i) == e.last());
            assert(e.last() + -c * m.last() == 0) by (nonlinear_arith)
                requires c * m.last() == e.last();
        } else {
            assert(coeff_at(e, i) == 0);
            assert(coeff_at(m, i - k) == 0);
            assert(-c * 0 == 0) by (nonlinear_arith);
        }
    }
    lemma_trim_len_bound(poly_add(e, ns), e.len() - 1);
}

/// A quotient ring of the polynomial ring, defined by a fixed non-zero
/// modulus polynomial (the ideal generator).
#[derive(Debug)]
pub struct QuotientRing {
    ideal_generator: Polynomial,
}

impl QuotientRing {
    /// The coefficients of the modulus.
    pub closed spec fn modulus(&self) -> Seq<int> {
        self.ideal_generator@
    }

    /// Validity: the modulus is normalized and non-zero.
    pub open spec fn wf(&self) -> bool {
        is_normalized(self.modulus()) && self.modulus().len() > 0
    }

    /// Builds the quotient ring defined by `ideal_generator`, rejecting the
    /// zero polynomial, for which reduction would be undefined.
    pub fn new(ideal_generator: Polynomial) -> (r: Result<QuotientRing, RingError>)
        requires
            ideal_generator.wf(),
        ensures
            ideal_generator@.len() == 0 ==> (r matches Err(e) && e == RingError::ZeroModulus),
            ideal_generator@.len() > 0 ==> (r matches Ok(ring) && ring.wf() && ring.modulus()
                == ideal_generator@),
    {
        if ideal_generator.is_zero() {
            Err(RingError::ZeroModulus)
        } else {
            Ok(QuotientRing { ideal_generator })
        }
    }

    /// Reduces `element` to the canonical representative of its equivalence
    /// class: the unique remainder of polynomial long division by the
    /// modulus, whose degree is strictly below the modulus's degree.
    ///
    /// The result equals, case for case, the spec-level long division
    /// `spec_reduce`: it succeeds if and only if every elimination step
    /// divides evenly and stays within `i64`'s range, and on success the
    /// representative is exactly the remainder that division computes.  On
    /// success the result `rep` also satisfies
    /// `element == q * modulus + rep` for some polynomial `q`, with
    /// `degree(rep) < degree(modulus)`.  Reduction is idempotent: an element
    /// already below the modulus's degree is returned unchanged.
    /// `InexactDivision` reports a leading coefficient that the modulus's
    /// leading coefficient does not divide evenly; `Overflow` reports a
    /// coefficient that left the range of `i64`.
    pub fn get_representative(&self, element: Polynomial) -> (r: Result<
        Polynomial,
        RingError,
    >)
        requires
            self.wf(),
            element.wf(),
        ensures
            r matches Ok(rep) ==> spec_reduce(self.modulus(), element@) == Ok::<
                Seq<int>,
                RingError,
            >(rep@),
            r matches Err(err) ==> spec_reduce(self.modulus(), element@) == Err::<
                Seq<int>,
                RingError,
            >(err),
            r matches Ok(rep) ==> rep.wf() && rep@.len() < self.modulus().len() && exists|
                q: Seq<int>,
            | element@ == #[trigger] trim(poly_add(poly_mul(q, self.modulus()), rep@)),
            r matches Ok(rep) ==> degree_of(rep@) < degree_of(self.modulus()),
            element@.len() < self.modulus().len() ==> (r matches Ok(rep) && rep@ == element@),
            r matches Err(e) ==> e == RingError::InexactDivision || e == RingError::Overflow,
            self.modulus().last() == 1 || self.modulus().last() == -1 ==> r != Err::<
                Polynomial,
                RingError,
            >(RingError::InexactDivision),
    {
        let m_len: usize = self.ideal_generator.num_coeffs();
        let ghost m: Seq<int> = self.modulus();
        let ghost orig: Seq<int> = element@;
        let mut cur: Polynomial = element;
        let ghost mut qg: Seq<int> = Seq::empty();
        proof {
            assert(poly_mul(qg, m) == Seq::<int>::empty());
            assert(poly_add(Seq::<int>::empty(), cur@) =~= cur@);
            lemma_trim_identity(cur@);
        }
        let mut c_len: usize = cur.num_coeffs();
        while c_len >= m_len
            invariant
                self.wf(),
                cur.wf(),
                m == self.modulus(),
                m_len == m.len(),
                c_len == cur@.len(),
                orig == element@,
                orig == trim(poly_add(poly_mul(qg, m), cur@)),
                orig.len() < m_len ==> cur@ == orig,
                spec_reduce(m, orig) == spec_reduce(m, cur@),
            decreases c_len,
        {
            proof {
                // An element already below the modulus's degree never enters
                // the loop, so no error exit can concern it.
                if orig.len() < m_len {
                    assert(cur@ == orig);
                    assert(false);
                }
            }
            let lc: i64 = cur.leading();
            let lm: i64 = self.ideal_generator.leading();
            proof {
                assert(lm as int == m.last());
                assert(lm != 0);
                assert(lc as int == cur@.last());
            }
            if lc == i64::MIN && lm == -1 {
                proof {
                    // The exact quotient here is 2^63, one past i64's range.
                    assert((0x8000_0000_0000_0000int) * m.last() == cur@.last());
                    lemma_exact_quot(m, cur@, 0x8000_0000_0000_0000int);
                    assert(spec_reduce(m, cur@) == Err::<Seq<int>, RingError>(
                        RingError::Overflow,
                    ));
                }
                return Err(RingError::Overflow);
            }
            let c: i64 = match exact_div(lc, lm) {
                Some(c) => c,
                None => {
                    proof {
                        // No integer multiplies the modulus's leading
                        // coefficient to the element's, so the step is
                        // inexact; a unit leading coefficient always
                        // divides evenly, so this branch cannot be reached
                        // for it.
                        if step_exact(m, cur@) {
                            let c0: int = step_quot(m, cur@);
                            assert(c0 * m.last() == cur@.last());
                            assert(c0 * (lm as int) != lc as int);
                            assert(false);
                        }
                        assert(spec_reduce(m, cur@) == Err::<Seq<int>, RingError>(
                            RingError::InexactDivision,
                        ));
                        if lm as int == 1 || lm as int == -1 {
                            assert((lc as int) * (lm as int) != lc as int);
                            assert((-(lc as int)) * (lm as int) != lc as int);
                            assert(false);
                        }
                    }
                    return Err(RingError::InexactDivision);
                },
            };
            proof {
                lemma_exact_quot(m, cur@, c as int);
            }
            let k: usize = c_len - m_len;
            let prod: Polynomial = match self.ideal_generator.neg_scaled_shift(c, k) {
                Some(p) => p,
                None => {
                    proof {
                        // Some subtrahend coefficient leaves i64's range.
                        if step_fits(m, cur@) {
                            assert(forall|i: int| #![trigger m[i]]
                                0 <= i < m.len() ==> in_i64(-(c as int) * m[i]));
                            assert(false);
                        }
                        assert(spec_reduce(m, cur@) == Err::<Seq<int>, RingError>(
                            RingError::Overflow,
                        ));
                    }
                    return Err(RingError::Overflow);
                },
            };
            let next: Polynomial = match cur.checked_add(&prod) {
                Some(p) => p,
                None => {
                    proof {
                        // Some coefficient of the step's sum leaves i64's
                        // range.
                        if step_fits(m, cur@) {
                            let ns: Seq<int> = neg_shift(c as int, k as nat, m);
                            lemma_neg_shift_coeff(c as int, k as nat, m);
                            assert forall|i: int| #![trigger coeff_at(cur@, i)]
                                in_i64(coeff_at(cur@, i) + coeff_at(prod@, i)) by {
                                assert(in_i64(coeff_at(cur@, i) + coeff_at(ns, i)));
                                assert(coeff_at(prod@, i) == -(c as int) * coeff_at(
                                    m,
                                    i - k,
                                ));
                                assert(coeff_at(ns, i) == -(c as int) * coeff_at(
                                    m,
                                    i - k,
                                ));
                            }
                            assert(add_fits(cur@, prod@));
                            assert(false);
                        }
                        assert(spec_reduce(m, cur@) == Err::<Seq<int>, RingError>(
                            RingError::Overflow,
                        ));
                    }
                    return Err(RingError::Overflow);
                },
            };
            proof {
                let t: Seq<int> = term_seq(c as int, k as nat);
                let qg2: Seq<int> = poly_add(qg, t);
                lemma_poly_mul_coeff(qg, m);
                lemma_poly_mul_coeff(qg2, m);
                lemma_poly_add_coeff(qg, t);
                lemma_poly_add_coeff(cur@, prod@);
                lemma_poly_add_coeff(poly_mul(qg2, m), next@);
                lemma_poly_add_coeff(poly_mul(qg, m), cur@);
                lemma_trim_coeff_at(poly_add(cur@, prod@));
                // The leading term cancels, and nothing above it survives.
                assert forall|i: int| #![trigger coeff_at(poly_add(cur@, prod@), i)]
                    i >= c_len - 1 implies coeff_at(poly_add(cur@, prod@), i) == 0 by {
                    assert(coeff_at(prod@, i) == -(c as int) * coeff_at(m, i - k));
                    if i == c_len - 1 {
                        assert(coeff_at(cur@, i) == lc as int);
                        assert(coeff_at(m, i - k) == lm as int);
                        assert(lc as int + (-(c as int)) * (lm as int) == 0)
                            by (nonlinear_arith)
                            requires lc as int == c as int * lm as int;
                    } else {
                        assert(coeff_at(cur@, i) == 0);
                        assert(coeff_at(m, i - k) == 0);
                        assert((-(c as int)) * 0 == 0) by (nonlinear_arith);
                    }
                }
                lemma_trim_len_bound(poly_add(cur@, prod@), c_len - 1);
                // The invariant relation carries over to the updated pair.
                assert forall|i: int| #![trigger coeff_at(poly_add(poly_mul(qg2, m), next@), i)]
                    coeff_at(poly_add(poly_mul(qg2, m), next@), i) == coeff_at(
                    poly_add(poly_mul(qg, m), cur@),
                    i,
                ) by {
                    if i >= 0 {
                        lemma_conv_sum_linear(qg2, qg, t, m, i, (i + 1) as nat);
                        lemma_conv_sum_monomial(c as int, k as nat, m, i, (i + 1) as nat);
                        assert(coeff_at(next@, i) == coeff_at(cur@, i) + coeff_at(prod@, i));
                        assert(coeff_at(prod@, i) == -(c as int) * coeff_at(m, i - k));
                        if i < k {
                            assert(coeff_at(m, i - k) == 0);
                            assert((c as int) * 0 == 0) by (nonlinear_arith);
                            assert((-(c as int)) * 0 == 0) by (nonlinear_arith);
                        } else {
                            assert(conv_at(t, m, i) == (c as int) * coeff_at(m, i - k));
                            assert((c as int) * coeff_at(m, i - k) + (-(c as int)) * coeff_at(
                                m,
                                i - k,
                            ) == 0) by (nonlinear_arith);
                        }
                    }
                }
                lemma_trim_congruent(poly_add(poly_mul(qg2, m), next@), poly_add(poly_mul(qg, m), cur@));
                qg = qg2;
                // The executable step is exactly one step of the spec-level
                // division, so the division's verdict is unchanged.
                let ns: Seq<int> = neg_shift(c as int, k as nat, m);
                lemma_neg_shift_coeff(c as int, k as nat, m);
                lemma_poly_add_coeff(cur@, ns);
                assert forall|i: int| #![trigger coeff_at(poly_add(cur@, prod@), i)]
                    coeff_at(poly_add(cur@, prod@), i) == coeff_at(poly_add(cur@, ns), i) by {
                    assert(coeff_at(prod@, i) == -(c as int) * coeff_at(m, i - k));
                    assert(coeff_at(ns, i) == -(c as int) * coeff_at(m, i - k));
                }
                lemma_trim_congruent(poly_add(cur@, prod@), poly_add(cur@, ns));
                assert(next@ == step_remainder(m, cur@));
                assert(step_fits(m, cur@)) by {
                    assert(forall|i: int| #![trigger m[i]]
                        0 <= i < m.len() ==> in_i64(-(c as int) * m[i]));
                    assert forall|i: int| #![trigger coeff_at(cur@, i)]
                        in_i64(coeff_at(cur@, i) + coeff_at(ns, i)) by {
                        assert(in_i64(coeff_at(cur@, i) + coeff_at(prod@, i)));
                        assert(coeff_at(prod@, i) == -(c as int) * coeff_at(m, i - k));
                        assert(coeff_at(ns, i) == -(c as int) * coeff_at(m, i - k));
                    }
                }
                assert(spec_reduce(m, cur@) == spec_reduce(m, next@));
            }
            cur = next;
            c_len = cur.num_coeffs();
        }
        proof {
            assert(orig == trim(poly_add(poly_mul(qg, m), cur@)));
            assert(spec_reduce(m, cur@) == Ok::<Seq<int>, RingError>(cur@));
        }
        Ok(cur)
    }
}

} // verus!
