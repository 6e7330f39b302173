//! The ring laws of polynomial arithmetic, stated over the same spec-level
//! operations that the executable operations are specified with: `add`
//! returns `trim(poly_add(..))` and `mul` returns `trim(poly_mul(..))`, so
//! each lemma here is a statement about the results of those operations.

use vstd::prelude::*;

use crate::model::coeff_at;
use crate::model::conv_at;
use crate::model::is_normalized;
use crate::model::lemma_conv_at_commutes;
use crate::model::lemma_conv_sum_linear;
use crate::model::lemma_conv_sum_top;
use crate::model::lemma_conv_sum_zero_left;
use crate::model::lemma_normalized_unique;
use crate::model::lemma_poly_add_coeff;
use crate::model::lemma_poly_mul_coeff;
use crate::model::lemma_trim_coeff_at;
use crate::model::lemma_trim_congruent;
use crate::model::lemma_trim_identity;
use crate::model::lemma_trim_normalized;
use crate::model::poly_add;
use crate::model::poly_mul;
use crate::model::term_seq;
use crate::model::trim;
use crate::poly::int_view;
use crate::poly::Polynomial;

verus! {

/// Addition of polynomials is commutative: `p.add(q)` and `q.add(p)` return
/// the same polynomial.
pub proof fn law_add_commutative(p: &Polynomial, q: &Polynomial)
    ensures
        trim(poly_add(p@, q@)) == trim(poly_add(q@, p@)),
{
    assert(poly_add(p@, q@) =~= poly_add(q@, p@));
}

/// Addition of polynomials is associative: `p.add(q).add(r)` and
/// `p.add(q.add(r))` return the same polynomial.
pub proof fn law_add_associative(p: &Polynomial, q: &Polynomial, r: &Polynomial)
    ensures
        trim(poly_add(trim(poly_add(p@, q@)), r@)) == trim(
            poly_add(p@, trim(poly_add(q@, r@))),
        ),
{
    let pq: Seq<int> = poly_add(p@, q@);
    let qr: Seq<int> = poly_add(q@, r@);
    lemma_trim_coeff_at(pq);
    lemma_trim_coeff_at(qr);
    lemma_poly_add_coeff(p@, q@);
    lemma_poly_add_coeff(q@, r@);
    lemma_poly_add_coeff(trim(pq), r@);
    lemma_poly_add_coeff(p@, trim(qr));
    assert forall|i: int| #![trigger coeff_at(poly_add(trim(pq), r@), i)]
        coeff_at(poly_add(trim(pq), r@), i) == coeff_at(poly_add(p@, trim(qr)), i) by {
        assert(coeff_at(trim(pq), i) == coeff_at(pq, i));
        assert(coeff_at(trim(qr), i) == coeff_at(qr, i));
    }
    lemma_trim_congruent(poly_add(trim(pq), r@), poly_add(p@, trim(qr)));
}

/// The zero polynomial is the additive identity: `p.add(&zero())` returns
/// `p` itself.
pub proof fn law_add_zero_identity(p: &Polynomial)
    requires
        p.wf(),
    ensures
        trim(poly_add(p@, Seq::<int>::empty())) == p@,
{
    assert(poly_add(p@, Seq::<int>::empty()) =~= p@);
    lemma_trim_identity(p@);
}

/// Multiplication of polynomials is commutative: `p.mul(q)` and `q.mul(p)`
/// return the same polynomial.
pub proof fn law_mul_commutative(p: &Polynomial, q: &Polynomial)
    ensures
        trim(poly_mul(p@, q@)) == trim(poly_mul(q@, p@)),
{
    if p@.len() == 0 || q@.len() == 0 {
        assert(poly_mul(p@, q@) == Seq::<int>::empty());
        assert(poly_mul(q@, p@) == Seq::<int>::empty());
    } else {
        assert forall|k: int| 0 <= k < p@.len() + q@.len() - 1 implies poly_mul(p@, q@)[k]
            == poly_mul(q@, p@)[k] by {
            lemma_conv_at_commutes(p@, q@, k);
        }
        assert(poly_mul(p@, q@) =~= poly_mul(q@, p@));
    }
}

/// Multiplying by the zero polynomial yields the zero polynomial:
/// `p.mul(&zero())` returns `zero()`.
pub proof fn law_mul_zero_annihilates(p: &Polynomial)
    ensures
        trim(poly_mul(p@, Seq::<int>::empty())) == Seq::<int>::empty(),
{
}

/// Multiplication distributes over addition: `p.add(q).mul(r)` and
/// `p.mul(r).add(&q.mul(r))` return the same polynomial.
pub proof fn law_mul_distributes_over_add(p: &Polynomial, q: &Polynomial, r: &Polynomial)
    ensures
        trim(poly_mul(trim(poly_add(p@, q@)), r@)) == trim(
            poly_add(trim(poly_mul(p@, r@)), trim(poly_mul(q@, r@))),
        ),
{
    let s: Seq<int> = trim(poly_add(p@, q@));
    lemma_trim_coeff_at(poly_add(p@, q@));
    lemma_poly_add_coeff(p@, q@);
    lemma_poly_mul_coeff(s, r@);
    lemma_poly_mul_coeff(p@, r@);
    lemma_poly_mul_coeff(q@, r@);
    lemma_trim_coeff_at(poly_mul(p@, r@));
    lemma_trim_coeff_at(poly_mul(q@, r@));
    lemma_poly_add_coeff(trim(poly_mul(p@, r@)), trim(poly_mul(q@, r@)));
    assert forall|i: int| #![trigger coeff_at(poly_mul(s, r@), i)]
        coeff_at(poly_mul(s, r@), i) == coeff_at(
        poly_add(trim(poly_mul(p@, r@)), trim(poly_mul(q@, r@))),
        i,
    ) by {
        if i >= 0 {
            assert forall|j: int| #![trigger coeff_at(s, j)]
                coeff_at(s, j) == coeff_at(p@, j) + coeff_at(q@, j) by {
                assert(coeff_at(s, j) == coeff_at(poly_add(p@, q@), j));
            }
            lemma_conv_sum_linear(s, p@, q@, r@, i, (i + 1) as nat);
            assert(coeff_at(poly_mul(s, r@), i) == conv_at(s, r@, i));
        }
    }
    lemma_trim_congruent(
        poly_mul(s, r@),
        poly_add(trim(poly_mul(p@, r@)), trim(poly_mul(q@, r@))),
    );
}

/// A single term built with `new_term(c, k)` equals the polynomial built
/// with `new` from `k` zero coefficients followed by `c`: both sides are
/// specified as the trimmed form of the same coefficient sequence.
pub proof fn law_new_term_matches_padded(c: i64, pad: Seq<i64>)
    requires
        pad.len() >= 1,
        forall|i: int| 0 <= i < pad.len() - 1 ==> pad[i] == 0i64,
        pad[pad.len() - 1] == c,
    ensures
        trim(term_seq(c as int, (pad.len() - 1) as nat)) == trim(int_view(pad)),
{
    assert(int_view(pad) =~= term_seq(c as int, (pad.len() - 1) as nat));
}

/// The canonical representative of an equivalence class is unique: two
/// normalized remainders of degree below the modulus's degree that are both
/// congruent to the same element (each witnessed by a quotient) are equal.
/// This is what makes the result of reduction canonical: integer
/// coefficients form an integral domain, so a non-zero quotient difference
/// would raise the degree back to the modulus's degree or above.
pub proof fn law_representative_unique(
    m: Seq<int>,
    e: Seq<int>,
    q1: Seq<int>,
    r1: Seq<int>,
    q2: Seq<int>,
    r2: Seq<int>,
)
    requires
        is_normalized(m),
        m.len() > 0,
        is_normalized(r1),
        is_normalized(r2),
        r1.len() < m.len(),
        r2.len() < m.len(),
        e == trim(poly_add(poly_mul(q1, m), r1)),
        e == trim(poly_add(poly_mul(q2, m), r2)),
    ensures
        r1 == r2,
{
    lemma_poly_mul_coeff(q1, m);
    lemma_poly_mul_coeff(q2, m);
    lemma_poly_add_coeff(poly_mul(q1, m), r1);
    lemma_poly_add_coeff(poly_mul(q2, m), r2);
    lemma_trim_coeff_at(poly_add(poly_mul(q1, m), r1));
    lemma_trim_coeff_at(poly_add(poly_mul(q2, m), r2));
    // The difference of the two quotients, coefficient by coefficient.
    let dq: Seq<int> = Seq::new(
        if q1.len() >= q2.len() {
            q1.len()
        } else {
            q2.len()
        },
        |i: int| coeff_at(q1, i) - coeff_at(q2, i),
    );
    assert forall|i: int| #![trigger conv_at(dq, m, i)]
        i >= 0 implies conv_at(dq, m, i) == coeff_at(r2, i) - coeff_at(r1, i) by {
        lemma_conv_sum_linear(q1, dq, q2, m, i, (i + 1) as nat);
        assert(coeff_at(e, i) == conv_at(q1, m, i) + coeff_at(r1, i));
        assert(coeff_at(e, i) == conv_at(q2, m, i) + coeff_at(r2, i));
    }
    let t: Seq<int> = trim(dq);
    lemma_trim_coeff_at(dq);
    lemma_trim_normalized(dq);
    if t.len() == 0 {
        assert forall|i: int| #![trigger coeff_at(dq, i)] coeff_at(dq, i) == 0 by {
            assert(coeff_at(t, i) == coeff_at(dq, i));
        }
        assert forall|i: int| #![trigger coeff_at(r1, i)]
            coeff_at(r1, i) == coeff_at(r2, i) by {
            if i >= 0 {
                lemma_conv_sum_zero_left(dq, m, i, (i + 1) as nat);
                assert(conv_at(dq, m, i) == 0);
            }
        }
        lemma_normalized_unique(r1, r2);
    } else {
        let top: int = t.len() - 1;
        assert(coeff_at(dq, top) == coeff_at(t, top));
        assert(coeff_at(t, top) == t[top]);
        assert forall|i: int| #![trigger coeff_at(dq, i)]
            i > top implies coeff_at(dq, i) == 0 by {
            assert(coeff_at(t, i) == coeff_at(dq, i));
        }
        let kk: int = top + m.len() - 1;
        lemma_conv_sum_top(dq, m, top, kk, (kk + 1) as nat);
        assert(conv_at(dq, m, kk) == coeff_at(dq, top) * m[m.len() - 1]);
        assert(coeff_at(dq, top) * m[m.len() - 1] != 0) by (nonlinear_arith)
            requires coeff_at(dq, top) != 0, m[m.len() - 1] != 0;
        assert(coeff_at(r1, kk) == 0);
        assert(coeff_at(r2, kk) == 0);
        assert(false);
    }
}

} // verus!
