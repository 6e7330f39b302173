//! The mathematical model: coefficient sequences over `int`, the spec-level
//! polynomial operations, and the lemmas that relate them.
//!
//! A polynomial is modelled as a `Seq<int>` in which index `i` holds the
//! coefficient of `x^i`.  The canonical (normalized) form carries no trailing
//! zero coefficient; `trim` maps any sequence to that form.

use vstd::prelude::*;

verus! {

/// Coefficient of `x^i` in a stored sequence; zero beyond the stored length.
pub open spec fn coeff_at(s: Seq<int>, i: int) -> int {
    if 0 <= i < s.len() {
        s[i]
    } else {
        0
    }
}

/// A sequence is normalized when it carries no trailing zero coefficient.
pub open spec fn is_normalized(s: Seq<int>) -> bool {
    s.len() == 0 || s[s.len() - 1] != 0
}

/// Strip trailing zero coefficients, yielding the canonical form.
pub open spec fn trim(s: Seq<int>) -> Seq<int>
    decreases s.len(),
{
    if s.len() == 0 {
        s
    } else if s[s.len() - 1] == 0 {
        trim(s.drop_last())
    } else {
        s
    }
}

/// Coefficient-wise sum, out to the length of the longer operand.
pub open spec fn poly_add(a: Seq<int>, b: Seq<int>) -> Seq<int> {
    Seq::new(
        if a.len() >= b.len() {
            a.len()
        } else {
            b.len()
        },
        |i: int| coeff_at(a, i) + coeff_at(b, i),
    )
}

/// The single-term polynomial `c * x^k`: `k` zeros followed by `c`.
pub open spec fn term_seq(c: int, k: nat) -> Seq<int> {
    Seq::new(k + 1, |i: int| if i == k { c } else { 0 })
}

/// Partial convolution: the sum of `a_i * b_(k-i)` over `0 <= i < n`.
pub open spec fn conv_sum(a: Seq<int>, b: Seq<int>, k: int, n: nat) -> int
    decreases n,
{
    if n == 0 {
        0
    } else {
        conv_sum(a, b, k, (n - 1) as nat) + coeff_at(a, n - 1) * coeff_at(b, k - (n - 1))
    }
}

/// Coefficient of `x^k` in the product of `a` and `b` (for `k >= 0`).
pub open spec fn conv_at(a: Seq<int>, b: Seq<int>, k: int) -> int {
    conv_sum(a, b, k, (k + 1) as nat)
}

/// Convolution product; empty whenever either operand is empty.
pub open spec fn poly_mul(a: Seq<int>, b: Seq<int>) -> Seq<int> {
    if a.len() == 0 || b.len() == 0 {
        Seq::empty()
    } else {
        Seq::new((a.len() + b.len() - 1) as nat, |k: int| conv_at(a, b, k))
    }
}

/// The degree of a normalized coefficient sequence; `-1` for the zero
/// polynomial.
pub open spec fn degree_of(s: Seq<int>) -> int {
    s.len() - 1
}

/// Trimming never changes any coefficient: the entries it removes are zero.
pub proof fn lemma_trim_coeff_at(s: Seq<int>)
    ensures
        forall|i: int| #![trigger coeff_at(trim(s), i)] coeff_at(trim(s), i) == coeff_at(s, i),
    decreases s.len(),
{
    if s.len() == 0 {
    } else if s[s.len() - 1] == 0 {
        lemma_trim_coeff_at(s.drop_last());
        assert forall|i: int| coeff_at(trim(s), i) == coeff_at(s, i) by {
            assert(coeff_at(trim(s.drop_last()), i) == coeff_at(s.drop_last(), i));
        }
    } else {
    }
}

/// The result of trimming is normalized.
pub proof fn lemma_trim_normalized(s: Seq<int>)
    ensures
        is_normalized(trim(s)),
    decreases s.len(),
{
    if s.len() == 0 {
    } else if s[s.len() - 1] == 0 {
        lemma_trim_normalized(s.drop_last());
    } else {
    }
}

/// Two normalized sequences with the same coefficients everywhere are equal.
pub proof fn lemma_normalized_unique(a: Seq<int>, b: Seq<int>)
    requires
        is_normalized(a),
        is_normalized(b),
        forall|i: int| #![trigger coeff_at(a, i)] coeff_at(a, i) == coeff_at(b, i),
    ensures
        a == b,
{
    if a.len() < b.len() {
        assert(coeff_at(a, b.len() - 1) == 0);
        assert(coeff_at(b, b.len() - 1) == b[b.len() - 1]);
        assert(false);
    }
    if b.len() < a.len() {
        assert(coeff_at(a, a.len() - 1) == a[a.len() - 1]);
        assert(coeff_at(b, a.len() - 1) == 0);
        assert(false);
    }
    assert forall|i: int| 0 <= i < a.len() implies a[i] == b[i] by {
        assert(coeff_at(a, i) == coeff_at(b, i));
    }
    assert(a =~= b);
}

/// Sequences with the same coefficients everywhere trim to the same canonical
/// form.
pub proof fn lemma_trim_congruent(a: Seq<int>, b: Seq<int>)
    requires
        forall|i: int| #![trigger coeff_at(a, i)] coeff_at(a, i) == coeff_at(b, i),
    ensures
        trim(a) == trim(b),
{
    lemma_trim_coeff_at(a);
    lemma_trim_coeff_at(b);
    lemma_trim_normalized(a);
    lemma_trim_normalized(b);
    assert forall|i: int| #![trigger coeff_at(trim(a), i)] coeff_at(trim(a), i) == coeff_at(
        trim(b),
        i,
    ) by {
        assert(coeff_at(a, i) == coeff_at(b, i));
    }
    lemma_normalized_unique(trim(a), trim(b));
}

/// Trimming a normalized sequence is the identity.
pub proof fn lemma_trim_identity(s: Seq<int>)
    requires
        is_normalized(s),
    ensures
        trim(s) == s,
{
}

/// If every coefficient from position `bound` upward is zero, the canonical
/// form is no longer than `bound`.
pub proof fn lemma_trim_len_bound(s: Seq<int>, bound: int)
    requires
        0 <= bound,
        forall|i: int| #![trigger coeff_at(s, i)] i >= bound ==> coeff_at(s, i) == 0,
    ensures
        trim(s).len() <= bound,
{
    lemma_trim_coeff_at(s);
    lemma_trim_normalized(s);
    if trim(s).len() > bound {
        let last: int = trim(s).len() - 1;
        assert(coeff_at(trim(s), last) == trim(s)[last]);
        assert(coeff_at(s, last) == 0);
        assert(false);
    }
}

/// The coefficients of a sum are the sums of the coefficients, at every
/// position.
pub proof fn lemma_poly_add_coeff(a: Seq<int>, b: Seq<int>)
    ensures
        forall|i: int| #![trigger coeff_at(poly_add(a, b), i)]
            coeff_at(poly_add(a, b), i) == coeff_at(a, i) + coeff_at(b, i),
{
}

/// Convolution is additive in its left operand, coefficient by coefficient.
pub proof fn lemma_conv_sum_linear(s: Seq<int>, a1: Seq<int>, a2: Seq<int>, b: Seq<int>, k: int, n: nat)
    requires
        forall|i: int| #![trigger coeff_at(s, i)]
            coeff_at(s, i) == coeff_at(a1, i) + coeff_at(a2, i),
    ensures
        conv_sum(s, b, k, n) == conv_sum(a1, b, k, n) + conv_sum(a2, b, k, n),
    decreases n,
{
    if n > 0 {
        lemma_conv_sum_linear(s, a1, a2, b, k, (n - 1) as nat);
        assert(coeff_at(s, n - 1) == coeff_at(a1, n - 1) + coeff_at(a2, n - 1));
        assert((coeff_at(a1, n - 1) + coeff_at(a2, n - 1)) * coeff_at(b, k - (n - 1))
            == coeff_at(a1, n - 1) * coeff_at(b, k - (n - 1))
                + coeff_at(a2, n - 1) * coeff_at(b, k - (n - 1))) by (nonlinear_arith);
    }
}

/// Convolution with an all-zero left operand vanishes.
pub proof fn lemma_conv_sum_zero_left(z: Seq<int>, b: Seq<int>, k: int, n: nat)
    requires
        forall|i: int| #![trigger coeff_at(z, i)] coeff_at(z, i) == 0,
    ensures
        conv_sum(z, b, k, n) == 0,
    decreases n,
{
    if n > 0 {
        lemma_conv_sum_zero_left(z, b, k, (n - 1) as nat);
    }
}

/// Convolution with an all-zero right operand vanishes.
pub proof fn lemma_conv_sum_zero_right(a: Seq<int>, z: Seq<int>, k: int, n: nat)
    requires
        forall|i: int| #![trigger coeff_at(z, i)] coeff_at(z, i) == 0,
    ensures
        conv_sum(a, z, k, n) == 0,
    decreases n,
{
    if n > 0 {
        lemma_conv_sum_zero_right(a, z, k, (n - 1) as nat);
    }
}

/// Convolution of a single term against `b`: only the index `kk` of the term
/// contributes, pairing with coefficient `k - kk` of `b`.
pub proof fn lemma_conv_sum_monomial(c: int, kk: nat, b: Seq<int>, k: int, n: nat)
    ensures
        conv_sum(term_seq(c, kk), b, k, n) == if n > kk {
            c * coeff_at(b, k - kk)
        } else {
            0
        },
    decreases n,
{
    if n > 0 {
        lemma_conv_sum_monomial(c, kk, b, k, (n - 1) as nat);
    }
}

/// Beyond the combined degrees every term of the convolution pairs a
/// coefficient with one that lies out of range, so the sum vanishes.
pub proof fn lemma_conv_sum_out_of_range(a: Seq<int>, b: Seq<int>, k: int, n: nat)
    requires
        k >= a.len() + b.len() - 1,
    ensures
        conv_sum(a, b, k, n) == 0,
    decreases n,
{
    if n > 0 {
        lemma_conv_sum_out_of_range(a, b, k, (n - 1) as nat);
        if 0 <= n - 1 < a.len() {
            assert(k - (n - 1) >= b.len());
            assert(coeff_at(b, k - (n - 1)) == 0);
        } else {
            assert(coeff_at(a, n - 1) == 0);
        }
    }
}

/// A partial convolution sum is bounded by the number of left coefficients
/// that can contribute, times the largest possible product of a pair.
pub proof fn lemma_conv_sum_bound(a: Seq<int>, b: Seq<int>, k: int, n: nat, ca: int, cb: int)
    requires
        ca >= 0,
        cb >= 0,
        forall|i: int| #![trigger coeff_at(a, i)] -ca <= coeff_at(a, i) <= ca,
        forall|i: int| #![trigger coeff_at(b, i)] -cb <= coeff_at(b, i) <= cb,
    ensures
        -(if n <= a.len() { n as int } else { a.len() as int }) * ca * cb
            <= conv_sum(a, b, k, n)
            <= (if n <= a.len() { n as int } else { a.len() as int }) * ca * cb,
    decreases n,
{
    let w: int = if n <= a.len() { n as int } else { a.len() as int };
    if n == 0 {
        assert(-w * ca * cb == 0) by (nonlinear_arith)
            requires w == 0;
        assert(w * ca * cb == 0) by (nonlinear_arith)
            requires w == 0;
    } else {
        lemma_conv_sum_bound(a, b, k, (n - 1) as nat, ca, cb);
        let w0: int = if n - 1 <= a.len() { n - 1 } else { a.len() as int };
        let x: int = coeff_at(a, n - 1);
        let y: int = coeff_at(b, k - (n - 1));
        if n - 1 >= a.len() {
            assert(x == 0);
            assert(x * y == 0) by (nonlinear_arith)
                requires x == 0;
            assert(w0 == w);
        } else {
            assert(-ca <= x <= ca && -cb <= y <= cb);
            assert(-(ca * cb) <= x * y <= ca * cb) by (nonlinear_arith)
                requires -ca <= x <= ca, -cb <= y <= cb, ca >= 0, cb >= 0;
            assert(w == w0 + 1);
        }
        assert(w0 * ca * cb + ca * cb == (w0 + 1) * ca * cb) by (nonlinear_arith);
        assert(-w0 * ca * cb - ca * cb == -(w0 + 1) * ca * cb) by (nonlinear_arith);
        assert(w0 * ca * cb <= w * ca * cb) by (nonlinear_arith)
            requires w0 <= w, ca >= 0, cb >= 0;
        assert(-w0 * ca * cb >= -w * ca * cb) by (nonlinear_arith)
            requires w0 <= w, ca >= 0, cb >= 0;
    }
}

/// At position `D + b.len() - 1`, where `D` is the highest index at which
/// the left operand can be non-zero, exactly one convolution term survives:
/// the left coefficient at `D` times the last coefficient of `b`.
pub proof fn lemma_conv_sum_top(a: Seq<int>, b: Seq<int>, top: int, k: int, n: nat)
    requires
        b.len() > 0,
        top >= 0,
        k == top + b.len() - 1,
        forall|i: int| #![trigger coeff_at(a, i)] i > top ==> coeff_at(a, i) == 0,
    ensures
        conv_sum(a, b, k, n) == if n > top {
            coeff_at(a, top) * b[b.len() - 1]
        } else {
            0
        },
    decreases n,
{
    if n > 0 {
        lemma_conv_sum_top(a, b, top, k, (n - 1) as nat);
        if n - 1 < top {
            assert(k - (n - 1) >= b.len());
            assert(coeff_at(b, k - (n - 1)) == 0);
        } else if n - 1 == top {
            assert(coeff_at(b, k - (n - 1)) == b[b.len() - 1]);
        } else {
            assert(coeff_at(a, n - 1) == 0);
        }
    }
}

/// The coefficient of `x^k` in the product is the full convolution sum, at
/// every position `k >= 0`.
pub proof fn lemma_poly_mul_coeff(a: Seq<int>, b: Seq<int>)
    ensures
        forall|k: int| #![trigger coeff_at(poly_mul(a, b), k)]
            k >= 0 ==> coeff_at(poly_mul(a, b), k) == conv_at(a, b, k),
{
    assert forall|k: int| k >= 0 implies coeff_at(poly_mul(a, b), k) == conv_at(a, b, k) by {
        if a.len() == 0 || b.len() == 0 {
            assert forall|i: int| #![trigger coeff_at(a, i)]
                a.len() == 0 ==> coeff_at(a, i) == 0 by {}
            assert forall|i: int| #![trigger coeff_at(b, i)]
                b.len() == 0 ==> coeff_at(b, i) == 0 by {}
            if a.len() == 0 {
                lemma_conv_sum_zero_left(a, b, k, (k + 1) as nat);
            } else {
                lemma_conv_sum_zero_right(a, b, k, (k + 1) as nat);
            }
        } else if k < a.len() + b.len() - 1 {
        } else {
            lemma_conv_sum_out_of_range(a, b, k, (k + 1) as nat);
        }
    }
}

/// The first `n` terms of the convolution of `a` with `b` equal the last `n`
/// terms of the convolution of `b` with `a`: the two sums walk the same
/// products from opposite ends.
pub proof fn lemma_conv_sum_flip(a: Seq<int>, b: Seq<int>, k: int, n: nat)
    requires
        k >= 0,
        n <= k + 1,
    ensures
        conv_sum(a, b, k, n) == conv_at(b, a, k) - conv_sum(b, a, k, (k + 1 - n) as nat),
    decreases n,
{
    if n == 0 {
    } else {
        lemma_conv_sum_flip(a, b, k, (n - 1) as nat);
        let m: nat = (k + 2 - n) as nat;
        assert(conv_sum(b, a, k, m) == conv_sum(b, a, k, (m - 1) as nat)
            + coeff_at(b, m - 1) * coeff_at(a, k - (m - 1)));
        assert(coeff_at(a, n - 1) * coeff_at(b, k - (n - 1))
            == coeff_at(b, k - (n - 1)) * coeff_at(a, n - 1)) by (nonlinear_arith);
    }
}

/// Convolution is commutative: the product coefficient does not depend on
/// the order of the operands.
pub proof fn lemma_conv_at_commutes(a: Seq<int>, b: Seq<int>, k: int)
    requires
        k >= 0,
    ensures
        conv_at(a, b, k) == conv_at(b, a, k),
{
    lemma_conv_sum_flip(a, b, k, (k + 1) as nat);
}

} // verus!
