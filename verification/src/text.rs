//! Canonical string rendering: terms from lowest to highest power, joined by
//! `" + "`; the coefficient in decimal, the variable written `x`, and powers
//! of two or more written `x^k`.

use vstd::prelude::*;
use vstd::string::StringExecFns;

use crate::model::coeff_at;
use crate::poly::Polynomial;

verus! {

/// The decimal digit character for a value between 0 and 9.
pub open spec fn digit_char(d: int) -> char {
    if d == 0 {
        '0'
    } else if d == 1 {
        '1'
    } else if d == 2 {
        '2'
    } else if d == 3 {
        '3'
    } else if d == 4 {
        '4'
    } else if d == 5 {
        '5'
    } else if d == 6 {
        '6'
    } else if d == 7 {
        '7'
    } else if d == 8 {
        '8'
    } else {
        '9'
    }
}

/// The decimal rendering of a non-negative integer, most significant digit
/// first.
pub open spec fn dec_seq(n: nat) -> Seq<char>
    decreases n,
{
    if n < 10 {
        seq![digit_char(n as int)]
    } else {
        dec_seq(n / 10) + seq![digit_char((n % 10) as int)]
    }
}

/// The decimal rendering of an integer, with a leading minus sign when
/// negative.
pub open spec fn int_seq(n: int) -> Seq<char> {
    if n < 0 {
        seq!['-'] + dec_seq((-n) as nat)
    } else {
        dec_seq(n as nat)
    }
}

/// The variable part of a term: nothing at power 0, `x` at power 1, and
/// `x^k` from power 2 upward.
pub open spec fn var_seq(k: nat) -> Seq<char> {
    if k == 0 {
        Seq::empty()
    } else if k == 1 {
        seq!['x']
    } else {
        seq!['x', '^'] + dec_seq(k)
    }
}

/// One rendered term: the coefficient followed by the variable part.
pub open spec fn term_text(c: int, k: nat) -> Seq<char> {
    int_seq(c) + var_seq(k)
}

/// The first `n` terms of a polynomial, joined by `" + "`.
pub open spec fn render_terms(s: Seq<int>, n: nat) -> Seq<char>
    decreases n,
{
    if n == 0 {
        Seq::empty()
    } else if n == 1 {
        term_text(coeff_at(s, 0), 0)
    } else {
        render_terms(s, (n - 1) as nat) + seq![' ', '+', ' '] + term_text(
            coeff_at(s, n - 1),
            (n - 1) as nat,
        )
    }
}

/// The canonical rendering of a coefficient sequence: `"0"` for the zero
/// polynomial, else its terms from lowest to highest power.
pub open spec fn render(s: Seq<int>) -> Seq<char> {
    if s.len() == 0 {
        seq!['0']
    } else {
        render_terms(s, s.len())
    }
}

/// The one-character string for a decimal digit.
fn digit_str(d: u64) -> (r: &'static str)
    requires
        d < 10,
    ensures
        r@ == seq![digit_char(d as int)],
{
    let r: &'static str = match d {
        0u64 => "0",
        1u64 => "1",
        2u64 => "2",
        3u64 => "3",
        4u64 => "4",
        5u64 => "5",
        6u64 => "6",
        7u64 => "7",
        8u64 => "8",
        _ => "9",
    };
    proof {
        reveal_strlit("0");
        reveal_strlit("1");
        reveal_strlit("2");
        reveal_strlit("3");
        reveal_strlit("4");
        reveal_strlit("5");
        reveal_strlit("6");
        reveal_strlit("7");
        reveal_strlit("8");
        reveal_strlit("9");
        assert(r@ =~= seq![digit_char(d as int)]);
    }
    r
}

/// Appends the decimal rendering of `n`.
fn push_dec(out: &mut String, n: u64)
    ensures
        final(out)@ == old(out)@ + dec_seq(n as nat),
    decreases n,
{
    if n >= 10 {
        push_dec(out, n / 10);
        out.append(digit_str(n % 10));
        proof {
            assert(final(out)@ =~= old(out)@ + dec_seq(n as nat));
        }
    } else {
        out.append(digit_str(n));
    }
}

/// Appends the decimal rendering of a signed coefficient.
fn push_i64(out: &mut String, c: i64)
    ensures
        final(out)@ == old(out)@ + int_seq(c as int),
{
    if c < 0 {
        out.append("-");
        let mag: u64 = (-(c as i128)) as u64;
        push_dec(out, mag);
        proof {
            reveal_strlit("-");
            assert(final(out)@ =~= old(out)@ + int_seq(c as int));
        }
    } else {
        push_dec(out, c as u64);
    }
}

/// Appends the variable part of a term at power `k`.
fn push_var(out: &mut String, k: usize)
    ensures
        final(out)@ == old(out)@ + var_seq(k as nat),
{
    if k == 0 {
        proof {
            assert(final(out)@ =~= old(out)@ + var_seq(0));
        }
    } else if k == 1 {
        out.append("x");
        proof {
            reveal_strlit("x");
            assert(final(out)@ =~= old(out)@ + var_seq(1));
        }
    } else {
        out.append("x^");
        push_dec(out, k as u64);
        proof {
            reveal_strlit("x^");
            assert(final(out)@ =~= old(out)@ + var_seq(k as nat));
        }
    }
}

impl Polynomial {
    /// The canonical textual form: `"0"` for the zero polynomial, else the
    /// terms from lowest to highest power joined by `" + "`.
    pub fn to_string(&self) -> (r: String)
        ensures
            r@ == render(self@),
    {
        let n: usize = self.num_coeffs();
        if n == 0 {
            let r: String = "0".to_owned();
            proof {
                reveal_strlit("0");
                assert(r@ =~= render(self@));
            }
            return r;
        }
        let mut out: String = String::new();
        push_i64(&mut out, self.coeff(0));
        proof {
            assert(out@ =~= render_terms(self@, 1));
        }
        let mut i: usize = 1;
        while i < n
            invariant
                1 <= i <= n,
                n == self@.len(),
                out@ == render_terms(self@, i as nat),
            decreases n - i,
        {
            out.append(" + ");
            push_i64(&mut out, self.coeff(i));
            push_var(&mut out, i);
            proof {
                reveal_strlit(" + ");
                assert(out@ =~= render_terms(self@, (i + 1) as nat));
            }
            i += 1;
        }
        out
    }
}

} // verus!
