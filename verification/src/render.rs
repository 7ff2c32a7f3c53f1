//! Textual rendering of fixed-point vectors, for display only.
//!
//! A vector renders as `(x.xx, y.yy)` with two decimal places; a raindrop
//! collection renders as the vectors in order, each followed by a space.
//! The fixed-point value is printed to two decimals by dropping its third
//! decimal digit.

use vstd::prelude::*;
use vstd::string::StringExecFns;

use crate::fixed::{abs_int, abs_u64};
use crate::sim::V2;

verus! {

/// The decimal digit character for `d` in `0..10` (and `'9'` beyond).
pub open spec fn digit_char(d: int) -> char {
    if d == 0 {
        '0'
    } else if d == 1 {
        '1'
    } else if d == 2 {
        '2'
    } else if d == 3 {
        '3'
    } else if d == 4 {
        '4'
    } else if d == 5 {
        '5'
    } else if d == 6 {
        '6'
    } else if d == 7 {
        '7'
    } else if d == 8 {
        '8'
    } else {
        '9'
    }
}

/// The decimal digits of `n`, most significant first.
pub open spec fn dec_digits(n: nat) -> Seq<char>
    decreases n,
{
    if n < 10 {
        seq![digit_char(n as int)]
    } else {
        dec_digits(n / 10).push(digit_char((n % 10) as int))
    }
}

/// A fixed-point scalar rendered with two decimal places: an optional
/// minus sign, the whole part, a point, and the first two decimal digits of
/// the fractional part.
pub open spec fn render_fixed(v: i64) -> Seq<char> {
    let a = abs_int(v as int);
    let cent = (a % 1000) / 10;
    (if v < 0 {
        seq!['-']
    } else {
        Seq::empty()
    }) + dec_digits((a / 1000) as nat) + seq!['.', digit_char(cent / 10), digit_char(cent % 10)]
}

/// A vector rendered as `(x.xx, y.yy)`.
pub open spec fn render_v2(p: V2) -> Seq<char> {
    seq!['('] + render_fixed(p.x) + seq![',', ' '] + render_fixed(p.y) + seq![')']
}

/// A raindrop collection rendered in order, each vector followed by a
/// space.
pub open spec fn rain_chars(rain: Seq<V2>) -> Seq<char>
    decreases rain.len(),
{
    if rain.len() == 0 {
        Seq::empty()
    } else {
        rain_chars(rain.drop_last()) + render_v2(rain.last()) + seq![' ']
    }
}

/// Append the character for the decimal digit `d`.
fn push_digit(out: &mut String, d: u64)
    requires
        d < 10,
    ensures
        final(out)@ == old(out)@ + seq![digit_char(d as int)],
{
    if d == 0 {
        out.append("0");
        proof {
            reveal_strlit("0");
            assert(old(out)@ + "0"@ =~= old(out)@ + seq![digit_char(d as int)]);
        }
    } else if d == 1 {
        out.append("1");
        proof {
            reveal_strlit("1");
            assert(old(out)@ + "1"@ =~= old(out)@ + seq![digit_char(d as int)]);
        }
    } else if d == 2 {
        out.append("2");
        proof {
            reveal_strlit("2");
            assert(old(out)@ + "2"@ =~= old(out)@ + seq![digit_char(d as int)]);
        }
    } else if d == 3 {
        out.append("3");
        proof {
            reveal_strlit("3");
            assert(old(out)@ + "3"@ =~= old(out)@ + seq![digit_char(d as int)]);
        }
    } else if d == 4 {
        out.append("4");
        proof {
            reveal_strlit("4");
            assert(old(out)@ + "4"@ =~= old(out)@ + seq![digit_char(d as int)]);
        }
    } else if d == 5 {
        out.append("5");
        proof {
            reveal_strlit("5");
            assert(old(out)@ + "5"@ =~= old(out)@ + seq![digit_char(d as int)]);
        }
    } else if d == 6 {
        out.append("6");
        proof {
            reveal_strlit("6");
            assert(old(out)@ + "6"@ =~= old(out)@ + seq![digit_char(d as int)]);
        }
    } else if d == 7 {
        out.append("7");
        proof {
            reveal_strlit("7");
            assert(old(out)@ + "7"@ =~= old(out)@ + seq![digit_char(d as int)]);
        }
    } else if d == 8 {
        out.append("8");
        proof {
            reveal_strlit("8");
            assert(old(out)@ + "8"@ =~= old(out)@ + seq![digit_char(d as int)]);
        }
    } else {
        out.append("9");
        proof {
            reveal_strlit("9");
            assert(old(out)@ + "9"@ =~= old(out)@ + seq![digit_char(d as int)]);
        }
    }
}

/// Append the decimal digits of `n`.
fn push_u64(out: &mut String, n: u64)
    ensures
        final(out)@ == old(out)@ + dec_digits(n as nat),
    decreases n,
{
    if n < 10 {
        push_digit(out, n);
    } else {
        push_u64(out, n / 10);
        push_digit(out, n % 10);
        proof {
            assert(out@ =~= old(out)@ + dec_digits(n as nat));
        }
    }
}

/// Append a fixed-point scalar with two decimal places.
fn push_fixed(out: &mut String, v: i64)
    ensures
        final(out)@ == old(out)@ + render_fixed(v),
{
    if v < 0 {
        out.append("-");
        proof {
            reveal_strlit("-");
            assert("-"@ =~= seq!['-']);
        }
    }
    let a: u64 = abs_u64(v);
    push_u64(out, a / 1000);
    out.append(".");
    proof {
        reveal_strlit(".");
        assert("."@ =~= seq!['.']);
    }
    let cent: u64 = (a % 1000) / 10;
    push_digit(out, cent / 10);
    push_digit(out, cent % 10);
    proof {
        assert(out@ =~= old(out)@ + render_fixed(v));
    }
}

impl V2 {
    /// Render this vector as `(x.xx, y.yy)`, two decimal places per
    /// coordinate.
    pub fn to_display(&self) -> (r: String)
        ensures
            r@ == render_v2(*self),
    {
        let mut out = String::from_str("(");
        proof {
            reveal_strlit("(");
            assert("("@ =~= seq!['(']);
        }
        push_fixed(&mut out, self.x);
        out.append(", ");
        proof {
            reveal_strlit(", ");
            assert(", "@ =~= seq![',', ' ']);
        }
        push_fixed(&mut out, self.y);
        out.append(")");
        proof {
            reveal_strlit(")");
            assert(")"@ =~= seq![')']);
            assert(out@ =~= render_v2(*self));
        }
        out
    }
}

/// Unfolds one step of [`rain_chars`] along a growing prefix.
proof fn lemma_rain_chars_step(rain: Seq<V2>, i: int)
    requires
        0 <= i < rain.len(),
    ensures
        rain_chars(rain.take(i + 1)) == rain_chars(rain.take(i)) + render_v2(rain[i]) + seq![' '],
{
    assert(rain.take(i + 1).drop_last() =~= rain.take(i));
    assert(rain.take(i + 1).last() == rain[i]);
}

/// Render a raindrop collection in order, each vector followed by a space.
pub fn rain_to_string(rain: &Vec<V2>) -> (r: String)
    ensures
        r@ == rain_chars(rain@),
{
    let mut out = String::from_str("");
    proof {
        reveal_strlit("");
        assert(out@ =~= rain_chars(rain@.take(0)));
    }
    let n = rain.len();
    for i in 0..n
        invariant
            n == rain@.len(),
            out@ == rain_chars(rain@.take(i as int)),
    {
        let d = rain[i];
        proof {
            lemma_rain_chars_step(rain@, i as int);
        }
        let piece = d.to_display();
        out.append(piece.as_str());
        out.append(" ");
        proof {
            reveal_strlit(" ");
            assert(" "@ =~= seq![' ']);
            assert(out@ =~= rain_chars(rain@.take(i + 1)));
        }
    }
    proof {
        assert(rain@.take(n as int) =~= rain@);
    }
    out
}

} // verus!
