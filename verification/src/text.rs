//! Text pieces shared by the expression printers: indentation, decimal
//! numbers, vertex lists and quoted strings.
use vstd::prelude::*;

use crate::dag::Vx;

verus! {

/// `n` levels of two-space indentation.
pub open spec fn pad(n: nat) -> Seq<char>
    decreases n,
{
    if n == 0 {
        Seq::empty()
    } else {
        pad((n - 1) as nat) + "  "@
    }
}

/// The decimal digit `d`.
pub open spec fn digit(d: nat) -> Seq<char> {
    if d == 0 {
        "0"@
    } else if d == 1 {
        "1"@
    } else if d == 2 {
        "2"@
    } else if d == 3 {
        "3"@
    } else if d == 4 {
        "4"@
    } else if d == 5 {
        "5"@
    } else if d == 6 {
        "6"@
    } else if d == 7 {
        "7"@
    } else if d == 8 {
        "8"@
    } else {
        "9"@
    }
}

/// `n` in decimal, without leading zeros.
pub open spec fn dec(n: nat) -> Seq<char>
    decreases n,
{
    if n < 10 {
        digit(n)
    } else {
        dec(n / 10) + digit(n % 10)
    }
}

/// A vertex as its derived debug form shows it, `Vx(n)`.
pub open spec fn vx_text(v: Vx) -> Seq<char> {
    "Vx("@ + dec(v.0 as nat) + ")"@
}

/// The vertices separated by `, `.
pub open spec fn vx_items(s: Seq<Vx>) -> Seq<char>
    decreases s.len(),
{
    if s.len() == 0 {
        Seq::empty()
    } else if s.len() == 1 {
        vx_text(s[0])
    } else {
        vx_items(s.drop_last()) + ", "@ + vx_text(s.last())
    }
}

/// A vertex list as its derived debug form shows it, `[Vx(0), Vx(1)]`.
pub open spec fn vx_list(s: Seq<Vx>) -> Seq<char> {
    "["@ + vx_items(s) + "]"@
}

/// What the debug form of a string gives for the given characters (a quoted,
/// escaped rendering).
pub uninterp spec fn str_debug(s: Seq<char>) -> Seq<char>;

/// The debug form of a string: `"..."`, with quotes, backslashes and
/// control characters escaped.
///
/// Calls std's `Debug` formatting of `str`; the contract claims only that the
/// result is a function of the string's characters (the escaping rules are
/// std's and are not restated here).
#[verifier::external_body]
pub(crate) fn debug_str(s: &String) -> (r: String)
    ensures
        r@ == str_debug(s@),
{
    format!("{:?}", s)
}

pub fn write_pad(out: &mut String, n: usize)
    ensures
        final(out)@ == old(out)@ + pad(n as nat),
{
    let mut i: usize = 0;
    while i < n
        invariant
            i <= n,
            out@ == old(out)@ + pad(i as nat),
        decreases n - i,
    {
        out.append("  ");
        proof {
            assert(pad((i + 1) as nat) == pad(i as nat) + "  "@);
            assert(old(out)@ + pad(i as nat) + "  "@ =~= old(out)@ + pad((i + 1) as nat));
        }
        i = i + 1;
    }
}

fn write_digit(out: &mut String, d: usize)
    requires
        d < 10,
    ensures
        final(out)@ == old(out)@ + digit(d as nat),
{
    if d == 0 {
        out.append("0");
    } else if d == 1 {
        out.append("1");
    } else if d == 2 {
        out.append("2");
    } else if d == 3 {
        out.append("3");
    } else if d == 4 {
        out.append("4");
    } else if d == 5 {
        out.append("5");
    } else if d == 6 {
        out.append("6");
    } else if d == 7 {
        out.append("7");
    } else if d == 8 {
        out.append("8");
    } else {
        out.append("9");
    }
}

/// Appends `n` in decimal.
pub fn write_dec(out: &mut String, n: usize)
    ensures
        final(out)@ == old(out)@ + dec(n as nat),
    decreases n,
{
    if n < 10 {
        write_digit(out, n);
    } else {
        write_dec(out, n / 10);
        write_digit(out, n % 10);
        proof {
            assert(old(out)@ + dec((n / 10) as nat) + digit((n % 10) as nat) =~= old(out)@ + dec(n as nat));
        }
    }
}

/// Appends the debug form of a vertex list.
pub fn write_vx_list(out: &mut String, s: &Vec<Vx>)
    ensures
        final(out)@ == old(out)@ + vx_list(s@),
{
    out.append("[");
    let mut i: usize = 0;
    while i < s.len()
        invariant
            i <= s.len(),
            out@ == old(out)@ + "["@ + vx_items(s@.subrange(0, i as int)),
        decreases s.len() - i,
    {
        let ghost before = out@;
        if i > 0 {
            out.append(", ");
        }
        out.append("Vx(");
        write_dec(out, s[i].0);
        out.append(")");
        proof {
            let pre = s@.subrange(0, i as int);
            let pre1 = s@.subrange(0, i + 1);
            assert(pre1.drop_last() =~= pre);
            assert(pre1.last() == s@[i as int]);
            if i == 0 {
                assert(pre =~= Seq::<Vx>::empty());
                assert(out@ =~= old(out)@ + "["@ + vx_items(pre1));
            } else {
                assert(out@ =~= old(out)@ + "["@ + vx_items(pre1));
            }
        }
        i = i + 1;
    }
    out.append("]");
    proof {
        assert(s@.subrange(0, s.len() as int) =~= s@);
        assert(out@ =~= old(out)@ + vx_list(s@));
    }
}

} // verus!
