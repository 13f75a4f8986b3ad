//! A board as text: the tiles of each row in decimal, one space between
//! them, one line to a row.

use vstd::prelude::*;
use vstd::string::StringExecFns;
use crate::puzzle::grid::Grid;

verus! {

/// The character of a decimal digit.
pub open spec fn digit(d: int) -> char {
    if d == 0 {
        '0'
    } else if d == 1 {
        '1'
    } else if d == 2 {
        '2'
    } else if d == 3 {
        '3'
    } else if d == 4 {
        '4'
    } else if d == 5 {
        '5'
    } else if d == 6 {
        '6'
    } else if d == 7 {
        '7'
    } else if d == 8 {
        '8'
    } else {
        '9'
    }
}

/// A number in decimal, without leading zeros.
pub open spec fn decimal(n: nat) -> Seq<char>
    decreases n,
{
    if n < 10 {
        seq![digit(n as int)]
    } else {
        decimal(n / 10).push(digit((n % 10) as int))
    }
}

/// The first `j` tiles of a row, a space before each but the first.
pub open spec fn row_text(row: Seq<usize>, j: int) -> Seq<char>
    decreases j,
{
    if j <= 0 {
        Seq::empty()
    } else if j == 1 {
        decimal(row[0] as nat)
    } else {
        row_text(row, j - 1).push(' ') + decimal(row[j - 1] as nat)
    }
}

/// The first `i` rows of the square, each taken as far as there are rows
/// and ended by a line feed.
pub open spec fn grid_text(g: Grid, i: int) -> Seq<char>
    decreases i,
{
    if i <= 0 {
        Seq::empty()
    } else {
        (grid_text(g, i - 1) + row_text(g[i - 1], g.len() as int)).push('\n')
    }
}

/// Adds a space to the end of the text.
pub fn push_space(text: &mut String)
    ensures
        final(text)@ == old(text)@.push(' '),
{
    proof {
        reveal_strlit(" ");
    }
    text.append(" ");
    assert(text@ =~= old(text)@.push(' '));
}

/// Adds a line feed to the end of the text.
pub fn push_line_feed(text: &mut String)
    ensures
        final(text)@ == old(text)@.push('\n'),
{
    proof {
        reveal_strlit("\n");
    }
    text.append("\n");
    assert(text@ =~= old(text)@.push('\n'));
}

/// Adds the digit `d` to the end of the text.
fn push_digit(text: &mut String, d: usize)
    requires
        d < 10,
    ensures
        final(text)@ == old(text)@.push(digit(d as int)),
{
    proof {
        reveal_strlit("0");
        reveal_strlit("1");
        reveal_strlit("2");
        reveal_strlit("3");
        reveal_strlit("4");
        reveal_strlit("5");
        reveal_strlit("6");
        reveal_strlit("7");
        reveal_strlit("8");
        reveal_strlit("9");
    }
    if d == 0 {
        text.append("0");
    } else if d == 1 {
        text.append("1");
    } else if d == 2 {
        text.append("2");
    } else if d == 3 {
        text.append("3");
    } else if d == 4 {
        text.append("4");
    } else if d == 5 {
        text.append("5");
    } else if d == 6 {
        text.append("6");
    } else if d == 7 {
        text.append("7");
    } else if d == 8 {
        text.append("8");
    } else {
        text.append("9");
    }
    assert(text@ =~= old(text)@.push(digit(d as int)));
}

/// The characters of a run of digits.
spec fn glyphs(digits: Seq<usize>) -> Seq<char> {
    Seq::new(digits.len(), |k: int| digit(digits[k] as int))
}

/// Adds `n` in decimal to the end of the text.
pub fn push_decimal(text: &mut String, n: usize)
    ensures
        final(text)@ == old(text)@ + decimal(n as nat),
{
    let mut digits: Vec<usize> = Vec::new();
    let mut rest = n;
    // The digits come out last first: `decimal(n)` is `decimal(rest)`
    // followed by what has come out, read backwards.
    while rest >= 10
        invariant
            forall|k: int| 0 <= k < digits@.len() ==> #[trigger] digits@[k] < 10,
            decimal(n as nat) == decimal(rest as nat) + glyphs(digits@).reverse(),
        decreases rest,
    {
        let ghost before = digits@;
        digits.push(rest % 10);
        proof {
            let d = digit((rest % 10) as int);
            assert(glyphs(digits@).reverse() == seq![d] + glyphs(before).reverse()) by {
                assert(glyphs(digits@).reverse() =~= seq![d] + glyphs(before).reverse());
            }
            assert(decimal(rest as nat) == decimal((rest / 10) as nat).push(d));
            assert(decimal((rest / 10) as nat).push(d) + glyphs(before).reverse() =~= decimal(
                (rest / 10) as nat,
            ) + (seq![d] + glyphs(before).reverse()));
        }
        rest = rest / 10;
    }
    let ghost start = text@;
    push_digit(text, rest);
    assert(text@ == start + decimal(rest as nat)) by {
        assert(text@ =~= start + decimal(rest as nat));
    }
    let mut k = digits.len();
    while k > 0
        invariant
            0 <= k <= digits@.len(),
            forall|k: int| 0 <= k < digits@.len() ==> #[trigger] digits@[k] < 10,
            text@ == start + decimal(rest as nat) + glyphs(digits@).reverse().subrange(
                0,
                digits@.len() - k,
            ),
        decreases k,
    {
        let ghost before = text@;
        k = k - 1;
        push_digit(text, digits[k]);
        proof {
            let r = glyphs(digits@).reverse();
            let m = digits@.len() - k;
            assert(r[m - 1] == digit(digits@[k as int] as int));
            assert(r.subrange(0, m) =~= r.subrange(0, m - 1).push(r[m - 1]));
            assert(text@ =~= start + decimal(rest as nat) + r.subrange(0, m));
        }
    }
    proof {
        let r = glyphs(digits@).reverse();
        assert(r.subrange(0, digits@.len() as int) =~= r);
        assert(start + decimal(rest as nat) + r =~= start + (decimal(rest as nat) + r));
    }
}

} // verus!
