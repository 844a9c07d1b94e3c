//! Text shown beside files in the file explorer.

use vstd::arithmetic::div_mod::{lemma_fundamental_div_mod, lemma_fundamental_div_mod_converse};
use vstd::prelude::*;
use vstd::string::StringExecFns;

verus! {

pub const KB: u64 = 1024;
pub const MB: u64 = KB * 1024;
pub const GB: u64 = MB * 1024;

/// The character of the decimal digit `d`.
pub open spec fn digit_char(d: int) -> char {
    seq!['0', '1', '2', '3', '4', '5', '6', '7', '8', '9'][d]
}

/// `n` written in decimal, without leading zeros.
pub open spec fn decimal(n: nat) -> Seq<char>
    decreases n,
{
    if n < 10 {
        seq![digit_char(n as int)]
    } else {
        decimal(n / 10).push(digit_char((n % 10) as int))
    }
}

/// `size / unit` in hundredths, rounded to the nearest, ties to even.
pub open spec fn hundredths(size: nat, unit: nat) -> nat {
    let q = (size * 100) / unit;
    let r = (size * 100) % unit;
    if 2 * r > unit || (2 * r == unit && q % 2 == 1) {
        q + 1
    } else {
        q
    }
}

/// A number of hundredths written with two decimals.
pub open spec fn two_decimals(h: nat) -> Seq<char> {
    decimal(h / 100) + seq!['.', digit_char(((h % 100) / 10) as int), digit_char((h % 10) as int)]
}

/// A size in bytes as shown to the user: whole bytes below a kilobyte, else
/// kilobytes, megabytes or gigabytes with two decimals.
pub open spec fn size_text(size: nat) -> Seq<char> {
    if size >= GB {
        two_decimals(hundredths(size, GB as nat)) + seq![' ', 'G', 'B']
    } else if size >= MB {
        two_decimals(hundredths(size, MB as nat)) + seq![' ', 'M', 'B']
    } else if size >= KB {
        two_decimals(hundredths(size, KB as nat)) + seq![' ', 'K', 'B']
    } else {
        decimal(size) + seq![' ', 'B']
    }
}

/// Renders the file explorer panel.
pub struct FileExplorerRenderer;

impl FileExplorerRenderer {
    /// Formats a file size for display.
    pub fn format_size(size: u64) -> (r: String)
        ensures
            r@ == size_text(size as nat),
    {
        let mut text = String::new();
        if size >= GB {
            push_two_decimals(&mut text, size, GB);
            text.append(" GB");
            proof {
                reveal_strlit(" GB");
            }
        } else if size >= MB {
            push_two_decimals(&mut text, size, MB);
            text.append(" MB");
            proof {
                reveal_strlit(" MB");
            }
        } else if size >= KB {
            push_two_decimals(&mut text, size, KB);
            text.append(" KB");
            proof {
                reveal_strlit(" KB");
            }
        } else {
            push_decimal(&mut text, size);
            text.append(" B");
            proof {
                reveal_strlit(" B");
            }
        }
        assert(text@ =~= size_text(size as nat));
        text
    }
}

/// The one-character text of the digit `d`.
fn digit_text(d: u64) -> (r: &'static str)
    requires
        d < 10,
    ensures
        r@ == seq![digit_char(d as int)],
{
    proof {
        reveal_strlit("0");
        reveal_strlit("1");
        reveal_strlit("2");
        reveal_strlit("3");
        reveal_strlit("4");
        reveal_strlit("5");
        reveal_strlit("6");
        reveal_strlit("7");
        reveal_strlit("8");
        reveal_strlit("9");
    }
    match d {
        0 => "0",
        1 => "1",
        2 => "2",
        3 => "3",
        4 => "4",
        5 => "5",
        6 => "6",
        7 => "7",
        8 => "8",
        _ => "9",
    }
}

/// Appends `n` in decimal.
fn push_decimal(text: &mut String, n: u64)
    ensures
        final(text)@ == old(text)@ + decimal(n as nat),
    decreases n,
{
    if n >= 10 {
        push_decimal(text, n / 10);
    }
    text.append(digit_text(n % 10));
    assert(text@ =~= old(text)@ + decimal(n as nat));
}

/// Appends `size / unit` with two decimals.
fn push_two_decimals(text: &mut String, size: u64, unit: u64)
    requires
        0 < unit <= GB,
    ensures
        final(text)@ == old(text)@ + two_decimals(hundredths(size as nat, unit as nat)),
{
    let whole = size / unit;
    let rem = size % unit;
    let scaled = rem * 100;
    let mut frac = scaled / unit;
    let left = scaled % unit;
    if 2 * left > unit || (2 * left == unit && frac % 2 == 1) {
        frac = frac + 1;
    }
    let ghost h = hundredths(size as nat, unit as nat);
    proof {
        let u = unit as int;
        let x = size * 100;
        let y = rem * 100;
        lemma_fundamental_div_mod(size as int, u);
        lemma_fundamental_div_mod(y, u);
        assert(x == (whole * 100 + y / u) * u + y % u) by (nonlinear_arith)
            requires
                size == u * whole + rem,
                y == rem * 100,
                y == u * (y / u) + y % u,
                x == size * 100,
        ;
        lemma_fundamental_div_mod_converse(x, u, whole * 100 + y / u, y % u);
        assert(y / u < 100) by (nonlinear_arith)
            requires
                y == u * (y / u) + y % u,
                0 <= y % u,
                0 <= y < 100 * u,
        ;
    }
    assert(h == whole * 100 + frac);
    let (units, cents) = if frac >= 100 {
        (whole + 1, frac - 100)
    } else {
        (whole, frac)
    };
    assert(units == h / 100 && cents == h % 100 && cents % 10 == h % 10);
    push_decimal(text, units);
    text.append(".");
    text.append(digit_text(cents / 10));
    text.append(digit_text(cents % 10));
    proof {
        reveal_strlit(".");
    }
    assert(text@ =~= old(text)@ + two_decimals(h));
}

} // verus!
