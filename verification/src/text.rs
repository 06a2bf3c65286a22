//! Decimal rendering for error messages.

use vstd::prelude::*;
use vstd::string::*;

verus! {

/// The text of one decimal digit.
pub open spec fn digit_text(d: int) -> Seq<char> {
    if d == 0 {
        "0"@
    } else if d == 1 {
        "1"@
    } else if d == 2 {
        "2"@
    } else if d == 3 {
        "3"@
    } else if d == 4 {
        "4"@
    } else if d == 5 {
        "5"@
    } else if d == 6 {
        "6"@
    } else if d == 7 {
        "7"@
    } else if d == 8 {
        "8"@
    } else {
        "9"@
    }
}

/// The decimal text of a natural number, without leading zeros.
pub open spec fn digits(n: nat) -> Seq<char>
    decreases n,
{
    if n < 10 {
        digit_text(n as int)
    } else {
        digits(n / 10) + digit_text(n as int % 10)
    }
}

/// Appends `n` in decimal.
pub fn push_decimal(out: &mut String, n: u64)
    ensures
        final(out)@ == old(out)@ + digits(n as nat),
    decreases n,
{
    if n >= 10 {
        push_decimal(out, n / 10);
    }
    let d: u64 = n % 10;
    let text = if d == 0 {
        "0"
    } else if d == 1 {
        "1"
    } else if d == 2 {
        "2"
    } else if d == 3 {
        "3"
    } else if d == 4 {
        "4"
    } else if d == 5 {
        "5"
    } else if d == 6 {
        "6"
    } else if d == 7 {
        "7"
    } else if d == 8 {
        "8"
    } else {
        "9"
    };
    out.append(text);
    proof {
        if n >= 10 {
            assert(old(out)@ + digits((n / 10) as nat) + digit_text(d as int) =~= old(out)@ + (
            digits((n / 10) as nat) + digit_text(d as int)));
        }
    }
}

/// The text `a`, a number, and the text `b`.
pub fn one_number(a: &str, n: u64, b: &str) -> (s: String)
    ensures
        s@ == a@ + digits(n as nat) + b@,
{
    let mut s = String::from_str(a);
    push_decimal(&mut s, n);
    s.append(b);
    s
}

/// The text `a`, a number, the text `b`, a number, and the text `c`.
pub fn two_numbers(a: &str, n: u64, b: &str, m: u64, c: &str) -> (s: String)
    ensures
        s@ == a@ + digits(n as nat) + b@ + digits(m as nat) + c@,
{
    let mut s = one_number(a, n, b);
    push_decimal(&mut s, m);
    s.append(c);
    s
}

/// The number that a text of decimal digits stands for.
pub open spec fn read(s: Seq<char>) -> int
    decreases s.len(),
{
    if s.len() == 0 {
        0
    } else {
        10 * read(s.drop_last()) + (s.last() as int - '0' as int)
    }
}

/// The text of one decimal digit is one character, and stands for the digit.
proof fn lemma_digit_reads_back(d: int)
    requires
        0 <= d < 10,
    ensures
        digit_text(d).len() == 1,
        digit_text(d)[0] as int - '0' as int == d,
{
    reveal_strlit("0");
    reveal_strlit("1");
    reveal_strlit("2");
    reveal_strlit("3");
    reveal_strlit("4");
    reveal_strlit("5");
    reveal_strlit("6");
    reveal_strlit("7");
    reveal_strlit("8");
    reveal_strlit("9");
}

/// The decimal text of a number stands for that number, and has no leading zero but in the
/// text of zero itself.
pub proof fn digits_read_back(n: nat)
    ensures
        read(digits(n)) == n,
        digits(n).len() > 0,
        n > 0 ==> digits(n)[0] != '0',
    decreases n,
{
    lemma_digit_reads_back(n as int % 10);
    let last = digit_text(n as int % 10);
    if n < 10 {
        assert(last.drop_last() =~= Seq::empty());
        assert(read(last.drop_last()) == 0);
    } else {
        digits_read_back(n / 10);
        assert(digits(n).drop_last() =~= digits(n / 10));
        assert(digits(n).last() == last[0]);
        assert(digits(n)[0] == digits(n / 10)[0]);
    }
}

} // verus!
