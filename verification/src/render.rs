//! Textual rendering of a civil date and time of day: plain decimal for day
//! and year, the full English month name, and two-digit zero-padded hour,
//! minute and second.

use vstd::prelude::*;

use crate::calendar::CivilDateTime;

verus! {

/// The decimal digit character for `d` (0 through 9).
pub open spec fn spec_digit(d: int) -> char {
    if d == 0 {
        '0'
    } else if d == 1 {
        '1'
    } else if d == 2 {
        '2'
    } else if d == 3 {
        '3'
    } else if d == 4 {
        '4'
    } else if d == 5 {
        '5'
    } else if d == 6 {
        '6'
    } else if d == 7 {
        '7'
    } else if d == 8 {
        '8'
    } else {
        '9'
    }
}

/// The decimal digit string of `n`, most significant digit first, with no
/// leading zeros (a single `'0'` for 0).
pub open spec fn spec_dec_nat(n: nat) -> Seq<char>
    decreases n,
{
    if n < 10 {
        seq![spec_digit(n as int)]
    } else {
        spec_dec_nat(n / 10) + seq![spec_digit((n % 10) as int)]
    }
}

/// The decimal string of `i`: a leading `'-'` for negative values, no
/// padding and no leading zeros.
pub open spec fn spec_dec_int(i: int) -> Seq<char> {
    if i < 0 {
        seq!['-'] + spec_dec_nat((-i) as nat)
    } else {
        spec_dec_nat(i as nat)
    }
}

/// The two-digit rendering of `n` (0 through 99): values below 10 get a
/// leading zero.
pub open spec fn spec_pad2(n: int) -> Seq<char> {
    if 0 <= n < 10 {
        seq!['0'] + spec_dec_nat(n as nat)
    } else {
        spec_dec_int(n)
    }
}

/// The full English name of month `m` (1 through 12).
pub open spec fn spec_month_name(m: int) -> Seq<char> {
    if m == 1 {
        "January"@
    } else if m == 2 {
        "February"@
    } else if m == 3 {
        "March"@
    } else if m == 4 {
        "April"@
    } else if m == 5 {
        "May"@
    } else if m == 6 {
        "June"@
    } else if m == 7 {
        "July"@
    } else if m == 8 {
        "August"@
    } else if m == 9 {
        "September"@
    } else if m == 10 {
        "October"@
    } else if m == 11 {
        "November"@
    } else {
        "December"@
    }
}

/// The full rendering of a civil instant:
/// `<day> <MonthName> <year>, <hh>:<mm>:<ss> UTC`, with day and year in
/// plain decimal and hour, minute and second zero-padded to two digits.
pub open spec fn spec_render(d: CivilDateTime) -> Seq<char> {
    spec_dec_int(d.day as int) + " "@ + spec_month_name(d.month as int) + " "@ + spec_dec_int(
        d.year as int,
    ) + ", "@ + spec_pad2(d.hour as int) + ":"@ + spec_pad2(d.minute as int) + ":"@ + spec_pad2(
        d.second as int,
    ) + " UTC"@
}

/// A decimal digit string is never empty.
pub proof fn lemma_dec_nat_len(n: nat)
    ensures
        spec_dec_nat(n).len() >= 1,
    decreases n,
{
    if n >= 10 {
        lemma_dec_nat_len(n / 10);
    }
}

/// The decimal digits of a positive number never begin with a zero.
pub proof fn lemma_dec_nat_no_leading_zero(n: nat)
    requires
        n > 0,
    ensures
        spec_dec_nat(n).len() >= 1,
        spec_dec_nat(n).first() != '0',
    decreases n,
{
    if n >= 10 {
        lemma_dec_nat_no_leading_zero(n / 10);
        lemma_dec_nat_len(n / 10);
    }
}

/// A two-digit field is always exactly two characters wide, and values
/// below ten carry a leading zero.
pub proof fn lemma_pad2_two_digits(n: int)
    requires
        0 <= n < 100,
    ensures
        spec_pad2(n).len() == 2,
        n < 10 ==> spec_pad2(n)[0] == '0',
{
    if n >= 10 {
        assert(spec_dec_nat(n as nat) == spec_dec_nat(n as nat / 10) + seq![
            spec_digit((n as nat % 10) as int),
        ]);
        assert(spec_dec_nat(n as nat / 10) == seq![spec_digit((n as nat / 10) as int)]);
    }
}

/// A plain decimal field is never zero-padded: positive values start with a
/// nonzero digit, zero is the single character `'0'`, and negative values
/// start with the sign followed by a nonzero digit.
pub proof fn lemma_dec_int_unpadded(i: int)
    ensures
        i > 0 ==> spec_dec_int(i).first() != '0',
        i == 0 ==> spec_dec_int(i) == seq!['0'],
        i < 0 ==> spec_dec_int(i).first() == '-' && spec_dec_int(i)[1] != '0',
{
    if i > 0 {
        lemma_dec_nat_no_leading_zero(i as nat);
    } else if i < 0 {
        lemma_dec_nat_no_leading_zero((-i) as nat);
    }
}

/// Appends the digit character for `d`.
fn append_digit(s: &mut String, d: u64)
    requires
        d < 10,
    ensures
        final(s)@ == old(s)@ + seq![spec_digit(d as int)],
{
    let piece: &str = if d == 0 {
        "0"
    } else if d == 1 {
        "1"
    } else if d == 2 {
        "2"
    } else if d == 3 {
        "3"
    } else if d == 4 {
        "4"
    } else if d == 5 {
        "5"
    } else if d == 6 {
        "6"
    } else if d == 7 {
        "7"
    } else if d == 8 {
        "8"
    } else {
        "9"
    };
    proof {
        reveal_strlit("0");
        reveal_strlit("1");
        reveal_strlit("2");
        reveal_strlit("3");
        reveal_strlit("4");
        reveal_strlit("5");
        reveal_strlit("6");
        reveal_strlit("7");
        reveal_strlit("8");
        reveal_strlit("9");
        assert(piece@ =~= seq![spec_digit(d as int)]);
    }
    s.append(piece);
}

/// Appends the decimal digits of `n`, most significant first.
fn append_dec_u64(s: &mut String, n: u64)
    ensures
        final(s)@ == old(s)@ + spec_dec_nat(n as nat),
    decreases n,
{
    if n >= 10 {
        append_dec_u64(s, n / 10);
    }
    append_digit(s, n % 10);
    proof {
        if n >= 10 {
            assert(final(s)@ =~= old(s)@ + spec_dec_nat(n as nat));
        }
    }
}

/// Appends the decimal rendering of `v`, with a `'-'` sign when negative.
fn append_dec_i64(s: &mut String, v: i64)
    ensures
        final(s)@ == old(s)@ + spec_dec_int(v as int),
{
    if v < 0 {
        s.append("-");
        let m: u64 = (-(v as i128)) as u64;
        append_dec_u64(s, m);
        proof {
            reveal_strlit("-");
            assert("-"@ =~= seq!['-']);
            assert(final(s)@ =~= old(s)@ + spec_dec_int(v as int));
        }
    } else {
        append_dec_u64(s, v as u64);
    }
}

/// Appends `n` as exactly two digits, zero-padded below 10.
fn append_pad2(s: &mut String, n: u64)
    requires
        n < 100,
    ensures
        final(s)@ == old(s)@ + spec_pad2(n as int),
{
    if n < 10 {
        s.append("0");
        append_digit(s, n);
        proof {
            reveal_strlit("0");
            assert("0"@ =~= seq!['0']);
            assert(final(s)@ =~= old(s)@ + spec_pad2(n as int));
        }
    } else {
        append_dec_u64(s, n);
    }
}

/// The full English name of month `m`.
fn month_name(m: i64) -> (r: &'static str)
    requires
        1 <= m <= 12,
    ensures
        r@ == spec_month_name(m as int),
{
    if m == 1 {
        "January"
    } else if m == 2 {
        "February"
    } else if m == 3 {
        "March"
    } else if m == 4 {
        "April"
    } else if m == 5 {
        "May"
    } else if m == 6 {
        "June"
    } else if m == 7 {
        "July"
    } else if m == 8 {
        "August"
    } else if m == 9 {
        "September"
    } else if m == 10 {
        "October"
    } else if m == 11 {
        "November"
    } else {
        "December"
    }
}

/// Renders a well-formed civil instant as
/// `<day> <MonthName> <year>, <hh>:<mm>:<ss> UTC`.
pub fn format_civil(d: &CivilDateTime) -> (r: String)
    requires
        d.wf(),
    ensures
        r@ == spec_render(*d),
{
    let mut s = String::new();
    append_dec_i64(&mut s, d.day);
    s.append(" ");
    s.append(month_name(d.month));
    s.append(" ");
    append_dec_i64(&mut s, d.year);
    s.append(", ");
    append_pad2(&mut s, d.hour as u64);
    s.append(":");
    append_pad2(&mut s, d.minute as u64);
    s.append(":");
    append_pad2(&mut s, d.second as u64);
    s.append(" UTC");
    proof {
        assert(s@ =~= spec_render(*d));
    }
    s
}

/// Converts an epoch-second count to its rendered civil date and time of
/// day in one step: the result is the rendering of the one well-formed
/// civil instant whose epoch-second count is `t`.
pub fn parse_unix(t: i64) -> (r: String)
    ensures
        exists|d: CivilDateTime| d.wf() && d.timestamp() == t as int && r@ == #[trigger] spec_render(
            d,
        ),
{
    let d = crate::calendar::unix_to_civil(t);
    let r = format_civil(&d);
    proof {
        assert(d.wf() && d.timestamp() == t as int && r@ == spec_render(d));
    }
    r
}

} // verus!
