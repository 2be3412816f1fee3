//! Lines of text, and decimal numerals.

use vstd::prelude::*;
use vstd::string::*;

verus! {

/// The character of a decimal digit.
pub open spec fn digit_char(d: nat) -> char {
    if d == 0 {
        '0'
    } else if d == 1 {
        '1'
    } else if d == 2 {
        '2'
    } else if d == 3 {
        '3'
    } else if d == 4 {
        '4'
    } else if d == 5 {
        '5'
    } else if d == 6 {
        '6'
    } else if d == 7 {
        '7'
    } else if d == 8 {
        '8'
    } else {
        '9'
    }
}

/// The decimal digits of a natural number, most significant first,
/// without leading zeros.
pub open spec fn digits_of(n: nat) -> Seq<char>
    decreases n,
{
    if n < 10 {
        seq![digit_char(n)]
    } else {
        digits_of(n / 10).push(digit_char(n % 10))
    }
}

/// The decimal numeral of an integer: a minus sign if it is negative, then
/// the digits of its magnitude.
pub open spec fn decimal_of(n: int) -> Seq<char> {
    if n < 0 {
        seq!['-'] + digits_of((-n) as nat)
    } else {
        digits_of(n as nat)
    }
}

/// The texts that a sequence of strings holds.
pub open spec fn texts(lines: Seq<String>) -> Seq<Seq<char>> {
    Seq::new(lines.len(), |i: int| lines[i]@)
}

/// One decimal digit as a string.
fn digit_str(d: u64) -> (r: &'static str)
    requires
        d < 10,
    ensures
        r@ == seq![digit_char(d as nat)],
{
    proof {
        reveal_strlit("0");
        reveal_strlit("1");
        reveal_strlit("2");
        reveal_strlit("3");
        reveal_strlit("4");
        reveal_strlit("5");
        reveal_strlit("6");
        reveal_strlit("7");
        reveal_strlit("8");
        reveal_strlit("9");
    }
    let r = if d == 0 {
        "0"
    } else if d == 1 {
        "1"
    } else if d == 2 {
        "2"
    } else if d == 3 {
        "3"
    } else if d == 4 {
        "4"
    } else if d == 5 {
        "5"
    } else if d == 6 {
        "6"
    } else if d == 7 {
        "7"
    } else if d == 8 {
        "8"
    } else {
        "9"
    };
    assert(r@ =~= seq![digit_char(d as nat)]);
    r
}

/// The decimal digits of a natural number.
pub fn digits(n: u64) -> (r: String)
    ensures
        r@ == digits_of(n as nat),
    decreases n,
{
    if n < 10 {
        String::from_str(digit_str(n))
    } else {
        let mut s = digits(n / 10);
        s.append(digit_str(n % 10));
        assert(s@ =~= digits_of(n as nat));
        s
    }
}

/// The decimal numeral of an integer.
pub fn decimal(n: i32) -> (r: String)
    ensures
        r@ == decimal_of(n as int),
{
    if n < 0 {
        proof {
            reveal_strlit("-");
        }
        let wide: i64 = n as i64;
        let mag: u64 = (-wide) as u64;
        let mut s = String::from_str("-");
        let d = digits(mag);
        s.append(d.as_str());
        assert(s@ =~= decimal_of(n as int));
        s
    } else {
        digits(n as u64)
    }
}

/// Appends a line that is a fixed text.
pub fn push_line(out: &mut Vec<String>, a: &str)
    ensures
        texts(final(out)@) == texts(old(out)@).push(a@),
{
    out.push(String::from_str(a));
    assert(texts(out@) =~= texts(old(out)@).push(a@));
}

/// Appends a line that is a text, a numeral and a text.
pub fn push_line_num(out: &mut Vec<String>, a: &str, n: i32, b: &str)
    ensures
        texts(final(out)@) == texts(old(out)@).push(a@ + decimal_of(n as int) + b@),
{
    let mut s = String::from_str(a);
    s.append(decimal(n).as_str());
    s.append(b);
    out.push(s);
    assert(texts(out@) =~= texts(old(out)@).push(a@ + decimal_of(n as int) + b@));
}

/// Appends a line that is a text, a numeral, a text, a numeral and a
/// text.
pub fn push_line_num2(out: &mut Vec<String>, a: &str, n: i32, b: &str, k: i32, c: &str)
    ensures
        texts(final(out)@) == texts(old(out)@).push(
            a@ + decimal_of(n as int) + b@ + decimal_of(k as int) + c@,
        ),
{
    let mut s = String::from_str(a);
    s.append(decimal(n).as_str());
    s.append(b);
    s.append(decimal(k).as_str());
    s.append(c);
    out.push(s);
    assert(texts(out@) =~= texts(old(out)@).push(
        a@ + decimal_of(n as int) + b@ + decimal_of(k as int) + c@,
    ));
}

/// Appends a line that is a text, the digits of a natural number and a
/// text.
pub fn push_line_nat(out: &mut Vec<String>, a: &str, n: u64, b: &str)
    ensures
        texts(final(out)@) == texts(old(out)@).push(a@ + digits_of(n as nat) + b@),
{
    let mut s = String::from_str(a);
    s.append(digits(n).as_str());
    s.append(b);
    out.push(s);
    assert(texts(out@) =~= texts(old(out)@).push(a@ + digits_of(n as nat) + b@));
}

/// Appends a line that is a text, another text and a text.
pub fn push_line_text(out: &mut Vec<String>, a: &str, mid: &String, b: &str)
    ensures
        texts(final(out)@) == texts(old(out)@).push(a@ + mid@ + b@),
{
    let mut s = String::from_str(a);
    s.append(mid.as_str());
    s.append(b);
    out.push(s);
    assert(texts(out@) =~= texts(old(out)@).push(a@ + mid@ + b@));
}

/// The name of the `count`-th loop label.
pub open spec fn label_of(count: usize) -> Seq<char> {
    "label_"@ + digits_of(count as nat)
}

/// The name of the `count`-th loop label.
pub fn label(count: usize) -> (r: String)
    ensures
        r@ == label_of(count),
{
    let mut s = String::from_str("label_");
    s.append(digits(count as u64).as_str());
    s
}

/// The successor of a label count, wrapping at the end of its range.
pub open spec fn next_label(count: usize) -> usize {
    vstd::wrapping::usize_specs::wrapping_add(count, 1)
}

} // verus!
