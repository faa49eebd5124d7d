//! Characters, digit strings and the textual form of numbers.
//!
//! Cell contents and display values are text; this module gives the engine
//! its notion of digits and letters, renders a number as the string a cell
//! shows, and reads a number back out of a display string.

use vstd::prelude::*;

verus! {

/// ASCII decimal digit.
pub open spec fn is_digit(c: char) -> bool {
    48 <= c as int <= 57
}

/// ASCII letter.
pub open spec fn is_letter(c: char) -> bool {
    (65 <= c as int <= 90) || (97 <= c as int <= 122)
}

/// Numeric value of an ASCII digit.
pub open spec fn digit_val(c: char) -> nat {
    (c as int - 48) as nat
}

/// The ASCII digit for a value below ten.
pub open spec fn digit_char(d: nat) -> char {
    ((d + 48) as u8) as char
}

/// ASCII upper-casing of one character; everything but a lower-case
/// letter is left alone.
pub open spec fn upper_char(c: char) -> char {
    if 97 <= c as int <= 122 {
        ((c as int - 32) as u8) as char
    } else {
        c
    }
}

/// ASCII upper-casing of a whole sequence.
pub open spec fn upper_seq(s: Seq<char>) -> Seq<char> {
    s.map_values(|c: char| upper_char(c))
}

pub open spec fn all_digits(s: Seq<char>) -> bool {
    forall|i: int| 0 <= i < s.len() ==> is_digit(#[trigger] s[i])
}

/// The number written by a sequence of digits, most significant first.
pub open spec fn digits_val(s: Seq<char>) -> nat
    decreases s.len(),
{
    if s.len() == 0 {
        0
    } else {
        digits_val(s.drop_last()) * 10 + digit_val(s.last())
    }
}

/// How many digits start the sequence.
pub open spec fn leading_digits(s: Seq<char>) -> int
    decreases s.len(),
{
    if s.len() > 0 && is_digit(s[0]) {
        1 + leading_digits(s.drop_first())
    } else {
        0
    }
}

/// The count of leading digits lies within the sequence.
pub proof fn lemma_leading_digits_bounds(s: Seq<char>)
    ensures
        0 <= leading_digits(s) <= s.len(),
    decreases s.len(),
{
    if s.len() > 0 && is_digit(s[0]) {
        lemma_leading_digits_bounds(s.drop_first());
    }
}

/// When a scan stops, the count of leading digits is exactly where it
/// stopped.
pub proof fn lemma_leading_digits_exact(s: Seq<char>, k: int)
    requires
        0 <= k <= s.len(),
        forall|j: int| 0 <= j < k ==> is_digit(#[trigger] s[j]),
        k == s.len() || !is_digit(s[k]),
    ensures
        leading_digits(s) == k,
    decreases k,
{
    if k == 0 {
    } else {
        lemma_leading_digits_exact(s.drop_first(), k - 1);
    }
}

/// A copy of part of a character sequence.
pub fn copy_range(cs: &Vec<char>, a: usize, b: usize) -> (r: Vec<char>)
    requires
        a <= b <= cs@.len(),
    ensures
        r@ == cs@.subrange(a as int, b as int),
{
    let mut r: Vec<char> = Vec::new();
    let mut i: usize = a;
    while i < b
        invariant
            a <= i <= b <= cs@.len(),
            r@ == cs@.subrange(a as int, i as int),
        decreases b - i,
    {
        proof {
            assert(cs@.subrange(a as int, i + 1) =~= cs@.subrange(a as int, i as int).push(
                cs@[i as int],
            ));
        }
        r.push(cs[i]);
        i += 1;
    }
    r
}

/// The one-based numeric index written by column letters, folded left
/// to right in base 26 after upper-casing (`A` is 1, `AA` is 27).
pub open spec fn col_index(s: Seq<char>) -> int
    decreases s.len(),
{
    if s.len() == 0 {
        0
    } else {
        col_index(s.drop_last()) * 26 + (upper_char(s.last()) as int - 64)
    }
}

/// The decimal digit string of a non-negative number, without sign,
/// without leading zeros (except for zero itself).
pub open spec fn nat_digits(v: nat) -> Seq<char>
    decreases v,
{
    if v < 10 {
        seq![digit_char(v)]
    } else {
        nat_digits(v / 10).push(digit_char(v % 10))
    }
}

/// The display string of a signed number: a minus sign for negative
/// values, then the decimal digits.
pub open spec fn i64_display(n: i64) -> Seq<char> {
    if n >= 0 {
        nat_digits(n as nat)
    } else {
        seq!['-'] + nat_digits((-(n as int)) as nat)
    }
}

/// How a display string is read back as a number: an optional sign
/// followed by one or more digits, the value fitting in the type.
/// Anything else is not numeric.
pub open spec fn parse_i64(s: Seq<char>) -> Option<i64> {
    if s.len() == 0 {
        None
    } else {
        let neg = s[0] == '-';
        let body = if s[0] == '-' || s[0] == '+' {
            s.drop_first()
        } else {
            s
        };
        if body.len() == 0 || !all_digits(body) {
            None
        } else {
            let v = digits_val(body);
            if neg {
                if v <= 0x8000000000000000 {
                    Some((-(v as int)) as i64)
                } else {
                    None
                }
            } else {
                if v <= 0x7fffffffffffffff {
                    Some(v as i64)
                } else {
                    None
                }
            }
        }
    }
}

/// Exec test for an ASCII digit.
pub fn digit_of(c: char) -> (r: Option<u8>)
    ensures
        r is Some <==> is_digit(c),
        r is Some ==> r->0 == digit_val(c),
{
    let u = c as u32;
    if 48 <= u && u <= 57 {
        Some((u - 48) as u8)
    } else {
        None
    }
}

/// Exec test for an ASCII letter.
pub fn letter_test(c: char) -> (r: bool)
    ensures
        r == is_letter(c),
{
    let u = c as u32;
    (65 <= u && u <= 90) || (97 <= u && u <= 122)
}

/// The characters of a string, in order.
pub fn str_to_chars(s: &str) -> (r: Vec<char>)
    ensures
        r@ == s@,
{
    let n = s.unicode_len();
    let mut r: Vec<char> = Vec::new();
    let mut i: usize = 0;
    while i < n
        invariant
            n == s@.len(),
            i <= n,
            r@ == s@.subrange(0, i as int),
        decreases n - i,
    {
        r.push(s.get_char(i));
        i += 1;
    }
    proof {
        assert(r@ =~= s@);
    }
    r
}

/// One-character string for each decimal digit.
fn digit_str(d: u64) -> (r: &'static str)
    requires
        d < 10,
    ensures
        r@ =~= seq![digit_char(d as nat)],
{
    let r: &'static str = match d {
        0 => "0",
        1 => "1",
        2 => "2",
        3 => "3",
        4 => "4",
        5 => "5",
        6 => "6",
        7 => "7",
        8 => "8",
        _ => "9",
    };
    proof {
        reveal_strlit("0");
        reveal_strlit("1");
        reveal_strlit("2");
        reveal_strlit("3");
        reveal_strlit("4");
        reveal_strlit("5");
        reveal_strlit("6");
        reveal_strlit("7");
        reveal_strlit("8");
        reveal_strlit("9");
    }
    r
}

/// Decimal digits of an unsigned number.
fn u64_digits_string(v: u64) -> (r: String)
    ensures
        r@ == nat_digits(v as nat),
    decreases v,
{
    if v < 10 {
        String::from_str(digit_str(v))
    } else {
        let mut s = u64_digits_string(v / 10);
        s.append(digit_str(v % 10));
        s
    }
}

/// The display string of a number: what a cell shows when a formula
/// evaluates to this value.
pub fn i64_to_string(n: i64) -> (r: String)
    ensures
        r@ == i64_display(n),
{
    if n >= 0 {
        u64_digits_string(n as u64)
    } else {
        let m: u64 = (-(n as i128)) as u64;
        let mut s = String::from_str("-");
        s.append(u64_digits_string(m).as_str());
        proof {
            reveal_strlit("-");
            assert(s@ =~= seq!['-'] + nat_digits(m as nat));
        }
        s
    }
}

/// Reads a number out of a display string, as `parse_i64` describes.
pub fn parse_i64_chars(cs: &Vec<char>) -> (r: Option<i64>)
    ensures
        r == parse_i64(cs@),
{
    if cs.len() == 0 {
        return None;
    }
    let c0 = cs[0];
    let neg = c0 == '-';
    let start: usize = if c0 == '-' || c0 == '+' {
        1
    } else {
        0
    };
    let ghost body = if c0 == '-' || c0 == '+' {
        cs@.drop_first()
    } else {
        cs@
    };
    if cs.len() == start {
        return None;
    }
    let bound: u64 = if neg {
        0x8000000000000000
    } else {
        0x7fffffffffffffff
    };
    let mut acc: u64 = 0;
    let mut i: usize = start;
    while i < cs.len()
        invariant
            start <= i <= cs@.len(),
            cs@.len() > 0,
            start == if cs@[0] == '-' || cs@[0] == '+' {
                1int
            } else {
                0int
            },
            neg == (cs@[0] == '-'),
            start == 1 ==> body == cs@.drop_first(),
            start == 0 ==> body == cs@,
            body.len() == cs@.len() - start,
            forall|j: int| 0 <= j < i - start ==> is_digit(#[trigger] body[j]),
            acc == digits_val(body.subrange(0, i - start)),
            acc <= bound,
            bound == if neg { 0x8000000000000000u64 } else { 0x7fffffffffffffffu64 },
        decreases cs@.len() - i,
    {
        let c = cs[i];
        proof {
            assert(body[i - start] == cs@[i as int]);
        }
        let d = match digit_of(c) {
            Some(d) => d,
            None => {
                proof {
                    assert(!is_digit(body[i - start]));
                    assert(!all_digits(body));
                }
                return None;
            },
        };
        if acc > (bound - (d as u64)) / 10 {
            // the digits read so far already exceed the type's range, and
            // further digits only grow the value
            proof {
                let b = bound as int;
                let dd = d as int;
                let f = (b - dd) / 10;
                assert(10 * f + (b - dd) % 10 == b - dd) by (nonlinear_arith)
                    requires
                        f == (b - dd) / 10 && 0 <= dd <= 9 && b >= 10,
                ;
                assert(acc * 10 >= (f + 1) * 10) by (nonlinear_arith)
                    requires
                        acc >= f + 1,
                ;
                assert(acc * 10 + dd > b);
                let p = body.subrange(0, i - start + 1);
                assert(p.drop_last() =~= body.subrange(0, i - start));
                assert(p.last() == body[i - start]);
                assert(digits_val(p) == acc * 10 + digit_val(cs@[i as int]));
                assert(digits_val(p) > bound);
                if all_digits(body) {
                    lemma_digits_val_prefix_le(body, i - start + 1);
                    assert(digits_val(body) > bound);
                }
            }
            return None;
        }
        acc = acc * 10 + (d as u64);
        proof {
            let p = body.subrange(0, i - start + 1);
            assert(p.drop_last() =~= body.subrange(0, i - start));
        }
        i += 1;
    }
    proof {
        assert(body.subrange(0, body.len() as int) =~= body);
    }
    if neg {
        if acc == 0x8000000000000000 {
            Some(i64::MIN)
        } else {
            Some(-(acc as i64))
        }
    } else {
        Some(acc as i64)
    }
}

/// A digit string is worth at least as much as any of its prefixes.
pub proof fn lemma_digits_val_prefix_le(s: Seq<char>, k: int)
    requires
        0 <= k <= s.len(),
    ensures
        digits_val(s.subrange(0, k)) <= digits_val(s),
    decreases s.len() - k,
{
    if k < s.len() {
        let p = s.subrange(0, k + 1);
        assert(p.drop_last() =~= s.subrange(0, k));
        assert(digits_val(p) == digits_val(s.subrange(0, k)) * 10 + digit_val(s[k]));
        lemma_digits_val_prefix_le(s, k + 1);
    } else {
        assert(s.subrange(0, k) =~= s);
    }
}


/// A rendered number is all digits after its optional sign.
pub proof fn lemma_nat_digits_all_digits(v: nat)
    ensures
        nat_digits(v).len() >= 1,
        all_digits(nat_digits(v)),
    decreases v,
{
    if v < 10 {
        assert(is_digit(digit_char(v)));
        assert forall|i: int| 0 <= i < nat_digits(v).len() implies is_digit(
            #[trigger] nat_digits(v)[i],
        ) by {}
    } else {
        lemma_nat_digits_all_digits(v / 10);
        assert(is_digit(digit_char(v % 10)));
        assert forall|i: int| 0 <= i < nat_digits(v).len() implies is_digit(
            #[trigger] nat_digits(v)[i],
        ) by {
            if i < nat_digits(v).len() - 1 {
                assert(nat_digits(v)[i] == nat_digits(v / 10)[i]);
            }
        }
    }
}

/// Reading the digit string of a number back gives the number.
pub proof fn lemma_nat_digits_val(v: nat)
    ensures
        digits_val(nat_digits(v)) == v,
    decreases v,
{
    reveal_with_fuel(digits_val, 3);
    if v < 10 {
        assert(nat_digits(v) == seq![digit_char(v)]);
        assert(nat_digits(v).drop_last() =~= Seq::<char>::empty());
        assert(nat_digits(v).last() == digit_char(v));
        assert(digit_val(digit_char(v)) == v);
    } else {
        lemma_nat_digits_val(v / 10);
        let s = nat_digits(v);
        assert(s.drop_last() =~= nat_digits(v / 10));
        assert(s.last() == digit_char(v % 10));
        assert(digit_val(digit_char(v % 10)) == v % 10);
    }
}

} // verus!
