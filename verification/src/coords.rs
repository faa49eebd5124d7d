//! Cell coordinates and the textual cell addresses that name them.
//!
//! A coordinate is a zero-based (row, column) pair.  An address such as
//! `B2` or `AA27` names a coordinate: one or more letters give the column
//! (base 26, case-insensitive, `A` is the first column), one or more
//! digits give the one-based row.

use vstd::prelude::*;
use crate::text::{
    all_digits, col_index, digit_of, digit_val, digits_val, is_digit, is_letter, letter_test,
    upper_char,
};

verus! {

/// A cell's position: zero-based row and column.  Structural equality;
/// used as the key for cells and as node identity in the dependency
/// graph.
#[derive(PartialEq, Eq, Structural, Clone, Copy, Hash, Debug)]
pub struct Coords {
    pub row: i32,
    pub column: i32,
}

/// The column letters of a zero-based column index: `0` is `A`, `25` is
/// `Z`, `26` is `AA`.  A negative index has no letters.
pub open spec fn col_letters(c: int) -> Seq<char>
    decreases (if c < 0 { 0int } else { c + 1 }),
{
    if c < 0 {
        Seq::empty()
    } else {
        col_letters(c / 26 - 1).push((((c % 26) + 65) as u8) as char)
    }
}

/// How many letters start the sequence.
pub open spec fn leading_letters(s: Seq<char>) -> int
    decreases s.len(),
{
    if s.len() > 0 && is_letter(s[0]) {
        1 + leading_letters(s.drop_first())
    } else {
        0
    }
}

/// A well-formed cell address: one or more letters, then one or more
/// digits, nothing else.
pub open spec fn is_address(s: Seq<char>) -> bool {
    let k = leading_letters(s);
    1 <= k < s.len() && all_digits(s.skip(k))
}

/// The coordinate an address names, if the address is well formed and
/// both parts fit the coordinate type.
pub open spec fn addr_coords(s: Seq<char>) -> Option<Coords> {
    let k = leading_letters(s);
    if is_address(s) && digits_val(s.skip(k)) <= 0x7fffffff && col_index(s.take(k)) - 1
        <= 0x7fffffff {
        Some(
            Coords {
                row: (digits_val(s.skip(k)) - 1) as i32,
                column: (col_index(s.take(k)) - 1) as i32,
            },
        )
    } else {
        None
    }
}

/// One-letter string for each letter index below 26.
fn letter_str(d: u32) -> (r: &'static str)
    requires
        d < 26,
    ensures
        r@ =~= seq![((d + 65) as u8) as char],
{
    let r: &'static str = match d {
        0 => "A",
        1 => "B",
        2 => "C",
        3 => "D",
        4 => "E",
        5 => "F",
        6 => "G",
        7 => "H",
        8 => "I",
        9 => "J",
        10 => "K",
        11 => "L",
        12 => "M",
        13 => "N",
        14 => "O",
        15 => "P",
        16 => "Q",
        17 => "R",
        18 => "S",
        19 => "T",
        20 => "U",
        21 => "V",
        22 => "W",
        23 => "X",
        24 => "Y",
        _ => "Z",
    };
    proof {
        reveal_strlit("A");
        reveal_strlit("B");
        reveal_strlit("C");
        reveal_strlit("D");
        reveal_strlit("E");
        reveal_strlit("F");
        reveal_strlit("G");
        reveal_strlit("H");
        reveal_strlit("I");
        reveal_strlit("J");
        reveal_strlit("K");
        reveal_strlit("L");
        reveal_strlit("M");
        reveal_strlit("N");
        reveal_strlit("O");
        reveal_strlit("P");
        reveal_strlit("Q");
        reveal_strlit("R");
        reveal_strlit("S");
        reveal_strlit("T");
        reveal_strlit("U");
        reveal_strlit("V");
        reveal_strlit("W");
        reveal_strlit("X");
        reveal_strlit("Y");
        reveal_strlit("Z");
    }
    r
}

/// The header label of a column: its index written in letters.
pub fn column_index_to_letter(column: i32) -> (r: String)
    ensures
        r@ == col_letters(column as int),
    decreases (if column < 0 { 0int } else { column + 1 }),
{
    if column < 0 {
        String::new()
    } else {
        let mut s = column_index_to_letter(column / 26 - 1);
        s.append(letter_str((column % 26) as u32));
        s
    }
}

/// The one-based column index written by a letter string (`A` is 1,
/// `AA` is 27); callers pass letters only and a value that fits.
pub fn column_letter_to_index(column: &str) -> (r: i32)
    requires
        forall|i: int| 0 <= i < column@.len() ==> is_letter(#[trigger] column@[i]),
        col_index(column@) <= i32::MAX,
    ensures
        r as int == col_index(column@),
{
    let cs = crate::text::str_to_chars(column);
    let n = cs.len();
    let mut acc: i64 = 0;
    let mut i: usize = 0;
    while i < n
        invariant
            n == cs@.len(),
            cs@ == column@,
            i <= n,
            forall|j: int| 0 <= j < n ==> is_letter(#[trigger] column@[j]),
            col_index(column@) <= i32::MAX,
            acc == col_index(cs@.subrange(0, i as int)),
            0 <= acc <= i32::MAX,
        decreases n - i,
    {
        let c = cs[i];
        let u = c as u32;
        let up: u32 = if 97 <= u && u <= 122 {
            u - 32
        } else {
            u
        };
        proof {
            assert(is_letter(cs@[i as int]));
            assert(up == upper_char(cs@[i as int]) as u32);
            let p = cs@.subrange(0, i + 1);
            assert(p.drop_last() =~= cs@.subrange(0, i as int));
            assert(p.last() == cs@[i as int]);
            lemma_col_index_prefix_le(cs@, i + 1);
        }
        acc = acc * 26 + ((up - 65) as i64 + 1);
        i += 1;
    }
    proof {
        assert(cs@.subrange(0, n as int) =~= cs@);
    }
    acc as i32
}

/// For a letter string, the value of a prefix never exceeds the value of
/// the whole, and no prefix is negative.
proof fn lemma_col_index_prefix_le(s: Seq<char>, k: int)
    requires
        0 <= k <= s.len(),
        forall|i: int| 0 <= i < s.len() ==> is_letter(#[trigger] s[i]),
    ensures
        0 <= col_index(s.subrange(0, k)),
        col_index(s.subrange(0, k)) <= col_index(s),
    decreases s.len() - k,
{
    lemma_col_index_nonneg(s, k);
    if k == s.len() {
        assert(s.subrange(0, k) =~= s);
    } else {
        let q = s.subrange(0, k + 1);
        assert(q.drop_last() =~= s.subrange(0, k));
        assert(q.last() == s[k]);
        assert(1 <= upper_char(s[k]) as int - 64 <= 26);
        assert(col_index(s.subrange(0, k)) * 26 >= col_index(s.subrange(0, k)))
            by (nonlinear_arith)
            requires
                col_index(s.subrange(0, k)) >= 0,
        ;
        lemma_col_index_prefix_le(s, k + 1);
    }
}

/// The coordinate a textual address names, or nothing when the text is
/// not a well-formed address or does not fit.
pub fn cell_address_to_coords(address: &str) -> (r: Option<Coords>)
    ensures
        r == addr_coords(address@),
{
    let cs = crate::text::str_to_chars(address);
    addr_to_coords_chars(&cs)
}

/// `cell_address_to_coords` on an already-split character sequence.
pub fn addr_to_coords_chars(cs: &Vec<char>) -> (r: Option<Coords>)
    ensures
        r == addr_coords(cs@),
{
    let n = cs.len();
    // count the leading letters
    let mut k: usize = 0;
    loop
        invariant_except_break
            n == cs@.len(),
            k <= n,
            forall|j: int| 0 <= j < k ==> is_letter(#[trigger] cs@[j]),
        ensures
            n == cs@.len(),
            k <= n,
            forall|j: int| 0 <= j < k ==> is_letter(#[trigger] cs@[j]),
            k == n || !is_letter(cs@[k as int]),
        decreases n - k,
    {
        if k == n {
            break;
        }
        if !letter_test(cs[k]) {
            break;
        }
        k += 1;
    }
    proof {
        lemma_leading_letters_exact(cs@, k as int);
    }
    if k == 0 || k >= n {
        return None;
    }
    // the column letters, accumulated with a running bound
    let mut col: i64 = 0;
    let mut i: usize = 0;
    while i < k
        invariant
            n == cs@.len(),
            1 <= k < n,
            i <= k,
            leading_letters(cs@) == k,
            forall|j: int| 0 <= j < k ==> is_letter(#[trigger] cs@[j]),
            col == col_index(cs@.subrange(0, i as int)),
            0 <= col <= 0x80000000,
        decreases k - i,
    {
        let c = cs[i];
        let u = c as u32;
        let up: u32 = if 97 <= u && u <= 122 {
            u - 32
        } else {
            u
        };
        proof {
            assert(is_letter(cs@[i as int]));
            assert(up == upper_char(cs@[i as int]) as u32);
            let p = cs@.subrange(0, i + 1);
            assert(p.drop_last() =~= cs@.subrange(0, i as int));
            assert(p.last() == cs@[i as int]);
        }
        let next: i64 = col * 26 + ((up - 65) as i64 + 1);
        if next > 0x80000000 {
            proof {
                let letters = cs@.take(k as int);
                assert forall|j: int| 0 <= j < letters.len() implies is_letter(
                    #[trigger] letters[j],
                ) by {
                    assert(letters[j] == cs@[j]);
                }
                assert(letters.subrange(0, i + 1) =~= cs@.subrange(0, i + 1));
                lemma_col_index_prefix_le(letters, i + 1);
                assert(next == col_index(cs@.subrange(0, i + 1)));
                assert(col_index(letters) >= next);
                assert(leading_letters(cs@) == k);
                assert(addr_coords(cs@) is None);
            }
            return None;
        }
        col = next;
        i += 1;
    }
    proof {
        assert(cs@.subrange(0, k as int) =~= cs@.take(k as int));
    }
    // the row digits, accumulated with a running bound
    let mut row: i64 = 0;
    let mut j: usize = k;
    while j < n
        invariant
            n == cs@.len(),
            1 <= k < n,
            k <= j <= n,
            leading_letters(cs@) == k,
            forall|i2: int| 0 <= i2 < k ==> is_letter(#[trigger] cs@[i2]),
            col == col_index(cs@.take(k as int)),
            0 <= col <= 0x80000000,
            forall|m: int| k <= m < j ==> is_digit(#[trigger] cs@[m]),
            row == digits_val(cs@.subrange(k as int, j as int)),
            0 <= row <= 0x7fffffff,
        decreases n - j,
    {
        let c = cs[j];
        let d = match digit_of(c) {
            Some(d) => d,
            None => {
                proof {
                    assert(!is_digit(cs@.skip(k as int)[j - k]));
                    assert(!all_digits(cs@.skip(k as int)));
                }
                return None;
            },
        };
        proof {
            let p = cs@.subrange(k as int, j + 1);
            assert(p.drop_last() =~= cs@.subrange(k as int, j as int));
            assert(p.last() == cs@[j as int]);
        }
        let next: i64 = row * 10 + (d as i64);
        if next > 0x7fffffff {
            proof {
                crate::text::lemma_digits_val_prefix_le(cs@.skip(k as int), j - k + 1);
                assert(cs@.skip(k as int).subrange(0, j - k + 1) =~= cs@.subrange(
                    k as int,
                    j + 1,
                ));
            }
            return None;
        }
        row = next;
        j += 1;
    }
    proof {
        assert(cs@.subrange(k as int, n as int) =~= cs@.skip(k as int));
        assert(is_address(cs@));
    }
    Some(
        Coords {
            row: (row - 1) as i32,
            column: (col - 1) as i32,
        },
    )
}

/// The count of leading letters lies within the sequence.
pub proof fn lemma_leading_letters_bounds(s: Seq<char>)
    ensures
        0 <= leading_letters(s) <= s.len(),
    decreases s.len(),
{
    if s.len() > 0 && is_letter(s[0]) {
        lemma_leading_letters_bounds(s.drop_first());
    }
}

/// When a scan stops, the count of leading letters is exactly where it
/// stopped.
pub proof fn lemma_leading_letters_exact(s: Seq<char>, k: int)
    requires
        0 <= k <= s.len(),
        forall|j: int| 0 <= j < k ==> is_letter(#[trigger] s[j]),
        k == s.len() || !is_letter(s[k]),
    ensures
        leading_letters(s) == k,
    decreases k,
{
    if k == 0 {
    } else {
        lemma_leading_letters_exact(s.drop_first(), k - 1);
    }
}

/// The value of a letter prefix is never negative.
proof fn lemma_col_index_nonneg(s: Seq<char>, m: int)
    requires
        0 <= m <= s.len(),
        forall|i: int| 0 <= i < m ==> is_letter(#[trigger] s[i]),
    ensures
        col_index(s.subrange(0, m)) >= 0,
    decreases m,
{
    if m > 0 {
        let p = s.subrange(0, m);
        assert(p.drop_last() =~= s.subrange(0, m - 1));
        assert(p.last() == s[m - 1]);
        lemma_col_index_nonneg(s, m - 1);
        assert(1 <= upper_char(s[m - 1]) as int - 64 <= 26);
        assert(col_index(s.subrange(0, m - 1)) * 26 >= 0) by (nonlinear_arith)
            requires
                col_index(s.subrange(0, m - 1)) >= 0,
        ;
    }
}

} // verus!
