//! The lexical layer of the formula grammar.
//!
//! A formula's text splits into tokens: integer literals, cell
//! references (letters then digits), function names (letters), the
//! arithmetic operators, parentheses, commas and the leading equals
//! sign.  Whitespace separates tokens and is dropped.  Any other
//! character makes the whole text unlexable.

use vstd::prelude::*;
use crate::coords::{leading_letters, lemma_leading_letters_bounds, lemma_leading_letters_exact};
use crate::text::{
    copy_range, digit_of, digits_val, is_digit, is_letter, leading_digits, letter_test,
    lemma_digits_val_prefix_le, lemma_leading_digits_bounds, lemma_leading_digits_exact,
};

verus! {

/// One token of a formula.  The text of a reference or a name is kept
/// as written; case matters only later, at function lookup.
#[derive(Debug)]
pub enum Token<S> {
    Num(i64),
    Ref(S),
    Name(S),
    Plus,
    Minus,
    Star,
    Slash,
    Caret,
    LParen,
    RParen,
    Comma,
    Eq,
}

/// What an executable token stands for.
pub open spec fn tok_view(t: Token<Vec<char>>) -> Token<Seq<char>> {
    match t {
        Token::Num(n) => Token::Num(n),
        Token::Ref(s) => Token::Ref(s@),
        Token::Name(s) => Token::Name(s@),
        Token::Plus => Token::Plus,
        Token::Minus => Token::Minus,
        Token::Star => Token::Star,
        Token::Slash => Token::Slash,
        Token::Caret => Token::Caret,
        Token::LParen => Token::LParen,
        Token::RParen => Token::RParen,
        Token::Comma => Token::Comma,
        Token::Eq => Token::Eq,
    }
}

/// What a list of executable tokens stands for.
pub open spec fn toks_views(s: Seq<Token<Vec<char>>>) -> Seq<Token<Seq<char>>> {
    Seq::new(s.len(), |i: int| tok_view(s[i]))
}

/// Whitespace between tokens.
pub open spec fn is_space(c: char) -> bool {
    c == ' ' || c == '\t' || c == '\r' || c == '\n'
}

/// The token a single operator character makes, if any.
pub open spec fn op_token(c: char) -> Option<Token<Seq<char>>> {
    if c == '+' {
        Some(Token::Plus)
    } else if c == '-' {
        Some(Token::Minus)
    } else if c == '*' {
        Some(Token::Star)
    } else if c == '/' {
        Some(Token::Slash)
    } else if c == '^' {
        Some(Token::Caret)
    } else if c == '(' {
        Some(Token::LParen)
    } else if c == ')' {
        Some(Token::RParen)
    } else if c == ',' {
        Some(Token::Comma)
    } else if c == '=' {
        Some(Token::Eq)
    } else {
        None
    }
}

/// The token list of a formula text: whitespace dropped, digits
/// gathered into a literal (which must fit the value type), letters
/// into a reference when digits follow and into a name otherwise, and
/// single characters into operator tokens.  Any other character, or an
/// oversized literal, lexes to nothing.
pub open spec fn spec_tokenize(s: Seq<char>) -> Option<Seq<Token<Seq<char>>>>
    decreases s.len(),
    when true via spec_tokenize_decreases
{
    if s.len() == 0 {
        Some(Seq::empty())
    } else {
        let c = s[0];
        if is_space(c) {
            spec_tokenize(s.drop_first())
        } else if is_digit(c) {
            let n = leading_digits(s);
            if digits_val(s.take(n)) > i64::MAX as int {
                None
            } else {
                match spec_tokenize(s.skip(n)) {
                    None => None,
                    Some(ts) => Some(seq![Token::Num(digits_val(s.take(n)) as i64)] + ts),
                }
            }
        } else if is_letter(c) {
            let l = leading_letters(s);
            let d = leading_digits(s.skip(l));
            if d > 0 {
                match spec_tokenize(s.skip(l + d)) {
                    None => None,
                    Some(ts) => Some(seq![Token::Ref(s.take(l + d))] + ts),
                }
            } else {
                match spec_tokenize(s.skip(l)) {
                    None => None,
                    Some(ts) => Some(seq![Token::Name(s.take(l))] + ts),
                }
            }
        } else {
            match op_token(c) {
                None => None,
                Some(t) => match spec_tokenize(s.drop_first()) {
                    None => None,
                    Some(ts) => Some(seq![t] + ts),
                },
            }
        }
    }
}

#[via_fn]
proof fn spec_tokenize_decreases(s: Seq<char>) {
    if s.len() > 0 {
        lemma_leading_digits_bounds(s.drop_first());
        lemma_leading_letters_bounds(s.drop_first());
        lemma_leading_digits_bounds(s);
        lemma_leading_letters_bounds(s);
        if is_letter(s[0]) {
            lemma_leading_digits_bounds(s.skip(leading_letters(s)));
        }
    }
}

/// Where the digit run starting at `from` ends.
fn scan_digits(cs: &Vec<char>, from: usize) -> (r: usize)
    requires
        from <= cs@.len(),
    ensures
        from <= r <= cs@.len(),
        forall|m: int| from <= m < r ==> is_digit(#[trigger] cs@[m]),
        r == cs@.len() || !is_digit(cs@[r as int]),
{
    let mut r: usize = from;
    while r < cs.len()
        invariant
            from <= r <= cs@.len(),
            forall|m: int| from <= m < r ==> is_digit(#[trigger] cs@[m]),
        decreases cs@.len() - r,
    {
        if digit_of(cs[r]).is_none() {
            return r;
        }
        r += 1;
    }
    r
}

/// Where the letter run starting at `from` ends.
fn scan_letters(cs: &Vec<char>, from: usize) -> (r: usize)
    requires
        from <= cs@.len(),
    ensures
        from <= r <= cs@.len(),
        forall|m: int| from <= m < r ==> is_letter(#[trigger] cs@[m]),
        r == cs@.len() || !is_letter(cs@[r as int]),
{
    let mut r: usize = from;
    while r < cs.len()
        invariant
            from <= r <= cs@.len(),
            forall|m: int| from <= m < r ==> is_letter(#[trigger] cs@[m]),
        decreases cs@.len() - r,
    {
        if !letter_test(cs[r]) {
            return r;
        }
        r += 1;
    }
    r
}

/// Splits a formula text into its tokens, exactly as `spec_tokenize`
/// describes.
#[verifier::loop_isolation(false)]
#[verifier::rlimit(50)]
pub fn tokenize(cs: &Vec<char>) -> (r: Option<Vec<Token<Vec<char>>>>)
    ensures
        (match spec_tokenize(cs@) {
            None => r is None,
            Some(ts) => r is Some && toks_views(r->0@) == ts,
        }),
{
    let n = cs.len();
    proof {
        assert(cs@.skip(0) =~= cs@);
    }
    let mut out: Vec<Token<Vec<char>>> = Vec::new();
    let mut i: usize = 0;
    while i < n
        invariant
            i <= n,
            spec_tokenize(cs@) == (match spec_tokenize(cs@.skip(i as int)) {
                None => None::<Seq<Token<Seq<char>>>>,
                Some(ts) => Some(toks_views(out@) + ts),
            }),
        decreases n - i,
    {
        let ghost rest = cs@.skip(i as int);
        proof {
            assert(rest[0] == cs@[i as int]);
            assert(rest.drop_first() =~= cs@.skip(i + 1));
        }
        let c = cs[i];
        if c == ' ' || c == '\t' || c == '\r' || c == '\n' {
            i += 1;
        } else if c == '+' || c == '-' || c == '*' || c == '/' || c == '^' || c == '(' || c == ')'
            || c == ',' || c == '=' {
            let t: Token<Vec<char>> = if c == '+' {
                Token::Plus
            } else if c == '-' {
                Token::Minus
            } else if c == '*' {
                Token::Star
            } else if c == '/' {
                Token::Slash
            } else if c == '^' {
                Token::Caret
            } else if c == '(' {
                Token::LParen
            } else if c == ')' {
                Token::RParen
            } else if c == ',' {
                Token::Comma
            } else {
                Token::Eq
            };
            let ghost prev = out@;
            out.push(t);
            proof {
                assert(op_token(rest[0]) == Some(tok_view(t)));
                assert forall|ts: Seq<Token<Seq<char>>>| true implies toks_views(prev.push(t))
                    + ts =~= toks_views(prev) + (seq![tok_view(t)] + ts) by {}
            }
            i += 1;
        } else if digit_of(c).is_some() {
            // a digit run becomes one literal
            let j = scan_digits(cs, i);
            proof {
                assert(is_digit(c));
                assert(j > i);
                assert forall|m: int| 0 <= m < j - i implies is_digit(#[trigger] rest[m]) by {
                    assert(rest[m] == cs@[i + m]);
                }
                if j < n {
                    assert(rest[j - i] == cs@[j as int]);
                }
                lemma_leading_digits_exact(rest, j - i);
            }
            // the literal's value, watching the bound
            let mut acc: u64 = 0;
            let mut k: usize = i;
            while k < j
                invariant
                    i <= k <= j,
                    acc == digits_val(rest.subrange(0, k - i)),
                    acc <= 0x7fffffff_ffffffff_u64,
                decreases j - k,
            {
                let d = match digit_of(cs[k]) {
                    Some(d) => d,
                    None => {
                        proof {
                            assert(is_digit(cs@[k as int]));
                            assert(false);
                        }
                        0
                    },
                };
                proof {
                    let p = rest.subrange(0, k - i + 1);
                    assert(p.drop_last() =~= rest.subrange(0, k - i));
                    assert(p.last() == rest[k - i] && rest[k - i] == cs@[k as int]);
                }
                if acc > (0x7fffffff_ffffffff_u64 - (d as u64)) / 10 {
                    proof {
                        let b = 0x7fffffff_ffffffff_int;
                        let dd = d as int;
                        let f = (b - dd) / 10;
                        assert(10 * f + (b - dd) % 10 == b - dd) by (nonlinear_arith)
                            requires
                                f == (b - dd) / 10 && 0 <= dd <= 9,
                        ;
                        assert(acc * 10 >= (f + 1) * 10) by (nonlinear_arith)
                            requires
                                acc >= f + 1,
                        ;
                        assert(digits_val(rest.subrange(0, k - i + 1)) > b);
                        lemma_digits_val_prefix_le(rest.take(j - i), k - i + 1);
                        assert(rest.take(j - i).subrange(0, k - i + 1) =~= rest.subrange(
                            0,
                            k - i + 1,
                        ));
                        assert(digits_val(rest.take(j - i)) > i64::MAX as int);
                    }
                    return None;
                }
                acc = acc * 10 + (d as u64);
                k += 1;
            }
            proof {
                assert(rest.subrange(0, j - i) =~= rest.take(j - i));
            }
            let ghost prev = out@;
            let t = Token::<Vec<char>>::Num(acc as i64);
            out.push(t);
            proof {
                assert forall|ts: Seq<Token<Seq<char>>>| true implies toks_views(prev.push(t))
                    + ts =~= toks_views(prev) + (seq![tok_view(t)] + ts) by {}
                assert(cs@.skip(i as int).skip(j - i) =~= cs@.skip(j as int));
            }
            i = j;
        } else if letter_test(c) {
            // a letter run, then any digits: a reference or a name
            let j = scan_letters(cs, i);
            let m = scan_digits(cs, j);
            proof {
                assert(is_letter(c));
                assert(j > i);
                assert forall|q: int| 0 <= q < j - i implies is_letter(#[trigger] rest[q]) by {
                    assert(rest[q] == cs@[i + q]);
                }
                if j < n {
                    assert(rest[j - i] == cs@[j as int]);
                }
                lemma_leading_letters_exact(rest, j - i);
                let after = rest.skip(j - i);
                assert(after =~= cs@.skip(j as int));
                assert forall|q: int| 0 <= q < m - j implies is_digit(#[trigger] after[q]) by {
                    assert(after[q] == cs@[j + q]);
                }
                if m < n {
                    assert(after[m - j] == cs@[m as int]);
                }
                lemma_leading_digits_exact(after, m - j);
            }
            let ghost prev = out@;
            if m > j {
                let part = copy_range(cs, i, m);
                let t = Token::<Vec<char>>::Ref(part);
                proof {
                    assert(t->Ref_0@ =~= rest.take(m - i));
                }
                out.push(t);
                proof {
                    assert forall|ts: Seq<Token<Seq<char>>>| true implies toks_views(
                        prev.push(t),
                    ) + ts =~= toks_views(prev) + (seq![tok_view(t)] + ts) by {}
                    assert(cs@.skip(i as int).skip(m - i) =~= cs@.skip(m as int));
                }
                i = m;
            } else {
                let part = copy_range(cs, i, j);
                let t = Token::<Vec<char>>::Name(part);
                proof {
                    assert(t->Name_0@ =~= rest.take(j - i));
                }
                out.push(t);
                proof {
                    assert forall|ts: Seq<Token<Seq<char>>>| true implies toks_views(
                        prev.push(t),
                    ) + ts =~= toks_views(prev) + (seq![tok_view(t)] + ts) by {}
                    assert(cs@.skip(i as int).skip(j - i) =~= cs@.skip(j as int));
                }
                i = j;
            }
        } else {
            return None;
        }
    }
    proof {
        assert(cs@.skip(n as int) =~= Seq::<char>::empty());
        match spec_tokenize(cs@) {
            None => {
                assert(false);
            },
            Some(ts) => {
                assert(toks_views(out@) + Seq::<Token<Seq<char>>>::empty() =~= toks_views(
                    out@,
                ));
            },
        }
    }
    Some(out)
}

} // verus!
