//! Evaluation of expression trees.
//!
//! Values are 64-bit signed integers.  Addition, subtraction,
//! multiplication and exponentiation wrap; division truncates toward
//! zero and fails on a zero divisor.  A cell reference resolves through
//! a caller-supplied value table and an absent or non-numeric cell
//! counts as zero.  The function library is closed: `SUM` and `AVG`,
//! looked up case-insensitively at evaluation time.

use vstd::prelude::*;
use crate::ast::{BinOp, Expr, ExprV, UnOp, expr_view, exprs_view};
use crate::errors::FormulaError;
use crate::text::upper_seq;

verus! {

broadcast use vstd::std_specs::vec::axiom_vec_index_decreases;

/// A machine integer's worth of a mathematical value, wrapped.
pub open spec fn wrap(x: int) -> i64 {
    vstd::wrapping::i64_specs::signed_crop(x)
}

/// Division truncating toward zero, as the machine divides.
pub open spec fn tdiv(a: int, b: int) -> int {
    if a == 0 {
        0
    } else if a > 0 && b > 0 {
        a / b
    } else if a < 0 && b < 0 {
        (a * -1) / (b * -1)
    } else if a < 0 {
        ((a * -1) / b) * -1
    } else {
        (a / (b * -1)) * -1
    }
}

/// Exponentiation by a non-negative exponent, wrapping at each step.
pub open spec fn pow_wrap(base: i64, e: nat) -> i64
    decreases e,
{
    if e == 0 {
        1
    } else {
        wrap(pow_wrap(base, (e - 1) as nat) * base)
    }
}

/// The value of `base ^ e` for any signed exponent.  A negative
/// exponent asks for a reciprocal, which truncates to zero except for
/// the bases whose powers stay at one.
pub open spec fn spec_pow(base: i64, e: i64) -> i64 {
    if e >= 0 {
        pow_wrap(base, e as nat)
    } else if base == 1 {
        1
    } else if base == -1 {
        if e % 2 == 0 {
            1
        } else {
            -1i64
        }
    } else {
        0
    }
}

/// What one binary operator returns: only division can fail, and only
/// on a zero divisor.
pub open spec fn spec_bin(op: BinOp, l: i64, r: i64) -> Result<i64, FormulaError> {
    match op {
        BinOp::Add => Ok(wrap(l + r)),
        BinOp::Sub => Ok(wrap(l - r)),
        BinOp::Mul => Ok(wrap(l * r)),
        BinOp::Div => if r == 0 {
            Err(FormulaError::DivBy0)
        } else {
            Ok(wrap(tdiv(l as int, r as int)))
        },
        BinOp::Pow => Ok(spec_pow(l, r)),
    }
}

/// What the unary operator returns.
pub open spec fn spec_un(op: UnOp, v: i64) -> i64 {
    match op {
        UnOp::Neg => wrap(-(v as int)),
    }
}

/// The sum of a list of values, folded left to right, wrapping.
pub open spec fn spec_sum(vs: Seq<i64>) -> i64
    decreases vs.len(),
{
    if vs.len() == 0 {
        0
    } else {
        wrap(spec_sum(vs.drop_last()) + vs.last())
    }
}

/// What the function registry returns for a name and fully evaluated
/// arguments.  Lookup is case-insensitive; `SUM` of nothing is zero,
/// `AVG` of nothing fails, and a name outside the registry fails.
pub open spec fn spec_apply(name: Seq<char>, vs: Seq<i64>) -> Result<i64, FormulaError> {
    let up = upper_seq(name);
    if up == "SUM"@ {
        Ok(spec_sum(vs))
    } else if up == "AVG"@ {
        if vs.len() == 0 {
            Err(FormulaError::DivBy0)
        } else {
            Ok(wrap(tdiv(spec_sum(vs) as int, vs.len() as int)))
        }
    } else {
        Err(FormulaError::UnknownFunction)
    }
}

/// The value of an expression against a table of cell values: numbers
/// are themselves, a reference is its table entry or zero when absent,
/// operators combine sub-values, and a function call evaluates every
/// argument left to right before the registry is consulted.  The first
/// failure anywhere propagates.
pub open spec fn spec_eval(e: ExprV, env: Map<Seq<char>, i64>) -> Result<i64, FormulaError>
    decreases e,
{
    match e {
        ExprV::Number(n) => Ok(n),
        ExprV::CellRef(r) => if env.contains_key(r) {
            Ok(env[r])
        } else {
            Ok(0)
        },
        ExprV::BinaryOp { op, lhs, rhs } => match spec_eval(*lhs, env) {
            Err(er) => Err(er),
            Ok(l) => match spec_eval(*rhs, env) {
                Err(er) => Err(er),
                Ok(r) => spec_bin(op, l, r),
            },
        },
        ExprV::UnaryOp { op, operand } => match spec_eval(*operand, env) {
            Err(er) => Err(er),
            Ok(v) => Ok(spec_un(op, v)),
        },
        ExprV::Function { name, args } => match spec_eval_args(args, env) {
            Err(er) => Err(er),
            Ok(vs) => spec_apply(name, vs),
        },
    }
}

/// The values of a list of argument expressions, left to right,
/// stopping at the first failure.
pub open spec fn spec_eval_args(es: Seq<ExprV>, env: Map<Seq<char>, i64>) -> Result<
    Seq<i64>,
    FormulaError,
>
    decreases es,
{
    if es.len() == 0 {
        Ok(Seq::empty())
    } else {
        match spec_eval(es[0], env) {
            Err(er) => Err(er),
            Ok(v) => match spec_eval_args(es.drop_first(), env) {
                Err(er) => Err(er),
                Ok(vs) => Ok(seq![v] + vs),
            },
        }
    }
}

/// Character sequences compared for equality.
pub fn chars_eq(a: &Vec<char>, b: &Vec<char>) -> (r: bool)
    ensures
        r == (a@ == b@),
{
    if a.len() != b.len() {
        return false;
    }
    let mut i: usize = 0;
    while i < a.len()
        invariant
            a@.len() == b@.len(),
            i <= a@.len(),
            forall|j: int| 0 <= j < i ==> a@[j] == b@[j],
        decreases a@.len() - i,
    {
        if a[i] != b[i] {
            return false;
        }
        i += 1;
    }
    proof {
        assert(a@ =~= b@);
    }
    true
}

/// A fresh copy of a character sequence.
pub fn copy_chars(v: &Vec<char>) -> (r: Vec<char>)
    ensures
        r@ == v@,
{
    let mut r: Vec<char> = Vec::new();
    let mut i: usize = 0;
    while i < v.len()
        invariant
            i <= v@.len(),
            r@ == v@.subrange(0, i as int),
        decreases v@.len() - i,
    {
        r.push(v[i]);
        i += 1;
    }
    proof {
        assert(r@ =~= v@);
    }
    r
}

/// True exactly when the name, upper-cased, is the given keyword.  The
/// keyword itself must already be upper-case.
fn eq_upper(name: &Vec<char>, kw: &str) -> (r: bool)
    requires
        upper_seq(kw@) == kw@,
    ensures
        r == (upper_seq(name@) == kw@),
{
    let n = kw.unicode_len();
    if name.len() != n {
        proof {
            assert(upper_seq(name@).len() == name@.len());
        }
        return false;
    }
    let mut i: usize = 0;
    while i < n
        invariant
            n == kw@.len(),
            name@.len() == n,
            i <= n,
            forall|j: int| 0 <= j < i ==> upper_seq(name@)[j] == kw@[j],
        decreases n - i,
    {
        let c = name[i] as u32;
        let up: u32 = if 97 <= c && c <= 122 {
            c - 32
        } else {
            c
        };
        let k = kw.get_char(i) as u32;
        proof {
            assert(up == crate::text::upper_char(name@[i as int]) as u32);
            assert(upper_seq(name@)[i as int] == crate::text::upper_char(name@[i as int]));
        }
        if up != k {
            proof {
                assert(upper_seq(name@)[i as int] != kw@[i as int]);
            }
            return false;
        }
        i += 1;
    }
    proof {
        assert(upper_seq(name@) =~= kw@);
    }
    true
}

/// The registry applied to a name and evaluated arguments.
fn apply_function(name: &Vec<char>, vs: &Vec<i64>) -> (r: Result<i64, FormulaError>)
    ensures
        r == spec_apply(name@, vs@),
{
    proof {
        reveal_strlit("SUM");
        reveal_strlit("AVG");
        assert(upper_seq("SUM"@) =~= "SUM"@);
        assert(upper_seq("AVG"@) =~= "AVG"@);
    }
    if eq_upper(name, "SUM") {
        Ok(sum_values(vs))
    } else if eq_upper(name, "AVG") {
        if vs.len() == 0 {
            Err(FormulaError::DivBy0)
        } else {
            Ok(avg_values(vs))
        }
    } else {
        Err(FormulaError::UnknownFunction)
    }
}

/// The wrapping sum of the values, left to right.
fn sum_values(vs: &Vec<i64>) -> (r: i64)
    ensures
        r == spec_sum(vs@),
{
    let mut acc: i64 = 0;
    let mut i: usize = 0;
    while i < vs.len()
        invariant
            i <= vs@.len(),
            acc == spec_sum(vs@.subrange(0, i as int)),
        decreases vs@.len() - i,
    {
        proof {
            let p = vs@.subrange(0, i + 1);
            assert(p.drop_last() =~= vs@.subrange(0, i as int));
            assert(p.last() == vs@[i as int]);
        }
        acc = acc.wrapping_add(vs[i]);
        i += 1;
    }
    proof {
        assert(vs@.subrange(0, vs@.len() as int) =~= vs@);
    }
    acc
}

/// The truncated mean of one or more values.
fn avg_values(vs: &Vec<i64>) -> (r: i64)
    requires
        vs@.len() > 0,
    ensures
        r as int == tdiv(spec_sum(vs@) as int, vs@.len() as int),
{
    let total = sum_values(vs);
    let n = vs.len();
    if (n as u64) <= 0x7fffffff_ffffffff_u64 {
        match total.checked_div(n as i64) {
            Some(q) => q,
            None => {
                proof {
                    let t = total as int;
                    let d = n as int;
                    if t > 0 {
                        vstd::arithmetic::div_mod::lemma_div_pos_is_pos(t, d);
                        vstd::arithmetic::div_mod::lemma_div_is_ordered_by_denominator(t, 1, d);
                    } else if t < 0 {
                        vstd::arithmetic::div_mod::lemma_div_pos_is_pos(-t, d);
                        vstd::arithmetic::div_mod::lemma_div_is_ordered_by_denominator(-t, 1, d);
                    }
                    assert(false);
                }
                0
            },
        }
    } else {
        // more values than any total could outweigh: the mean truncates
        // to zero, except for the one value at the type's minimum
        if total == i64::MIN && (n as u64) == 0x80000000_00000000_u64 {
            proof {
                vstd::arithmetic::div_mod::lemma_div_by_self(0x80000000_00000000);
            }
            -1
        } else {
            proof {
                let t = total as int;
                let d = n as int;
                if t > 0 {
                    vstd::arithmetic::div_mod::lemma_basic_div(t, d);
                } else if t < 0 {
                    vstd::arithmetic::div_mod::lemma_basic_div(-t, d);
                }
            }
            0
        }
    }
}

/// Division of machine values, failing only on a zero divisor.
fn div_values(l: i64, r: i64) -> (res: Result<i64, FormulaError>)
    ensures
        res == spec_bin(BinOp::Div, l, r),
{
    if r == 0 {
        Err(FormulaError::DivBy0)
    } else {
        match l.checked_div(r) {
            Some(q) => Ok(q),
            None => Ok(i64::MIN),
        }
    }
}

/// Exponentiation of machine values.
fn pow_values(base: i64, e: i64) -> (r: i64)
    ensures
        r == spec_pow(base, e),
{
    if e >= 0 {
        let n = e as u64;
        let mut acc: i64 = 1;
        let mut k: u64 = 0;
        while k < n
            invariant
                e >= 0,
                n == e as u64,
                k <= n,
                acc == pow_wrap(base, k as nat),
            decreases n - k,
        {
            acc = acc.wrapping_mul(base);
            k += 1;
        }
        acc
    } else if base == 1 {
        1
    } else if base == -1 {
        let m: u64 = (-(e as i128)) as u64;
        proof {
            assert(m == -(e as int));
            assert((e as int) % 2 == if m % 2 == 0 { 0int } else { 1int }) by (nonlinear_arith)
                requires
                    m == -(e as int) && m > 0,
            ;
        }
        if m % 2 == 0 {
            1
        } else {
            -1
        }
    } else {
        0
    }
}

/// One binary operator applied to machine values.
fn bin_values(op: BinOp, l: i64, r: i64) -> (res: Result<i64, FormulaError>)
    ensures
        res == spec_bin(op, l, r),
{
    match op {
        BinOp::Add => Ok(l.wrapping_add(r)),
        BinOp::Sub => Ok(l.wrapping_sub(r)),
        BinOp::Mul => Ok(l.wrapping_mul(r)),
        BinOp::Div => div_values(l, r),
        BinOp::Pow => Ok(pow_values(l, r)),
    }
}

/// A table of cell values, keyed by the reference text that names them.
/// A later entry for the same key replaces the earlier one.
pub struct ValueMap {
    entries: Vec<(Vec<char>, i64)>,
}

/// The partial map a list of entries denotes; the front entry wins.
spec fn entries_map(s: Seq<(Vec<char>, i64)>) -> Map<Seq<char>, i64>
    decreases s.len(),
{
    if s.len() == 0 {
        Map::empty()
    } else {
        entries_map(s.drop_first()).insert(s[0].0@, s[0].1)
    }
}

impl View for ValueMap {
    type V = Map<Seq<char>, i64>;

    closed spec fn view(&self) -> Map<Seq<char>, i64> {
        entries_map(self.entries@)
    }
}

impl ValueMap {
    /// An empty table.
    pub fn new() -> (r: ValueMap)
        ensures
            r@ == Map::<Seq<char>, i64>::empty(),
    {
        ValueMap { entries: Vec::new() }
    }

    /// Binds a reference text to a value, replacing any earlier binding.
    pub fn insert(&mut self, name: &str, v: i64)
        ensures
            final(self)@ == old(self)@.insert(name@, v),
    {
        let key = crate::text::str_to_chars(name);
        self.entries.insert(0, (key, v));
        proof {
            assert(self.entries@.drop_first() =~= old(self).entries@);
        }
    }

    /// Binds a reference text, given as characters, to a value.
    pub fn insert_chars(&mut self, name: Vec<char>, v: i64)
        ensures
            final(self)@ == old(self)@.insert(name@, v),
    {
        self.entries.insert(0, (name, v));
        proof {
            assert(self.entries@.drop_first() =~= old(self).entries@);
        }
    }

    /// The value bound to a reference text, if any.
    pub fn get(&self, name: &Vec<char>) -> (r: Option<i64>)
        ensures
            r == (if self@.contains_key(name@) {
                Some(self@[name@])
            } else {
                None
            }),
    {
        let n = self.entries.len();
        proof {
            assert(self.entries@.skip(0) =~= self.entries@);
        }
        let mut i: usize = 0;
        while i < n
            invariant
                n == self.entries@.len(),
                i <= n,
                forall|j: int| 0 <= j < i ==> #[trigger] self.entries@[j].0@ != name@,
                map_found(entries_map(self.entries@), name@) == map_found(
                    entries_map(self.entries@.skip(i as int)),
                    name@,
                ),
            decreases n - i,
        {
            proof {
                assert(self.entries@.skip(i as int).drop_first() =~= self.entries@.skip(i + 1));
                assert(self.entries@.skip(i as int)[0] == self.entries@[i as int]);
            }
            if chars_eq(&self.entries[i].0, name) {
                return Some(self.entries[i].1);
            }
            i += 1;
        }
        proof {
            assert(self.entries@.skip(n as int) =~= Seq::<(Vec<char>, i64)>::empty());
        }
        None
    }
}

/// A lookup result folded into one value, for stating what a scan finds.
pub open spec fn map_found(m: Map<Seq<char>, i64>, k: Seq<char>) -> Option<i64> {
    if m.contains_key(k) {
        Some(m[k])
    } else {
        None
    }
}

/// The character sequences a list of character vectors holds.
pub open spec fn views_of(s: Seq<Vec<char>>) -> Seq<Seq<char>> {
    Seq::new(s.len(), |i: int| s[i]@)
}

/// Evaluation only consults the table at the references the expression
/// mentions: two tables that agree there give the same value.
pub proof fn lemma_eval_env_agree(e: ExprV, env1: Map<Seq<char>, i64>, env2: Map<Seq<char>, i64>)
    requires
        forall|r: Seq<char>|
            #[trigger] crate::ast::refs_of(e).contains(r) ==> ((env1.contains_key(r)
                <==> env2.contains_key(r)) && (env1.contains_key(r) ==> env1[r] == env2[r])),
    ensures
        spec_eval(e, env1) == spec_eval(e, env2),
    decreases e,
{
    match e {
        ExprV::Number(_) => {},
        ExprV::CellRef(r) => {
            assert(crate::ast::refs_of(e) == seq![r]);
            assert(seq![r][0] == r);
            assert(crate::ast::refs_of(e).contains(r));
        },
        ExprV::BinaryOp { op, lhs, rhs } => {
            let rl = crate::ast::refs_of(*lhs);
            let rr = crate::ast::refs_of(*rhs);
            assert forall|r: Seq<char>| #[trigger] rl.contains(r) implies crate::ast::refs_of(
                e,
            ).contains(r) by {
                let k = choose|k: int| 0 <= k < rl.len() && rl[k] == r;
                assert((rl + rr)[k] == r);
            }
            assert forall|r: Seq<char>| #[trigger] rr.contains(r) implies crate::ast::refs_of(
                e,
            ).contains(r) by {
                let k = choose|k: int| 0 <= k < rr.len() && rr[k] == r;
                assert((rl + rr)[rl.len() + k] == r);
            }
            lemma_eval_env_agree(*lhs, env1, env2);
            lemma_eval_env_agree(*rhs, env1, env2);
        },
        ExprV::UnaryOp { op, operand } => {
            assert forall|r: Seq<char>| #[trigger] crate::ast::refs_of(*operand).contains(r)
                implies crate::ast::refs_of(e).contains(r) by {}
            lemma_eval_env_agree(*operand, env1, env2);
        },
        ExprV::Function { name, args } => {
            assert forall|r: Seq<char>| #[trigger] crate::ast::refs_of_list(args).contains(r)
                implies crate::ast::refs_of(e).contains(r) by {}
            lemma_eval_args_env_agree(args, env1, env2);
        },
    }
}

/// The same, for a list of argument expressions.
pub proof fn lemma_eval_args_env_agree(
    es: Seq<ExprV>,
    env1: Map<Seq<char>, i64>,
    env2: Map<Seq<char>, i64>,
)
    requires
        forall|r: Seq<char>|
            #[trigger] crate::ast::refs_of_list(es).contains(r) ==> ((env1.contains_key(r)
                <==> env2.contains_key(r)) && (env1.contains_key(r) ==> env1[r] == env2[r])),
    ensures
        spec_eval_args(es, env1) == spec_eval_args(es, env2),
    decreases es,
{
    if es.len() > 0 {
        let rh = crate::ast::refs_of(es[0]);
        let rt = crate::ast::refs_of_list(es.drop_first());
        assert(crate::ast::refs_of_list(es) == rh + rt);
        assert forall|r: Seq<char>| #[trigger] rh.contains(r) implies crate::ast::refs_of_list(
            es,
        ).contains(r) by {
            let k = choose|k: int| 0 <= k < rh.len() && rh[k] == r;
            assert((rh + rt)[k] == r);
        }
        assert forall|r: Seq<char>| #[trigger] rt.contains(r) implies crate::ast::refs_of_list(
            es,
        ).contains(r) by {
            let k = choose|k: int| 0 <= k < rt.len() && rt[k] == r;
            assert((rh + rt)[rh.len() + k] == r);
        }
        lemma_eval_env_agree(es[0], env1, env2);
        lemma_eval_args_env_agree(es.drop_first(), env1, env2);
    }
}

/// Splitting an argument list splits its evaluation: the whole list
/// succeeds exactly when the first part and the rest both do, in order.
proof fn lemma_eval_args_split(s: Seq<ExprV>, env: Map<Seq<char>, i64>, i: int)
    requires
        0 <= i <= s.len(),
    ensures
        spec_eval_args(s, env) == (match spec_eval_args(s.take(i), env) {
            Err(er) => Err::<Seq<i64>, FormulaError>(er),
            Ok(vs) => match spec_eval_args(s.skip(i), env) {
                Err(er) => Err(er),
                Ok(rest) => Ok(vs + rest),
            },
        }),
    decreases i,
{
    if i == 0 {
        assert(s.take(0) =~= Seq::<ExprV>::empty());
        assert(s.skip(0) =~= s);
        if spec_eval_args(s, env) is Ok {
            assert(Seq::<i64>::empty() + spec_eval_args(s, env)->Ok_0 =~= spec_eval_args(
                s,
                env,
            )->Ok_0);
        }
    } else {
        assert(s.len() > 0);
        lemma_eval_args_split(s.drop_first(), env, i - 1);
        assert(s.take(i)[0] == s[0]);
        assert(s.take(i).drop_first() =~= s.drop_first().take(i - 1));
        assert(s.skip(i) =~= s.drop_first().skip(i - 1));
        match spec_eval(s[0], env) {
            Err(_) => {},
            Ok(v) => {
                match spec_eval_args(s.drop_first().take(i - 1), env) {
                    Err(_) => {},
                    Ok(vs) => {
                        match spec_eval_args(s.drop_first().skip(i - 1), env) {
                            Err(_) => {},
                            Ok(rest) => {
                                assert(seq![v] + (vs + rest) =~= (seq![v] + vs) + rest);
                            },
                        }
                    },
                }
            },
        }
    }
}

/// The view of an argument list has the arguments' views, element by
/// element.
proof fn lemma_exprs_view_index(s: Seq<Expr>)
    ensures
        exprs_view(s).len() == s.len(),
        forall|i: int| 0 <= i < s.len() ==> exprs_view(s)[i] == expr_view(#[trigger] s[i]),
    decreases s.len(),
{
    if s.len() > 0 {
        lemma_exprs_view_index(s.drop_first());
        assert forall|i: int| 0 <= i < s.len() implies exprs_view(s)[i] == expr_view(
            #[trigger] s[i],
        ) by {
            if i > 0 {
                assert(s.drop_first()[i - 1] == s[i]);
            }
        }
    }
}

/// A one-longer prefix of an argument list evaluates by evaluating the
/// shorter prefix and then the next argument.
proof fn lemma_eval_args_snoc(s: Seq<ExprV>, env: Map<Seq<char>, i64>, i: int)
    requires
        0 <= i < s.len(),
    ensures
        spec_eval_args(s.take(i + 1), env) == (match spec_eval_args(s.take(i), env) {
            Err(er) => Err::<Seq<i64>, FormulaError>(er),
            Ok(vs) => match spec_eval(s[i], env) {
                Err(er) => Err(er),
                Ok(v) => Ok(vs.push(v)),
            },
        }),
{
    let t = s.take(i + 1);
    lemma_eval_args_split(t, env, i);
    assert(t.take(i) =~= s.take(i));
    assert(t.skip(i) =~= seq![s[i]]);
    assert(seq![s[i]].drop_first() =~= Seq::<ExprV>::empty());
    match spec_eval_args(s.take(i), env) {
        Err(_) => {},
        Ok(vs) => {
            match spec_eval(s[i], env) {
                Err(_) => {},
                Ok(v) => {
                    reveal_with_fuel(spec_eval_args, 3);
                    assert(seq![s[i]][0] == s[i]);
                    assert(spec_eval_args(seq![s[i]], env) == Ok::<Seq<i64>, FormulaError>(
                        seq![v] + Seq::<i64>::empty(),
                    ));
                    assert(vs + (seq![v] + Seq::<i64>::empty()) =~= vs.push(v));
                },
            }
        },
    }
}

/// Evaluates an expression against a table of cell values, exactly as
/// `spec_eval` describes.
#[verifier::loop_isolation(false)]
#[verifier::rlimit(50)]
pub fn eval_expr(e: &Expr, vals: &ValueMap) -> (r: Result<i64, FormulaError>)
    ensures
        r == spec_eval(expr_view(*e), vals@),
    decreases *e,
{
    match e {
        Expr::Number(n) => Ok(*n),
        Expr::CellRef(cr) => match vals.get(cr) {
            Some(v) => Ok(v),
            None => Ok(0),
        },
        Expr::BinaryOp { op, lhs, rhs } => {
            let l = match eval_expr(&**lhs, vals) {
                Err(er) => {
                    return Err(er);
                },
                Ok(l) => l,
            };
            let r = match eval_expr(&**rhs, vals) {
                Err(er) => {
                    return Err(er);
                },
                Ok(r) => r,
            };
            bin_values(*op, l, r)
        },
        Expr::UnaryOp { op, operand } => {
            let v = match eval_expr(&**operand, vals) {
                Err(er) => {
                    return Err(er);
                },
                Ok(v) => v,
            };
            match op {
                UnOp::Neg => Ok(0i64.wrapping_sub(v)),
            }
        },
        Expr::Function { name, args } => {
            match eval_args(args, vals) {
                Err(er) => Err(er),
                Ok(vs) => apply_function(name, &vs),
            }
        },
    }
}

/// Evaluates a list of argument expressions, left to right, stopping at
/// the first failure, exactly as `spec_eval_args` describes.
#[verifier::loop_isolation(false)]
fn eval_args(args: &Vec<Expr>, vals: &ValueMap) -> (r: Result<Vec<i64>, FormulaError>)
    ensures
        (match r {
            Ok(vs) => spec_eval_args(exprs_view(args@), vals@) == Ok::<Seq<i64>, FormulaError>(
                vs@,
            ),
            Err(er) => spec_eval_args(exprs_view(args@), vals@) == Err::<Seq<i64>, FormulaError>(
                er,
            ),
        }),
    decreases *args,
{
    let ghost sv = exprs_view(args@);
    proof {
        lemma_exprs_view_index(args@);
    }
    let mut vs: Vec<i64> = Vec::new();
    let mut i: usize = 0;
    while i < args.len()
        invariant
            i <= args@.len(),
            spec_eval_args(sv.take(i as int), vals@) == Ok::<Seq<i64>, FormulaError>(vs@),
        decreases args@.len() - i,
    {
        proof {
            assert(decreases_to!(*args => args@[i as int]));
        }
        match eval_expr(&args[i], vals) {
            Err(er) => {
                proof {
                    lemma_eval_args_snoc(sv, vals@, i as int);
                    lemma_eval_args_split(sv, vals@, i + 1);
                }
                return Err(er);
            },
            Ok(v) => {
                proof {
                    lemma_eval_args_snoc(sv, vals@, i as int);
                }
                vs.push(v);
            },
        }
        i += 1;
    }
    proof {
        assert(sv.take(args@.len() as int) =~= sv);
    }
    Ok(vs)
}

/// Collects every cell reference an expression mentions, in evaluation
/// order, onto the end of `out`.
#[verifier::loop_isolation(false)]
pub fn collect_refs(e: &Expr, out: &mut Vec<Vec<char>>)
    ensures
        views_of(final(out)@) == views_of(old(out)@) + crate::ast::refs_of(expr_view(*e)),
    decreases *e,
{
    match e {
        Expr::Number(_) => {
            proof {
                assert(views_of(out@) =~= views_of(old(out)@) + Seq::<Seq<char>>::empty());
            }
        },
        Expr::CellRef(cr) => {
            let c = copy_chars(cr);
            out.push(c);
            proof {
                assert(views_of(out@) =~= views_of(old(out)@) + seq![cr@]);
            }
        },
        Expr::BinaryOp { op, lhs, rhs } => {
            collect_refs(&**lhs, out);
            collect_refs(&**rhs, out);
            proof {
                assert(views_of(out@) =~= views_of(old(out)@) + (crate::ast::refs_of(
                    expr_view(**lhs),
                ) + crate::ast::refs_of(expr_view(**rhs))));
            }
        },
        Expr::UnaryOp { op, operand } => {
            collect_refs(&**operand, out);
        },
        Expr::Function { name, args } => {
            collect_refs_list(args, out);
        },
    }
}

/// Collects the references of a list of argument expressions, left to
/// right, onto the end of `out`.
#[verifier::loop_isolation(false)]
fn collect_refs_list(args: &Vec<Expr>, out: &mut Vec<Vec<char>>)
    ensures
        views_of(final(out)@) == views_of(old(out)@) + crate::ast::refs_of_list(
            exprs_view(args@),
        ),
    decreases *args,
{
    let ghost sv = exprs_view(args@);
    proof {
        lemma_exprs_view_index(args@);
    }
    let mut i: usize = 0;
    while i < args.len()
        invariant
            i <= args@.len(),
            views_of(out@) == views_of(old(out)@) + crate::ast::refs_of_list(sv.take(i as int)),
        decreases args@.len() - i,
    {
        proof {
            assert(decreases_to!(*args => args@[i as int]));
        }
        collect_refs(&args[i], out);
        proof {
            lemma_refs_list_snoc(sv, i as int);
            assert(views_of(out@) =~= views_of(old(out)@) + crate::ast::refs_of_list(
                sv.take(i + 1),
            ));
        }
        i += 1;
    }
    proof {
        assert(sv.take(args@.len() as int) =~= sv);
    }
}

/// A one-longer prefix of an argument list mentions the shorter
/// prefix's references and then the next argument's.
proof fn lemma_refs_list_snoc(s: Seq<ExprV>, i: int)
    requires
        0 <= i < s.len(),
    ensures
        crate::ast::refs_of_list(s.take(i + 1)) == crate::ast::refs_of_list(s.take(i))
            + crate::ast::refs_of(s[i]),
    decreases i,
{
    reveal_with_fuel(crate::ast::refs_of_list, 3);
    if i == 0 {
        let t = s.take(1);
        assert(t[0] == s[0]);
        assert(t.drop_first() =~= Seq::<ExprV>::empty());
        assert(crate::ast::refs_of_list(s.take(0)) =~= Seq::<Seq<char>>::empty());
        assert(crate::ast::refs_of(s[0]) + Seq::<Seq<char>>::empty() =~= crate::ast::refs_of(
            s[0],
        ));
        assert(Seq::<Seq<char>>::empty() + crate::ast::refs_of(s[0]) =~= crate::ast::refs_of(
            s[0],
        ));
    } else {
        lemma_refs_list_snoc(s.drop_first(), i - 1);
        assert(s.take(i + 1)[0] == s[0]);
        assert(s.take(i + 1).drop_first() =~= s.drop_first().take(i));
        assert(s.take(i)[0] == s[0]);
        assert(s.take(i).drop_first() =~= s.drop_first().take(i - 1));
        assert(s.drop_first()[i - 1] == s[i]);
        assert(crate::ast::refs_of(s[0]) + (crate::ast::refs_of_list(s.drop_first().take(i - 1))
            + crate::ast::refs_of(s[i])) =~= (crate::ast::refs_of(s[0])
            + crate::ast::refs_of_list(s.drop_first().take(i - 1))) + crate::ast::refs_of(s[i]));
    }
}

} // verus!
