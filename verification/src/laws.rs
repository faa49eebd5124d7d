//! Laws the engine obeys, stated and proved once for all inputs.

use vstd::prelude::*;
use crate::ast::{BinOp, ExprV, refs_of};
use crate::coords::{Coords, addr_coords};
use crate::errors::FormulaError;
use crate::eval::{spec_eval, spec_eval_args};
use crate::grid::{CellView, SheetView, add_refs, push_edge, sheet_env, spec_step, stamp_component};
use crate::graph::{
    edge_in, lemma_reachable_self, lemma_without_incoming_elems, spec_has_cycle,
    without_incoming,
};
use crate::text::{
    i64_display, is_digit, lemma_nat_digits_all_digits, lemma_nat_digits_val, nat_digits,
    parse_i64, upper_seq,
};

verus! {

/// Dividing by a divisor worth zero fails with the division error,
/// whenever the dividend evaluates at all.  A divisor that is the
/// literal zero and a divisor that is a reference to a cell holding
/// zero (or holding nothing numeric) are both such divisors.
pub proof fn lemma_division_by_zero(
    lhs: ExprV,
    rhs: ExprV,
    env: Map<Seq<char>, i64>,
)
    requires
        spec_eval(lhs, env) is Ok,
        spec_eval(rhs, env) == Ok::<i64, FormulaError>(0i64),
    ensures
        spec_eval(
            ExprV::BinaryOp { op: BinOp::Div, lhs: Box::new(lhs), rhs: Box::new(rhs) },
            env,
        ) == Err::<i64, FormulaError>(FormulaError::DivBy0),
{
}

/// A reference to a cell bound to zero, or bound to nothing, evaluates
/// to zero -- so by the law above it fails any division it divides.
pub proof fn lemma_zero_reference(r: Seq<char>, env: Map<Seq<char>, i64>)
    requires
        env.contains_key(r) ==> env[r] == 0,
    ensures
        spec_eval(ExprV::CellRef(r), env) == Ok::<i64, FormulaError>(0i64),
{
}

/// Function names are case-insensitive: two spellings with the same
/// upper-case form call the same function.
pub proof fn lemma_function_name_case_insensitive(
    n1: Seq<char>,
    n2: Seq<char>,
    args: Seq<ExprV>,
    env: Map<Seq<char>, i64>,
)
    requires
        upper_seq(n1) == upper_seq(n2),
    ensures
        spec_eval(ExprV::Function { name: n1, args }, env) == spec_eval(
            ExprV::Function { name: n2, args },
            env,
        ),
{
}

/// A name outside the registry fails with the unknown-function error,
/// whenever its arguments all evaluate.
pub proof fn lemma_unknown_function(
    name: Seq<char>,
    args: Seq<ExprV>,
    env: Map<Seq<char>, i64>,
)
    requires
        upper_seq(name) != "SUM"@,
        upper_seq(name) != "AVG"@,
        spec_eval_args(args, env) is Ok,
    ensures
        spec_eval(ExprV::Function { name, args }, env) == Err::<i64, FormulaError>(
            FormulaError::UnknownFunction,
        ),
{
}

/// The edge a formula cell's content owes to a source cell: the content
/// is a formula and either is exactly the source's address, or parses
/// and mentions a reference naming the source.
pub open spec fn content_references(s: SheetView, c: Coords, t: Coords) -> bool {
    let content = s.cells[c].content;
    &&& content.len() >= 1
    &&& content[0] == '='
    &&& (match addr_coords(content.skip(1)) {
        Some(t2) => t == t2,
        None => match crate::parser::spec_parse_formula(content) {
            Some(ast) => exists|j: int|
                0 <= j < refs_of(ast).len() && addr_coords(#[trigger] refs_of(ast)[j]) == Some(
                    t,
                ),
            None => false,
        },
    })
}

/// Membership in the edges a reference list contributes.
proof fn lemma_add_refs_elems(
    es: Seq<(Coords, Coords)>,
    refs: Seq<Seq<char>>,
    c: Coords,
    t: Coords,
)
    ensures
        add_refs(es, refs, c).contains((t, c)) <==> es.contains((t, c)) || exists|j: int|
            0 <= j < refs.len() && addr_coords(#[trigger] refs[j]) == Some(t),
    decreases refs.len(),
{
    if refs.len() == 0 {
    } else {
        let dl = refs.drop_last();
        lemma_add_refs_elems(es, dl, c, t);
        let m = add_refs(es, dl, c);
        assert forall|j: int| 0 <= j < dl.len() implies #[trigger] dl[j] == refs[j] by {}
        match addr_coords(refs.last()) {
            None => {
                if exists|j: int|
                    0 <= j < refs.len() && addr_coords(#[trigger] refs[j]) == Some(t) {
                    let j = choose|j: int|
                        0 <= j < refs.len() && addr_coords(#[trigger] refs[j]) == Some(t);
                    assert(j < refs.len() - 1);
                    assert(addr_coords(dl[j]) == Some(t));
                }
            },
            Some(t2) => {
                if m.contains((t2, c)) {
                    assert(push_edge(m, t2, c) == m);
                } else {
                    let p = m.push((t2, c));
                    assert forall|x: (Coords, Coords)| #[trigger] p.contains(x) implies
                        m.contains(x) || x == (t2, c) by {
                        let k = choose|k: int| 0 <= k < p.len() && p[k] == x;
                        if k < m.len() {
                            assert(m[k] == x);
                        }
                    }
                    assert forall|x: (Coords, Coords)| m.contains(x) implies #[trigger] p
                        .contains(x) by {
                        let k = choose|k: int| 0 <= k < m.len() && m[k] == x;
                        assert(p[k] == x);
                    }
                    assert(p[p.len() - 1] == (t2, c));
                    assert(p.contains((t2, c)));
                }
                if t == t2 {
                    assert(addr_coords(refs[refs.len() - 1]) == Some(t));
                }
                if exists|j: int|
                    0 <= j < refs.len() && addr_coords(#[trigger] refs[j]) == Some(t) {
                    let j = choose|j: int|
                        0 <= j < refs.len() && addr_coords(#[trigger] refs[j]) == Some(t);
                    if j < refs.len() - 1 {
                        assert(addr_coords(dl[j]) == Some(t));
                    }
                }
            },
        }
    }
}

/// After a cell is recomputed, its incoming edges are exactly the ones
/// its current content owes: every stale edge from an earlier formula
/// is gone, and every current reference has its edge.
pub proof fn lemma_incoming_edges_match_content(s: SheetView, c: Coords, t: Coords)
    requires
        s.cells.contains_key(c),
    ensures
        spec_step(s, c).sheet.edges.contains((t, c)) <==> content_references(s, c, t),
{
    let content = s.cells[c].content;
    let es1 = crate::graph::without_incoming(s.edges, c);
    lemma_without_incoming_elems(s.edges, c);
    assert(!es1.contains((t, c)));
    if content.len() == 0 || content[0] != '=' {
    } else {
        match addr_coords(content.skip(1)) {
            Some(t2) => {
                let es2 = push_edge(es1, t2, c);
                if !es1.contains((t2, c)) {
                    let p = es1.push((t2, c));
                    assert forall|x: (Coords, Coords)| #[trigger] p.contains(x) implies
                        es1.contains(x) || x == (t2, c) by {
                        let k = choose|k: int| 0 <= k < p.len() && p[k] == x;
                        if k < es1.len() {
                            assert(es1[k] == x);
                        }
                    }
                    assert(p[p.len() - 1] == (t2, c));
                    assert(p.contains((t2, c)));
                }
            },
            None => {
                match crate::parser::spec_parse_formula(content) {
                    None => {},
                    Some(ast) => {
                        lemma_add_refs_elems(es1, refs_of(ast), c, t);
                    },
                }
            },
        }
    }
}


/// Removing incoming edges from a list that has none leaves the list
/// as it is.
proof fn lemma_wi_id(es: Seq<(Coords, Coords)>, c: Coords)
    requires
        forall|j: int| 0 <= j < es.len() ==> (#[trigger] es[j]).1 != c,
    ensures
        without_incoming(es, c) == es,
    decreases es.len(),
{
    if es.len() > 0 {
        let dl = es.drop_last();
        assert forall|j: int| 0 <= j < dl.len() implies (#[trigger] dl[j]).1 != c by {
            assert(dl[j] == es[j]);
        }
        lemma_wi_id(dl, c);
        assert(es[es.len() - 1].1 != c);
        assert(without_incoming(es, c) =~= es);
    }
}

/// The edges a recomputation adds all point at the recomputed cell, so
/// removing that cell's incoming edges undoes exactly them.
proof fn lemma_wi_add_refs(
    es: Seq<(Coords, Coords)>,
    refs: Seq<Seq<char>>,
    c: Coords,
)
    requires
        forall|j: int| 0 <= j < es.len() ==> (#[trigger] es[j]).1 != c,
    ensures
        without_incoming(add_refs(es, refs, c), c) == es,
    decreases refs.len(),
{
    if refs.len() == 0 {
        lemma_wi_id(es, c);
    } else {
        let dl = refs.drop_last();
        lemma_wi_add_refs(es, dl, c);
        let m = add_refs(es, dl, c);
        match addr_coords(refs.last()) {
            None => {},
            Some(t) => {
                if !m.contains((t, c)) {
                    let p = m.push((t, c));
                    assert(p.drop_last() =~= m);
                    assert(p.last() == (t, c));
                    assert(without_incoming(p, c) =~= without_incoming(m, c));
                }
            },
        }
    }
}

/// The same, for the single edge of the direct-reference shortcut.
proof fn lemma_wi_push_edge(es: Seq<(Coords, Coords)>, t: Coords, c: Coords)
    requires
        forall|j: int| 0 <= j < es.len() ==> (#[trigger] es[j]).1 != c,
    ensures
        without_incoming(push_edge(es, t, c), c) == es,
{
    lemma_wi_id(es, c);
    if !es.contains((t, c)) {
        let p = es.push((t, c));
        assert(p.drop_last() =~= es);
        assert(p.last() == (t, c));
        assert(without_incoming(p, c) =~= without_incoming(es, c));
    }
}

/// Recomputing an already-consistent cell changes nothing: running the
/// recomputation step on a cell a second time, with no content change
/// and no upstream change in between, leaves every display value and
/// the whole edge list unchanged.
pub proof fn lemma_recompute_idempotent(s: SheetView, c: Coords)
    ensures
        spec_step(spec_step(s, c).sheet, c).sheet.cells == spec_step(s, c).sheet.cells,
        spec_step(spec_step(s, c).sheet, c).sheet.edges == spec_step(s, c).sheet.edges,
{
    let st1 = spec_step(s, c);
    let s1 = st1.sheet;
    let st2 = spec_step(s1, c);
    if !s.cells.contains_key(c) {
        assert(s1 == s);
    } else {
        let content = s.cells[c].content;
        let es1 = without_incoming(s.edges, c);
        lemma_without_incoming_elems(s.edges, c);
        assert forall|j: int| 0 <= j < es1.len() implies (#[trigger] es1[j]).1 != c by {
            assert(es1.contains(es1[j]));
        }
        if content.len() == 0 || content[0] != '=' {
            assert(s1.cells[c].content == content);
            lemma_wi_id(es1, c);
            assert(st2.sheet.cells =~= s1.cells);
        } else {
            let body = content.skip(1);
            match addr_coords(body) {
                Some(target) => {
                    let es2 = push_edge(es1, target, c);
                    lemma_wi_push_edge(es1, target, c);
                    assert(es2.contains((target, c))) by {
                        if !es1.contains((target, c)) {
                            let p = es1.push((target, c));
                            assert(p[p.len() - 1] == (target, c));
                        }
                    }
                    if spec_has_cycle(es2, c) {
                        // both rounds stamp the same component with the
                        // same text
                        assert(s1.cells[c].content == content);
                        assert(st2.sheet.cells =~= s1.cells);
                        assert(st2.sheet.edges == es2);
                    } else {
                        // the shortcut's source is another cell, whose
                        // display the first round did not touch
                        assert(target != c) by {
                            if target == c {
                                assert(edge_in(es2, c, c));
                                lemma_reachable_self(es2, c);
                                assert(spec_has_cycle(es2, c));
                            }
                        }
                        assert(s1.cells[c].content == content);
                        assert(st2.sheet.cells =~= s1.cells);
                        assert(st2.sheet.edges == es2);
                    }
                },
                None => {
                    match crate::parser::spec_parse_formula(content) {
                        None => {
                            lemma_wi_id(es1, c);
                            assert(s1.cells[c].content == content);
                            if spec_has_cycle(es1, c) {
                                assert(st2.sheet.cells =~= s1.cells);
                            } else {
                                assert(st2.sheet.cells =~= s1.cells);
                            }
                        },
                        Some(ast) => {
                            let es2 = add_refs(es1, refs_of(ast), c);
                            lemma_wi_add_refs(es1, refs_of(ast), c);
                            if spec_has_cycle(es2, c) {
                                assert(s1.cells == stamp_component(s.cells, es2, c));
                                assert(s1.cells.contains_key(c));
                                assert(s1.cells[c].content == content);
                                // the display the second round computes is
                                // beside the point: the same cycle stamps
                                // the same cells with the same text again
                                assert(st2.sheet.cells =~= s1.cells);
                                assert(st2.sheet.edges == es2);
                            } else {
                                assert(s1.cells[c].content == content);
                                // no reference names the cell itself, or
                                // the cycle test would have fired
                                assert forall|j: int|
                                    0 <= j < refs_of(ast).len() implies addr_coords(
                                    #[trigger] refs_of(ast)[j],
                                ) != Some(c) by {
                                    if addr_coords(refs_of(ast)[j]) == Some(c) {
                                        lemma_add_refs_elems(es1, refs_of(ast), c, c);
                                        assert(es2.contains((c, c)));
                                        assert(edge_in(es2, c, c));
                                        lemma_reachable_self(es2, c);
                                        assert(spec_has_cycle(es2, c));
                                    }
                                }
                                // so the second evaluation sees the same
                                // values at every reference
                                assert forall|r: Seq<char>|
                                    #[trigger] refs_of(ast).contains(r) implies ((sheet_env(
                                    s1.cells,
                                ).contains_key(r) <==> sheet_env(s.cells).contains_key(r)) && (
                                sheet_env(s1.cells).contains_key(r) ==> sheet_env(s1.cells)[r]
                                    == sheet_env(s.cells)[r])) by {
                                    let j = choose|j: int|
                                        0 <= j < refs_of(ast).len() && refs_of(ast)[j] == r;
                                    match addr_coords(r) {
                                        None => {},
                                        Some(tr) => {
                                            assert(tr != c);
                                            assert(s1.cells.contains_key(tr)
                                                <==> s.cells.contains_key(tr));
                                            if s.cells.contains_key(tr) {
                                                assert(s1.cells[tr] == s.cells[tr]);
                                            }
                                        },
                                    }
                                }
                                crate::eval::lemma_eval_env_agree(
                                    ast,
                                    sheet_env(s1.cells),
                                    sheet_env(s.cells),
                                );
                                assert(st2.sheet.cells =~= s1.cells);
                                assert(st2.sheet.edges == es2);
                            }
                        },
                    }
                },
            }
        }
    }
}


/// What a cell writes, its dependants read back: the display string of
/// a number parses to that same number, so a numeric result propagates
/// losslessly through the display cache.
pub proof fn lemma_display_roundtrip(n: i64)
    ensures
        parse_i64(i64_display(n)) == Some(n),
{
    if n >= 0 {
        let s = nat_digits(n as nat);
        lemma_nat_digits_all_digits(n as nat);
        lemma_nat_digits_val(n as nat);
        assert(is_digit(s[0]));
        assert(s[0] != '-' && s[0] != '+');
    } else {
        let m = (-(n as int)) as nat;
        let s = seq!['-'] + nat_digits(m);
        lemma_nat_digits_all_digits(m);
        lemma_nat_digits_val(m);
        assert(s[0] == '-');
        assert(s.drop_first() =~= nat_digits(m));
        assert(m <= 0x8000000000000000);
    }
}


/// Recomputing a cell without finding a cycle touches no other cell:
/// every other coordinate keeps its cell, its content and its display.
pub proof fn lemma_step_touches_only_its_cell(s: SheetView, c: Coords, k: Coords)
    requires
        k != c,
        !spec_step(s, c).cyclic,
    ensures
        spec_step(s, c).sheet.cells.contains_key(k) == s.cells.contains_key(k),
        s.cells.contains_key(k) ==> spec_step(s, c).sheet.cells[k] == s.cells[k],
{
}

/// When a cycle is found, exactly the connected component is stamped:
/// a stored cell shows the circular-reference error anew only if it is
/// connected to the probed cell, every cell outside the component is
/// untouched, and no cell's content changes.
pub proof fn lemma_cycle_stamps_only_component(s: SheetView, c: Coords, k: Coords)
    requires
        spec_step(s, c).cyclic,
        s.cells.contains_key(k),
    ensures
        spec_step(s, c).sheet.cells.contains_key(k),
        spec_step(s, c).sheet.cells[k].content == s.cells[k].content,
        crate::graph::ureachable(spec_step(s, c).sheet.edges, c, k)
            ==> spec_step(s, c).sheet.cells[k].display == crate::errors::error_text(
            FormulaError::CircularReference,
        ),
        !crate::graph::ureachable(spec_step(s, c).sheet.edges, c, k) ==> spec_step(
            s,
            c,
        ).sheet.cells[k] == s.cells[k],
{
}

} // verus!
