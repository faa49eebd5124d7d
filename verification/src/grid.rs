//! The grid: cells, their store, and the recalculation orchestrator.
//!
//! A cell holds its raw text and the display value last computed for
//! it; the display value is a cache, recomputed whenever the cell or
//! anything it depends on changes.  The grid owns the cell store and
//! the dependency graph, and `update_cell_display` is the single entry
//! point that an edit drives: it reparses the edited cell, rebuilds its
//! dependency edges, evaluates it, detects cycles, and cascades
//! recomputation to every dependant.

use vstd::prelude::*;
use crate::ast::refs_of;
use crate::coords::{Coords, addr_coords, addr_to_coords_chars};
use crate::errors::{FormulaError, error_text};
use crate::eval::{ValueMap, collect_refs, eval_expr, spec_eval, views_of};
use crate::graph::{
    DepGraph, dependants_of, spec_has_cycle, ureachable, without_incoming,
};
use crate::parser::{parse_formula, spec_parse_formula};
use crate::text::{i64_display, i64_to_string, parse_i64, parse_i64_chars, str_to_chars};

verus! {

/// One cell: the text the user entered, and the text the grid shows.
#[derive(Debug, Clone)]
pub struct Cell {
    pub content: String,
    pub display_value: String,
}

impl Cell {
    /// A blank cell.
    pub fn new() -> (r: Cell)
        ensures
            r.content@ == Seq::<char>::empty(),
            r.display_value@ == Seq::<char>::empty(),
    {
        Cell { content: String::new(), display_value: String::new() }
    }
}

/// What a cell is, mathematically: its two texts.
pub ghost struct CellView {
    pub content: Seq<char>,
    pub display: Seq<char>,
}

/// The mathematical form of a stored cell.
pub open spec fn cell_view(c: Cell) -> CellView {
    CellView { content: c.content@, display: c.display_value@ }
}

/// The cell store, keyed by coordinate.
pub struct CellMap {
    entries: Vec<(Coords, Cell)>,
}

/// The partial map a list of entries denotes; the front entry wins.
spec fn cells_map_of(s: Seq<(Coords, Cell)>) -> Map<Coords, CellView>
    decreases s.len(),
{
    if s.len() == 0 {
        Map::empty()
    } else {
        cells_map_of(s.drop_first()).insert(s[0].0, cell_view(s[0].1))
    }
}

/// A lookup result folded into one value, for stating what a scan
/// finds.
pub open spec fn cell_found(m: Map<Coords, CellView>, c: Coords) -> Option<CellView> {
    if m.contains_key(c) {
        Some(m[c])
    } else {
        None
    }
}

/// Replacing an entry replaces its key's binding.
proof fn lemma_update_view(s: Seq<(Coords, Cell)>, i: int, c: Coords, cell: Cell)
    requires
        0 <= i < s.len(),
        s[i].0 == c,
        forall|j: int| 0 <= j < i ==> (#[trigger] s[j]).0 != c,
    ensures
        cells_map_of(s.update(i, (c, cell))) == cells_map_of(s).insert(c, cell_view(cell)),
    decreases i,
{
    reveal_with_fuel(cells_map_of, 3);
    let s2 = s.update(i, (c, cell));
    if i == 0 {
        assert(s2.drop_first() =~= s.drop_first());
        assert(s2[0] == (c, cell));
        assert(cells_map_of(s2) =~= cells_map_of(s).insert(c, cell_view(cell)));
    } else {
        assert(s2[0] == s[0]);
        assert(s2.drop_first() =~= s.drop_first().update(i - 1, (c, cell)));
        assert forall|j: int| 0 <= j < i - 1 implies (#[trigger] s.drop_first()[j]).0 != c by {
            assert(s.drop_first()[j] == s[j + 1]);
        }
        assert(s.drop_first()[i - 1] == s[i]);
        lemma_update_view(s.drop_first(), i - 1, c, cell);
        assert(s[0].0 != c);
        assert(cells_map_of(s2) =~= cells_map_of(s).insert(c, cell_view(cell)));
    }
}

/// Appending an entry with a fresh key adds its binding.
proof fn lemma_push_view(s: Seq<(Coords, Cell)>, c: Coords, cell: Cell)
    requires
        forall|j: int| 0 <= j < s.len() ==> (#[trigger] s[j]).0 != c,
    ensures
        cells_map_of(s.push((c, cell))) == cells_map_of(s).insert(c, cell_view(cell)),
    decreases s.len(),
{
    reveal_with_fuel(cells_map_of, 3);
    let s2 = s.push((c, cell));
    if s.len() == 0 {
        assert(s2.drop_first() =~= Seq::<(Coords, Cell)>::empty());
        assert(s2[0] == (c, cell));
        assert(cells_map_of(s2) =~= cells_map_of(s).insert(c, cell_view(cell)));
    } else {
        assert(s2[0] == s[0]);
        assert(s2.drop_first() =~= s.drop_first().push((c, cell)));
        assert forall|j: int| 0 <= j < s.drop_first().len() implies (#[trigger] s.drop_first()[
            j]).0 != c by {
            assert(s.drop_first()[j] == s[j + 1]);
        }
        lemma_push_view(s.drop_first(), c, cell);
        assert(s[0].0 != c);
        assert(cells_map_of(s2) =~= cells_map_of(s).insert(c, cell_view(cell)));
    }
}

impl View for CellMap {
    type V = Map<Coords, CellView>;

    closed spec fn view(&self) -> Map<Coords, CellView> {
        cells_map_of(self.entries@)
    }
}

impl CellMap {
    /// An empty store.
    pub fn new() -> (r: CellMap)
        ensures
            r@ == Map::<Coords, CellView>::empty(),
    {
        CellMap { entries: Vec::new() }
    }

    /// Where the coordinate's entry sits, if it has one; along the way
    /// the scan pins the lookup down.
    fn find(&self, c: Coords) -> (r: Option<usize>)
        ensures
            (match r {
                Some(i) => i < self.entries@.len() && self.entries@[i as int].0 == c && (forall|
                    j: int,
                |
                    0 <= j < i ==> (#[trigger] self.entries@[j]).0 != c) && cell_found(
                    self@,
                    c,
                ) == Some(cell_view(self.entries@[i as int].1)),
                None => (forall|j: int|
                    0 <= j < self.entries@.len() ==> (#[trigger] self.entries@[j]).0 != c)
                    && cell_found(self@, c) is None,
            }),
    {
        let n = self.entries.len();
        proof {
            assert(self.entries@.skip(0) =~= self.entries@);
        }
        let mut i: usize = 0;
        while i < n
            invariant
                n == self.entries@.len(),
                i <= n,
                forall|j: int| 0 <= j < i ==> (#[trigger] self.entries@[j]).0 != c,
                cell_found(cells_map_of(self.entries@), c) == cell_found(
                    cells_map_of(self.entries@.skip(i as int)),
                    c,
                ),
            decreases n - i,
        {
            proof {
                assert(self.entries@.skip(i as int).drop_first() =~= self.entries@.skip(i + 1));
                assert(self.entries@.skip(i as int)[0] == self.entries@[i as int]);
            }
            let e = &self.entries[i];
            if e.0.row == c.row && e.0.column == c.column {
                proof {
                    assert(self.entries@[i as int].0 == c);
                }
                return Some(i);
            }
            i += 1;
        }
        proof {
            assert(self.entries@.skip(n as int) =~= Seq::<(Coords, Cell)>::empty());
        }
        None
    }

    /// The cell at a coordinate, if one has been stored.
    pub fn get_cell(&self, c: Coords) -> (r: Option<&Cell>)
        ensures
            (match r {
                Some(cell) => cell_found(self@, c) == Some(cell_view(*cell)),
                None => cell_found(self@, c) is None,
            }),
    {
        match self.find(c) {
            Some(i) => Some(&self.entries[i].1),
            None => None,
        }
    }

    /// Writes the cell's raw text, creating a blank cell first if the
    /// coordinate has none; the display value is untouched.
    pub fn set_content(&mut self, c: Coords, text: String)
        ensures
            final(self)@ == old(self)@.insert(
                c,
                CellView {
                    content: text@,
                    display: (if old(self)@.contains_key(c) {
                        old(self)@[c].display
                    } else {
                        Seq::<char>::empty()
                    }),
                },
            ),
    {
        match self.find(c) {
            Some(i) => {
                let display = self.entries[i].1.display_value.clone();
                let ghost entries0 = self.entries@;
                self.entries[i] = (c, Cell { content: text, display_value: display });
                proof {
                    lemma_update_view(
                        entries0,
                        i as int,
                        c,
                        self.entries@[i as int].1,
                    );
                }
            },
            None => {
                let ghost entries0 = self.entries@;
                let cell = Cell { content: text, display_value: String::new() };
                let ghost cellg = cell;
                self.entries.push((c, cell));
                proof {
                    lemma_push_view(entries0, c, cellg);
                }
            },
        }
    }

    /// Writes the cell's display value, if the coordinate has a cell;
    /// a coordinate without one is left without one.
    pub fn set_display(&mut self, c: Coords, text: String)
        ensures
            final(self)@ == (if old(self)@.contains_key(c) {
                old(self)@.insert(
                    c,
                    CellView { content: old(self)@[c].content, display: text@ },
                )
            } else {
                old(self)@
            }),
    {
        match self.find(c) {
            Some(i) => {
                let content = self.entries[i].1.content.clone();
                let ghost entries0 = self.entries@;
                self.entries[i] = (c, Cell { content, display_value: text });
                proof {
                    lemma_update_view(
                        entries0,
                        i as int,
                        c,
                        self.entries@[i as int].1,
                    );
                }
            },
            None => {},
        }
    }
}


/// The cell values a formula's references resolve to: an address that
/// names a stored cell whose display text reads as a number is bound to
/// that number; everything else is unbound (and so counts as zero).
pub open spec fn sheet_env(cells: Map<Coords, CellView>) -> Map<Seq<char>, i64> {
    Map::new(
        |r: Seq<char>|
            match addr_coords(r) {
                Some(t) => cells.contains_key(t) && parse_i64(cells[t].display) is Some,
                None => false,
            },
        |r: Seq<char>| parse_i64(cells[addr_coords(r)->0].display)->0,
    )
}

/// One resolution, folded into one value.
pub open spec fn env_found(cells: Map<Coords, CellView>, r: Seq<char>) -> Option<i64> {
    if sheet_env(cells).contains_key(r) {
        Some(sheet_env(cells)[r])
    } else {
        None
    }
}

impl CellMap {
    /// What an address written in a formula resolves to against this
    /// store.
    pub fn resolve_value(&self, r: &Vec<char>) -> (v: Option<i64>)
        ensures
            v == env_found(self@, r@),
    {
        match addr_to_coords_chars(r) {
            None => None,
            Some(t) => match self.get_cell(t) {
                None => None,
                Some(cell) => {
                    let cs = str_to_chars(cell.display_value.as_str());
                    parse_i64_chars(&cs)
                },
            },
        }
    }
}

/// An edge recorded once: adding it again changes nothing.
pub open spec fn push_edge(
    es: Seq<(Coords, Coords)>,
    t: Coords,
    c: Coords,
) -> Seq<(Coords, Coords)> {
    if es.contains((t, c)) {
        es
    } else {
        es.push((t, c))
    }
}

/// The edge a reference text contributes, if it names a coordinate.
pub open spec fn add_ref_edge(
    es: Seq<(Coords, Coords)>,
    r: Seq<char>,
    c: Coords,
) -> Seq<(Coords, Coords)> {
    match addr_coords(r) {
        None => es,
        Some(t) => push_edge(es, t, c),
    }
}

/// The edges a formula's references contribute, in reference order.
pub open spec fn add_refs(
    es: Seq<(Coords, Coords)>,
    refs: Seq<Seq<char>>,
    c: Coords,
) -> Seq<(Coords, Coords)>
    decreases refs.len(),
{
    if refs.len() == 0 {
        es
    } else {
        add_ref_edge(add_refs(es, refs.drop_last(), c), refs.last(), c)
    }
}

/// The whole engine state an edit acts on: the cells and the edges.
pub ghost struct SheetView {
    pub cells: Map<Coords, CellView>,
    pub edges: Seq<(Coords, Coords)>,
}

/// What one recomputation of one cell does, before any cascade.
pub ghost struct StepRes {
    pub sheet: SheetView,
    pub cyclic: bool,
    pub deps: Seq<Coords>,
}

/// Every cell of the component connected to `c` (in either edge
/// direction) shows the circular-reference error; other cells keep
/// their displays, and every cell keeps its content.
pub open spec fn stamp_component(
    cells: Map<Coords, CellView>,
    es: Seq<(Coords, Coords)>,
    c: Coords,
) -> Map<Coords, CellView> {
    Map::new(
        |k: Coords| cells.contains_key(k),
        |k: Coords|
            if ureachable(es, c, k) {
                CellView {
                    content: cells[k].content,
                    display: error_text(FormulaError::CircularReference),
                }
            } else {
                cells[k]
            },
    )
}

/// One recomputation of one cell, per the recalculation state machine:
/// a missing cell is left alone; otherwise the cell's incoming edges
/// are removed, plain text is shown verbatim, a formula that is
/// exactly one cell address shows that cell's numeric value (zero when
/// absent or not numeric) and adds one edge, without the full parser,
/// and any other formula is parsed and evaluated against the current
/// displays with one edge per reference; then, for formulas, a
/// cycle through the cell stamps its whole connected component with
/// the circular-reference error and stops the cascade, while a
/// cycle-free cell records its display and hands its direct dependants
/// on for recomputation.
pub open spec fn spec_step(s: SheetView, c: Coords) -> StepRes {
    if !s.cells.contains_key(c) {
        StepRes { sheet: s, cyclic: false, deps: Seq::empty() }
    } else {
        let content = s.cells[c].content;
        let es1 = without_incoming(s.edges, c);
        if content.len() == 0 || content[0] != '=' {
            let s2 = SheetView {
                cells: s.cells.insert(c, CellView { content, display: content }),
                edges: es1,
            };
            StepRes { sheet: s2, cyclic: false, deps: dependants_of(es1, c) }
        } else {
            let body = content.skip(1);
            let outcome = match addr_coords(body) {
                Some(target) => (
                    i64_display(
                        (if s.cells.contains_key(target) && parse_i64(
                            s.cells[target].display,
                        ) is Some {
                            parse_i64(s.cells[target].display)->0
                        } else {
                            0i64
                        }),
                    ),
                    push_edge(es1, target, c),
                ),
                None => match spec_parse_formula(content) {
                    None => (error_text(FormulaError::ParsingError), es1),
                    Some(ast) => (
                        (match spec_eval(ast, sheet_env(s.cells)) {
                            Ok(n) => i64_display(n),
                            Err(e2) => error_text(e2),
                        }),
                        add_refs(es1, refs_of(ast), c),
                    ),
                },
            };
            let display0 = outcome.0;
            let es2 = outcome.1;
            if spec_has_cycle(es2, c) {
                StepRes {
                    sheet: SheetView { cells: stamp_component(s.cells, es2, c), edges: es2 },
                    cyclic: true,
                    deps: Seq::empty(),
                }
            } else {
                StepRes {
                    sheet: SheetView {
                        cells: s.cells.insert(c, CellView { content, display: display0 }),
                        edges: es2,
                    },
                    cyclic: false,
                    deps: dependants_of(es2, c),
                }
            }
        }
    }
}

/// A whole recomputation: one step, then -- if no cycle stopped it --
/// each direct dependant in turn, recursively, depth first.  The fuel
/// bounds the recursion depth; an edit hands it more fuel than any
/// dependency chain through the graph can use.
pub open spec fn spec_recompute(s: SheetView, c: Coords, fuel: nat) -> SheetView
    decreases fuel, 0int,
{
    if fuel == 0 {
        s
    } else {
        let st = spec_step(s, c);
        if st.cyclic {
            st.sheet
        } else {
            spec_cascade(st.sheet, st.deps, (fuel - 1) as nat)
        }
    }
}

/// The dependants recomputed in order, each cascade finishing before
/// the next sibling starts.
pub open spec fn spec_cascade(s: SheetView, deps: Seq<Coords>, fuel: nat) -> SheetView
    decreases fuel, deps.len() + 1,
{
    if deps.len() == 0 {
        s
    } else {
        spec_cascade(spec_recompute(s, deps[0], fuel), deps.drop_first(), fuel)
    }
}

/// The fuel an edit starts with: comfortably more than the number of
/// edges, since a cascade chain cannot revisit a node without its
/// cycle being caught.
pub open spec fn start_fuel(edges_len: nat) -> nat {
    if edges_len > 0x3fffffff_ffffffff {
        0xffffffff_ffffffff
    } else {
        2 * edges_len + 2
    }
}


/// One cell stamped with the circular-reference error, if it exists.
pub open spec fn stamp_one(cells: Map<Coords, CellView>, x: Coords) -> Map<Coords, CellView> {
    if cells.contains_key(x) {
        cells.insert(
            x,
            CellView {
                content: cells[x].content,
                display: error_text(FormulaError::CircularReference),
            },
        )
    } else {
        cells
    }
}

/// A list of cells stamped in order.
pub open spec fn stamp_some(cells: Map<Coords, CellView>, xs: Seq<Coords>) -> Map<
    Coords,
    CellView,
>
    decreases xs.len(),
{
    if xs.len() == 0 {
        cells
    } else {
        stamp_one(stamp_some(cells, xs.drop_last()), xs.last())
    }
}

/// Stamping depends only on which cells are listed, not their order:
/// each listed, stored cell shows the error, everything else stays.
proof fn lemma_stamp_some_elems(cells: Map<Coords, CellView>, xs: Seq<Coords>)
    ensures
        stamp_some(cells, xs) == Map::new(
            |k: Coords| cells.contains_key(k),
            |k: Coords|
                if xs.contains(k) {
                    CellView {
                        content: cells[k].content,
                        display: error_text(FormulaError::CircularReference),
                    }
                } else {
                    cells[k]
                },
        ),
    decreases xs.len(),
{
    let target = Map::new(
        |k: Coords| cells.contains_key(k),
        |k: Coords|
            if xs.contains(k) {
                CellView {
                    content: cells[k].content,
                    display: error_text(FormulaError::CircularReference),
                }
            } else {
                cells[k]
            },
    );
    if xs.len() == 0 {
        assert(stamp_some(cells, xs) =~= target);
    } else {
        let dl = xs.drop_last();
        lemma_stamp_some_elems(cells, dl);
        assert forall|k: Coords| #[trigger] xs.contains(k) implies dl.contains(k) || k
            == xs.last() by {
            let j = choose|j: int| 0 <= j < xs.len() && xs[j] == k;
            if j < xs.len() - 1 {
                assert(dl[j] == k);
            }
        }
        assert forall|k: Coords| dl.contains(k) implies #[trigger] xs.contains(k) by {
            let j = choose|j: int| 0 <= j < dl.len() && dl[j] == k;
            assert(xs[j] == k);
        }
        assert(xs.contains(xs.last()));
        let m = stamp_some(cells, dl);
        assert(stamp_some(cells, xs) == stamp_one(m, xs.last()));
        assert(stamp_some(cells, xs) =~= target);
    }
}

/// The grid: the cell store, the dependency graph, and the
/// presentation state around them.
pub struct Grid {
    pub cells_map: CellMap,
    pub cells_dep_graph: DepGraph,
    pub current_cell: Coords,
    pub previous_content: String,
    pub is_editing_cell: bool,
    pub base_header_column_width: i32,
    pub base_header_row_height: i32,
    pub column_widths: Vec<i32>,
    pub row_heights: Vec<i32>,
}

/// A row of equal measures.
fn fill_i32(val: i32, n: usize) -> (r: Vec<i32>)
    ensures
        r@.len() == n,
        forall|i: int| 0 <= i < n ==> r@[i] == val,
{
    let mut r: Vec<i32> = Vec::new();
    let mut i: usize = 0;
    while i < n
        invariant
            i <= n,
            r@.len() == i,
            forall|j: int| 0 <= j < i ==> r@[j] == val,
        decreases n - i,
    {
        r.push(val);
        i += 1;
    }
    r
}

impl Grid {
    /// The engine state: what recomputation reads and writes.
    pub open spec fn sheet(&self) -> SheetView {
        SheetView { cells: self.cells_map@, edges: self.cells_dep_graph.edges@ }
    }

    /// The presentation state: what recomputation leaves alone.
    pub open spec fn ui(&self) -> (Coords, Seq<char>, bool, i32, i32, Seq<i32>, Seq<i32>) {
        (
            self.current_cell,
            self.previous_content@,
            self.is_editing_cell,
            self.base_header_column_width,
            self.base_header_row_height,
            self.column_widths@,
            self.row_heights@,
        )
    }

    pub open spec fn wf(&self) -> bool {
        self.cells_dep_graph.wf()
    }

    /// An empty grid with the given sizing.
    pub fn new(
        base_header_column_width: i32,
        base_header_row_height: i32,
        column_count: usize,
        row_count: usize,
    ) -> (r: Grid)
        ensures
            r.wf(),
            r.sheet().cells == Map::<Coords, CellView>::empty(),
            r.sheet().edges == Seq::<(Coords, Coords)>::empty(),
            r.current_cell == (Coords { row: 0, column: 0 }),
            r.previous_content@ == Seq::<char>::empty(),
            !r.is_editing_cell,
            r.base_header_column_width == base_header_column_width,
            r.base_header_row_height == base_header_row_height,
            r.column_widths@.len() == column_count,
            forall|i: int| 0 <= i < column_count ==> r.column_widths@[i]
                == base_header_column_width,
            r.row_heights@.len() == row_count,
            forall|i: int| 0 <= i < row_count ==> r.row_heights@[i] == base_header_row_height,
    {
        Grid {
            cells_map: CellMap::new(),
            cells_dep_graph: DepGraph::new(),
            current_cell: Coords { row: 0, column: 0 },
            previous_content: String::new(),
            is_editing_cell: false,
            base_header_column_width,
            base_header_row_height,
            column_widths: fill_i32(base_header_column_width, column_count),
            row_heights: fill_i32(base_header_row_height, row_count),
        }
    }
}


/// One recomputation of one cell, exactly as `spec_step` describes:
/// the returned flag says whether a cycle stopped the cascade, and the
/// returned list holds the dependants to recompute when it did not.
#[verifier::loop_isolation(false)]
#[verifier::rlimit(100)]
fn step_exec(grid: &mut Grid, c: Coords) -> (r: (bool, Vec<Coords>))
    requires
        old(grid).wf(),
    ensures
        final(grid).wf(),
        final(grid).ui() == old(grid).ui(),
        final(grid).sheet() == spec_step(old(grid).sheet(), c).sheet,
        r.0 == spec_step(old(grid).sheet(), c).cyclic,
        r.1@ == spec_step(old(grid).sheet(), c).deps,
{
    let ghost s0 = grid.sheet();
    // a cell never written to needs nothing
    let content: String = match grid.cells_map.get_cell(c) {
        None => {
            return (false, Vec::new());
        },
        Some(cell) => cell.content.clone(),
    };
    proof {
        assert(s0.cells.contains_key(c) && s0.cells[c].content == content@);
    }
    // stale relationships never linger: reset the incoming edges first
    grid.cells_dep_graph.remove_incoming_edges(c);
    let ghost es1 = grid.cells_dep_graph.edges@;
    let chars = str_to_chars(content.as_str());
    let is_formula = chars.len() >= 1 && chars[0] == '=';
    if !is_formula {
        // plain text is shown verbatim
        grid.cells_map.set_display(c, content.clone());
        proof {
            assert(grid.cells_map@ =~= s0.cells.insert(
                c,
                CellView { content: content@, display: content@ },
            ));
        }
        let deps = grid.cells_dep_graph.dependants(c);
        return (false, deps);
    }
    let body = crate::text::copy_range(&chars, 1, chars.len());
    proof {
        assert(body@ =~= content@.skip(1));
    }
    let display: String;
    match addr_to_coords_chars(&body) {
        Some(target) => {
            // the direct-reference shortcut: resolve the named cell's
            // numeric value (an erroring or textual source counts as
            // zero) and record the one edge, without the full parser
            let v: i64 = match grid.cells_map.get_cell(target) {
                Some(cell) => {
                    let cs = str_to_chars(cell.display_value.as_str());
                    match parse_i64_chars(&cs) {
                        Some(v) => v,
                        None => 0,
                    }
                },
                None => 0,
            };
            display = i64_to_string(v);
            grid.cells_dep_graph.add_edge(target, c);
        },
        None => {
            match parse_formula(content.as_str()) {
                Err(_) => {
                    display = FormulaError::ParsingError.display_text();
                },
                Ok(ast) => {
                    let ghost ev = crate::ast::expr_view(ast);
                    // every reference the formula mentions becomes an edge
                    let mut refs: Vec<Vec<char>> = Vec::new();
                    collect_refs(&ast, &mut refs);
                    let ghost rv = views_of(refs@);
                    proof {
                        assert(views_of(Seq::<Vec<char>>::empty()) =~= Seq::<Seq<char>>::empty());
                        assert(rv =~= refs_of(ev));
                    }
                    let mut i: usize = 0;
                    while i < refs.len()
                        invariant
                            i <= refs@.len(),
                            grid.cells_dep_graph.wf(),
                            grid.cells_dep_graph.edges@ == add_refs(es1, rv.take(i as int), c),
                            grid.cells_map@ == s0.cells,
                            grid.ui() == old(grid).ui(),
                        decreases refs@.len() - i,
                    {
                        proof {
                            assert(rv.take(i + 1).drop_last() =~= rv.take(i as int));
                            assert(rv.take(i + 1).last() == rv[i as int]);
                            assert(rv[i as int] == refs@[i as int]@);
                        }
                        match addr_to_coords_chars(&refs[i]) {
                            Some(t) => {
                                grid.cells_dep_graph.add_edge(t, c);
                            },
                            None => {},
                        }
                        proof {
                            assert(grid.cells_dep_graph.edges@ == add_refs(
                                es1,
                                rv.take(i + 1),
                                c,
                            ));
                        }
                        i += 1;
                    }
                    proof {
                        assert(rv.take(refs@.len() as int) =~= rv);
                    }
                    // resolve every reference against the current displays
                    let ghost cells0 = grid.cells_map@;
                    let mut vals = ValueMap::new();
                    let mut i2: usize = 0;
                    while i2 < refs.len()
                        invariant
                            i2 <= refs@.len(),
                            forall|k: Seq<char>| #[trigger] vals@.contains_key(k) ==> sheet_env(
                                cells0,
                            ).contains_key(k) && vals@[k] == sheet_env(cells0)[k],
                            forall|j: int| 0 <= j < i2 ==> (sheet_env(cells0).contains_key(
                                #[trigger] rv[j],
                            ) ==> vals@.contains_key(rv[j])),
                        decreases refs@.len() - i2,
                    {
                        proof {
                            assert(rv[i2 as int] == refs@[i2 as int]@);
                        }
                        match grid.cells_map.resolve_value(&refs[i2]) {
                            Some(v) => {
                                let key = crate::eval::copy_chars(&refs[i2]);
                                vals.insert_chars(key, v);
                            },
                            None => {},
                        }
                        i2 += 1;
                    }
                    proof {
                        assert forall|r: Seq<char>| #[trigger] refs_of(ev).contains(r) implies ((
                        vals@.contains_key(r) <==> sheet_env(cells0).contains_key(r)) && (
                        vals@.contains_key(r) ==> vals@[r] == sheet_env(cells0)[r])) by {
                            let j = choose|j: int| 0 <= j < rv.len() && rv[j] == r;
                            if sheet_env(cells0).contains_key(r) {
                                assert(vals@.contains_key(rv[j]));
                            }
                        }
                        crate::eval::lemma_eval_env_agree(ev, vals@, sheet_env(cells0));
                    }
                    let val = eval_expr(&ast, &vals);
                    display = match val {
                        Ok(n) => i64_to_string(n),
                        Err(e2) => e2.display_text(),
                    };
                },
            }
        },
    }
    let ghost es2 = grid.cells_dep_graph.edges@;
    let cyclic = grid.cells_dep_graph.has_cycle_through(c);
    if cyclic {
        // the whole connected component shows the circular-reference
        // error, and the cascade stops here
        let circ = FormulaError::CircularReference.display_text();
        let comp = grid.cells_dep_graph.connected_component(c);
        let ghost cells_before = grid.cells_map@;
        let mut i3: usize = 0;
        while i3 < comp.len()
            invariant
                i3 <= comp@.len(),
                grid.cells_map@ == stamp_some(cells_before, comp@.take(i3 as int)),
                grid.cells_dep_graph.edges@ == es2,
                grid.cells_dep_graph.wf(),
                grid.ui() == old(grid).ui(),
                circ@ == error_text(FormulaError::CircularReference),
            decreases comp@.len() - i3,
        {
            proof {
                assert(comp@.take(i3 + 1).drop_last() =~= comp@.take(i3 as int));
                assert(comp@.take(i3 + 1).last() == comp@[i3 as int]);
            }
            grid.cells_map.set_display(comp[i3], circ.clone());
            proof {
                assert(grid.cells_map@ =~= stamp_some(cells_before, comp@.take(i3 + 1)));
            }
            i3 += 1;
        }
        proof {
            assert(comp@.take(comp@.len() as int) =~= comp@);
            lemma_stamp_some_elems(cells_before, comp@);
            assert(grid.cells_map@ =~= stamp_component(cells_before, es2, c));
        }
        (true, Vec::new())
    } else {
        grid.cells_map.set_display(c, display);
        proof {
            assert(grid.cells_map@ =~= s0.cells.insert(
                c,
                CellView { content: content@, display: display@ },
            ));
        }
        let deps = grid.cells_dep_graph.dependants(c);
        (false, deps)
    }
}


/// Recomputes one cell and cascades with the given fuel, exactly as
/// `spec_recompute` describes.
fn recompute_fueled(grid: &mut Grid, c: Coords, fuel: u64)
    requires
        old(grid).wf(),
    ensures
        final(grid).wf(),
        final(grid).ui() == old(grid).ui(),
        final(grid).sheet() == spec_recompute(old(grid).sheet(), c, fuel as nat),
    decreases fuel, 0int,
{
    if fuel == 0 {
        return;
    }
    let step = step_exec(grid, c);
    if step.0 {
        return;
    }
    cascade_deps(grid, &step.1, fuel - 1);
}

/// Recomputes each dependant in turn, exactly as `spec_cascade`
/// describes.
#[verifier::loop_isolation(false)]
fn cascade_deps(grid: &mut Grid, deps: &Vec<Coords>, fuel: u64)
    requires
        old(grid).wf(),
    ensures
        final(grid).wf(),
        final(grid).ui() == old(grid).ui(),
        final(grid).sheet() == spec_cascade(old(grid).sheet(), deps@, fuel as nat),
    decreases fuel, 1int,
{
    let ghost s0 = grid.sheet();
    proof {
        assert(deps@.skip(0) =~= deps@);
    }
    let mut i: usize = 0;
    while i < deps.len()
        invariant
            i <= deps@.len(),
            grid.wf(),
            grid.ui() == old(grid).ui(),
            spec_cascade(s0, deps@, fuel as nat) == spec_cascade(
                grid.sheet(),
                deps@.skip(i as int),
                fuel as nat,
            ),
        decreases deps@.len() - i,
    {
        proof {
            assert(deps@.skip(i as int)[0] == deps@[i as int]);
            assert(deps@.skip(i as int).drop_first() =~= deps@.skip(i + 1));
        }
        recompute_fueled(grid, deps[i], fuel);
        i += 1;
    }
    proof {
        assert(deps@.skip(deps@.len() as int) =~= Seq::<Coords>::empty());
    }
}

/// The single entry point an edit drives: reparses the edited cell,
/// rebuilds its dependency edges, evaluates it, detects cycles, and
/// cascades recomputation to every direct and transitive dependant.
pub fn update_cell_display(grid: &mut Grid, coords: Coords)
    requires
        old(grid).wf(),
    ensures
        final(grid).wf(),
        final(grid).ui() == old(grid).ui(),
        final(grid).sheet() == spec_recompute(
            old(grid).sheet(),
            coords,
            start_fuel(old(grid).sheet().edges.len()),
        ),
{
    let e = grid.cells_dep_graph.edges.len();
    let fuel: u64 = if (e as u64) > 0x3fffffff_ffffffff_u64 {
        0xffffffff_ffffffff_u64
    } else {
        2 * (e as u64) + 2
    };
    proof {
        assert(fuel as nat == start_fuel(grid.sheet().edges.len()));
    }
    recompute_fueled(grid, coords, fuel);
}

impl Grid {
    /// Everything an arrow key leaves alone: the whole grid but the
    /// cursor.
    pub open spec fn frame_except_cursor(&self) -> (
        Map<Coords, CellView>,
        Seq<(Coords, Coords)>,
        Seq<char>,
        bool,
        i32,
        i32,
        Seq<i32>,
        Seq<i32>,
    ) {
        (
            self.cells_map@,
            self.cells_dep_graph.edges@,
            self.previous_content@,
            self.is_editing_cell,
            self.base_header_column_width,
            self.base_header_row_height,
            self.column_widths@,
            self.row_heights@,
        )
    }

    /// Writes raw text into the cell (creating it on first write), then
    /// recomputes it and everything that depends on it.
    pub fn set_cell_content(&mut self, coords: Coords, text: String)
        requires
            old(self).wf(),
        ensures
            final(self).wf(),
            final(self).ui() == old(self).ui(),
            final(self).sheet() == spec_recompute(
                SheetView {
                    cells: old(self).sheet().cells.insert(
                        coords,
                        CellView {
                            content: text@,
                            display: (if old(self).sheet().cells.contains_key(coords) {
                                old(self).sheet().cells[coords].display
                            } else {
                                Seq::<char>::empty()
                            }),
                        },
                    ),
                    edges: old(self).sheet().edges,
                },
                coords,
                start_fuel(old(self).sheet().edges.len()),
            ),
    {
        self.cells_map.set_content(coords, text);
        update_cell_display(self, coords);
    }

    /// The cell's current cached display value; empty if the cell has
    /// never been written.
    pub fn display_text(&self, coords: Coords) -> (r: String)
        ensures
            r@ == (if self.sheet().cells.contains_key(coords) {
                self.sheet().cells[coords].display
            } else {
                Seq::<char>::empty()
            }),
    {
        match self.cells_map.get_cell(coords) {
            Some(cell) => cell.display_value.clone(),
            None => String::new(),
        }
    }

    /// The numeric value an address resolves to: nothing when the
    /// address is malformed or the cell's display text is not numeric.
    pub fn get_cell_value_by_address(&self, address: &str) -> (r: Option<i64>)
        ensures
            r == env_found(self.cells_map@, address@),
    {
        let cs = str_to_chars(address);
        self.cells_map.resolve_value(&cs)
    }

    /// The cell under the cursor, created blank on first use.
    pub fn get_mut_current_cell(&mut self) -> (r: Cell)
        ensures
            final(self).cells_map@ == (if old(self).cells_map@.contains_key(
                old(self).current_cell,
            ) {
                old(self).cells_map@
            } else {
                old(self).cells_map@.insert(
                    old(self).current_cell,
                    CellView {
                        content: Seq::<char>::empty(),
                        display: Seq::<char>::empty(),
                    },
                )
            }),
            cell_view(r) == final(self).cells_map@[old(self).current_cell],
            final(self).cells_dep_graph.edges@ == old(self).cells_dep_graph.edges@,
            final(self).ui() == old(self).ui(),
            final(self).wf() == old(self).wf(),
    {
        match self.cells_map.get_cell(self.current_cell) {
            Some(cell) => Cell {
                content: cell.content.clone(),
                display_value: cell.display_value.clone(),
            },
            None => {
                let c = self.current_cell;
                self.cells_map.set_content(c, String::new());
                Cell::new()
            },
        }
    }

    /// The cursor's address, letters then one-based row.
    pub fn get_current_cell_address(&self) -> (r: String)
        ensures
            r@ == crate::coords::col_letters(self.current_cell.column as int) + i64_display(
                (self.current_cell.row + 1) as i64,
            ),
    {
        let mut s = crate::coords::column_index_to_letter(self.current_cell.column);
        let num = i64_to_string((self.current_cell.row as i64) + 1);
        s.append(num.as_str());
        s
    }

    /// The raw text of the cell under the cursor; empty if the cell has
    /// never been written.
    pub fn get_current_cell_content(&self) -> (r: String)
        ensures
            r@ == (if self.cells_map@.contains_key(self.current_cell) {
                self.cells_map@[self.current_cell].content
            } else {
                Seq::<char>::empty()
            }),
    {
        match self.cells_map.get_cell(self.current_cell) {
            Some(cell) => cell.content.clone(),
            None => String::new(),
        }
    }

    /// Moves the cursor up one row, stopping at the top edge.
    pub fn current_cell_up_one(&mut self)
        ensures
            final(self).frame_except_cursor() == old(self).frame_except_cursor(),
            final(self).current_cell.column == old(self).current_cell.column,
            final(self).current_cell.row as int == (if old(self).current_cell.row > 0 {
                old(self).current_cell.row - 1
            } else {
                old(self).current_cell.row as int
            }),
    {
        if self.current_cell.row > 0 {
            self.current_cell.row = self.current_cell.row - 1;
        }
    }

    /// Moves the cursor down one row, stopping at the last row.
    pub fn current_cell_down_one(&mut self)
        requires
            1 <= old(self).row_heights@.len(),
            old(self).row_heights@.len() - 1 <= i32::MAX,
        ensures
            final(self).frame_except_cursor() == old(self).frame_except_cursor(),
            final(self).current_cell.column == old(self).current_cell.column,
            final(self).current_cell.row as int == (if old(self).current_cell.row
                < old(self).row_heights@.len() - 1 {
                old(self).current_cell.row + 1
            } else {
                old(self).current_cell.row as int
            }),
    {
        if self.current_cell.row < (self.row_heights.len() - 1) as i32 {
            self.current_cell.row = self.current_cell.row + 1;
        }
    }

    /// Moves the cursor left one column, stopping at the left edge.
    pub fn current_cell_left_one(&mut self)
        ensures
            final(self).frame_except_cursor() == old(self).frame_except_cursor(),
            final(self).current_cell.row == old(self).current_cell.row,
            final(self).current_cell.column as int == (if old(self).current_cell.column > 0 {
                old(self).current_cell.column - 1
            } else {
                old(self).current_cell.column as int
            }),
    {
        if self.current_cell.column > 0 {
            self.current_cell.column = self.current_cell.column - 1;
        }
    }

    /// Moves the cursor right one column, stopping at the last column.
    pub fn current_cell_right_one(&mut self)
        requires
            1 <= old(self).column_widths@.len(),
            old(self).column_widths@.len() - 1 <= i32::MAX,
        ensures
            final(self).frame_except_cursor() == old(self).frame_except_cursor(),
            final(self).current_cell.row == old(self).current_cell.row,
            final(self).current_cell.column as int == (if old(self).current_cell.column
                < old(self).column_widths@.len() - 1 {
                old(self).current_cell.column + 1
            } else {
                old(self).current_cell.column as int
            }),
    {
        if self.current_cell.column < (self.column_widths.len() - 1) as i32 {
            self.current_cell.column = self.current_cell.column + 1;
        }
    }
}

} // verus!
