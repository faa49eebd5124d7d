use gridcalc::coords::{cell_address_to_coords, column_index_to_letter, column_letter_to_index, Coords};
use gridcalc::grid::{update_cell_display, Grid};

fn grid() -> Grid {
    Grid::new(90, 25, 26, 100)
}

fn at(addr: &str) -> Coords {
    cell_address_to_coords(addr).unwrap()
}

fn set(g: &mut Grid, addr: &str, text: &str) {
    g.set_cell_content(at(addr), text.to_string());
}

fn show(g: &Grid, addr: &str) -> String {
    g.display_text(at(addr))
}

fn has_edge(g: &Grid, from: &str, to: &str) -> bool {
    g.cells_dep_graph.edges.contains(&(at(from), at(to)))
}

#[test]
fn dependency_propagation() {
    let mut g = grid();
    set(&mut g, "A1", "1");
    set(&mut g, "B1", "=A1+1");
    set(&mut g, "C1", "=B1+1");
    assert_eq!(show(&g, "A1"), "1");
    assert_eq!(show(&g, "B1"), "2");
    assert_eq!(show(&g, "C1"), "3");
    set(&mut g, "A1", "10");
    assert_eq!(show(&g, "A1"), "10");
    assert_eq!(show(&g, "B1"), "11");
    assert_eq!(show(&g, "C1"), "12");
}

#[test]
fn edge_cleanup() {
    let mut g = grid();
    set(&mut g, "B1", "=A1");
    assert!(has_edge(&g, "A1", "B1"));
    set(&mut g, "B1", "=C1");
    assert!(!has_edge(&g, "A1", "B1"));
    assert!(has_edge(&g, "C1", "B1"));
    set(&mut g, "A1", "5");
    assert_eq!(show(&g, "B1"), "0");
    assert!(!has_edge(&g, "A1", "B1"));
}

#[test]
fn cycle_detection() {
    let mut g = grid();
    set(&mut g, "A1", "=B1");
    set(&mut g, "B1", "=A1");
    assert_eq!(show(&g, "A1"), "#CIRCULAR!");
    assert_eq!(show(&g, "B1"), "#CIRCULAR!");
    // a cell outside the cycle resolves the erroring cell as zero; it
    // is not stamped with the circular error itself
    set(&mut g, "C1", "=A1");
    assert_eq!(show(&g, "C1"), "0");
    set(&mut g, "D1", "=A1+1");
    assert_eq!(show(&g, "D1"), "1");
}

#[test]
fn self_reference_is_a_cycle() {
    let mut g = grid();
    set(&mut g, "A1", "=A1");
    assert_eq!(show(&g, "A1"), "#CIRCULAR!");
    set(&mut g, "B1", "=B1+1");
    assert_eq!(show(&g, "B1"), "#CIRCULAR!");
}

#[test]
fn recompute_is_idempotent() {
    let mut g = grid();
    set(&mut g, "A1", "2");
    set(&mut g, "B1", "=A1*3");
    set(&mut g, "C1", "=B1+B1");
    let displays = (show(&g, "A1"), show(&g, "B1"), show(&g, "C1"));
    let edges = g.cells_dep_graph.edges.clone();
    update_cell_display(&mut g, at("B1"));
    assert_eq!(displays, (show(&g, "A1"), show(&g, "B1"), show(&g, "C1")));
    assert_eq!(edges, g.cells_dep_graph.edges);
}

#[test]
fn error_display_strings() {
    let mut g = grid();
    set(&mut g, "A1", "=)");
    assert_eq!(show(&g, "A1"), "#NAME?");
    set(&mut g, "B1", "=FOO(1)");
    assert_eq!(show(&g, "B1"), "#NAME?");
    set(&mut g, "C1", "=1/0");
    assert_eq!(show(&g, "C1"), "#DIV/0!");
}

#[test]
fn plain_text_and_numbers() {
    let mut g = grid();
    set(&mut g, "A1", "hello");
    assert_eq!(show(&g, "A1"), "hello");
    set(&mut g, "B1", "=A1");
    assert_eq!(show(&g, "B1"), "0");
    set(&mut g, "C1", "=A1+1");
    assert_eq!(show(&g, "C1"), "1");
    set(&mut g, "D1", "=-5");
    assert_eq!(show(&g, "D1"), "-5");
    set(&mut g, "E1", "");
    assert_eq!(show(&g, "E1"), "");
}

#[test]
fn direct_reference_tracks_its_source() {
    let mut g = grid();
    set(&mut g, "A1", "7");
    set(&mut g, "B1", "=A1");
    assert_eq!(show(&g, "B1"), "7");
    set(&mut g, "A1", "9");
    assert_eq!(show(&g, "B1"), "9");
}

#[test]
fn addresses_and_columns() {
    assert_eq!(column_index_to_letter(0), "A");
    assert_eq!(column_index_to_letter(25), "Z");
    assert_eq!(column_index_to_letter(26), "AA");
    assert_eq!(column_index_to_letter(-1), "");
    assert_eq!(column_letter_to_index("A"), 1);
    assert_eq!(column_letter_to_index("Z"), 26);
    assert_eq!(column_letter_to_index("AA"), 27);
    assert_eq!(column_letter_to_index("aa"), 27);
    assert_eq!(cell_address_to_coords("A1"), Some(Coords { row: 0, column: 0 }));
    assert_eq!(cell_address_to_coords("B2"), Some(Coords { row: 1, column: 1 }));
    assert_eq!(cell_address_to_coords("AA27"), Some(Coords { row: 26, column: 26 }));
    assert_eq!(cell_address_to_coords("a1"), Some(Coords { row: 0, column: 0 }));
    assert!(cell_address_to_coords("1A").is_none());
    assert!(cell_address_to_coords("A").is_none());
    assert!(cell_address_to_coords("12").is_none());
    assert!(cell_address_to_coords("").is_none());
    assert!(cell_address_to_coords("A1B").is_none());
    assert!(cell_address_to_coords("A 1").is_none());
}

#[test]
fn navigation() {
    let mut g = grid();
    assert_eq!(g.current_cell, Coords { row: 0, column: 0 });
    g.current_cell_up_one();
    assert_eq!(g.current_cell, Coords { row: 0, column: 0 });
    g.current_cell_left_one();
    assert_eq!(g.current_cell, Coords { row: 0, column: 0 });
    g.current_cell_down_one();
    assert_eq!(g.current_cell, Coords { row: 1, column: 0 });
    g.current_cell_right_one();
    assert_eq!(g.current_cell, Coords { row: 1, column: 1 });
    g.current_cell_up_one();
    assert_eq!(g.current_cell, Coords { row: 0, column: 1 });
    g.current_cell_left_one();
    assert_eq!(g.current_cell, Coords { row: 0, column: 0 });
    assert_eq!(g.get_current_cell_address(), "A1");
}

#[test]
fn value_by_address() {
    let mut g = grid();
    set(&mut g, "A1", "42");
    set(&mut g, "B1", "hello");
    assert_eq!(g.get_cell_value_by_address("A1"), Some(42));
    assert_eq!(g.get_cell_value_by_address("a1"), Some(42));
    assert_eq!(g.get_cell_value_by_address("B1"), None);
    assert_eq!(g.get_cell_value_by_address("A2"), None);
    assert_eq!(g.get_cell_value_by_address("zz"), None);
}

#[test]
fn current_cell_content_and_creation() {
    let mut g = grid();
    assert_eq!(g.get_current_cell_content(), "");
    let cell = g.get_mut_current_cell();
    assert_eq!(cell.content, "");
    assert_eq!(cell.display_value, "");
    g.set_cell_content(at("A1"), "=2+2".to_string());
    assert_eq!(g.get_current_cell_content(), "=2+2");
    assert_eq!(show(&g, "A1"), "4");
}

#[test]
fn diamond_dependencies_converge() {
    let mut g = grid();
    set(&mut g, "A1", "1");
    set(&mut g, "B1", "=A1+1");
    set(&mut g, "C1", "=A1*10");
    set(&mut g, "D1", "=B1+C1");
    assert_eq!(show(&g, "D1"), "12");
    set(&mut g, "A1", "2");
    assert_eq!(show(&g, "B1"), "3");
    assert_eq!(show(&g, "C1"), "20");
    assert_eq!(show(&g, "D1"), "23");
}

#[test]
fn negative_values_propagate() {
    let mut g = grid();
    set(&mut g, "A1", "=-7");
    assert_eq!(show(&g, "A1"), "-7");
    set(&mut g, "B1", "=A1*2");
    assert_eq!(show(&g, "B1"), "-14");
    set(&mut g, "C1", "=A1");
    assert_eq!(show(&g, "C1"), "-7");
}

#[test]
fn recompute_of_unwritten_cell_does_nothing() {
    let mut g = grid();
    update_cell_display(&mut g, at("J9"));
    assert_eq!(show(&g, "J9"), "");
    assert!(g.cells_dep_graph.edges.is_empty());
}

#[test]
fn whitespace_between_tokens_is_ignored() {
    let mut g = grid();
    set(&mut g, "A1", "=  SUM ( 1 , 2 )");
    assert_eq!(show(&g, "A1"), "3");
}
