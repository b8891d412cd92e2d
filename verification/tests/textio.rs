use tabular_tool::delimited::{fmt_i64, infer_cell, parse_table, render_table};
use tabular_tool::error::ToolError;
use tabular_tool::lint::lint_table;
use tabular_tool::options::Options;
use tabular_tool::table::{CellValue, Table};

fn text(s: &str) -> CellValue {
    CellValue::Text(s.to_string())
}

fn names(ns: &[&str]) -> Vec<String> {
    ns.iter().map(|s| s.to_string()).collect()
}

fn people() -> Table {
    Table {
        names: names(&["name", "age", "city"]),
        rows: vec![
            vec![text("Alice"), CellValue::Int(30), text("NYC")],
            vec![text("Bob"), CellValue::Int(25), text("LA")],
            vec![text("Charlie"), CellValue::Int(35), text("NYC")],
        ],
    }
}

#[test]
fn render_produces_delimited_lines() {
    let t = people();
    let out = render_table(&t, ',');
    assert_eq!(out, "name,age,city\nAlice,30,NYC\nBob,25,LA\nCharlie,35,NYC\n");
    let out = render_table(&t, '\t');
    assert_eq!(
        out,
        "name\tage\tcity\nAlice\t30\tNYC\nBob\t25\tLA\nCharlie\t35\tNYC\n"
    );
}

#[test]
fn signed_integers_render_exactly() {
    assert_eq!(fmt_i64(0), "0");
    assert_eq!(fmt_i64(42), "42");
    assert_eq!(fmt_i64(-7), "-7");
    assert_eq!(fmt_i64(i64::MIN), "-9223372036854775808");
    assert_eq!(fmt_i64(i64::MAX), "9223372036854775807");
}

#[test]
fn fields_infer_their_cells() {
    assert!(matches!(infer_cell(""), CellValue::Null));
    assert!(matches!(infer_cell("42"), CellValue::Int(42)));
    assert!(matches!(infer_cell("-7"), CellValue::Int(-7)));
    assert!(matches!(infer_cell("+9"), CellValue::Int(9)));
    assert!(matches!(infer_cell("-9223372036854775808"), CellValue::Int(i64::MIN)));
    assert!(matches!(infer_cell("abc"), CellValue::Text(s) if s == "abc"));
    assert!(matches!(infer_cell("1.5"), CellValue::Text(s) if s == "1.5"));
    assert!(matches!(infer_cell("99999999999999999999"), CellValue::Text(_)));
    assert!(matches!(infer_cell("-"), CellValue::Text(s) if s == "-"));
}

#[test]
fn parse_reads_header_and_rows() {
    let t = parse_table("name,age\nAlice,30\nBob,25\n", ',');
    assert_eq!(t.names, names(&["name", "age"]));
    assert_eq!(t.height(), 2);
    assert!(matches!(&t.rows[0][0], CellValue::Text(s) if s == "Alice"));
    assert!(matches!(t.rows[0][1], CellValue::Int(30)));
}

#[test]
fn parse_pads_and_cuts_to_header_width() {
    let t = parse_table("a,b,c\n1,2\n1,2,3,4\n", ',');
    assert_eq!(t.width(), 3);
    assert_eq!(t.height(), 2);
    assert!(matches!(t.rows[0][2], CellValue::Null));
    assert!(matches!(t.rows[1][2], CellValue::Int(3)));
}

#[test]
fn final_line_break_closes_no_row() {
    let t = parse_table("a\n1\n2\n", ',');
    assert_eq!(t.height(), 2);
    let t = parse_table("a\n1\n2", ',');
    assert_eq!(t.height(), 2);
    let t = parse_table("a\n1\n\n2\n", ',');
    assert_eq!(t.height(), 3);
    assert!(matches!(t.rows[1][0], CellValue::Null));
}

#[test]
fn round_trip_keeps_the_shape() {
    let t = people();
    let back = parse_table(&render_table(&t, ','), ',');
    assert_eq!(back.names, t.names);
    assert_eq!(back.height(), t.height());
    assert_eq!(back.width(), t.width());
    let back = parse_table(&render_table(&t, '\t'), '\t');
    assert_eq!(back.height(), t.height());
    assert_eq!(back.width(), t.width());
}

#[test]
fn round_trip_may_retype_but_keeps_counts() {
    let t = Table {
        names: names(&["k", "v"]),
        rows: vec![
            vec![text("007"), CellValue::Null],
            vec![text("x"), CellValue::Int(-1)],
        ],
    };
    let back = parse_table(&render_table(&t, ','), ',');
    assert_eq!(back.height(), 2);
    assert_eq!(back.width(), 2);
    assert!(matches!(back.rows[0][0], CellValue::Int(7)));
    assert!(matches!(back.rows[0][1], CellValue::Null));
}

#[test]
fn lint_succeeds_exactly_when_named_columns_exist() {
    let t = people();
    let mut o = Options::none();
    o.show_nulls = true;
    o.select = Some(names(&["age"]));
    assert!(lint_table(&t, &o).is_ok());
    o.select = Some(names(&["salary"]));
    assert!(matches!(
        lint_table(&t, &o),
        Err(ToolError::ColumnNotFoundError { column }) if column == "salary"
    ));
    let mut o = Options::none();
    o.unique_on = Some(names(&["name"]));
    assert!(lint_table(&t, &o).is_ok());
}

#[test]
fn special_characters_escape_and_round_trip() {
    let t = Table {
        names: names(&["k,ey", "v"]),
        rows: vec![
            vec![text("a,b"), text("line\nbreak")],
            vec![text("back\\slash"), CellValue::Null],
        ],
    };
    let rendered = render_table(&t, ',');
    assert_eq!(
        rendered,
        "k\\dey,v\na\\db,line\\nbreak\nback\\\\slash,\n"
    );
    let back = parse_table(&rendered, ',');
    assert_eq!(back.names, t.names);
    assert_eq!(back.height(), 2);
    assert_eq!(back.width(), 2);
    assert!(matches!(&back.rows[0][0], CellValue::Text(s) if s == "a,b"));
    assert!(matches!(&back.rows[0][1], CellValue::Text(s) if s == "line\nbreak"));
    assert!(matches!(&back.rows[1][0], CellValue::Text(s) if s == "back\\slash"));
    assert!(matches!(back.rows[1][1], CellValue::Null));
}

#[test]
fn empty_rendering_row_round_trips() {
    let t = Table {
        names: names(&["v"]),
        rows: vec![vec![CellValue::Null]],
    };
    let rendered = render_table(&t, ',');
    assert_eq!(rendered, "v\n\n");
    let back = parse_table(&rendered, ',');
    assert_eq!(back.height(), 1);
    assert_eq!(back.width(), 1);
    assert!(matches!(back.rows[0][0], CellValue::Null));
}
