use tabular_tool::error::ToolError;
use tabular_tool::lint::{
    fmt_u64, format_pct, lint_table, null_count_in, null_rows_all, pct_hundredths, schema_kinds,
    null_scan, duplicate_scan_all, duplicate_scan_on,
};
use tabular_tool::options::Options;
use tabular_tool::stats::{column_kind, stats_field_names, summarize};
use tabular_tool::table::{CellValue, Table};

fn text(s: &str) -> CellValue {
    CellValue::Text(s.to_string())
}

fn names(ns: &[&str]) -> Vec<String> {
    ns.iter().map(|s| s.to_string()).collect()
}

#[test]
fn stats_empty_report_keeps_eight_fields() {
    let t = Table {
        names: names(&["name", "city"]),
        rows: vec![
            vec![text("Alice"), text("NYC")],
            vec![text("Bob"), text("LA")],
        ],
    };
    let rep = summarize(&t);
    assert_eq!(rep.records.len(), 0);
    let fields = stats_field_names();
    assert_eq!(fields.len(), 8);
    assert_eq!(
        fields,
        names(&["column", "count", "null_count", "mean", "std", "min", "median", "max"])
    );
}

#[test]
fn stats_of_one_through_five() {
    let t = Table {
        names: names(&["v"]),
        rows: (1..=5).map(|i| vec![CellValue::Int(i)]).collect(),
    };
    let rep = summarize(&t);
    assert_eq!(rep.records.len(), 1);
    let r = &rep.records[0];
    assert_eq!(r.column, "v");
    assert_eq!(r.count, 5);
    assert_eq!(r.null_count, 0);
    assert_eq!(r.sum, 15);
    assert_eq!(r.sum_squares, Some(55));
    assert_eq!(r.min, Some(1));
    assert_eq!(r.max, Some(5));
    assert_eq!(r.median_doubled, Some(6));
    let mean = r.sum as f64 / r.count as f64;
    assert_eq!(mean, 3.0);
    assert_eq!(r.min.unwrap() as f64, 1.0);
    assert_eq!(r.max.unwrap() as f64, 5.0);
    assert_eq!(r.median_doubled.unwrap() as f64 / 2.0, 3.0);
    let n = r.count as f64;
    let sum = r.sum as f64;
    let sumsq = r.sum_squares.unwrap() as f64;
    let std = ((sumsq - sum * sum / n) / (n - 1.0)).sqrt();
    assert!((std - 2.5f64.sqrt()).abs() < 1e-12);
}

#[test]
fn stats_median_of_even_count() {
    let t = Table {
        names: names(&["v"]),
        rows: vec![
            vec![CellValue::Int(40)],
            vec![CellValue::Int(10)],
            vec![CellValue::Int(30)],
            vec![CellValue::Int(20)],
        ],
    };
    let rep = summarize(&t);
    assert_eq!(rep.records[0].median_doubled, Some(50));
    assert_eq!(rep.records[0].min, Some(10));
    assert_eq!(rep.records[0].max, Some(40));
}

#[test]
fn stats_skip_nulls_but_count_them() {
    let t = Table {
        names: names(&["v"]),
        rows: vec![
            vec![CellValue::Int(2)],
            vec![CellValue::Null],
            vec![CellValue::Int(4)],
        ],
    };
    let r = summarize(&t);
    assert_eq!(r.records[0].count, 2);
    assert_eq!(r.records[0].null_count, 1);
    assert_eq!(r.records[0].sum, 6);
    assert_eq!(r.records[0].median_doubled, Some(6));
}

fn ten_rows_with_nulls(nulls: usize) -> Table {
    let mut rows = Vec::new();
    for i in 0..10usize {
        if i < nulls {
            rows.push(vec![CellValue::Null]);
        } else {
            rows.push(vec![CellValue::Int(i as i64)]);
        }
    }
    Table {
        names: names(&["v"]),
        rows,
    }
}

#[test]
fn null_scan_silent_without_nulls() {
    let t = ten_rows_with_nulls(0);
    assert_eq!(null_count_in(&t, 0), 0);
    let issues = null_scan(&t);
    assert_eq!(issues.len(), 0);
}

#[test]
fn null_scan_reports_thirty_percent() {
    let t = ten_rows_with_nulls(3);
    let issues = null_scan(&t);
    assert_eq!(issues.len(), 1);
    assert_eq!(issues[0].column, "v");
    assert_eq!(issues[0].nulls, 3);
    assert_eq!(issues[0].pct_hundredths, 3000);
    assert_eq!(format_pct(issues[0].pct_hundredths), "30.00");
}

#[test]
fn percentages_round_to_nearest() {
    assert_eq!(pct_hundredths(1, 3), 3333);
    assert_eq!(pct_hundredths(2, 3), 6667);
    assert_eq!(pct_hundredths(1, 1), 10000);
    assert_eq!(format_pct(pct_hundredths(1, 3)), "33.33");
    assert_eq!(format_pct(10000), "100.00");
    assert_eq!(format_pct(5), "0.05");
}

#[test]
fn decimal_rendering_is_exact() {
    assert_eq!(fmt_u64(0), "0");
    assert_eq!(fmt_u64(7), "7");
    assert_eq!(fmt_u64(1234), "1234");
    assert_eq!(fmt_u64(18446744073709551615), "18446744073709551615");
}

fn duplicate_rows_table() -> Table {
    Table {
        names: names(&["k", "v"]),
        rows: vec![
            vec![text("A"), CellValue::Int(1)],
            vec![text("B"), CellValue::Int(2)],
            vec![text("A"), CellValue::Int(1)],
            vec![text("C"), CellValue::Int(3)],
            vec![text("B"), CellValue::Int(2)],
        ],
    }
}

#[test]
fn duplicate_scan_without_scope() {
    let t = duplicate_rows_table();
    let rep = duplicate_scan_all(&t);
    assert_eq!(rep.duplicate_count, 2);
    assert_eq!(rep.pct_hundredths, 4000);
    assert!(rep.scope.is_none());
}

#[test]
fn duplicate_scan_with_scope_counts_full_duplicates_too() {
    let t = Table {
        names: names(&["k", "v"]),
        rows: vec![
            vec![text("A"), CellValue::Int(1)],
            vec![text("B"), CellValue::Int(2)],
            vec![text("A"), CellValue::Int(9)],
            vec![text("C"), CellValue::Int(3)],
            vec![text("B"), CellValue::Int(2)],
        ],
    };
    let rep = duplicate_scan_on(&t, &names(&["k"])).unwrap();
    assert_eq!(rep.duplicate_count, 2);
    assert_eq!(rep.scope, Some(names(&["k"])));
}

#[test]
fn schema_dump_classifies_columns() {
    let t = Table {
        names: names(&["a", "b", "c", "d"]),
        rows: vec![
            vec![CellValue::Int(1), text("x"), CellValue::Null, CellValue::Int(1)],
            vec![CellValue::Null, text("y"), CellValue::Null, text("z")],
        ],
    };
    assert_eq!(column_kind(&t, 0), "i64");
    assert_eq!(column_kind(&t, 1), "str");
    assert_eq!(column_kind(&t, 2), "null");
    assert_eq!(column_kind(&t, 3), "mixed");
    let entries = schema_kinds(&t);
    assert_eq!(entries.len(), 4);
    assert_eq!(entries[0].name, "a");
    assert_eq!(entries[0].kind, "i64");
}

#[test]
fn null_rows_capped_at_one_hundred() {
    let mut rows = Vec::new();
    for i in 0..150i64 {
        rows.push(vec![CellValue::Null, CellValue::Int(i)]);
    }
    let t = Table {
        names: names(&["a", "b"]),
        rows,
    };
    let capped = null_rows_all(&t, false);
    assert_eq!(capped.height(), 100);
    let all = null_rows_all(&t, true);
    assert_eq!(all.height(), 150);
}

#[test]
fn null_rows_single_column_check_works() {
    let t = Table {
        names: names(&["a"]),
        rows: vec![
            vec![CellValue::Int(1)],
            vec![CellValue::Null],
            vec![CellValue::Int(3)],
        ],
    };
    let nr = null_rows_all(&t, false);
    assert_eq!(nr.height(), 1);
}

#[test]
fn lint_report_gates_its_checks() {
    let t = duplicate_rows_table();
    let mut o = Options::none();
    let rep = lint_table(&t, &o).unwrap();
    assert_eq!(rep.total_rows, 5);
    assert_eq!(rep.total_cols, 2);
    assert!(rep.duplicates.is_none());
    assert!(rep.schema.is_none());
    assert!(rep.null_rows.is_none());

    o.unique = true;
    o.show_schema = true;
    o.show_nulls = true;
    let rep = lint_table(&t, &o).unwrap();
    assert_eq!(rep.duplicates.unwrap().duplicate_count, 2);
    assert_eq!(rep.schema.unwrap().len(), 2);
    assert_eq!(rep.null_rows.unwrap().height(), 0);
}

#[test]
fn lint_report_missing_scope_column_fails() {
    let t = duplicate_rows_table();
    let mut o = Options::none();
    o.unique_on = Some(names(&["absent"]));
    assert!(matches!(
        lint_table(&t, &o),
        Err(ToolError::ColumnNotFoundError { .. })
    ));
}
