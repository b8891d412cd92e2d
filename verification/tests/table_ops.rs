use tabular_tool::error::ToolError;
use tabular_tool::table::{CellValue, Table};

fn text(s: &str) -> CellValue {
    CellValue::Text(s.to_string())
}

fn names(ns: &[&str]) -> Vec<String> {
    ns.iter().map(|s| s.to_string()).collect()
}

fn pair_table(rows: &[(&str, i64)]) -> Table {
    Table {
        names: names(&["k", "v"]),
        rows: rows
            .iter()
            .map(|(k, v)| vec![text(k), CellValue::Int(*v)])
            .collect(),
    }
}

fn people(n: i64) -> Table {
    let mut rows = Vec::new();
    for i in 0..n {
        rows.push(vec![
            text(&format!("Person{}", i)),
            CellValue::Int(20 + i),
            text(&format!("City{}", i)),
        ]);
    }
    Table {
        names: names(&["name", "age", "city"]),
        rows,
    }
}

#[test]
fn select_keeps_requested_columns_in_order() {
    let t = people(4);
    let s = t.select_columns(&names(&["age", "name"])).unwrap();
    assert_eq!(s.width(), 2);
    assert_eq!(s.height(), 4);
    assert_eq!(s.names, names(&["age", "name"]));
    assert!(matches!(s.rows[0][0], CellValue::Int(20)));
    assert!(matches!(&s.rows[0][1], CellValue::Text(x) if x == "Person0"));
}

#[test]
fn select_missing_column_reports_it() {
    let t = people(2);
    let e = t.select_columns(&names(&["name", "salary"]));
    assert!(matches!(e, Err(ToolError::ColumnNotFoundError { column }) if column == "salary"));
}

#[test]
fn drop_removes_and_ignores_absent() {
    let t = people(5);
    let d = t.drop_columns(&names(&["age", "city"]));
    assert_eq!(d.width(), 1);
    assert_eq!(d.names, names(&["name"]));
    let d2 = t.drop_columns(&names(&["nothing"]));
    assert_eq!(d2.width(), 3);
    assert_eq!(d2.height(), 5);
}

#[test]
fn select_then_drop_of_unselected_is_noop() {
    let t = people(3);
    let sel = t.select_columns(&names(&["name", "city"])).unwrap();
    let after = sel.drop_columns(&names(&["age"]));
    assert_eq!(after.names, names(&["name", "city"]));
    assert_eq!(after.height(), 3);
    let removed = sel.drop_columns(&names(&["city"]));
    assert_eq!(removed.names, names(&["name"]));
}

#[test]
fn slice_offset_limit_row_counts() {
    let t = people(10);
    let s = t.slice_rows(3, Some(5));
    assert_eq!(s.height(), 5);
    assert!(matches!(s.rows[0][1], CellValue::Int(23)));
    let s = t.slice_rows(8, Some(5));
    assert_eq!(s.height(), 2);
    let s = t.slice_rows(12, Some(5));
    assert_eq!(s.height(), 0);
    let s = t.slice_rows(0, None);
    assert_eq!(s.height(), 10);
    let s = t.slice_rows(4, None);
    assert_eq!(s.height(), 6);
}

#[test]
fn slice_negative_offset_counts_from_end() {
    let t = people(10);
    let tail = t.slice_rows(-3, None);
    assert_eq!(tail.height(), 3);
    assert!(matches!(tail.rows[0][1], CellValue::Int(27)));
    let deep = t.slice_rows(-15, None);
    assert_eq!(deep.height(), 10);
    let window = t.slice_rows(-5, Some(2));
    assert_eq!(window.height(), 2);
    assert!(matches!(window.rows[0][1], CellValue::Int(25)));
}

#[test]
fn test_unique_removes_duplicates() {
    let t = pair_table(&[
        ("Alice", 10),
        ("Bob", 20),
        ("Alice", 10),
        ("Charlie", 30),
        ("Bob", 20),
    ]);
    let u = t.dedup_all();
    assert_eq!(u.height(), 3);
}

#[test]
fn test_unique_on_column() {
    let t = pair_table(&[("Alice", 10), ("Bob", 20), ("Alice", 30), ("Charlie", 40)]);
    let u = t.dedup_on(&names(&["k"])).unwrap();
    assert_eq!(u.height(), 3);
    assert!(matches!(u.rows[0][1], CellValue::Int(10)));
}

#[test]
fn dedup_keeps_first_occurrence_in_place() {
    let t = pair_table(&[("B", 2), ("A", 1), ("B", 9), ("A", 1)]);
    let u = t.dedup_on(&names(&["k"])).unwrap();
    assert_eq!(u.height(), 2);
    assert!(matches!(&u.rows[0][0], CellValue::Text(x) if x == "B"));
    assert!(matches!(u.rows[0][1], CellValue::Int(2)));
    assert!(matches!(&u.rows[1][0], CellValue::Text(x) if x == "A"));
}

#[test]
fn dedup_missing_scope_column_reports_it() {
    let t = pair_table(&[("A", 1)]);
    let e = t.dedup_on(&names(&["nope"]));
    assert!(matches!(e, Err(ToolError::ColumnNotFoundError { column }) if column == "nope"));
}

#[test]
fn filter_mask_keeps_marked_rows() {
    let t = people(5);
    let keep = vec![true, false, true, false, true];
    let f = t.filter_mask(&keep);
    assert_eq!(f.height(), 3);
    assert!(matches!(f.rows[1][1], CellValue::Int(22)));
}

#[test]
fn gather_repeats_and_reorders() {
    let t = people(4);
    let g = t.gather(&vec![2, 0, 2]);
    assert_eq!(g.height(), 3);
    assert!(matches!(g.rows[0][1], CellValue::Int(22)));
    assert!(matches!(g.rows[1][1], CellValue::Int(20)));
    assert!(matches!(g.rows[2][1], CellValue::Int(22)));
}

#[test]
fn end_to_end_filter_project_limit() {
    let t = people(1000);
    let mut keep = Vec::new();
    for row in &t.rows {
        let age = match row[1] {
            CellValue::Int(a) => a,
            _ => panic!("age column should hold integers"),
        };
        keep.push(age > 30);
    }
    let filtered = t.filter_mask(&keep);
    let projected = filtered
        .select_columns(&names(&["name", "age"]))
        .unwrap();
    let limited = projected.slice_rows(0, Some(100));
    assert!(limited.height() <= 100);
    assert_eq!(limited.width(), 2);
    for row in &limited.rows {
        match row[1] {
            CellValue::Int(a) => assert!(a > 30),
            _ => panic!("age column should hold integers"),
        }
    }
}

#[test]
fn test_sort_ascending() {
    let t = Table {
        names: names(&["name", "age"]),
        rows: vec![
            vec![text("Charlie"), CellValue::Int(35)],
            vec![text("Alice"), CellValue::Int(30)],
            vec![text("Bob"), CellValue::Int(25)],
        ],
    };
    let s = t.sort_by_keys(&names(&["age"]), false, false).unwrap();
    assert!(matches!(s.rows[0][1], CellValue::Int(25)));
    assert!(matches!(s.rows[1][1], CellValue::Int(30)));
    assert!(matches!(s.rows[2][1], CellValue::Int(35)));
}

#[test]
fn test_sort_descending() {
    let t = Table {
        names: names(&["name", "value"]),
        rows: vec![
            vec![text("A"), CellValue::Int(10)],
            vec![text("B"), CellValue::Int(30)],
            vec![text("C"), CellValue::Int(20)],
        ],
    };
    let s = t.sort_by_keys(&names(&["value"]), true, false).unwrap();
    assert!(matches!(s.rows[0][1], CellValue::Int(30)));
    assert!(matches!(s.rows[1][1], CellValue::Int(20)));
    assert!(matches!(s.rows[2][1], CellValue::Int(10)));
}

#[test]
fn sort_by_text_folds_case_on_request() {
    let t = Table {
        names: names(&["name"]),
        rows: vec![vec![text("banana")], vec![text("Apple")], vec![text("cherry")]],
    };
    let raw = t.sort_by_keys(&names(&["name"]), false, false).unwrap();
    assert!(matches!(&raw.rows[0][0], CellValue::Text(x) if x == "Apple"));
    let folded = t.sort_by_keys(&names(&["name"]), false, true).unwrap();
    assert!(matches!(&folded.rows[0][0], CellValue::Text(x) if x == "Apple"));
    assert!(matches!(&folded.rows[1][0], CellValue::Text(x) if x == "banana"));
    assert!(matches!(&folded.rows[2][0], CellValue::Text(x) if x == "cherry"));
}

#[test]
fn sort_by_two_keys_breaks_ties_on_second() {
    let t = Table {
        names: names(&["k", "v"]),
        rows: vec![
            vec![text("B"), CellValue::Int(1)],
            vec![text("A"), CellValue::Int(2)],
            vec![text("A"), CellValue::Int(1)],
        ],
    };
    let s = t.sort_by_keys(&names(&["k", "v"]), false, false).unwrap();
    assert!(matches!(&s.rows[0][0], CellValue::Text(x) if x == "A"));
    assert!(matches!(s.rows[0][1], CellValue::Int(1)));
    assert!(matches!(s.rows[1][1], CellValue::Int(2)));
    assert!(matches!(&s.rows[2][0], CellValue::Text(x) if x == "B"));
}

#[test]
fn sort_missing_key_reports_it() {
    let t = pair_table(&[("A", 1)]);
    assert!(matches!(
        t.sort_by_keys(&names(&["missing"]), false, false),
        Err(ToolError::ColumnNotFoundError { column }) if column == "missing"
    ));
}

#[test]
fn sort_puts_nulls_first() {
    let t = Table {
        names: names(&["v"]),
        rows: vec![
            vec![CellValue::Int(2)],
            vec![CellValue::Null],
            vec![CellValue::Int(1)],
        ],
    };
    let s = t.sort_by_keys(&names(&["v"]), false, false).unwrap();
    assert!(matches!(s.rows[0][0], CellValue::Null));
    assert!(matches!(s.rows[1][0], CellValue::Int(1)));
    assert!(matches!(s.rows[2][0], CellValue::Int(2)));
}
