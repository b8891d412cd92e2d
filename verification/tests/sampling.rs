use tabular_tool::error::ToolError;
use tabular_tool::sample::{plan_sample, resolve_sample_count, sample_table, sample_table_arg,
    SamplePlan};
use tabular_tool::table::{CellValue, Table};

fn int_table(n: i64) -> Table {
    Table {
        names: vec!["idx".to_string(), "age".to_string()],
        rows: (0..n)
            .map(|i| vec![CellValue::Int(i), CellValue::Int(20 + i)])
            .collect(),
    }
}

#[test]
fn plan_covers_full_request() {
    assert_eq!(plan_sample(10, 10), SamplePlan::Full);
    assert_eq!(plan_sample(50, 10), SamplePlan::Full);
    assert_eq!(plan_sample(0, 0), SamplePlan::Full);
}

#[test]
fn plan_window_is_clamped() {
    match plan_sample(5, 1000) {
        SamplePlan::Windowed { window, size } => {
            assert_eq!(size, 5);
            assert_eq!(window, 1000);
        }
        _ => panic!("expected a windowed plan"),
    }
    match plan_sample(200, 1_000_000) {
        SamplePlan::Windowed { window, size } => {
            assert_eq!(size, 200);
            assert_eq!(window, 200_000);
        }
        _ => panic!("expected a windowed plan"),
    }
    match plan_sample(50, 1_000_000) {
        SamplePlan::Windowed { window, size } => {
            assert_eq!(size, 50);
            assert_eq!(window, 100_000);
        }
        _ => panic!("expected a windowed plan"),
    }
}

#[test]
fn sample_of_everything_is_the_full_result() {
    let t = int_table(8);
    let s = sample_table(&t, 8);
    assert_eq!(s.height(), 8);
    for (i, row) in s.rows.iter().enumerate() {
        assert!(matches!(row[0], CellValue::Int(x) if x == i as i64));
    }
    let s = sample_table(&t, 20);
    assert_eq!(s.height(), 8);
}

#[test]
fn sample_of_nothing_is_empty() {
    let t = int_table(8);
    let s = sample_table(&t, 0);
    assert_eq!(s.height(), 0);
    assert_eq!(s.width(), 2);
}

#[test]
fn proper_sample_has_exactly_n_distinct_rows() {
    let t = int_table(100);
    let s = sample_table(&t, 10);
    assert_eq!(s.height(), 10);
    assert_eq!(s.width(), 2);
    let mut seen = Vec::new();
    for row in &s.rows {
        let idx = match row[0] {
            CellValue::Int(x) => x,
            _ => panic!("index column should hold integers"),
        };
        assert!((0..100).contains(&idx));
        assert!(!seen.contains(&idx), "drawn without replacement");
        seen.push(idx);
    }
}

#[test]
fn two_samples_differ() {
    let t = int_table(100);
    let a = sample_table(&t, 10);
    let b = sample_table(&t, 10);
    let key = |t: &Table| -> Vec<i64> {
        t.rows
            .iter()
            .map(|r| match r[0] {
                CellValue::Int(x) => x,
                _ => panic!("index column should hold integers"),
            })
            .collect()
    };
    assert_ne!(key(&a), key(&b), "two random samples should be different");
}

#[test]
fn fraction_arguments_resolve_exactly() {
    assert_eq!(resolve_sample_count("10", 1000).unwrap(), 10);
    assert_eq!(resolve_sample_count("0.1", 100).unwrap(), 10);
    assert_eq!(resolve_sample_count("0.5", 5).unwrap(), 3);
    assert_eq!(resolve_sample_count("0.25", 8).unwrap(), 2);
    assert_eq!(resolve_sample_count("1.5", 40).unwrap(), 40);
    assert_eq!(resolve_sample_count("-0.5", 40).unwrap(), 0);
    assert_eq!(resolve_sample_count("0.0", 40).unwrap(), 0);
    assert!(matches!(
        resolve_sample_count("abc", 40),
        Err(ToolError::ParseError { .. })
    ));
    assert!(matches!(
        resolve_sample_count("1.2.3", 40),
        Err(ToolError::ParseError { .. })
    ));
    assert!(matches!(
        resolve_sample_count(".", 40),
        Err(ToolError::ParseError { .. })
    ));
}

#[test]
fn textual_sample_argument_drives_the_sampler() {
    let t = int_table(40);
    let s = sample_table_arg(&t, "0.25").unwrap();
    assert_eq!(s.height(), 10);
    let s = sample_table_arg(&t, "4").unwrap();
    assert_eq!(s.height(), 4);
    let s = sample_table_arg(&t, "100").unwrap();
    assert_eq!(s.height(), 40);
    assert!(matches!(
        sample_table_arg(&t, "x.y"),
        Err(ToolError::ParseError { .. })
    ));
}

#[test]
fn injected_draw_reproduces_index_selection() {
    let t = int_table(10);
    match plan_sample(3, 10) {
        SamplePlan::Windowed { window, size } => {
            assert_eq!(window, 10);
            assert_eq!(size, 3);
            let g = t.gather(&vec![7, 0, 4]);
            assert_eq!(g.height(), 3);
            assert!(matches!(g.rows[0][0], CellValue::Int(7)));
            assert!(matches!(g.rows[1][0], CellValue::Int(0)));
            assert!(matches!(g.rows[2][0], CellValue::Int(4)));
        }
        _ => panic!("expected a windowed plan"),
    }
}

#[test]
fn fraction_rounds_half_away_from_zero() {
    assert_eq!(resolve_sample_count("0.1", 5).unwrap(), 1);
    assert_eq!(resolve_sample_count("0.1", 4).unwrap(), 0);
    assert_eq!(resolve_sample_count("+0.5", 10).unwrap(), 5);
    assert_eq!(resolve_sample_count("0.333", 3).unwrap(), 1);
}
