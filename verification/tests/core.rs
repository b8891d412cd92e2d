use tabular_tool::args::{is_float_literal, parse_count, parse_n_and_files};
use tabular_tool::command::{head_limit, parse_command, tail_offset, Command};
use tabular_tool::error::ToolError;
use tabular_tool::formats::{
    count_strategy, detect_format, detect_output_format, route_output, separator, Compression,
    CountStrategy, FileFormat, WriteMode,
};
use tabular_tool::options::{split_columns, Options};
use tabular_tool::pipeline::{compile_pipeline, Stage};

fn base_options() -> Options {
    Options::none()
}

#[test]
fn test_no_transformations() {
    let cli = base_options();
    assert!(!cli.has_transformations());
}

#[test]
fn test_has_transformations() {
    let mut cli = base_options();
    cli.filter = Some("age > 25".to_string());
    assert!(cli.has_transformations());
}

#[test]
fn test_head_parses_n() {
    let files = vec!["5".to_string(), "file.csv".to_string()];
    let (n, rest) = parse_n_and_files(&files);
    assert_eq!(n, Some("5".to_string()));
    assert_eq!(rest, vec!["file.csv".to_string()]);
}

#[test]
fn test_head_no_n() {
    let files = vec!["file.csv".to_string()];
    let (n, rest) = parse_n_and_files(&files);
    assert_eq!(n, None);
    assert_eq!(rest, vec!["file.csv".to_string()]);
}

#[test]
fn test_sample_parses_integer() {
    let files = vec!["100".to_string(), "file.csv".to_string()];
    let (n, rest) = parse_n_and_files(&files);
    assert_eq!(n, Some("100".to_string()));
    assert_eq!(rest, vec!["file.csv".to_string()]);
}

#[test]
fn test_sample_parses_fraction() {
    let files = vec!["0.1".to_string(), "file.csv".to_string()];
    let (n, rest) = parse_n_and_files(&files);
    assert_eq!(n, Some("0.1".to_string()));
    assert_eq!(rest, vec!["file.csv".to_string()]);
}

#[test]
fn test_sample_no_n() {
    let files = vec!["file.csv".to_string()];
    let (n, rest) = parse_n_and_files(&files);
    assert_eq!(n, None);
    assert_eq!(rest, vec!["file.csv".to_string()]);
}

#[test]
fn float_literals_recognized() {
    assert!(is_float_literal("5"));
    assert!(is_float_literal("100"));
    assert!(is_float_literal("0.1"));
    assert!(is_float_literal(".5"));
    assert!(is_float_literal("1."));
    assert!(is_float_literal("-3.5"));
    assert!(is_float_literal("1e5"));
    assert!(is_float_literal("1.5E-2"));
    assert!(is_float_literal("inf"));
    assert!(is_float_literal("Infinity"));
    assert!(is_float_literal("NaN"));
    assert!(!is_float_literal("file.csv"));
    assert!(!is_float_literal(""));
    assert!(!is_float_literal("1e"));
    assert!(!is_float_literal("."));
    assert!(!is_float_literal("12a"));
}

#[test]
fn counts_parse_exactly() {
    assert_eq!(parse_count("10").unwrap(), 10);
    assert_eq!(parse_count("+5").unwrap(), 5);
    assert_eq!(parse_count("0").unwrap(), 0);
    assert!(matches!(
        parse_count("abc"),
        Err(ToolError::ParseError { .. })
    ));
    assert!(matches!(parse_count(""), Err(ToolError::ParseError { .. })));
    assert!(matches!(
        parse_count("-5"),
        Err(ToolError::ParseError { .. })
    ));
    assert!(matches!(
        parse_count("999999999999999999999999999"),
        Err(ToolError::ParseError { .. })
    ));
}

#[test]
fn input_formats_detected() {
    assert_eq!(
        detect_format("data.csv").unwrap(),
        (FileFormat::Csv, Compression::Plain)
    );
    assert_eq!(
        detect_format("dir/data.txt").unwrap(),
        (FileFormat::Csv, Compression::Plain)
    );
    assert_eq!(
        detect_format("data.tsv").unwrap(),
        (FileFormat::Tsv, Compression::Plain)
    );
    assert_eq!(
        detect_format("data.parquet").unwrap(),
        (FileFormat::Parquet, Compression::Plain)
    );
    assert_eq!(
        detect_format("data.pq").unwrap(),
        (FileFormat::Parquet, Compression::Plain)
    );
    assert_eq!(
        detect_format("data.json").unwrap(),
        (FileFormat::Json, Compression::Plain)
    );
    assert_eq!(
        detect_format("data.jsonl").unwrap(),
        (FileFormat::Jsonl, Compression::Plain)
    );
    assert_eq!(
        detect_format("data.ndjson").unwrap(),
        (FileFormat::Jsonl, Compression::Plain)
    );
    assert_eq!(
        detect_format("a/b/data.csv.gz").unwrap(),
        (FileFormat::Csv, Compression::Gzip)
    );
    assert_eq!(
        detect_format("data.jsonl.zst").unwrap(),
        (FileFormat::Jsonl, Compression::Zstd)
    );
}

#[test]
fn test_count_unsupported_format() {
    let result = detect_format("test.xyz");
    assert!(result.is_err());
    assert!(matches!(result, Err(ToolError::FormatError { .. })));
}

#[test]
fn missing_extension_refused() {
    assert!(matches!(
        detect_format("noextension"),
        Err(ToolError::FormatError { .. })
    ));
    assert!(matches!(
        detect_format("data.gz"),
        Err(ToolError::FormatError { .. })
    ));
    assert!(matches!(
        detect_format(".gitignore"),
        Err(ToolError::FormatError { .. })
    ));
}

#[test]
fn output_format_ignores_compression_chain() {
    assert_eq!(detect_output_format("out.csv").unwrap(), FileFormat::Csv);
    assert!(matches!(
        detect_output_format("out.csv.gz"),
        Err(ToolError::FormatError { .. })
    ));
}

#[test]
fn separators_and_count_paths() {
    assert_eq!(separator(FileFormat::Csv), b',');
    assert_eq!(separator(FileFormat::Tsv), b'\t');
    assert_eq!(count_strategy(FileFormat::Csv), CountStrategy::DelimitedScan);
    assert_eq!(
        count_strategy(FileFormat::Parquet),
        CountStrategy::ColumnarMetadata
    );
    assert_eq!(count_strategy(FileFormat::Jsonl), CountStrategy::EagerParse);
}

#[test]
fn output_routing_table() {
    assert_eq!(route_output(FileFormat::Parquet, false), WriteMode::Stream);
    assert_eq!(route_output(FileFormat::Csv, false), WriteMode::Stream);
    assert_eq!(route_output(FileFormat::Tsv, false), WriteMode::Materialize);
    assert_eq!(route_output(FileFormat::Json, false), WriteMode::Materialize);
    assert_eq!(route_output(FileFormat::Jsonl, false), WriteMode::Materialize);
    assert_eq!(route_output(FileFormat::Parquet, true), WriteMode::Materialize);
    assert_eq!(route_output(FileFormat::Csv, true), WriteMode::Materialize);
}

#[test]
fn column_lists_split_and_trim() {
    let cols = split_columns("name,age,city");
    assert_eq!(
        cols,
        vec!["name".to_string(), "age".to_string(), "city".to_string()]
    );
    let cols = split_columns(" name , email ");
    assert_eq!(cols, vec!["name".to_string(), "email".to_string()]);
    let cols = split_columns("one");
    assert_eq!(cols, vec!["one".to_string()]);
}

#[test]
fn pipeline_compiles_in_fixed_order() {
    let mut o = base_options();
    o.filter = Some("age > 25".to_string());
    o.select = Some(vec!["name".to_string(), "age".to_string()]);
    o.drop = Some(vec!["city".to_string()]);
    o.sort_keys = vec!["age".to_string()];
    o.reverse = true;
    o.unique = true;
    o.offset = Some(5);
    o.limit = Some(10);
    let stages = compile_pipeline(&o);
    assert_eq!(stages.len(), 6);
    assert!(matches!(&stages[0], Stage::Filter { predicate } if predicate == "age > 25"));
    assert!(matches!(&stages[1], Stage::Select { columns } if columns.len() == 2));
    assert!(matches!(&stages[2], Stage::Drop { columns } if columns.len() == 1));
    assert!(matches!(
        &stages[3],
        Stage::Sort { descending: true, fold_case: false, .. }
    ));
    assert!(matches!(&stages[4], Stage::Dedup { subset: None }));
    assert!(matches!(
        &stages[5],
        Stage::Slice { offset: 5, length: Some(10) }
    ));
}

#[test]
fn pipeline_skips_absent_options() {
    let o = base_options();
    let stages = compile_pipeline(&o);
    assert_eq!(stages.len(), 0);

    let mut o = base_options();
    o.limit = Some(3);
    let stages = compile_pipeline(&o);
    assert_eq!(stages.len(), 1);
    assert!(matches!(
        &stages[0],
        Stage::Slice { offset: 0, length: Some(3) }
    ));

    let mut o = base_options();
    o.unique_on = Some(vec!["name".to_string()]);
    let stages = compile_pipeline(&o);
    assert_eq!(stages.len(), 1);
    assert!(matches!(&stages[0], Stage::Dedup { subset: Some(_) }));
}

#[test]
fn commands_recognized() {
    assert_eq!(parse_command("cat"), Some(Command::Cat));
    assert_eq!(parse_command("head"), Some(Command::Head));
    assert_eq!(parse_command("tail"), Some(Command::Tail));
    assert_eq!(parse_command("sample"), Some(Command::Sample));
    assert_eq!(parse_command("stats"), Some(Command::Stats));
    assert_eq!(parse_command("count"), Some(Command::Count));
    assert_eq!(parse_command("lint"), Some(Command::Lint));
    assert_eq!(parse_command("frobnicate"), None);
}

#[test]
fn head_and_tail_counts_resolve() {
    assert_eq!(head_limit(None, &None).unwrap(), Some(10));
    assert_eq!(head_limit(None, &Some("5".to_string())).unwrap(), Some(5));
    assert_eq!(head_limit(Some(7), &Some("5".to_string())).unwrap(), Some(7));
    assert!(matches!(
        head_limit(None, &Some("x".to_string())),
        Err(ToolError::ParseError { .. })
    ));
    assert_eq!(tail_offset(None, &None).unwrap(), Some(-10));
    assert_eq!(tail_offset(None, &Some("3".to_string())).unwrap(), Some(-3));
    assert_eq!(tail_offset(Some(-2), &None).unwrap(), Some(-2));
}

#[test]
fn errors_carry_their_input() {
    let e = ToolError::FilterSyntaxError {
        predicate: "age >>> 3".to_string(),
    };
    assert_eq!(e.offending_input(), "age >>> 3");
    let e = ToolError::ColumnNotFoundError {
        column: "absent".to_string(),
    };
    assert_eq!(e.offending_input(), "absent");
    let e = ToolError::IoError {
        path: "p.csv".to_string(),
        message: "gone".to_string(),
    };
    assert_eq!(e.offending_input(), "p.csv");
}

#[test]
fn nested_dots_use_last_extension() {
    assert_eq!(
        detect_format("a.b.csv").unwrap(),
        (FileFormat::Csv, Compression::Plain)
    );
    assert_eq!(
        detect_format("v1.2/data.v3.tsv.zst").unwrap(),
        (FileFormat::Tsv, Compression::Zstd)
    );
}

#[test]
fn splitting_empty_text_gives_one_empty_name() {
    assert_eq!(split_columns(""), vec![String::new()]);
    assert_eq!(split_columns("a,,b"), vec!["a".to_string(), String::new(), "b".to_string()]);
}
