use light_program_profiler::report::{
    format_thousands, parse_profiling_logs, snake_to_title_case, write_section_table,
    CuBenchmark, ProfileEntry, ReadmeConfig, SectionTable,
};

#[test]
fn test_format_thousands() {
    assert_eq!(format_thousands(0), "0");
    assert_eq!(format_thousands(999), "999");
    assert_eq!(format_thousands(1000), "1,000");
    assert_eq!(format_thousands(94804), "94,804");
    assert_eq!(format_thousands(1_000_000), "1,000,000");
}

#[test]
fn test_snake_to_title_case() {
    assert_eq!(snake_to_title_case("sync_transfer"), "Sync Transfer");
    assert_eq!(
        snake_to_title_case("create_associated_token_account"),
        "Create Associated Token Account"
    );
    assert_eq!(snake_to_title_case("close"), "Close");
}

#[test]
fn test_parse_profiling_logs_empty() {
    let logs: Vec<String> = vec!["Program invoked".into(), "Program success".into()];
    let entries = parse_profiling_logs(&logs);
    assert!(entries.is_empty());
}

#[test]
fn test_parse_profiling_logs_basic() {
    let logs = vec![
        "Program log: #  1    parse_transfer\n        src/sync/transfer/parser.rs:17        \nCU                                                  consumed   353 (net   353) of 200000 CU".to_string(),
    ];
    let entries = parse_profiling_logs(&logs);
    assert_eq!(entries.len(), 1);
    assert_eq!(entries[0].func_name, "parse_transfer");
    assert_eq!(entries[0].total_cu, 353);
    assert_eq!(entries[0].net_cu, 353);
}

#[test]
fn test_write_section_table() {
    let table = SectionTable {
        title: "Transaction Size".into(),
        headers: vec![
            "ix data (B)".into(),
            "accounts".into(),
            "legacy tx (B)".into(),
        ],
        rows: vec![vec!["949".into(), "4".into(), "1227".into()]],
    };
    let rendered = write_section_table(&table);
    assert_eq!(
        rendered,
        "**Transaction Size**\n\
         | ix data (B) | accounts | legacy tx (B) |\n\
         | ----------- | -------- | ------------- |\n\
         |         949 |        4 |          1227 |\n\n"
    );
}

#[test]
fn test_write_section_table_cell_wider_than_header() {
    let table = SectionTable {
        title: "Proving Time".into(),
        headers: vec!["Total".into()],
        rows: vec![vec!["1,215 ms".into()], vec!["69 ms".into()]],
    };
    let rendered = write_section_table(&table);
    assert_eq!(
        rendered,
        "**Proving Time**\n\
         | Total    |\n\
         | -------- |\n\
         | 1,215 ms |\n\
         |    69 ms |\n\n"
    );
}

#[test]
fn test_add_table_creates_section_without_cu_entries() {
    let mut bench = CuBenchmark::new(ReadmeConfig::default());
    bench.add_from_entries(
        "fill",
        vec![ProfileEntry {
            func_name: "process_fill".into(),
            file_location: String::new(),
            total_cu: 100,
            net_cu: 100,
        }],
    );
    bench.add_table(
        "cancel",
        SectionTable {
            title: "Transaction Size".into(),
            headers: vec!["legacy tx (B)".into()],
            rows: vec![vec!["836".into()]],
        },
    );
    assert_eq!(bench.section_names(), ["cancel", "fill"]);
}

#[test]
fn test_readme_config_default() {
    let config = ReadmeConfig::default();
    assert_eq!(config.output_path, "CU_BENCHMARK.md");
    assert!(config.regenerate_command.is_none());
    assert!(config.column_width.is_none());
    assert!(config.toc_summary_function.is_none());
}
