use light_program_profiler::report::{
    format_thousands, parse_profiling_logs, write_section_table, CuBenchmark, ProfileEntry,
    ReadmeConfig, SectionTable,
};

fn entry(name: &str, loc: &str, total: u64, net: u64) -> ProfileEntry {
    ProfileEntry {
        func_name: name.into(),
        file_location: loc.into(),
        total_cu: total,
        net_cu: net,
    }
}

#[test]
fn thousands_only_inserts_separators() {
    for n in [0u64, 7, 12, 999, 1000, 1001, 65_536, 1_234_567, u64::MAX] {
        let grouped = format_thousands(n);
        assert_eq!(grouped.replace(',', ""), n.to_string());
    }
    assert_eq!(format_thousands(u64::MAX), "18,446,744,073,709,551,615");
    assert_eq!(format_thousands(1_000_001), "1,000,001");
}

#[test]
fn parse_logs_reads_location_and_net() {
    let logs = vec![
        "Program log: #  2    inner_fn\n   at program/src/ops/inner.rs:40  \nCU consumed 1200 (net  800) of 199000 CU".to_string(),
        "Program log: #  3    zero_fn\n src/a.rs:1\nCU consumed 0 (net 0) of 1 CU".to_string(),
        "Program log: #  4 no_gap\n src/a.rs:1\nCU consumed 5 (net 5) of 1 CU".to_string(),
        "Program log: #  5    single_line consumed 5 (net 5)".to_string(),
        "Program log: #  6    bad_numbers\r\n src/b.rs:2\r\nCU consumed x12 (net 7)".to_string(),
    ];
    let entries = parse_profiling_logs(&logs);
    assert_eq!(entries.len(), 2);
    assert_eq!(entries[0].func_name, "inner_fn");
    assert_eq!(entries[0].file_location, "src/ops/inner.rs:40");
    assert_eq!(entries[0].total_cu, 1200);
    assert_eq!(entries[0].net_cu, 800);
    assert_eq!(entries[1].func_name, "bad_numbers");
    assert_eq!(entries[1].file_location, "src/b.rs:2");
    assert_eq!(entries[1].total_cu, 0);
    assert_eq!(entries[1].net_cu, 7);
}

#[test]
fn section_table_without_title_and_short_rows() {
    let table = SectionTable {
        title: String::new(),
        headers: vec!["a".into(), "bb".into()],
        rows: vec![vec!["123".into()], vec!["1".into(), "2".into(), "extra".into()]],
    };
    assert_eq!(
        write_section_table(&table),
        "| a   | bb |\n| --- | -- |\n| 123 |    |\n|   1 |  2 |\n\n"
    );
}

#[test]
fn section_names_sorted_and_unique() {
    let mut bench = CuBenchmark::new(ReadmeConfig::default());
    bench.add_from_entries("zeta", vec![entry("f", "", 1, 1)]);
    bench.add_from_entries("alpha", vec![]);
    bench.add_table(
        "zeta",
        SectionTable { title: String::new(), headers: vec![], rows: vec![] },
    );
    bench.add_table(
        "Beta",
        SectionTable { title: String::new(), headers: vec![], rows: vec![] },
    );
    bench.add_from_entries("zeta", vec![entry("g", "", 2, 2)]);
    assert_eq!(bench.section_names(), ["Beta", "alpha", "zeta"]);
}

#[test]
fn toc_as_list_without_summary_function() {
    let mut config = ReadmeConfig::default();
    config.display_name_overrides = vec![("sync_transfer".into(), "Sync (SPL)".into())];
    let mut bench = CuBenchmark::new(config);
    bench.add_from_entries("sync_transfer", vec![entry("f", "", 1, 1)]);
    bench.add_from_entries("Close Account", vec![entry("g", "", 1, 1)]);
    assert_eq!(
        bench.write_toc(),
        "1. [Close Account](#close-account)\n2. [Sync (SPL)](#sync-transfer)\n\n"
    );
}

#[test]
fn report_markdown_full() {
    let config = ReadmeConfig {
        title: "Bench".into(),
        description: String::new(),
        github_base_url: "https://g/".into(),
        output_path: "out.md".into(),
        regenerate_command: Some("just bench".into()),
        display_name_overrides: vec![],
        column_width: None,
        toc_summary_function: Some("process".into()),
    };
    let mut bench = CuBenchmark::new(config);
    bench.add_from_entries(
        "transfer",
        vec![entry("process", "src/lib.rs:10", 94804, 1000), entry("inner", "", 500, 500)],
    );
    bench.add_table(
        "transfer",
        SectionTable { title: "Size".into(), headers: vec!["B".into()], rows: vec![vec!["12".into()]] },
    );
    bench.add_table(
        "close",
        SectionTable { title: String::new(), headers: vec!["x".into()], rows: vec![] },
    );
    bench.add_from_entries("zero", vec![]);
    assert!(bench.report_fits_check());
    let expected = String::new()
        + "# Bench\n\n"
        + "Regenerate with `just bench`.\n\n"
        + "## Definitions\n\n"
        + "- **Total CU**: Compute units consumed by the function including all children\n"
        + "- **Net CU**: Compute units consumed by the function itself (excluding children)\n\n"
        + "## Table of Contents\n\n"
        + "| #   | Instruction           |     CU |\n"
        + "| --- | --------------------- | ------ |\n"
        + "| 1   | [Close](#close)       |      - |\n"
        + "| 2   | [Transfer](#transfer) | 94,804 |\n"
        + "| 3   | [Zero](#zero)         |      - |\n"
        + "\n"
        + "## 1. Close\n\n"
        + "| x |\n| - |\n\n"
        + "## 2. Transfer\n\n"
        + "| Function  |   Total CU |     Net CU |\n"
        + "| --------- | ---------- | ---------- |\n"
        + "| [`process`](https://g/src/lib.rs#L11) |     94,804 |      1,000 |\n"
        + "| `inner`   |        500 |        500 |\n"
        + "\n"
        + "**Size**\n| B  |\n| -- |\n| 12 |\n\n"
        + "## 3. Zero\n\n"
        + "_No profiling data collected._\n\n";
    assert_eq!(bench.report_markdown(), expected);
}

#[test]
fn report_markdown_fixed_width_and_no_links() {
    let mut config = ReadmeConfig::default();
    config.column_width = Some(12);
    let mut bench = CuBenchmark::new(config);
    bench.add_from_entries("a", vec![entry("f", "src/x.rs:1", 1234, 5)]);
    let expected = String::new()
        + "## Definitions\n\n"
        + "- **Total CU**: Compute units consumed by the function including all children\n"
        + "- **Net CU**: Compute units consumed by the function itself (excluding children)\n\n"
        + "## Table of Contents\n\n"
        + "1. [A](#a)\n\n"
        + "## 1. A\n\n"
        + "| Function     |   Total CU |     Net CU |\n"
        + "| ------------ | ---------- | ---------- |\n"
        + "| `f`          |      1,234 |          5 |\n\n";
    assert_eq!(bench.report_markdown(), expected);
}

#[test]
fn add_from_logs_adds_parsed_entries() {
    let mut bench = CuBenchmark::new(ReadmeConfig::default());
    let logs = vec![
        "Program log: #  1    parse_transfer\n        src/sync/transfer/parser.rs:17        \nCU consumed   353 (net   353) of 200000 CU".to_string(),
    ];
    bench.add_from_logs("sync", &logs);
    assert_eq!(bench.section_names(), ["sync"]);
    let md = bench.report_markdown();
    assert!(md.contains("| `parse_transfer` |        353 |        353 |\n"));
}

#[test]
fn report_rejects_unlinkable_line_number() {
    let mut config = ReadmeConfig::default();
    config.github_base_url = "https://g/".into();
    let mut bench = CuBenchmark::new(config);
    let loc = format!("src/x.rs:{}", usize::MAX);
    bench.add_from_entries("a", vec![entry("f", &loc, 1, 1)]);
    assert!(!bench.report_fits_check());
    let mut plain = CuBenchmark::new(ReadmeConfig::default());
    plain.add_from_entries("a", vec![entry("f", &loc, 1, 1)]);
    assert!(plain.report_fits_check());
    assert!(plain.report_markdown().contains("| `f`      |          1 |          1 |\n"));
}

#[test]
fn entries_accumulate_in_order() {
    let mut bench = CuBenchmark::new(ReadmeConfig::default());
    bench.add_from_entries("ix", vec![entry("first", "", 10, 10)]);
    bench.add_table("other", SectionTable { title: String::new(), headers: vec![], rows: vec![] });
    bench.add_from_entries("ix", vec![entry("second", "", 20, 20)]);
    let md = bench.report_markdown();
    let first = md.find("`first`").unwrap();
    let second = md.find("`second`").unwrap();
    assert!(first < second);
    assert_eq!(bench.section_names(), ["ix", "other"]);
    assert!(md.contains("## 2. Other\n\n|  |\n|  |\n\n"));
}

#[test]
fn format_thousands_shape() {
    for n in [0u64, 7, 42, 999, 1000, 12_345, 999_999, 1_000_000, 123_456_789, u64::MAX] {
        let grouped = format_thousands(n);
        let d = n.to_string().len();
        assert_eq!(grouped.len(), d + (d - 1) / 3);
        let chars: Vec<char> = grouped.chars().collect();
        for (p, c) in chars.iter().enumerate() {
            assert_eq!(*c == ',', (chars.len() - p) % 4 == 0);
        }
    }
}
