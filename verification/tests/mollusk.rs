use light_program_profiler::mollusk::{
    extract_category_and_file, readme_fits_check, render_categorized_readme,
    snake_to_title_case, take_profiling_results, BenchmarkEntry, ProfilingState, ReadmeConfig,
    overrides_unique, results_sorted_check, BenchmarkResults,
};

fn pair(a: &str, b: &str) -> (String, String) {
    (a.to_string(), b.to_string())
}

#[test]
fn extract_category_and_file_doc_examples() {
    assert_eq!(extract_category_and_file("src/folder/file.rs:12"), pair("folder", "file"));
    assert_eq!(extract_category_and_file("src/lib.rs:3"), pair("baseline", "lib"));
    assert_eq!(extract_category_and_file("src/lib.rs"), pair("baseline", "lib"));
}

#[test]
fn extract_category_and_file_edge_cases() {
    assert_eq!(extract_category_and_file("src/main.rs:7"), pair("main", "unknown"));
    assert_eq!(extract_category_and_file("src/mod:7"), pair("mod", "unknown"));
    assert_eq!(extract_category_and_file("src/a/b.rs.rs:1"), pair("a", "b"));
    assert_eq!(extract_category_and_file("src/a/b/c.rs:1"), pair("a", "b"));
    assert_eq!(extract_category_and_file("src/"), pair("", "unknown"));
    assert_eq!(extract_category_and_file("lib/x.rs:1"), pair("other", "unknown"));
    assert_eq!(extract_category_and_file(""), pair("other", "unknown"));
    assert_eq!(extract_category_and_file("src/lib.rsx"), pair("lib", "unknown"));
}

#[test]
fn title_case_edges() {
    assert_eq!(snake_to_title_case(""), "");
    assert_eq!(snake_to_title_case("a__b_"), "A  B ");
    assert_eq!(snake_to_title_case("1st_pass"), "1st Pass");
}

#[test]
fn start_then_end_closes_the_section() {
    let mut state = ProfilingState::new();
    state.start("outer".to_string(), 1000, 0, false);
    assert_eq!(state.completed_count(), 0);
    assert_eq!(state.end("outer", 640, 0, false), Ok(()));
    assert_eq!(state.completed_count(), 1);
    let c = &state.get_completed()[0];
    assert_eq!(c.id, "outer");
    assert_eq!(c.start_cu, 1000);
    assert_eq!(c.end_cu, 640);
    assert_eq!(c.total_cu, 360);
    assert_eq!(c.remaining_cu, 1000);
    assert_eq!((c.start_sequence, c.end_sequence), (0, 1));
    assert!(c.heap.is_none());
}

#[test]
fn end_of_unknown_section_is_an_error() {
    let mut state = ProfilingState::new();
    state.start("a".to_string(), 10, 0, false);
    assert_eq!(
        state.end("b", 5, 0, false),
        Err("No active profiling section found for ID: b".to_string())
    );
    assert_eq!(state.completed_count(), 0);
    assert_eq!(state.end("a", 5, 0, false), Ok(()));
}

#[test]
fn end_closes_the_latest_section_with_the_id() {
    let mut state = ProfilingState::new();
    state.start("x".to_string(), 100, 0, false);
    state.start("x".to_string(), 90, 0, false);
    state.end("x", 80, 0, false).unwrap();
    let c = &state.get_completed()[0];
    assert_eq!(c.start_cu, 90);
    assert_eq!(c.start_sequence, 1);
}

#[test]
fn nested_sections_net_excludes_children() {
    let mut state = ProfilingState::new();
    state.start("a".to_string(), 1000, 0, false);
    state.start("b".to_string(), 900, 0, false);
    state.end("b", 700, 0, false).unwrap();
    state.end("a", 400, 0, false).unwrap();
    state.post_process();
    let done = state.get_completed();
    assert_eq!(done[0].id, "b");
    assert_eq!((done[0].total_cu, done[0].net_cu), (200, 200));
    assert_eq!(done[1].id, "a");
    assert_eq!((done[1].total_cu, done[1].net_cu), (600, 400));
}

#[test]
fn heap_metrics_and_net_heap() {
    let mut state = ProfilingState::new();
    state.start("outer".to_string(), 500, 1000, true);
    state.start("inner".to_string(), 400, 1200, true);
    state.end("inner", 300, 1500, true).unwrap();
    state.start("no_heap".to_string(), 300, 0, false);
    state.end("no_heap", 250, 0, true).unwrap();
    state.end("outer", 100, 2000, true).unwrap();
    state.post_process();
    let done = state.get_completed();
    let inner = done[0].heap.as_ref().unwrap();
    assert_eq!((inner.start_heap, inner.end_heap, inner.total_heap), (1200, 1500, 300));
    assert_eq!(inner.remaining_heap, 32_000 - 1200);
    assert!(done[1].heap.is_none());
    let outer = done[2].heap.as_ref().unwrap();
    assert_eq!(outer.total_heap, 1000);
    assert_eq!(outer.net_heap, 700);
    assert_eq!(done[2].net_cu, 400 - 100 - 50);
    let mut over = ProfilingState::new();
    over.start("o".to_string(), 10, 40_000, true);
    over.end("o", 20, 30_000, true).unwrap();
    let h = over.get_completed()[0].heap.as_ref().unwrap();
    assert_eq!((over.get_completed()[0].total_cu, h.total_heap, h.remaining_heap), (0, 0, 0));
}

#[test]
fn take_profiling_results_splits_ids_and_clears() {
    let mut state = ProfilingState::new();
    assert!(take_profiling_results(&mut state).is_empty());
    state.start("f\n        src/sub/f.rs:19        ".to_string(), 200, 0, false);
    state.start("plain".to_string(), 150, 0, false);
    state.end("plain", 100, 0, false).unwrap();
    state.end("f\n        src/sub/f.rs:19        ", 50, 0, false).unwrap();
    assert!(state.sums_fit_check());
    let results = take_profiling_results(&mut state);
    assert_eq!(
        results,
        vec![
            ("plain".to_string(), 50, String::new()),
            ("f".to_string(), 150, "src/sub/f.rs:19".to_string()),
        ]
    );
    assert_eq!(state.completed_count(), 0);
    assert!(take_profiling_results(&mut state).is_empty());
}

#[test]
fn take_clears_open_sections_when_nothing_closed() {
    let mut state = ProfilingState::new();
    state.start("open".to_string(), 10, 0, false);
    assert!(take_profiling_results(&mut state).is_empty());
    assert!(state.end("open", 5, 0, false).is_err());
    state.start("next".to_string(), 10, 0, false);
    state.end("next", 5, 0, false).unwrap();
    assert_eq!(state.get_completed()[0].start_sequence, 0);
}

#[test]
fn post_process_twice_is_post_process_once() {
    let mut state = ProfilingState::new();
    state.start("a".to_string(), 1000, 10, true);
    state.start("b".to_string(), 900, 20, true);
    state.end("b", 700, 50, true).unwrap();
    state.end("a", 400, 100, true).unwrap();
    state.post_process();
    let once: Vec<(u64, u64, u64)> = state
        .get_completed()
        .iter()
        .map(|e| (e.total_cu, e.net_cu, e.heap.as_ref().unwrap().net_heap))
        .collect();
    state.post_process();
    let twice: Vec<(u64, u64, u64)> = state
        .get_completed()
        .iter()
        .map(|e| (e.total_cu, e.net_cu, e.heap.as_ref().unwrap().net_heap))
        .collect();
    assert_eq!(once, vec![(200, 200, 30), (600, 400, 60)]);
    assert_eq!(once, twice);
}

#[test]
fn start_numbers_above_every_earlier_number() {
    let mut state = ProfilingState::new();
    state.start("a".to_string(), 10, 0, false);
    state.start("b".to_string(), 9, 0, false);
    state.end("b", 8, 0, false).unwrap();
    state.start("c".to_string(), 7, 0, false);
    state.end("c", 6, 0, false).unwrap();
    state.end("a", 5, 0, false).unwrap();
    let done = state.get_completed();
    assert_eq!(done[0].start_sequence, 1);
    assert_eq!(done[0].end_sequence, 2);
    assert_eq!(done[1].start_sequence, 3);
    assert_eq!((done[2].start_sequence, done[2].end_sequence), (0, 5));
}

#[test]
fn results_order_and_override_names() {
    let sorted: BenchmarkResults = vec![
        ("alpha".to_string(), vec![("a".to_string(), vec![]), ("b".to_string(), vec![])]),
        ("beta".to_string(), vec![]),
    ];
    assert!(results_sorted_check(&sorted));
    let unsorted_files: BenchmarkResults =
        vec![("alpha".to_string(), vec![("b".to_string(), vec![]), ("a".to_string(), vec![])])];
    assert!(!results_sorted_check(&unsorted_files));
    let repeated: BenchmarkResults =
        vec![("beta".to_string(), vec![]), ("beta".to_string(), vec![])];
    assert!(!results_sorted_check(&repeated));
    assert!(overrides_unique(&vec![pair("a", "A"), pair("b", "B")]));
    assert!(!overrides_unique(&vec![pair("a", "A"), pair("b", "B"), pair("a", "C")]));
}

#[test]
fn clear_resets_everything() {
    let mut state = ProfilingState::default();
    state.start("a".to_string(), 10, 0, false);
    state.end("a", 5, 0, false).unwrap();
    state.start("b".to_string(), 10, 0, false);
    state.clear();
    assert_eq!(state.completed_count(), 0);
    assert!(state.end("b", 1, 0, false).is_err());
    state.start("c".to_string(), 10, 0, false);
    state.end("c", 5, 0, false).unwrap();
    assert_eq!(state.get_completed()[0].start_sequence, 0);
}

fn bench(func: &str, cu: &str, loc: &str) -> BenchmarkEntry {
    BenchmarkEntry { func_name: func.into(), cu_value: cu.into(), file_location: loc.into() }
}

#[test]
fn categorized_readme_rendering() {
    let config = ReadmeConfig {
        title: "T".into(),
        description: "D".into(),
        github_base_url: "https://g/".into(),
        output_path: "README.md".into(),
        display_name_overrides: vec![pair("my_cat", "Mine")],
    };
    let results = vec![
        ("baseline".to_string(), vec![("lib".to_string(), vec![bench("baseline_fn", "100", "src/lib.rs:4")])]),
        ("my_cat".to_string(), vec![("do_thing".to_string(), vec![bench("run", "350", "src/my_cat/do_thing.rs:9")])]),
        ("other_cat".to_string(), vec![("x".to_string(), vec![bench("y", "50", "")])]),
    ];
    assert!(readme_fits_check(&results));
    let header = format!("  | Function{} | CU Consumed | CU Adjusted |", " ".repeat(207));
    let sep = format!("  |{}|-------------|-------------|", "-".repeat(217));
    let row = |link: &str, cu: &str, adj: &str| format!("  | {:<180} | {:<11} | {:<11} |\n", link, cu, adj);
    let mut expected = String::new();
    expected += "# T\n\nD\n\n## Table of Contents\n\n";
    expected += "**[1. Baseline](#1-baseline)**\n\n  - [1.1 Lib](#11-lib)\n\n";
    expected += "**[2. Mine](#2-my-cat)**\n\n  - [2.1 Do Thing](#21-do-thing)\n\n";
    expected += "**[3. Other Cat](#3-other-cat)**\n\n  - [3.1 X](#31-x)\n\n";
    expected += "\n## Definitions\n\n";
    expected += "- **CU Consumed**: Total compute units consumed by the profiled function\n";
    expected += "- **CU Adjusted**: Actual operation cost with baseline profiling overhead subtracted (CU Consumed - Baseline CU)\n";
    expected += "- **Baseline CU**: CU consumed by an empty profiled function (`#[profile]` macro overhead)\n\n";
    expected += "## 1. Baseline\n\n  ### 1.1 Lib\n\n";
    expected += &format!("{}\n{}\n", header, sep);
    expected += &row("[baseline_fn](https://g/src/lib.rs#L5)", "100", "N/A");
    expected += "\n## 2. Mine\n\n  ### 2.1 Do Thing\n\n";
    expected += &format!("{}\n{}\n", header, sep);
    expected += &row("[run](https://g/src/my_cat/do_thing.rs#L10)", "350", "250");
    expected += "\n## 3. Other Cat\n\n  ### 3.1 X\n\n";
    expected += &format!("{}\n{}\n", header, sep);
    expected += &row("y", "50", "0");
    expected += "\n";
    assert_eq!(render_categorized_readme(&config, &results), expected);
}

#[test]
fn categorized_readme_without_baseline() {
    let config = ReadmeConfig {
        title: "T".into(),
        description: String::new(),
        github_base_url: String::new(),
        output_path: "README.md".into(),
        display_name_overrides: vec![],
    };
    let results = vec![("zk".to_string(), vec![
        ("a_b".to_string(), vec![bench("f", "oops", "src/zk/a_b.rs")]),
        ("c".to_string(), vec![]),
    ])];
    let rendered = render_categorized_readme(&config, &results);
    assert!(rendered.starts_with("# T\n\n\n\n## Table of Contents\n\n**[1. Zk](#1-zk)**\n\n  - [1.1 A B](#11-a-b)\n  - [1.2 C](#12-c)\n\n\n## Definitions"));
    assert!(rendered.contains(&format!("  | {:<180} | {:<11} | {:<11} |\n", "f", "oops", "0")));
    assert!(rendered.contains("  ### 1.2 C\n\n"));
}

#[test]
fn readme_rejects_unlinkable_line_number() {
    let loc = format!("src/x.rs:{}", usize::MAX);
    let results = vec![("c".to_string(), vec![("f".to_string(), vec![bench("f", "1", &loc)])])];
    assert!(!readme_fits_check(&results));
    let ok = vec![("c".to_string(), vec![("f".to_string(), vec![bench("f", "1", "src/x.rs: +7 ")])])];
    assert!(readme_fits_check(&ok));
}
