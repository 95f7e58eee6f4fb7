use log_stats::{LogStats, ObjectStats, Summary};

fn lines(texts: &[&str]) -> Vec<String> {
    texts.iter().map(|t| t.to_string()).collect()
}

#[test]
fn object_stats_new_counts_one_line() {
    assert_eq!(ObjectStats::new(42), ObjectStats { count: 1, bytes: 42 });
}

#[test]
fn new_stats_are_empty() {
    let stats = LogStats::new(2_097_152);
    assert_eq!(stats.file_len_bytes, 2_097_152);
    assert!(stats.count_map.is_empty());
    assert_eq!(
        stats.summary(),
        Summary { file_size_mb: 2, lines_processed: 0, unique_types: 0 }
    );
}

#[test]
fn empty_input_has_no_categories() {
    let stats = LogStats::process_lines(0, &Vec::new());
    assert!(stats.count_map.is_empty());
    assert_eq!(
        stats.summary(),
        Summary { file_size_mb: 0, lines_processed: 0, unique_types: 0 }
    );
}

#[test]
fn mixed_lines_scenario() {
    let input = lines(&[
        "{\"type\":\"A\"}\n",
        "{\"type\":\"B\",\"x\":1}\n",
        "not json\n",
        "{\"type\":\"A\"}\n",
    ]);
    let stats = LogStats::process_lines(60, &input);
    let a = ObjectStats { count: 2, bytes: input[0].len() + input[3].len() };
    let b = ObjectStats { count: 1, bytes: input[1].len() };
    assert_eq!(stats.stats_for("A"), Some(a));
    assert_eq!(stats.stats_for("B"), Some(b));
    assert_eq!(stats.count_map.len(), 2);
    assert_eq!(stats.count_map[0], ("A".to_string(), ObjectStats { count: 2, bytes: 26 }));
    assert_eq!(stats.count_map[1], ("B".to_string(), ObjectStats { count: 1, bytes: 19 }));
    assert_eq!(stats.summary().lines_processed, 3);
    assert_eq!(stats.summary().unique_types, 2);
}

#[test]
fn malformed_lines_are_skipped() {
    let input = lines(&[
        "{\"type\":\"A\"}\n",
        "{\"type\":\n",
        "[1,2,3]\n",
        "{\"kind\":\"A\"}\n",
        "{\"type\":7}\n",
        "\"type\"\n",
        "\n",
    ]);
    let stats = LogStats::process_lines(0, &input);
    assert_eq!(stats.count_map.len(), 1);
    assert_eq!(stats.stats_for("A"), Some(ObjectStats { count: 1, bytes: 13 }));
    assert_eq!(stats.summary().lines_processed, 1);
}

#[test]
fn ingest_line_without_type_changes_nothing() {
    let mut stats = LogStats::new(0);
    stats.ingest_line("{\"other\":\"A\"}\n");
    assert!(stats.count_map.is_empty());
    stats.ingest_line("garbage");
    assert!(stats.count_map.is_empty());
}

#[test]
fn ingest_line_counts_terminator_bytes() {
    let mut stats = LogStats::new(0);
    stats.ingest_line("{\"type\":\"A\"}\n");
    stats.ingest_line("{\"type\":\"A\"}");
    assert_eq!(stats.stats_for("A"), Some(ObjectStats { count: 2, bytes: 25 }));
}

#[test]
fn ingest_line_reads_escaped_and_unicode_types() {
    let mut stats = LogStats::new(0);
    stats.ingest_line("{\"type\":\"caf\\u00e9\"}\n");
    stats.ingest_line("{\"type\":\"café\",\"n\":[1,{\"type\":\"X\"}]}\n");
    assert_eq!(stats.count_map.len(), 1);
    assert_eq!(stats.count_map[0].0, "café");
    assert_eq!(stats.count_map[0].1.count, 2);
    assert_eq!(stats.stats_for("X"), None);
}

#[test]
fn same_input_twice_gives_same_stats() {
    let input = lines(&[
        "{\"type\":\"B\"}\n",
        "{\"type\":\"A\",\"v\":2}\n",
        "oops\n",
        "{\"type\":\"B\",\"w\":\"long value\"}\n",
    ]);
    let first = LogStats::process_lines(100, &input);
    let second = LogStats::process_lines(100, &input);
    assert_eq!(first.count_map, second.count_map);
    assert_eq!(first.summary(), second.summary());
}

#[test]
fn counts_add_up_to_parsed_lines() {
    let input = lines(&[
        "{\"type\":\"A\"}\n",
        "{\"type\":\"B\"}\n",
        "{\"type\":\"C\"}\n",
        "nope\n",
        "{\"type\":\"B\"}\n",
    ]);
    let stats = LogStats::process_lines(0, &input);
    let sum: usize = stats.count_map.iter().map(|e| e.1.count).sum();
    assert_eq!(sum, 4);
    assert!(sum <= input.len());
    assert_eq!(stats.summary().lines_processed, 4);
    assert_eq!(stats.summary().unique_types, 3);
}

#[test]
fn new_category_key_is_an_owned_copy() {
    let mut stats = LogStats::new(0);
    let mut buffer = String::from("first");
    stats.record(&buffer, 10);
    buffer.clear();
    buffer.push_str("other");
    assert_eq!(stats.count_map[0].0, "first");
    stats.record(&buffer, 4);
    assert_eq!(stats.count_map.len(), 2);
    assert_eq!(stats.stats_for("first"), Some(ObjectStats { count: 1, bytes: 10 }));
    assert_eq!(stats.stats_for("other"), Some(ObjectStats { count: 1, bytes: 4 }));
}

#[test]
fn record_existing_category_accumulates() {
    let mut stats = LogStats::new(0);
    stats.record("A", 5);
    stats.record("B", 7);
    stats.record("A", 11);
    assert_eq!(stats.count_map.len(), 2);
    assert_eq!(stats.stats_for("A"), Some(ObjectStats { count: 2, bytes: 16 }));
    assert_eq!(stats.stats_for("B"), Some(ObjectStats { count: 1, bytes: 7 }));
    assert_eq!(stats.stats_for("C"), None);
}

#[test]
fn summary_rounds_file_size_down_to_whole_mb() {
    let stats = LogStats::new(3 * 1_048_576 - 1);
    assert_eq!(stats.summary().file_size_mb, 2);
}

#[test]
fn default_stats_are_empty() {
    let stats = LogStats::default();
    assert_eq!(stats.file_len_bytes, 0);
    assert!(stats.count_map.is_empty());
}
