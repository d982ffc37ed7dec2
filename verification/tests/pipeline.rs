use source_stats::classifier::classify;
use source_stats::discovery::Discovery;
use source_stats::domain::{Extension, ExtensionMetadata, FileStats, Keyword};
use source_stats::name_map::NameMap;
use source_stats::pipeline::{FaultyFileRecord, Pipeline, WorkerStep};

fn extension(name: &str) -> Extension {
    Extension {
        name: name.to_string(),
        string_symbols: vec!["\"".to_string()],
        comment_symbol: "//".to_string(),
        mutliline_comment_start_symbol: Some("/*".to_string()),
        mutliline_comment_end_symbol: Some("*/".to_string()),
        keywords: vec![Keyword {
            descriptive_name: "conditions".to_string(),
            aliases: vec!["if".to_string()],
        }],
    }
}

fn catalog() -> NameMap<Extension> {
    let mut catalog: NameMap<Extension> = NameMap::new();
    catalog.insert("x".to_string(), extension("x"));
    catalog.insert("y".to_string(), extension("y"));
    catalog
}

fn record(path: &str, bytes: u64) -> FaultyFileRecord {
    FaultyFileRecord { path: path.to_string(), error: "unreadable".to_string(), bytes }
}

fn stats_of(text: &str) -> FileStats {
    classify(text.as_bytes(), &extension("x")).unwrap()
}

#[test]
fn new_pipeline_has_nothing_to_do_but_is_not_drained() {
    let mut p = Pipeline::new(&catalog());
    assert!(!p.is_drained());
    assert_eq!(p.classified_files(), 0);
    assert!(p.faulty_files().is_empty());
    assert_eq!(p.totals().len(), 2);
    assert_eq!(p.totals().name_at(0), "x");
    assert_eq!(p.next_step(), WorkerStep::Wait);
    p.finish_discovery();
    assert!(p.is_drained());
    assert_eq!(p.next_step(), WorkerStep::Exit);
}

#[test]
fn paths_leave_the_queue_in_the_order_of_pushing() {
    let mut p = Pipeline::new(&catalog());
    assert!(p.push("a.x".to_string()));
    assert!(p.push("b.y".to_string()));
    assert!(p.push("c.x".to_string()));
    assert_eq!(p.next_step(), WorkerStep::Classify("a.x".to_string()));
    assert_eq!(p.next_step(), WorkerStep::Classify("b.y".to_string()));
    assert!(p.push("d.x".to_string()));
    assert_eq!(p.next_step(), WorkerStep::Classify("c.x".to_string()));
    assert_eq!(p.next_step(), WorkerStep::Classify("d.x".to_string()));
    assert_eq!(p.next_step(), WorkerStep::Wait);
}

#[test]
fn an_empty_queue_means_wait_until_discovery_is_over() {
    let mut p = Pipeline::new(&catalog());
    assert_eq!(p.next_step(), WorkerStep::Wait);
    p.push("a.x".to_string());
    p.finish_discovery();
    assert_eq!(p.next_step(), WorkerStep::Classify("a.x".to_string()));
    assert_eq!(p.next_step(), WorkerStep::Exit);
    assert_eq!(p.next_step(), WorkerStep::Exit);
}

#[test]
fn a_path_pushed_after_discovery_ended_is_refused() {
    let mut p = Pipeline::new(&catalog());
    p.finish_discovery();
    assert!(!p.push("late.x".to_string()));
    assert_eq!(p.next_step(), WorkerStep::Exit);
    assert!(p.is_drained());
}

#[test]
fn a_pipeline_with_a_path_in_flight_is_not_drained() {
    let mut p = Pipeline::new(&catalog());
    p.push("a.x".to_string());
    p.finish_discovery();
    assert!(!p.is_drained());
    assert_eq!(p.next_step(), WorkerStep::Classify("a.x".to_string()));
    assert!(!p.is_drained());
    p.record_success("x", stats_of("if a\n"));
    assert!(p.is_drained());
}

#[test]
fn every_pushed_path_ends_as_classified_or_faulty() {
    let mut p = Pipeline::new(&catalog());
    let paths = ["1.x", "2.y", "3.x", "4.x", "5.y"];
    for path in paths.iter() {
        assert!(p.push(path.to_string()));
    }
    p.finish_discovery();
    let mut handed_out = Vec::new();
    loop {
        match p.next_step() {
            WorkerStep::Classify(path) => {
                if path == "3.x" || path == "5.y" {
                    p.record_failure(record(&path, 20));
                } else if path.ends_with(".x") {
                    p.record_success("x", stats_of("if a // if\nb\n"));
                } else {
                    p.record_success("y", stats_of("\n\nif if\n"));
                }
                handed_out.push(path);
            }
            WorkerStep::Wait => panic!("discovery is over"),
            WorkerStep::Exit => break,
        }
    }
    assert_eq!(handed_out, paths);
    assert!(p.is_drained());
    assert_eq!(p.classified_files(), 3);
    assert_eq!(p.faulty_files().len(), 2);
    assert_eq!(p.classified_files() + p.faulty_files().len(), paths.len());
    assert_eq!(p.faulty_files()[0], record("3.x", 20));
    assert_eq!(p.faulty_files()[1], record("5.y", 20));
    let x = p.totals().get("x").unwrap();
    assert_eq!(x.lines, 4);
    assert_eq!(x.code_lines, 4);
    assert_eq!(x.keyword_occurences.get("conditions"), Some(&2));
    let y = p.totals().get("y").unwrap();
    assert_eq!(y.lines, 3);
    assert_eq!(y.code_lines, 1);
    assert_eq!(y.keyword_occurences.get("conditions"), Some(&2));
    let (totals, faulty) = p.into_results();
    assert_eq!(totals.len(), 2);
    assert_eq!(faulty.len(), 2);
}

#[test]
fn a_failure_leaves_the_totals_untouched() {
    let mut p = Pipeline::new(&catalog());
    p.push("a.x".to_string());
    p.push("b.x".to_string());
    p.finish_discovery();
    assert_eq!(p.next_step(), WorkerStep::Classify("a.x".to_string()));
    p.record_success("x", stats_of("if\n"));
    assert_eq!(p.next_step(), WorkerStep::Classify("b.x".to_string()));
    p.record_failure(record("b.x", 5));
    let x = p.totals().get("x").unwrap();
    assert_eq!(x.lines, 1);
    assert_eq!(x.code_lines, 1);
    assert_eq!(x.keyword_occurences.get("conditions"), Some(&1));
    assert_eq!(p.classified_files(), 1);
}

#[test]
fn discovery_counts_relevant_files_by_extension() {
    let mut d = Discovery::new(&catalog());
    assert_eq!(d.counts(), (0, 0));
    assert!(d.visit_file("dir/a.x", 10));
    assert!(!d.visit_file("dir/readme.md", 1000));
    assert!(d.visit_file("b.y", 7));
    assert!(!d.visit_file("Makefile", 3));
    assert!(d.visit_file("deep/er/c.x", 30));
    assert!(!d.visit_file("x", 1));
    assert!(!d.visit_file(".x", 1));
    assert_eq!(d.counts(), (7, 3));
    let metadata = d.extensions_metadata();
    assert_eq!(metadata.get("x"), Some(&ExtensionMetadata::new(2, 40)));
    assert_eq!(metadata.get("y"), Some(&ExtensionMetadata::new(1, 7)));
    let files: usize = (0..metadata.len()).map(|i| metadata.value_at(i).files).sum();
    assert_eq!(files, d.counts().1);
    let metadata = d.into_metadata();
    assert_eq!(metadata.len(), 2);
    assert_eq!(metadata.name_at(0), "x");
}
