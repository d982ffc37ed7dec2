use source_stats::coordinator::{
    conclude_run, generate_metrics_if_parsing_took_more_than_one_sec,
    get_activated_extensions_as_str, remove_faulty_files_stats, Metrics, ParseFilesError,
};
use source_stats::discovery::Discovery;
use source_stats::domain::{Extension, ExtensionContentInfo, ExtensionMetadata};
use source_stats::name_map::NameMap;
use source_stats::pipeline::FaultyFileRecord;

fn extension(name: &str) -> Extension {
    Extension {
        name: name.to_string(),
        string_symbols: vec![],
        comment_symbol: "#".to_string(),
        mutliline_comment_start_symbol: None,
        mutliline_comment_end_symbol: None,
        keywords: vec![],
    }
}

fn catalog(names: &[&str]) -> NameMap<Extension> {
    let mut catalog: NameMap<Extension> = NameMap::new();
    for name in names.iter() {
        catalog.insert(name.to_string(), extension(name));
    }
    catalog
}

fn record(path: &str, bytes: u64) -> FaultyFileRecord {
    FaultyFileRecord { path: path.to_string(), error: "stream did not contain valid UTF-8".to_string(), bytes }
}

fn content(lines: &[(&str, usize)]) -> NameMap<ExtensionContentInfo> {
    let mut map: NameMap<ExtensionContentInfo> = NameMap::new();
    for (name, n) in lines.iter() {
        map.insert(name.to_string(), ExtensionContentInfo::dummy(*n));
    }
    map
}

#[test]
fn note_on_activated_extensions() {
    assert_eq!(get_activated_extensions_as_str(&Vec::new()), "");
    assert_eq!(
        get_activated_extensions_as_str(&vec!["rs".to_string()]),
        "\n(Activated extensions: rs)"
    );
    assert_eq!(
        get_activated_extensions_as_str(&vec!["rs".to_string(), "py".to_string(), "c".to_string()]),
        "\n(Activated extensions: rs, py, c)"
    );
}

#[test]
fn faulty_file_is_taken_out_of_the_counters() {
    let mut d = Discovery::new(&catalog(&["x"]));
    assert!(d.visit_file("a.x", 10));
    assert!(d.visit_file("b.x", 20));
    assert!(d.visit_file("c.x", 30));
    let (_, relevant) = d.counts();
    let mut metadata = d.into_metadata();
    assert_eq!(metadata.get("x"), Some(&ExtensionMetadata::new(3, 60)));
    let faulty = vec![record("b.x", 20)];
    let outcome = conclude_run(relevant, &faulty, &mut metadata, &content(&[("x", 12)]), &Vec::new(), 10);
    assert_eq!(outcome, Ok(None));
    assert_eq!(metadata.get("x"), Some(&ExtensionMetadata { files: 2, bytes: 40 }));
}

#[test]
fn remove_faulty_files_stats_works_extension_by_extension() {
    let mut metadata: NameMap<ExtensionMetadata> = NameMap::new();
    metadata.insert("x".to_string(), ExtensionMetadata::new(3, 60));
    metadata.insert("y".to_string(), ExtensionMetadata::new(2, 15));
    metadata.insert("z".to_string(), ExtensionMetadata::new(1, 9));
    let faulty = vec![record("d/b.x", 20), record("e.y", 5), record("noext", 99), record("a.x", 10)];
    remove_faulty_files_stats(&faulty, &mut metadata);
    assert_eq!(metadata.get("x"), Some(&ExtensionMetadata::new(1, 30)));
    assert_eq!(metadata.get("y"), Some(&ExtensionMetadata::new(1, 10)));
    assert_eq!(metadata.get("z"), Some(&ExtensionMetadata::new(1, 9)));
    assert_eq!(metadata.name_at(0), "x");
    assert_eq!(metadata.len(), 3);
}

#[test]
fn without_faulty_files_the_counters_stay() {
    let mut metadata: NameMap<ExtensionMetadata> = NameMap::new();
    metadata.insert("x".to_string(), ExtensionMetadata::new(3, 60));
    remove_faulty_files_stats(&Vec::new(), &mut metadata);
    assert_eq!(metadata.get("x"), Some(&ExtensionMetadata::new(3, 60)));
}

#[test]
fn a_run_without_relevant_files_fails() {
    let d = Discovery::new(&catalog(&["x"]));
    let mut d = d;
    assert!(!d.visit_file("readme.md", 5));
    assert!(!d.visit_file("notes.txt", 5));
    let (total, relevant) = d.counts();
    assert_eq!((total, relevant), (2, 0));
    let mut metadata = d.into_metadata();
    let activated = vec!["x".to_string(), "y".to_string()];
    let outcome = conclude_run(relevant, &Vec::new(), &mut metadata, &content(&[("x", 0)]), &activated, 5000);
    assert_eq!(
        outcome,
        Err(ParseFilesError::NoRelevantFiles("\n(Activated extensions: x, y)".to_string()))
    );
    assert_eq!(metadata.get("x"), Some(&ExtensionMetadata::new(0, 0)));
    let outcome = conclude_run(0, &Vec::new(), &mut metadata, &content(&[("x", 0)]), &Vec::new(), 5000);
    assert_eq!(outcome, Err(ParseFilesError::NoRelevantFiles(String::new())));
}

#[test]
fn a_run_in_which_every_file_is_faulty_fails() {
    let mut d = Discovery::new(&catalog(&["x"]));
    assert!(d.visit_file("a.x", 10));
    assert!(d.visit_file("b.x", 20));
    let (_, relevant) = d.counts();
    let mut metadata = d.into_metadata();
    let faulty = vec![record("a.x", 10), record("b.x", 20)];
    let outcome = conclude_run(relevant, &faulty, &mut metadata, &content(&[("x", 0)]), &Vec::new(), 5000);
    assert_eq!(outcome, Err(ParseFilesError::AllAreFaultyFiles));
    assert_eq!(metadata.get("x"), Some(&ExtensionMetadata::new(2, 30)));
}

#[test]
fn a_long_run_reports_its_throughput() {
    let mut metadata: NameMap<ExtensionMetadata> = NameMap::new();
    metadata.insert("x".to_string(), ExtensionMetadata::new(10, 1000));
    let faulty = vec![record("a.x", 100), record("b.x", 100)];
    let totals = content(&[("x", 3000), ("y", 1500)]);
    let outcome = conclude_run(10, &faulty, &mut metadata, &totals, &Vec::new(), 2000);
    assert_eq!(outcome, Ok(Some(Metrics { files_per_sec: 4, lines_per_sec: 2250 })));
    assert_eq!(metadata.get("x"), Some(&ExtensionMetadata::new(8, 800)));
}

#[test]
fn metrics_only_for_more_than_a_second() {
    let totals = content(&[("x", 3000), ("y", 1500)]);
    assert_eq!(generate_metrics_if_parsing_took_more_than_one_sec(0, 10, &totals), None);
    assert_eq!(generate_metrics_if_parsing_took_more_than_one_sec(1000, 10, &totals), None);
    assert_eq!(
        generate_metrics_if_parsing_took_more_than_one_sec(1001, 10, &totals),
        Some(Metrics { files_per_sec: 9, lines_per_sec: 4495 })
    );
    assert_eq!(
        generate_metrics_if_parsing_took_more_than_one_sec(3000, 10, &totals),
        Some(Metrics { files_per_sec: 3, lines_per_sec: 1500 })
    );
    assert_eq!(
        generate_metrics_if_parsing_took_more_than_one_sec(1_000_000, 10, &totals),
        Some(Metrics { files_per_sec: 0, lines_per_sec: 4 })
    );
    let empty: NameMap<ExtensionContentInfo> = NameMap::new();
    assert_eq!(
        generate_metrics_if_parsing_took_more_than_one_sec(1500, 3, &empty),
        Some(Metrics { files_per_sec: 2, lines_per_sec: 0 })
    );
}
