use source_stats::domain::{ExtensionContentInfo, ExtensionMetadata};
use source_stats::name_map::NameMap;
use source_stats::overview::{
    get_files_lines_size, retain_most_relevant_and_add_others_field_for_rest,
};
use source_stats::report::{
    create_keyword_sum_map, format_and_print_results,
    get_extension_names_as_sorted_vec_according_to_how_much_they_appeared,
    remove_extensions_with_0_files,
};

fn metadata(entries: &[(&str, usize, usize)]) -> NameMap<ExtensionMetadata> {
    let mut map: NameMap<ExtensionMetadata> = NameMap::new();
    for (name, files, bytes) in entries.iter() {
        map.insert(name.to_string(), ExtensionMetadata::new(*files, *bytes));
    }
    map
}

fn content(entries: &[(&str, usize)]) -> NameMap<ExtensionContentInfo> {
    let mut map: NameMap<ExtensionContentInfo> = NameMap::new();
    for (name, lines) in entries.iter() {
        map.insert(name.to_string(), ExtensionContentInfo::dummy(*lines));
    }
    map
}

fn with_keywords(lines: usize, keywords: &[(&str, usize)]) -> ExtensionContentInfo {
    let mut table: NameMap<usize> = NameMap::new();
    for (name, count) in keywords.iter() {
        table.insert(name.to_string(), *count);
    }
    ExtensionContentInfo::new(lines, lines, table)
}

fn names<V>(map: &NameMap<V>) -> Vec<String> {
    (0..map.len()).map(|i| map.name_at(i).clone()).collect()
}

#[test]
fn extensions_without_files_leave_both_tables() {
    let mut m = metadata(&[("java", 3, 100), ("py", 0, 0), ("cs", 1, 5), ("rs", 0, 0)]);
    let mut c = content(&[("rs", 0), ("java", 30), ("cs", 10), ("py", 0)]);
    remove_extensions_with_0_files(&mut c, &mut m);
    assert_eq!(names(&m), vec!["java", "cs"]);
    assert_eq!(names(&c), vec!["java", "cs"]);
    assert_eq!(m.get("java"), Some(&ExtensionMetadata::new(3, 100)));
    assert_eq!(c.get("cs").unwrap().lines, 10);
}

#[test]
fn tables_without_empty_extensions_stay_as_they_are() {
    let mut m = metadata(&[("java", 3, 100), ("cs", 1, 5)]);
    let mut c = content(&[("java", 30), ("cs", 10), ("extra", 1)]);
    remove_extensions_with_0_files(&mut c, &mut m);
    assert_eq!(names(&m), vec!["java", "cs"]);
    assert_eq!(names(&c), vec!["java", "cs", "extra"]);
}

#[test]
fn names_are_sorted_by_ten_per_file_and_one_per_byte() {
    let m = metadata(&[("a", 1, 100), ("b", 20, 0), ("c", 2, 91), ("d", 0, 500)]);
    let sorted = get_extension_names_as_sorted_vec_according_to_how_much_they_appeared(&m);
    assert_eq!(sorted, vec!["d", "b", "c", "a"]);
}

#[test]
fn names_of_equal_weight_keep_the_order_of_the_table() {
    let m = metadata(&[("a", 1, 0), ("b", 0, 10), ("c", 5, 0), ("d", 1, 0)]);
    let sorted = get_extension_names_as_sorted_vec_according_to_how_much_they_appeared(&m);
    assert_eq!(sorted, vec!["c", "a", "b", "d"]);
    let none = get_extension_names_as_sorted_vec_according_to_how_much_they_appeared(&metadata(&[]));
    assert!(none.is_empty());
}

#[test]
fn a_report_lists_the_extensions_with_files_by_weight() {
    let mut m = metadata(&[("java", 3, 100), ("py", 0, 0), ("cs", 10, 500), ("rs", 1, 1)]);
    let mut c = content(&[("java", 30), ("py", 0), ("cs", 10), ("rs", 3)]);
    let sorted = format_and_print_results(&mut c, &mut m);
    assert_eq!(sorted, vec!["cs", "java", "rs"]);
    assert_eq!(names(&m), vec!["java", "cs", "rs"]);
    assert_eq!(names(&c), vec!["java", "cs", "rs"]);
}

#[test]
fn keyword_sums_hold_the_keywords_that_occurred() {
    let mut c: NameMap<ExtensionContentInfo> = NameMap::new();
    c.insert("java".to_string(), with_keywords(10, &[("classes", 3), ("interfaces", 0), ("loops", 2)]));
    c.insert("py".to_string(), with_keywords(5, &[("classes", 4), ("lambdas", 1), ("zero", 0)]));
    c.insert("cs".to_string(), with_keywords(5, &[("interfaces", 0), ("loops", 7)]));
    let sums = create_keyword_sum_map(&c);
    assert_eq!(sums.len(), 3);
    assert_eq!(sums.get("classes"), Some(&7));
    assert_eq!(sums.get("loops"), Some(&9));
    assert_eq!(sums.get("lambdas"), Some(&1));
    assert_eq!(sums.get("interfaces"), None);
    assert_eq!(sums.get("zero"), None);
    assert_eq!(names(&sums), vec!["classes", "loops", "lambdas"]);
}

#[test]
fn keyword_sums_of_nothing_are_empty() {
    let sums = create_keyword_sum_map(&NameMap::new());
    assert!(sums.is_empty());
    let sums = create_keyword_sum_map(&content(&[("a", 5)]));
    assert!(sums.is_empty());
}

#[test]
fn sums_of_files_lines_and_bytes() {
    let m = metadata(&[("a", 1, 100), ("b", 20, 0), ("c", 2, 91)]);
    let c = content(&[("a", 10), ("b", 200), ("c", 3000)]);
    assert_eq!(get_files_lines_size(&c, &m), (23, 3210, 191));
    assert_eq!(get_files_lines_size(&NameMap::new(), &NameMap::new()), (0, 0, 0));
}

#[test]
fn of_more_than_four_extensions_three_stay_and_the_rest_are_others() {
    let mut sorted: Vec<String> =
        ["a", "b", "c", "d", "e", "f"].iter().map(|s| s.to_string()).collect();
    let mut m = metadata(&[("f", 1, 1), ("e", 2, 2), ("d", 3, 3), ("c", 4, 4), ("b", 5, 5), ("a", 6, 6)]);
    let mut c = content(&[("a", 60), ("b", 50), ("c", 40), ("d", 30), ("e", 20), ("f", 10)]);
    retain_most_relevant_and_add_others_field_for_rest(&mut sorted, &mut c, &mut m);
    assert_eq!(sorted, vec!["a", "b", "c", "others"]);
    assert_eq!(names(&m), vec!["c", "b", "a", "others"]);
    assert_eq!(names(&c), vec!["a", "b", "c", "others"]);
    assert_eq!(m.get("others"), Some(&ExtensionMetadata::new(6, 6)));
    assert_eq!(m.get("a"), Some(&ExtensionMetadata::new(6, 6)));
    let others = c.get("others").unwrap();
    assert_eq!(others.lines, 60);
    assert_eq!(others.code_lines, 0);
    assert!(others.keyword_occurences.is_empty());
    assert_eq!(c.get("b").unwrap().lines, 50);
}

#[test]
fn of_four_names_or_fewer_all_stay_and_others_is_empty() {
    let mut sorted: Vec<String> = ["a", "b"].iter().map(|s| s.to_string()).collect();
    let mut m = metadata(&[("a", 6, 6), ("b", 5, 5)]);
    let mut c = content(&[("a", 60), ("b", 50)]);
    retain_most_relevant_and_add_others_field_for_rest(&mut sorted, &mut c, &mut m);
    assert_eq!(sorted, vec!["a", "b"]);
    assert_eq!(names(&m), vec!["a", "b", "others"]);
    assert_eq!(m.get("others"), Some(&ExtensionMetadata::new(0, 0)));
    assert_eq!(c.get("others").unwrap().lines, 0);
}

#[test]
fn an_extension_named_others_is_replaced() {
    let mut sorted: Vec<String> =
        ["a", "b", "c", "d", "others"].iter().map(|s| s.to_string()).collect();
    let mut m = metadata(&[("a", 9, 9), ("others", 1, 1), ("b", 8, 8), ("c", 7, 7), ("d", 6, 6)]);
    let mut c = content(&[("a", 9), ("b", 8), ("c", 7), ("d", 6), ("others", 1)]);
    retain_most_relevant_and_add_others_field_for_rest(&mut sorted, &mut c, &mut m);
    assert_eq!(sorted, vec!["a", "b", "c", "others"]);
    assert_eq!(names(&m), vec!["a", "others", "b", "c"]);
    assert_eq!(m.get("others"), Some(&ExtensionMetadata::new(6, 6)));
    assert_eq!(c.get("others").unwrap().lines, 6);
}
