use source_stats::text::{
    append_repeated, decimal_string, get_file_extension, str_eq, with_seperators,
};

#[test]
fn str_eq_compares_by_content() {
    assert!(str_eq("", ""));
    assert!(str_eq("abc", "abc"));
    assert!(!str_eq("abc", "abd"));
    assert!(!str_eq("abc", "ab"));
    assert!(str_eq("größe", "größe"));
    assert!(!str_eq("große", "größe"));
}

#[test]
fn extension_is_what_follows_the_last_dot_of_the_file_name() {
    assert_eq!(get_file_extension("src/main.rs"), Some("rs"));
    assert_eq!(get_file_extension("main.rs"), Some("rs"));
    assert_eq!(get_file_extension("a/b.c/d.tar.gz"), Some("gz"));
    assert_eq!(get_file_extension("/abs/path/Makefile.in"), Some("in"));
    assert_eq!(get_file_extension("dir/ünï.cödé"), Some("cödé"));
}

#[test]
fn paths_without_an_extension() {
    assert_eq!(get_file_extension(""), None);
    assert_eq!(get_file_extension("Makefile"), None);
    assert_eq!(get_file_extension("a.b/Makefile"), None);
    assert_eq!(get_file_extension(".bashrc"), None);
    assert_eq!(get_file_extension("home/.bashrc"), None);
    assert_eq!(get_file_extension("dir.d/"), None);
}

#[test]
fn a_dot_at_the_end_gives_an_empty_extension() {
    assert_eq!(get_file_extension("name."), Some(""));
    assert_eq!(get_file_extension(".hidden.txt"), Some("txt"));
}

#[test]
fn decimal_digits() {
    assert_eq!(decimal_string(0), "0");
    assert_eq!(decimal_string(7), "7");
    assert_eq!(decimal_string(10), "10");
    assert_eq!(decimal_string(9081726354), "9081726354");
}

#[test]
fn separators_stand_before_each_group_of_three() {
    assert_eq!(with_seperators(0), "0");
    assert_eq!(with_seperators(999), "999");
    assert_eq!(with_seperators(1000), "1,000");
    assert_eq!(with_seperators(1001), "1,001");
    assert_eq!(with_seperators(12345), "12,345");
    assert_eq!(with_seperators(100200), "100,200");
    assert_eq!(with_seperators(1234567), "1,234,567");
    assert_eq!(with_seperators(1000000000), "1,000,000,000");
}

#[test]
fn append_repeated_appends_as_often_as_told() {
    let mut line = String::from("x");
    append_repeated(&mut line, "ab", 3);
    assert_eq!(line, "xababab");
    append_repeated(&mut line, "c", 0);
    assert_eq!(line, "xababab");
    append_repeated(&mut line, "", 5);
    assert_eq!(line, "xababab");
}
