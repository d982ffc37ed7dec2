use source_stats::classifier::{
    block_comments_enabled, classify, classify_text, is_usable, slice_is, symbol_at, ClassifyError,
};
use source_stats::domain::{Extension, FileStats, Keyword};

fn keyword(name: &str, aliases: &[&str]) -> Keyword {
    Keyword {
        descriptive_name: name.to_string(),
        aliases: aliases.iter().map(|a| a.to_string()).collect(),
    }
}

fn c_like() -> Extension {
    Extension {
        name: "c".to_string(),
        string_symbols: vec!["\"".to_string(), "'".to_string()],
        comment_symbol: "//".to_string(),
        mutliline_comment_start_symbol: Some("/*".to_string()),
        mutliline_comment_end_symbol: Some("*/".to_string()),
        keywords: vec![
            keyword("conditions", &["if", "else"]),
            keyword("loops", &["for", "while"]),
        ],
    }
}

fn python_like() -> Extension {
    Extension {
        name: "py".to_string(),
        string_symbols: vec!["\"".to_string(), "'".to_string()],
        comment_symbol: "#".to_string(),
        mutliline_comment_start_symbol: Some("\"\"\"".to_string()),
        mutliline_comment_end_symbol: Some("\"\"\"".to_string()),
        keywords: vec![keyword("classes", &["class"])],
    }
}

fn count(stats: &FileStats, name: &str) -> usize {
    *stats.keyword_occurences.get(name).unwrap()
}

fn scan(text: &str, ext: &Extension) -> FileStats {
    classify_text(text.as_bytes(), ext)
}

#[test]
fn empty_file_has_no_lines() {
    let stats = scan("", &c_like());
    assert_eq!(stats.lines, 0);
    assert_eq!(stats.code_lines, 0);
    assert_eq!(count(&stats, "conditions"), 0);
    assert_eq!(count(&stats, "loops"), 0);
}

#[test]
fn all_blank_file_has_lines_but_no_code() {
    let stats = scan("\n   \n\t\t\n \r\n", &c_like());
    assert_eq!(stats.lines, 4);
    assert_eq!(stats.code_lines, 0);
}

#[test]
fn blank_file_without_final_line_end_counts_its_last_line() {
    let stats = scan("\n\n   ", &c_like());
    assert_eq!(stats.lines, 3);
    assert_eq!(stats.code_lines, 0);
}

#[test]
fn a_single_line_end_is_one_line() {
    let stats = scan("\n", &c_like());
    assert_eq!(stats.lines, 1);
    assert_eq!(stats.code_lines, 0);
}

#[test]
fn last_line_without_line_end_is_counted() {
    let stats = scan("a\nb", &c_like());
    assert_eq!(stats.lines, 2);
    assert_eq!(stats.code_lines, 2);
    let stats = scan("a\nb\n", &c_like());
    assert_eq!(stats.lines, 2);
    assert_eq!(stats.code_lines, 2);
}

#[test]
fn trailing_line_comment_counts_the_line_as_code_once() {
    let stats = scan("x = 1; // note\n", &c_like());
    assert_eq!(stats.lines, 1);
    assert_eq!(stats.code_lines, 1);
}

#[test]
fn line_of_comment_only_is_not_code() {
    let stats = scan("// nothing here\n   // nor here\nint x;\n", &c_like());
    assert_eq!(stats.lines, 3);
    assert_eq!(stats.code_lines, 1);
}

#[test]
fn keyword_in_line_comment_is_not_counted() {
    let ext = Extension {
        name: "x".to_string(),
        string_symbols: vec![],
        comment_symbol: "//".to_string(),
        mutliline_comment_start_symbol: None,
        mutliline_comment_end_symbol: None,
        keywords: vec![keyword("if", &["if"])],
    };
    let stats = scan("x = 1; // if false", &ext);
    assert_eq!(stats.lines, 1);
    assert_eq!(stats.code_lines, 1);
    assert_eq!(count(&stats, "if"), 0);
}

#[test]
fn keyword_in_string_is_not_counted() {
    let stats = scan("s = \"if else for\"; if (x) {}\n", &c_like());
    assert_eq!(stats.code_lines, 1);
    assert_eq!(count(&stats, "conditions"), 1);
    assert_eq!(count(&stats, "loops"), 0);
}

#[test]
fn keyword_in_block_comment_is_not_counted() {
    let stats = scan("/* if while */ for (;;) {}\n", &c_like());
    assert_eq!(stats.code_lines, 1);
    assert_eq!(count(&stats, "conditions"), 0);
    assert_eq!(count(&stats, "loops"), 1);
}

#[test]
fn keywords_are_whole_words() {
    let stats = scan("iffy elsewhere format if_ _for if(x) else{ for;while\n", &c_like());
    assert_eq!(count(&stats, "conditions"), 2);
    assert_eq!(count(&stats, "loops"), 2);
}

#[test]
fn aliases_count_under_the_descriptive_name() {
    let stats = scan("if a\nelse b\nwhile c\n", &c_like());
    assert_eq!(stats.lines, 3);
    assert_eq!(stats.code_lines, 3);
    assert_eq!(count(&stats, "conditions"), 2);
    assert_eq!(count(&stats, "loops"), 1);
}

#[test]
fn block_comment_over_several_lines_adds_no_code() {
    let text = "int a;\n/* one\n   two if\n   three */\nint b;\n";
    let stats = scan(text, &c_like());
    assert_eq!(stats.lines, 5);
    assert_eq!(stats.code_lines, 2);
    assert_eq!(count(&stats, "conditions"), 0);
}

#[test]
fn block_comment_boundary_lines_count_when_code_stands_outside() {
    let text = "int a; /* starts\n middle\n ends */ int b;\n";
    let stats = scan(text, &c_like());
    assert_eq!(stats.lines, 3);
    assert_eq!(stats.code_lines, 2);
}

#[test]
fn block_comment_boundary_lines_without_code_are_not_code() {
    let text = "  /* starts\n middle\n ends */  \n";
    let stats = scan(text, &c_like());
    assert_eq!(stats.lines, 3);
    assert_eq!(stats.code_lines, 0);
}

#[test]
fn unterminated_block_comment_runs_to_the_end() {
    let text = "int a;\n/* never closed\nif (x)\nwhile (y)\n";
    let stats = scan(text, &c_like());
    assert_eq!(stats.lines, 4);
    assert_eq!(stats.code_lines, 1);
    assert_eq!(count(&stats, "conditions"), 0);
    assert_eq!(count(&stats, "loops"), 0);
}

#[test]
fn unterminated_string_closes_at_the_end_of_its_line() {
    let text = "s = \"never closed\nif (x)\n";
    let stats = scan(text, &c_like());
    assert_eq!(stats.lines, 2);
    assert_eq!(stats.code_lines, 2);
    assert_eq!(count(&stats, "conditions"), 1);
}

#[test]
fn escaped_delimiter_does_not_close_a_string() {
    let text = "s = \"a \\\" if \\\" b\"; else\n";
    let stats = scan(text, &c_like());
    assert_eq!(stats.code_lines, 1);
    assert_eq!(count(&stats, "conditions"), 1);
}

#[test]
fn escaped_backslash_does_not_protect_the_delimiter() {
    let text = "s = \"a\\\\\"; if\n";
    let stats = scan(text, &c_like());
    assert_eq!(count(&stats, "conditions"), 1);
}

#[test]
fn string_delimiters_close_only_their_own_kind() {
    let text = "s = \"it's if\"; t = 'say \"for\"';\n";
    let stats = scan(text, &c_like());
    assert_eq!(stats.code_lines, 1);
    assert_eq!(count(&stats, "conditions"), 0);
    assert_eq!(count(&stats, "loops"), 0);
}

#[test]
fn line_of_string_only_is_not_code() {
    let stats = scan("  \"only text\"  \n", &c_like());
    assert_eq!(stats.lines, 1);
    assert_eq!(stats.code_lines, 0);
}

#[test]
fn comment_marker_in_string_is_text() {
    let stats = scan("s = \"// not a comment\"; if\n", &c_like());
    assert_eq!(stats.code_lines, 1);
    assert_eq!(count(&stats, "conditions"), 1);
}

#[test]
fn string_delimiter_in_comment_is_text() {
    let stats = scan("// it's\nif\n", &c_like());
    assert_eq!(stats.lines, 2);
    assert_eq!(stats.code_lines, 1);
    assert_eq!(count(&stats, "conditions"), 1);
}

#[test]
fn block_marker_takes_precedence_over_string_delimiter() {
    let text = "\"\"\"\nclass in a docstring\n\"\"\"\nclass A:\n";
    let stats = scan(text, &python_like());
    assert_eq!(stats.lines, 4);
    assert_eq!(stats.code_lines, 1);
    assert_eq!(count(&stats, "classes"), 1);
}

#[test]
fn languages_without_block_comments_read_the_markers_as_code() {
    let ext = Extension {
        name: "sh".to_string(),
        string_symbols: vec!["\"".to_string()],
        comment_symbol: "#".to_string(),
        mutliline_comment_start_symbol: None,
        mutliline_comment_end_symbol: None,
        keywords: vec![keyword("conditions", &["if"])],
    };
    assert!(!block_comments_enabled(&ext));
    let stats = scan("/* if */\n# if\n", &ext);
    assert_eq!(stats.lines, 2);
    assert_eq!(stats.code_lines, 1);
    assert_eq!(count(&stats, "conditions"), 1);
}

#[test]
fn block_start_without_end_is_not_recognised() {
    let mut ext = c_like();
    ext.mutliline_comment_end_symbol = None;
    assert!(!block_comments_enabled(&ext));
    let stats = scan("/* if\nif\n", &ext);
    assert_eq!(stats.code_lines, 2);
    assert_eq!(count(&stats, "conditions"), 2);
}

#[test]
fn empty_markers_are_never_recognised() {
    let ext = Extension {
        name: "t".to_string(),
        string_symbols: vec!["".to_string()],
        comment_symbol: "".to_string(),
        mutliline_comment_start_symbol: Some("".to_string()),
        mutliline_comment_end_symbol: Some("".to_string()),
        keywords: vec![keyword("conditions", &["if"])],
    };
    let stats = scan("if a\n\nif b\n", &ext);
    assert_eq!(stats.lines, 3);
    assert_eq!(stats.code_lines, 2);
    assert_eq!(count(&stats, "conditions"), 2);
}

#[test]
fn first_keyword_that_spells_a_word_counts_it() {
    let ext = Extension {
        name: "t".to_string(),
        string_symbols: vec![],
        comment_symbol: "#".to_string(),
        mutliline_comment_start_symbol: None,
        mutliline_comment_end_symbol: None,
        keywords: vec![keyword("first", &["a", "b"]), keyword("second", &["b", "c"])],
    };
    let stats = scan("a b c b\n", &ext);
    assert_eq!(count(&stats, "first"), 3);
    assert_eq!(count(&stats, "second"), 1);
}

#[test]
fn keywords_with_one_name_share_a_count() {
    let ext = Extension {
        name: "t".to_string(),
        string_symbols: vec![],
        comment_symbol: "#".to_string(),
        mutliline_comment_start_symbol: None,
        mutliline_comment_end_symbol: None,
        keywords: vec![keyword("k", &["a"]), keyword("k", &["b"])],
    };
    let stats = scan("a b a\n", &ext);
    assert_eq!(stats.keyword_occurences.len(), 1);
    assert_eq!(count(&stats, "k"), 3);
}

#[test]
fn words_outside_ascii_are_whole_words() {
    let ext = Extension {
        name: "t".to_string(),
        string_symbols: vec![],
        comment_symbol: "#".to_string(),
        mutliline_comment_start_symbol: None,
        mutliline_comment_end_symbol: None,
        keywords: vec![keyword("k", &["wenn", "größe"])],
    };
    let stats = scan("wenn größe wennö\n", &ext);
    assert_eq!(count(&stats, "k"), 2);
}

#[test]
fn classify_accepts_valid_text() {
    let r = classify("if (x) // if\n".as_bytes(), &c_like());
    let stats = r.unwrap();
    assert_eq!(stats.lines, 1);
    assert_eq!(stats.code_lines, 1);
    assert_eq!(count(&stats, "conditions"), 1);
}

#[test]
fn classify_refuses_invalid_encoding() {
    let bytes: Vec<u8> = vec![b'i', b'f', 0xff, 0xfe, b'\n'];
    let r = classify(&bytes, &c_like());
    assert_eq!(r, Err(ClassifyError::InvalidEncoding));
    let truncated: Vec<u8> = vec![0xe2, 0x82];
    assert_eq!(classify(&truncated, &c_like()), Err(ClassifyError::InvalidEncoding));
}

#[test]
fn symbol_at_matches_only_whole_markers_inside_the_text() {
    let text = "ab//cd".as_bytes();
    assert!(symbol_at(text, 2, "//".as_bytes()));
    assert!(!symbol_at(text, 1, "//".as_bytes()));
    assert!(!symbol_at(text, 5, "d/".as_bytes()));
    assert!(symbol_at(text, 5, "d".as_bytes()));
    assert!(!symbol_at(text, 6, "d".as_bytes()));
    assert!(!symbol_at(text, 0, "".as_bytes()));
}

#[test]
fn markers_with_a_line_end_are_not_usable() {
    assert!(is_usable("//".as_bytes()));
    assert!(!is_usable("".as_bytes()));
    assert!(!is_usable("a\nb".as_bytes()));
    assert!(!symbol_at("a\nb".as_bytes(), 0, "a\nb".as_bytes()));
}

#[test]
fn slice_is_compares_a_range_with_a_marker() {
    let text = "hello world".as_bytes();
    assert!(slice_is(text, 6, 11, "world".as_bytes()));
    assert!(!slice_is(text, 6, 10, "world".as_bytes()));
    assert!(!slice_is(text, 0, 5, "world".as_bytes()));
    assert!(slice_is(text, 3, 3, "".as_bytes()));
}
