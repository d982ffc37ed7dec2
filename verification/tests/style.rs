use source_stats::coordinator::ParseFilesError;
use source_stats::name_map::NameMap;
use source_stats::style::{
    add_verticals_from, add_verticals_str, colored_word, get_keywords_as_str, keywords_line,
    overview_colors, paint, LabelWord, OverviewColor,
};

fn keywords(entries: &[(&str, usize)]) -> NameMap<usize> {
    let mut map: NameMap<usize> = NameMap::new();
    for (name, count) in entries.iter() {
        map.insert(name.to_string(), *count);
    }
    map
}

#[test]
fn headline_of_each_error() {
    let none = ParseFilesError::NoRelevantFiles("x".to_string());
    assert_eq!(none.headline(), "No relevant files found in the given directory.");
    assert_eq!(ParseFilesError::AllAreFaultyFiles.headline(), "None of the files were able to be parsed");
}

#[test]
fn the_note_follows_the_painted_message() {
    let none = ParseFilesError::NoRelevantFiles("\n(Activated extensions: rs)".to_string());
    assert_eq!(none.formatted_from("<msg>".to_string()), "<msg>\n(Activated extensions: rs)");
    assert_eq!(ParseFilesError::AllAreFaultyFiles.formatted_from("<msg>".to_string()), "<msg>");
}

#[test]
fn formatted_without_colours_is_the_plain_text() {
    colored::control::set_override(false);
    let none = ParseFilesError::NoRelevantFiles("\n(Activated extensions: rs, py)".to_string());
    assert_eq!(
        none.formatted(),
        "No relevant files found in the given directory.\n(Activated extensions: rs, py)"
    );
    assert_eq!(
        ParseFilesError::NoRelevantFiles(String::new()).formatted(),
        "No relevant files found in the given directory."
    );
    assert_eq!(
        ParseFilesError::AllAreFaultyFiles.formatted(),
        "None of the files were able to be parsed"
    );
}

#[test]
fn formatted_with_colours_paints_the_message_yellow() {
    colored::control::set_override(true);
    let none = ParseFilesError::NoRelevantFiles("\n(note)".to_string());
    assert_eq!(
        none.formatted(),
        "\u{1b}[33mNo relevant files found in the given directory.\u{1b}[0m\n(note)"
    );
    assert_eq!(
        ParseFilesError::AllAreFaultyFiles.formatted(),
        "\u{1b}[33mNone of the files were able to be parsed\u{1b}[0m"
    );
}

#[test]
fn colored_word_is_the_word_in_the_colour_of_labels() {
    let label = colored_word("files");
    assert_eq!(label, LabelWord { text: "files".to_string(), red: 181, green: 169, blue: 138 });
    let empty = colored_word("");
    assert_eq!(empty.text, "");
    assert_eq!((empty.red, empty.green, empty.blue), (181, 169, 138));
}

#[test]
fn a_label_is_rendered_italic_in_its_colour() {
    colored::control::set_override(true);
    let word = colored_word("files").rendered();
    assert!(word.starts_with("\u{1b}[3;"));
    assert!(word.ends_with("mfiles\u{1b}[0m"));
    colored::control::set_override(false);
    assert_eq!(colored_word("files").rendered(), "files");
}

#[test]
fn painting_keeps_the_text_whole() {
    let colors = [
        OverviewColor::Cyan,
        OverviewColor::Magenta,
        OverviewColor::Yellow,
        OverviewColor::Fourth,
        OverviewColor::Others,
    ];
    for on in [true, false] {
        colored::control::set_override(on);
        for color in colors.iter() {
            for text in ["|", "java", "", "größe .x"] {
                let painted = paint(*color, text);
                assert!(painted.contains(text));
                assert_eq!(painted == text, !on);
            }
        }
        assert!(colored_word("lines").rendered().contains("lines"));
    }
}

#[test]
fn paint_uses_the_colours_of_the_overview() {
    colored::control::set_override(true);
    assert_eq!(paint(OverviewColor::Cyan, "|"), "\u{1b}[36m|\u{1b}[0m");
    assert_eq!(paint(OverviewColor::Magenta, "|"), "\u{1b}[95m|\u{1b}[0m");
    assert_eq!(paint(OverviewColor::Yellow, "|"), "\u{1b}[93m|\u{1b}[0m");
    let fourth = paint(OverviewColor::Fourth, "|");
    assert!(fourth.starts_with("\u{1b}[") && fourth.ends_with("m|\u{1b}[0m"));
    let others = paint(OverviewColor::Others, "|");
    assert!(others.starts_with("\u{1b}[") && others.ends_with("m|\u{1b}[0m"));
    colored::control::set_override(false);
    assert_eq!(paint(OverviewColor::Cyan, "java"), "java");
}

#[test]
fn the_fourth_colour_depends_on_the_last_name() {
    let plain: Vec<String> = ["a", "b", "c", "d"].iter().map(|s| s.to_string()).collect();
    assert_eq!(
        overview_colors(&plain),
        vec![OverviewColor::Cyan, OverviewColor::Magenta, OverviewColor::Yellow, OverviewColor::Fourth]
    );
    let rest: Vec<String> = ["a", "b", "c", "others"].iter().map(|s| s.to_string()).collect();
    assert_eq!(
        overview_colors(&rest),
        vec![OverviewColor::Cyan, OverviewColor::Magenta, OverviewColor::Yellow, OverviewColor::Others]
    );
    let one: Vec<String> = vec!["others".to_string()];
    assert_eq!(overview_colors(&one)[3], OverviewColor::Others);
}

#[test]
fn the_bar_repeats_each_stroke_as_often_as_its_share() {
    let strokes: Vec<String> = ["a", "b", "c"].iter().map(|s| s.to_string()).collect();
    let mut line = String::from("Files:");
    add_verticals_from(&mut line, &[2, 0, 3], &strokes);
    assert_eq!(line, "Files:    [-aaccc-]");
    let mut line = String::new();
    add_verticals_from(&mut line, &[], &strokes);
    assert_eq!(line, "    [-" .to_string() + "-]");
    let mut line = String::from("x");
    add_verticals_from(&mut line, &[1, 1], &strokes);
    assert_eq!(line, "x    [-ab-]");
}

#[test]
fn the_bar_without_colours_is_made_of_plain_strokes() {
    colored::control::set_override(false);
    let colors = vec![OverviewColor::Cyan, OverviewColor::Magenta, OverviewColor::Yellow, OverviewColor::Fourth];
    let mut line = String::from("Size :");
    add_verticals_str(&mut line, &[3, 1, 0, 2], &colors);
    assert_eq!(line, "Size :    [-||||||-]");
}

#[test]
fn the_bar_with_colours_paints_each_share() {
    colored::control::set_override(true);
    let colors = vec![OverviewColor::Cyan, OverviewColor::Magenta];
    let mut line = String::new();
    add_verticals_str(&mut line, &[2, 1], &colors);
    assert_eq!(line, "    [-\u{1b}[36m|\u{1b}[0m\u{1b}[36m|\u{1b}[0m\u{1b}[95m|\u{1b}[0m-]");
}

#[test]
fn the_line_of_keywords_from_painted_names() {
    let painted: Vec<String> = ["<classes>", "<loops>", "<x>"].iter().map(|s| s.to_string()).collect();
    let line = keywords_line(&painted, &keywords(&[("classes", 1234), ("loops", 5), ("x", 1000000)]), 2);
    assert_eq!(
        line,
        " ".repeat(22) + "<classes>: 1,234 , <loops>: 5 , <x>: 1,000,000"
    );
    let one = keywords_line(&vec!["k".to_string()], &keywords(&[("k", 0)]), 0);
    assert_eq!(one, " ".repeat(20) + "k: 0");
    assert_eq!(keywords_line(&Vec::new(), &keywords(&[]), 5), "");
}

#[test]
fn the_line_of_keywords_without_colours() {
    colored::control::set_override(false);
    let line = get_keywords_as_str(&keywords(&[("classes", 12), ("interfaces", 3456)]), 1);
    assert_eq!(line, " ".repeat(21) + "classes: 12 , interfaces: 3,456");
    assert_eq!(get_keywords_as_str(&keywords(&[]), 3), "");
}

#[test]
fn the_line_of_keywords_with_colours() {
    colored::control::set_override(true);
    let line = get_keywords_as_str(&keywords(&[("classes", 12)]), 0);
    assert!(line.starts_with(&(" ".repeat(20) + "\u{1b}[3;")));
    assert!(line.ends_with("mclasses\u{1b}[0m: 12"));
}
