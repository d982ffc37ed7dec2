//! Text with terminal colours. The colouring itself is the work of the
//! `colored` crate; whether it writes escape codes at all, and which, depends
//! on the terminal and the environment. What is stated here is what holds
//! whatever the terminal: a painted text holds the text itself, whole and
//! unchanged, and the painted texts go where the report wants them.

use colored::Colorize;
use vstd::prelude::*;
use vstd::string::StringExecFns;
use crate::coordinator::ParseFilesError;
use crate::domain::texts;
use crate::name_map::NameMap;
use crate::text::{append_repeated, repeated, separated, str_eq, with_seperators};

verus! {

/// Whether a text holds the character that starts an escape sequence.
pub open spec fn has_escape(text: Seq<char>) -> bool {
    text.contains('\x1b')
}

/// Whether `painted` is `text` with something before it and something behind
/// it.
pub open spec fn wraps(text: Seq<char>, painted: Seq<char>) -> bool {
    exists|before: Seq<char>, after: Seq<char>| painted == before + text + after
}

/// What holds of a painted text whatever the terminal: a text without an
/// escape character stands in it whole and unchanged. Whether anything stands
/// around it, and what, is the terminal's matter.
pub open spec fn shows(text: Seq<char>, painted: Seq<char>) -> bool {
    !has_escape(text) ==> wraps(text, painted)
}

/// `Colorize::yellow` of a string slice, written out by `to_string`.
/// `ColoredString`'s `Display` writes the text itself where colouring is off,
/// and else a style sequence, the text and a reset sequence; it rewrites the
/// text only where the text holds a reset sequence of its own. So a text
/// without an escape character stands whole in the result.
#[verifier::external_body]
fn yellow(text: &str) -> (painted: String)
    ensures
        shows(text@, painted@),
{
    text.yellow().to_string()
}

/// `Colorize::cyan` of a string slice, written out by `to_string`: a text
/// without an escape character stands whole in the result, as for `yellow`.
#[verifier::external_body]
fn cyan(text: &str) -> (painted: String)
    ensures
        shows(text@, painted@),
{
    text.cyan().to_string()
}

/// `Colorize::bright_magenta` of a string slice, written out by `to_string`:
/// a text without an escape character stands whole in the result, as for
/// `yellow`.
#[verifier::external_body]
fn bright_magenta(text: &str) -> (painted: String)
    ensures
        shows(text@, painted@),
{
    text.bright_magenta().to_string()
}

/// `Colorize::bright_yellow` of a string slice, written out by `to_string`:
/// a text without an escape character stands whole in the result, as for
/// `yellow`.
#[verifier::external_body]
fn bright_yellow(text: &str) -> (painted: String)
    ensures
        shows(text@, painted@),
{
    text.bright_yellow().to_string()
}

/// `Colorize::truecolor` of a string slice, written out by `to_string`: a
/// text without an escape character stands whole in the result, as for
/// `yellow`. Which colour code is written depends on the terminal's colour
/// depth.
#[verifier::external_body]
fn truecolor(text: &str, r: u8, g: u8, b: u8) -> (painted: String)
    ensures
        shows(text@, painted@),
{
    text.truecolor(r, g, b).to_string()
}

/// `Colorize::italic` of a string slice and `Colorize::truecolor` of what it
/// gives, written out by `to_string`: a text without an escape character
/// stands whole in the result, as for `yellow`.
#[verifier::external_body]
fn italic_truecolor(text: &str, r: u8, g: u8, b: u8) -> (painted: String)
    ensures
        shows(text@, painted@),
{
    text.italic().truecolor(r, g, b).to_string()
}

/// A word as labels are shown: in italics, in the colour of the given red,
/// green and blue parts.
#[derive(Debug, PartialEq, Eq)]
pub struct LabelWord {
    pub text: String,
    pub red: u8,
    pub green: u8,
    pub blue: u8,
}

/// What a `LabelWord` holds, as plain values.
pub struct LabelWordView {
    pub text: Seq<char>,
    pub red: u8,
    pub green: u8,
    pub blue: u8,
}

impl View for LabelWord {
    type V = LabelWordView;

    open spec fn view(&self) -> LabelWordView {
        LabelWordView { text: self.text@, red: self.red, green: self.green, blue: self.blue }
    }
}

impl LabelWord {
    /// The word for the terminal: in italics and in its colour where the
    /// terminal takes colours.
    pub fn rendered(&self) -> (painted: String)
        ensures
            shows(self.text@, painted@),
    {
        italic_truecolor(self.text.as_str(), self.red, self.green, self.blue)
    }
}

/// A word of a report as a label: the word itself, in the colour of labels.
pub fn colored_word(word: &str) -> (label: LabelWord)
    ensures
        label@ == (LabelWordView { text: word@, red: 181, green: 169, blue: 138 }),
{
    LabelWord { text: String::from_str(word), red: 181, green: 169, blue: 138 }
}

impl ParseFilesError {
    /// What the error says, before any note.
    pub open spec fn message(&self) -> Seq<char> {
        match self {
            ParseFilesError::NoRelevantFiles(_) => "No relevant files found in the given directory."@,
            ParseFilesError::AllAreFaultyFiles => "None of the files were able to be parsed"@,
        }
    }

    /// The error's text, given its message as painted: for a run without
    /// relevant files the note on the activated extensions follows the
    /// message.
    pub open spec fn framed(&self, painted: Seq<char>) -> Seq<char> {
        match self {
            ParseFilesError::NoRelevantFiles(note) => painted + note@,
            ParseFilesError::AllAreFaultyFiles => painted,
        }
    }

    /// What the error says, before any note.
    pub fn headline(&self) -> (text: &'static str)
        ensures
            text@ == self.message(),
    {
        match self {
            ParseFilesError::NoRelevantFiles(_) => "No relevant files found in the given directory.",
            ParseFilesError::AllAreFaultyFiles => "None of the files were able to be parsed",
        }
    }

    /// The error's text, given its message as painted.
    pub fn formatted_from(&self, painted: String) -> (text: String)
        ensures
            text@ == self.framed(painted@),
    {
        match self {
            ParseFilesError::NoRelevantFiles(note) => painted.concat(note.as_str()),
            ParseFilesError::AllAreFaultyFiles => painted,
        }
    }

    /// The error's text for the terminal: its message in yellow, then its
    /// note.
    pub fn formatted(&self) -> (text: String)
        ensures
            exists|painted: Seq<char>| text@ == self.framed(painted),
    {
        let painted = yellow(self.headline());
        let text = self.formatted_from(painted);
        assert(text@ == self.framed(painted@));
        text
    }
}

/// The colours of the overview.
#[derive(Clone, Copy, Debug, PartialEq, Eq)]
pub enum OverviewColor {
    Cyan,
    Magenta,
    Yellow,
    /// The colour of a fourth extension.
    Fourth,
    /// The colour of the entry for all other extensions.
    Others,
}

/// A text in a colour of the overview: cyan, bright magenta and bright
/// yellow for the first three entries, a green for a fourth extension, a
/// lilac for the entry of all other extensions. The text itself stands whole
/// in the result; the colour codes around it are the terminal's matter.
pub fn paint(color: OverviewColor, text: &str) -> (painted: String)
    ensures
        shows(text@, painted@),
{
    match color {
        OverviewColor::Cyan => cyan(text),
        OverviewColor::Magenta => bright_magenta(text),
        OverviewColor::Yellow => bright_yellow(text),
        OverviewColor::Fourth => truecolor(text, 106, 217, 189),
        OverviewColor::Others => truecolor(text, 215, 201, 240),
    }
}

/// The colours of the entries of the overview, in their order: the fourth
/// entry has a colour of its own where it stands for all other extensions.
pub fn overview_colors(sorted_extension_names: &Vec<String>) -> (colors: Vec<OverviewColor>)
    requires
        sorted_extension_names.len() >= 1,
    ensures
        colors@ == seq![
            OverviewColor::Cyan,
            OverviewColor::Magenta,
            OverviewColor::Yellow,
            if sorted_extension_names@.last()@ == "others"@ {
                OverviewColor::Others
            } else {
                OverviewColor::Fourth
            },
        ],
{
    let last = &sorted_extension_names[sorted_extension_names.len() - 1];
    let fourth = if str_eq(last.as_str(), "others") {
        OverviewColor::Others
    } else {
        OverviewColor::Fourth
    };
    let mut colors: Vec<OverviewColor> = Vec::new();
    colors.push(OverviewColor::Cyan);
    colors.push(OverviewColor::Magenta);
    colors.push(OverviewColor::Yellow);
    colors.push(fourth);
    assert(colors@ =~= seq![
        OverviewColor::Cyan,
        OverviewColor::Magenta,
        OverviewColor::Yellow,
        fourth,
    ]);
    colors
}

/// The strokes of the first `n` shares: for each share its stroke, as often
/// as the share says.
pub open spec fn bars_text(strokes: Seq<Seq<char>>, verticals: Seq<usize>, n: nat) -> Seq<char>
    decreases n,
{
    if n == 0 {
        Seq::empty()
    } else {
        bars_text(strokes, verticals, (n - 1) as nat) + repeated(
            strokes[n - 1],
            verticals[n - 1] as nat,
        )
    }
}

/// A line with the bar behind it, made of the given strokes.
pub open spec fn with_bar(line: Seq<char>, strokes: Seq<Seq<char>>, verticals: Seq<usize>) -> Seq<
    char,
> {
    line + "    [-"@ + bars_text(strokes, verticals, verticals.len()) + "-]"@
}

/// Appends the bar to a line: for each share the stroke given for it, as
/// often as the share says, between `[-` and `-]`.
pub fn add_verticals_from(line: &mut String, files_verticals: &[usize], strokes: &Vec<String>)
    requires
        strokes.len() >= files_verticals.len(),
    ensures
        final(line)@ == with_bar(old(line)@, texts(strokes@), files_verticals@),
{
    let ghost start = line@;
    let ghost shapes = texts(strokes@);
    line.append("    [-");
    let mut i: usize = 0;
    assert(line@ =~= start + "    [-"@ + bars_text(shapes, files_verticals@, 0));
    while i < files_verticals.len()
        invariant
            i <= files_verticals.len(),
            strokes.len() >= files_verticals.len(),
            shapes == texts(strokes@),
            line@ == start + "    [-"@ + bars_text(shapes, files_verticals@, i as nat),
        decreases files_verticals.len() - i,
    {
        append_repeated(line, strokes[i].as_str(), files_verticals[i]);
        assert(line@ =~= start + "    [-"@ + bars_text(shapes, files_verticals@, (i + 1) as nat));
        i += 1;
    }
    line.append("-]");
}

/// Appends the bar to a line, each share's strokes in the colour of its
/// place. The strokes are painted `|`; what a painted stroke looks like is
/// left to the terminal.
pub fn add_verticals_str(line: &mut String, files_verticals: &[usize], colors: &Vec<OverviewColor>)
    requires
        colors.len() >= files_verticals.len(),
    ensures
        exists|strokes: Seq<Seq<char>>|
            strokes.len() == files_verticals.len() && final(line)@ == with_bar(
                old(line)@,
                strokes,
                files_verticals@,
            ),
{
    let mut strokes: Vec<String> = Vec::new();
    let mut i: usize = 0;
    while i < files_verticals.len()
        invariant
            i <= files_verticals.len(),
            colors.len() >= files_verticals.len(),
            strokes.len() == i,
        decreases files_verticals.len() - i,
    {
        strokes.push(paint(colors[i], "|"));
        i += 1;
    }
    add_verticals_from(line, files_verticals, &strokes);
    assert(texts(strokes@).len() == files_verticals.len());
}

/// How far the line of keywords is indented, before the width of the widest
/// file count is added.
pub const KEYWORD_LINE_OFFSET: usize = 20;

/// The first `n` keywords as text: each as its painted name, a colon and its
/// count; the first indented, the others behind ` , `.
pub open spec fn keywords_text(
    painted: Seq<Seq<char>>,
    counts: Seq<usize>,
    indent: nat,
    n: nat,
) -> Seq<char>
    decreases n,
{
    if n == 0 {
        Seq::empty()
    } else if n == 1 {
        repeated(" "@, indent) + painted[0] + ": "@ + separated(counts[0] as nat)
    } else {
        keywords_text(painted, counts, indent, (n - 1) as nat) + " , "@ + painted[n - 1] + ": "@
            + separated(counts[n - 1] as nat)
    }
}

/// The line of keywords of a report, given the keyword names as painted.
pub fn keywords_line(
    painted: &Vec<String>,
    keyword_occurencies: &NameMap<usize>,
    max_files_num_size: usize,
) -> (line: String)
    requires
        keyword_occurencies.wf(),
        painted.len() == keyword_occurencies.names().len(),
        KEYWORD_LINE_OFFSET + max_files_num_size <= usize::MAX,
    ensures
        line@ == keywords_text(
            texts(painted@),
            keyword_occurencies.values(),
            (KEYWORD_LINE_OFFSET + max_files_num_size) as nat,
            painted.len() as nat,
        ),
{
    let ghost names = texts(painted@);
    let ghost counts = keyword_occurencies.values();
    let ghost indent = (KEYWORD_LINE_OFFSET + max_files_num_size) as nat;
    let n = keyword_occurencies.len();
    let mut line = String::new();
    if n > 0 {
        append_repeated(&mut line, " ", KEYWORD_LINE_OFFSET + max_files_num_size);
        line.append(painted[0].as_str());
        line.append(": ");
        line.append(with_seperators(*keyword_occurencies.value_at(0)).as_str());
        assert(line@ =~= keywords_text(names, counts, indent, 1));
        let mut i: usize = 1;
        while i < n
            invariant
                1 <= i <= n,
                n == painted.len(),
                n == counts.len(),
                names == texts(painted@),
                counts == keyword_occurencies.values(),
                line@ == keywords_text(names, counts, indent, i as nat),
            decreases n - i,
        {
            line.append(" , ");
            line.append(painted[i].as_str());
            line.append(": ");
            line.append(with_seperators(*keyword_occurencies.value_at(i)).as_str());
            assert(line@ =~= keywords_text(names, counts, indent, (i + 1) as nat));
            i += 1;
        }
    }
    line
}

/// The line of keywords of a report: every keyword with its count, the names
/// in the colour of labels. What a painted name looks like is left to the
/// terminal.
pub fn get_keywords_as_str(keyword_occurencies: &NameMap<usize>, max_files_num_size: usize) -> (line:
    String)
    requires
        keyword_occurencies.wf(),
        KEYWORD_LINE_OFFSET + max_files_num_size <= usize::MAX,
    ensures
        exists|painted: Seq<Seq<char>>|
            painted.len() == keyword_occurencies.names().len() && line@ == #[trigger] keywords_text(
                painted,
                keyword_occurencies.values(),
                (KEYWORD_LINE_OFFSET + max_files_num_size) as nat,
                keyword_occurencies.names().len(),
            ),
{
    let n = keyword_occurencies.len();
    let mut painted: Vec<String> = Vec::new();
    let mut i: usize = 0;
    while i < n
        invariant
            i <= n,
            n == keyword_occurencies.names().len(),
            painted.len() == i,
        decreases n - i,
    {
        painted.push(colored_word(keyword_occurencies.name_at(i).as_str()).rendered());
        i += 1;
    }
    let line = keywords_line(&painted, keyword_occurencies, max_files_num_size);
    assert(texts(painted@).len() == n);
    line
}

} // verus!
