//! The lexical rules of the line classifier, as a state machine over the
//! bytes of a file.
//!
//! A scan walks the text once. It is in one of four modes: normal text, a
//! string literal, a line comment, a block comment. A line is a code line when
//! some byte of it that is neither blank nor part of a string or comment was
//! read in normal mode. A keyword is counted when a whole word read in normal
//! mode is one of its spellings.
//!
//! Which marker wins where several could be read is decided by the catalog
//! entry alone: the block markers are tried first, then the line comment
//! marker, then the string delimiters in the entry's order. A string literal
//! ends with its line at the latest. A delimiter whose text is to run over
//! several lines is entered as the pair of block markers; what stands between
//! them is neither code nor searched for keywords, as in a string.

use vstd::prelude::*;
use vstd::utf8::encode_utf8;
use crate::domain::{ExtensionView, KeywordView, StatsView, zero_counts};

verus! {

/// The byte that ends a line.
pub const NEWLINE: u8 = 10;

/// The byte that, inside a string literal, protects the byte after it.
pub const BACKSLASH: u8 = 92;

/// Space, tab, carriage return, vertical tab, form feed.
pub open spec fn is_blank(b: u8) -> bool {
    b == 32 || b == 9 || b == 13 || b == 11 || b == 12
}

/// A byte of a word: an ASCII letter or digit, an underscore, or a byte of a
/// character outside ASCII.
pub open spec fn is_word(b: u8) -> bool {
    (48 <= b <= 57) || (65 <= b <= 90) || (97 <= b <= 122) || b == 95 || b >= 128
}

/// The spellings of one keyword, as bytes, and the name they are counted under.
pub struct KeywordGrammar {
    pub name: Seq<char>,
    pub aliases: Seq<Seq<u8>>,
}

/// What the scanner reads of a language, as bytes. A language without block
/// comments has empty block markers.
pub struct Grammar {
    pub strings: Seq<Seq<u8>>,
    pub line_comment: Seq<u8>,
    pub block_start: Seq<u8>,
    pub block_end: Seq<u8>,
    pub keywords: Seq<KeywordGrammar>,
}

/// The bytes of an optional marker; none where it is absent.
pub open spec fn marker_bytes(marker: Option<Seq<char>>) -> Seq<u8> {
    match marker {
        Some(x) => encode_utf8(x),
        None => Seq::empty(),
    }
}

/// The grammar of one keyword.
pub open spec fn keyword_grammar(k: KeywordView) -> KeywordGrammar {
    KeywordGrammar {
        name: k.descriptive_name,
        aliases: k.aliases.map_values(|a: Seq<char>| encode_utf8(a)),
    }
}

/// The grammar that a catalog entry describes.
pub open spec fn grammar_of(ext: ExtensionView) -> Grammar {
    Grammar {
        strings: ext.string_symbols.map_values(|s: Seq<char>| encode_utf8(s)),
        line_comment: encode_utf8(ext.comment_symbol),
        block_start: marker_bytes(ext.mutliline_comment_start_symbol),
        block_end: marker_bytes(ext.mutliline_comment_end_symbol),
        keywords: ext.keywords.map_values(|k: KeywordView| keyword_grammar(k)),
    }
}

/// The names that the keywords of a grammar are counted under.
pub open spec fn counted_names(g: Grammar) -> Seq<Seq<char>> {
    g.keywords.map_values(|k: KeywordGrammar| k.name)
}

/// A marker can be recognised when it is not empty and stays within a line.
pub open spec fn usable(sym: Seq<u8>) -> bool {
    sym.len() > 0 && forall|j: int| 0 <= j < sym.len() ==> sym[j] != NEWLINE
}

/// Block comments are recognised when both markers can be.
pub open spec fn block_enabled(g: Grammar) -> bool {
    usable(g.block_start) && usable(g.block_end)
}

/// Whether the usable marker `sym` stands in `text` at `pos`.
pub open spec fn matches_at(text: Seq<u8>, pos: int, sym: Seq<u8>) -> bool {
    &&& usable(sym)
    &&& 0 <= pos
    &&& pos + sym.len() <= text.len()
    &&& forall|j: int| 0 <= j < sym.len() ==> text[pos + j] == sym[j]
}

/// The first string delimiter, from index `from` on, that stands in `text` at
/// `pos`; the number of delimiters where none does.
pub open spec fn first_string(strings: Seq<Seq<u8>>, text: Seq<u8>, pos: int, from: int) -> int
    decreases strings.len() - from,
{
    if from >= strings.len() {
        strings.len() as int
    } else if matches_at(text, pos, strings[from]) {
        from
    } else {
        first_string(strings, text, pos, from + 1)
    }
}

/// The first keyword, from index `from` on, that has `word` among its
/// spellings; the number of keywords where none has.
pub open spec fn keyword_of(keywords: Seq<KeywordGrammar>, word: Seq<u8>, from: int) -> int
    decreases keywords.len() - from,
{
    if from >= keywords.len() {
        keywords.len() as int
    } else if keywords[from].aliases.contains(word) {
        from
    } else {
        keyword_of(keywords, word, from + 1)
    }
}

/// Where the run of word bytes that covers `pos` ends.
pub open spec fn word_end(text: Seq<u8>, pos: int) -> int
    decreases text.len() - pos,
{
    if 0 <= pos < text.len() && is_word(text[pos]) {
        word_end(text, pos + 1)
    } else {
        pos
    }
}

/// What the scanner is inside of.
#[derive(Clone, Copy, Debug, PartialEq, Eq)]
pub enum Mode {
    Normal,
    /// Inside a string literal opened by the delimiter with this index.
    InString(usize),
    InLineComment,
    InBlockComment,
}

/// The state of a scan: where it stands, what it is inside of, whether the
/// current line has shown code, and the counts so far.
pub struct Scan {
    pub pos: int,
    pub mode: Mode,
    pub line_has_code: bool,
    pub lines: nat,
    pub code_lines: nat,
    pub counts: Map<Seq<char>, nat>,
}

/// The state before the first byte.
pub open spec fn start(g: Grammar) -> Scan {
    Scan {
        pos: 0,
        mode: Mode::Normal,
        line_has_code: false,
        lines: 0,
        code_lines: 0,
        counts: zero_counts(counted_names(g)),
    }
}

/// One more occurrence under `name`.
pub open spec fn bump(counts: Map<Seq<char>, nat>, name: Seq<char>) -> Map<Seq<char>, nat> {
    counts.insert(name, counts[name] + 1)
}

/// The end of a line: the line is counted, as code if it has shown any. Only
/// a block comment outlives the line.
pub open spec fn end_line(s: Scan) -> Scan {
    Scan {
        pos: s.pos + 1,
        mode: if s.mode is InBlockComment {
            Mode::InBlockComment
        } else {
            Mode::Normal
        },
        line_has_code: false,
        lines: s.lines + 1,
        code_lines: s.code_lines + if s.line_has_code {
            1nat
        } else {
            0nat
        },
        counts: s.counts,
    }
}

/// A step in normal mode. A block marker is tried first, then the line
/// comment marker, then the string delimiters in catalog order. What is left
/// is blank, a word, or a single byte of code.
pub open spec fn step_normal(g: Grammar, text: Seq<u8>, s: Scan) -> Scan {
    let k = first_string(g.strings, text, s.pos, 0);
    if block_enabled(g) && matches_at(text, s.pos, g.block_start) {
        Scan { pos: s.pos + g.block_start.len(), mode: Mode::InBlockComment, ..s }
    } else if matches_at(text, s.pos, g.line_comment) {
        Scan { pos: s.pos + g.line_comment.len(), mode: Mode::InLineComment, ..s }
    } else if k < g.strings.len() {
        Scan { pos: s.pos + g.strings[k].len(), mode: Mode::InString(k as usize), ..s }
    } else if is_blank(text[s.pos]) {
        Scan { pos: s.pos + 1, ..s }
    } else if is_word(text[s.pos]) {
        let e = word_end(text, s.pos);
        let kw = keyword_of(g.keywords, text.subrange(s.pos, e), 0);
        Scan {
            pos: e,
            line_has_code: true,
            counts: if kw < g.keywords.len() {
                bump(s.counts, g.keywords[kw].name)
            } else {
                s.counts
            },
            ..s
        }
    } else {
        Scan { pos: s.pos + 1, line_has_code: true, ..s }
    }
}

/// A step inside a string literal opened by delimiter `k`: the delimiter
/// closes it; a backslash protects the byte after it, unless that byte ends
/// the line.
pub open spec fn step_string(g: Grammar, text: Seq<u8>, s: Scan, k: int) -> Scan {
    if 0 <= k < g.strings.len() && matches_at(text, s.pos, g.strings[k]) {
        Scan { pos: s.pos + g.strings[k].len(), mode: Mode::Normal, ..s }
    } else if text[s.pos] == BACKSLASH && s.pos + 1 < text.len() && text[s.pos + 1] != NEWLINE {
        Scan { pos: s.pos + 2, ..s }
    } else {
        Scan { pos: s.pos + 1, ..s }
    }
}

/// A step inside a block comment: only the end marker leaves it.
pub open spec fn step_block(g: Grammar, text: Seq<u8>, s: Scan) -> Scan {
    if matches_at(text, s.pos, g.block_end) {
        Scan { pos: s.pos + g.block_end.len(), mode: Mode::Normal, ..s }
    } else {
        Scan { pos: s.pos + 1, ..s }
    }
}

/// One step of the scan, from a state that stands before a byte of `text`.
pub open spec fn step(g: Grammar, text: Seq<u8>, s: Scan) -> Scan {
    if text[s.pos] == NEWLINE {
        end_line(s)
    } else {
        match s.mode {
            Mode::Normal => step_normal(g, text, s),
            Mode::InString(k) => step_string(g, text, s, k as int),
            Mode::InLineComment => Scan { pos: s.pos + 1, ..s },
            Mode::InBlockComment => step_block(g, text, s),
        }
    }
}

/// The state in which the scan that continues from `s` stops: the first one
/// that stands at or behind `limit`.
pub open spec fn scan_until(g: Grammar, text: Seq<u8>, s: Scan, limit: int) -> Scan
    decreases text.len() - s.pos,
{
    if 0 <= s.pos < limit && limit <= text.len() && s.pos < step(g, text, s).pos <= text.len() {
        scan_until(g, text, step(g, text, s), limit)
    } else {
        s
    }
}

/// The state at the end of the text of the scan that continues from `s`.
pub open spec fn scan(g: Grammar, text: Seq<u8>, s: Scan) -> Scan {
    scan_until(g, text, s, text.len() as int)
}

/// The counts once the text has ended: a last line without a line end is a
/// line too.
pub open spec fn finish(text: Seq<u8>, s: Scan) -> StatsView {
    if text.len() > 0 && text.last() != NEWLINE {
        StatsView {
            lines: s.lines + 1,
            code_lines: s.code_lines + if s.line_has_code {
                1nat
            } else {
                0nat
            },
            keywords: s.counts,
        }
    } else {
        StatsView { lines: s.lines, code_lines: s.code_lines, keywords: s.counts }
    }
}

/// The statistics of a file with the given bytes, read by the given grammar.
pub open spec fn file_stats(g: Grammar, text: Seq<u8>) -> StatsView {
    finish(text, scan(g, text, start(g)))
}

/// The number of line ends among the first `pos` bytes.
pub open spec fn newlines_before(text: Seq<u8>, pos: int) -> nat
    decreases pos,
{
    if pos <= 0 || pos > text.len() {
        0
    } else {
        newlines_before(text, pos - 1) + if text[pos - 1] == NEWLINE {
            1nat
        } else {
            0nat
        }
    }
}

/// The number of lines of a text: its line ends, and one more for a last line
/// that has none.
pub open spec fn line_count(text: Seq<u8>) -> nat {
    newlines_before(text, text.len() as int) + if text.len() > 0 && text.last() != NEWLINE {
        1nat
    } else {
        0nat
    }
}

/// No byte of `text` from `from` up to `to` ends a line.
pub open spec fn no_newline(text: Seq<u8>, from: int, to: int) -> bool {
    forall|j: int| from <= j < to ==> text[j] != NEWLINE
}

/// A run of word bytes ends behind its start, within the text, and holds only
/// word bytes.
pub proof fn lemma_word_end(text: Seq<u8>, pos: int)
    requires
        0 <= pos <= text.len(),
    ensures
        pos <= word_end(text, pos) <= text.len(),
        pos < text.len() && is_word(text[pos]) ==> pos < word_end(text, pos),
        forall|j: int| pos <= j < word_end(text, pos) ==> is_word(text[j]),
    decreases text.len() - pos,
{
    if pos < text.len() && is_word(text[pos]) {
        lemma_word_end(text, pos + 1);
    }
}

/// The first matching delimiter is a delimiter, matches, and no delimiter
/// before it does.
pub proof fn lemma_first_string(strings: Seq<Seq<u8>>, text: Seq<u8>, pos: int, from: int)
    requires
        0 <= from,
    ensures
        from <= first_string(strings, text, pos, from) || first_string(strings, text, pos, from)
            == strings.len(),
        first_string(strings, text, pos, from) <= strings.len(),
        first_string(strings, text, pos, from) < strings.len() ==> matches_at(
            text,
            pos,
            strings[first_string(strings, text, pos, from)],
        ),
        forall|j: int|
            from <= j < first_string(strings, text, pos, from) ==> !matches_at(
                text,
                pos,
                #[trigger] strings[j],
            ),
    decreases strings.len() - from,
{
    if from < strings.len() && !matches_at(text, pos, strings[from]) {
        lemma_first_string(strings, text, pos, from + 1);
    }
}

/// The keyword found for a word is a keyword that spells it, and no keyword
/// before it does.
pub proof fn lemma_keyword_of(keywords: Seq<KeywordGrammar>, word: Seq<u8>, from: int)
    requires
        0 <= from,
    ensures
        from <= keyword_of(keywords, word, from) || keyword_of(keywords, word, from)
            == keywords.len(),
        keyword_of(keywords, word, from) <= keywords.len(),
        keyword_of(keywords, word, from) < keywords.len() ==> keywords[keyword_of(
            keywords,
            word,
            from,
        )].aliases.contains(word),
        forall|j: int|
            from <= j < keyword_of(keywords, word, from) ==> !(#[trigger] keywords[j]).aliases.contains(
                word,
            ),
    decreases keywords.len() - from,
{
    if from < keywords.len() && !keywords[from].aliases.contains(word) {
        lemma_keyword_of(keywords, word, from + 1);
    }
}

/// Bytes that hold no line end add nothing to the number of line ends.
pub proof fn lemma_newlines_skip(text: Seq<u8>, from: int, to: int)
    requires
        0 <= from <= to <= text.len(),
        no_newline(text, from, to),
    ensures
        newlines_before(text, to) == newlines_before(text, from),
    decreases to - from,
{
    if from < to {
        lemma_newlines_skip(text, from, to - 1);
    }
}

/// There are no more line ends than bytes, and fewer where the last byte is
/// none.
pub proof fn lemma_newlines_bound(text: Seq<u8>, pos: int)
    requires
        0 <= pos <= text.len(),
    ensures
        newlines_before(text, pos) <= pos,
        pos > 0 && text[pos - 1] != NEWLINE ==> newlines_before(text, pos) < pos,
    decreases pos,
{
    if pos > 0 {
        lemma_newlines_bound(text, pos - 1);
    }
}

/// Whether a state can arise in a scan of `text`: it stands within the text,
/// has counted the line ends behind it, no more code lines than lines, and
/// holds a count, not above its position, for exactly the grammar's names.
pub open spec fn sound(g: Grammar, text: Seq<u8>, s: Scan) -> bool {
    &&& 0 <= s.pos <= text.len()
    &&& s.lines == newlines_before(text, s.pos)
    &&& s.code_lines <= s.lines
    &&& s.counts.dom() == zero_counts(counted_names(g)).dom()
    &&& forall|k: Seq<char>| #[trigger] s.counts.dom().contains(k) ==> s.counts[k] <= s.pos
}

/// A step moves forward, stays within the text, passes over a line end only
/// by ending the line, and keeps a state sound.
pub proof fn lemma_step(g: Grammar, text: Seq<u8>, s: Scan)
    requires
        sound(g, text, s),
        s.pos < text.len(),
    ensures
        s.pos < step(g, text, s).pos <= text.len(),
        sound(g, text, step(g, text, s)),
        text[s.pos] != NEWLINE ==> no_newline(text, s.pos, step(g, text, s).pos),
        text[s.pos] != NEWLINE ==> step(g, text, s).lines == s.lines && step(
            g,
            text,
            s,
        ).code_lines == s.code_lines,
{
    let t = step(g, text, s);
    lemma_word_end(text, s.pos);
    lemma_first_string(g.strings, text, s.pos, 0);
    let e = word_end(text, s.pos);
    lemma_keyword_of(g.keywords, text.subrange(s.pos, e), 0);
    if text[s.pos] == NEWLINE {
        assert(t.pos == s.pos + 1);
    } else {
        assert(s.pos < t.pos <= text.len());
        assert(no_newline(text, s.pos, t.pos)) by {
            assert forall|j: int| s.pos <= j < t.pos implies text[j] != NEWLINE by {
                lemma_step_bytes(g, text, s, j);
            }
        }
        lemma_newlines_skip(text, s.pos, t.pos);
        let kw = keyword_of(g.keywords, text.subrange(s.pos, e), 0);
        if 0 <= kw < g.keywords.len() {
            let name = g.keywords[kw].name;
            assert(counted_names(g)[kw] == name);
            assert(counted_names(g).contains(name));
        }
        assert(t.counts.dom() =~= s.counts.dom());
    }
}

/// A step that does not end a line passes over no line end.
proof fn lemma_step_bytes(g: Grammar, text: Seq<u8>, s: Scan, j: int)
    requires
        0 <= s.pos < text.len(),
        text[s.pos] != NEWLINE,
        s.pos <= j < step(g, text, s).pos,
        step(g, text, s).pos <= text.len(),
    ensures
        text[j] != NEWLINE,
{
    lemma_word_end(text, s.pos);
    lemma_first_string(g.strings, text, s.pos, 0);
    let i = j - s.pos;
    match s.mode {
        Mode::Normal => {
            let k = first_string(g.strings, text, s.pos, 0);
            if block_enabled(g) && matches_at(text, s.pos, g.block_start) {
                assert(text[s.pos + i] == g.block_start[i]);
            } else if matches_at(text, s.pos, g.line_comment) {
                assert(text[s.pos + i] == g.line_comment[i]);
            } else if k < g.strings.len() {
                assert(text[s.pos + i] == g.strings[k][i]);
            } else if is_blank(text[s.pos]) {
            } else if is_word(text[s.pos]) {
                assert(is_word(text[j]));
            } else {
            }
        },
        Mode::InString(k) => {
            if 0 <= k < g.strings.len() && matches_at(text, s.pos, g.strings[k as int]) {
                assert(text[s.pos + i] == g.strings[k as int][i]);
            }
        },
        Mode::InLineComment => {},
        Mode::InBlockComment => {
            if matches_at(text, s.pos, g.block_end) {
                assert(text[s.pos + i] == g.block_end[i]);
            }
        },
    }
}

/// A scan from a sound state ends in a sound state at the limit, and is the
/// scan from the state one step on.
pub proof fn lemma_scan_until(g: Grammar, text: Seq<u8>, s: Scan, limit: int)
    requires
        sound(g, text, s),
        limit <= text.len(),
    ensures
        sound(g, text, scan_until(g, text, s, limit)),
        s.pos <= scan_until(g, text, s, limit).pos,
        s.pos <= limit ==> limit <= scan_until(g, text, s, limit).pos,
        s.pos < limit ==> scan_until(g, text, s, limit) == scan_until(
            g,
            text,
            step(g, text, s),
            limit,
        ),
    decreases text.len() - s.pos,
{
    if s.pos < limit {
        lemma_step(g, text, s);
        lemma_scan_until(g, text, step(g, text, s), limit);
    }
}

/// The start state is sound.
pub proof fn lemma_start_sound(g: Grammar, text: Seq<u8>)
    ensures
        sound(g, text, start(g)),
{
}

/// Every file has as many lines as its text has, and no more code lines than
/// lines.
pub proof fn lemma_file_stats_lines(g: Grammar, text: Seq<u8>)
    ensures
        file_stats(g, text).lines == line_count(text),
        file_stats(g, text).code_lines <= file_stats(g, text).lines,
        file_stats(g, text).keywords.dom() == zero_counts(counted_names(g)).dom(),
{
    lemma_start_sound(g, text);
    lemma_scan_until(g, text, start(g), text.len() as int);
    let end = scan(g, text, start(g));
    lemma_scan_end(g, text, start(g));
}

/// A scan to the end of the text stops exactly there.
pub proof fn lemma_scan_end(g: Grammar, text: Seq<u8>, s: Scan)
    requires
        sound(g, text, s),
    ensures
        scan(g, text, s).pos == text.len(),
    decreases text.len() - s.pos,
{
    if s.pos < text.len() {
        lemma_step(g, text, s);
        lemma_scan_end(g, text, step(g, text, s));
    }
}

} // verus!
