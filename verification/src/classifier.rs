//! The line classifier: one pass over the bytes of a file that yields its
//! line, code-line and keyword counts.

use vstd::prelude::*;
use vstd::utf8::{encode_utf8, valid_utf8};
use crate::domain::{
    counts_of, first_occurrences, keyword_names, optional_text, zero_counts, Extension,
    FileStats, Keyword,
};
use crate::grammar::{
    block_enabled, bump, counted_names, end_line, file_stats, first_string, grammar_of, is_blank,
    is_word, keyword_grammar, keyword_of, lemma_file_stats_lines, lemma_first_string,
    lemma_keyword_of, lemma_newlines_bound, lemma_scan_until, lemma_step, line_count,
    marker_bytes, matches_at, scan, sound, start, step, usable, word_end, Mode, Scan, BACKSLASH,
    NEWLINE,
};

verus! {

/// Why a file's bytes could not be classified.
#[derive(Debug, PartialEq, Eq, Clone, Copy)]
pub enum ClassifyError {
    /// The bytes are not valid UTF-8 text.
    InvalidEncoding,
}

/// `std::str::from_utf8` tells whether the bytes are well-formed UTF-8: it
/// returns `Ok` for exactly those slices.
#[verifier::external_body]
fn is_utf8(bytes: &[u8]) -> (ok: bool)
    ensures
        ok == valid_utf8(bytes@),
{
    std::str::from_utf8(bytes).is_ok()
}

fn is_blank_byte(b: u8) -> (r: bool)
    ensures
        r == is_blank(b),
{
    b == 32 || b == 9 || b == 13 || b == 11 || b == 12
}

fn is_word_byte(b: u8) -> (r: bool)
    ensures
        r == is_word(b),
{
    (48 <= b && b <= 57) || (65 <= b && b <= 90) || (97 <= b && b <= 122) || b == 95 || b >= 128
}

/// Whether a marker is not empty and holds no line end.
pub fn is_usable(sym: &[u8]) -> (r: bool)
    ensures
        r == usable(sym@),
{
    if sym.len() == 0 {
        return false;
    }
    let mut j: usize = 0;
    while j < sym.len()
        invariant
            j <= sym.len(),
            forall|i: int| 0 <= i < j ==> sym@[i] != NEWLINE,
        decreases sym.len() - j,
    {
        if sym[j] == NEWLINE {
            return false;
        }
        j += 1;
    }
    true
}

/// Whether the marker `sym` stands in `text` at `pos`.
pub fn symbol_at(text: &[u8], pos: usize, sym: &[u8]) -> (r: bool)
    requires
        pos <= text.len(),
    ensures
        r == matches_at(text@, pos as int, sym@),
{
    let n = sym.len();
    if !is_usable(sym) || n > text.len() - pos {
        return false;
    }
    let mut j: usize = 0;
    while j < n
        invariant
            j <= n,
            n == sym.len(),
            pos + n <= text.len(),
            forall|i: int| 0 <= i < j ==> text@[pos + i] == sym@[i],
        decreases n - j,
    {
        if text[pos + j] != sym[j] {
            return false;
        }
        j += 1;
    }
    true
}

/// Whether the bytes of `text` from `from` up to `to` are those of `sym`.
pub fn slice_is(text: &[u8], from: usize, to: usize, sym: &[u8]) -> (r: bool)
    requires
        from <= to <= text.len(),
    ensures
        r == (text@.subrange(from as int, to as int) == sym@),
{
    let ghost part = text@.subrange(from as int, to as int);
    if sym.len() != to - from {
        return false;
    }
    let mut j: usize = 0;
    while j < sym.len()
        invariant
            j <= sym.len(),
            sym.len() == to - from,
            from <= to <= text.len(),
            part == text@.subrange(from as int, to as int),
            forall|i: int| 0 <= i < j ==> part[i] == sym@[i],
        decreases sym.len() - j,
    {
        if text[from + j] != sym[j] {
            assert(part[j as int] != sym@[j as int]);
            return false;
        }
        j += 1;
    }
    assert(part =~= sym@);
    true
}

/// Whether an optional marker stands in `text` at `pos`.
fn marker_at(text: &[u8], pos: usize, marker: &Option<String>) -> (r: bool)
    requires
        pos <= text.len(),
    ensures
        r == matches_at(text@, pos as int, marker_bytes(optional_text(*marker))),
{
    match marker {
        Some(x) => symbol_at(text, pos, x.as_str().as_bytes()),
        None => false,
    }
}

/// The length in bytes of an optional marker.
fn marker_len(marker: &Option<String>) -> (n: usize)
    ensures
        n == marker_bytes(optional_text(*marker)).len(),
{
    match marker {
        Some(x) => x.as_str().as_bytes().len(),
        None => 0,
    }
}

/// Whether an optional marker can be recognised.
fn marker_usable(marker: &Option<String>) -> (r: bool)
    ensures
        r == usable(marker_bytes(optional_text(*marker))),
{
    match marker {
        Some(x) => is_usable(x.as_str().as_bytes()),
        None => false,
    }
}

/// The first string delimiter of the catalog entry that stands in `text` at
/// `pos`; the number of delimiters where none does.
fn find_string(ext: &Extension, text: &[u8], pos: usize) -> (k: usize)
    requires
        pos <= text.len(),
    ensures
        k == first_string(grammar_of(ext@).strings, text@, pos as int, 0),
        k <= ext.string_symbols.len(),
{
    let ghost strings = grammar_of(ext@).strings;
    let mut k: usize = 0;
    while k < ext.string_symbols.len()
        invariant
            k <= ext.string_symbols.len(),
            pos <= text.len(),
            strings == grammar_of(ext@).strings,
            strings.len() == ext.string_symbols.len(),
            first_string(strings, text@, pos as int, 0) == first_string(
                strings,
                text@,
                pos as int,
                k as int,
            ),
        decreases ext.string_symbols.len() - k,
    {
        assert(strings[k as int] == encode_utf8(ext.string_symbols@[k as int]@));
        if symbol_at(text, pos, ext.string_symbols[k].as_str().as_bytes()) {
            return k;
        }
        k += 1;
    }
    k
}

/// Whether `word`, the bytes of `text` from `from` up to `to`, is one of the
/// spellings of `keyword`.
fn spells(keyword: &Keyword, text: &[u8], from: usize, to: usize) -> (r: bool)
    requires
        from <= to <= text.len(),
    ensures
        r == keyword_grammar(keyword@).aliases.contains(text@.subrange(from as int, to as int)),
{
    let ghost aliases = keyword_grammar(keyword@).aliases;
    let ghost word = text@.subrange(from as int, to as int);
    let mut a: usize = 0;
    while a < keyword.aliases.len()
        invariant
            a <= keyword.aliases.len(),
            from <= to <= text.len(),
            aliases == keyword_grammar(keyword@).aliases,
            aliases.len() == keyword.aliases.len(),
            word == text@.subrange(from as int, to as int),
            forall|j: int| 0 <= j < a ==> aliases[j] != word,
        decreases keyword.aliases.len() - a,
    {
        assert(aliases[a as int] == encode_utf8(keyword.aliases@[a as int]@));
        if slice_is(text, from, to, keyword.aliases[a].as_str().as_bytes()) {
            return true;
        }
        a += 1;
    }
    false
}

/// The first keyword of the catalog entry that spells the bytes of `text` from
/// `from` up to `to`; the number of keywords where none does.
fn find_keyword(ext: &Extension, text: &[u8], from: usize, to: usize) -> (k: usize)
    requires
        from <= to <= text.len(),
    ensures
        k == keyword_of(grammar_of(ext@).keywords, text@.subrange(from as int, to as int), 0),
        k <= ext.keywords.len(),
{
    let ghost keywords = grammar_of(ext@).keywords;
    let ghost word = text@.subrange(from as int, to as int);
    let mut k: usize = 0;
    while k < ext.keywords.len()
        invariant
            k <= ext.keywords.len(),
            from <= to <= text.len(),
            keywords == grammar_of(ext@).keywords,
            keywords.len() == ext.keywords.len(),
            word == text@.subrange(from as int, to as int),
            keyword_of(keywords, word, 0) == keyword_of(keywords, word, k as int),
        decreases ext.keywords.len() - k,
    {
        assert(keywords[k as int] == keyword_grammar(ext.keywords@[k as int]@));
        if spells(&ext.keywords[k], text, from, to) {
            return k;
        }
        k += 1;
    }
    k
}

/// Where the run of word bytes that starts at `pos` ends.
fn find_word_end(text: &[u8], pos: usize) -> (e: usize)
    requires
        pos < text.len(),
        is_word(text@[pos as int]),
    ensures
        e == word_end(text@, pos as int),
        pos < e <= text.len(),
{
    let mut e: usize = pos + 1;
    while e < text.len() && is_word_byte(text[e])
        invariant
            pos < e <= text.len(),
            word_end(text@, pos as int) == word_end(text@, e as int),
        decreases text.len() - e,
    {
        e += 1;
    }
    e
}

/// A scan in progress.
struct Scanner {
    pos: usize,
    mode: Mode,
    line_has_code: bool,
    stats: FileStats,
}

impl View for Scanner {
    type V = Scan;

    closed spec fn view(&self) -> Scan {
        Scan {
            pos: self.pos as int,
            mode: self.mode,
            line_has_code: self.line_has_code,
            lines: self.stats.lines as nat,
            code_lines: self.stats.code_lines as nat,
            counts: counts_of(self.stats.keyword_occurences@),
        }
    }
}

/// Takes one step of the scan.
fn advance(ext: &Extension, block_on: bool, text: &[u8], sc: Scanner) -> (next: Scanner)
    requires
        sound(grammar_of(ext@), text@, sc@),
        sc.pos < text.len(),
        sc.stats.keyword_occurences.wf(),
        block_on == block_enabled(grammar_of(ext@)),
    ensures
        next@ == step(grammar_of(ext@), text@, sc@),
        next.stats.keyword_occurences.wf(),
        next.stats.keyword_occurences.names() == sc.stats.keyword_occurences.names(),
{
    let ghost g = grammar_of(ext@);
    let mut sc = sc;
    let ghost before = sc@;
    let pos = sc.pos;
    let b = text[pos];
    if b == NEWLINE {
        proof {
            lemma_newlines_bound(text@, pos as int);
        }
        sc.stats.lines += 1;
        if sc.line_has_code {
            sc.stats.code_lines += 1;
        }
        sc.line_has_code = false;
        sc.mode =
        match sc.mode {
            Mode::InBlockComment => Mode::InBlockComment,
            _ => Mode::Normal,
        };
        sc.pos = pos + 1;
        assert(sc@ == end_line(before));
        return sc;
    }
    match sc.mode {
        Mode::Normal => {
            let k = find_string(ext, text, pos);
            proof {
                lemma_first_string(g.strings, text@, pos as int, 0);
            }
            if block_on && marker_at(text, pos, &ext.mutliline_comment_start_symbol) {
                sc.pos = pos + marker_len(&ext.mutliline_comment_start_symbol);
                sc.mode = Mode::InBlockComment;
            } else if symbol_at(text, pos, ext.comment_symbol.as_str().as_bytes()) {
                sc.pos = pos + ext.comment_symbol.as_str().as_bytes().len();
                sc.mode = Mode::InLineComment;
            } else if k < ext.string_symbols.len() {
                assert(g.strings[k as int] == encode_utf8(ext.string_symbols@[k as int]@));
                sc.pos = pos + ext.string_symbols[k].as_str().as_bytes().len();
                sc.mode = Mode::InString(k);
            } else if is_blank_byte(b) {
                sc.pos = pos + 1;
            } else if is_word_byte(b) {
                let e = find_word_end(text, pos);
                let kw = find_keyword(ext, text, pos, e);
                proof {
                    lemma_keyword_of(g.keywords, text@.subrange(pos as int, e as int), 0);
                }
                if kw < ext.keywords.len() {
                    let name = &ext.keywords[kw].descriptive_name;
                    proof {
                        assert(g.keywords[kw as int] == keyword_grammar(ext.keywords@[kw as int]@));
                        assert(counted_names(g)[kw as int] == name@);
                        assert(counted_names(g).contains(name@));
                        assert(before.counts.dom().contains(name@));
                        assert(before.counts[name@] <= pos);
                    }
                    let ghost table = sc.stats.keyword_occurences@;
                    sc.stats.incr_keyword(name.as_str());
                    assert(counts_of(sc.stats.keyword_occurences@) =~= bump(
                        counts_of(table),
                        name@,
                    ));
                }
                sc.pos = e;
                sc.line_has_code = true;
            } else {
                sc.pos = pos + 1;
                sc.line_has_code = true;
            }
        },
        Mode::InString(k) => {
            if k < ext.string_symbols.len() && symbol_at(
                text,
                pos,
                ext.string_symbols[k].as_str().as_bytes(),
            ) {
                assert(g.strings[k as int] == encode_utf8(ext.string_symbols@[k as int]@));
                sc.pos = pos + ext.string_symbols[k].as_str().as_bytes().len();
                sc.mode = Mode::Normal;
            } else if b == BACKSLASH && pos + 1 < text.len() && text[pos + 1] != NEWLINE {
                assert(k < ext.string_symbols.len() ==> g.strings[k as int] == encode_utf8(
                    ext.string_symbols@[k as int]@,
                ));
                sc.pos = pos + 2;
            } else {
                assert(k < ext.string_symbols.len() ==> g.strings[k as int] == encode_utf8(
                    ext.string_symbols@[k as int]@,
                ));
                sc.pos = pos + 1;
            }
        },
        Mode::InLineComment => {
            sc.pos = pos + 1;
        },
        Mode::InBlockComment => {
            if marker_at(text, pos, &ext.mutliline_comment_end_symbol) {
                sc.pos = pos + marker_len(&ext.mutliline_comment_end_symbol);
                sc.mode = Mode::Normal;
            } else {
                sc.pos = pos + 1;
            }
        },
    }
    sc
}

/// Whether the catalog entry's block markers can both be recognised.
pub fn block_comments_enabled(ext: &Extension) -> (r: bool)
    ensures
        r == block_enabled(grammar_of(ext@)),
{
    marker_usable(&ext.mutliline_comment_start_symbol) && marker_usable(
        &ext.mutliline_comment_end_symbol,
    )
}

/// Scans `content` by the rules of `extension` and returns its statistics.
/// The bytes are taken as they are; `classify` also checks their encoding.
pub fn classify_text(content: &[u8], extension: &Extension) -> (stats: FileStats)
    ensures
        stats@ == file_stats(grammar_of(extension@), content@),
        stats@.lines == line_count(content@),
        stats@.code_lines <= stats@.lines,
        stats@.keywords.dom() == zero_counts(keyword_names(extension.keywords@)).dom(),
        stats.keyword_occurences.wf(),
        stats.keyword_occurences.names() == first_occurrences(
            keyword_names(extension.keywords@),
        ),
{
    let ghost g = grammar_of(extension@);
    let ghost text = content@;
    let block_on = block_comments_enabled(extension);
    let mut sc = Scanner {
        pos: 0,
        mode: Mode::Normal,
        line_has_code: false,
        stats: FileStats::default(extension.keywords.as_slice()),
    };
    proof {
        assert(counted_names(g) =~= keyword_names(extension.keywords@));
        assert(sc@ == start(g));
        lemma_file_stats_lines(g, text);
    }
    while sc.pos < content.len()
        invariant
            g == grammar_of(extension@),
            text == content@,
            block_on == block_enabled(g),
            sound(g, text, sc@),
            sc.stats.keyword_occurences.wf(),
            sc.stats.keyword_occurences.names() == first_occurrences(
                keyword_names(extension.keywords@),
            ),
            scan(g, text, sc@) == scan(g, text, start(g)),
        decreases content.len() - sc.pos,
    {
        proof {
            lemma_step(g, text, sc@);
            lemma_scan_until(g, text, sc@, text.len() as int);
        }
        sc = advance(extension, block_on, content, sc);
    }
    proof {
        lemma_newlines_bound(text, text.len() as int);
    }
    let mut stats = sc.stats;
    if content.len() > 0 && content[content.len() - 1] != NEWLINE {
        stats.lines += 1;
        if sc.line_has_code {
            stats.code_lines += 1;
        }
    }
    stats
}

/// Classifies the bytes of one file. Bytes that are not valid UTF-8 text are
/// refused, and nothing is counted for them.
pub fn classify(content: &[u8], extension: &Extension) -> (r: Result<FileStats, ClassifyError>)
    ensures
        match r {
            Ok(stats) => valid_utf8(content@) && stats@ == file_stats(
                grammar_of(extension@),
                content@,
            ) && stats.keyword_occurences.wf() && stats.keyword_occurences.names()
                == first_occurrences(keyword_names(extension.keywords@)),
            Err(e) => !valid_utf8(content@) && e == ClassifyError::InvalidEncoding,
        },
{
    if is_utf8(content) {
        Ok(classify_text(content, extension))
    } else {
        Err(ClassifyError::InvalidEncoding)
    }
}

} // verus!
