//! What a scan passes over in silence: blank text, comments and string
//! literals. Each statement here holds of every grammar and every text.

use vstd::prelude::*;
use crate::domain::zero_counts;
use crate::grammar::{
    block_enabled, counted_names, file_stats, is_blank, lemma_newlines_skip, lemma_scan_until,
    lemma_start_sound, lemma_step, matches_at, newlines_before, no_newline, scan, scan_until,
    sound, start, step, Grammar, Mode, Scan, BACKSLASH, NEWLINE,
};

verus! {

/// Where the line that holds `pos` ends: at its line end, or at the end of the
/// text.
pub open spec fn line_end(text: Seq<u8>, pos: int) -> int
    decreases text.len() - pos,
{
    if 0 <= pos < text.len() && text[pos] != NEWLINE {
        line_end(text, pos + 1)
    } else {
        pos
    }
}

/// A line ends at or behind each of its positions, within the text, at the
/// first line end.
pub proof fn lemma_line_end(text: Seq<u8>, pos: int)
    requires
        0 <= pos <= text.len(),
    ensures
        pos <= line_end(text, pos) <= text.len(),
        no_newline(text, pos, line_end(text, pos)),
        line_end(text, pos) < text.len() ==> text[line_end(text, pos)] == NEWLINE,
    decreases text.len() - pos,
{
    if pos < text.len() && text[pos] != NEWLINE {
        lemma_line_end(text, pos + 1);
    }
}

/// Whether every byte of a text is blank or a line end.
pub open spec fn all_blank(text: Seq<u8>) -> bool {
    forall|i: int| 0 <= i < text.len() ==> is_blank(#[trigger] text[i]) || text[i] == NEWLINE
}

proof fn lemma_blank_scan(g: Grammar, text: Seq<u8>, s: Scan)
    requires
        sound(g, text, s),
        all_blank(text),
        !s.line_has_code,
        s.code_lines == 0,
        s.counts == zero_counts(counted_names(g)),
    ensures
        !scan(g, text, s).line_has_code,
        scan(g, text, s).code_lines == 0,
        scan(g, text, s).counts == zero_counts(counted_names(g)),
    decreases text.len() - s.pos,
{
    if s.pos < text.len() {
        lemma_step(g, text, s);
        lemma_scan_until(g, text, s, text.len() as int);
        assert(is_blank(text[s.pos]) || text[s.pos] == NEWLINE);
        lemma_blank_scan(g, text, step(g, text, s));
    }
}

/// A file of nothing but blank bytes and line ends has no code line and no
/// keyword occurrence, whatever the grammar.
pub proof fn lemma_blank_file_has_no_code(g: Grammar, text: Seq<u8>)
    requires
        all_blank(text),
    ensures
        file_stats(g, text).code_lines == 0,
        file_stats(g, text).keywords == zero_counts(counted_names(g)),
{
    lemma_start_sound(g, text);
    lemma_blank_scan(g, text, start(g));
}

/// Inside a line comment nothing but the position changes before the line
/// ends.
pub proof fn lemma_inside_line_comment(g: Grammar, text: Seq<u8>, s: Scan, limit: int)
    requires
        sound(g, text, s),
        s.mode == Mode::InLineComment,
        s.pos <= limit <= text.len(),
        no_newline(text, s.pos, limit),
    ensures
        scan_until(g, text, s, limit) == (Scan { pos: limit, ..s }),
    decreases limit - s.pos,
{
    if s.pos < limit {
        lemma_step(g, text, s);
        lemma_scan_until(g, text, s, limit);
        lemma_inside_line_comment(g, text, step(g, text, s), limit);
    }
}

/// Whether a scan in normal mode at `pos` reads a line comment marker there.
pub open spec fn opens_line_comment(g: Grammar, text: Seq<u8>, pos: int) -> bool {
    &&& 0 <= pos < text.len()
    &&& !(block_enabled(g) && matches_at(text, pos, g.block_start))
    &&& matches_at(text, pos, g.line_comment)
}

/// From a line comment marker to the end of its line nothing is counted and
/// the line's code flag stays as it was: what stands behind the marker has no
/// effect. The line end then counts the line once, as code exactly when code
/// stood before the marker.
pub proof fn lemma_line_comment_hides_rest_of_line(g: Grammar, text: Seq<u8>, s: Scan)
    requires
        sound(g, text, s),
        s.mode == Mode::Normal,
        opens_line_comment(g, text, s.pos),
    ensures
        scan_until(g, text, s, line_end(text, s.pos)) == (Scan {
            pos: line_end(text, s.pos),
            mode: Mode::InLineComment,
            ..s
        }),
        line_end(text, s.pos) < text.len() ==> scan_until(g, text, s, line_end(text, s.pos) + 1)
            == (Scan {
            pos: line_end(text, s.pos) + 1,
            mode: Mode::Normal,
            line_has_code: false,
            lines: s.lines + 1,
            code_lines: s.code_lines + if s.line_has_code {
                1nat
            } else {
                0nat
            },
            counts: s.counts,
        }),
{
    let e = line_end(text, s.pos);
    let t = step(g, text, s);
    lemma_line_end(text, s.pos);
    lemma_step(g, text, s);
    assert(text[s.pos] == g.line_comment[0]);
    assert(t.pos <= e) by {
        if t.pos > e {
            assert(text[s.pos + (e - s.pos)] == g.line_comment[e - s.pos]);
        }
    }
    lemma_scan_until(g, text, s, e);
    lemma_inside_line_comment(g, text, t, e);
    if e < text.len() {
        let at_end = Scan { pos: e, mode: Mode::InLineComment, ..s };
        lemma_passes_limit(g, text, s, e, e + 1);
        lemma_scan_until(g, text, at_end, e + 1);
        lemma_step(g, text, at_end);
        assert(scan_until(g, text, step(g, text, at_end), e + 1) == step(g, text, at_end));
    }
}

/// A scan to a limit goes through the state in which the scan to a nearer
/// limit stops.
pub proof fn lemma_passes_limit(g: Grammar, text: Seq<u8>, s: Scan, near: int, far: int)
    requires
        sound(g, text, s),
        near <= far <= text.len(),
    ensures
        scan_until(g, text, s, far) == scan_until(g, text, scan_until(g, text, s, near), far),
    decreases text.len() - s.pos,
{
    if s.pos < near {
        lemma_step(g, text, s);
        lemma_scan_until(g, text, s, near);
        lemma_scan_until(g, text, s, far);
        lemma_passes_limit(g, text, step(g, text, s), near, far);
    }
}

/// Where the block comment that covers `pos` ends: at the first end marker,
/// or at the end of the text where the comment is never closed.
pub open spec fn block_close(g: Grammar, text: Seq<u8>, pos: int) -> int
    decreases text.len() - pos,
{
    if 0 <= pos < text.len() && !matches_at(text, pos, g.block_end) {
        block_close(g, text, pos + 1)
    } else {
        pos
    }
}

/// A block comment ends at or behind each of its positions, within the text.
pub proof fn lemma_block_close(g: Grammar, text: Seq<u8>, pos: int)
    requires
        0 <= pos <= text.len(),
    ensures
        pos <= block_close(g, text, pos) <= text.len(),
        block_close(g, text, pos) < text.len() ==> matches_at(
            text,
            block_close(g, text, pos),
            g.block_end,
        ),
        forall|j: int| pos <= j < block_close(g, text, pos) ==> !matches_at(text, j, g.block_end),
    decreases text.len() - pos,
{
    if pos < text.len() && !matches_at(text, pos, g.block_end) {
        lemma_block_close(g, text, pos + 1);
    }
}

/// The state of a scan that was in state `s` inside a comment or a string and
/// has since come to `pos` without leaving it: the lines in between are
/// counted, the first of them as code if it had shown code before, the
/// others not; no keyword is counted.
pub open spec fn passed_over(text: Seq<u8>, s: Scan, pos: int) -> Scan {
    let ended = newlines_before(text, pos) - newlines_before(text, s.pos);
    Scan {
        pos: pos,
        mode: s.mode,
        line_has_code: s.line_has_code && ended == 0,
        lines: (s.lines + ended) as nat,
        code_lines: s.code_lines + if s.line_has_code && ended > 0 {
            1nat
        } else {
            0nat
        },
        counts: s.counts,
    }
}

/// The number of line ends never falls as the position grows.
pub proof fn lemma_newlines_monotonic(text: Seq<u8>, from: int, to: int)
    requires
        0 <= from <= to <= text.len(),
    ensures
        newlines_before(text, from) <= newlines_before(text, to),
    decreases to - from,
{
    if from < to {
        lemma_newlines_monotonic(text, from, to - 1);
    }
}

/// Inside a block comment, up to its end marker, lines are counted but none
/// of them as code unless code stood on the first one before the comment,
/// and no keyword is counted.
pub proof fn lemma_inside_block_comment(g: Grammar, text: Seq<u8>, s: Scan, limit: int)
    requires
        sound(g, text, s),
        s.mode == Mode::InBlockComment,
        s.pos <= limit <= block_close(g, text, s.pos),
    ensures
        scan_until(g, text, s, limit) == passed_over(text, s, limit),
    decreases limit - s.pos,
{
    lemma_block_close(g, text, s.pos);
    if s.pos < limit {
        let t = step(g, text, s);
        lemma_step(g, text, s);
        lemma_scan_until(g, text, s, limit);
        assert(!matches_at(text, s.pos, g.block_end));
        assert(t.pos == s.pos + 1);
        assert(block_close(g, text, t.pos) == block_close(g, text, s.pos));
        lemma_inside_block_comment(g, text, t, limit);
        lemma_newlines_monotonic(text, t.pos, limit);
        assert(passed_over(text, t, limit) == passed_over(text, s, limit));
    } else {
        assert(passed_over(text, s, limit) == s);
    }
}

/// Whether a scan in normal mode at `pos` reads a block comment marker there.
pub open spec fn opens_block_comment(g: Grammar, text: Seq<u8>, pos: int) -> bool {
    &&& 0 <= pos < text.len()
    &&& block_enabled(g)
    &&& matches_at(text, pos, g.block_start)
}

/// From the marker that opens a block comment to the marker that closes it,
/// or to the end of the text where none does, the lines are counted but the
/// comment adds no code line and no keyword occurrence: the line that the
/// comment starts on is code exactly when code stood before the marker, and
/// the line that it ends on starts without code.
pub proof fn lemma_block_comment_adds_no_code(g: Grammar, text: Seq<u8>, s: Scan)
    requires
        sound(g, text, s),
        s.mode == Mode::Normal,
        opens_block_comment(g, text, s.pos),
    ensures
        scan_until(g, text, s, block_close(g, text, s.pos + g.block_start.len())) == passed_over(
            text,
            Scan { mode: Mode::InBlockComment, ..s },
            block_close(g, text, s.pos + g.block_start.len()),
        ),
{
    let t = step(g, text, s);
    let q = block_close(g, text, s.pos + g.block_start.len());
    lemma_step(g, text, s);
    assert(text[s.pos] == g.block_start[0]);
    lemma_block_close(g, text, t.pos);
    lemma_scan_until(g, text, s, q);
    lemma_inside_block_comment(g, text, t, q);
    lemma_newlines_skip(text, s.pos, t.pos);
}

/// Where the body of the string literal that covers `pos` ends: at its
/// closing delimiter, at the end of its line, or at the end of the text. A
/// backslash protects the byte behind it.
pub open spec fn string_close(text: Seq<u8>, delimiter: Seq<u8>, pos: int) -> int
    decreases text.len() - pos,
{
    if 0 <= pos < text.len() && text[pos] != NEWLINE && !matches_at(text, pos, delimiter) {
        if text[pos] == BACKSLASH && pos + 1 < text.len() && text[pos + 1] != NEWLINE {
            string_close(text, delimiter, pos + 2)
        } else {
            string_close(text, delimiter, pos + 1)
        }
    } else {
        pos
    }
}

/// Inside a string literal nothing but the position changes until the literal
/// is closed or its line ends: no byte of its body is code, and no word in it
/// is counted as a keyword.
pub proof fn lemma_inside_string(g: Grammar, text: Seq<u8>, s: Scan, k: usize)
    requires
        sound(g, text, s),
        s.mode == Mode::InString(k),
        k < g.strings.len(),
    ensures
        s.pos <= string_close(text, g.strings[k as int], s.pos) <= text.len(),
        scan_until(g, text, s, string_close(text, g.strings[k as int], s.pos)) == (Scan {
            pos: string_close(text, g.strings[k as int], s.pos),
            ..s
        }),
    decreases text.len() - s.pos,
{
    let d = g.strings[k as int];
    let q = string_close(text, d, s.pos);
    if s.pos < text.len() && text[s.pos] != NEWLINE && !matches_at(text, s.pos, d) {
        let t = step(g, text, s);
        lemma_step(g, text, s);
        lemma_inside_string(g, text, t, k);
        lemma_scan_until(g, text, s, q);
    }
}

} // verus!
