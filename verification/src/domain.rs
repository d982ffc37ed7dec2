//! The data model: the catalog's language descriptions and the accumulators
//! that statistics are gathered in.

use vstd::prelude::*;
use vstd::utf8::encode_utf8;
use crate::name_map::NameMap;

verus! {

/// A group of spellings that are counted under one descriptive name.
#[derive(Debug, PartialEq)]
pub struct Keyword {
    pub descriptive_name: String,
    pub aliases: Vec<String>,
}

/// What a `Keyword` holds, as plain sequences.
pub struct KeywordView {
    pub descriptive_name: Seq<char>,
    pub aliases: Seq<Seq<char>>,
}

/// A supported source-file type: its delimiters and its keyword groups.
#[derive(Debug, PartialEq)]
pub struct Extension {
    pub name: String,
    pub string_symbols: Vec<String>,
    pub comment_symbol: String,
    pub mutliline_comment_start_symbol: Option<String>,
    pub mutliline_comment_end_symbol: Option<String>,
    pub keywords: Vec<Keyword>,
}

/// What an `Extension` holds, as plain sequences.
pub struct ExtensionView {
    pub name: Seq<char>,
    pub string_symbols: Seq<Seq<char>>,
    pub comment_symbol: Seq<char>,
    pub mutliline_comment_start_symbol: Option<Seq<char>>,
    pub mutliline_comment_end_symbol: Option<Seq<char>>,
    pub keywords: Seq<KeywordView>,
}

/// The characters of each string of a sequence.
pub open spec fn texts(strings: Seq<String>) -> Seq<Seq<char>> {
    strings.map_values(|s: String| s@)
}

/// The characters of an optional string.
pub open spec fn optional_text(s: Option<String>) -> Option<Seq<char>> {
    match s {
        Some(x) => Some(x@),
        None => None,
    }
}

/// The views of a sequence of keywords.
pub open spec fn keyword_views(keywords: Seq<Keyword>) -> Seq<KeywordView> {
    keywords.map_values(|k: Keyword| k@)
}

/// The descriptive names of a sequence of keywords, in order.
pub open spec fn keyword_names(keywords: Seq<Keyword>) -> Seq<Seq<char>> {
    keywords.map_values(|k: Keyword| k.descriptive_name@)
}

impl View for Keyword {
    type V = KeywordView;

    open spec fn view(&self) -> KeywordView {
        KeywordView { descriptive_name: self.descriptive_name@, aliases: texts(self.aliases@) }
    }
}

impl View for Extension {
    type V = ExtensionView;

    open spec fn view(&self) -> ExtensionView {
        ExtensionView {
            name: self.name@,
            string_symbols: texts(self.string_symbols@),
            comment_symbol: self.comment_symbol@,
            mutliline_comment_start_symbol: optional_text(self.mutliline_comment_start_symbol),
            mutliline_comment_end_symbol: optional_text(self.mutliline_comment_end_symbol),
            keywords: keyword_views(self.keywords@),
        }
    }
}

/// A copy of a vector of strings.
pub fn clone_strings(strings: &Vec<String>) -> (copy: Vec<String>)
    ensures
        texts(copy@) == texts(strings@),
{
    let mut copy: Vec<String> = Vec::new();
    let mut i: usize = 0;
    while i < strings.len()
        invariant
            i <= strings.len(),
            copy.len() == i,
            forall|j: int| 0 <= j < i ==> copy@[j]@ == strings@[j]@,
        decreases strings.len() - i,
    {
        copy.push(strings[i].clone());
        i += 1;
    }
    assert(texts(copy@) =~= texts(strings@));
    copy
}

/// A copy of an optional string.
pub fn clone_optional_string(s: &Option<String>) -> (copy: Option<String>)
    ensures
        optional_text(copy) == optional_text(*s),
{
    match s {
        Some(x) => Some(x.clone()),
        None => None,
    }
}

impl Clone for Keyword {
    fn clone(&self) -> (copy: Self)
        ensures
            copy@ == self@,
    {
        Keyword {
            descriptive_name: self.descriptive_name.clone(),
            aliases: clone_strings(&self.aliases),
        }
    }
}

impl Clone for Extension {
    fn clone(&self) -> (copy: Self)
        ensures
            copy@ == self@,
    {
        let mut keywords: Vec<Keyword> = Vec::new();
        let mut i: usize = 0;
        while i < self.keywords.len()
            invariant
                i <= self.keywords.len(),
                keywords.len() == i,
                forall|j: int| 0 <= j < i ==> keywords@[j]@ == self.keywords@[j]@,
            decreases self.keywords.len() - i,
        {
            keywords.push(self.keywords[i].clone());
            i += 1;
        }
        assert(keyword_views(keywords@) =~= keyword_views(self.keywords@));
        Extension {
            name: self.name.clone(),
            string_symbols: clone_strings(&self.string_symbols),
            comment_symbol: self.comment_symbol.clone(),
            mutliline_comment_start_symbol: clone_optional_string(
                &self.mutliline_comment_start_symbol,
            ),
            mutliline_comment_end_symbol: clone_optional_string(&self.mutliline_comment_end_symbol),
            keywords,
        }
    }
}

impl Extension {
    /// The length in bytes of the marker that opens a block comment, 0 where
    /// the language has none.
    pub fn multiline_len(&self) -> (n: usize)
        ensures
            n == match self.mutliline_comment_start_symbol {
                Some(x) => encode_utf8(x@).len(),
                None => 0,
            },
    {
        if let Some(x) = &self.mutliline_comment_start_symbol {
            x.as_str().as_bytes().len()
        } else {
            0
        }
    }

    /// Whether the language has a marker that opens a block comment.
    pub fn supports_multiline_comments(&self) -> (b: bool)
        ensures
            b == self.mutliline_comment_start_symbol.is_some(),
    {
        self.mutliline_comment_start_symbol.is_some()
    }
}

/// Line and keyword counts as mathematical values: the common shape of a
/// file's statistics and of an extension's totals.
#[verifier::ext_equal]
pub struct StatsView {
    pub lines: nat,
    pub code_lines: nat,
    pub keywords: Map<Seq<char>, nat>,
}

impl StatsView {
    /// Field-wise sum. The result has this value's keyword names; a name that
    /// `other` lacks adds nothing.
    pub open spec fn merge(self, other: StatsView) -> StatsView {
        StatsView {
            lines: self.lines + other.lines,
            code_lines: self.code_lines + other.code_lines,
            keywords: Map::new(
                |k: Seq<char>| self.keywords.dom().contains(k),
                |k: Seq<char>|
                    self.keywords[k] + if other.keywords.dom().contains(k) {
                        other.keywords[k]
                    } else {
                        0
                    },
            ),
        }
    }

    /// Whether adding `other` to this value stays within `usize` in every field.
    pub open spec fn merge_fits(self, other: StatsView) -> bool {
        &&& self.lines + other.lines <= usize::MAX
        &&& self.code_lines + other.code_lines <= usize::MAX
        &&& forall|k: Seq<char>| #[trigger]
            other.keywords.dom().contains(k) && self.keywords.dom().contains(k)
                ==> self.keywords[k] + other.keywords[k] <= usize::MAX
    }
}

/// The counts of a keyword table as natural numbers.
pub open spec fn counts_of(table: Map<Seq<char>, usize>) -> Map<Seq<char>, nat> {
    Map::new(|k: Seq<char>| table.dom().contains(k), |k: Seq<char>| table[k] as nat)
}

/// The table that holds 0 under each of `names`.
pub open spec fn zero_counts(names: Seq<Seq<char>>) -> Map<Seq<char>, nat> {
    Map::new(|k: Seq<char>| names.contains(k), |k: Seq<char>| 0nat)
}

/// Per-extension totals, summed over the files of that extension.
#[derive(Debug, PartialEq)]
pub struct ExtensionContentInfo {
    pub lines: usize,
    pub code_lines: usize,
    pub keyword_occurences: NameMap<usize>,
}

/// Per-extension discovery counters: files seen and their cumulative size.
#[derive(Debug, PartialEq, Clone, Copy)]
pub struct ExtensionMetadata {
    pub files: usize,
    pub bytes: usize,
}

/// The statistics of one file.
#[derive(Debug, PartialEq)]
pub struct FileStats {
    pub lines: usize,
    pub code_lines: usize,
    pub keyword_occurences: NameMap<usize>,
}

impl View for FileStats {
    type V = StatsView;

    open spec fn view(&self) -> StatsView {
        StatsView {
            lines: self.lines as nat,
            code_lines: self.code_lines as nat,
            keywords: counts_of(self.keyword_occurences@),
        }
    }
}

impl View for ExtensionContentInfo {
    type V = StatsView;

    open spec fn view(&self) -> StatsView {
        StatsView {
            lines: self.lines as nat,
            code_lines: self.code_lines as nat,
            keywords: counts_of(self.keyword_occurences@),
        }
    }
}

/// The names of a sequence without their repetitions: each name where it
/// occurs first.
pub open spec fn first_occurrences(names: Seq<Seq<char>>) -> Seq<Seq<char>>
    decreases names.len(),
{
    if names.len() == 0 {
        Seq::empty()
    } else if names.drop_last().contains(names.last()) {
        first_occurrences(names.drop_last())
    } else {
        first_occurrences(names.drop_last()).push(names.last())
    }
}

/// The first occurrences of a sequence of names hold the names of the
/// sequence, each once.
pub proof fn lemma_first_occurrences(names: Seq<Seq<char>>)
    ensures
        first_occurrences(names).no_duplicates(),
        forall|k: Seq<char>| first_occurrences(names).contains(k) <==> names.contains(k),
    decreases names.len(),
{
    if names.len() > 0 {
        let front = names.drop_last();
        let out = first_occurrences(names);
        let sub = first_occurrences(front);
        lemma_first_occurrences(front);
        assert forall|k: Seq<char>| out.contains(k) <==> names.contains(k) by {
            assert(sub.contains(k) <==> front.contains(k));
            if out.contains(k) {
                let j = out.index_of(k);
                assert(out[j] == k);
                if j < sub.len() {
                    assert(sub[j] == k);
                    assert(front.contains(k));
                    let f = front.index_of(k);
                    assert(front[f] == k);
                    assert(names[f] == k);
                } else {
                    assert(names[names.len() - 1] == k);
                }
            }
            if names.contains(k) {
                let j = names.index_of(k);
                assert(names[j] == k);
                if j < names.len() - 1 {
                    assert(front[j] == k);
                }
                if front.contains(k) {
                    let f = sub.index_of(k);
                    assert(sub[f] == k);
                    assert(out[f] == k);
                } else {
                    assert(out[out.len() - 1] == k);
                }
            }
        }
        if !front.contains(names.last()) {
            assert forall|i: int, j: int| 0 <= i < out.len() && 0 <= j < out.len() && i != j implies out[i]
                != out[j] by {
                if i < sub.len() && j < sub.len() {
                    assert(sub[i] != sub[j]);
                } else if i < sub.len() {
                    assert(sub.contains(sub[i]));
                } else {
                    assert(sub.contains(sub[j]));
                }
            }
        }
    }
}

/// Whether a table holds 0 under each of `names` and nothing else, the names
/// in the order of their first occurrence.
pub open spec fn seeded(table: NameMap<usize>, names: Seq<Seq<char>>) -> bool {
    &&& table.wf()
    &&& table.names() == first_occurrences(names)
    &&& forall|i: int| 0 <= i < table.values().len() ==> table.values()[i] == 0
}

/// A seeded table, as a map, holds 0 under each of the names.
pub proof fn lemma_seeded(table: NameMap<usize>, names: Seq<Seq<char>>)
    requires
        seeded(table, names),
    ensures
        counts_of(table@) == zero_counts(names),
{
    lemma_first_occurrences(names);
    assert forall|k: Seq<char>| counts_of(table@).dom().contains(k) implies counts_of(table@)[k]
        == 0 by {
        let j = table.names().index_of(k);
        assert(table.names()[j] == k);
        table.lemma_view_at(j);
    }
    assert(counts_of(table@) =~= zero_counts(names));
}

/// A table that holds 0 under the descriptive name of each keyword, the names
/// in the order of their first appearance.
pub fn get_stats_map(keywords: &[Keyword]) -> (table: NameMap<usize>)
    ensures
        seeded(table, keyword_names(keywords@)),
        counts_of(table@) == zero_counts(keyword_names(keywords@)),
{
    let ghost names = keyword_names(keywords@);
    let mut table: NameMap<usize> = NameMap::new();
    let mut i: usize = 0;
    assert(table.names() =~= first_occurrences(names.take(0)));
    while i < keywords.len()
        invariant
            i <= keywords.len(),
            names == keyword_names(keywords@),
            seeded(table, names.take(i as int)),
        decreases keywords.len() - i,
    {
        let ghost before = table;
        proof {
            lemma_first_occurrences(names.take(i as int));
            before.lemma_dom();
            assert(names.take(i + 1).drop_last() =~= names.take(i as int));
            assert(names.take(i + 1).last() == keywords@[i as int].descriptive_name@);
        }
        table.insert(keywords[i].descriptive_name.clone(), 0);
        i += 1;
    }
    proof {
        assert(names.take(i as int) =~= names);
        lemma_seeded(table, names);
    }
    table
}

/// The table of zeros for the keywords of `extension`.
pub fn get_keyword_stats_map(extension: &Extension) -> (table: NameMap<usize>)
    ensures
        seeded(table, keyword_names(extension.keywords@)),
        counts_of(table@) == zero_counts(keyword_names(extension.keywords@)),
{
    get_stats_map(extension.keywords.as_slice())
}

/// Adds to each count of `target` the count that `source` holds under the
/// same name. Every name of `source` must be a name of `target`.
pub fn add_counts(target: &mut NameMap<usize>, source: &NameMap<usize>)
    requires
        old(target).wf(),
        source.wf(),
        forall|k: Seq<char>| source@.dom().contains(k) ==> old(target)@.dom().contains(k),
        forall|k: Seq<char>| #[trigger]
            source@.dom().contains(k) ==> old(target)@[k] + source@[k] <= usize::MAX,
    ensures
        final(target).wf(),
        final(target).names() == old(target).names(),
        final(target)@.dom() == old(target)@.dom(),
        forall|k: Seq<char>| #[trigger]
            final(target)@.dom().contains(k) ==> final(target)@[k] == old(target)@[k] + if source@.dom().contains(
                k,
            ) {
                source@[k] as int
            } else {
                0
            },
{
    let ghost base = target@;
    let ghost names = source.names();
    let n = source.len();
    let mut i: usize = 0;
    while i < n
        invariant
            i <= n,
            n == source.names().len(),
            names == source.names(),
            source.wf(),
            target.wf(),
            target.names() == old(target).names(),
            target@.dom() == base.dom(),
            base == old(target)@,
            forall|k: Seq<char>| source@.dom().contains(k) ==> base.dom().contains(k),
            forall|k: Seq<char>| #[trigger]
                source@.dom().contains(k) ==> base[k] + source@[k] <= usize::MAX,
            forall|k: Seq<char>| #[trigger]
                target@.dom().contains(k) ==> target@[k] == base[k] + if names.take(i as int).contains(
                    k,
                ) {
                    source@[k] as int
                } else {
                    0
                },
        decreases n - i,
    {
        let name = source.name_at(i);
        let amount = *source.value_at(i);
        proof {
            source.lemma_view_at(i as int);
            assert(!names.take(i as int).contains(name@)) by {
                if names.take(i as int).contains(name@) {
                    let j = names.take(i as int).index_of(name@);
                    assert(names[j] == names[i as int]);
                }
            }
        }
        let ghost mid = target@;
        match target.index_of(name.as_str()) {
            Some(at) => {
                proof {
                    target.lemma_view_at(at as int);
                }
                let current = *target.value_at(at);
                target.replace_at(at, current + amount);
            },
            None => {
                assert(false);
            },
        }
        proof {
            assert(names.take(i + 1) =~= names.take(i as int).push(name@));
            assert forall|k: Seq<char>| #[trigger] target@.dom().contains(k) implies target@[k]
                == base[k] + if names.take(i + 1).contains(k) {
                source@[k] as int
            } else {
                0
            } by {
                assert(mid.dom().contains(k));
                if k == name@ {
                    assert(names.take(i + 1)[i as int] == k);
                } else {
                    if names.take(i as int).contains(k) {
                        let j = names.take(i as int).index_of(k);
                        assert(names.take(i + 1)[j] == k);
                    }
                    if names.take(i + 1).contains(k) {
                        let j = names.take(i + 1).index_of(k);
                        assert(names.take(i as int)[j] == k);
                    }
                }
            }
            assert(target@.dom() =~= base.dom());
        }
        i += 1;
    }
    proof {
        assert(names.take(i as int) =~= names);
    }
}

impl ExtensionContentInfo {
    pub fn new(lines: usize, code_lines: usize, keyword_occurences: NameMap<usize>) -> (info:
        ExtensionContentInfo)
        ensures
            info.lines == lines,
            info.code_lines == code_lines,
            info.keyword_occurences == keyword_occurences,
    {
        ExtensionContentInfo { lines, code_lines, keyword_occurences }
    }

    /// Totals that hold a line count and nothing else.
    pub fn dummy(lines: usize) -> (info: ExtensionContentInfo)
        ensures
            info.keyword_occurences.wf(),
            info@ == (StatsView { lines: lines as nat, code_lines: 0, keywords: Map::empty() }),
    {
        let info = ExtensionContentInfo {
            lines,
            code_lines: 0,
            keyword_occurences: NameMap::new(),
        };
        assert(info@.keywords =~= Map::<Seq<char>, nat>::empty());
        info
    }

    /// Whether `other` can be added to these totals: every keyword name of
    /// `other` is one of theirs, and no sum leaves `usize`.
    pub open spec fn accepts(&self, other: StatsView) -> bool {
        &&& self.keyword_occurences.wf()
        &&& self@.merge_fits(other)
        &&& forall|k: Seq<char>|
            other.keywords.dom().contains(k) ==> self@.keywords.dom().contains(k)
    }

    /// Folds the statistics of one file into the totals, field by field.
    pub fn add_file_stats(&mut self, other: FileStats)
        requires
            other.keyword_occurences.wf(),
            old(self).accepts(other@),
        ensures
            final(self)@ == old(self)@.merge(other@),
            final(self).keyword_occurences.wf(),
            final(self).keyword_occurences.names() == old(self).keyword_occurences.names(),
    {
        proof {
            lemma_accepts(*self, other.keyword_occurences@, other@);
        }
        self.lines += other.lines;
        self.code_lines += other.code_lines;
        add_counts(&mut self.keyword_occurences, &other.keyword_occurences);
        proof {
            lemma_counts_added(
                old(self).keyword_occurences@,
                other.keyword_occurences@,
                self.keyword_occurences@,
            );
        }
    }

    /// Folds other totals into these, field by field.
    pub fn add_content_info(&mut self, other: &ExtensionContentInfo)
        requires
            other.keyword_occurences.wf(),
            old(self).accepts(other@),
        ensures
            final(self)@ == old(self)@.merge(other@),
            final(self).keyword_occurences.wf(),
            final(self).keyword_occurences.names() == old(self).keyword_occurences.names(),
    {
        proof {
            lemma_accepts(*self, other.keyword_occurences@, other@);
        }
        self.lines += other.lines;
        self.code_lines += other.code_lines;
        add_counts(&mut self.keyword_occurences, &other.keyword_occurences);
        proof {
            lemma_counts_added(
                old(self).keyword_occurences@,
                other.keyword_occurences@,
                self.keyword_occurences@,
            );
        }
    }
}

impl From<FileStats> for ExtensionContentInfo {
    /// The totals of a single file.
    fn from(stats: FileStats) -> (info: Self) {
        ExtensionContentInfo {
            lines: stats.lines,
            code_lines: stats.code_lines,
            keyword_occurences: stats.keyword_occurences,
        }
    }
}

impl vstd::std_specs::convert::FromSpecImpl<FileStats> for ExtensionContentInfo {
    open spec fn obeys_from_spec() -> bool {
        true
    }

    open spec fn from_spec(stats: FileStats) -> Self {
        ExtensionContentInfo {
            lines: stats.lines,
            code_lines: stats.code_lines,
            keyword_occurences: stats.keyword_occurences,
        }
    }
}

impl From<&Extension> for ExtensionContentInfo {
    /// Empty totals for a language, with a zero under each keyword name.
    fn from(ext: &Extension) -> (info: Self)
        ensures
            seeded(info.keyword_occurences, keyword_names(ext.keywords@)),
            info@ == (StatsView {
                lines: 0,
                code_lines: 0,
                keywords: zero_counts(keyword_names(ext.keywords@)),
            }),
    {
        ExtensionContentInfo {
            lines: 0,
            code_lines: 0,
            keyword_occurences: get_keyword_stats_map(ext),
        }
    }
}

impl vstd::std_specs::convert::FromSpecImpl<&Extension> for ExtensionContentInfo {
    open spec fn obeys_from_spec() -> bool {
        false
    }

    open spec fn from_spec(ext: &Extension) -> Self {
        arbitrary()
    }
}

proof fn lemma_accepts(info: ExtensionContentInfo, table: Map<Seq<char>, usize>, other: StatsView)
    requires
        info.accepts(other),
        other.keywords == counts_of(table),
    ensures
        forall|k: Seq<char>| table.dom().contains(k) ==> info.keyword_occurences@.dom().contains(k),
        forall|k: Seq<char>| #[trigger]
            table.dom().contains(k) ==> info.keyword_occurences@[k] + table[k] <= usize::MAX,
{
    assert forall|k: Seq<char>| table.dom().contains(k) implies info.keyword_occurences@.dom().contains(
        k,
    ) && info.keyword_occurences@[k] + table[k] <= usize::MAX by {
        assert(other.keywords.dom().contains(k));
        assert(info@.keywords.dom().contains(k));
        assert(info@.keywords[k] + other.keywords[k] <= usize::MAX);
    }
}

proof fn lemma_counts_added(
    base: Map<Seq<char>, usize>,
    source: Map<Seq<char>, usize>,
    after: Map<Seq<char>, usize>,
)
    requires
        after.dom() == base.dom(),
        forall|k: Seq<char>| #[trigger]
            after.dom().contains(k) ==> after[k] == base[k] + if source.dom().contains(k) {
                source[k] as int
            } else {
                0
            },
    ensures
        counts_of(after) == (StatsView { lines: 0, code_lines: 0, keywords: counts_of(base) }).merge(
            StatsView { lines: 0, code_lines: 0, keywords: counts_of(source) },
        ).keywords,
{
    let merged = (StatsView { lines: 0, code_lines: 0, keywords: counts_of(base) }).merge(
        StatsView { lines: 0, code_lines: 0, keywords: counts_of(source) },
    ).keywords;
    assert forall|k: Seq<char>| counts_of(after).dom().contains(k) implies counts_of(after)[k]
        == merged[k] by {
        assert(after.dom().contains(k));
    }
    assert(counts_of(after) =~= merged);
}

impl ExtensionMetadata {
    pub fn new(files: usize, bytes: usize) -> (m: ExtensionMetadata)
        ensures
            m.files == files,
            m.bytes == bytes,
    {
        ExtensionMetadata { files, bytes }
    }

    /// Records one more file of `bytes` bytes.
    pub fn add_file_meta(&mut self, bytes: usize)
        requires
            old(self).files < usize::MAX,
            old(self).bytes + bytes <= usize::MAX,
        ensures
            final(self).files == old(self).files + 1,
            final(self).bytes == old(self).bytes + bytes,
    {
        self.files += 1;
        self.bytes += bytes;
    }
}

impl Default for ExtensionMetadata {
    fn default() -> (m: ExtensionMetadata)
        ensures
            m.files == 0,
            m.bytes == 0,
    {
        ExtensionMetadata { files: 0, bytes: 0 }
    }
}

impl FileStats {
    /// Empty statistics for a file of a language with the given keywords.
    pub fn default(keywords: &[Keyword]) -> (stats: FileStats)
        ensures
            seeded(stats.keyword_occurences, keyword_names(keywords@)),
            stats@ == (StatsView {
                lines: 0,
                code_lines: 0,
                keywords: zero_counts(keyword_names(keywords@)),
            }),
    {
        FileStats { lines: 0, code_lines: 0, keyword_occurences: get_stats_map(keywords) }
    }

    pub fn incr_lines(&mut self)
        requires
            old(self).lines < usize::MAX,
        ensures
            final(self).lines == old(self).lines + 1,
            final(self).code_lines == old(self).code_lines,
            final(self).keyword_occurences == old(self).keyword_occurences,
    {
        self.lines += 1;
    }

    pub fn incr_code_lines(&mut self)
        requires
            old(self).code_lines < usize::MAX,
        ensures
            final(self).code_lines == old(self).code_lines + 1,
            final(self).lines == old(self).lines,
            final(self).keyword_occurences == old(self).keyword_occurences,
    {
        self.code_lines += 1;
    }

    /// Counts one more occurrence under `keyword_name`, which must be one of
    /// the names the statistics were made with.
    pub fn incr_keyword(&mut self, keyword_name: &str)
        requires
            old(self).keyword_occurences.wf(),
            old(self).keyword_occurences@.dom().contains(keyword_name@),
            old(self).keyword_occurences@[keyword_name@] < usize::MAX,
        ensures
            final(self).keyword_occurences.wf(),
            final(self).lines == old(self).lines,
            final(self).code_lines == old(self).code_lines,
            final(self).keyword_occurences@ == old(self).keyword_occurences@.insert(
                keyword_name@,
                (old(self).keyword_occurences@[keyword_name@] + 1) as usize,
            ),
            final(self).keyword_occurences.names() == old(self).keyword_occurences.names(),
    {
        let found = self.keyword_occurences.index_of(keyword_name);
        match found {
            Some(i) => {
                proof {
                    self.keyword_occurences.lemma_view_at(i as int);
                }
                let count = *self.keyword_occurences.value_at(i);
                self.keyword_occurences.replace_at(i, count + 1);
            },
            None => {
                assert(false);
            },
        }
    }
}

} // verus!
