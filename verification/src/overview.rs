//! What the overview shows: the three extensions that appeared most, and one
//! entry for all the others together.

use vstd::prelude::*;
use vstd::string::StringExecFns;
use crate::domain::{texts, ExtensionContentInfo, ExtensionMetadata, StatsView};
use crate::name_map::{entry_values, kept, upsert, NameMap};
use crate::totals::{by_bytes, by_files, by_lines, lemma_total_prefix, total_of};

verus! {

/// The sum over the entries that are kept is no more than the sum over all.
pub proof fn lemma_kept_total<V>(
    entries: Seq<(Seq<char>, V)>,
    listed: Seq<Seq<char>>,
    keep_listed: bool,
    weigh: spec_fn(V) -> usize,
)
    ensures
        total_of(entry_values(kept(entries, listed, keep_listed)), weigh) <= total_of(
            entry_values(entries),
            weigh,
        ),
    decreases entries.len(),
{
    if entries.len() > 0 {
        let front = entries.drop_last();
        lemma_kept_total(front, listed, keep_listed, weigh);
        assert(entry_values(entries).drop_last() =~= entry_values(front));
        let sub = kept(front, listed, keep_listed);
        if listed.contains(entries.last().0) == keep_listed {
            assert(entry_values(sub.push(entries.last())).drop_last() =~= entry_values(sub));
        }
    } else {
        assert(entry_values(kept(entries, listed, keep_listed)) =~= entry_values(entries));
    }
}

/// Whether the files, lines and bytes of two tables each add up within
/// `usize`.
pub open spec fn sums_fit(
    content: Seq<ExtensionContentInfo>,
    metadata: Seq<ExtensionMetadata>,
) -> bool {
    &&& total_of(content, by_lines()) <= usize::MAX
    &&& total_of(metadata, by_files()) <= usize::MAX
    &&& total_of(metadata, by_bytes()) <= usize::MAX
}

/// The files, lines and bytes of all extensions together.
pub fn get_files_lines_size(
    content_info_map: &NameMap<ExtensionContentInfo>,
    extensions_metadata_map: &NameMap<ExtensionMetadata>,
) -> (sums: (usize, usize, usize))
    requires
        content_info_map.wf(),
        extensions_metadata_map.wf(),
        sums_fit(content_info_map.values(), extensions_metadata_map.values()),
    ensures
        sums.0 == total_of(extensions_metadata_map.values(), by_files()),
        sums.1 == total_of(content_info_map.values(), by_lines()),
        sums.2 == total_of(extensions_metadata_map.values(), by_bytes()),
{
    let ghost content = content_info_map.values();
    let ghost metadata = extensions_metadata_map.values();
    let mut lines: usize = 0;
    let n = content_info_map.len();
    let mut i: usize = 0;
    while i < n
        invariant
            i <= n,
            n == content.len(),
            content == content_info_map.values(),
            total_of(content, by_lines()) <= usize::MAX,
            lines == total_of(content.take(i as int), by_lines()),
        decreases n - i,
    {
        proof {
            lemma_total_prefix(content, i + 1, by_lines());
            assert(content.take(i + 1).drop_last() =~= content.take(i as int));
        }
        lines += content_info_map.value_at(i).lines;
        i += 1;
    }
    assert(content.take(n as int) =~= content);
    let mut files: usize = 0;
    let mut size: usize = 0;
    let m = extensions_metadata_map.len();
    let mut k: usize = 0;
    while k < m
        invariant
            k <= m,
            m == metadata.len(),
            metadata == extensions_metadata_map.values(),
            total_of(metadata, by_files()) <= usize::MAX,
            total_of(metadata, by_bytes()) <= usize::MAX,
            files == total_of(metadata.take(k as int), by_files()),
            size == total_of(metadata.take(k as int), by_bytes()),
        decreases m - k,
    {
        proof {
            lemma_total_prefix(metadata, k + 1, by_files());
            lemma_total_prefix(metadata, k + 1, by_bytes());
            assert(metadata.take(k + 1).drop_last() =~= metadata.take(k as int));
        }
        files += extensions_metadata_map.value_at(k).files;
        size += extensions_metadata_map.value_at(k).bytes;
        k += 1;
    }
    assert(metadata.take(m as int) =~= metadata);
    (files, lines, size)
}

/// The names that the overview lists: of more than four, the first three and
/// `others`.
pub open spec fn overview_names(names: Seq<Seq<char>>) -> Seq<Seq<char>> {
    if names.len() > 4 {
        names.take(3).push("others"@)
    } else {
        names
    }
}

/// The entries that the overview keeps by themselves: with more than four
/// names, those that the overview lists.
pub open spec fn overview_entries<V>(entries: Seq<(Seq<char>, V)>, names: Seq<Seq<char>>) -> Seq<
    (Seq<char>, V),
> {
    if names.len() > 4 {
        kept(entries, overview_names(names), true)
    } else {
        entries
    }
}

/// Cuts the tables down to what the overview shows. Of more than four sorted
/// names only the first three stay, followed by `others`, and the tables
/// keep the entries of the names that stay. Both tables then get an entry
/// `others` that holds what the tables have lost: the files, lines and bytes
/// of all extensions less those of the entries kept.
pub fn retain_most_relevant_and_add_others_field_for_rest(
    sorted_extension_names: &mut Vec<String>,
    content_info_map: &mut NameMap<ExtensionContentInfo>,
    extensions_metadata_map: &mut NameMap<ExtensionMetadata>,
)
    requires
        old(content_info_map).wf(),
        old(extensions_metadata_map).wf(),
        sums_fit(old(content_info_map).values(), old(extensions_metadata_map).values()),
    ensures
        final(content_info_map).wf(),
        final(extensions_metadata_map).wf(),
        texts(final(sorted_extension_names)@) == overview_names(
            texts(old(sorted_extension_names)@),
        ),
        ({
            let names = texts(old(sorted_extension_names)@);
            let metadata = overview_entries(old(extensions_metadata_map).entries(), names);
            let all = old(extensions_metadata_map).values();
            final(extensions_metadata_map).entries() == upsert(
                metadata,
                "others"@,
                ExtensionMetadata {
                    files: (total_of(all, by_files()) - total_of(
                        entry_values(metadata),
                        by_files(),
                    )) as usize,
                    bytes: (total_of(all, by_bytes()) - total_of(
                        entry_values(metadata),
                        by_bytes(),
                    )) as usize,
                },
            )
        }),
        ({
            let names = texts(old(sorted_extension_names)@);
            let content = overview_entries(old(content_info_map).entries(), names);
            let all = old(content_info_map).values();
            let others = final(content_info_map)@["others"@];
            &&& final(content_info_map).entries() == upsert(content, "others"@, others)
            &&& others.keyword_occurences.wf()
            &&& others@ == (StatsView {
                lines: (total_of(all, by_lines()) - total_of(entry_values(content), by_lines()))
                    as nat,
                code_lines: 0,
                keywords: Map::empty(),
            })
        }),
{
    let ghost names = texts(sorted_extension_names@);
    let ghost all_content = content_info_map.entries();
    let ghost all_metadata = extensions_metadata_map.entries();
    let (total_files, total_lines, total_size) = get_files_lines_size(
        content_info_map,
        extensions_metadata_map,
    );
    if sorted_extension_names.len() > 4 {
        sorted_extension_names.truncate(3);
        sorted_extension_names.push(String::from_str("others"));
        proof {
            assert(texts(sorted_extension_names@) =~= overview_names(names));
        }
        content_info_map.retain_listed(sorted_extension_names, true);
        extensions_metadata_map.retain_listed(sorted_extension_names, true);
        proof {
            lemma_kept_total(all_content, overview_names(names), true, by_lines());
            lemma_kept_total(all_metadata, overview_names(names), true, by_files());
            lemma_kept_total(all_metadata, overview_names(names), true, by_bytes());
        }
    }
    let (relevant_files, relevant_lines, relevant_size) = get_files_lines_size(
        content_info_map,
        extensions_metadata_map,
    );
    let others = ExtensionContentInfo::dummy(total_lines - relevant_lines);
    content_info_map.insert(String::from_str("others"), others);
    extensions_metadata_map.insert(
        String::from_str("others"),
        ExtensionMetadata::new(total_files - relevant_files, total_size - relevant_size),
    );
}

} // verus!
