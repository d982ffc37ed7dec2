//! What a report is made from: the extensions that have files, in the order
//! of their share, and the keyword totals over all of them. Turning these
//! into text is the caller's part.

use vstd::prelude::*;
use crate::domain::{
    first_occurrences, lemma_first_occurrences, ExtensionContentInfo, ExtensionMetadata,
};
use crate::name_map::{kept, NameMap};
use crate::ranking::{indexed, lemma_sort_desc, rank, sort_desc, Ranked};

verus! {

/// The names of the entries that count no file, in their order.
pub open spec fn zero_file_names(entries: Seq<(Seq<char>, ExtensionMetadata)>) -> Seq<Seq<char>>
    decreases entries.len(),
{
    if entries.len() == 0 {
        Seq::empty()
    } else if entries.last().1.files == 0 {
        zero_file_names(entries.drop_last()).push(entries.last().0)
    } else {
        zero_file_names(entries.drop_last())
    }
}

/// A name is among the names without files exactly when an entry of that name
/// counts no file.
pub proof fn lemma_zero_file_names(entries: Seq<(Seq<char>, ExtensionMetadata)>, name: Seq<char>)
    ensures
        zero_file_names(entries).contains(name) <==> exists|i: int|
            0 <= i < entries.len() && (#[trigger] entries[i]).0 == name && entries[i].1.files == 0,
    decreases entries.len(),
{
    if entries.len() > 0 {
        let front = entries.drop_last();
        let names = zero_file_names(entries);
        lemma_zero_file_names(front, name);
        if zero_file_names(front).contains(name) {
            let i = choose|i: int|
                0 <= i < front.len() && (#[trigger] front[i]).0 == name && front[i].1.files == 0;
            assert(entries[i] == front[i]);
            let at = zero_file_names(front).index_of(name);
            assert(names[at] == name);
        }
        if entries.last().0 == name && entries.last().1.files == 0 {
            assert(names[names.len() - 1] == name);
            assert(entries[entries.len() - 1].0 == name);
        }
        if names.contains(name) {
            let at = names.index_of(name);
            assert(names[at] == name);
            if entries.last().1.files == 0 && at == names.len() - 1 {
                assert(entries[entries.len() - 1].0 == name);
            } else {
                assert(zero_file_names(front)[at] == name);
                assert(zero_file_names(front).contains(name));
            }
        }
        if exists|i: int|
            0 <= i < entries.len() && (#[trigger] entries[i]).0 == name && entries[i].1.files == 0 {
            let i = choose|i: int|
                0 <= i < entries.len() && (#[trigger] entries[i]).0 == name && entries[i].1.files
                    == 0;
            if i < entries.len() - 1 {
                assert(front[i] == entries[i]);
            }
        }
    }
}

/// What is kept of a sequence of entries are the entries that pass the test,
/// and all of them.
pub proof fn lemma_kept<V>(entries: Seq<(Seq<char>, V)>, listed: Seq<Seq<char>>, keep_listed: bool)
    ensures
        kept(entries, listed, keep_listed).len() <= entries.len(),
        forall|i: int|
            0 <= i < kept(entries, listed, keep_listed).len() ==> entries.contains(
                #[trigger] kept(entries, listed, keep_listed)[i],
            ) && listed.contains(kept(entries, listed, keep_listed)[i].0) == keep_listed,
        forall|i: int|
            0 <= i < entries.len() && listed.contains((#[trigger] entries[i]).0) == keep_listed
                ==> kept(entries, listed, keep_listed).contains(entries[i]),
    decreases entries.len(),
{
    if entries.len() > 0 {
        let front = entries.drop_last();
        let out = kept(entries, listed, keep_listed);
        let sub = kept(front, listed, keep_listed);
        lemma_kept(front, listed, keep_listed);
        assert forall|i: int| 0 <= i < out.len() implies entries.contains(#[trigger] out[i])
            && listed.contains(out[i].0) == keep_listed by {
            if i < sub.len() {
                assert(out[i] == sub[i]);
                assert(front.contains(sub[i]));
                let j = front.index_of(sub[i]);
                assert(entries[j] == sub[i]);
            } else {
                assert(out[i] == entries[entries.len() - 1]);
            }
        }
        assert forall|i: int|
            0 <= i < entries.len() && listed.contains((#[trigger] entries[i]).0)
                == keep_listed implies out.contains(entries[i]) by {
            if i < entries.len() - 1 {
                assert(front[i] == entries[i]);
                assert(sub.contains(front[i]));
                let j = sub.index_of(front[i]);
                assert(out[j] == entries[i]);
            } else {
                assert(out[out.len() - 1] == entries[i]);
            }
        }
    }
}

/// Drops, from both tables, every extension that counts no file. The other
/// entries keep their order.
pub fn remove_extensions_with_0_files(
    content_info_map: &mut NameMap<ExtensionContentInfo>,
    extensions_metadata_map: &mut NameMap<ExtensionMetadata>,
)
    requires
        old(content_info_map).wf(),
        old(extensions_metadata_map).wf(),
    ensures
        final(content_info_map).wf(),
        final(extensions_metadata_map).wf(),
        final(extensions_metadata_map).entries() == kept(
            old(extensions_metadata_map).entries(),
            zero_file_names(old(extensions_metadata_map).entries()),
            false,
        ),
        final(content_info_map).entries() == kept(
            old(content_info_map).entries(),
            zero_file_names(old(extensions_metadata_map).entries()),
            false,
        ),
        forall|i: int|
            0 <= i < final(extensions_metadata_map).values().len() ==> (
            #[trigger] final(extensions_metadata_map).values()[i]).files != 0,
{
    let ghost entries = extensions_metadata_map.entries();
    let mut empty_extensions: Vec<String> = Vec::new();
    let n = extensions_metadata_map.len();
    let mut i: usize = 0;
    while i < n
        invariant
            i <= n,
            n == entries.len(),
            entries == extensions_metadata_map.entries(),
            empty_extensions@.map_values(|s: String| s@) == zero_file_names(entries.take(i as int)),
        decreases n - i,
    {
        proof {
            assert(entries.take(i + 1).drop_last() =~= entries.take(i as int));
            assert(entries.take(i + 1).last() == entries[i as int]);
            assert(extensions_metadata_map.names()[i as int] == entries[i as int].0);
            assert(extensions_metadata_map.values()[i as int] == entries[i as int].1);
        }
        if extensions_metadata_map.value_at(i).files == 0 {
            let ghost before = empty_extensions@.map_values(|s: String| s@);
            empty_extensions.push(extensions_metadata_map.name_at(i).clone());
            assert(empty_extensions@.map_values(|s: String| s@) =~= before.push(
                entries[i as int].0,
            ));
        }
        i += 1;
    }
    assert(entries.take(n as int) =~= entries);
    extensions_metadata_map.retain_listed(&empty_extensions, false);
    content_info_map.retain_listed(&empty_extensions, false);
    proof {
        let gone = zero_file_names(entries);
        let out = extensions_metadata_map.entries();
        lemma_kept(entries, gone, false);
        assert forall|k: int| 0 <= k < extensions_metadata_map.values().len() implies (
        #[trigger] extensions_metadata_map.values()[k]).files != 0 by {
            assert(extensions_metadata_map.values()[k] == out[k].1);
            assert(entries.contains(out[k]));
            assert(!gone.contains(out[k].0));
            let j = entries.index_of(out[k]);
            assert(entries[j] == out[k]);
            lemma_zero_file_names(entries, out[k].0);
        }
    }
}

/// The weight by which an extension is ranked: ten for each file, one for
/// each byte.
pub open spec fn appearance(m: ExtensionMetadata) -> int {
    m.files * 10 + m.bytes
}

/// The weights of a sequence of counters.
pub open spec fn appearances(values: Seq<ExtensionMetadata>) -> Seq<usize> {
    values.map_values(|m: ExtensionMetadata| appearance(m) as usize)
}

/// Whether the weight of every counter fits in `usize`.
pub open spec fn appearances_fit(values: Seq<ExtensionMetadata>) -> bool {
    forall|i: int| 0 <= i < values.len() ==> appearance(#[trigger] values[i]) <= usize::MAX
}

/// The names in the order of a ranking of their positions.
pub open spec fn names_in_order(names: Seq<Seq<char>>, ranking: Seq<Ranked>) -> Seq<Seq<char>> {
    ranking.map_values(|r: Ranked| names[r.index as int])
}

/// The names of the extensions, the one that appeared most first. Extensions
/// of equal weight keep the order that they have in the table.
pub fn get_extension_names_as_sorted_vec_according_to_how_much_they_appeared(
    extensions_metadata_map: &NameMap<ExtensionMetadata>,
) -> (sorted: Vec<String>)
    requires
        extensions_metadata_map.wf(),
        appearances_fit(extensions_metadata_map.values()),
    ensures
        sorted@.map_values(|s: String| s@) == names_in_order(
            extensions_metadata_map.names(),
            sort_desc(indexed(appearances(extensions_metadata_map.values()))),
        ),
        sorted.len() == extensions_metadata_map.names().len(),
{
    let ghost values = extensions_metadata_map.values();
    let ghost names = extensions_metadata_map.names();
    let n = extensions_metadata_map.len();
    let mut weights: Vec<usize> = Vec::new();
    let mut i: usize = 0;
    while i < n
        invariant
            i <= n,
            n == values.len(),
            values == extensions_metadata_map.values(),
            appearances_fit(values),
            weights@ == appearances(values.take(i as int)),
        decreases n - i,
    {
        let m = extensions_metadata_map.value_at(i);
        assert(appearance(values[i as int]) <= usize::MAX);
        weights.push(m.files * 10 + m.bytes);
        assert(weights@ =~= appearances(values.take(i + 1)));
        i += 1;
    }
    assert(values.take(n as int) =~= values);
    let ranking = rank(&weights);
    proof {
        lemma_sort_desc(indexed(weights@));
    }
    let mut sorted: Vec<String> = Vec::new();
    let mut k: usize = 0;
    while k < ranking.len()
        invariant
            k <= ranking.len(),
            ranking.len() == n,
            n == names.len(),
            names == extensions_metadata_map.names(),
            forall|j: int| 0 <= j < ranking.len() ==> (#[trigger] ranking@[j]).index < n,
            sorted@.map_values(|s: String| s@) == names_in_order(names, ranking@.take(k as int)),
        decreases ranking.len() - k,
    {
        let at = ranking[k].index;
        let ghost before = sorted@.map_values(|s: String| s@);
        sorted.push(extensions_metadata_map.name_at(at).clone());
        assert(sorted@.map_values(|s: String| s@) =~= before.push(names[at as int]));
        assert(names_in_order(names, ranking@.take(k + 1)) =~= names_in_order(
            names,
            ranking@.take(k as int),
        ).push(names[at as int]));
        k += 1;
    }
    assert(ranking@.take(k as int) =~= ranking@);
    sorted
}

/// Prepares the two tables for a report and returns the names of the
/// extensions in the order in which the report lists them: extensions
/// without files are dropped from both tables, and the others are ordered by
/// how much they appeared. Printing is left to the caller.
pub fn format_and_print_results(
    content_info_map: &mut NameMap<ExtensionContentInfo>,
    extensions_metadata_map: &mut NameMap<ExtensionMetadata>,
) -> (sorted_extension_names: Vec<String>)
    requires
        old(content_info_map).wf(),
        old(extensions_metadata_map).wf(),
        appearances_fit(old(extensions_metadata_map).values()),
    ensures
        final(content_info_map).wf(),
        final(extensions_metadata_map).wf(),
        final(extensions_metadata_map).entries() == kept(
            old(extensions_metadata_map).entries(),
            zero_file_names(old(extensions_metadata_map).entries()),
            false,
        ),
        final(content_info_map).entries() == kept(
            old(content_info_map).entries(),
            zero_file_names(old(extensions_metadata_map).entries()),
            false,
        ),
        sorted_extension_names@.map_values(|s: String| s@) == names_in_order(
            final(extensions_metadata_map).names(),
            sort_desc(indexed(appearances(final(extensions_metadata_map).values()))),
        ),
{
    let ghost entries = extensions_metadata_map.entries();
    let ghost values = extensions_metadata_map.values();
    remove_extensions_with_0_files(content_info_map, extensions_metadata_map);
    proof {
        let out = extensions_metadata_map.entries();
        lemma_kept(entries, zero_file_names(entries), false);
        assert forall|i: int| 0 <= i < extensions_metadata_map.values().len() implies appearance(
            #[trigger] extensions_metadata_map.values()[i],
        ) <= usize::MAX by {
            assert(extensions_metadata_map.values()[i] == out[i].1);
            assert(entries.contains(out[i]));
            let j = entries.index_of(out[i]);
            assert(values[j] == entries[j].1);
        }
    }
    get_extension_names_as_sorted_vec_according_to_how_much_they_appeared(extensions_metadata_map)
}

/// How often the keyword `name` occurred in the files of one extension.
pub open spec fn count_in(info: ExtensionContentInfo, name: Seq<char>) -> nat {
    if info.keyword_occurences@.dom().contains(name) {
        info.keyword_occurences@[name] as nat
    } else {
        0
    }
}

/// How often the keyword `name` occurred in the files of all extensions.
pub open spec fn keyword_total(totals: Seq<ExtensionContentInfo>, name: Seq<char>) -> nat
    decreases totals.len(),
{
    if totals.len() == 0 {
        0
    } else {
        keyword_total(totals.drop_last(), name) + count_in(totals.last(), name)
    }
}

/// Whether the total of every keyword fits in `usize`.
pub open spec fn keyword_totals_fit(totals: Seq<ExtensionContentInfo>) -> bool {
    forall|name: Seq<char>| #[trigger] keyword_total(totals, name) <= usize::MAX
}

/// The total over the first few extensions is no more than the total over all.
pub proof fn lemma_keyword_total_prefix(
    totals: Seq<ExtensionContentInfo>,
    i: int,
    name: Seq<char>,
)
    requires
        0 <= i <= totals.len(),
    ensures
        keyword_total(totals.take(i), name) <= keyword_total(totals, name),
    decreases totals.len() - i,
{
    if i < totals.len() {
        lemma_keyword_total_prefix(totals, i + 1, name);
        assert(totals.take(i + 1).drop_last() =~= totals.take(i));
    } else {
        assert(totals.take(i) =~= totals);
    }
}

/// The total of `name` over the extensions before `info`, and over the
/// keywords of `info` that `seen` lists.
pub open spec fn running_total(
    earlier: Seq<ExtensionContentInfo>,
    info: ExtensionContentInfo,
    seen: Seq<Seq<char>>,
    name: Seq<char>,
) -> nat {
    keyword_total(earlier, name) + if seen.contains(name) {
        count_in(info, name)
    } else {
        0
    }
}

/// Whether `sums` holds exactly the keywords whose running total is positive,
/// each with that total.
pub open spec fn sums_match(
    sums: Map<Seq<char>, usize>,
    earlier: Seq<ExtensionContentInfo>,
    info: ExtensionContentInfo,
    seen: Seq<Seq<char>>,
) -> bool {
    forall|name: Seq<char>|
        (sums.dom().contains(name) <==> #[trigger] running_total(earlier, info, seen, name) > 0)
            && (sums.dom().contains(name) ==> sums[name] == running_total(
            earlier,
            info,
            seen,
            name,
        ))
}

/// Whether `sums` holds exactly the keywords that occurred, each with the
/// number of its occurrences over all extensions.
pub open spec fn sums_up(sums: Map<Seq<char>, usize>, totals: Seq<ExtensionContentInfo>) -> bool {
    forall|name: Seq<char>|
        (sums.dom().contains(name) <==> #[trigger] keyword_total(totals, name) > 0) && (
        sums.dom().contains(name) ==> sums[name] == keyword_total(totals, name))
}

/// The names among the first `n` that have a count other than zero, in
/// their order.
pub open spec fn nonzero_names(names: Seq<Seq<char>>, counts: Seq<usize>, n: int) -> Seq<Seq<char>>
    decreases n,
{
    if n <= 0 {
        Seq::empty()
    } else if counts[n - 1] != 0 {
        nonzero_names(names, counts, n - 1).push(names[n - 1])
    } else {
        nonzero_names(names, counts, n - 1)
    }
}

/// The keywords that occurred in the first `n` extensions, extension by
/// extension, each extension's keywords in their order.
pub open spec fn occurring(totals: Seq<ExtensionContentInfo>, n: int) -> Seq<Seq<char>>
    decreases n,
{
    if n <= 0 {
        Seq::empty()
    } else {
        let table = totals[n - 1].keyword_occurences;
        occurring(totals, n - 1) + nonzero_names(
            table.names(),
            table.values(),
            table.names().len() as int,
        )
    }
}

/// Adds the keywords of one extension to the sums.
fn add_keyword_sums(
    sums: &mut NameMap<usize>,
    info: &ExtensionContentInfo,
    Ghost(earlier): Ghost<Seq<ExtensionContentInfo>>,
    Ghost(all): Ghost<Seq<ExtensionContentInfo>>,
    Ghost(at): Ghost<int>,
)
    requires
        old(sums).wf(),
        info.keyword_occurences.wf(),
        0 <= at < all.len(),
        earlier == all.take(at),
        all[at] == *info,
        keyword_totals_fit(all),
        sums_up(old(sums)@, earlier),
        old(sums).names() == first_occurrences(occurring(all, at)),
    ensures
        final(sums).wf(),
        sums_up(final(sums)@, all.take(at + 1)),
        final(sums).names() == first_occurrences(occurring(all, at + 1)),
{
    let table = &info.keyword_occurences;
    let ghost names = table.names();
    let ghost counts = table.values();
    let ghost head = occurring(all, at);
    let n = table.len();
    let mut j: usize = 0;
    proof {
        assert(head + nonzero_names(names, counts, 0) =~= head);
        assert forall|name: Seq<char>|
            (sums@.dom().contains(name) <==> #[trigger] running_total(
                earlier,
                *info,
                names.take(0),
                name,
            ) > 0) && (sums@.dom().contains(name) ==> sums@[name] == running_total(
            earlier,
            *info,
            names.take(0),
            name,
        )) by {
            assert(keyword_total(earlier, name) >= 0);
        }
    }
    while j < n
        invariant
            j <= n,
            n == names.len(),
            names == table.names(),
            table == &info.keyword_occurences,
            table.wf(),
            sums.wf(),
            0 <= at < all.len(),
            earlier == all.take(at),
            all[at] == *info,
            keyword_totals_fit(all),
            sums_match(sums@, earlier, *info, names.take(j as int)),
            counts == table.values(),
            head == occurring(all, at),
            sums.names() == first_occurrences(head + nonzero_names(names, counts, j as int)),
        decreases n - j,
    {
        let count = *table.value_at(j);
        let name = table.name_at(j);
        let ghost before = sums@;
        let ghost seen = names.take(j as int);
        let ghost listed = head + nonzero_names(names, counts, j as int);
        proof {
            lemma_first_occurrences(listed);
            sums.lemma_dom();
            if count != 0 {
                assert(head + nonzero_names(names, counts, j + 1) =~= listed.push(name@));
                assert(listed.push(name@).drop_last() =~= listed);
            }
        }
        proof {
            table.lemma_view_at(j as int);
            assert(names.take(j + 1) =~= seen.push(name@));
            assert(!seen.contains(name@)) by {
                if seen.contains(name@) {
                    let k = seen.index_of(name@);
                    assert(names[k] == names[j as int]);
                }
            }
            assert(names.take(j + 1)[j as int] == name@);
            assert(running_total(earlier, *info, names.take(j + 1), name@) == running_total(
                earlier,
                *info,
                seen,
                name@,
            ) + count);
            lemma_keyword_total_prefix(all, at + 1, name@);
            assert(all.take(at + 1).drop_last() =~= earlier);
            assert(keyword_total(all, name@) <= usize::MAX);
            assert forall|other: Seq<char>| other != name@ implies running_total(
                earlier,
                *info,
                names.take(j + 1),
                other,
            ) == #[trigger] running_total(earlier, *info, seen, other) by {
                if seen.contains(other) {
                    let k = seen.index_of(other);
                    assert(names.take(j + 1)[k] == other);
                }
                if names.take(j + 1).contains(other) {
                    let k = names.take(j + 1).index_of(other);
                    assert(seen[k] == other);
                }
            }
        }
        if count != 0 {
            match sums.index_of(name.as_str()) {
                Some(place) => {
                    proof {
                        sums.lemma_view_at(place as int);
                    }
                    let current = *sums.value_at(place);
                    sums.replace_at(place, current + count);
                },
                None => {
                    proof {
                        sums.lemma_dom();
                    }
                    sums.insert(name.clone(), count);
                },
            }
        }
        proof {
            assert forall|other: Seq<char>|
                (sums@.dom().contains(other) <==> #[trigger] running_total(
                    earlier,
                    *info,
                    names.take(j + 1),
                    other,
                ) > 0) && (sums@.dom().contains(other) ==> sums@[other] == running_total(
                earlier,
                *info,
                names.take(j + 1),
                other,
            )) by {
                if other != name@ {
                    assert(running_total(earlier, *info, names.take(j + 1), other)
                        == running_total(earlier, *info, seen, other));
                    assert(sums@.dom().contains(other) == before.dom().contains(other));
                } else {
                    assert(before.dom().contains(other) <==> running_total(
                        earlier,
                        *info,
                        seen,
                        other,
                    ) > 0);
                }
            }
        }
        j += 1;
    }
    proof {
        assert(names.take(n as int) =~= names);
        assert(all.take(at + 1).drop_last() =~= earlier);
        assert(all.take(at + 1).last() == *info);
        assert(occurring(all, at + 1) == head + nonzero_names(names, counts, n as int));
        assert forall|name: Seq<char>|
            (sums@.dom().contains(name) <==> #[trigger] keyword_total(all.take(at + 1), name) > 0)
                && (sums@.dom().contains(name) ==> sums@[name] == keyword_total(
                all.take(at + 1),
                name,
            )) by {
            table.lemma_dom();
            assert(names.contains(name) == table@.dom().contains(name));
            assert(running_total(earlier, *info, names, name) == keyword_total(
                all.take(at + 1),
                name,
            ));
        }
    }
}

/// The keywords that occurred at all, each with the number of its occurrences
/// over all extensions.
pub fn create_keyword_sum_map(content_info_map: &NameMap<ExtensionContentInfo>) -> (sums: NameMap<
    usize,
>)
    requires
        content_info_map.wf(),
        forall|i: int|
            0 <= i < content_info_map.values().len() ==> (
            #[trigger] content_info_map.values()[i]).keyword_occurences.wf(),
        keyword_totals_fit(content_info_map.values()),
    ensures
        sums.wf(),
        sums_up(sums@, content_info_map.values()),
        sums.names() == first_occurrences(
            occurring(content_info_map.values(), content_info_map.values().len() as int),
        ),
{
    let ghost all = content_info_map.values();
    let mut sums: NameMap<usize> = NameMap::new();
    let n = content_info_map.len();
    let mut i: usize = 0;
    assert(sums_up(sums@, all.take(0)));
    assert(sums.names() =~= first_occurrences(occurring(all, 0)));
    while i < n
        invariant
            i <= n,
            n == all.len(),
            all == content_info_map.values(),
            forall|k: int| 0 <= k < all.len() ==> (#[trigger] all[k]).keyword_occurences.wf(),
            keyword_totals_fit(all),
            sums.wf(),
            sums_up(sums@, all.take(i as int)),
            sums.names() == first_occurrences(occurring(all, i as int)),
        decreases n - i,
    {
        add_keyword_sums(
            &mut sums,
            content_info_map.value_at(i),
            Ghost(all.take(i as int)),
            Ghost(all),
            Ghost(i as int),
        );
        i += 1;
    }
    assert(all.take(n as int) =~= all);
    sums
}

} // verus!
