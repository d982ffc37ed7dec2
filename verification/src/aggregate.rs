//! Per-extension tables, seeded from the catalog, and the folding of file
//! statistics into totals.

use vstd::prelude::*;
use crate::domain::{
    keyword_names, zero_counts, Extension, ExtensionContentInfo, ExtensionMetadata, StatsView,
};
use crate::name_map::NameMap;

verus! {

/// The totals of a language before any file was added.
pub open spec fn empty_stats(ext: Extension) -> StatsView {
    StatsView { lines: 0, code_lines: 0, keywords: zero_counts(keyword_names(ext.keywords@)) }
}

/// A table of empty totals with the catalog's names, in the catalog's order.
pub fn make_extension_stats(catalog: &NameMap<Extension>) -> (table: NameMap<ExtensionContentInfo>)
    requires
        catalog.wf(),
    ensures
        table.wf(),
        table.names() == catalog.names(),
        forall|i: int|
            0 <= i < table.values().len() ==> (#[trigger] table.values()[i])@ == empty_stats(
                catalog.values()[i],
            ) && table.values()[i].keyword_occurences.wf(),
{
    let mut table: NameMap<ExtensionContentInfo> = NameMap::new();
    let n = catalog.len();
    let mut i: usize = 0;
    while i < n
        invariant
            i <= n,
            n == catalog.names().len(),
            catalog.wf(),
            table.wf(),
            table.names() == catalog.names().take(i as int),
            table.values().len() == i,
            forall|j: int|
                0 <= j < i ==> (#[trigger] table.values()[j])@ == empty_stats(catalog.values()[j])
                    && table.values()[j].keyword_occurences.wf(),
        decreases n - i,
    {
        let name = catalog.name_at(i).clone();
        let info = ExtensionContentInfo::from(catalog.value_at(i));
        proof {
            lemma_next_name_is_new(catalog.names(), i as int);
            table.lemma_dom();
        }
        table.insert(name, info);
        assert(catalog.names().take(i + 1) =~= catalog.names().take(i as int).push(
            catalog.names()[i as int],
        ));
        i += 1;
    }
    assert(catalog.names().take(n as int) =~= catalog.names());
    table
}

/// A table of zero counters with the catalog's names, in the catalog's order.
pub fn make_extension_metadata(catalog: &NameMap<Extension>) -> (table: NameMap<ExtensionMetadata>)
    requires
        catalog.wf(),
    ensures
        table.wf(),
        table.names() == catalog.names(),
        forall|i: int|
            0 <= i < table.values().len() ==> (#[trigger] table.values()[i]).files == 0
                && table.values()[i].bytes == 0,
{
    let mut table: NameMap<ExtensionMetadata> = NameMap::new();
    let n = catalog.len();
    let mut i: usize = 0;
    while i < n
        invariant
            i <= n,
            n == catalog.names().len(),
            catalog.wf(),
            table.wf(),
            table.names() == catalog.names().take(i as int),
            table.values().len() == i,
            forall|j: int|
                0 <= j < i ==> (#[trigger] table.values()[j]).files == 0 && table.values()[j].bytes
                    == 0,
        decreases n - i,
    {
        let name = catalog.name_at(i).clone();
        proof {
            lemma_next_name_is_new(catalog.names(), i as int);
            table.lemma_dom();
        }
        table.insert(name, ExtensionMetadata::new(0, 0));
        assert(catalog.names().take(i + 1) =~= catalog.names().take(i as int).push(
            catalog.names()[i as int],
        ));
        i += 1;
    }
    assert(catalog.names().take(n as int) =~= catalog.names());
    table
}

/// In a sequence without repeats an element does not occur before its place.
pub proof fn lemma_next_name_is_new<A>(names: Seq<A>, i: int)
    requires
        names.no_duplicates(),
        0 <= i < names.len(),
    ensures
        !names.take(i).contains(names[i]),
        names.take(i).to_set().contains(names[i]) == false,
{
    if names.take(i).contains(names[i]) {
        let j = names.take(i).index_of(names[i]);
        assert(names[j] == names[i]);
    }
}

/// The totals after the statistics of `files` were folded into `base`, one
/// after the other.
pub open spec fn merge_all(base: StatsView, files: Seq<StatsView>) -> StatsView
    decreases files.len(),
{
    if files.len() == 0 {
        base
    } else {
        merge_all(base, files.drop_last()).merge(files.last())
    }
}

/// Folding two files into totals gives the same whichever comes first.
pub proof fn lemma_merge_commutes(base: StatsView, x: StatsView, y: StatsView)
    ensures
        base.merge(x).merge(y) == base.merge(y).merge(x),
{
    assert(base.merge(x).merge(y).keywords =~= base.merge(y).merge(x).keywords);
}

/// Taking one file out of the fold and folding it in last changes nothing.
pub proof fn lemma_merge_all_remove(base: StatsView, files: Seq<StatsView>, i: int)
    requires
        0 <= i < files.len(),
    ensures
        merge_all(base, files) == merge_all(base, files.remove(i)).merge(files[i]),
    decreases files.len(),
{
    let rest = files.remove(i);
    if i == files.len() - 1 {
        assert(rest =~= files.drop_last());
    } else {
        let front = files.drop_last();
        lemma_merge_all_remove(base, front, i);
        assert(front.remove(i) =~= rest.drop_last());
        assert(rest.last() == files.last());
        assert(front[i] == files[i]);
        lemma_merge_commutes(merge_all(base, front.remove(i)), files[i], files.last());
    }
}

/// Folding the statistics of the same files into totals, in any order, gives
/// the same totals.
pub proof fn lemma_merge_order_independent(
    base: StatsView,
    files: Seq<StatsView>,
    reordered: Seq<StatsView>,
)
    requires
        files.to_multiset() == reordered.to_multiset(),
    ensures
        merge_all(base, files) == merge_all(base, reordered),
    decreases files.len(),
{
    broadcast use vstd::seq_lib::group_to_multiset_ensures;

    files.to_multiset_ensures();
    reordered.to_multiset_ensures();
    if files.len() == 0 {
        assert(reordered.len() == 0);
    } else {
        let x = files.last();
        assert(files[files.len() - 1] == x);
        assert(files.to_multiset().count(x) > 0);
        assert(reordered.contains(x));
        let i = reordered.index_of(x);
        assert(reordered[i] == x);
        let front = files.drop_last();
        let rest = reordered.remove(i);
        assert(front =~= files.remove(files.len() - 1));
        vstd::seq_lib::to_multiset_remove(files, files.len() - 1);
        vstd::seq_lib::to_multiset_remove(reordered, i);
        lemma_merge_order_independent(base, front, rest);
        lemma_merge_all_remove(base, reordered, i);
    }
}

} // verus!
