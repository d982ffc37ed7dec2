//! What the coordinator decides once discovery and classification are over:
//! how the run ended, what the discovery counters are once the faulty files
//! are taken out, and the throughput.

use vstd::prelude::*;
use vstd::string::StringExecFns;
use crate::domain::{texts, ExtensionContentInfo, ExtensionMetadata};
use crate::name_map::NameMap;
use crate::pipeline::{faulty_views, FaultyFileRecord, FaultyView};
use crate::text::{extension_of, get_file_extension};
use crate::totals::{by_lines, lemma_total_prefix, total_of};

verus! {

/// Throughput of a run, in whole units per second.
#[derive(Debug, PartialEq, Eq, Clone, Copy)]
pub struct Metrics {
    pub files_per_sec: usize,
    pub lines_per_sec: usize,
}

/// The ways in which a run ends without a report.
#[derive(Debug, PartialEq)]
pub enum ParseFilesError {
    /// No file of a catalogued extension was found. Holds a note on the
    /// extensions that the run was limited to, empty where it was not limited.
    NoRelevantFiles(String),
    /// Every relevant file turned out faulty.
    AllAreFaultyFiles,
}

/// The items of a sequence with `sep` between each two neighbours.
pub open spec fn joined(items: Seq<Seq<char>>, sep: Seq<char>) -> Seq<char>
    decreases items.len(),
{
    if items.len() == 0 {
        Seq::empty()
    } else if items.len() == 1 {
        items[0]
    } else {
        joined(items.drop_last(), sep) + sep + items.last()
    }
}

/// The note on the extensions that a run is limited to: empty where it is not
/// limited, else the extensions in brackets on a line of their own.
pub open spec fn activated_extensions_text(extensions: Seq<Seq<char>>) -> Seq<char> {
    if extensions.len() == 0 {
        Seq::empty()
    } else {
        "\n(Activated extensions: "@ + joined(extensions, ", "@) + ")"@
    }
}

/// The note on the extensions that a run is limited to.
pub fn get_activated_extensions_as_str(extensions_of_interest: &Vec<String>) -> (note: String)
    ensures
        note@ == activated_extensions_text(texts(extensions_of_interest@)),
{
    if extensions_of_interest.len() == 0 {
        return String::new();
    }
    let ghost items = texts(extensions_of_interest@);
    let mut list = extensions_of_interest[0].clone();
    assert(items.take(1) =~= seq![items[0]]);
    let mut i: usize = 1;
    while i < extensions_of_interest.len()
        invariant
            1 <= i <= extensions_of_interest.len(),
            items == texts(extensions_of_interest@),
            list@ == joined(items.take(i as int), ", "@),
        decreases extensions_of_interest.len() - i,
    {
        list.append(", ");
        list.append(extensions_of_interest[i].as_str());
        proof {
            assert(items.take(i + 1).drop_last() =~= items.take(i as int));
            assert(items.take(i + 1).last() == items[i as int]);
        }
        i += 1;
    }
    assert(items.take(i as int) =~= items);
    let mut note = String::from_str("\n(Activated extensions: ");
    note.append(list.as_str());
    note.append(")");
    note
}

/// How many of the faulty files are of extension `ext`.
pub open spec fn faulty_files_of(faulty: Seq<FaultyView>, ext: Seq<char>) -> nat
    decreases faulty.len(),
{
    if faulty.len() == 0 {
        0
    } else {
        faulty_files_of(faulty.drop_last(), ext) + if extension_of(faulty.last().path) == Some(
            ext,
        ) {
            1nat
        } else {
            0nat
        }
    }
}

/// How many bytes the faulty files of extension `ext` have together.
pub open spec fn faulty_bytes_of(faulty: Seq<FaultyView>, ext: Seq<char>) -> nat
    decreases faulty.len(),
{
    if faulty.len() == 0 {
        0
    } else {
        faulty_bytes_of(faulty.drop_last(), ext) + if extension_of(faulty.last().path) == Some(
            ext,
        ) {
            faulty.last().bytes as nat
        } else {
            0nat
        }
    }
}

/// Whether the faulty files can be taken out of the counters: each of them
/// that has an extension has counters, and no counter is smaller than what
/// the faulty files of its extension amount to.
pub open spec fn correctable(
    metadata: Map<Seq<char>, ExtensionMetadata>,
    faulty: Seq<FaultyView>,
) -> bool {
    &&& forall|i: int|
        0 <= i < faulty.len() ==> (extension_of((#[trigger] faulty[i]).path) matches Some(e)
            ==> metadata.dom().contains(e))
    &&& forall|e: Seq<char>| #[trigger]
        metadata.dom().contains(e) ==> metadata[e].files >= faulty_files_of(faulty, e)
            && metadata[e].bytes >= faulty_bytes_of(faulty, e)
}

/// Whether `after` holds the counters of `before` less the faulty files: for
/// every extension, one file and its recorded size less for each faulty file
/// of that extension.
pub open spec fn corrected(
    before: Map<Seq<char>, ExtensionMetadata>,
    after: Map<Seq<char>, ExtensionMetadata>,
    faulty: Seq<FaultyView>,
) -> bool {
    &&& after.dom() == before.dom()
    &&& forall|e: Seq<char>| #[trigger]
        after.dom().contains(e) ==> after[e].files == before[e].files - faulty_files_of(faulty, e)
            && after[e].bytes == before[e].bytes - faulty_bytes_of(faulty, e)
}

/// The faulty files among the first few are no more than the faulty files
/// among all.
pub proof fn lemma_faulty_prefix(faulty: Seq<FaultyView>, i: int, ext: Seq<char>)
    requires
        0 <= i <= faulty.len(),
    ensures
        faulty_files_of(faulty.take(i), ext) <= faulty_files_of(faulty, ext),
        faulty_bytes_of(faulty.take(i), ext) <= faulty_bytes_of(faulty, ext),
    decreases faulty.len() - i,
{
    if i < faulty.len() {
        lemma_faulty_prefix(faulty, i + 1, ext);
        assert(faulty.take(i + 1).drop_last() =~= faulty.take(i));
    } else {
        assert(faulty.take(i) =~= faulty);
    }
}

/// Takes every faulty file out of the discovery counters of its extension:
/// one file and the file's recorded size each. A faulty file whose path has
/// no extension is passed over.
pub fn remove_faulty_files_stats(
    faulty: &Vec<FaultyFileRecord>,
    metadata: &mut NameMap<ExtensionMetadata>,
)
    requires
        old(metadata).wf(),
        correctable(old(metadata)@, faulty_views(faulty@)),
    ensures
        final(metadata).wf(),
        final(metadata).names() == old(metadata).names(),
        corrected(old(metadata)@, final(metadata)@, faulty_views(faulty@)),
{
    let ghost base = metadata@;
    let ghost records = faulty_views(faulty@);
    let mut i: usize = 0;
    while i < faulty.len()
        invariant
            i <= faulty.len(),
            records == faulty_views(faulty@),
            base == old(metadata)@,
            correctable(base, records),
            metadata.wf(),
            metadata.names() == old(metadata).names(),
            corrected(base, metadata@, records.take(i as int)),
        decreases faulty.len() - i,
    {
        let ghost before = *metadata;
        let ghost path = faulty@[i as int].path@;
        proof {
            assert(records[i as int].path == path);
            assert(records.take(i + 1).drop_last() =~= records.take(i as int));
            assert(records.take(i + 1).last() == records[i as int]);
        }
        match get_file_extension(faulty[i].path.as_str()) {
            Some(x) => {
                match metadata.index_of(x) {
                    Some(at) => {
                        proof {
                            before.lemma_view_at(at as int);
                            lemma_faulty_prefix(records, i + 1, x@);
                            assert(before@.dom().contains(x@));
                            assert(base.dom().contains(x@));
                        }
                        let mut counter = *metadata.value_at(at);
                        counter.files -= 1;
                        counter.bytes -= faulty[i].bytes as usize;
                        metadata.replace_at(at, counter);
                        proof {
                            assert(metadata@.dom() =~= base.dom());
                            assert forall|e: Seq<char>| #[trigger]
                                metadata@.dom().contains(e) implies metadata@[e].files
                                == base[e].files - faulty_files_of(records.take(i + 1), e)
                                && metadata@[e].bytes == base[e].bytes - faulty_bytes_of(
                                records.take(i + 1),
                                e,
                            ) by {
                                assert(before@.dom().contains(e));
                            }
                        }
                    },
                    None => {
                        proof {
                            assert(extension_of(records[i as int].path) == Some(x@));
                            assert(base.dom().contains(x@));
                            assert(metadata@.dom().contains(x@));
                        }
                        assert(false);
                    },
                }
            },
            None => {
                assert forall|e: Seq<char>| #[trigger]
                    metadata@.dom().contains(e) implies metadata@[e].files == base[e].files
                    - faulty_files_of(records.take(i + 1), e) && metadata@[e].bytes
                    == base[e].bytes - faulty_bytes_of(records.take(i + 1), e) by {}
            },
        }
        i += 1;
    }
    assert(records.take(i as int) =~= records);
}

/// How many whole units per second `amount` units in `millis` milliseconds
/// are.
pub open spec fn per_second(amount: int, millis: int) -> int {
    amount * 1000 / millis
}

/// The throughput of a run that lasted `millis` milliseconds: none for a run
/// of a second or less.
pub open spec fn metrics_for(millis: int, files: int, lines: int) -> Option<Metrics> {
    if millis <= 1000 {
        None
    } else {
        Some(
            Metrics {
                files_per_sec: per_second(files, millis) as usize,
                lines_per_sec: per_second(lines, millis) as usize,
            },
        )
    }
}

/// In more than a second, fewer units pass per second than passed in all.
pub proof fn lemma_per_second_bound(amount: int, millis: int)
    requires
        amount >= 0,
        millis > 1000,
    ensures
        0 <= per_second(amount, millis) <= amount,
{
    assert(0 <= amount * 1000 / millis <= amount) by (nonlinear_arith)
        requires
            millis > 1000,
            amount >= 0,
    ;
}

fn rate(amount: usize, millis: u128) -> (r: usize)
    requires
        millis > 1000,
    ensures
        r == per_second(amount as int, millis as int),
{
    proof {
        lemma_per_second_bound(amount as int, millis as int);
    }
    let scaled: u128 = amount as u128 * 1000;
    (scaled / millis) as usize
}

/// The throughput of a run that parsed for `parsing_duration_millis`
/// milliseconds: files and lines per second, rounded down, for a run of more
/// than a second; none for a shorter one.
pub fn generate_metrics_if_parsing_took_more_than_one_sec(
    parsing_duration_millis: u128,
    relevant_files: usize,
    content_info_map: &NameMap<ExtensionContentInfo>,
) -> (metrics: Option<Metrics>)
    requires
        content_info_map.wf(),
        total_of(content_info_map.values(), by_lines()) <= usize::MAX,
    ensures
        metrics == metrics_for(
            parsing_duration_millis as int,
            relevant_files as int,
            total_of(content_info_map.values(), by_lines()) as int,
        ),
{
    if parsing_duration_millis <= 1000 {
        return None;
    }
    let ghost values = content_info_map.values();
    let n = content_info_map.len();
    let mut total_lines: usize = 0;
    let mut i: usize = 0;
    while i < n
        invariant
            i <= n,
            n == values.len(),
            values == content_info_map.values(),
            total_lines == total_of(values.take(i as int), by_lines()),
            total_of(values, by_lines()) <= usize::MAX,
        decreases n - i,
    {
        proof {
            lemma_total_prefix(values, i + 1, by_lines());
            assert(values.take(i + 1).drop_last() =~= values.take(i as int));
        }
        total_lines += content_info_map.value_at(i).lines;
        i += 1;
    }
    assert(values.take(n as int) =~= values);
    Some(
        Metrics {
            files_per_sec: rate(relevant_files, parsing_duration_millis),
            lines_per_sec: rate(total_lines, parsing_duration_millis),
        },
    )
}

/// Whether `conclude_run` can do its arithmetic: no more files are faulty
/// than are relevant, the faulty files can be taken out of the counters, and
/// the lines of all extensions together fit in `usize`.
pub open spec fn concludable(
    relevant_files: usize,
    faulty: Seq<FaultyView>,
    metadata: Map<Seq<char>, ExtensionMetadata>,
    totals: Seq<ExtensionContentInfo>,
) -> bool {
    &&& faulty.len() <= relevant_files
    &&& correctable(metadata, faulty)
    &&& total_of(totals, by_lines()) <= usize::MAX
}

/// Settles a run once every worker has stopped. A run that found no relevant
/// file fails, and so does one in which every relevant file is faulty; the
/// counters are then left as they are. Otherwise the faulty files are taken
/// out of the counters, and the throughput is computed from the files that
/// remain and the lines that were counted.
pub fn conclude_run(
    relevant_files: usize,
    faulty: &Vec<FaultyFileRecord>,
    metadata: &mut NameMap<ExtensionMetadata>,
    content_info_map: &NameMap<ExtensionContentInfo>,
    extensions_of_interest: &Vec<String>,
    parsing_duration_millis: u128,
) -> (outcome: Result<Option<Metrics>, ParseFilesError>)
    requires
        old(metadata).wf(),
        content_info_map.wf(),
        relevant_files != 0 && faulty.len() != relevant_files ==> concludable(
            relevant_files,
            faulty_views(faulty@),
            old(metadata)@,
            content_info_map.values(),
        ),
    ensures
        final(metadata).wf(),
        final(metadata).names() == old(metadata).names(),
        match outcome {
            Err(ParseFilesError::NoRelevantFiles(note)) => {
                &&& relevant_files == 0
                &&& note@ == activated_extensions_text(texts(extensions_of_interest@))
                &&& *final(metadata) == *old(metadata)
            },
            Err(ParseFilesError::AllAreFaultyFiles) => {
                &&& relevant_files != 0
                &&& faulty.len() == relevant_files
                &&& *final(metadata) == *old(metadata)
            },
            Ok(metrics) => {
                &&& relevant_files != 0
                &&& faulty.len() != relevant_files
                &&& corrected(old(metadata)@, final(metadata)@, faulty_views(faulty@))
                &&& metrics == metrics_for(
                    parsing_duration_millis as int,
                    relevant_files - faulty.len(),
                    total_of(content_info_map.values(), by_lines()) as int,
                )
            },
        },
{
    if relevant_files == 0 {
        return Err(
            ParseFilesError::NoRelevantFiles(
                get_activated_extensions_as_str(extensions_of_interest),
            ),
        );
    }
    if faulty.len() == relevant_files {
        return Err(ParseFilesError::AllAreFaultyFiles);
    }
    remove_faulty_files_stats(faulty, metadata);
    let metrics = generate_metrics_if_parsing_took_more_than_one_sec(
        parsing_duration_millis,
        relevant_files - faulty.len(),
        content_info_map,
    );
    Ok(metrics)
}

} // verus!
