//! The state that discovery and classification share: the queue of paths
//! that await classification, the signal that discovery has ended, and what
//! became of every path that left the queue.
//!
//! The state is a plain value. Whoever runs worker threads keeps it behind a
//! lock and calls one operation per critical section.

use std::collections::VecDeque;
use vstd::prelude::*;
use crate::aggregate::{empty_stats, make_extension_stats};
use crate::domain::{Extension, ExtensionContentInfo, FileStats, StatsView};
use crate::name_map::NameMap;

verus! {

/// A file that matched the catalog but could not be read as text.
#[derive(Debug, PartialEq)]
pub struct FaultyFileRecord {
    pub path: String,
    pub error: String,
    pub bytes: u64,
}

/// What a `FaultyFileRecord` holds, as plain values.
pub struct FaultyView {
    pub path: Seq<char>,
    pub error: Seq<char>,
    pub bytes: u64,
}

impl View for FaultyFileRecord {
    type V = FaultyView;

    open spec fn view(&self) -> FaultyView {
        FaultyView { path: self.path@, error: self.error@, bytes: self.bytes }
    }
}

/// The views of a sequence of records.
pub open spec fn faulty_views(records: Seq<FaultyFileRecord>) -> Seq<FaultyView> {
    records.map_values(|r: FaultyFileRecord| r@)
}

/// The views of a sequence of totals.
pub open spec fn stats_views(totals: Seq<ExtensionContentInfo>) -> Seq<StatsView> {
    totals.map_values(|t: ExtensionContentInfo| t@)
}

/// What a worker is to do next.
#[derive(Debug, PartialEq)]
pub enum WorkerStep {
    /// Classify the file at this path, then report what became of it.
    Classify(String),
    /// The queue is empty for the moment: yield and ask again.
    Wait,
    /// The queue is empty for good: stop.
    Exit,
}

/// The shared state as mathematical values.
pub struct PipelineView {
    /// The paths that await classification, the next one first.
    pub pending: Seq<Seq<char>>,
    /// Every path that was ever pushed, in the order of pushing.
    pub pushed: Seq<Seq<char>>,
    /// Every path that was ever handed to a worker, in the order of handing out.
    pub popped: Seq<Seq<char>>,
    /// Whether discovery has ended.
    pub discovery_done: bool,
    /// The paths handed out whose outcome has not been reported yet.
    pub in_flight: nat,
    /// The files whose statistics were folded into the totals.
    pub classified: nat,
    /// The files that could not be classified.
    pub faulty: Seq<FaultyView>,
    /// The names of the extensions, in the catalog's order.
    pub names: Seq<Seq<char>>,
    /// The totals of each extension, at the place of its name.
    pub totals: Seq<StatsView>,
}

impl PipelineView {
    /// Nothing awaits classification, nothing is being classified, and
    /// nothing more will come.
    pub open spec fn drained(self) -> bool {
        self.discovery_done && self.pending.len() == 0 && self.in_flight == 0
    }

    /// Every path that was pushed is either still pending or was handed out,
    /// once; every path handed out is in flight, classified or faulty.
    pub open spec fn balanced(self) -> bool {
        &&& self.pushed == self.popped + self.pending
        &&& self.popped.len() == self.in_flight + self.classified + self.faulty.len()
        &&& self.names.len() == self.totals.len()
    }
}

/// Once a pipeline is drained, the paths handed to workers are exactly the
/// paths that were pushed, each once and in the same order, and each of them
/// ended as classified or as faulty.
pub proof fn lemma_drained_pipeline_lost_nothing(p: PipelineView)
    requires
        p.balanced(),
        p.drained(),
    ensures
        p.popped == p.pushed,
        p.pushed.len() == p.classified + p.faulty.len(),
{
    assert(p.popped + p.pending =~= p.popped);
}

/// The shared state of a run.
pub struct Pipeline {
    queue: VecDeque<String>,
    discovery_done: bool,
    pushed_count: usize,
    in_flight: usize,
    classified: usize,
    faulty: Vec<FaultyFileRecord>,
    totals: NameMap<ExtensionContentInfo>,
    pushed: Ghost<Seq<Seq<char>>>,
    popped: Ghost<Seq<Seq<char>>>,
}

impl View for Pipeline {
    type V = PipelineView;

    closed spec fn view(&self) -> PipelineView {
        PipelineView {
            pending: self.queue@.map_values(|p: String| p@),
            pushed: self.pushed@,
            popped: self.popped@,
            discovery_done: self.discovery_done,
            in_flight: self.in_flight as nat,
            classified: self.classified as nat,
            faulty: faulty_views(self.faulty@),
            names: self.totals.names(),
            totals: stats_views(self.totals.values()),
        }
    }
}

impl Pipeline {
    /// The invariant of the shared state.
    pub closed spec fn wf(&self) -> bool {
        &&& self@.balanced()
        &&& self.pushed@.len() == self.pushed_count
        &&& self.totals.wf()
        &&& forall|i: int|
            0 <= i < self.totals.values().len() ==> (
            #[trigger] self.totals.values()[i]).keyword_occurences.wf()
    }

    /// The totals table.
    pub closed spec fn table(&self) -> NameMap<ExtensionContentInfo> {
        self.totals
    }

    /// The records of the faulty files.
    pub closed spec fn records(&self) -> Seq<FaultyFileRecord> {
        self.faulty@
    }

    /// What the invariant says of the view and of the totals table.
    pub proof fn lemma_wf(&self)
        requires
            self.wf(),
        ensures
            self@.balanced(),
            self@.pushed.len() <= usize::MAX,
            self.table().wf(),
            self@.names == self.table().names(),
            self@.totals == stats_views(self.table().values()),
            self@.faulty == faulty_views(self.records()),
            forall|i: int|
                0 <= i < self.table().values().len() ==> (
                #[trigger] self.table().values()[i]).keyword_occurences.wf(),
    {
    }

    /// The state before discovery starts: empty totals for every extension of
    /// the catalog, nothing pushed.
    pub fn new(catalog: &NameMap<Extension>) -> (p: Pipeline)
        requires
            catalog.wf(),
        ensures
            p.wf(),
            p@.pending.len() == 0,
            p@.pushed.len() == 0,
            p@.popped.len() == 0,
            !p@.discovery_done,
            p@.in_flight == 0,
            p@.classified == 0,
            p@.faulty.len() == 0,
            p@.names == catalog.names(),
            p@.totals == catalog.values().map_values(|e: Extension| empty_stats(e)),
    {
        let totals = make_extension_stats(catalog);
        let p = Pipeline {
            queue: VecDeque::new(),
            discovery_done: false,
            pushed_count: 0,
            in_flight: 0,
            classified: 0,
            faulty: Vec::new(),
            totals,
            pushed: Ghost(Seq::empty()),
            popped: Ghost(Seq::empty()),
        };
        proof {
            assert(p@.pushed =~= p@.popped + p@.pending);
            let expected = catalog.values().map_values(|e: Extension| empty_stats(e));
            assert(p.totals.values().len() == p.totals.names().len());
            assert(catalog.values().len() == catalog.names().len());
            assert forall|i: int| 0 <= i < expected.len() implies p@.totals[i] == expected[i] by {
                assert(p.totals.values()[i]@ == empty_stats(catalog.values()[i]));
            }
            assert(p@.totals =~= expected);
        }
        p
    }

    /// Adds a discovered path to the queue. A path that comes after discovery
    /// was declared over is refused.
    pub fn push(&mut self, path: String) -> (accepted: bool)
        requires
            old(self).wf(),
            old(self)@.pushed.len() < usize::MAX,
        ensures
            final(self).wf(),
            accepted == !old(self)@.discovery_done,
            accepted ==> final(self)@ == (PipelineView {
                pending: old(self)@.pending.push(path@),
                pushed: old(self)@.pushed.push(path@),
                ..old(self)@
            }),
            !accepted ==> final(self)@ == old(self)@,
            final(self).table() == old(self).table(),
            final(self).records() == old(self).records(),
    {
        if self.discovery_done {
            return false;
        }
        let ghost before = self@;
        self.queue.push_back(path);
        self.pushed_count += 1;
        proof {
            self.pushed@ = self.pushed@.push(path@);
            assert(self@.pending =~= before.pending.push(path@));
            assert(self@.pushed =~= self@.popped + self@.pending);
        }
        true
    }

    /// Declares discovery over: no path will be pushed any more.
    pub fn finish_discovery(&mut self)
        requires
            old(self).wf(),
        ensures
            final(self).wf(),
            final(self)@ == (PipelineView { discovery_done: true, ..old(self)@ }),
            final(self).table() == old(self).table(),
            final(self).records() == old(self).records(),
    {
        self.discovery_done = true;
    }

    /// Tells a worker what to do next: classify the path at the head of the
    /// queue, wait while the queue is empty and discovery goes on, or stop
    /// when the queue is empty and discovery is over.
    pub fn next_step(&mut self) -> (step: WorkerStep)
        requires
            old(self).wf(),
        ensures
            final(self).wf(),
            final(self).table() == old(self).table(),
            final(self).records() == old(self).records(),
            match step {
                WorkerStep::Classify(path) => {
                    &&& old(self)@.pending.len() > 0
                    &&& path@ == old(self)@.pending[0]
                    &&& final(self)@ == (PipelineView {
                        pending: old(self)@.pending.drop_first(),
                        popped: old(self)@.popped.push(path@),
                        in_flight: old(self)@.in_flight + 1,
                        ..old(self)@
                    })
                },
                WorkerStep::Wait => {
                    &&& old(self)@.pending.len() == 0
                    &&& !old(self)@.discovery_done
                    &&& final(self)@ == old(self)@
                },
                WorkerStep::Exit => {
                    &&& old(self)@.pending.len() == 0
                    &&& old(self)@.discovery_done
                    &&& final(self)@ == old(self)@
                },
            },
    {
        let ghost before = self@;
        match self.queue.pop_front() {
            Some(path) => {
                proof {
                    self.popped@ = self.popped@.push(path@);
                    assert(self@.pending =~= before.pending.drop_first());
                    assert(before.pending =~= seq![path@] + self@.pending);
                    assert(self@.pushed =~= self@.popped + self@.pending);
                }
                self.in_flight += 1;
                WorkerStep::Classify(path)
            },
            None => {
                assert(self@.pending =~= before.pending);
                if self.discovery_done {
                    WorkerStep::Exit
                } else {
                    WorkerStep::Wait
                }
            },
        }
    }

    /// Whether the statistics of a file can be folded into the totals of
    /// `extension`: a path is in flight, the extension has totals, and they
    /// accept the statistics.
    pub open spec fn takes(&self, extension: Seq<char>, stats: StatsView) -> bool {
        &&& self@.in_flight > 0
        &&& self.table()@.dom().contains(extension)
        &&& self.table()@[extension].accepts(stats)
    }

    /// Reports that a file handed out before was classified: its statistics
    /// are folded into the totals of its extension.
    pub fn record_success(&mut self, extension: &str, stats: FileStats)
        requires
            old(self).wf(),
            stats.keyword_occurences.wf(),
            old(self).takes(extension@, stats@),
        ensures
            final(self).wf(),
            final(self).records() == old(self).records(),
            final(self)@ == (PipelineView {
                in_flight: (old(self)@.in_flight - 1) as nat,
                classified: old(self)@.classified + 1,
                totals: old(self)@.totals.update(
                    old(self)@.names.index_of(extension@),
                    old(self)@.totals[old(self)@.names.index_of(extension@)].merge(stats@),
                ),
                ..old(self)@
            }),
    {
        let ghost before = self@;
        let ghost table = self.totals;
        match self.totals.index_of(extension) {
            Some(at) => {
                proof {
                    table.lemma_view_at(at as int);
                    assert(table.names().index_of(extension@) == at);
                }
                let placeholder = ExtensionContentInfo::dummy(0);
                let mut total = self.totals.replace_at(at, placeholder);
                total.add_file_stats(stats);
                let ghost merged = total;
                self.totals.replace_at(at, total);
                self.in_flight -= 1;
                self.classified += 1;
                proof {
                    assert(self.totals.values() =~= table.values().update(at as int, merged));
                    assert(self@.totals =~= before.totals.update(
                        at as int,
                        before.totals[at as int].merge(stats@),
                    ));
                }
            },
            None => {
                assert(false);
            },
        }
    }

    /// Reports that a file handed out before could not be classified.
    pub fn record_failure(&mut self, record: FaultyFileRecord)
        requires
            old(self).wf(),
            old(self)@.in_flight > 0,
        ensures
            final(self).wf(),
            final(self).table() == old(self).table(),
            final(self).records() == old(self).records().push(record),
            final(self)@ == (PipelineView {
                in_flight: (old(self)@.in_flight - 1) as nat,
                faulty: old(self)@.faulty.push(record@),
                ..old(self)@
            }),
    {
        let ghost before = self@;
        self.faulty.push(record);
        self.in_flight -= 1;
        assert(self@.faulty =~= before.faulty.push(record@));
    }

    /// Whether every path was dealt with and none will come.
    pub fn is_drained(&self) -> (b: bool)
        requires
            self.wf(),
        ensures
            b == self@.drained(),
    {
        self.discovery_done && self.queue.len() == 0 && self.in_flight == 0
    }

    /// The number of paths that were pushed so far.
    pub fn pushed_files(&self) -> (n: usize)
        requires
            self.wf(),
        ensures
            n == self@.pushed.len(),
    {
        self.pushed_count
    }

    /// The number of paths handed out whose outcome has not been reported yet.
    pub fn files_in_flight(&self) -> (n: usize)
        ensures
            n == self@.in_flight,
    {
        self.in_flight
    }

    /// The number of files that were classified.
    pub fn classified_files(&self) -> (n: usize)
        ensures
            n == self@.classified,
    {
        self.classified
    }

    /// The files that could not be classified, in the order of their reports.
    pub fn faulty_files(&self) -> (records: &Vec<FaultyFileRecord>)
        ensures
            records@ == self.records(),
    {
        &self.faulty
    }

    /// The totals of every extension.
    pub fn totals(&self) -> (table: &NameMap<ExtensionContentInfo>)
        ensures
            *table == self.table(),
    {
        &self.totals
    }

    /// Gives up the state for its results: the totals and the faulty files.
    pub fn into_results(self) -> (results: (NameMap<ExtensionContentInfo>, Vec<FaultyFileRecord>))
        ensures
            results.0 == self.table(),
            results.1@ == self.records(),
    {
        (self.totals, self.faulty)
    }
}

} // verus!
