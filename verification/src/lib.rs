//! Classifies sequencing alignment records against the genomic targets of an
//! experiment, and folds the results into running statistics per condition
//! and per contig.
//!
//! ## Modules
//! intervals - merging and querying of closed coordinate ranges.
//! nanopore - where the channels sit on a flowcell, and its sections.
//! readfish - strands, targets, conditions and the configuration.
//! paf - alignment records, their annotation tokens and the streaming pass.
//! sequencing_summary - the side information of each read and its eviction.
//! text - small helpers on character sequences.
pub mod intervals;
pub mod nanopore;
pub mod paf;
pub mod readfish;
pub mod sequencing_summary;
pub mod text;

use crate::paf::{PafRecord, PafRecordView};
use crate::text::text_eq;
use vstd::prelude::*;

verus! {

/// Why a summary could not take a record.
#[derive(Clone, Copy, Debug, PartialEq, Eq, Structural)]
pub enum SummaryError {
    /// A counter or a yield would no longer fit a machine word.
    Overflow,
}

/// The running statistics of one contig within a condition.
#[derive(Debug)]
pub struct ContigSummary {
    /// The name or identifier of the contig.
    pub name: String,
    /// The length of the contig in base pairs.
    pub length: usize,
    /// The mean read length of the mapped reads associated with this contig.
    pub mean_read_length: usize,
    /// Yield of mapped reads
    pub total_bases: usize,
    /// The N50 metric for the contig.
    pub n50: usize,
    /// The count of reads that are mapped on the target region (on-target reads).
    pub on_target_read_count: usize,
    /// The count of reads that are mapped off the target region (off-target reads).
    pub off_target_read_count: usize,
    /// The mean read length of on-target reads.
    pub mean_read_length_on_target: usize,
    /// The mean read length of off-target reads.
    pub mean_read_length_off_target: usize,
    /// The total yield (base pairs) of on-target reads for this contig.
    pub yield_on_target: usize,
    /// The total yield (base pairs) of off-target reads for this contig.
    pub yield_off_target: usize,
}

/// The statistics of a contig as numbers without bound.
pub struct ContigStats {
    pub name: Seq<char>,
    pub length: nat,
    pub mean_read_length: nat,
    pub total_bases: nat,
    pub n50: nat,
    pub on_target_read_count: nat,
    pub off_target_read_count: nat,
    pub mean_read_length_on_target: nat,
    pub mean_read_length_off_target: nat,
    pub yield_on_target: nat,
    pub yield_off_target: nat,
}

impl ContigStats {
    /// A contig that no read has been counted for.
    pub open spec fn fresh(name: Seq<char>, length: nat) -> ContigStats {
        ContigStats {
            name,
            length,
            mean_read_length: 0,
            total_bases: 0,
            n50: 0,
            on_target_read_count: 0,
            off_target_read_count: 0,
            mean_read_length_on_target: 0,
            mean_read_length_off_target: 0,
            yield_on_target: 0,
            yield_off_target: 0,
        }
    }

    /// The contig after one more read of `query_length` bases: the bases
    /// join the total, and the read's class gains one read, the bases, and
    /// the mean that follows from the two.
    pub open spec fn record(self, query_length: nat, on_target: bool) -> ContigStats {
        if on_target {
            ContigStats {
                total_bases: self.total_bases + query_length,
                on_target_read_count: self.on_target_read_count + 1,
                yield_on_target: self.yield_on_target + query_length,
                mean_read_length_on_target: (self.yield_on_target + query_length) / (
                self.on_target_read_count + 1),
                ..self
            }
        } else {
            ContigStats {
                total_bases: self.total_bases + query_length,
                off_target_read_count: self.off_target_read_count + 1,
                yield_off_target: self.yield_off_target + query_length,
                mean_read_length_off_target: (self.yield_off_target + query_length) / (
                self.off_target_read_count + 1),
                ..self
            }
        }
    }

    /// Whether a machine word holds every number.
    pub open spec fn fits(self) -> bool {
        &&& self.length <= usize::MAX
        &&& self.mean_read_length <= usize::MAX
        &&& self.total_bases <= usize::MAX
        &&& self.n50 <= usize::MAX
        &&& self.on_target_read_count <= usize::MAX
        &&& self.off_target_read_count <= usize::MAX
        &&& self.mean_read_length_on_target <= usize::MAX
        &&& self.mean_read_length_off_target <= usize::MAX
        &&& self.yield_on_target <= usize::MAX
        &&& self.yield_off_target <= usize::MAX
    }

    /// What holds of a contig that only `record` has touched: the total is
    /// the two yields together, and each mean is its class's yield over its
    /// class's count.
    pub open spec fn consistent(self) -> bool {
        &&& self.total_bases == self.yield_on_target + self.yield_off_target
        &&& self.mean_read_length_on_target == (if self.on_target_read_count == 0 {
            0
        } else {
            self.yield_on_target / self.on_target_read_count
        })
        &&& self.mean_read_length_off_target == (if self.off_target_read_count == 0 {
            0
        } else {
            self.yield_off_target / self.off_target_read_count
        })
    }
}

impl View for ContigSummary {
    type V = ContigStats;

    open spec fn view(&self) -> ContigStats {
        ContigStats {
            name: self.name@,
            length: self.length as nat,
            mean_read_length: self.mean_read_length as nat,
            total_bases: self.total_bases as nat,
            n50: self.n50 as nat,
            on_target_read_count: self.on_target_read_count as nat,
            off_target_read_count: self.off_target_read_count as nat,
            mean_read_length_on_target: self.mean_read_length_on_target as nat,
            mean_read_length_off_target: self.mean_read_length_off_target as nat,
            yield_on_target: self.yield_on_target as nat,
            yield_off_target: self.yield_off_target as nat,
        }
    }
}

impl ContigSummary {
    /// Create a new `ContigSummary` instance with default values for all fields except `name` and `length`.
    pub fn new(name: String, length: usize) -> (r: Self)
        ensures
            r@ == ContigStats::fresh(name@, length as nat),
            r.name == name,
    {
        ContigSummary {
            name,
            length,
            mean_read_length: 0,
            total_bases: 0,
            n50: 0,
            on_target_read_count: 0,
            off_target_read_count: 0,
            mean_read_length_on_target: 0,
            mean_read_length_off_target: 0,
            yield_on_target: 0,
            yield_off_target: 0,
        }
    }

    /// A copy of the summary.
    pub fn duplicate(&self) -> (r: ContigSummary)
        ensures
            r == *self,
    {
        ContigSummary {
            name: self.name.clone(),
            length: self.length,
            mean_read_length: self.mean_read_length,
            total_bases: self.total_bases,
            n50: self.n50,
            on_target_read_count: self.on_target_read_count,
            off_target_read_count: self.off_target_read_count,
            mean_read_length_on_target: self.mean_read_length_on_target,
            mean_read_length_off_target: self.mean_read_length_off_target,
            yield_on_target: self.yield_on_target,
            yield_off_target: self.yield_off_target,
        }
    }

    /// Get the total number of reads on the contig.
    pub fn total_reads(&self) -> (r: usize)
        requires
            self.on_target_read_count + self.off_target_read_count <= usize::MAX,
        ensures
            r == self.on_target_read_count + self.off_target_read_count,
    {
        self.on_target_read_count + self.off_target_read_count
    }

    /// Mean read length of all reads on the contig.
    pub fn mean_read_length(&self) -> (r: usize)
        requires
            0 < self.on_target_read_count + self.off_target_read_count <= usize::MAX,
        ensures
            r == self.total_bases as int / (self.on_target_read_count
                + self.off_target_read_count),
    {
        self.total_bases / self.total_reads()
    }

    /// On target mean read length of all reads on the contig.
    pub fn on_target_mean_read_length(&self) -> (r: usize)
        requires
            self.on_target_read_count > 0,
        ensures
            r == self.yield_on_target / self.on_target_read_count,
    {
        self.yield_on_target / self.on_target_read_count
    }

    /// Off target mean read length of all reads on the contig.
    pub fn off_target_mean_read_length(&self) -> (r: usize)
        requires
            self.off_target_read_count > 0,
        ensures
            r == self.yield_off_target / self.off_target_read_count,
    {
        self.yield_off_target / self.off_target_read_count
    }
}

/// No two entries of the list are for one contig.
pub open spec fn distinct_names(list: Seq<ContigSummary>) -> bool {
    forall|i: int, j: int|
        0 <= i < list.len() && 0 <= j < list.len() && i != j ==> (#[trigger] list[i]).name@ != (
        #[trigger] list[j]).name@
}

/// Whether the list has an entry for the contig.
pub open spec fn has_name(list: Seq<ContigSummary>, name: Seq<char>) -> bool {
    exists|i: int| 0 <= i < list.len() && (#[trigger] list[i]).name@ == name
}

/// Where the contig's entry is in the list; where it would be put, if
/// there is none.
pub open spec fn slot_of(list: Seq<ContigSummary>, name: Seq<char>) -> int {
    if has_name(list, name) {
        choose|i: int| 0 <= i < list.len() && (#[trigger] list[i]).name@ == name
    } else {
        list.len() as int
    }
}

/// The statistics of each contig that the list has an entry for.
pub open spec fn contig_map(list: Seq<ContigSummary>) -> Map<Seq<char>, ContigStats> {
    Map::new(|name: Seq<char>| has_name(list, name), |name: Seq<char>| list[slot_of(list, name)]@)
}

/// In a list without doubles, an entry is the one of its contig.
pub proof fn lemma_slot_at(list: Seq<ContigSummary>, i: int)
    requires
        distinct_names(list),
        0 <= i < list.len(),
    ensures
        has_name(list, list[i].name@),
        slot_of(list, list[i].name@) == i,
        contig_map(list)[list[i].name@] == list[i]@,
{
    let name = list[i].name@;
    assert(list[i].name@ == name);
    let k = choose|k: int| 0 <= k < list.len() && (#[trigger] list[k]).name@ == name;
    assert(k == i);
}

/// The place of the contig's entry in the list.
fn find_name(list: &Vec<ContigSummary>, name: &str) -> (r: Option<usize>)
    ensures
        match r {
            Some(i) => i < list@.len() && list@[i as int].name@ == name@,
            None => !has_name(list@, name@),
        },
{
    let mut i: usize = 0;
    while i < list.len()
        invariant
            i <= list.len(),
            forall|k: int| 0 <= k < i ==> (#[trigger] list@[k]).name@ != name@,
        decreases list.len() - i,
    {
        if text_eq(list[i].name.as_str(), name) {
            return Some(i);
        }
        i = i + 1;
    }
    None
}

/// Changing one entry of the list, its name kept, changes that contig's
/// statistics and no other's.
pub proof fn lemma_map_after_set(before: Seq<ContigSummary>, after: Seq<ContigSummary>, i: int)
    requires
        distinct_names(before),
        after.len() == before.len(),
        0 <= i < before.len(),
        after[i].name@ == before[i].name@,
        forall|k: int| 0 <= k < before.len() && k != i ==> after[k] == before[k],
    ensures
        distinct_names(after),
        contig_map(after) == contig_map(before).insert(before[i].name@, after[i]@),
{
    assert(forall|k: int| 0 <= k < before.len() ==> (#[trigger] after[k]).name@ == before[k].name@);
    assert(distinct_names(after)) by {
        assert forall|a: int, b: int|
            0 <= a < after.len() && 0 <= b < after.len() && a != b implies (#[trigger] after[a]).name@
            != (#[trigger] after[b]).name@ by {
            assert(before[a].name@ != before[b].name@);
        }
    }
    let target = contig_map(before).insert(before[i].name@, after[i]@);
    assert forall|name: Seq<char>| contig_map(after).dom().contains(name) <==> target.dom().contains(
        name,
    ) by {
        if has_name(after, name) {
            let k = choose|k: int| 0 <= k < after.len() && (#[trigger] after[k]).name@ == name;
            assert(before[k].name@ == name);
        }
        if has_name(before, name) {
            let k = choose|k: int| 0 <= k < before.len() && (#[trigger] before[k]).name@ == name;
            assert(after[k].name@ == name);
        }
        lemma_slot_at(after, i);
    }
    assert forall|name: Seq<char>| contig_map(after).dom().contains(name) implies contig_map(
        after,
    )[name] == target[name] by {
        let k = choose|k: int| 0 <= k < after.len() && (#[trigger] after[k]).name@ == name;
        lemma_slot_at(after, k);
        lemma_slot_at(before, k);
    }
    assert(contig_map(after) =~= target);
}

/// Adding an entry for a contig that has none adds that contig's
/// statistics and changes no other's.
pub proof fn lemma_map_after_push(before: Seq<ContigSummary>, entry: ContigSummary)
    requires
        distinct_names(before),
        !has_name(before, entry.name@),
    ensures
        distinct_names(before.push(entry)),
        contig_map(before.push(entry)) == contig_map(before).insert(entry.name@, entry@),
{
    let after = before.push(entry);
    let n = before.len() as int;
    assert(forall|k: int| 0 <= k < n ==> (#[trigger] after[k]) == before[k]);
    assert(distinct_names(after)) by {
        assert forall|a: int, b: int|
            0 <= a < after.len() && 0 <= b < after.len() && a != b implies (#[trigger] after[a]).name@
            != (#[trigger] after[b]).name@ by {
            if a < n && b < n {
                assert(before[a].name@ != before[b].name@);
            } else if a < n {
                assert(before[a].name@ != entry.name@);
            } else {
                assert(before[b].name@ != entry.name@);
            }
        }
    }
    let target = contig_map(before).insert(entry.name@, entry@);
    assert forall|name: Seq<char>| contig_map(after).dom().contains(name) <==> target.dom().contains(
        name,
    ) by {
        if has_name(after, name) {
            let k = choose|k: int| 0 <= k < after.len() && (#[trigger] after[k]).name@ == name;
            if k < n {
                assert(before[k].name@ == name);
            }
        }
        if has_name(before, name) {
            let k = choose|k: int| 0 <= k < before.len() && (#[trigger] before[k]).name@ == name;
            assert(after[k].name@ == name);
        }
        lemma_slot_at(after, n);
    }
    assert forall|name: Seq<char>| contig_map(after).dom().contains(name) implies contig_map(
        after,
    )[name] == target[name] by {
        let k = choose|k: int| 0 <= k < after.len() && (#[trigger] after[k]).name@ == name;
        lemma_slot_at(after, k);
        if k < n {
            lemma_slot_at(before, k);
        }
    }
    assert(contig_map(after) =~= target);
}

/// Represents a summary of sequencing data, including various metrics related to the output of the experiment.
#[derive(Debug)]
pub struct ConditionSummary {
    /// The name or identifier of the sequencing data.
    pub name: String,
    /// The total number of reads in the sequencing data.
    pub total_reads: usize,
    /// The count of reads that are mapped off the target regions (off-target reads).
    pub off_target_read_count: usize,
    /// The count of reads that are mapped to the target regions (on-target reads).
    pub on_target_read_count: usize,
    /// The total yield (base pairs) of off-target reads in the sequencing data.
    pub off_target_yield: usize,
    /// The total yield (base pairs) of on-target reads in the sequencing data.
    pub on_target_yield: usize,
    /// The mean read length of off-target reads.
    pub off_target_mean_read_length: usize,
    /// The mean read length of on-target reads.
    pub on_target_mean_read_length: usize,
    /// The N50 metric for the entire dataset.
    pub n50: usize,
    /// The N50 metric for on-target reads.
    pub on_target_n50: usize,
    /// The N50 metric for off-target reads.
    pub off_target_n50: usize,
    /// The summaries of the contigs that reads of this condition mapped
    /// to, one entry for each, in the order in which they were first seen.
    pub contigs: Vec<ContigSummary>,
}

/// The statistics of a condition as numbers without bound, the contigs by
/// name.
pub struct ConditionStats {
    pub name: Seq<char>,
    pub total_reads: nat,
    pub off_target_read_count: nat,
    pub on_target_read_count: nat,
    pub off_target_yield: nat,
    pub on_target_yield: nat,
    pub off_target_mean_read_length: nat,
    pub on_target_mean_read_length: nat,
    pub n50: nat,
    pub on_target_n50: nat,
    pub off_target_n50: nat,
    pub contigs: Map<Seq<char>, ContigStats>,
}

/// One classified alignment, as the statistics see it.
pub struct ReadEvent {
    pub contig: Seq<char>,
    pub target_length: nat,
    pub query_length: nat,
    pub on_target: bool,
}

impl ConditionStats {
    /// A condition that no read has been counted for.
    pub open spec fn fresh(name: Seq<char>) -> ConditionStats {
        ConditionStats {
            name,
            total_reads: 0,
            off_target_read_count: 0,
            on_target_read_count: 0,
            off_target_yield: 0,
            on_target_yield: 0,
            off_target_mean_read_length: 0,
            on_target_mean_read_length: 0,
            n50: 0,
            on_target_n50: 0,
            off_target_n50: 0,
            contigs: Map::empty(),
        }
    }

    /// The contig's statistics as they stand before a read is counted: the
    /// entry, or a fresh one of the length that the read's record gives.
    pub open spec fn contig_before(self, contig: Seq<char>, target_length: nat) -> ContigStats {
        if self.contigs.dom().contains(contig) {
            self.contigs[contig]
        } else {
            ContigStats::fresh(contig, target_length)
        }
    }

    /// The condition after one more read: one more read in all and in the
    /// read's class, the read's bases in that class's yield, that class's
    /// mean as yield over count, and the same in the read's contig.
    pub open spec fn record(self, e: ReadEvent) -> ConditionStats {
        let contigs = self.contigs.insert(
            e.contig,
            self.contig_before(e.contig, e.target_length).record(e.query_length, e.on_target),
        );
        if e.on_target {
            ConditionStats {
                total_reads: self.total_reads + 1,
                on_target_read_count: self.on_target_read_count + 1,
                on_target_yield: self.on_target_yield + e.query_length,
                on_target_mean_read_length: (self.on_target_yield + e.query_length) / (
                self.on_target_read_count + 1),
                contigs,
                ..self
            }
        } else {
            ConditionStats {
                total_reads: self.total_reads + 1,
                off_target_read_count: self.off_target_read_count + 1,
                off_target_yield: self.off_target_yield + e.query_length,
                off_target_mean_read_length: (self.off_target_yield + e.query_length) / (
                self.off_target_read_count + 1),
                contigs,
                ..self
            }
        }
    }

    /// The condition after a run of reads, counted in their order.
    pub open spec fn record_all(self, events: Seq<ReadEvent>) -> ConditionStats
        decreases events.len(),
    {
        if events.len() == 0 {
            self
        } else {
            self.record_all(events.drop_last()).record(events.last())
        }
    }

    /// Whether a machine word holds every number.
    pub open spec fn fits(self) -> bool {
        &&& self.total_reads <= usize::MAX
        &&& self.off_target_read_count <= usize::MAX
        &&& self.on_target_read_count <= usize::MAX
        &&& self.off_target_yield <= usize::MAX
        &&& self.on_target_yield <= usize::MAX
        &&& self.off_target_mean_read_length <= usize::MAX
        &&& self.on_target_mean_read_length <= usize::MAX
        &&& self.n50 <= usize::MAX
        &&& self.on_target_n50 <= usize::MAX
        &&& self.off_target_n50 <= usize::MAX
        &&& forall|name: Seq<char>| self.contigs.dom().contains(name) ==> (#[trigger] self.contigs[name]).fits()
    }

    /// What holds of a condition that only `record` has touched: every read
    /// is on target or off target, each mean is its class's yield over its
    /// class's count, and every contig is consistent and filed under its
    /// name.
    pub open spec fn consistent(self) -> bool {
        &&& self.total_reads == self.on_target_read_count + self.off_target_read_count
        &&& self.on_target_mean_read_length == (if self.on_target_read_count == 0 {
            0
        } else {
            self.on_target_yield / self.on_target_read_count
        })
        &&& self.off_target_mean_read_length == (if self.off_target_read_count == 0 {
            0
        } else {
            self.off_target_yield / self.off_target_read_count
        })
        &&& forall|name: Seq<char>| self.contigs.dom().contains(name) ==> (#[trigger] self.contigs[name]).consistent()
            && self.contigs[name].name == name
    }
}

/// Counting a read keeps a consistent condition consistent.
pub proof fn lemma_record_consistent(s: ConditionStats, e: ReadEvent)
    requires
        s.consistent(),
    ensures
        s.record(e).consistent(),
        s.record(e).total_reads == s.total_reads + 1,
{
    let r = s.record(e);
    let before = s.contig_before(e.contig, e.target_length);
    assert(before.consistent() && before.name == e.contig);
    assert(before.record(e.query_length, e.on_target).consistent());
    assert forall|name: Seq<char>| r.contigs.dom().contains(name) implies (#[trigger] r.contigs[name]).consistent()
        && r.contigs[name].name == name by {
        if name != e.contig {
            assert(s.contigs.dom().contains(name));
            assert(r.contigs[name] == s.contigs[name]);
        }
    }
}

/// A mean times its count comes to the yield, but for what the division
/// dropped: less than one base for each read.
pub proof fn lemma_mean_near_yield(s: ConditionStats)
    requires
        s.consistent(),
    ensures
        s.on_target_mean_read_length * s.on_target_read_count <= s.on_target_yield,
        s.on_target_read_count > 0 ==> s.on_target_yield < s.on_target_mean_read_length
            * s.on_target_read_count + s.on_target_read_count,
        s.off_target_mean_read_length * s.off_target_read_count <= s.off_target_yield,
        s.off_target_read_count > 0 ==> s.off_target_yield < s.off_target_mean_read_length
            * s.off_target_read_count + s.off_target_read_count,
{
    if s.on_target_read_count > 0 {
        let y = s.on_target_yield as int;
        let c = s.on_target_read_count as int;
        vstd::arithmetic::div_mod::lemma_fundamental_div_mod(y, c);
        vstd::arithmetic::div_mod::lemma_mod_bound(y, c);
        assert(c * (y / c) == (y / c) * c) by (nonlinear_arith);
    } else {
        assert(s.on_target_mean_read_length * s.on_target_read_count == 0) by (nonlinear_arith)
            requires
                s.on_target_read_count == 0,
        ;
    }
    if s.off_target_read_count > 0 {
        let y = s.off_target_yield as int;
        let c = s.off_target_read_count as int;
        vstd::arithmetic::div_mod::lemma_fundamental_div_mod(y, c);
        vstd::arithmetic::div_mod::lemma_mod_bound(y, c);
        assert(c * (y / c) == (y / c) * c) by (nonlinear_arith);
    } else {
        assert(s.off_target_mean_read_length * s.off_target_read_count == 0) by (nonlinear_arith)
            requires
                s.off_target_read_count == 0,
        ;
    }
}

/// After any number of reads counted into a fresh condition, the reads in
/// all are as many as were counted, each of them is counted once as on
/// target or as off target, and the means are yield over count.
pub proof fn lemma_counts_balance(name: Seq<char>, events: Seq<ReadEvent>)
    ensures
        ConditionStats::fresh(name).record_all(events).consistent(),
        ConditionStats::fresh(name).record_all(events).total_reads == events.len(),
        ConditionStats::fresh(name).record_all(events).total_reads == ConditionStats::fresh(
            name,
        ).record_all(events).on_target_read_count + ConditionStats::fresh(name).record_all(
            events,
        ).off_target_read_count,
    decreases events.len(),
{
    if events.len() > 0 {
        lemma_counts_balance(name, events.drop_last());
        lemma_record_consistent(
            ConditionStats::fresh(name).record_all(events.drop_last()),
            events.last(),
        );
    }
}

impl View for ConditionSummary {
    type V = ConditionStats;

    open spec fn view(&self) -> ConditionStats {
        ConditionStats {
            name: self.name@,
            total_reads: self.total_reads as nat,
            off_target_read_count: self.off_target_read_count as nat,
            on_target_read_count: self.on_target_read_count as nat,
            off_target_yield: self.off_target_yield as nat,
            on_target_yield: self.on_target_yield as nat,
            off_target_mean_read_length: self.off_target_mean_read_length as nat,
            on_target_mean_read_length: self.on_target_mean_read_length as nat,
            n50: self.n50 as nat,
            on_target_n50: self.on_target_n50 as nat,
            off_target_n50: self.off_target_n50 as nat,
            contigs: contig_map(self.contigs@),
        }
    }
}

/// The read that an alignment stands for in the statistics.
pub open spec fn read_event(record: PafRecordView, on_target: bool) -> ReadEvent {
    ReadEvent {
        contig: record.target_name,
        target_length: record.target_length as nat,
        query_length: record.query_length as nat,
        on_target,
    }
}

/// The read that a record stands for in the statistics.
pub open spec fn event_of(paf: PafRecord, on_target: bool) -> ReadEvent {
    read_event(paf@, on_target)
}

impl ConditionSummary {
    /// No contig has two entries.
    pub open spec fn well_formed(&self) -> bool {
        distinct_names(self.contigs@)
    }

    /// Create a new summary with default values for all fields except `name`.
    pub fn new(name: String) -> (r: Self)
        ensures
            r@ == ConditionStats::fresh(name@),
            r.name == name,
            r.contigs@.len() == 0,
            r.well_formed(),
    {
        let r = ConditionSummary {
            name,
            total_reads: 0,
            off_target_read_count: 0,
            on_target_read_count: 0,
            off_target_yield: 0,
            on_target_yield: 0,
            off_target_mean_read_length: 0,
            on_target_mean_read_length: 0,
            n50: 0,
            on_target_n50: 0,
            off_target_n50: 0,
            contigs: Vec::new(),
        };
        assert(r@.contigs =~= Map::empty());
        r
    }

    /// A copy of the summary, contig by contig.
    pub fn duplicate(&self) -> (r: ConditionSummary)
        ensures
            r.contigs@ == self.contigs@,
            r == (ConditionSummary { contigs: r.contigs, ..*self }),
            r@ == self@,
            r.well_formed() == self.well_formed(),
    {
        let mut contigs: Vec<ContigSummary> = Vec::new();
        let mut i: usize = 0;
        while i < self.contigs.len()
            invariant
                i <= self.contigs.len(),
                contigs@ == self.contigs@.take(i as int),
            decreases self.contigs.len() - i,
        {
            contigs.push(self.contigs[i].duplicate());
            assert(self.contigs@.take(i as int).push(self.contigs@[i as int]) =~= self.contigs@.take(
                i + 1,
            ));
            i = i + 1;
        }
        assert(self.contigs@.take(i as int) =~= self.contigs@);
        ConditionSummary {
            name: self.name.clone(),
            total_reads: self.total_reads,
            off_target_read_count: self.off_target_read_count,
            on_target_read_count: self.on_target_read_count,
            off_target_yield: self.off_target_yield,
            on_target_yield: self.on_target_yield,
            off_target_mean_read_length: self.off_target_mean_read_length,
            on_target_mean_read_length: self.on_target_mean_read_length,
            n50: self.n50,
            on_target_n50: self.on_target_n50,
            off_target_n50: self.off_target_n50,
            contigs,
        }
    }

    /// Get the name or identifier of the sequencing data.
    pub fn name(&self) -> (r: &str)
        ensures
            r@ == self.name@,
    {
        self.name.as_str()
    }

    /// Set the name or identifier of the sequencing data.
    pub fn set_name(&mut self, name: String)
        ensures
            *final(self) == (ConditionSummary { name, ..*old(self) }),
    {
        self.name = name;
    }

    /// Get the total number of reads in the sequencing data.
    pub fn total_reads(&self) -> (r: usize)
        ensures
            r == self.total_reads,
    {
        self.total_reads
    }

    /// Add to the total number of reads in the sequencing data.
    pub fn add_total_reads(&mut self, total_reads: usize)
        requires
            old(self).total_reads + total_reads <= usize::MAX,
        ensures
            *final(self) == (ConditionSummary {
                total_reads: (old(self).total_reads + total_reads) as usize,
                ..*old(self)
            }),
    {
        self.total_reads = self.total_reads + total_reads;
    }

    /// Get the total yield: the bases of the reads on target and off target.
    pub fn total_yield(&self) -> (r: usize)
        requires
            self.on_target_yield + self.off_target_yield <= usize::MAX,
        ensures
            r == self.on_target_yield + self.off_target_yield,
    {
        self.on_target_yield + self.off_target_yield
    }

    /// Get a reference to the summaries of the contigs.
    pub fn contigs(&self) -> (r: &Vec<ContigSummary>)
        ensures
            *r == self.contigs,
    {
        &self.contigs
    }

    /// Get a mutable reference to the summaries of the contigs.
    pub fn contigs_mut(&mut self) -> (r: &mut Vec<ContigSummary>)
        ensures
            *r == old(self).contigs,
            *final(self) == (ConditionSummary { contigs: *final(r), ..*old(self) }),
    {
        &mut self.contigs
    }

    /// Get the ContigSummary associated with the given contig name or
    /// add a new ContigSummary with the specified name and length if it doesn't exist.
    pub fn get_or_add_contig(&mut self, contig: &str, length: usize) -> (r: &mut ContigSummary)
        requires
            old(self).well_formed(),
        ensures
            r@ == old(self)@.contig_before(contig@, length as nat),
            r.name@ == contig@,
            has_name(old(self).contigs@, contig@) ==> *r == old(self).contigs@[slot_of(
                old(self).contigs@,
                contig@,
            )] && final(self).contigs@ == old(self).contigs@.update(
                slot_of(old(self).contigs@, contig@),
                *final(r),
            ),
            !has_name(old(self).contigs@, contig@) ==> final(self).contigs@ == old(
                self,
            ).contigs@.push(*final(r)),
            *final(self) == (ConditionSummary { contigs: final(self).contigs, ..*old(self) }),
    {
        let ghost before = self.contigs@;
        let i: usize = match find_name(&self.contigs, contig) {
            Some(i) => {
                proof {
                    lemma_slot_at(before, i as int);
                }
                i
            },
            None => {
                let fresh = ContigSummary::new(contig.to_owned(), length);
                self.contigs.push(fresh);
                self.contigs.len() - 1
            },
        };
        let ghost middle = self.contigs@;
        let r = &mut self.contigs[i];
        proof {
            if !has_name(before, contig@) {
                assert forall|x: ContigSummary| #[trigger]
                    middle.update(i as int, x) == before.push(x) by {
                    assert(middle.update(i as int, x) =~= before.push(x));
                }
            }
        }
        r
    }

    /// Get the count of reads that are mapped off the target regions (off-target reads).
    pub fn off_target_read_count(&self) -> (r: usize)
        ensures
            r == self.off_target_read_count,
    {
        self.off_target_read_count
    }

    /// Set the count of reads that are mapped off the target regions (off-target reads).
    pub fn set_off_target_read_count(&mut self, off_target_read_count: usize)
        ensures
            *final(self) == (ConditionSummary { off_target_read_count, ..*old(self) }),
    {
        self.off_target_read_count = off_target_read_count;
    }

    /// Get the count of reads that are mapped to the target regions (on-target reads).
    pub fn on_target_read_count(&self) -> (r: usize)
        ensures
            r == self.on_target_read_count,
    {
        self.on_target_read_count
    }

    /// Set the count of reads that are mapped to the target regions (on-target reads).
    pub fn set_on_target_read_count(&mut self, on_target_read_count: usize)
        ensures
            *final(self) == (ConditionSummary { on_target_read_count, ..*old(self) }),
    {
        self.on_target_read_count = on_target_read_count;
    }

    /// Get the total yield (base pairs) of off-target reads in the sequencing data.
    pub fn off_target_yield(&self) -> (r: usize)
        ensures
            r == self.off_target_yield,
    {
        self.off_target_yield
    }

    /// Set the total yield (base pairs) of off-target reads in the sequencing data.
    pub fn set_off_target_yield(&mut self, off_target_yield: usize)
        ensures
            *final(self) == (ConditionSummary { off_target_yield, ..*old(self) }),
    {
        self.off_target_yield = off_target_yield;
    }

    /// Get the total yield (base pairs) of on-target reads in the sequencing data.
    pub fn on_target_yield(&self) -> (r: usize)
        ensures
            r == self.on_target_yield,
    {
        self.on_target_yield
    }

    /// Set the total yield (base pairs) of on-target reads in the sequencing data.
    pub fn set_on_target_yield(&mut self, on_target_yield: usize)
        ensures
            *final(self) == (ConditionSummary { on_target_yield, ..*old(self) }),
    {
        self.on_target_yield = on_target_yield;
    }

    /// Get the mean read length of off-target reads.
    pub fn off_target_mean_read_length(&self) -> (r: usize)
        ensures
            r == self.off_target_mean_read_length,
    {
        self.off_target_mean_read_length
    }

    /// Set the mean read length of off-target reads.
    pub fn set_off_target_mean_read_length(&mut self, off_target_mean_read_length: usize)
        ensures
            *final(self) == (ConditionSummary { off_target_mean_read_length, ..*old(self) }),
    {
        self.off_target_mean_read_length = off_target_mean_read_length;
    }

    /// Get the mean read length of on-target reads.
    pub fn on_target_mean_read_length(&self) -> (r: usize)
        ensures
            r == self.on_target_mean_read_length,
    {
        self.on_target_mean_read_length
    }

    /// Set the mean read length of on-target reads.
    pub fn set_on_target_mean_read_length(&mut self, on_target_mean_read_length: usize)
        ensures
            *final(self) == (ConditionSummary { on_target_mean_read_length, ..*old(self) }),
    {
        self.on_target_mean_read_length = on_target_mean_read_length;
    }

    /// Get the N50 metric for the entire dataset.
    pub fn n50(&self) -> (r: usize)
        ensures
            r == self.n50,
    {
        self.n50
    }

    /// Set the N50 metric for the entire dataset.
    pub fn set_n50(&mut self, n50: usize)
        ensures
            *final(self) == (ConditionSummary { n50, ..*old(self) }),
    {
        self.n50 = n50;
    }

    /// Get the N50 metric for on-target reads.
    pub fn on_target_n50(&self) -> (r: usize)
        ensures
            r == self.on_target_n50,
    {
        self.on_target_n50
    }

    /// Set the N50 metric for on-target reads.
    pub fn set_on_target_n50(&mut self, on_target_n50: usize)
        ensures
            *final(self) == (ConditionSummary { on_target_n50, ..*old(self) }),
    {
        self.on_target_n50 = on_target_n50;
    }

    /// Get the N50 metric for off-target reads.
    pub fn off_target_n50(&self) -> (r: usize)
        ensures
            r == self.off_target_n50,
    {
        self.off_target_n50
    }

    /// Set the N50 metric for off-target reads.
    pub fn set_off_target_n50(&mut self, off_target_n50: usize)
        ensures
            *final(self) == (ConditionSummary { off_target_n50, ..*old(self) }),
    {
        self.off_target_n50 = off_target_n50;
    }

    /// Update the summary with one alignment and its classification: the
    /// statistics of the condition and of the alignment's contig count the
    /// read. Where a number would no longer fit a machine word, nothing is
    /// changed and the record is refused.
    pub fn update(&mut self, paf: PafRecord, on_target: bool) -> (r: Result<(), SummaryError>)
        requires
            old(self).well_formed(),
        ensures
            final(self).well_formed(),
            r is Ok <==> old(self)@.record(event_of(paf, on_target)).fits(),
            r is Ok ==> final(self)@ == old(self)@.record(event_of(paf, on_target)),
            r is Err ==> *final(self) == *old(self),
    {
        let ghost e = event_of(paf, on_target);
        let ghost goal = self@.record(e);
        let ghost before = self.contigs@;
        let q: usize = paf.query_length;
        let found = find_name(&self.contigs, paf.target_name.as_str());
        let (class_count, class_yield): (usize, usize) = if on_target {
            (self.on_target_read_count, self.on_target_yield)
        } else {
            (self.off_target_read_count, self.off_target_yield)
        };
        let (contig_total, contig_count, contig_yield): (usize, usize, usize) = match found {
            Some(i) => {
                proof {
                    lemma_slot_at(before, i as int);
                }
                let c = &self.contigs[i];
                if on_target {
                    (c.total_bases, c.on_target_read_count, c.yield_on_target)
                } else {
                    (c.total_bases, c.off_target_read_count, c.yield_off_target)
                }
            },
            None => (0, 0, 0),
        };
        let ghost entry = self@.contig_before(e.contig, e.target_length);
        proof {
            assert(goal.contigs.dom().contains(e.contig));
            assert(goal.contigs[e.contig] == entry.record(e.query_length, on_target));
        }
        if self.total_reads == usize::MAX || class_count == usize::MAX || class_yield > usize::MAX
            - q || contig_total > usize::MAX - q || contig_count == usize::MAX || contig_yield
            > usize::MAX - q {
            assert(!goal.fits());
            return Err(SummaryError::Overflow);
        }
        self.total_reads = self.total_reads + 1;
        if on_target {
            self.on_target_read_count = self.on_target_read_count + 1;
            self.on_target_yield = self.on_target_yield + q;
            self.on_target_mean_read_length = self.on_target_yield / self.on_target_read_count;
        } else {
            self.off_target_read_count = self.off_target_read_count + 1;
            self.off_target_yield = self.off_target_yield + q;
            self.off_target_mean_read_length = self.off_target_yield / self.off_target_read_count;
        }
        let i: usize = match found {
            Some(i) => i,
            None => {
                let fresh = ContigSummary::new(paf.target_name, paf.target_length);
                proof {
                    lemma_map_after_push(before, fresh);
                }
                self.contigs.push(fresh);
                self.contigs.len() - 1
            },
        };
        let ghost middle = self.contigs@;
        proof {
            lemma_slot_at(middle, i as int);
            assert(middle[i as int]@ == entry);
        }
        self.contigs[i].total_bases = self.contigs[i].total_bases + q;
        if on_target {
            self.contigs[i].on_target_read_count = self.contigs[i].on_target_read_count + 1;
            self.contigs[i].yield_on_target = self.contigs[i].yield_on_target + q;
            self.contigs[i].mean_read_length_on_target = self.contigs[i].yield_on_target
                / self.contigs[i].on_target_read_count;
        } else {
            self.contigs[i].off_target_read_count = self.contigs[i].off_target_read_count + 1;
            self.contigs[i].yield_off_target = self.contigs[i].yield_off_target + q;
            self.contigs[i].mean_read_length_off_target = self.contigs[i].yield_off_target
                / self.contigs[i].off_target_read_count;
        }
        proof {
            let after = self.contigs@;
            lemma_map_after_set(middle, after, i as int);
            assert(after[i as int]@ == entry.record(e.query_length, on_target));
            assert(contig_map(after) =~= goal.contigs);
            assert(self@ == goal);
            assert(goal.fits()) by {
                assert forall|name: Seq<char>| goal.contigs.dom().contains(name) implies (
                #[trigger] goal.contigs[name]).fits() by {
                    let k = choose|k: int| 0 <= k < after.len() && (#[trigger] after[k]).name@ == name;
                    lemma_slot_at(after, k);
                }
            }
        }
        Ok(())
    }
}

/// No two entries of the list are for one condition.
pub open spec fn distinct_conditions(list: Seq<ConditionSummary>) -> bool {
    forall|i: int, j: int|
        0 <= i < list.len() && 0 <= j < list.len() && i != j ==> (#[trigger] list[i]).name@ != (
        #[trigger] list[j]).name@
}

/// Whether the list has an entry for the condition.
pub open spec fn has_condition(list: Seq<ConditionSummary>, name: Seq<char>) -> bool {
    exists|i: int| 0 <= i < list.len() && (#[trigger] list[i]).name@ == name
}

/// Where the condition's entry is in the list; where it would be put, if
/// there is none.
pub open spec fn condition_slot(list: Seq<ConditionSummary>, name: Seq<char>) -> int {
    if has_condition(list, name) {
        choose|i: int| 0 <= i < list.len() && (#[trigger] list[i]).name@ == name
    } else {
        list.len() as int
    }
}

/// The statistics of each condition that the list has an entry for.
pub open spec fn condition_map(list: Seq<ConditionSummary>) -> Map<Seq<char>, ConditionStats> {
    Map::new(
        |name: Seq<char>| has_condition(list, name),
        |name: Seq<char>| list[condition_slot(list, name)]@,
    )
}

/// In a list without doubles, an entry is the one of its condition.
pub proof fn lemma_condition_at(list: Seq<ConditionSummary>, i: int)
    requires
        distinct_conditions(list),
        0 <= i < list.len(),
    ensures
        has_condition(list, list[i].name@),
        condition_slot(list, list[i].name@) == i,
        condition_map(list)[list[i].name@] == list[i]@,
{
    let name = list[i].name@;
    assert(list[i].name@ == name);
    let k = choose|k: int| 0 <= k < list.len() && (#[trigger] list[k]).name@ == name;
    assert(k == i);
}

/// Changing one entry of the list, its name kept, changes that condition's
/// statistics and no other's.
pub proof fn lemma_conditions_after_set(
    before: Seq<ConditionSummary>,
    after: Seq<ConditionSummary>,
    i: int,
)
    requires
        distinct_conditions(before),
        after.len() == before.len(),
        0 <= i < before.len(),
        after[i].name@ == before[i].name@,
        forall|k: int| 0 <= k < before.len() && k != i ==> after[k] == before[k],
    ensures
        distinct_conditions(after),
        condition_map(after) == condition_map(before).insert(before[i].name@, after[i]@),
{
    assert(forall|k: int| 0 <= k < before.len() ==> (#[trigger] after[k]).name@ == before[k].name@);
    assert(distinct_conditions(after)) by {
        assert forall|a: int, b: int|
            0 <= a < after.len() && 0 <= b < after.len() && a != b implies (#[trigger] after[a]).name@
            != (#[trigger] after[b]).name@ by {
            assert(before[a].name@ != before[b].name@);
        }
    }
    let target = condition_map(before).insert(before[i].name@, after[i]@);
    assert forall|name: Seq<char>| condition_map(after).dom().contains(name)
        <==> target.dom().contains(name) by {
        if has_condition(after, name) {
            let k = choose|k: int| 0 <= k < after.len() && (#[trigger] after[k]).name@ == name;
            assert(before[k].name@ == name);
        }
        if has_condition(before, name) {
            let k = choose|k: int| 0 <= k < before.len() && (#[trigger] before[k]).name@ == name;
            assert(after[k].name@ == name);
        }
        lemma_condition_at(after, i);
    }
    assert forall|name: Seq<char>| condition_map(after).dom().contains(name) implies condition_map(
        after,
    )[name] == target[name] by {
        let k = choose|k: int| 0 <= k < after.len() && (#[trigger] after[k]).name@ == name;
        lemma_condition_at(after, k);
        lemma_condition_at(before, k);
    }
    assert(condition_map(after) =~= target);
}

/// Adding an entry for a condition that has none adds that condition's
/// statistics and changes no other's.
pub proof fn lemma_conditions_after_push(before: Seq<ConditionSummary>, entry: ConditionSummary)
    requires
        distinct_conditions(before),
        !has_condition(before, entry.name@),
    ensures
        distinct_conditions(before.push(entry)),
        condition_map(before.push(entry)) == condition_map(before).insert(entry.name@, entry@),
{
    let after = before.push(entry);
    let n = before.len() as int;
    assert(forall|k: int| 0 <= k < n ==> (#[trigger] after[k]) == before[k]);
    assert(distinct_conditions(after)) by {
        assert forall|a: int, b: int|
            0 <= a < after.len() && 0 <= b < after.len() && a != b implies (#[trigger] after[a]).name@
            != (#[trigger] after[b]).name@ by {
            if a < n && b < n {
                assert(before[a].name@ != before[b].name@);
            } else if a < n {
                assert(before[a].name@ != entry.name@);
            } else {
                assert(before[b].name@ != entry.name@);
            }
        }
    }
    let target = condition_map(before).insert(entry.name@, entry@);
    assert forall|name: Seq<char>| condition_map(after).dom().contains(name)
        <==> target.dom().contains(name) by {
        if has_condition(after, name) {
            let k = choose|k: int| 0 <= k < after.len() && (#[trigger] after[k]).name@ == name;
            if k < n {
                assert(before[k].name@ == name);
            }
        }
        if has_condition(before, name) {
            let k = choose|k: int| 0 <= k < before.len() && (#[trigger] before[k]).name@ == name;
            assert(after[k].name@ == name);
        }
        lemma_condition_at(after, n);
    }
    assert forall|name: Seq<char>| condition_map(after).dom().contains(name) implies condition_map(
        after,
    )[name] == target[name] by {
        let k = choose|k: int| 0 <= k < after.len() && (#[trigger] after[k]).name@ == name;
        lemma_condition_at(after, k);
        if k < n {
            lemma_condition_at(before, k);
        }
    }
    assert(condition_map(after) =~= target);
}

fn find_summary(list: &Vec<ConditionSummary>, name: &str) -> (r: Option<usize>)
    ensures
        match r {
            Some(i) => i < list@.len() && list@[i as int].name@ == name@,
            None => !has_condition(list@, name@),
        },
{
    let mut i: usize = 0;
    while i < list.len()
        invariant
            i <= list.len(),
            forall|k: int| 0 <= k < i ==> (#[trigger] list@[k]).name@ != name@,
        decreases list.len() - i,
    {
        if text_eq(list[i].name.as_str(), name) {
            return Some(i);
        }
        i = i + 1;
    }
    None
}

/// The statistics of a run: one summary for each condition that a read was
/// counted for, in the order in which they were first seen.
#[derive(Debug)]
pub struct Summary {
    /// Conditions summary for a given region or barcode.
    pub conditions: Vec<ConditionSummary>,
}

/// The statistics of a condition as they stand before a read is counted:
/// the entry, or a fresh one.
pub open spec fn condition_before(summary: Map<Seq<char>, ConditionStats>, name: Seq<char>) -> ConditionStats {
    if summary.dom().contains(name) {
        summary[name]
    } else {
        ConditionStats::fresh(name)
    }
}

/// The statistics of a run after one more read was counted for a condition.
pub open spec fn count_read(
    summary: Map<Seq<char>, ConditionStats>,
    name: Seq<char>,
    e: ReadEvent,
) -> Map<Seq<char>, ConditionStats> {
    summary.insert(name, condition_before(summary, name).record(e))
}

impl View for Summary {
    type V = Map<Seq<char>, ConditionStats>;

    open spec fn view(&self) -> Map<Seq<char>, ConditionStats> {
        condition_map(self.conditions@)
    }
}

impl Summary {
    /// No condition has two entries, and none has two entries for a contig.
    pub open spec fn well_formed(&self) -> bool {
        &&& distinct_conditions(self.conditions@)
        &&& forall|i: int| 0 <= i < self.conditions@.len() ==> (#[trigger] self.conditions@[i]).well_formed()
    }

    /// Create a new `Summary` without conditions.
    pub fn new() -> (s: Summary)
        ensures
            s@ == Map::<Seq<char>, ConditionStats>::empty(),
            s.conditions@.len() == 0,
            s.well_formed(),
    {
        let s = Summary { conditions: Vec::new() };
        assert(s@ =~= Map::<Seq<char>, ConditionStats>::empty());
        s
    }

    /// A copy of the statistics, condition by condition.
    pub fn duplicate(&self) -> (r: Summary)
        requires
            self.well_formed(),
        ensures
            r.well_formed(),
            r@ == self@,
            r.conditions@.len() == self.conditions@.len(),
            forall|i: int|
                0 <= i < self.conditions@.len() ==> (#[trigger] r.conditions@[i]).name
                    == self.conditions@[i].name && r.conditions@[i]@ == self.conditions@[i]@
                    && r.conditions@[i].contigs@ == self.conditions@[i].contigs@,
    {
        let mut conditions: Vec<ConditionSummary> = Vec::new();
        let mut i: usize = 0;
        while i < self.conditions.len()
            invariant
                i <= self.conditions.len(),
                conditions@.len() == i,
                forall|k: int|
                    0 <= k < i ==> (#[trigger] conditions@[k]).name == self.conditions@[k].name
                        && conditions@[k]@ == self.conditions@[k]@ && conditions@[k].contigs@
                        == self.conditions@[k].contigs@,
            decreases self.conditions.len() - i,
        {
            conditions.push(self.conditions[i].duplicate());
            i = i + 1;
        }
        let r = Summary { conditions };
        proof {
            let a = r.conditions@;
            let b = self.conditions@;
            assert(distinct_conditions(a)) by {
                assert forall|x: int, y: int|
                    0 <= x < a.len() && 0 <= y < a.len() && x != y implies (#[trigger] a[x]).name@ != (
                #[trigger] a[y]).name@ by {
                    assert(b[x].name@ != b[y].name@);
                }
            }
            assert forall|k: int| 0 <= k < a.len() implies (#[trigger] a[k]).well_formed() by {
                assert(b[k].well_formed());
            }
            assert forall|name: Seq<char>| condition_map(a).dom().contains(name) <==> condition_map(
                b,
            ).dom().contains(name) by {
                if has_condition(a, name) {
                    let k = choose|k: int| 0 <= k < a.len() && (#[trigger] a[k]).name@ == name;
                    assert(b[k].name@ == name);
                }
                if has_condition(b, name) {
                    let k = choose|k: int| 0 <= k < b.len() && (#[trigger] b[k]).name@ == name;
                    assert(a[k].name@ == name);
                }
            }
            assert forall|name: Seq<char>| condition_map(a).dom().contains(name) implies condition_map(
                a,
            )[name] == condition_map(b)[name] by {
                let k = choose|k: int| 0 <= k < a.len() && (#[trigger] a[k]).name@ == name;
                lemma_condition_at(a, k);
                lemma_condition_at(b, k);
            }
            assert(condition_map(a) =~= condition_map(b));
        }
        r
    }

    /// Get the summary for the specified condition. If the condition does not exist in the
    /// `Summary`, it will be created with default values.
    pub fn conditions(&mut self, condition_name: &str) -> (r: &mut ConditionSummary)
        requires
            old(self).well_formed(),
        ensures
            r@ == condition_before(old(self)@, condition_name@),
            r.name@ == condition_name@,
            r.well_formed(),
            has_condition(old(self).conditions@, condition_name@) ==> *r == old(
                self,
            ).conditions@[condition_slot(old(self).conditions@, condition_name@)]
                && final(self).conditions@ == old(self).conditions@.update(
                condition_slot(old(self).conditions@, condition_name@),
                *final(r),
            ),
            !has_condition(old(self).conditions@, condition_name@) ==> final(self).conditions@
                == old(self).conditions@.push(*final(r)),
    {
        let ghost before = self.conditions@;
        let i: usize = match find_summary(&self.conditions, condition_name) {
            Some(i) => {
                proof {
                    lemma_condition_at(before, i as int);
                }
                i
            },
            None => {
                let fresh = ConditionSummary::new(condition_name.to_owned());
                self.conditions.push(fresh);
                assert(self.conditions@.update(before.len() as int, fresh) =~= before.push(fresh));
                self.conditions.len() - 1
            },
        };
        let ghost middle = self.conditions@;
        let r = &mut self.conditions[i];
        proof {
            if !has_condition(before, condition_name@) {
                assert forall|x: ConditionSummary| #[trigger]
                    middle.update(i as int, x) == before.push(x) by {
                    assert(middle.update(i as int, x) =~= before.push(x));
                }
            }
        }
        r
    }

    /// Counts one classified alignment for a condition. Where a number
    /// would no longer fit a machine word, nothing is changed.
    pub fn record(&mut self, condition_name: &str, paf: PafRecord, on_target: bool) -> (r: Result<
        (),
        SummaryError,
    >)
        requires
            old(self).well_formed(),
        ensures
            final(self).well_formed(),
            r is Ok <==> count_read(old(self)@, condition_name@, event_of(paf, on_target))[condition_name@].fits(),
            r is Ok ==> final(self)@ == count_read(
                old(self)@,
                condition_name@,
                event_of(paf, on_target),
            ),
            r is Err ==> final(self)@ == old(self)@,
    {
        let ghost before = self.conditions@;
        let ghost e = event_of(paf, on_target);
        let i: usize = match find_summary(&self.conditions, condition_name) {
            Some(i) => {
                proof {
                    lemma_condition_at(before, i as int);
                }
                i
            },
            None => {
                let fresh = ConditionSummary::new(condition_name.to_owned());
                proof {
                    lemma_conditions_after_push(before, fresh);
                    let goal = fresh@.record(e);
                    assert(goal.fits()) by {
                        assert forall|name: Seq<char>| goal.contigs.dom().contains(name) implies (
                        #[trigger] goal.contigs[name]).fits() by {
                            assert(name == e.contig);
                        }
                    }
                }
                self.conditions.push(fresh);
                self.conditions.len() - 1
            },
        };
        let ghost middle = self.conditions@;
        proof {
            lemma_condition_at(middle, i as int);
            assert(middle[i as int]@ == condition_before(condition_map(before), condition_name@));
        }
        let r = self.conditions[i].update(paf, on_target);
        proof {
            let after = self.conditions@;
            assert(after[i as int].name@ == middle[i as int].name@);
            lemma_conditions_after_set(middle, after, i as int);
            if r is Ok {
                assert(condition_map(after) =~= count_read(condition_map(before), condition_name@, e));
            } else {
                assert(after =~= middle);
                assert(has_condition(before, condition_name@));
                assert(after =~= before);
            }
        }
        r
    }
}

} // verus!
