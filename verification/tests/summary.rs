use readfish_tools::paf::PafRecord;
use readfish_tools::{ConditionSummary, ContigSummary, Summary, SummaryError};

fn paf(contig: &str, target_length: usize, query_length: usize) -> PafRecord {
    PafRecord {
        query_name: "read".to_string(),
        query_length,
        query_start: 0,
        query_end: query_length,
        strand: "+".to_string(),
        target_name: contig.to_string(),
        target_length,
        target_start: 0,
        target_end: query_length,
        nmatch: query_length,
        aln_len: query_length,
        mapq: 60,
    }
}

#[test]
fn aggregation_invariant() {
    let mut summary = ConditionSummary::new("A".to_string());
    let reads = [
        ("chr1", 100usize, true),
        ("chr1", 101, true),
        ("chr2", 50, false),
        ("chr1", 7, false),
        ("chr3", 1000, true),
        ("chr2", 3, false),
        ("chr2", 4, false),
    ];
    for (n, (contig, length, on_target)) in reads.iter().enumerate() {
        summary.update(paf(contig, 5000, *length), *on_target).unwrap();
        assert_eq!(summary.total_reads, n + 1);
        assert_eq!(
            summary.total_reads,
            summary.on_target_read_count + summary.off_target_read_count
        );
        let percent = summary.off_target_read_count as f64 / summary.total_reads as f64 * 100.0;
        assert!((0.0..=100.0).contains(&percent));
    }
    assert_eq!(summary.on_target_read_count, 3);
    assert_eq!(summary.off_target_read_count, 4);
    assert_eq!(summary.on_target_yield, 1201);
    assert_eq!(summary.off_target_yield, 64);
    assert_eq!(summary.total_yield(), 1265);
    assert_eq!(summary.on_target_mean_read_length, 400);
    assert_eq!(summary.off_target_mean_read_length, 16);
    let percent = summary.off_target_read_count as f64 / summary.total_reads as f64 * 100.0;
    assert!((percent - 400.0 / 7.0).abs() < 1e-9);
    assert_eq!(summary.contigs.len(), 3);
    let chr1 = &summary.contigs[0];
    assert_eq!(chr1.name, "chr1");
    assert_eq!(chr1.length, 5000);
    assert_eq!(chr1.total_bases, 208);
    assert_eq!(chr1.on_target_read_count, 2);
    assert_eq!(chr1.off_target_read_count, 1);
    assert_eq!(chr1.yield_on_target, 201);
    assert_eq!(chr1.yield_off_target, 7);
    assert_eq!(chr1.mean_read_length_on_target, 100);
    assert_eq!(chr1.mean_read_length_off_target, 7);
    assert_eq!(chr1.total_reads(), 3);
    assert_eq!(chr1.mean_read_length(), 69);
    assert_eq!(chr1.on_target_mean_read_length(), 100);
    assert_eq!(chr1.off_target_mean_read_length(), 7);
    let chr2 = &summary.contigs[1];
    assert_eq!(chr2.name, "chr2");
    assert_eq!(chr2.total_bases, 57);
    assert_eq!(chr2.off_target_read_count, 3);
    assert_eq!(chr2.mean_read_length_off_target, 19);
    assert_eq!(chr2.on_target_read_count, 0);
    assert_eq!(chr2.mean_read_length_on_target, 0);
}

#[test]
fn contig_length_is_taken_from_the_first_record() {
    let mut summary = ConditionSummary::new("A".to_string());
    summary.update(paf("chr1", 5000, 10), true).unwrap();
    summary.update(paf("chr1", 9999, 10), true).unwrap();
    assert_eq!(summary.contigs.len(), 1);
    assert_eq!(summary.contigs[0].length, 5000);
}

#[test]
fn update_refuses_what_does_not_fit() {
    let mut summary = ConditionSummary::new("A".to_string());
    summary.update(paf("chr1", 5000, usize::MAX - 5), false).unwrap();
    assert_eq!(summary.update(paf("chr2", 5000, 6), false), Err(SummaryError::Overflow));
    assert_eq!(summary.total_reads, 1);
    assert_eq!(summary.off_target_read_count, 1);
    assert_eq!(summary.off_target_yield, usize::MAX - 5);
    assert_eq!(summary.contigs.len(), 1);
    assert_eq!(summary.update(paf("chr2", 5000, 6), true), Ok(()));
    assert_eq!(summary.update(paf("chr1", 5000, 6), true), Err(SummaryError::Overflow));
    assert_eq!(summary.total_reads, 2);
    assert_eq!(summary.update(paf("chr2", 5000, 5), false), Ok(()));
    assert_eq!(summary.off_target_yield, usize::MAX);
    let mut full = ConditionSummary::new("B".to_string());
    full.set_on_target_read_count(usize::MAX);
    assert_eq!(full.update(paf("chr1", 1, 1), true), Err(SummaryError::Overflow));
    assert_eq!(full.update(paf("chr1", 1, 1), false), Ok(()));
}

#[test]
fn new_summaries_are_empty() {
    let contig = ContigSummary::new("chr1".to_string(), 1000);
    assert_eq!(contig.name, "chr1");
    assert_eq!(contig.length, 1000);
    assert_eq!(contig.total_bases, 0);
    assert_eq!(contig.total_reads(), 0);
    assert_eq!(contig.n50, 0);
    assert_eq!(contig.mean_read_length, 0);
    let condition = ConditionSummary::new("A".to_string());
    assert_eq!(condition.name(), "A");
    assert_eq!(condition.total_reads(), 0);
    assert_eq!(condition.on_target_read_count(), 0);
    assert_eq!(condition.off_target_read_count(), 0);
    assert_eq!(condition.on_target_yield(), 0);
    assert_eq!(condition.off_target_yield(), 0);
    assert_eq!(condition.total_yield(), 0);
    assert_eq!(condition.contigs().len(), 0);
    let summary = Summary::new();
    assert_eq!(summary.conditions.len(), 0);
}

#[test]
fn setters_and_getters() {
    let mut s = ConditionSummary::new("A".to_string());
    s.set_name("B".to_string());
    assert_eq!(s.name(), "B");
    s.add_total_reads(5);
    s.add_total_reads(7);
    assert_eq!(s.total_reads(), 12);
    s.set_off_target_read_count(1);
    assert_eq!(s.off_target_read_count(), 1);
    s.set_on_target_read_count(2);
    assert_eq!(s.on_target_read_count(), 2);
    s.set_off_target_yield(3);
    assert_eq!(s.off_target_yield(), 3);
    s.set_on_target_yield(4);
    assert_eq!(s.on_target_yield(), 4);
    assert_eq!(s.total_yield(), 7);
    s.set_off_target_mean_read_length(5);
    assert_eq!(s.off_target_mean_read_length(), 5);
    s.set_on_target_mean_read_length(6);
    assert_eq!(s.on_target_mean_read_length(), 6);
    s.set_n50(7);
    assert_eq!(s.n50(), 7);
    s.set_on_target_n50(8);
    assert_eq!(s.on_target_n50(), 8);
    s.set_off_target_n50(9);
    assert_eq!(s.off_target_n50(), 9);
    assert_eq!(s.total_reads(), 12);
    assert_eq!(s.name(), "B");
}

#[test]
fn contigs_are_found_or_added() {
    let mut s = ConditionSummary::new("A".to_string());
    {
        let c = s.get_or_add_contig("chr1", 100);
        assert_eq!(c.name, "chr1");
        assert_eq!(c.length, 100);
        c.total_bases = 42;
    }
    {
        let c = s.get_or_add_contig("chr2", 200);
        assert_eq!(c.length, 200);
        assert_eq!(c.total_bases, 0);
    }
    {
        let c = s.get_or_add_contig("chr1", 999);
        assert_eq!(c.length, 100);
        assert_eq!(c.total_bases, 42);
    }
    assert_eq!(s.contigs().len(), 2);
    s.contigs_mut().pop();
    assert_eq!(s.contigs().len(), 1);
    assert_eq!(s.contigs()[0].name, "chr1");
}

#[test]
fn conditions_are_found_or_added() {
    let mut summary = Summary::new();
    summary.conditions("A").add_total_reads(3);
    summary.conditions("B").add_total_reads(4);
    summary.conditions("A").add_total_reads(5);
    assert_eq!(summary.conditions.len(), 2);
    assert_eq!(summary.conditions[0].name, "A");
    assert_eq!(summary.conditions[0].total_reads, 8);
    assert_eq!(summary.conditions[1].name, "B");
    assert_eq!(summary.conditions[1].total_reads, 4);
    summary.record("C", paf("chr1", 10, 5), true).unwrap();
    summary.record("B", paf("chr1", 10, 6), false).unwrap();
    assert_eq!(summary.conditions.len(), 3);
    assert_eq!(summary.conditions[2].name, "C");
    assert_eq!(summary.conditions[2].on_target_yield, 5);
    assert_eq!(summary.conditions[1].total_reads, 5);
    assert_eq!(summary.conditions[1].off_target_yield, 6);
}

#[test]
fn copies_hold_the_same_numbers() {
    let mut summary = Summary::new();
    summary.record("A", paf("chr1", 10, 5), true).unwrap();
    summary.record("A", paf("chr2", 20, 6), false).unwrap();
    summary.record("B", paf("chr1", 10, 7), false).unwrap();
    let copy = summary.duplicate();
    assert_eq!(copy.conditions.len(), 2);
    assert_eq!(copy.conditions[0].name, "A");
    assert_eq!(copy.conditions[0].total_reads, 2);
    assert_eq!(copy.conditions[0].on_target_yield, 5);
    assert_eq!(copy.conditions[0].off_target_yield, 6);
    assert_eq!(copy.conditions[0].contigs.len(), 2);
    assert_eq!(copy.conditions[0].contigs[1].name, "chr2");
    assert_eq!(copy.conditions[0].contigs[1].length, 20);
    assert_eq!(copy.conditions[0].contigs[1].yield_off_target, 6);
    assert_eq!(copy.conditions[1].name, "B");
    assert_eq!(copy.conditions[1].off_target_mean_read_length, 7);
    summary.record("B", paf("chr1", 10, 7), false).unwrap();
    assert_eq!(copy.conditions[1].total_reads, 1);
    assert_eq!(summary.conditions[1].total_reads, 2);
}
