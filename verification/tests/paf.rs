use readfish_tools::paf::{
    classify, parse_line, parse_paf_file, parse_tag, parse_tag_with, split_lines, tag_from_groups,
    Paf, PafError,
};
use readfish_tools::readfish::{Conf, Delimiter, RawCondition};
use readfish_tools::sequencing_summary::{SeqSum, SeqSumInfo};
use readfish_tools::Summary;

const VALID: &str = "read1\t1000\t10\t990\t+\tchr1\t248956422\t15000\t16000\t900\t1000\t60\ttp:A:P\tcm:i:100\tch:i:7\n\
read1\t1000\t10\t500\t-\tchr2\t242193529\t500\t1000\t400\t500\t2\ttp:A:S\tch:i:7\n\
read2\t2500\t0\t2500\t+\tchr1\t248956422\t100\t2600\t2400\t2500\t60\n";

fn condition(name: &str, targets: &[&str]) -> RawCondition {
    RawCondition {
        name: Some(name.to_string()),
        min_chunks: None,
        max_chunks: None,
        targets: targets.iter().map(|s| s.to_string()).collect(),
        delimiter: Delimiter::Comma,
        single_off: Some("unblock".to_string()),
        single_on: Some("stop_receiving".to_string()),
        multi_off: Some("unblock".to_string()),
        multi_on: Some("stop_receiving".to_string()),
        no_map: Some("proceed".to_string()),
        no_seq: Some("proceed".to_string()),
    }
}

fn line(read: &str, contig: &str, strand: &str, start: usize, end: usize, tags: &str) -> String {
    format!("{read}\t100\t0\t100\t{strand}\t{contig}\t1000\t{start}\t{end}\t90\t100\t60{tags}\n")
}

fn info(read: &str, channel: usize, barcode: Option<&str>) -> SeqSumInfo {
    SeqSumInfo {
        read_id: read.to_string(),
        channel,
        barcode_arrangement: barcode.map(|b| b.to_string()),
        sequence_length: 100,
    }
}

#[test]
fn test_from_file_valid_paf() {
    let result = parse_paf_file(VALID);
    assert!(result.is_ok(), "Expected Ok, but got an error: {:?}", result.err());
}

#[test]
fn test_from_file_invalid_paf() {
    let result = parse_paf_file("this is not\ta pairwise mapping\n");
    assert!(result.is_err(), "Expected Err, but got Ok");
}

#[test]
fn test_from_file_empty_file() {
    let result = parse_paf_file("");
    assert!(result.is_err(), "Expected Err, but got Ok");
}

#[test]
fn test_paf_from_file() {
    parse_paf_file(VALID).unwrap();
}

#[test]
fn paf_file_lines_are_read_in_order() {
    let lines = parse_paf_file(VALID).unwrap();
    assert_eq!(lines.len(), 3);
    assert_eq!(lines[0].record.query_name, "read1");
    assert_eq!(lines[0].record.query_length, 1000);
    assert_eq!(lines[0].record.query_start, 10);
    assert_eq!(lines[0].record.query_end, 990);
    assert_eq!(lines[0].record.strand, "+");
    assert_eq!(lines[0].record.target_name, "chr1");
    assert_eq!(lines[0].record.target_length, 248956422);
    assert_eq!(lines[0].record.target_start, 15000);
    assert_eq!(lines[0].record.target_end, 16000);
    assert_eq!(lines[0].record.nmatch, 900);
    assert_eq!(lines[0].record.aln_len, 1000);
    assert_eq!(lines[0].record.mapq, 60);
    assert_eq!(lines[0].tags.len(), 3);
    assert_eq!(lines[0].tags[2].key, "ch");
    assert_eq!(lines[0].tags[2].kind, "i");
    assert_eq!(lines[0].tags[2].value, "7");
    assert_eq!(lines[1].record.strand, "-");
    assert_eq!(lines[1].record.target_name, "chr2");
    assert_eq!(lines[2].record.query_name, "read2");
    assert_eq!(lines[2].tags.len(), 0);
    let paf = Paf::new(lines);
    assert_eq!(paf.lines.len(), 3);
}

#[test]
fn paf_file_errors() {
    assert_eq!(parse_paf_file("").unwrap_err(), PafError::Empty);
    assert_eq!(parse_paf_file("\n").unwrap_err(), PafError::FieldCount);
    assert_eq!(
        parse_paf_file("r\t1\t2\t3\t+\tc\t4\t5\t6\t7\t8\n").unwrap_err(),
        PafError::FieldCount
    );
    assert_eq!(
        parse_paf_file("r\t1\t2\t3\t+\tc\t4\t5\t6\t7\t8\tch:i:1\n").unwrap_err(),
        PafError::Colon
    );
    assert_eq!(
        parse_paf_file("r\t1\t2\t3\t+\tc\t4\t5\t6\t7\t8\t*\n").unwrap_err(),
        PafError::Number
    );
    assert_eq!(
        parse_paf_file("r\t1\t2\t3\t+\tc\t4\t5\t6\t7\t8\t9\tnotatag\n").unwrap_err(),
        PafError::Tag
    );
    let mut text = String::from(VALID);
    text.push_str("short line\n");
    assert_eq!(parse_paf_file(&text).unwrap_err(), PafError::FieldCount);
}

#[test]
fn lines_of_a_text() {
    assert_eq!(split_lines("a\nb\n"), vec!["a", "b"]);
    assert_eq!(split_lines("a\nb"), vec!["a", "b"]);
    assert_eq!(split_lines("a\n\nb\n"), vec!["a", "", "b"]);
    assert_eq!(split_lines(""), Vec::<String>::new());
    assert_eq!(split_lines("\n"), vec![""]);
}

#[test]
fn annotation_tokens() {
    let tag = parse_tag("ch:i:12").unwrap();
    assert_eq!(tag.key, "ch");
    assert_eq!(tag.kind, "i");
    assert_eq!(tag.value, "12");
    let tag = parse_tag("ba:Z:barcode05").unwrap();
    assert_eq!(tag.key, "ba");
    assert_eq!(tag.kind, "Z");
    assert_eq!(tag.value, "barcode05");
    let tag = parse_tag("cs:Z::10*at:5").unwrap();
    assert_eq!(tag.key, "cs");
    assert_eq!(tag.kind, "Z");
    assert_eq!(tag.value, ":10*at:5");
    let tag = parse_tag("tp:A:").unwrap();
    assert_eq!(tag.value, "");
    assert_eq!(parse_tag("ch:12").unwrap_err(), PafError::Tag);
    assert_eq!(parse_tag("c:i:12").unwrap_err(), PafError::Tag);
    assert_eq!(parse_tag("").unwrap_err(), PafError::Tag);
}

#[test]
fn line_with_carriage_return() {
    let parsed = parse_line("r\t1\t2\t3\t+\tc\t4\t5\t6\t7\t8\t9\tch:i:3\r").unwrap();
    assert_eq!(parsed.record.mapq, 9);
    assert_eq!(parsed.tags.len(), 1);
    assert_eq!(parsed.tags[0].value, "3");
}

#[test]
fn end_to_end_scenario() {
    let conf = Conf::build(&vec![condition("A", &["chr1,10,20,+"])], &Vec::new(), vec![(1, 0)])
        .unwrap();
    let mut text = String::new();
    text.push_str(&line("r1", "chr1", "+", 15, 115, "\tch:i:1"));
    text.push_str(&line("r2", "chr1", "+", 25, 125, "\tch:i:1"));
    text.push_str(&line("r3", "chr1", "-", 5, 15, "\tch:i:1"));
    let paf = Paf::new(parse_paf_file(&text).unwrap());
    let mut summary = Summary::new();
    paf.demultiplex(&conf, None, &mut summary).unwrap();
    assert_eq!(summary.conditions.len(), 1);
    let a = &summary.conditions[0];
    assert_eq!(a.name, "A");
    assert_eq!(a.total_reads, 3);
    assert_eq!(a.on_target_read_count, 1);
    assert_eq!(a.off_target_read_count, 2);
    assert_eq!(a.on_target_yield, 100);
    assert_eq!(a.off_target_yield, 200);
    assert_eq!(a.on_target_mean_read_length, 100);
    assert_eq!(a.off_target_mean_read_length, 100);
    assert_eq!(a.contigs.len(), 1);
    assert_eq!(a.contigs[0].name, "chr1");
    assert_eq!(a.contigs[0].length, 1000);
    assert_eq!(a.contigs[0].total_bases, 300);
    assert_eq!(a.contigs[0].on_target_read_count, 1);
    assert_eq!(a.contigs[0].off_target_read_count, 2);
    assert_eq!(a.contigs[0].yield_on_target, 100);
    assert_eq!(a.contigs[0].yield_off_target, 200);
}

#[test]
fn reads_are_addressed_through_the_sequencing_summary() {
    let conf = Conf::build(
        &vec![condition("left", &["chr1"]), condition("right", &[])],
        &Vec::new(),
        vec![(1, 0), (2, 1)],
    )
    .unwrap();
    let mut text = String::new();
    text.push_str(&line("R", "chr1", "+", 15, 115, ""));
    text.push_str(&line("R", "chr2", "+", 15, 115, ""));
    text.push_str(&line("R2", "chr1", "+", 15, 115, ""));
    let paf = Paf::new(parse_paf_file(&text).unwrap());
    let mut aux = SeqSum::new(vec![info("R", 1, None), info("other", 1, None), info("R2", 2, None)]);
    let mut summary = Summary::new();
    paf.demultiplex(&conf, Some(&mut aux), &mut summary).unwrap();
    assert_eq!(summary.conditions.len(), 2);
    assert_eq!(summary.conditions[0].name, "left");
    assert_eq!(summary.conditions[0].total_reads, 2);
    assert_eq!(summary.conditions[0].on_target_read_count, 1);
    assert_eq!(summary.conditions[0].off_target_read_count, 1);
    assert_eq!(summary.conditions[0].contigs.len(), 2);
    assert_eq!(summary.conditions[1].name, "right");
    assert_eq!(summary.conditions[1].total_reads, 1);
    assert_eq!(summary.conditions[1].off_target_read_count, 1);
    assert_eq!(aux.buffered(), 2);
}

#[test]
fn barcodes_come_before_channels() {
    let conf = Conf::build(
        &vec![condition("region", &[])],
        &vec![condition("barcode05", &["chr1,0,50,+"])],
        vec![(1, 0)],
    )
    .unwrap();
    let mut text = String::new();
    text.push_str(&line("r1", "chr1", "+", 15, 115, "\tch:i:1\tba:Z:barcode05"));
    text.push_str(&line("r2", "chr1", "+", 15, 115, "\tch:i:1\tba:Z:barcode99"));
    text.push_str(&line("r3", "chr1", "+", 15, 115, "\tba:Z:barcode05"));
    let paf = Paf::new(parse_paf_file(&text).unwrap());
    let mut summary = Summary::new();
    paf.demultiplex(&conf, None, &mut summary).unwrap();
    assert_eq!(summary.conditions.len(), 2);
    assert_eq!(summary.conditions[0].name, "barcode05");
    assert_eq!(summary.conditions[0].on_target_read_count, 2);
    assert_eq!(summary.conditions[1].name, "region");
    assert_eq!(summary.conditions[1].off_target_read_count, 1);
}

#[test]
fn pass_errors() {
    let conf = Conf::build(&vec![condition("A", &["chr1"])], &Vec::new(), vec![(1, 0)]).unwrap();
    let run = |text: &str, aux: Option<&mut SeqSum>| {
        let paf = Paf::new(parse_paf_file(text).unwrap());
        let mut summary = Summary::new();
        paf.demultiplex(&conf, aux, &mut summary)
    };
    assert_eq!(run(&line("r", "chr1", "+", 1, 2, ""), None), Err(PafError::MissingTags));
    assert_eq!(run(&line("r", "chr1", "+", 1, 2, "\ttp:A:P"), None), Err(PafError::MissingTags));
    let mut aux = SeqSum::new(vec![info("other", 1, None)]);
    assert_eq!(run(&line("r", "chr1", "+", 1, 2, ""), Some(&mut aux)), Err(PafError::UnknownRead));
    assert_eq!(run(&line("r", "chr1", "+", 1, 2, "\tch:i:x"), None), Err(PafError::Channel));
    assert_eq!(run(&line("r", "chr1", "+", 1, 2, "\tch:i:2"), None), Err(PafError::NoCondition));
    assert_eq!(run(&line("r", "chr1", "+", 1, 2, "\tba:Z:none"), None), Err(PafError::NoCondition));
    assert_eq!(run(&line("r", "chr1", "+", 1, 2, "\tch:i:1"), None), Ok(()));
}

#[test]
fn pass_stops_when_a_statistic_would_overflow() {
    let conf = Conf::build(&vec![condition("A", &["chr1"])], &Vec::new(), vec![(1, 0)]).unwrap();
    let paf = Paf::new(parse_paf_file(&line("r", "chr1", "+", 1, 2, "\tch:i:1")).unwrap());
    let mut summary = Summary::new();
    summary.conditions("A").set_on_target_yield(usize::MAX - 99);
    assert_eq!(paf.demultiplex(&conf, None, &mut summary), Err(PafError::Overflow));
    assert_eq!(summary.conditions[0].total_reads, 0);
    assert_eq!(summary.conditions[0].on_target_yield, usize::MAX - 99);
    assert_eq!(summary.conditions[0].contigs.len(), 0);
    summary.conditions("A").set_on_target_yield(usize::MAX - 100);
    assert_eq!(paf.demultiplex(&conf, None, &mut summary), Ok(()));
    assert_eq!(summary.conditions[0].on_target_yield, usize::MAX);
}

#[test]
fn annotation_tokens_by_another_pattern() {
    let tag = parse_tag_with("^([a-z]+)=(.)=(.*)$", "key=x=value").unwrap();
    assert_eq!(tag.key, "key");
    assert_eq!(tag.kind, "x");
    assert_eq!(tag.value, "value");
    assert_eq!(parse_tag_with("(..):(.", "ch:i:1").unwrap_err(), PafError::Pattern);
    assert_eq!(parse_tag_with("(..):(.):(.*)", "chi1").unwrap_err(), PafError::Tag);
    assert_eq!(parse_tag_with("(..):(.)", "ch:i:1").unwrap_err(), PafError::Tag);
    assert_eq!(parse_tag_with("(..):(.):(.*)|(x)", "x").unwrap_err(), PafError::Tag);
    let tag = parse_tag("xxch:i:1").unwrap();
    assert_eq!(tag.key, "ch");
}

#[test]
fn tokens_from_capture_groups() {
    let all = |items: &[Option<&str>]| -> Vec<Option<String>> {
        items.iter().map(|g| g.map(|s| s.to_string())).collect()
    };
    let tag = tag_from_groups(&all(&[Some("ch:i:1"), Some("ch"), Some("i"), Some("1")])).unwrap();
    assert_eq!(tag.key, "ch");
    assert_eq!(tag.kind, "i");
    assert_eq!(tag.value, "1");
    let tag = tag_from_groups(&all(&[None, Some("ch"), Some("i"), Some("1")])).unwrap();
    assert_eq!(tag.key, "ch");
    assert!(tag_from_groups(&all(&[Some("ch:i:1"), Some("ch"), None, Some("1")])).is_none());
    assert!(tag_from_groups(&all(&[Some("ch:i:1"), Some("ch"), Some("i")])).is_none());
    assert!(tag_from_groups(&all(&[])).is_none());
    assert!(tag_from_groups(&all(&[Some("a"), Some("b"), Some("c"), Some("d"), Some("e")]))
        .is_none());
}

#[test]
fn one_line_at_a_time() {
    let conf = Conf::build(
        &vec![condition("A", &["chr1,10,20,+"]), condition("B", &["chr1,10,20,-"])],
        &Vec::new(),
        vec![(1, 0), (2, 1)],
    )
    .unwrap();
    let mut aux = SeqSum::new(vec![info("R", 1, None), info("R2", 2, None)]);
    let mut previous = String::new();
    let mut summary = Summary::new();
    let first = parse_line(&line("R", "chr1", "+", 15, 115, "")).unwrap();
    classify(&conf, &first, Some(&mut aux), &mut previous, &mut summary).unwrap();
    assert_eq!(previous, "R");
    assert_eq!(aux.buffered(), 1);
    classify(&conf, &first, Some(&mut aux), &mut previous, &mut summary).unwrap();
    assert_eq!(aux.buffered(), 1);
    let tagged = parse_line(&line("R9", "chr1", "-", 5, 15, "\tch:i:2")).unwrap();
    classify(&conf, &tagged, Some(&mut aux), &mut previous, &mut summary).unwrap();
    assert_eq!(previous, "R");
    assert_eq!(aux.buffered(), 1);
    let second = parse_line(&line("R2", "chr1", "-", 5, 15, "")).unwrap();
    classify(&conf, &second, Some(&mut aux), &mut previous, &mut summary).unwrap();
    assert_eq!(previous, "R2");
    assert_eq!(aux.buffered(), 1);
    assert_eq!(summary.conditions.len(), 2);
    assert_eq!(summary.conditions[0].name, "A");
    assert_eq!(summary.conditions[0].on_target_read_count, 2);
    assert_eq!(summary.conditions[1].name, "B");
    assert_eq!(summary.conditions[1].on_target_read_count, 2);
    assert_eq!(summary.conditions[1].off_target_read_count, 0);
    let unknown = parse_line(&line("R3", "chr1", "-", 5, 15, "")).unwrap();
    assert_eq!(
        classify(&conf, &unknown, Some(&mut aux), &mut previous, &mut summary),
        Err(PafError::UnknownRead)
    );
    assert_eq!(summary.conditions[1].on_target_read_count, 2);
}
