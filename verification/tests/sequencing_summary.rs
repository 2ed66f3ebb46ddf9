use readfish_tools::sequencing_summary::{SeqSum, SeqSumError, SeqSumInfo};

fn record(read: &str, channel: usize) -> SeqSumInfo {
    SeqSumInfo {
        read_id: read.to_string(),
        channel,
        barcode_arrangement: None,
        sequence_length: 10,
    }
}

#[test]
fn eviction_ordering() {
    let mut aux = SeqSum::new(vec![record("R", 1), record("R2", 2)]);
    let mut previous = String::new();
    let first = aux.get_record("R", Some(&mut previous)).unwrap();
    assert_eq!(first.read_id, "R");
    assert_eq!(first.channel, 1);
    assert_eq!(previous, "R");
    assert_eq!(aux.buffered(), 1);
    let second = aux.get_record("R", Some(&mut previous)).unwrap();
    assert_eq!(second.read_id, "R");
    assert_eq!(previous, "R");
    assert_eq!(aux.buffered(), 1);
    let third = aux.get_record("R2", Some(&mut previous)).unwrap();
    assert_eq!(third.read_id, "R2");
    assert_eq!(third.channel, 2);
    assert_eq!(previous, "R2");
    assert_eq!(aux.buffered(), 1);
    assert!(aux.get_record("R", Some(&mut previous)).is_none());
    assert_eq!(previous, "R");
    assert_eq!(aux.buffered(), 0);
}

#[test]
fn records_read_on_the_way_are_kept() {
    let mut aux = SeqSum::new(vec![record("a", 1), record("b", 2), record("c", 3), record("d", 4)]);
    let mut previous = String::new();
    assert_eq!(aux.buffered(), 0);
    assert_eq!(aux.get_record("c", Some(&mut previous)).unwrap().channel, 3);
    assert_eq!(aux.buffered(), 3);
    assert_eq!(aux.get_record("a", Some(&mut previous)).unwrap().channel, 1);
    assert_eq!(aux.buffered(), 2);
    assert_eq!(aux.get_record("d", Some(&mut previous)).unwrap().channel, 4);
    assert_eq!(aux.buffered(), 2);
    assert!(aux.get_record("c", Some(&mut previous)).is_none());
    assert!(aux.get_record("zzz", Some(&mut previous)).is_none());
}

#[test]
fn without_a_previous_read_nothing_is_let_go() {
    let mut aux = SeqSum::new(vec![record("a", 1), record("b", 2)]);
    assert_eq!(aux.get_record("a", None).unwrap().channel, 1);
    assert_eq!(aux.get_record("b", None).unwrap().channel, 2);
    assert_eq!(aux.get_record("a", None).unwrap().channel, 1);
    assert_eq!(aux.buffered(), 2);
    assert!(aux.get_record("c", None).is_none());
}

#[test]
fn record_copies() {
    let mut first = record("a", 1);
    first.barcode_arrangement = Some("barcode01".to_string());
    let copy = first.duplicate();
    assert_eq!(copy.read_id, "a");
    assert_eq!(copy.channel, 1);
    assert_eq!(copy.barcode_arrangement, Some("barcode01".to_string()));
    assert_eq!(copy.sequence_length, 10);
}

fn lines(items: &[&str]) -> Vec<String> {
    items.iter().map(|s| s.to_string()).collect()
}

#[test]
fn summary_lines_are_read() {
    let mut aux = SeqSum::from_lines(&lines(&[
        "filename\tread_id\tchannel\tsequence_length_template\tbarcode_arrangement",
        "a.fq\tR\t12\t4000\tbarcode05",
        "a.fq\tR2\t512\t17\tunclassified",
    ]))
    .unwrap();
    assert_eq!(aux.buffered(), 0);
    let r2 = aux.get_record("R2", None).unwrap();
    assert_eq!(r2.read_id, "R2");
    assert_eq!(r2.channel, 512);
    assert_eq!(r2.sequence_length, 17);
    assert_eq!(r2.barcode_arrangement, Some("unclassified".to_string()));
    let r = aux.get_record("R", None).unwrap();
    assert_eq!(r.channel, 12);
    assert_eq!(r.sequence_length, 4000);
    assert_eq!(r.barcode_arrangement, Some("barcode05".to_string()));
    let mut plain = SeqSum::from_lines(&lines(&["channel\tread_id", "3\tR"])).unwrap();
    let r = plain.get_record("R", None).unwrap();
    assert_eq!(r.channel, 3);
    assert_eq!(r.sequence_length, 0);
    assert_eq!(r.barcode_arrangement, None);
    let mut twice =
        SeqSum::from_lines(&lines(&["read_id\tchannel\tread_id", "R\t3\tS"])).unwrap();
    assert!(twice.get_record("S", None).is_none());
    assert!(twice.get_record("R", None).is_some());
    let mut none = SeqSum::from_lines(&lines(&["read_id\tchannel"])).unwrap();
    assert!(none.get_record("R", None).is_none());
}

#[test]
fn summary_errors() {
    assert_eq!(SeqSum::from_lines(&Vec::new()).unwrap_err(), SeqSumError::Empty);
    assert_eq!(
        SeqSum::from_lines(&lines(&["read_id\tmux", "R\t1"])).unwrap_err(),
        SeqSumError::MissingColumn
    );
    assert_eq!(
        SeqSum::from_lines(&lines(&["channel", "1"])).unwrap_err(),
        SeqSumError::MissingColumn
    );
    assert_eq!(
        SeqSum::from_lines(&lines(&["read_id\tchannel", "R"])).unwrap_err(),
        SeqSumError::ShortRow
    );
    assert_eq!(
        SeqSum::from_lines(&lines(&["read_id\tchannel\tbarcode_arrangement", "R\t1"]))
            .unwrap_err(),
        SeqSumError::ShortRow
    );
    assert_eq!(
        SeqSum::from_lines(&lines(&["read_id\tchannel", "R\tone"])).unwrap_err(),
        SeqSumError::Number
    );
    assert_eq!(
        SeqSum::from_lines(&lines(&["read_id\tchannel\tsequence_length_template", "R\t1\t"]))
            .unwrap_err(),
        SeqSumError::Number
    );
    assert_eq!(
        SeqSum::from_lines(&lines(&["read_id\tchannel", "R\t1", "", "S\tx"])).unwrap_err(),
        SeqSumError::ShortRow
    );
}
