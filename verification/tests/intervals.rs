use readfish_tools::intervals::{contains_point, merge_intervals};
use readfish_tools::readfish::{
    parse_descriptor, Delimiter, Strand, TargetError, TargetRow, Targets,
};
use readfish_tools::text::{parse_decimal, split_fields, split_tokens, text_ends_with, text_eq};

fn rows(items: &[&str]) -> Vec<String> {
    items.iter().map(|s| s.to_string()).collect()
}

#[test]
fn merge_collapses_overlapping_ranges() {
    let mut given = vec![(11, 15), (1, 3), (14, 17), (2, 4), (15, 100), (169, 173), (10, 29)];
    let merged = merge_intervals(&mut given);
    assert_eq!(merged, vec![(1, 4), (10, 100), (169, 173)]);
    assert_eq!(
        given,
        vec![(1, 3), (2, 4), (10, 29), (11, 15), (14, 17), (15, 100), (169, 173)]
    );
}

#[test]
fn merge_is_idempotent() {
    let mut given = vec![(11, 15), (1, 3), (14, 17), (2, 4), (15, 100), (169, 173), (10, 29)];
    let mut once = merge_intervals(&mut given);
    let twice = merge_intervals(&mut once);
    assert_eq!(twice, vec![(1, 4), (10, 100), (169, 173)]);
    assert_eq!(once, twice);
}

#[test]
fn merge_joins_ranges_that_touch_and_keeps_neighbours_apart() {
    let mut touching = vec![(1, 5), (5, 8)];
    assert_eq!(merge_intervals(&mut touching), vec![(1, 8)]);
    let mut neighbours = vec![(1, 5), (6, 8)];
    assert_eq!(merge_intervals(&mut neighbours), vec![(1, 5), (6, 8)]);
}

#[test]
fn merge_of_nothing_and_of_one() {
    let mut none: Vec<(usize, usize)> = Vec::new();
    assert_eq!(merge_intervals(&mut none), Vec::<(usize, usize)>::new());
    let mut one = vec![(7, 9)];
    assert_eq!(merge_intervals(&mut one), vec![(7, 9)]);
}

#[test]
fn merge_keeps_a_range_inside_another() {
    let mut given = vec![(1, 100), (5, 10), (200, 300), (250, 260)];
    assert_eq!(merge_intervals(&mut given), vec![(1, 100), (200, 300)]);
}

#[test]
fn contains_point_is_inclusive() {
    let list = vec![(10, 30), (50, 60)];
    assert!(contains_point(&list, 10));
    assert!(contains_point(&list, 30));
    assert!(contains_point(&list, 55));
    assert!(!contains_point(&list, 9));
    assert!(!contains_point(&list, 31));
    assert!(!contains_point(&list, 61));
    assert!(!contains_point(&Vec::new(), 0));
}

#[test]
fn containment_boundary() {
    let targets = Targets::from_descriptors(&rows(&["chr1,10,20,+", "chr1,15,30,+"])).unwrap();
    assert!(targets.contains("chr1", "+", 15));
    assert!(!targets.contains("chr1", "+", 40));
    assert!(targets.contains("chr1", "+", 10));
    assert!(targets.contains("chr1", "+", 30));
    assert!(!targets.contains("chr1", "+", 9));
    assert!(!targets.contains("chr1", "+", 31));
}

#[test]
fn whole_contig_target_covers_both_strands() {
    let targets = Targets::from_descriptors(&rows(&["chr2"])).unwrap();
    for coordinate in [0usize, 1, 12345, usize::MAX] {
        assert!(targets.contains("chr2", "+", coordinate));
        assert!(targets.contains("chr2", "-", coordinate));
        assert!(targets.contains_on("chr2", Strand::Forward, coordinate));
        assert!(targets.contains_on("chr2", Strand::Reverse, coordinate));
    }
    assert!(!targets.contains("chr3", "+", 5));
}

#[test]
fn strand_isolation() {
    let targets = Targets::from_descriptors(&rows(&["chr1,10,20,+"])).unwrap();
    assert!(targets.contains("chr1", "+", 15));
    assert!(!targets.contains("chr1", "-", 15));
    assert!(targets.contains_on("chr1", Strand::Forward, 15));
    assert!(!targets.contains_on("chr1", Strand::Reverse, 15));
}

#[test]
fn strand_encodings() {
    assert_eq!(Strand::parse("+"), Some(Strand::Forward));
    assert_eq!(Strand::parse("1"), Some(Strand::Forward));
    assert_eq!(Strand::parse("-"), Some(Strand::Reverse));
    assert_eq!(Strand::parse("-1"), Some(Strand::Reverse));
    assert_eq!(Strand::parse("x"), None);
    assert_eq!(Strand::parse(""), None);
    assert_eq!(Strand::from_text("-1"), Strand::Reverse);
    assert_eq!(Strand::from_text("1"), Strand::Forward);
    assert_eq!(Strand::from_text("banana"), Strand::Forward);
    let targets = Targets::from_descriptors(&rows(&["chr1,10,20,+", "chr1,100,200,-"])).unwrap();
    assert!(targets.contains("chr1", "1", 15));
    assert!(targets.contains("chr1", "banana", 15));
    assert!(targets.contains("chr1", "-1", 150));
    assert!(!targets.contains("chr1", "banana", 150));
}

#[test]
fn empty_target_list_is_always_false() {
    let targets = Targets::from_descriptors(&Vec::new()).unwrap();
    assert!(!targets.contains("chr1", "+", 0));
    assert!(!targets.contains("chr1", "-", 10));
    assert!(!targets.contains("", "+", 0));
}

#[test]
fn malformed_rows_fail_the_build() {
    assert_eq!(
        Targets::from_descriptors(&rows(&["chr1,10,20"])).unwrap_err(),
        TargetError::ColumnCount
    );
    assert_eq!(
        Targets::from_descriptors(&rows(&["chr1,10"])).unwrap_err(),
        TargetError::ColumnCount
    );
    assert_eq!(
        Targets::from_descriptors(&rows(&["chr1,ten,20,+"])).unwrap_err(),
        TargetError::Coordinate
    );
    assert_eq!(
        Targets::from_descriptors(&rows(&["chr1,10,,+"])).unwrap_err(),
        TargetError::Coordinate
    );
    assert_eq!(
        Targets::from_descriptors(&rows(&["chr1,10,20,?"])).unwrap_err(),
        TargetError::Strand
    );
    assert_eq!(
        Targets::from_descriptors(&rows(&["chr1", "chr2,10,20,?", "chr3,1"])).unwrap_err(),
        TargetError::Strand
    );
    assert_eq!(
        Targets::from_descriptors(&rows(&["chr1,99999999999999999999999,20,+"])).unwrap_err(),
        TargetError::Coordinate
    );
}

#[test]
fn descriptor_rows_read() {
    let bare = parse_descriptor("chr1", Delimiter::Comma).unwrap();
    assert_eq!(bare.contig, "chr1");
    assert_eq!(bare.span, None);
    let full = parse_descriptor("chrX,5,9,-", Delimiter::Comma).unwrap();
    assert_eq!(full.contig, "chrX");
    assert_eq!(full.span, Some((5, 9, Strand::Reverse)));
    let bed = parse_descriptor("chr7\t100\t200\tgene\t0\t+", Delimiter::Tab).unwrap();
    assert_eq!(bed.contig, "chr7");
    assert_eq!(bed.span, Some((100, 200, Strand::Forward)));
    let four = parse_descriptor("chr7\t100\t200\t-1", Delimiter::Tab).unwrap();
    assert_eq!(four.span, Some((100, 200, Strand::Reverse)));
    assert_eq!(
        parse_descriptor("chr7,100,200,gene,0,+", Delimiter::Comma).unwrap_err(),
        TargetError::ColumnCount
    );
}

#[test]
fn targets_from_tab_rows() {
    let targets = Targets::build(
        &rows(&["chr7\t100\t200\tgene\t0\t+", "chr7\t150\t250\tother\t3\t+", "chr8"]),
        Delimiter::Tab,
    )
    .unwrap();
    assert!(targets.contains("chr7", "+", 250));
    assert!(!targets.contains("chr7", "+", 251));
    assert!(!targets.contains("chr7", "-", 150));
    assert!(targets.contains("chr8", "-", 150));
}

#[test]
fn targets_from_rows_merge_per_strand_and_contig() {
    let given = vec![
        TargetRow { contig: "a".to_string(), span: Some((10, 20, Strand::Forward)) },
        TargetRow { contig: "b".to_string(), span: Some((15, 30, Strand::Forward)) },
        TargetRow { contig: "a".to_string(), span: Some((21, 30, Strand::Reverse)) },
        TargetRow { contig: "a".to_string(), span: Some((20, 25, Strand::Forward)) },
    ];
    let targets = Targets::from_rows(&given);
    assert!(targets.contains_on("a", Strand::Forward, 25));
    assert!(!targets.contains_on("a", Strand::Forward, 26));
    assert!(targets.contains_on("a", Strand::Reverse, 26));
    assert!(!targets.contains_on("a", Strand::Reverse, 20));
    assert!(targets.contains_on("b", Strand::Forward, 30));
    assert!(!targets.contains_on("b", Strand::Forward, 10));
}

#[test]
fn decimal_numbers() {
    assert_eq!(parse_decimal("0"), Some(0));
    assert_eq!(parse_decimal("007"), Some(7));
    assert_eq!(parse_decimal("1234567890"), Some(1234567890));
    assert_eq!(parse_decimal(&usize::MAX.to_string()), Some(usize::MAX));
    assert_eq!(parse_decimal("18446744073709551616"), None);
    assert_eq!(parse_decimal("99999999999999999999999999"), None);
    assert_eq!(parse_decimal(""), None);
    assert_eq!(parse_decimal("12a"), None);
    assert_eq!(parse_decimal("+5"), None);
    assert_eq!(parse_decimal("-5"), None);
    assert_eq!(parse_decimal(" 5"), None);
}

#[test]
fn fields_and_tokens() {
    assert_eq!(split_fields("a,b,,c", ','), vec!["a", "b", "", "c"]);
    assert_eq!(split_fields("", ','), vec![""]);
    assert_eq!(split_fields(",", ','), vec!["", ""]);
    assert_eq!(split_fields("chr1", ','), vec!["chr1"]);
    assert_eq!(split_tokens("  a\tbc  d \r\n"), vec!["a", "bc", "d"]);
    assert_eq!(split_tokens(""), Vec::<String>::new());
    assert_eq!(split_tokens(" \t "), Vec::<String>::new());
    assert_eq!(split_tokens("x"), vec!["x"]);
    assert_eq!(split_tokens("é ü"), vec!["é", "ü"]);
    assert!(text_eq("abc", "abc"));
    assert!(!text_eq("abc", "abd"));
    assert!(!text_eq("abc", "ab"));
    assert!(text_eq("", ""));
}

#[test]
fn delimiter_by_file_name() {
    assert_eq!(Delimiter::for_file("targets.bed"), Delimiter::Tab);
    assert_eq!(Delimiter::for_file("/data/run/targets.csv"), Delimiter::Comma);
    assert_eq!(Delimiter::for_file("targets.bed.gz"), Delimiter::Comma);
    assert_eq!(Delimiter::for_file(".bed"), Delimiter::Tab);
    assert_eq!(Delimiter::for_file("bed"), Delimiter::Comma);
    assert_eq!(Delimiter::for_file(""), Delimiter::Comma);
    assert!(text_ends_with("abc", ""));
    assert!(text_ends_with("abc", "bc"));
    assert!(text_ends_with("abc", "abc"));
    assert!(!text_ends_with("abc", "xabc"));
    assert!(!text_ends_with("abc", "ab"));
}
