//! The experiment's configuration: strands, the targets of a condition, and
//! the conditions themselves with their decision tables.
use crate::intervals::{
    contains_point, covers, is_merged, lemma_covers_concat, lemma_merged_normal, merge_intervals,
    merged, within,
};
use crate::nanopore::rows_view;
use crate::text::{
    ends_with, fields, parse_decimal, parsed_decimal, split_fields, text_ends_with, text_eq, texts,
};
use vstd::prelude::*;

verus! {

/// The strand of a contig that a target or an alignment lies on.
#[derive(Clone, Copy, Debug, PartialEq, Eq, Structural)]
pub enum Strand {
    /// Written `+` or `1`.
    Forward,
    /// Written `-` or `-1`.
    Reverse,
}

impl Strand {
    /// The strand that a text names, if it names one.
    pub open spec fn read(s: Seq<char>) -> Option<Strand> {
        if s == "+"@ || s == "1"@ {
            Some(Strand::Forward)
        } else if s == "-"@ || s == "-1"@ {
            Some(Strand::Reverse)
        } else {
            None
        }
    }

    /// The strand that a text names; a text that names none counts as
    /// forward.
    pub open spec fn read_or_forward(s: Seq<char>) -> Strand {
        match Strand::read(s) {
            Some(strand) => strand,
            None => Strand::Forward,
        }
    }

    /// Reads a strand, refusing a text that names none.
    pub fn parse(text: &str) -> (r: Option<Strand>)
        ensures
            r == Strand::read(text@),
    {
        if text_eq(text, "+") || text_eq(text, "1") {
            Some(Strand::Forward)
        } else if text_eq(text, "-") || text_eq(text, "-1") {
            Some(Strand::Reverse)
        } else {
            None
        }
    }

    /// Reads a strand, taking a text that names none as forward.
    pub fn from_text(text: &str) -> (r: Strand)
        ensures
            r == Strand::read_or_forward(text@),
    {
        match Strand::parse(text) {
            Some(strand) => strand,
            None => Strand::Forward,
        }
    }
}

/// What parts the columns of a target row.
#[derive(Clone, Copy, Debug, PartialEq, Eq, Structural)]
pub enum Delimiter {
    /// Literal descriptors and generic coordinate files.
    Comma,
    /// Coordinate files of six columns: contig, start, stop, name, score,
    /// strand.
    Tab,
}

impl Delimiter {
    /// The character that stands between two columns.
    pub open spec fn mark(self) -> char {
        match self {
            Delimiter::Comma => ',',
            Delimiter::Tab => '\t',
        }
    }

    /// What parts the columns of a target file: tabs where its name ends
    /// in `.bed`, commas in any other.
    pub fn for_file(name: &str) -> (d: Delimiter)
        ensures
            d == (if ends_with(name@, ".bed"@) {
                Delimiter::Tab
            } else {
                Delimiter::Comma
            }),
    {
        if text_ends_with(name, ".bed") {
            Delimiter::Tab
        } else {
            Delimiter::Comma
        }
    }
}

/// Why a target row was refused.
#[derive(Clone, Copy, Debug, PartialEq, Eq, Structural)]
pub enum TargetError {
    /// The row has neither one column nor four.
    ColumnCount,
    /// Start or stop is not a decimal number that a machine word holds.
    Coordinate,
    /// Coordinates are given and the strand is none of `+`, `-`, `1`, `-1`.
    Strand,
}

/// One target row, read: a contig, and the range and strand where they are
/// given. A row without them stands for the whole contig on both strands.
#[derive(Debug)]
pub struct TargetRow {
    /// The contig's name.
    pub contig: String,
    /// Start, stop and strand.
    pub span: Option<(usize, usize, Strand)>,
}

/// A target row as a value of the model.
pub struct TargetRowView {
    pub contig: Seq<char>,
    pub span: Option<(usize, usize, Strand)>,
}

impl View for TargetRow {
    type V = TargetRowView;

    open spec fn view(&self) -> TargetRowView {
        TargetRowView { contig: self.contig@, span: self.span }
    }
}

/// The columns that count: a tab-parted row of six loses name and score.
pub open spec fn descriptor_columns(row: Seq<char>, delimiter: Delimiter) -> Seq<Seq<char>> {
    let f = fields(row, delimiter.mark());
    if delimiter == Delimiter::Tab && f.len() == 6 {
        seq![f[0], f[1], f[2], f[5]]
    } else {
        f
    }
}

/// What a row's columns say.
pub open spec fn row_of_columns(cols: Seq<Seq<char>>) -> Result<TargetRowView, TargetError> {
    if cols.len() == 1 {
        Ok(TargetRowView { contig: cols[0], span: None })
    } else if cols.len() == 4 {
        match (parsed_decimal(cols[1]), parsed_decimal(cols[2])) {
            (Some(start), Some(stop)) => match Strand::read(cols[3]) {
                Some(strand) => Ok(
                    TargetRowView { contig: cols[0], span: Some((start, stop, strand)) },
                ),
                None => Err(TargetError::Strand),
            },
            _ => Err(TargetError::Coordinate),
        }
    } else {
        Err(TargetError::ColumnCount)
    }
}

/// What a target row says: `contig`, or `contig,start,stop,strand`.
pub open spec fn read_descriptor(row: Seq<char>, delimiter: Delimiter) -> Result<
    TargetRowView,
    TargetError,
> {
    row_of_columns(descriptor_columns(row, delimiter))
}

/// A reading of a row, as a value of the model.
pub open spec fn row_result_view(r: Result<TargetRow, TargetError>) -> Result<
    TargetRowView,
    TargetError,
> {
    match r {
        Ok(row) => Ok(row@),
        Err(e) => Err(e),
    }
}

/// Reads one target row.
pub fn parse_descriptor(row: &str, delimiter: Delimiter) -> (r: Result<TargetRow, TargetError>)
    ensures
        row_result_view(r) == read_descriptor(row@, delimiter),
{
    let mark: char = match delimiter {
        Delimiter::Comma => ',',
        Delimiter::Tab => '\t',
    };
    let f = split_fields(row, mark);
    let six: bool = match delimiter {
        Delimiter::Comma => false,
        Delimiter::Tab => f.len() == 6,
    };
    let ghost cols = descriptor_columns(row@, delimiter);
    proof {
        assert(forall|i: int| 0 <= i < f@.len() ==> f@[i]@ == #[trigger] texts(f@)[i]);
    }
    if six {
        assert(cols.len() == 4);
        let start = parse_decimal(f[1].as_str());
        let stop = parse_decimal(f[2].as_str());
        let strand = Strand::parse(f[5].as_str());
        finish_row(f[0].clone(), start, stop, strand)
    } else if f.len() == 1 {
        Ok(TargetRow { contig: f[0].clone(), span: None })
    } else if f.len() == 4 {
        let start = parse_decimal(f[1].as_str());
        let stop = parse_decimal(f[2].as_str());
        let strand = Strand::parse(f[3].as_str());
        finish_row(f[0].clone(), start, stop, strand)
    } else {
        Err(TargetError::ColumnCount)
    }
}

/// A row of four columns, from what its columns read as.
fn finish_row(
    contig: String,
    start: Option<usize>,
    stop: Option<usize>,
    strand: Option<Strand>,
) -> (r: Result<TargetRow, TargetError>)
    ensures
        row_result_view(r) == (match (start, stop) {
            (Some(a), Some(b)) => match strand {
                Some(s) => Ok(TargetRowView { contig: contig@, span: Some((a, b, s)) }),
                None => Err(TargetError::Strand),
            },
            _ => Err(TargetError::Coordinate),
        }),
{
    match (start, stop) {
        (Some(a), Some(b)) => match strand {
            Some(s) => Ok(TargetRow { contig, span: Some((a, b, s)) }),
            None => Err(TargetError::Strand),
        },
        _ => Err(TargetError::Coordinate),
    }
}

/// The ranges that one row declares for a strand of a contig.
pub open spec fn row_intervals(row: TargetRowView, strand: Strand, contig: Seq<char>) -> Seq<
    (usize, usize),
> {
    if row.contig != contig {
        Seq::empty()
    } else {
        match row.span {
            None => seq![(0usize, usize::MAX)],
            Some((start, stop, on)) => if on == strand {
                seq![(start, stop)]
            } else {
                Seq::empty()
            },
        }
    }
}

/// The ranges that a list of rows declares for a strand of a contig, in the
/// order of the rows.
pub open spec fn declared(rows: Seq<TargetRowView>, strand: Strand, contig: Seq<char>) -> Seq<
    (usize, usize),
>
    decreases rows.len(),
{
    if rows.len() == 0 {
        Seq::empty()
    } else {
        declared(rows.drop_last(), strand, contig) + row_intervals(rows.last(), strand, contig)
    }
}

/// The ranges that a store built from `rows` holds for a strand of a contig.
pub open spec fn target_intervals(rows: Seq<TargetRowView>, strand: Strand, contig: Seq<char>) -> Seq<
    (usize, usize),
> {
    merged(declared(rows, strand, contig))
}

/// The table of a store built from `rows`.
pub open spec fn targets_of_rows(rows: Seq<TargetRowView>) -> Map<
    (Strand, Seq<char>),
    Seq<(usize, usize)>,
> {
    Map::total(|k: (Strand, Seq<char>)| target_intervals(rows, k.0, k.1))
}

/// What building a store from rows as written gives: the table, or why the
/// first row that is refused is refused.
pub open spec fn read_targets(rows: Seq<Seq<char>>, delimiter: Delimiter) -> Result<
    Map<(Strand, Seq<char>), Seq<(usize, usize)>>,
    TargetError,
> {
    match first_refused(rows, delimiter) {
        Some(e) => Err(e),
        None => Ok(targets_of_rows(read_rows(rows, delimiter))),
    }
}

/// The rows of a list, as values of the model.
pub open spec fn row_views(rows: Seq<TargetRow>) -> Seq<TargetRowView> {
    Seq::new(rows.len(), |i: int| rows[i]@)
}

/// Why the first row that is refused is refused; `None` where every row
/// reads.
pub open spec fn first_refused(rows: Seq<Seq<char>>, delimiter: Delimiter) -> Option<TargetError>
    decreases rows.len(),
{
    if rows.len() == 0 {
        None
    } else {
        match first_refused(rows.drop_last(), delimiter) {
            Some(e) => Some(e),
            None => match read_descriptor(rows.last(), delimiter) {
                Ok(_) => None,
                Err(e) => Some(e),
            },
        }
    }
}

/// What the rows say, where every row reads.
pub open spec fn read_rows(rows: Seq<Seq<char>>, delimiter: Delimiter) -> Seq<TargetRowView> {
    Seq::new(
        rows.len(),
        |i: int|
            match read_descriptor(rows[i], delimiter) {
                Ok(row) => row,
                Err(_) => TargetRowView { contig: rows[i], span: None },
            },
    )
}

proof fn lemma_first_refused_stays(rows: Seq<Seq<char>>, i: int, delimiter: Delimiter)
    requires
        0 <= i <= rows.len(),
        first_refused(rows.take(i), delimiter) is Some,
    ensures
        first_refused(rows, delimiter) == first_refused(rows.take(i), delimiter),
    decreases rows.len() - i,
{
    if i < rows.len() {
        assert(rows.take(i + 1).drop_last() =~= rows.take(i));
        lemma_first_refused_stays(rows, i + 1, delimiter);
    } else {
        assert(rows.take(i) =~= rows);
    }
}

/// The declared ranges hold a point exactly where the ranges of one row do.
pub proof fn lemma_declared_covers(
    rows: Seq<TargetRowView>,
    strand: Strand,
    contig: Seq<char>,
    x: usize,
)
    ensures
        covers(declared(rows, strand, contig), x) <==> exists|k: int|
            0 <= k < rows.len() && covers(row_intervals(#[trigger] rows[k], strand, contig), x),
    decreases rows.len(),
{
    if rows.len() > 0 {
        let p = rows.drop_last();
        lemma_declared_covers(p, strand, contig, x);
        lemma_covers_concat(
            declared(p, strand, contig),
            row_intervals(rows.last(), strand, contig),
            x,
        );
        if covers(declared(p, strand, contig), x) {
            let k = choose|k: int|
                0 <= k < p.len() && covers(row_intervals(#[trigger] p[k], strand, contig), x);
            assert(covers(row_intervals(rows[k], strand, contig), x));
        }
        if covers(row_intervals(rows.last(), strand, contig), x) {
            assert(covers(row_intervals(rows[rows.len() - 1], strand, contig), x));
        }
        if exists|k: int|
            0 <= k < rows.len() && covers(row_intervals(#[trigger] rows[k], strand, contig), x) {
            let k = choose|k: int|
                0 <= k < rows.len() && covers(row_intervals(#[trigger] rows[k], strand, contig), x);
            if k < p.len() {
                assert(covers(row_intervals(p[k], strand, contig), x));
            }
        }
    }
}

/// A point is on target exactly where some row declares a range that holds
/// it, for that strand of that contig: merging loses and adds no point.
pub proof fn lemma_on_target(rows: Seq<TargetRowView>, strand: Strand, contig: Seq<char>, x: usize)
    ensures
        covers(target_intervals(rows, strand, contig), x) <==> exists|k: int|
            0 <= k < rows.len() && covers(row_intervals(#[trigger] rows[k], strand, contig), x),
{
    lemma_merged_normal(declared(rows, strand, contig));
    lemma_declared_covers(rows, strand, contig, x);
}

/// A row that names a contig without coordinates puts every coordinate of
/// that contig on target, on both strands.
pub proof fn lemma_whole_contig(rows: Seq<TargetRowView>, k: int, strand: Strand, x: usize)
    requires
        0 <= k < rows.len(),
        rows[k].span is None,
    ensures
        row_intervals(rows[k], strand, rows[k].contig) == seq![(0usize, usize::MAX)],
        covers(target_intervals(rows, strand, rows[k].contig), x),
{
    let r = row_intervals(rows[k], strand, rows[k].contig);
    assert(within(r[0], x));
    lemma_on_target(rows, strand, rows[k].contig, x);
}

/// A contig whose rows all carry coordinates on the forward strand has no
/// coordinate on target on the reverse strand.
pub proof fn lemma_strand_isolation(rows: Seq<TargetRowView>, contig: Seq<char>, x: usize)
    requires
        forall|k: int|
            0 <= k < rows.len() && (#[trigger] rows[k]).contig == contig ==> (match rows[k].span {
                Some((_, _, on)) => on == Strand::Forward,
                None => false,
            }),
    ensures
        !covers(target_intervals(rows, Strand::Reverse, contig), x),
{
    lemma_on_target(rows, Strand::Reverse, contig, x);
    assert forall|k: int| 0 <= k < rows.len() implies !covers(
        row_intervals(#[trigger] rows[k], Strand::Reverse, contig),
        x,
    ) by {
        let r = row_intervals(rows[k], Strand::Reverse, contig);
        assert(r.len() == 0);
    }
}

/// Where no row names a contig, none of its coordinates is on target; so a
/// store built from no rows holds nothing.
pub proof fn lemma_undeclared_contig(
    rows: Seq<TargetRowView>,
    strand: Strand,
    contig: Seq<char>,
    x: usize,
)
    requires
        forall|k: int| 0 <= k < rows.len() ==> (#[trigger] rows[k]).contig != contig,
    ensures
        !covers(target_intervals(rows, strand, contig), x),
{
    lemma_on_target(rows, strand, contig, x);
    assert forall|k: int| 0 <= k < rows.len() implies !covers(
        row_intervals(#[trigger] rows[k], strand, contig),
        x,
    ) by {
        let r = row_intervals(rows[k], strand, contig);
        assert(r.len() == 0);
    }
}

/// The ranges of one contig on one strand.
#[derive(Debug)]
pub struct ContigTargets {
    /// The contig's name.
    pub contig: String,
    /// Its ranges.
    pub intervals: Vec<(usize, usize)>,
}

/// No contig has two entries.
pub open spec fn distinct_contigs(list: Seq<ContigTargets>) -> bool {
    forall|i: int, j: int|
        0 <= i < list.len() && 0 <= j < list.len() && i != j ==> (#[trigger] list[i]).contig@ != (
        #[trigger] list[j]).contig@
}

/// Whether the list has an entry for the contig.
pub open spec fn has_contig(list: Seq<ContigTargets>, contig: Seq<char>) -> bool {
    exists|i: int| 0 <= i < list.len() && (#[trigger] list[i]).contig@ == contig
}

/// The ranges that the list holds for a contig: none where it has no entry.
pub open spec fn group_of(list: Seq<ContigTargets>, contig: Seq<char>) -> Seq<(usize, usize)> {
    if has_contig(list, contig) {
        let i = choose|i: int| 0 <= i < list.len() && (#[trigger] list[i]).contig@ == contig;
        list[i].intervals@
    } else {
        Seq::empty()
    }
}

proof fn lemma_group_at(list: Seq<ContigTargets>, i: int)
    requires
        distinct_contigs(list),
        0 <= i < list.len(),
    ensures
        has_contig(list, list[i].contig@),
        group_of(list, list[i].contig@) == list[i].intervals@,
{
    let c = list[i].contig@;
    assert(list[i].contig@ == c);
    let k = choose|k: int| 0 <= k < list.len() && (#[trigger] list[k]).contig@ == c;
    assert(k == i);
}

/// The place of a contig's entry in the list.
fn find_contig(list: &Vec<ContigTargets>, contig: &str) -> (r: Option<usize>)
    ensures
        match r {
            Some(i) => i < list@.len() && list@[i as int].contig@ == contig@,
            None => !has_contig(list@, contig@),
        },
{
    let mut i: usize = 0;
    while i < list.len()
        invariant
            i <= list.len(),
            forall|k: int| 0 <= k < i ==> (#[trigger] list@[k]).contig@ != contig@,
        decreases list.len() - i,
    {
        if text_eq(list[i].contig.as_str(), contig) {
            return Some(i);
        }
        i = i + 1;
    }
    None
}

/// Adds one range to a contig's entry, making the entry where there is none.
fn add_interval(list: &mut Vec<ContigTargets>, contig: &String, range: (usize, usize))
    requires
        distinct_contigs(old(list)@),
    ensures
        distinct_contigs(final(list)@),
        group_of(final(list)@, contig@) == group_of(old(list)@, contig@).push(range),
        forall|c: Seq<char>|
            c != contig@ ==> #[trigger] group_of(final(list)@, c) == group_of(old(list)@, c),
{
    let ghost before = list@;
    match find_contig(list, contig.as_str()) {
        Some(i) => {
            list[i].intervals.push(range);
            proof {
                let after = list@;
                assert(after.len() == before.len());
                assert(forall|k: int|
                    0 <= k < before.len() ==> (#[trigger] after[k]).contig@ == before[k].contig@);
                assert(distinct_contigs(after)) by {
                    assert forall|a: int, b: int|
                        0 <= a < after.len() && 0 <= b < after.len() && a != b implies (
                    #[trigger] after[a]).contig@ != (#[trigger] after[b]).contig@ by {
                        assert(before[a].contig@ != before[b].contig@);
                    }
                }
                lemma_group_at(before, i as int);
                lemma_group_at(after, i as int);
                assert forall|c: Seq<char>| c != contig@ implies #[trigger] group_of(after, c)
                    == group_of(before, c) by {
                    if has_contig(before, c) {
                        let k = choose|k: int|
                            0 <= k < before.len() && (#[trigger] before[k]).contig@ == c;
                        lemma_group_at(before, k);
                        lemma_group_at(after, k);
                        assert(after[k] == before[k]);
                    } else {
                        if has_contig(after, c) {
                            let k = choose|k: int|
                                0 <= k < after.len() && (#[trigger] after[k]).contig@ == c;
                            assert(before[k].contig@ == c);
                        }
                    }
                }
            }
        },
        None => {
            let mut intervals: Vec<(usize, usize)> = Vec::new();
            intervals.push(range);
            list.push(ContigTargets { contig: contig.clone(), intervals });
            proof {
                let after = list@;
                let n = before.len() as int;
                assert(forall|k: int| 0 <= k < n ==> (#[trigger] after[k]) == before[k]);
                assert(distinct_contigs(after)) by {
                    assert forall|a: int, b: int|
                        0 <= a < after.len() && 0 <= b < after.len() && a != b implies (
                    #[trigger] after[a]).contig@ != (#[trigger] after[b]).contig@ by {
                        if a < n && b < n {
                            assert(before[a].contig@ != before[b].contig@);
                        } else if a < n {
                            assert(before[a].contig@ != contig@);
                        } else {
                            assert(before[b].contig@ != contig@);
                        }
                    }
                }
                lemma_group_at(after, n);
                assert(after[n].intervals@ =~= Seq::<(usize, usize)>::empty().push(range));
                assert forall|c: Seq<char>| c != contig@ implies #[trigger] group_of(after, c)
                    == group_of(before, c) by {
                    if has_contig(before, c) {
                        let k = choose|k: int|
                            0 <= k < before.len() && (#[trigger] before[k]).contig@ == c;
                        lemma_group_at(before, k);
                        lemma_group_at(after, k);
                    } else {
                        if has_contig(after, c) {
                            let k = choose|k: int|
                                0 <= k < after.len() && (#[trigger] after[k]).contig@ == c;
                            assert(k < n);
                            assert(before[k].contig@ == c);
                        }
                    }
                }
            }
        },
    }
}

/// Enters what one row declares, on the strand or strands that it names.
fn add_row(forward: &mut Vec<ContigTargets>, reverse: &mut Vec<ContigTargets>, row: &TargetRow)
    requires
        distinct_contigs(old(forward)@),
        distinct_contigs(old(reverse)@),
    ensures
        distinct_contigs(final(forward)@),
        distinct_contigs(final(reverse)@),
        forall|c: Seq<char>| #[trigger]
            group_of(final(forward)@, c) == group_of(old(forward)@, c) + row_intervals(
                row@,
                Strand::Forward,
                c,
            ),
        forall|c: Seq<char>| #[trigger]
            group_of(final(reverse)@, c) == group_of(old(reverse)@, c) + row_intervals(
                row@,
                Strand::Reverse,
                c,
            ),
{
    let ghost fwd = forward@;
    let ghost rev = reverse@;
    match row.span {
        None => {
            add_interval(forward, &row.contig, (0, usize::MAX));
            add_interval(reverse, &row.contig, (0, usize::MAX));
        },
        Some((start, stop, strand)) => {
            match strand {
                Strand::Forward => add_interval(forward, &row.contig, (start, stop)),
                Strand::Reverse => add_interval(reverse, &row.contig, (start, stop)),
            }
        },
    }
    proof {
        assert forall|c: Seq<char>| #[trigger]
            group_of(forward@, c) == group_of(fwd, c) + row_intervals(
                row@,
                Strand::Forward,
                c,
            ) by {
            lemma_append_one(group_of(fwd, c), row_intervals(row@, Strand::Forward, c));
        }
        assert forall|c: Seq<char>| #[trigger]
            group_of(reverse@, c) == group_of(rev, c) + row_intervals(
                row@,
                Strand::Reverse,
                c,
            ) by {
            lemma_append_one(group_of(rev, c), row_intervals(row@, Strand::Reverse, c));
        }
    }
}

proof fn lemma_append_one(d: Seq<(usize, usize)>, r: Seq<(usize, usize)>)
    requires
        r.len() <= 1,
    ensures
        r.len() == 0 ==> d + r == d,
        r.len() == 1 ==> d + r == d.push(r[0]),
{
    if r.len() == 0 {
        assert(d + r =~= d);
    } else {
        assert(d + r =~= d.push(r[0]));
    }
}

/// Merges the ranges of every entry.
fn merge_all(list: &mut Vec<ContigTargets>)
    requires
        distinct_contigs(old(list)@),
    ensures
        distinct_contigs(final(list)@),
        forall|c: Seq<char>| #[trigger] group_of(final(list)@, c) == merged(group_of(old(list)@, c)),
{
    let ghost before = list@;
    let n: usize = list.len();
    let mut k: usize = 0;
    while k < n
        invariant
            k <= n,
            n == before.len(),
            list@.len() == n,
            forall|j: int| 0 <= j < n ==> (#[trigger] list@[j]).contig@ == before[j].contig@,
            forall|j: int| 0 <= j < k ==> (#[trigger] list@[j]).intervals@ == merged(before[j].intervals@),
            forall|j: int| k <= j < n ==> (#[trigger] list@[j]).intervals@ == before[j].intervals@,
        decreases n - k,
    {
        let m = merge_intervals(&mut list[k].intervals);
        list[k].intervals = m;
        k = k + 1;
    }
    proof {
        let after = list@;
        assert(distinct_contigs(after)) by {
            assert forall|a: int, b: int|
                0 <= a < after.len() && 0 <= b < after.len() && a != b implies (
            #[trigger] after[a]).contig@ != (#[trigger] after[b]).contig@ by {
                assert(before[a].contig@ != before[b].contig@);
            }
        }
        assert forall|c: Seq<char>| #[trigger] group_of(after, c) == merged(group_of(before, c)) by {
            if has_contig(before, c) {
                let j = choose|j: int| 0 <= j < before.len() && (#[trigger] before[j]).contig@ == c;
                lemma_group_at(before, j);
                lemma_group_at(after, j);
            } else {
                if has_contig(after, c) {
                    let j = choose|j: int| 0 <= j < after.len() && (#[trigger] after[j]).contig@ == c;
                    assert(before[j].contig@ == c);
                }
                lemma_merged_normal(Seq::<(usize, usize)>::empty());
                assert(merged(Seq::<(usize, usize)>::empty()) =~= Seq::<(usize, usize)>::empty());
            }
        }
    }
}

/// The targets of one condition: for each strand and contig, the merged
/// ranges that count as on target. Built once and read thereafter.
#[derive(Debug)]
pub struct Targets {
    forward: Vec<ContigTargets>,
    reverse: Vec<ContigTargets>,
}

impl Targets {
    /// The ranges held for a strand of a contig; none where nothing was
    /// declared for it.
    pub closed spec fn intervals(&self, strand: Strand, contig: Seq<char>) -> Seq<(usize, usize)> {
        match strand {
            Strand::Forward => group_of(self.forward@, contig),
            Strand::Reverse => group_of(self.reverse@, contig),
        }
    }

    /// The store as a table: for every strand and contig, the ranges held.
    pub open spec fn view(&self) -> Map<(Strand, Seq<char>), Seq<(usize, usize)>> {
        Map::total(|k: (Strand, Seq<char>)| self.intervals(k.0, k.1))
    }

    /// No contig has two entries on one strand.
    #[verifier::type_invariant]
    spec fn well_formed(&self) -> bool {
        distinct_contigs(self.forward@) && distinct_contigs(self.reverse@)
    }

    /// Builds the store from rows that were read: a row without coordinates
    /// puts the whole contig on both strands, any other row puts its range
    /// on its strand; then the ranges of each strand and contig are merged.
    pub fn from_rows(rows: &Vec<TargetRow>) -> (t: Targets)
        ensures
            forall|strand: Strand, contig: Seq<char>| #[trigger]
                t.intervals(strand, contig) == target_intervals(row_views(rows@), strand, contig),
            t@ == targets_of_rows(row_views(rows@)),
            forall|strand: Strand, contig: Seq<char>| #[trigger]
                is_merged(t.intervals(strand, contig)),
    {
        let mut forward: Vec<ContigTargets> = Vec::new();
        let mut reverse: Vec<ContigTargets> = Vec::new();
        let ghost all = row_views(rows@);
        let mut i: usize = 0;
        assert(all.take(0) =~= Seq::<TargetRowView>::empty());
        while i < rows.len()
            invariant
                i <= rows.len(),
                all == row_views(rows@),
                distinct_contigs(forward@),
                distinct_contigs(reverse@),
                forall|c: Seq<char>| #[trigger]
                    group_of(forward@, c) == declared(all.take(i as int), Strand::Forward, c),
                forall|c: Seq<char>| #[trigger]
                    group_of(reverse@, c) == declared(all.take(i as int), Strand::Reverse, c),
            decreases rows.len() - i,
        {
            proof {
                assert(all.take(i + 1).drop_last() =~= all.take(i as int));
                assert(all.take(i + 1).last() == rows@[i as int]@);
            }
            add_row(&mut forward, &mut reverse, &rows[i]);
            i = i + 1;
        }
        proof {
            assert(all.take(i as int) =~= all);
        }
        merge_all(&mut forward);
        merge_all(&mut reverse);
        let t = Targets { forward, reverse };
        proof {
            assert forall|strand: Strand, contig: Seq<char>| #[trigger]
                t.intervals(strand, contig) == target_intervals(all, strand, contig) by {
                match strand {
                    Strand::Forward => {
                        assert(group_of(t.forward@, contig) == merged(
                            declared(all, Strand::Forward, contig),
                        ));
                    },
                    Strand::Reverse => {
                        assert(group_of(t.reverse@, contig) == merged(
                            declared(all, Strand::Reverse, contig),
                        ));
                    },
                }
            }
            assert(t@ =~= targets_of_rows(all));
            assert forall|strand: Strand, contig: Seq<char>| #[trigger]
                is_merged(t.intervals(strand, contig)) by {
                lemma_merged_normal(declared(all, strand, contig));
            }
        }
        t
    }

    /// Builds the store from target rows as they are written, one text per
    /// row. The first row that is refused fails the whole build. No rows
    /// give an empty store.
    pub fn build(rows: &Vec<String>, delimiter: Delimiter) -> (r: Result<Targets, TargetError>)
        ensures
            match r {
                Ok(t) => first_refused(texts(rows@), delimiter) is None && t@ == targets_of_rows(
                    read_rows(texts(rows@), delimiter),
                ) && forall|strand: Strand, contig: Seq<char>| #[trigger]
                    t.intervals(strand, contig) == target_intervals(
                        read_rows(texts(rows@), delimiter),
                        strand,
                        contig,
                    ),
                Err(e) => first_refused(texts(rows@), delimiter) == Some(e),
            },
    {
        let ghost all = texts(rows@);
        let mut parsed: Vec<TargetRow> = Vec::new();
        let mut i: usize = 0;
        assert(all.take(0) =~= Seq::<Seq<char>>::empty());
        while i < rows.len()
            invariant
                i <= rows.len(),
                all == texts(rows@),
                parsed@.len() == i,
                first_refused(all.take(i as int), delimiter) is None,
                forall|k: int| 0 <= k < i ==> Ok::<TargetRowView, TargetError>((#[trigger] parsed@[k])@) == read_descriptor(all[k], delimiter),
            decreases rows.len() - i,
        {
            proof {
                assert(all.take(i + 1).drop_last() =~= all.take(i as int));
                assert(all.take(i + 1).last() == rows@[i as int]@);
            }
            match parse_descriptor(rows[i].as_str(), delimiter) {
                Ok(row) => {
                    parsed.push(row);
                },
                Err(e) => {
                    proof {
                        lemma_first_refused_stays(all, i + 1, delimiter);
                    }
                    return Err(e);
                },
            }
            i = i + 1;
        }
        proof {
            assert(all.take(i as int) =~= all);
            assert(row_views(parsed@) =~= read_rows(all, delimiter));
        }
        Ok(Targets::from_rows(&parsed))
    }

    /// Builds the store from literal descriptors, each of the form `contig`
    /// or `contig,start,stop,strand`.
    pub fn from_descriptors(targets: &Vec<String>) -> (r: Result<Targets, TargetError>)
        ensures
            match r {
                Ok(t) => first_refused(texts(targets@), Delimiter::Comma) is None && t@
                    == targets_of_rows(read_rows(texts(targets@), Delimiter::Comma)) && forall|
                    strand: Strand,
                    contig: Seq<char>,
                | #[trigger]
                    t.intervals(strand, contig) == target_intervals(
                        read_rows(texts(targets@), Delimiter::Comma),
                        strand,
                        contig,
                    ),
                Err(e) => first_refused(texts(targets@), Delimiter::Comma) == Some(e),
            },
    {
        Targets::build(targets, Delimiter::Comma)
    }

    /// Whether the coordinate lies in a target on that strand of the contig.
    pub fn contains_on(&self, contig: &str, strand: Strand, coordinate: usize) -> (found: bool)
        ensures
            found == covers(self.intervals(strand, contig@), coordinate),
    {
        proof {
            use_type_invariant(self);
        }
        let list = match strand {
            Strand::Forward => &self.forward,
            Strand::Reverse => &self.reverse,
        };
        match find_contig(list, contig) {
            Some(i) => {
                proof {
                    lemma_group_at(list@, i as int);
                }
                contains_point(&list[i].intervals, coordinate)
            },
            None => {
                assert(!covers(Seq::<(usize, usize)>::empty(), coordinate));
                false
            },
        }
    }

    /// Whether the coordinate lies in a target, the strand given as text:
    /// `+` or `1`, `-` or `-1`; any other text counts as forward.
    pub fn contains(&self, contig: &str, strand: &str, coordinate: usize) -> (found: bool)
        ensures
            found == covers(
                self.intervals(Strand::read_or_forward(strand@), contig@),
                coordinate,
            ),
    {
        self.contains_on(contig, Strand::from_text(strand), coordinate)
    }
}

/// What is done with a read.
#[derive(Clone, Copy, Debug, PartialEq, Eq, Structural)]
pub enum Action {
    /// Written `unblock`.
    Unblock,
    /// Written `stop_receiving`.
    StopReceiving,
    /// Written `proceed`.
    Proceed,
}

impl Action {
    /// The action that a text names, if it names one.
    pub open spec fn read(s: Seq<char>) -> Option<Action> {
        if s == "unblock"@ {
            Some(Action::Unblock)
        } else if s == "stop_receiving"@ {
            Some(Action::StopReceiving)
        } else if s == "proceed"@ {
            Some(Action::Proceed)
        } else {
            None
        }
    }

    /// Reads an action.
    pub fn parse(text: &str) -> (r: Option<Action>)
        ensures
            r == Action::read(text@),
    {
        if text_eq(text, "unblock") {
            Some(Action::Unblock)
        } else if text_eq(text, "stop_receiving") {
            Some(Action::StopReceiving)
        } else if text_eq(text, "proceed") {
            Some(Action::Proceed)
        } else {
            None
        }
    }
}

/// How the alignment of a read came out.
#[derive(Clone, Copy, Debug, PartialEq, Eq, Structural)]
pub enum Outcome {
    /// One mapping, off target.
    SingleOff,
    /// One mapping, on target.
    SingleOn,
    /// Several mappings, all off target.
    MultiOff,
    /// Several mappings, one at least on target.
    MultiOn,
    /// No mapping.
    NoMap,
    /// No basecalled sequence.
    NoSeq,
}

/// Why a configuration was refused.
#[derive(Clone, Copy, Debug, PartialEq, Eq, Structural)]
pub enum ConfError {
    /// An entry has no name.
    MissingName,
    /// An entry lacks one of its six actions.
    MissingAction,
    /// An action is none of `unblock`, `stop_receiving`, `proceed`.
    UnknownAction,
    /// A target row was refused.
    Target(TargetError),
    /// Two entries of one category have one name.
    DuplicateName,
    /// The channel table names a region that is not there.
    UnknownRegion,
}

/// One entry of a configuration as it was written: each field is there or
/// not, the actions still as text.
#[derive(Debug)]
pub struct RawCondition {
    pub name: Option<String>,
    pub min_chunks: Option<u8>,
    pub max_chunks: Option<u8>,
    /// The target rows: literal descriptors, or the rows of a file.
    pub targets: Vec<String>,
    /// What parts the columns of the target rows.
    pub delimiter: Delimiter,
    pub single_off: Option<String>,
    pub single_on: Option<String>,
    pub multi_off: Option<String>,
    pub multi_on: Option<String>,
    pub no_map: Option<String>,
    pub no_seq: Option<String>,
}

/// One condition: a region of the flowcell or a barcode, with its targets
/// and with the action for each outcome.
#[derive(Debug)]
pub struct Condition {
    /// The name, by which the statistics are kept.
    pub name: String,
    /// The fewest chunks to look at before deciding.
    pub min_chunks: u8,
    /// The most chunks to look at.
    pub max_chunks: u8,
    /// What counts as on target.
    pub targets: Targets,
    pub single_off: Action,
    pub single_on: Action,
    pub multi_off: Action,
    pub multi_on: Action,
    pub no_map: Action,
    pub no_seq: Action,
}

/// A condition as a value of the model.
pub struct ConditionView {
    pub name: Seq<char>,
    pub min_chunks: u8,
    pub max_chunks: u8,
    pub targets: Map<(Strand, Seq<char>), Seq<(usize, usize)>>,
    pub single_off: Action,
    pub single_on: Action,
    pub multi_off: Action,
    pub multi_on: Action,
    pub no_map: Action,
    pub no_seq: Action,
}

impl View for Condition {
    type V = ConditionView;

    open spec fn view(&self) -> ConditionView {
        ConditionView {
            name: self.name@,
            min_chunks: self.min_chunks,
            max_chunks: self.max_chunks,
            targets: self.targets@,
            single_off: self.single_off,
            single_on: self.single_on,
            multi_off: self.multi_off,
            multi_on: self.multi_on,
            no_map: self.no_map,
            no_seq: self.no_seq,
        }
    }
}

/// The text that a field holds, where it is there.
pub open spec fn field_text(field: Option<String>) -> Option<Seq<char>> {
    match field {
        Some(s) => Some(s@),
        None => None,
    }
}

/// What an action field reads as.
pub open spec fn read_action(field: Option<Seq<char>>) -> Result<Action, ConfError> {
    match field {
        None => Err(ConfError::MissingAction),
        Some(s) => match Action::read(s) {
            Some(a) => Ok(a),
            None => Err(ConfError::UnknownAction),
        },
    }
}

fn parse_action(field: &Option<String>) -> (r: Result<Action, ConfError>)
    ensures
        r == read_action(field_text(*field)),
{
    match field {
        None => Err(ConfError::MissingAction),
        Some(s) => match Action::parse(s.as_str()) {
            Some(a) => Ok(a),
            None => Err(ConfError::UnknownAction),
        },
    }
}

impl RawCondition {
    /// The six actions, read in the order single off, single on, multi off,
    /// multi on, no map, no seq: all six, or why the first one that is
    /// refused is refused.
    pub open spec fn read_actions(&self) -> Result<
        (Action, Action, Action, Action, Action, Action),
        ConfError,
    > {
        match read_action(field_text(self.single_off)) {
            Err(e) => Err(e),
            Ok(a) => match read_action(field_text(self.single_on)) {
                Err(e) => Err(e),
                Ok(b) => match read_action(field_text(self.multi_off)) {
                    Err(e) => Err(e),
                    Ok(c) => match read_action(field_text(self.multi_on)) {
                        Err(e) => Err(e),
                        Ok(d) => match read_action(field_text(self.no_map)) {
                            Err(e) => Err(e),
                            Ok(f) => match read_action(field_text(self.no_seq)) {
                                Err(e) => Err(e),
                                Ok(g) => Ok((a, b, c, d, f, g)),
                            },
                        },
                    },
                },
            },
        }
    }

    /// What the entry reads as: the name must be there, then the six
    /// actions must read, then the targets. The chunk limits are 0 and 4
    /// where they are not given.
    pub open spec fn read(&self) -> Result<ConditionView, ConfError> {
        match self.name {
            None => Err(ConfError::MissingName),
            Some(name) => match self.read_actions() {
                Err(e) => Err(e),
                Ok(actions) => match read_targets(texts(self.targets@), self.delimiter) {
                    Err(e) => Err(ConfError::Target(e)),
                    Ok(targets) => Ok(
                        ConditionView {
                            name: name@,
                            min_chunks: match self.min_chunks {
                                Some(n) => n,
                                None => 0u8,
                            },
                            max_chunks: match self.max_chunks {
                                Some(n) => n,
                                None => 4u8,
                            },
                            targets,
                            single_off: actions.0,
                            single_on: actions.1,
                            multi_off: actions.2,
                            multi_on: actions.3,
                            no_map: actions.4,
                            no_seq: actions.5,
                        },
                    ),
                },
            },
        }
    }
}

/// A reading of an entry, as a value of the model.
pub open spec fn condition_result_view(r: Result<Condition, ConfError>) -> Result<
    ConditionView,
    ConfError,
> {
    match r {
        Ok(c) => Ok(c@),
        Err(e) => Err(e),
    }
}

impl Condition {
    /// Builds a condition from an entry as it was written.
    pub fn build(raw: &RawCondition) -> (r: Result<Condition, ConfError>)
        ensures
            condition_result_view(r) == raw.read(),
    {
        let name = match &raw.name {
            None => {
                return Err(ConfError::MissingName);
            },
            Some(name) => name.clone(),
        };
        let single_off = match parse_action(&raw.single_off) {
            Err(e) => {
                return Err(e);
            },
            Ok(a) => a,
        };
        let single_on = match parse_action(&raw.single_on) {
            Err(e) => {
                return Err(e);
            },
            Ok(a) => a,
        };
        let multi_off = match parse_action(&raw.multi_off) {
            Err(e) => {
                return Err(e);
            },
            Ok(a) => a,
        };
        let multi_on = match parse_action(&raw.multi_on) {
            Err(e) => {
                return Err(e);
            },
            Ok(a) => a,
        };
        let no_map = match parse_action(&raw.no_map) {
            Err(e) => {
                return Err(e);
            },
            Ok(a) => a,
        };
        let no_seq = match parse_action(&raw.no_seq) {
            Err(e) => {
                return Err(e);
            },
            Ok(a) => a,
        };
        let targets = match Targets::build(&raw.targets, raw.delimiter) {
            Err(e) => {
                return Err(ConfError::Target(e));
            },
            Ok(t) => t,
        };
        let min_chunks: u8 = match raw.min_chunks {
            Some(n) => n,
            None => 0,
        };
        let max_chunks: u8 = match raw.max_chunks {
            Some(n) => n,
            None => 4,
        };
        Ok(
            Condition {
                name,
                min_chunks,
                max_chunks,
                targets,
                single_off,
                single_on,
                multi_off,
                multi_on,
                no_map,
                no_seq,
            },
        )
    }

    /// The action that the condition's table gives for an outcome.
    pub open spec fn action_for(c: ConditionView, outcome: Outcome) -> Action {
        match outcome {
            Outcome::SingleOff => c.single_off,
            Outcome::SingleOn => c.single_on,
            Outcome::MultiOff => c.multi_off,
            Outcome::MultiOn => c.multi_on,
            Outcome::NoMap => c.no_map,
            Outcome::NoSeq => c.no_seq,
        }
    }

    /// The action for an outcome.
    pub fn decision(&self, outcome: Outcome) -> (a: Action)
        ensures
            a == Condition::action_for(self@, outcome),
    {
        match outcome {
            Outcome::SingleOff => self.single_off,
            Outcome::SingleOn => self.single_on,
            Outcome::MultiOff => self.multi_off,
            Outcome::MultiOn => self.multi_on,
            Outcome::NoMap => self.no_map,
            Outcome::NoSeq => self.no_seq,
        }
    }
}

/// The views of a list of conditions.
pub open spec fn condition_views(list: Seq<Condition>) -> Seq<ConditionView> {
    Seq::new(list.len(), |i: int| list[i]@)
}

/// The first condition of the list with that name.
pub open spec fn find_named(list: Seq<ConditionView>, name: Seq<char>) -> Option<ConditionView>
    decreases list.len(),
{
    if list.len() == 0 {
        None
    } else if list[0].name == name {
        Some(list[0])
    } else {
        find_named(list.skip(1), name)
    }
}

/// The region that the channel table gives for a channel: that of the
/// first entry for it.
pub open spec fn region_of(table: Seq<(usize, usize)>, channel: usize) -> Option<usize>
    decreases table.len(),
{
    if table.len() == 0 {
        None
    } else if table[0].0 == channel {
        Some(table[0].1)
    } else {
        region_of(table.skip(1), channel)
    }
}

/// A view of a condition that was looked for.
pub open spec fn found_view(r: Option<&Condition>) -> Option<ConditionView> {
    match r {
        Some(c) => Some(c@),
        None => None,
    }
}

fn find_condition<'a>(list: &'a Vec<Condition>, name: &str) -> (r: Option<&'a Condition>)
    ensures
        found_view(r) == find_named(condition_views(list@), name@),
{
    let ghost all = condition_views(list@);
    let mut i: usize = 0;
    assert(all.skip(0) =~= all);
    while i < list.len()
        invariant
            i <= list.len(),
            all == condition_views(list@),
            find_named(all, name@) == find_named(all.skip(i as int), name@),
        decreases list.len() - i,
    {
        proof {
            assert(all.skip(i as int)[0] == list@[i as int]@);
            assert(all.skip(i as int).skip(1) =~= all.skip(i + 1));
        }
        if text_eq(list[i].name.as_str(), name) {
            return Some(&list[i]);
        }
        i = i + 1;
    }
    None
}

fn find_region(table: &Vec<(usize, usize)>, channel: usize) -> (r: Option<usize>)
    ensures
        r == region_of(table@, channel),
{
    let mut i: usize = 0;
    assert(table@.skip(0) =~= table@);
    while i < table.len()
        invariant
            i <= table.len(),
            region_of(table@, channel) == region_of(table@.skip(i as int), channel),
        decreases table.len() - i,
    {
        proof {
            assert(table@.skip(i as int)[0] == table@[i as int]);
            assert(table@.skip(i as int).skip(1) =~= table@.skip(i + 1));
        }
        if table[i].0 == channel {
            return Some(table[i].1);
        }
        i = i + 1;
    }
    None
}

/// The views of the entries of a list.
pub open spec fn read_conditions(raws: Seq<RawCondition>) -> Result<Seq<ConditionView>, ConfError>
    decreases raws.len(),
{
    if raws.len() == 0 {
        Ok(Seq::empty())
    } else {
        match read_conditions(raws.drop_last()) {
            Err(e) => Err(e),
            Ok(before) => match raws.last().read() {
                Err(e) => Err(e),
                Ok(c) => if find_named(before, c.name) is Some {
                    Err(ConfError::DuplicateName)
                } else {
                    Ok(before.push(c))
                },
            },
        }
    }
}

proof fn lemma_read_conditions_stays(raws: Seq<RawCondition>, i: int)
    requires
        0 <= i <= raws.len(),
        read_conditions(raws.take(i)) is Err,
    ensures
        read_conditions(raws) == read_conditions(raws.take(i)),
    decreases raws.len() - i,
{
    if i < raws.len() {
        assert(raws.take(i + 1).drop_last() =~= raws.take(i));
        lemma_read_conditions_stays(raws, i + 1);
    } else {
        assert(raws.take(i) =~= raws);
    }
}

fn build_conditions(raws: &Vec<RawCondition>) -> (r: Result<Vec<Condition>, ConfError>)
    ensures
        match r {
            Ok(list) => read_conditions(raws@) == Ok::<Seq<ConditionView>, ConfError>(
                condition_views(list@),
            ),
            Err(e) => read_conditions(raws@) == Err::<Seq<ConditionView>, ConfError>(e),
        },
{
    let mut list: Vec<Condition> = Vec::new();
    let mut i: usize = 0;
    assert(raws@.take(0) =~= Seq::<RawCondition>::empty());
    assert(condition_views(list@) =~= Seq::<ConditionView>::empty());
    while i < raws.len()
        invariant
            i <= raws.len(),
            read_conditions(raws@.take(i as int)) == Ok::<Seq<ConditionView>, ConfError>(
                condition_views(list@),
            ),
        decreases raws.len() - i,
    {
        proof {
            assert(raws@.take(i + 1).drop_last() =~= raws@.take(i as int));
            assert(raws@.take(i + 1).last() == raws@[i as int]);
        }
        match Condition::build(&raws[i]) {
            Err(e) => {
                proof {
                    lemma_read_conditions_stays(raws@, i + 1);
                }
                return Err(e);
            },
            Ok(c) => {
                if find_condition(&list, c.name.as_str()).is_some() {
                    proof {
                        lemma_read_conditions_stays(raws@, i + 1);
                    }
                    return Err(ConfError::DuplicateName);
                }
                let ghost before = condition_views(list@);
                list.push(c);
                assert(condition_views(list@) =~= before.push(c@));
            },
        }
        i = i + 1;
    }
    proof {
        assert(raws@.take(i as int) =~= raws@);
    }
    Ok(list)
}

/// A configuration: the regions in their order, the barcodes, and the
/// table that gives each channel its region. The table comes from whoever
/// knows the flowcell's layout.
#[derive(Debug)]
pub struct Conf {
    /// The regions of the flowcell.
    pub regions: Vec<Condition>,
    /// The barcodes, found by name.
    pub barcodes: Vec<Condition>,
    /// Pairs of a channel and the place of its region among `regions`.
    pub channel_map: Vec<(usize, usize)>,
}

/// A configuration as a value of the model.
pub struct ConfView {
    pub regions: Seq<ConditionView>,
    pub barcodes: Seq<ConditionView>,
    pub channel_map: Seq<(usize, usize)>,
}

impl View for Conf {
    type V = ConfView;

    open spec fn view(&self) -> ConfView {
        ConfView {
            regions: condition_views(self.regions@),
            barcodes: condition_views(self.barcodes@),
            channel_map: self.channel_map@,
        }
    }
}

/// Every entry of the channel table names a region that is there.
pub open spec fn regions_known(table: Seq<(usize, usize)>, regions: int) -> bool {
    forall|k: int| 0 <= k < table.len() ==> (#[trigger] table[k]).1 < regions
}

/// What a configuration reads as: the regions, then the barcodes, then the
/// channel table.
pub open spec fn read_conf(
    regions: Seq<RawCondition>,
    barcodes: Seq<RawCondition>,
    channel_map: Seq<(usize, usize)>,
) -> Result<ConfView, ConfError> {
    match read_conditions(regions) {
        Err(e) => Err(e),
        Ok(rs) => match read_conditions(barcodes) {
            Err(e) => Err(e),
            Ok(bs) => if regions_known(channel_map, rs.len() as int) {
                Ok(ConfView { regions: rs, barcodes: bs, channel_map })
            } else {
                Err(ConfError::UnknownRegion)
            },
        },
    }
}

/// The condition that a read belongs to: the barcode's, where the read has
/// a barcode that names one; else the region's of the read's channel.
pub open spec fn resolve(conf: ConfView, channel: Option<usize>, barcode: Option<Seq<char>>) -> Option<
    ConditionView,
> {
    let by_barcode = match barcode {
        Some(b) => find_named(conf.barcodes, b),
        None => None,
    };
    match by_barcode {
        Some(c) => Some(c),
        None => match channel {
            None => None,
            Some(ch) => match region_of(conf.channel_map, ch) {
                Some(r) => if r < conf.regions.len() {
                    Some(conf.regions[r as int])
                } else {
                    None
                },
                None => None,
            },
        },
    }
}

/// A reading of a configuration, as a value of the model.
pub open spec fn conf_result_view(r: Result<Conf, ConfError>) -> Result<ConfView, ConfError> {
    match r {
        Ok(c) => Ok(c@),
        Err(e) => Err(e),
    }
}

impl Conf {
    /// Builds a configuration from its entries as they were written and
    /// from the channel table. The first entry that is refused fails the
    /// build.
    pub fn build(
        regions: &Vec<RawCondition>,
        barcodes: &Vec<RawCondition>,
        channel_map: Vec<(usize, usize)>,
    ) -> (r: Result<Conf, ConfError>)
        ensures
            conf_result_view(r) == read_conf(regions@, barcodes@, channel_map@),
    {
        let rs = match build_conditions(regions) {
            Err(e) => {
                return Err(e);
            },
            Ok(rs) => rs,
        };
        let bs = match build_conditions(barcodes) {
            Err(e) => {
                return Err(e);
            },
            Ok(bs) => bs,
        };
        let mut k: usize = 0;
        while k < channel_map.len()
            invariant
                k <= channel_map.len(),
                condition_views(rs@).len() == rs@.len(),
                read_conditions(regions@) == Ok::<Seq<ConditionView>, ConfError>(
                    condition_views(rs@),
                ),
                read_conditions(barcodes@) == Ok::<Seq<ConditionView>, ConfError>(
                    condition_views(bs@),
                ),
                forall|j: int| 0 <= j < k ==> (#[trigger] channel_map@[j]).1 < rs@.len(),
            decreases channel_map.len() - k,
        {
            if channel_map[k].1 >= rs.len() {
                assert(!(channel_map@[k as int].1 < rs@.len()));
                return Err(ConfError::UnknownRegion);
            }
            k = k + 1;
        }
        Ok(Conf { regions: rs, barcodes: bs, channel_map })
    }

    /// The region of a channel.
    pub fn get_region(&self, channel: usize) -> (r: Option<&Condition>)
        ensures
            found_view(r) == resolve(self@, Some(channel), None),
    {
        match find_region(&self.channel_map, channel) {
            Some(i) => if i < self.regions.len() {
                Some(&self.regions[i])
            } else {
                None
            },
            None => None,
        }
    }

    /// The barcode of that name.
    pub fn get_barcode(&self, barcode: &str) -> (r: Option<&Condition>)
        ensures
            found_view(r) == find_named(self@.barcodes, barcode@),
    {
        find_condition(&self.barcodes, barcode)
    }

    /// The condition that a read with this channel and this barcode belongs
    /// to.
    pub fn get_condition(&self, channel: Option<usize>, barcode: Option<&str>) -> (r: Option<
        &Condition,
    >)
        ensures
            found_view(r) == resolve(
                self@,
                channel,
                match barcode {
                    Some(b) => Some(b@),
                    None => None,
                },
            ),
    {
        let by_barcode = match barcode {
            Some(b) => self.get_barcode(b),
            None => None,
        };
        match by_barcode {
            Some(c) => Some(c),
            None => match channel {
                Some(ch) => self.get_region(ch),
                None => None,
            },
        }
    }
}

/// The channels of one section, each with the section's place.
pub open spec fn section_entries(section: Seq<usize>, region: usize) -> Seq<(usize, usize)> {
    Seq::new(section.len(), |j: int| (section[j], region))
}

/// The channel table of a flowcell in sections: every channel of the
/// first section with 0, then every channel of the second with 1, and so
/// on.
pub open spec fn table_of(sections: Seq<Seq<usize>>) -> Seq<(usize, usize)>
    decreases sections.len(),
{
    if sections.len() == 0 {
        Seq::empty()
    } else {
        table_of(sections.drop_last()) + section_entries(
            sections.last(),
            (sections.len() - 1) as usize,
        )
    }
}

/// Makes the channel table of a flowcell that was divided into sections,
/// one for each region, in the order of the regions.
pub fn channel_table(sections: &Vec<Vec<usize>>) -> (table: Vec<(usize, usize)>)
    ensures
        table@ == table_of(rows_view(sections@)),
{
    let ghost all = rows_view(sections@);
    let mut table: Vec<(usize, usize)> = Vec::new();
    let mut r: usize = 0;
    assert(all.take(0) =~= Seq::<Seq<usize>>::empty());
    while r < sections.len()
        invariant
            r <= sections.len(),
            all == rows_view(sections@),
            table@ == table_of(all.take(r as int)),
        decreases sections.len() - r,
    {
        let ghost before = table@;
        let section = &sections[r];
        let mut j: usize = 0;
        proof {
            assert(all.take(r + 1).drop_last() =~= all.take(r as int));
            assert(all.take(r + 1).last() == section@);
            assert(before + section_entries(section@.take(0), r) =~= before);
        }
        while j < section.len()
            invariant
                j <= section.len(),
                table@ == before + section_entries(section@.take(j as int), r),
            decreases section.len() - j,
        {
            table.push((section[j], r));
            assert(before + section_entries(section@.take(j + 1), r) =~= (before + section_entries(
                section@.take(j as int),
                r,
            )).push((section@[j as int], r)));
            j = j + 1;
        }
        assert(section@.take(j as int) =~= section@);
        r = r + 1;
    }
    assert(all.take(r as int) =~= all);
    table
}

} // verus!
