//! The side information of each read, as a sequencing summary gives it, and
//! the rule by which it is kept and let go while alignments stream by.
use crate::text::{fields, parse_decimal, parsed_decimal, split_fields, text_eq, texts};
use vstd::prelude::*;

verus! {

/// What a sequencing summary says of one read.
#[derive(Debug)]
pub struct SeqSumInfo {
    /// The read identifier.
    pub read_id: String,
    /// The channel that the read came through.
    pub channel: usize,
    /// The barcode that was called, where one was.
    pub barcode_arrangement: Option<String>,
    /// The length of the read's sequence.
    pub sequence_length: usize,
}

impl SeqSumInfo {
    /// A copy of the record.
    pub fn duplicate(&self) -> (r: SeqSumInfo)
        ensures
            r == *self,
    {
        SeqSumInfo {
            read_id: self.read_id.clone(),
            channel: self.channel,
            barcode_arrangement: match &self.barcode_arrangement {
                Some(b) => Some(b.clone()),
                None => None,
            },
            sequence_length: self.sequence_length,
        }
    }
}

/// The records that are held and those that are still to come.
pub struct SeqSumState {
    /// What was read from the source and not let go, oldest first.
    pub buffer: Seq<SeqSumInfo>,
    /// What the source still holds, in the order in which it comes.
    pub source: Seq<SeqSumInfo>,
}

/// The buffer without the records of one read.
pub open spec fn without(buffer: Seq<SeqSumInfo>, id: Seq<char>) -> Seq<SeqSumInfo>
    decreases buffer.len(),
{
    if buffer.len() == 0 {
        Seq::empty()
    } else if buffer[0].read_id@ == id {
        without(buffer.skip(1), id)
    } else {
        seq![buffer[0]] + without(buffer.skip(1), id)
    }
}

/// The oldest record of a read in the buffer.
pub open spec fn first_with(buffer: Seq<SeqSumInfo>, id: Seq<char>) -> Option<SeqSumInfo>
    decreases buffer.len(),
{
    if buffer.len() == 0 {
        None
    } else if buffer[0].read_id@ == id {
        Some(buffer[0])
    } else {
        first_with(buffer.skip(1), id)
    }
}

/// How many records are taken from the source in looking for a read: all
/// up to its first record, that one included, or all there are.
pub open spec fn reach(source: Seq<SeqSumInfo>, id: Seq<char>) -> int
    decreases source.len(),
{
    if source.len() == 0 {
        0
    } else if source[0].read_id@ == id {
        1
    } else {
        1 + reach(source.skip(1), id)
    }
}

/// Looking a read up: the buffer answers where it can; else the source is
/// read up to the read's record, and all that was read joins the buffer.
pub open spec fn lookup(state: SeqSumState, id: Seq<char>) -> (SeqSumState, Option<SeqSumInfo>) {
    match first_with(state.buffer, id) {
        Some(r) => (state, Some(r)),
        None => {
            let k = reach(state.source, id);
            (
                SeqSumState {
                    buffer: state.buffer + state.source.take(k),
                    source: state.source.skip(k),
                },
                if k > 0 && state.source[k - 1].read_id@ == id {
                    Some(state.source[k - 1])
                } else {
                    None
                },
            )
        },
    }
}

/// One request: where the caller names the read that it asked for before,
/// and it is another than the read asked for now, the records of that
/// earlier read are let go; then the read is looked up.
pub open spec fn request(state: SeqSumState, id: Seq<char>, previous: Option<Seq<char>>) -> (
    SeqSumState,
    Option<SeqSumInfo>,
) {
    match previous {
        Some(p) => if p != id {
            lookup(SeqSumState { buffer: without(state.buffer, p), ..state }, id)
        } else {
            lookup(state, id)
        },
        None => lookup(state, id),
    }
}

/// Once the records of a read are let go, the buffer has none for it.
pub proof fn lemma_without_has_none(buffer: Seq<SeqSumInfo>, id: Seq<char>)
    ensures
        first_with(without(buffer, id), id) is None,
        without(buffer, id).len() <= buffer.len(),
    decreases buffer.len(),
{
    if buffer.len() > 0 {
        lemma_without_has_none(buffer.skip(1), id);
        if buffer[0].read_id@ != id {
            let w = seq![buffer[0]] + without(buffer.skip(1), id);
            assert(w.skip(1) =~= without(buffer.skip(1), id));
        }
    }
}

/// While the caller goes on asking for one read, its record stays: a
/// request for the read that was asked for before changes nothing and
/// gives the record that the buffer holds.
pub proof fn lemma_same_read_stays(state: SeqSumState, id: Seq<char>)
    requires
        first_with(state.buffer, id) is Some,
    ensures
        request(state, id, Some(id)) == (state, first_with(state.buffer, id)),
{
}

/// A request for another read lets the records of the earlier read go: of
/// what the buffer held before, nothing for the earlier read is left.
pub proof fn lemma_other_read_evicts(state: SeqSumState, id: Seq<char>, previous: Seq<char>)
    requires
        previous != id,
    ensures
        request(state, id, Some(previous)) == lookup(
            SeqSumState { buffer: without(state.buffer, previous), source: state.source },
            id,
        ),
        first_with(without(state.buffer, previous), previous) is None,
{
    lemma_without_has_none(state.buffer, previous);
}

/// A buffer that holds records of one read only is empty once they are let
/// go.
pub proof fn lemma_without_all(buffer: Seq<SeqSumInfo>, id: Seq<char>)
    requires
        forall|i: int| 0 <= i < buffer.len() ==> (#[trigger] buffer[i]).read_id@ == id,
    ensures
        without(buffer, id) == Seq::<SeqSumInfo>::empty(),
    decreases buffer.len(),
{
    if buffer.len() > 0 {
        assert(buffer[0].read_id@ == id);
        assert forall|i: int| 0 <= i < buffer.skip(1).len() implies (#[trigger] buffer.skip(
            1,
        )[i]).read_id@ == id by {
            assert(buffer[i + 1].read_id@ == id);
        }
        lemma_without_all(buffer.skip(1), id);
    }
}

/// Where the reads are asked for in the order in which the source gives
/// them, one record is held at a time: if the buffer holds records of the
/// earlier read only and the source's next record is for the read asked
/// for now, the request gives that record and leaves it alone in the
/// buffer.
pub proof fn lemma_in_step(state: SeqSumState, id: Seq<char>, previous: Seq<char>)
    requires
        previous != id,
        forall|i: int| 0 <= i < state.buffer.len() ==> (#[trigger] state.buffer[i]).read_id@ == previous,
        state.source.len() > 0,
        state.source[0].read_id@ == id,
    ensures
        request(state, id, Some(previous)) == (
            SeqSumState { buffer: seq![state.source[0]], source: state.source.skip(1) },
            Some(state.source[0]),
        ),
{
    lemma_without_all(state.buffer, previous);
    let empty = Seq::<SeqSumInfo>::empty();
    assert(first_with(empty, id) is None);
    assert(reach(state.source, id) == 1);
    assert(empty + state.source.take(1) =~= seq![state.source[0]]);
}

fn find_buffered(buffer: &Vec<SeqSumInfo>, id: &str) -> (r: Option<usize>)
    ensures
        match r {
            Some(i) => i < buffer@.len() && first_with(buffer@, id@) == Some(buffer@[i as int]),
            None => first_with(buffer@, id@) is None,
        },
{
    let mut i: usize = 0;
    assert(buffer@.skip(0) =~= buffer@);
    while i < buffer.len()
        invariant
            i <= buffer.len(),
            first_with(buffer@, id@) == first_with(buffer@.skip(i as int), id@),
        decreases buffer.len() - i,
    {
        proof {
            assert(buffer@.skip(i as int)[0] == buffer@[i as int]);
            assert(buffer@.skip(i as int).skip(1) =~= buffer@.skip(i + 1));
        }
        if text_eq(buffer[i].read_id.as_str(), id) {
            return Some(i);
        }
        i = i + 1;
    }
    None
}

fn evict(buffer: &mut Vec<SeqSumInfo>, id: &str)
    ensures
        final(buffer)@ == without(old(buffer)@, id@),
{
    let ghost given = buffer@;
    let mut i: usize = 0;
    assert(buffer@.take(0) + without(buffer@.skip(0), id@) =~= without(given, id@)) by {
        assert(buffer@.skip(0) =~= buffer@);
    }
    while i < buffer.len()
        invariant
            i <= buffer.len(),
            buffer@.take(i as int) + without(buffer@.skip(i as int), id@) == without(given, id@),
        decreases buffer.len() - i,
    {
        let ghost before = buffer@;
        proof {
            assert(before.skip(i as int)[0] == before[i as int]);
            assert(before.skip(i as int).skip(1) =~= before.skip(i + 1));
        }
        if text_eq(buffer[i].read_id.as_str(), id) {
            buffer.remove(i);
            proof {
                assert(buffer@.take(i as int) =~= before.take(i as int));
                assert(buffer@.skip(i as int) =~= before.skip(i + 1));
            }
        } else {
            proof {
                assert(before.take(i + 1) + without(before.skip(i + 1), id@) =~= before.take(
                    i as int,
                ) + (seq![before[i as int]] + without(before.skip(i + 1), id@)));
            }
            i = i + 1;
        }
    }
    proof {
        assert(buffer@.skip(i as int) =~= Seq::<SeqSumInfo>::empty());
        assert(buffer@.take(i as int) =~= buffer@);
        assert(buffer@ + Seq::<SeqSumInfo>::empty() =~= buffer@);
    }
}

/// The side information of a run: the records of the source in the order
/// in which they come, how far they have been read, and the records that
/// were read and not let go.
#[derive(Debug)]
pub struct SeqSum {
    records: Vec<SeqSumInfo>,
    cursor: usize,
    buffer: Vec<SeqSumInfo>,
}

impl SeqSum {
    /// What is held and what is still to come.
    pub closed spec fn state(&self) -> SeqSumState {
        SeqSumState {
            buffer: self.buffer@,
            source: if self.cursor <= self.records@.len() {
                self.records@.skip(self.cursor as int)
            } else {
                Seq::empty()
            },
        }
    }

    /// Takes the records of a source; none is read yet.
    pub fn new(records: Vec<SeqSumInfo>) -> (s: SeqSum)
        ensures
            s.state() == (SeqSumState { buffer: Seq::empty(), source: records@ }),
    {
        let s = SeqSum { records, cursor: 0, buffer: Vec::new() };
        assert(s.records@.skip(0) =~= s.records@);
        s
    }

    /// How many records are held.
    pub fn buffered(&self) -> (n: usize)
        ensures
            n == self.state().buffer.len(),
    {
        self.buffer.len()
    }

    /// The record of a read. `previous_read_id`, where given, names the read
    /// that was asked for before; it is set to the read asked for now.
    #[verifier::loop_isolation(false)]
    pub fn get_record(&mut self, query_name: &str, previous_read_id: Option<&mut String>) -> (r:
        Option<SeqSumInfo>)
        ensures
            (final(self).state(), r) == request(
                old(self).state(),
                query_name@,
                match previous_read_id {
                    Some(p) => Some(p@),
                    None => None,
                },
            ),
            match previous_read_id {
                Some(p) => final(p)@ == query_name@,
                None => true,
            },
    {
        if self.cursor > self.records.len() {
            self.cursor = self.records.len();
            assert(self.records@.skip(self.cursor as int) =~= Seq::<SeqSumInfo>::empty());
        }
        match previous_read_id {
            Some(p) => {
                if !text_eq(p.as_str(), query_name) {
                    evict(&mut self.buffer, p.as_str());
                    *p = query_name.to_owned();
                }
            },
            None => {},
        }
        let ghost start = self.state();
        match find_buffered(&self.buffer, query_name) {
            Some(i) => {
                return Some(self.buffer[i].duplicate());
            },
            None => {},
        }
        let ghost first: int = self.cursor as int;
        proof {
            assert(start.source.skip(0) =~= start.source);
            assert(start.source.take(0) =~= Seq::<SeqSumInfo>::empty());
            assert(start.buffer + Seq::<SeqSumInfo>::empty() =~= start.buffer);
        }
        while self.cursor < self.records.len()
            invariant
                0 <= first <= self.cursor <= self.records@.len(),
                self.records@ == old(self).records@,
                start.source == self.records@.skip(first),
                self.buffer@ == start.buffer + start.source.take(self.cursor - first),
                reach(start.source, query_name@) == (self.cursor - first) + reach(
                    start.source.skip(self.cursor - first),
                    query_name@,
                ),
                forall|k: int|
                    0 <= k < self.cursor - first ==> (#[trigger] start.source[k]).read_id@
                        != query_name@,
            decreases self.records@.len() - self.cursor,
        {
            let ghost j: int = self.cursor - first;
            let record = self.records[self.cursor].duplicate();
            let hit = text_eq(record.read_id.as_str(), query_name);
            proof {
                assert(start.source.skip(j)[0] == record);
                assert(start.source.skip(j).skip(1) =~= start.source.skip(j + 1));
                assert(start.source.take(j + 1) =~= start.source.take(j).push(record));
                assert(start.buffer + start.source.take(j + 1) =~= (start.buffer
                    + start.source.take(j)).push(record));
            }
            self.buffer.push(record.duplicate());
            self.cursor = self.cursor + 1;
            if hit {
                proof {
                    assert(self.records@.skip(self.cursor as int) =~= start.source.skip(j + 1));
                }
                return Some(record);
            }
        }
        proof {
            let n = self.cursor - first;
            assert(start.source.skip(n) =~= Seq::<SeqSumInfo>::empty());
            assert(self.records@.skip(self.cursor as int) =~= start.source.skip(n));
        }
        None
    }
}

/// Why a sequencing summary was refused.
#[derive(Clone, Copy, Debug, PartialEq, Eq, Structural)]
pub enum SeqSumError {
    /// There is no header line.
    Empty,
    /// The header has no column `read_id` or no column `channel`.
    MissingColumn,
    /// A row ends before one of the columns that are read.
    ShortRow,
    /// A channel or a length is not a decimal number that a machine word
    /// holds.
    Number,
}

/// A record as a value of the model.
pub struct SeqSumInfoView {
    pub read_id: Seq<char>,
    pub channel: usize,
    pub barcode_arrangement: Option<Seq<char>>,
    pub sequence_length: usize,
}

impl View for SeqSumInfo {
    type V = SeqSumInfoView;

    open spec fn view(&self) -> SeqSumInfoView {
        SeqSumInfoView {
            read_id: self.read_id@,
            channel: self.channel,
            barcode_arrangement: match self.barcode_arrangement {
                Some(b) => Some(b@),
                None => None,
            },
            sequence_length: self.sequence_length,
        }
    }
}

/// The views of a list of records.
pub open spec fn info_views(records: Seq<SeqSumInfo>) -> Seq<SeqSumInfoView> {
    Seq::new(records.len(), |i: int| records[i]@)
}

/// The place of the first column with that name.
pub open spec fn column_of(header: Seq<Seq<char>>, name: Seq<char>) -> Option<int>
    decreases header.len(),
{
    if header.len() == 0 {
        None
    } else {
        match column_of(header.drop_last(), name) {
            Some(i) => Some(i),
            None => if header.last() == name {
                Some(header.len() - 1)
            } else {
                None
            },
        }
    }
}

/// Where the columns that are read stand in a summary.
pub struct Columns {
    pub read_id: usize,
    pub channel: usize,
    pub barcode: Option<usize>,
    pub length: Option<usize>,
}

/// A place in the header, as a machine word.
pub open spec fn place_of(column: Option<int>) -> Option<usize> {
    match column {
        Some(i) => Some(i as usize),
        None => None,
    }
}

/// The columns of a header line, which tabs part: `read_id` and `channel`
/// must be there; `barcode_arrangement` and `sequence_length_template` are
/// read where they are.
pub open spec fn read_header(line: Seq<char>) -> Result<Columns, SeqSumError> {
    let header = fields(line, '\t');
    match (column_of(header, "read_id"@), column_of(header, "channel"@)) {
        (Some(read_id), Some(channel)) => Ok(
            Columns {
                read_id: read_id as usize,
                channel: channel as usize,
                barcode: place_of(column_of(header, "barcode_arrangement"@)),
                length: place_of(column_of(header, "sequence_length_template"@)),
            },
        ),
        _ => Err(SeqSumError::MissingColumn),
    }
}

/// What a row reads as: the row must reach every column that is read,
/// channel and length must be decimal numbers; the length is 0 where the
/// summary has no column for it.
pub open spec fn read_row(line: Seq<char>, columns: Columns) -> Result<SeqSumInfoView, SeqSumError> {
    let cells = fields(line, '\t');
    if columns.read_id >= cells.len() || columns.channel >= cells.len() || (columns.barcode
        is Some && columns.barcode.unwrap() >= cells.len()) || (columns.length is Some
        && columns.length.unwrap() >= cells.len()) {
        Err(SeqSumError::ShortRow)
    } else if parsed_decimal(cells[columns.channel as int]) is None || (columns.length is Some
        && parsed_decimal(cells[columns.length.unwrap() as int]) is None) {
        Err(SeqSumError::Number)
    } else {
        Ok(
            SeqSumInfoView {
                read_id: cells[columns.read_id as int],
                channel: parsed_decimal(cells[columns.channel as int]).unwrap(),
                barcode_arrangement: match columns.barcode {
                    Some(b) => Some(cells[b as int]),
                    None => None,
                },
                sequence_length: match columns.length {
                    Some(l) => parsed_decimal(cells[l as int]).unwrap(),
                    None => 0usize,
                },
            },
        )
    }
}

/// What a run of rows reads as: the records, or why the first row that is
/// refused is refused.
pub open spec fn read_rows(lines: Seq<Seq<char>>, columns: Columns) -> Result<
    Seq<SeqSumInfoView>,
    SeqSumError,
>
    decreases lines.len(),
{
    if lines.len() == 0 {
        Ok(Seq::empty())
    } else {
        match read_rows(lines.drop_last(), columns) {
            Err(e) => Err(e),
            Ok(records) => match read_row(lines.last(), columns) {
                Ok(record) => Ok(records.push(record)),
                Err(e) => Err(e),
            },
        }
    }
}

/// What the lines of a sequencing summary read as: the first line is the
/// header, every other line a row.
pub open spec fn read_summary(lines: Seq<Seq<char>>) -> Result<Seq<SeqSumInfoView>, SeqSumError> {
    if lines.len() == 0 {
        Err(SeqSumError::Empty)
    } else {
        match read_header(lines[0]) {
            Err(e) => Err(e),
            Ok(columns) => read_rows(lines.skip(1), columns),
        }
    }
}

proof fn lemma_read_rows_stays(lines: Seq<Seq<char>>, columns: Columns, i: int)
    requires
        0 <= i <= lines.len(),
        read_rows(lines.take(i), columns) is Err,
    ensures
        read_rows(lines, columns) == read_rows(lines.take(i), columns),
    decreases lines.len() - i,
{
    if i < lines.len() {
        assert(lines.take(i + 1).drop_last() =~= lines.take(i));
        lemma_read_rows_stays(lines, columns, i + 1);
    } else {
        assert(lines.take(i) =~= lines);
    }
}

fn find_column(header: &Vec<String>, name: &str) -> (r: Option<usize>)
    ensures
        r == place_of(column_of(texts(header@), name@)),
        r is Some ==> r.unwrap() < header@.len() && column_of(texts(header@), name@) == Some(
            r.unwrap() as int,
        ),
{
    let ghost all = texts(header@);
    let mut i: usize = 0;
    assert(all.take(0) =~= Seq::<Seq<char>>::empty());
    while i < header.len()
        invariant
            i <= header.len(),
            all == texts(header@),
            column_of(all.take(i as int), name@) is None,
        decreases header.len() - i,
    {
        proof {
            assert(all.take(i + 1).drop_last() =~= all.take(i as int));
            assert(all.take(i + 1).last() == header@[i as int]@);
        }
        if text_eq(header[i].as_str(), name) {
            proof {
                lemma_column_stays(all, name@, i + 1);
            }
            return Some(i);
        }
        i = i + 1;
    }
    proof {
        assert(all.take(i as int) =~= all);
    }
    None
}

proof fn lemma_column_stays(header: Seq<Seq<char>>, name: Seq<char>, i: int)
    requires
        0 <= i <= header.len(),
        column_of(header.take(i), name) is Some,
    ensures
        column_of(header, name) == column_of(header.take(i), name),
    decreases header.len() - i,
{
    if i < header.len() {
        assert(header.take(i + 1).drop_last() =~= header.take(i));
        lemma_column_stays(header, name, i + 1);
    } else {
        assert(header.take(i) =~= header);
    }
}

fn parse_header(line: &str) -> (r: Result<Columns, SeqSumError>)
    ensures
        r == read_header(line@),
{
    let header = split_fields(line, '\t');
    let read_id = find_column(&header, "read_id");
    let channel = find_column(&header, "channel");
    let barcode = find_column(&header, "barcode_arrangement");
    let length = find_column(&header, "sequence_length_template");
    match (read_id, channel) {
        (Some(read_id), Some(channel)) => Ok(Columns { read_id, channel, barcode, length }),
        _ => Err(SeqSumError::MissingColumn),
    }
}

/// A reading of a row, as a value of the model.
pub open spec fn info_result_view(r: Result<SeqSumInfo, SeqSumError>) -> Result<
    SeqSumInfoView,
    SeqSumError,
> {
    match r {
        Ok(i) => Ok(i@),
        Err(e) => Err(e),
    }
}

fn parse_row(line: &str, columns: &Columns) -> (r: Result<SeqSumInfo, SeqSumError>)
    ensures
        info_result_view(r) == read_row(line@, *columns),
{
    let cells = split_fields(line, '\t');
    proof {
        assert(forall|i: int| 0 <= i < cells@.len() ==> cells@[i]@ == #[trigger] texts(cells@)[i]);
    }
    let n: usize = cells.len();
    let short_barcode: bool = match columns.barcode {
        Some(b) => b >= n,
        None => false,
    };
    let short_length: bool = match columns.length {
        Some(l) => l >= n,
        None => false,
    };
    if columns.read_id >= n || columns.channel >= n || short_barcode || short_length {
        return Err(SeqSumError::ShortRow);
    }
    let channel = parse_decimal(cells[columns.channel].as_str());
    let length: Option<usize> = match columns.length {
        Some(l) => parse_decimal(cells[l].as_str()),
        None => Some(0),
    };
    match (channel, length) {
        (Some(channel), Some(sequence_length)) => Ok(
            SeqSumInfo {
                read_id: cells[columns.read_id].clone(),
                channel,
                barcode_arrangement: match columns.barcode {
                    Some(b) => Some(cells[b].clone()),
                    None => None,
                },
                sequence_length,
            },
        ),
        _ => Err(SeqSumError::Number),
    }
}

impl SeqSum {
    /// Reads the lines of a sequencing summary: a header line, then one
    /// row for each read. Nothing is held yet; all is still to come.
    pub fn from_lines(lines: &Vec<String>) -> (r: Result<SeqSum, SeqSumError>)
        ensures
            match r {
                Ok(s) => s.state().buffer.len() == 0 && read_summary(texts(lines@)) == Ok::<
                    Seq<SeqSumInfoView>,
                    SeqSumError,
                >(info_views(s.state().source)),
                Err(e) => read_summary(texts(lines@)) == Err::<Seq<SeqSumInfoView>, SeqSumError>(e),
            },
    {
        if lines.len() == 0 {
            return Err(SeqSumError::Empty);
        }
        let ghost all = texts(lines@);
        let ghost rows = all.skip(1);
        let columns = match parse_header(lines[0].as_str()) {
            Err(e) => {
                return Err(e);
            },
            Ok(columns) => columns,
        };
        let mut records: Vec<SeqSumInfo> = Vec::new();
        let mut i: usize = 1;
        assert(rows.take(0) =~= Seq::<Seq<char>>::empty());
        assert(info_views(records@) =~= Seq::<SeqSumInfoView>::empty());
        while i < lines.len()
            invariant
                1 <= i <= lines.len(),
                all == texts(lines@),
                rows == all.skip(1),
                read_header(all[0]) == Ok::<Columns, SeqSumError>(columns),
                read_rows(rows.take(i - 1), columns) == Ok::<Seq<SeqSumInfoView>, SeqSumError>(
                    info_views(records@),
                ),
            decreases lines.len() - i,
        {
            proof {
                assert(rows.take(i - 1 + 1).drop_last() =~= rows.take(i - 1));
                assert(rows.take(i - 1 + 1).last() == lines@[i as int]@);
            }
            match parse_row(lines[i].as_str(), &columns) {
                Ok(record) => {
                    let ghost before = info_views(records@);
                    records.push(record);
                    assert(info_views(records@) =~= before.push(record@));
                },
                Err(e) => {
                    proof {
                        lemma_read_rows_stays(rows, columns, i - 1 + 1);
                    }
                    return Err(e);
                },
            }
            i = i + 1;
        }
        proof {
            assert(rows.take(i - 1) =~= rows);
        }
        Ok(SeqSum::new(records))
    }
}

} // verus!
