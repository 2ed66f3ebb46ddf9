//! Alignment records in the pairwise mapping format: the twelve positional
//! fields of a line, its annotation tokens, and the pass over a file.
use crate::intervals::covers;
use crate::readfish::{resolve, Conf, ConfView, ConditionView, Strand};
use crate::sequencing_summary::{request, SeqSum, SeqSumState};
use crate::text::{
    chars_of, fields, lemma_fields_nonempty, parse_decimal, parsed_decimal, split_fields,
    split_tokens, text_eq, texts, tokens,
};
use crate::{count_read, read_event, ConditionStats, Summary};
use vstd::prelude::*;

verus! {

/// One alignment of a read against a contig.
#[derive(Debug)]
pub struct PafRecord {
    /// The read identifier.
    pub query_name: String,
    /// The length of the read.
    pub query_length: usize,
    /// Where the alignment starts on the read.
    pub query_start: usize,
    /// Where the alignment ends on the read.
    pub query_end: usize,
    /// The strand, as written.
    pub strand: String,
    /// The contig.
    pub target_name: String,
    /// The length of the contig.
    pub target_length: usize,
    /// Where the alignment starts on the contig.
    pub target_start: usize,
    /// Where the alignment ends on the contig.
    pub target_end: usize,
    /// The number of matching bases.
    pub nmatch: usize,
    /// The length of the alignment.
    pub aln_len: usize,
    /// The mapping quality.
    pub mapq: usize,
}

/// An alignment as a value of the model.
pub struct PafRecordView {
    pub query_name: Seq<char>,
    pub query_length: usize,
    pub query_start: usize,
    pub query_end: usize,
    pub strand: Seq<char>,
    pub target_name: Seq<char>,
    pub target_length: usize,
    pub target_start: usize,
    pub target_end: usize,
    pub nmatch: usize,
    pub aln_len: usize,
    pub mapq: usize,
}

impl View for PafRecord {
    type V = PafRecordView;

    open spec fn view(&self) -> PafRecordView {
        PafRecordView {
            query_name: self.query_name@,
            query_length: self.query_length,
            query_start: self.query_start,
            query_end: self.query_end,
            strand: self.strand@,
            target_name: self.target_name@,
            target_length: self.target_length,
            target_start: self.target_start,
            target_end: self.target_end,
            nmatch: self.nmatch,
            aln_len: self.aln_len,
            mapq: self.mapq,
        }
    }
}

impl PafRecord {
    /// A copy of the record.
    pub fn duplicate(&self) -> (r: PafRecord)
        ensures
            r@ == self@,
    {
        PafRecord {
            query_name: self.query_name.clone(),
            query_length: self.query_length,
            query_start: self.query_start,
            query_end: self.query_end,
            strand: self.strand.clone(),
            target_name: self.target_name.clone(),
            target_length: self.target_length,
            target_start: self.target_start,
            target_end: self.target_end,
            nmatch: self.nmatch,
            aln_len: self.aln_len,
            mapq: self.mapq,
        }
    }
}

/// Why a file of alignments was refused.
#[derive(Clone, Copy, Debug, PartialEq, Eq, Structural)]
pub enum PafError {
    /// The file holds nothing.
    Empty,
    /// A line has fewer than twelve fields.
    FieldCount,
    /// One of the first twelve fields of a line holds a colon.
    Colon,
    /// A field that must be a number is not a decimal number that a machine
    /// word holds.
    Number,
    /// A field after the twelfth is not of the form `key:type:value`.
    Tag,
    /// The pattern for annotation tokens was refused by the matcher.
    Pattern,
    /// A line names neither channel nor barcode, and no side information
    /// was supplied.
    MissingTags,
    /// A line names neither channel nor barcode, and the side information
    /// has nothing for its read.
    UnknownRead,
    /// An annotation or the side information gives a channel that is not a
    /// number.
    Channel,
    /// Neither the barcode nor the channel of a line belongs to a condition.
    NoCondition,
    /// A statistic would no longer fit a machine word.
    Overflow,
}

/// One annotation token of a line.
#[derive(Debug)]
pub struct PafTag {
    /// The two characters before the first colon.
    pub key: String,
    /// The character between the colons.
    pub kind: String,
    /// What follows the second colon.
    pub value: String,
}

/// An annotation token as a value of the model.
pub struct PafTagView {
    pub key: Seq<char>,
    pub kind: Seq<char>,
    pub value: Seq<char>,
}

impl View for PafTag {
    type V = PafTagView;

    open spec fn view(&self) -> PafTagView {
        PafTagView { key: self.key@, kind: self.kind@, value: self.value@ }
    }
}

/// `regex::Error`, what the matcher gives back for a pattern it refuses.
#[verifier::external_type_specification]
#[verifier::external_body]
pub struct ExRegexError(regex::Error);

/// What `regex::Regex::new(pattern)` followed by `Regex::captures(haystack)`
/// gives: `None` where the pattern is refused; else `Some(None)` where the
/// pattern matches nowhere in the haystack; else the capture groups of the
/// leftmost match, the whole match first, each with the text it matched or
/// `None` where it took no part.
pub uninterp spec fn regex_captures(pattern: Seq<char>, haystack: Seq<char>) -> Option<
    Option<Seq<Option<Seq<char>>>>,
>;

/// The texts of capture groups.
pub open spec fn group_texts(groups: Seq<Option<String>>) -> Seq<Option<Seq<char>>> {
    Seq::new(
        groups.len(),
        |i: int|
            match groups[i] {
                Some(s) => Some(s@),
                None => None,
            },
    )
}

/// Compiles `pattern` with `regex::Regex::new` and searches `haystack` with
/// `Regex::captures`, handing out the text of every group of the match.
/// Believed of them: the outcome is a function of the two texts, named
/// `regex_captures`. Nothing is claimed of what matches.
#[verifier::external_body]
fn capture_groups(pattern: &str, haystack: &str) -> (r: Result<
    Option<Vec<Option<String>>>,
    regex::Error,
>)
    ensures
        match r {
            Ok(Some(groups)) => regex_captures(pattern@, haystack@) == Some(
                Some(group_texts(groups@)),
            ),
            Ok(None) => regex_captures(pattern@, haystack@) == Some(
                None::<Seq<Option<Seq<char>>>>,
            ),
            Err(_) => regex_captures(pattern@, haystack@) is None,
        },
{
    let re = regex::Regex::new(pattern)?;
    Ok(
        re.captures(haystack).map(
            |caps| caps.iter().map(|m| m.map(|m| m.as_str().to_string())).collect(),
        ),
    )
}

/// The pattern of an annotation token: two characters, a colon, one
/// character, a colon, and the rest.
pub open spec fn tag_pattern() -> Seq<char> {
    "(..):(.):(.*)"@
}

/// The token that capture groups stand for: the three groups after the
/// whole match, where there are just these and each matched.
pub open spec fn tag_of_groups(groups: Seq<Option<Seq<char>>>) -> Option<PafTagView> {
    if groups.len() == 4 && groups[1] is Some && groups[2] is Some && groups[3] is Some {
        Some(
            PafTagView {
                key: groups[1].unwrap(),
                kind: groups[2].unwrap(),
                value: groups[3].unwrap(),
            },
        )
    } else {
        None
    }
}

/// A reading of a token, as a value of the model.
pub open spec fn tag_option_view(r: Option<PafTag>) -> Option<PafTagView> {
    match r {
        Some(t) => Some(t@),
        None => None,
    }
}

/// Makes an annotation token of the capture groups of a match.
pub fn tag_from_groups(groups: &Vec<Option<String>>) -> (r: Option<PafTag>)
    ensures
        tag_option_view(r) == tag_of_groups(group_texts(groups@)),
{
    if groups.len() != 4 {
        return None;
    }
    match (&groups[1], &groups[2], &groups[3]) {
        (Some(key), Some(kind), Some(value)) => Some(
            PafTag { key: key.clone(), kind: kind.clone(), value: value.clone() },
        ),
        _ => None,
    }
}

/// What a token reads as, given what the matcher finds in it.
pub open spec fn tag_of_outcome(outcome: Option<Option<Seq<Option<Seq<char>>>>>) -> Result<
    PafTagView,
    PafError,
> {
    match outcome {
        None => Err(PafError::Pattern),
        Some(None) => Err(PafError::Tag),
        Some(Some(groups)) => match tag_of_groups(groups) {
            Some(tag) => Ok(tag),
            None => Err(PafError::Tag),
        },
    }
}

/// What an annotation token reads as.
pub open spec fn read_tag(token: Seq<char>) -> Result<PafTagView, PafError> {
    tag_of_outcome(regex_captures(tag_pattern(), token))
}

/// A reading of a token, as a value of the model.
pub open spec fn tag_result_view(r: Result<PafTag, PafError>) -> Result<PafTagView, PafError> {
    match r {
        Ok(t) => Ok(t@),
        Err(e) => Err(e),
    }
}

/// Reads one annotation token by a pattern with three capture groups: the
/// key, the type and the value.
pub fn parse_tag_with(pattern: &str, token: &str) -> (r: Result<PafTag, PafError>)
    ensures
        tag_result_view(r) == tag_of_outcome(regex_captures(pattern@, token@)),
{
    match capture_groups(pattern, token) {
        Err(_) => Err(PafError::Pattern),
        Ok(None) => Err(PafError::Tag),
        Ok(Some(groups)) => match tag_from_groups(&groups) {
            Some(tag) => Ok(tag),
            None => Err(PafError::Tag),
        },
    }
}

/// Reads one annotation token.
pub fn parse_tag(token: &str) -> (r: Result<PafTag, PafError>)
    ensures
        tag_result_view(r) == read_tag(token@),
{
    parse_tag_with("(..):(.):(.*)", token)
}

/// The views of a list of tokens.
pub open spec fn tag_views(tags: Seq<PafTag>) -> Seq<PafTagView> {
    Seq::new(tags.len(), |i: int| tags[i]@)
}

/// What a run of annotation tokens reads as: the tokens, or why the first
/// one that is refused is refused.
pub open spec fn read_tags(t: Seq<Seq<char>>) -> Result<Seq<PafTagView>, PafError>
    decreases t.len(),
{
    if t.len() == 0 {
        Ok(Seq::empty())
    } else {
        match read_tags(t.drop_last()) {
            Err(e) => Err(e),
            Ok(tags) => match read_tag(t.last()) {
                Ok(tag) => Ok(tags.push(tag)),
                Err(e) => Err(e),
            },
        }
    }
}

proof fn lemma_read_tags_stays(t: Seq<Seq<char>>, i: int)
    requires
        0 <= i <= t.len(),
        read_tags(t.take(i)) is Err,
    ensures
        read_tags(t) == read_tags(t.take(i)),
    decreases t.len() - i,
{
    if i < t.len() {
        assert(t.take(i + 1).drop_last() =~= t.take(i));
        lemma_read_tags_stays(t, i + 1);
    } else {
        assert(t.take(i) =~= t);
    }
}

/// One line of a file: the alignment and its annotation tokens.
#[derive(Debug)]
pub struct PafLine {
    /// The twelve positional fields.
    pub record: PafRecord,
    /// The fields after them.
    pub tags: Vec<PafTag>,
}

/// A line as a value of the model.
pub struct PafLineView {
    pub record: PafRecordView,
    pub tags: Seq<PafTagView>,
}

impl View for PafLine {
    type V = PafLineView;

    open spec fn view(&self) -> PafLineView {
        PafLineView { record: self.record@, tags: tag_views(self.tags@) }
    }
}

/// What the first twelve fields of a line read as.
pub open spec fn read_record(t: Seq<Seq<char>>) -> Result<PafRecordView, PafError> {
    if parsed_decimal(t[1]) is None || parsed_decimal(t[2]) is None || parsed_decimal(t[3]) is None
        || parsed_decimal(t[6]) is None || parsed_decimal(t[7]) is None || parsed_decimal(t[8]) is None
        || parsed_decimal(t[9]) is None || parsed_decimal(t[10]) is None || parsed_decimal(
        t[11],
    ) is None {
        Err(PafError::Number)
    } else {
        Ok(
            PafRecordView {
                query_name: t[0],
                query_length: parsed_decimal(t[1]).unwrap(),
                query_start: parsed_decimal(t[2]).unwrap(),
                query_end: parsed_decimal(t[3]).unwrap(),
                strand: t[4],
                target_name: t[5],
                target_length: parsed_decimal(t[6]).unwrap(),
                target_start: parsed_decimal(t[7]).unwrap(),
                target_end: parsed_decimal(t[8]).unwrap(),
                nmatch: parsed_decimal(t[9]).unwrap(),
                aln_len: parsed_decimal(t[10]).unwrap(),
                mapq: parsed_decimal(t[11]).unwrap(),
            },
        )
    }
}

/// Whether one of the first twelve fields holds a colon.
pub open spec fn colon_in_fields(t: Seq<Seq<char>>) -> bool {
    exists|i: int| 0 <= i < 12 && i < t.len() && (#[trigger] t[i]).contains(':')
}

/// What a line reads as. The line is parted at blanks; it must have twelve
/// fields at least, none of the first twelve with a colon in it, the
/// numbers among them decimal, and each later field an annotation token.
pub open spec fn read_line(line: Seq<char>) -> Result<PafLineView, PafError> {
    let t = tokens(line);
    if t.len() < 12 {
        Err(PafError::FieldCount)
    } else if colon_in_fields(t) {
        Err(PafError::Colon)
    } else {
        match read_record(t) {
            Err(e) => Err(e),
            Ok(record) => match read_tags(t.skip(12)) {
                Err(e) => Err(e),
                Ok(tags) => Ok(PafLineView { record, tags }),
            },
        }
    }
}

/// A reading of a line, as a value of the model.
pub open spec fn line_result_view(r: Result<PafLine, PafError>) -> Result<PafLineView, PafError> {
    match r {
        Ok(l) => Ok(l@),
        Err(e) => Err(e),
    }
}

fn has_colon(s: &str) -> (b: bool)
    ensures
        b == s@.contains(':'),
{
    let chars = chars_of(s);
    let mut i: usize = 0;
    while i < chars.len()
        invariant
            i <= chars.len(),
            chars@ == s@,
            forall|k: int| 0 <= k < i ==> chars@[k] != ':',
        decreases chars.len() - i,
    {
        if chars[i] == ':' {
            assert(s@[i as int] == ':');
            return true;
        }
        i = i + 1;
    }
    false
}

fn parse_tags(t: &Vec<String>) -> (r: Result<Vec<PafTag>, PafError>)
    requires
        t@.len() >= 12,
    ensures
        match r {
            Ok(tags) => read_tags(texts(t@).skip(12)) == Ok::<Seq<PafTagView>, PafError>(
                tag_views(tags@),
            ),
            Err(e) => read_tags(texts(t@).skip(12)) == Err::<Seq<PafTagView>, PafError>(e),
        },
{
    let ghost rest = texts(t@).skip(12);
    let mut tags: Vec<PafTag> = Vec::new();
    let mut i: usize = 12;
    assert(rest.take(0) =~= Seq::<Seq<char>>::empty());
    assert(tag_views(tags@) =~= Seq::<PafTagView>::empty());
    while i < t.len()
        invariant
            12 <= i <= t.len(),
            rest == texts(t@).skip(12),
            read_tags(rest.take(i - 12)) == Ok::<Seq<PafTagView>, PafError>(tag_views(tags@)),
        decreases t.len() - i,
    {
        proof {
            assert(rest.take(i - 12 + 1).drop_last() =~= rest.take(i - 12));
            assert(rest.take(i - 12 + 1).last() == t@[i as int]@);
        }
        match parse_tag(t[i].as_str()) {
            Ok(tag) => {
                let ghost before = tag_views(tags@);
                tags.push(tag);
                assert(tag_views(tags@) =~= before.push(tag@));
            },
            Err(e) => {
                proof {
                    lemma_read_tags_stays(rest, i - 12 + 1);
                }
                return Err(e);
            },
        }
        i = i + 1;
    }
    proof {
        assert(rest.take(i - 12) =~= rest);
    }
    Ok(tags)
}

/// Reads one line of a file of alignments.
pub fn parse_line(line: &str) -> (r: Result<PafLine, PafError>)
    ensures
        line_result_view(r) == read_line(line@),
{
    let t = split_tokens(line);
    if t.len() < 12 {
        return Err(PafError::FieldCount);
    }
    let ghost tv = texts(t@);
    proof {
        assert(forall|i: int| 0 <= i < t@.len() ==> t@[i]@ == #[trigger] tv[i]);
    }
    let mut i: usize = 0;
    while i < 12
        invariant
            i <= 12 <= t.len(),
            tv == texts(t@),
            tv == tokens(line@),
            forall|k: int| 0 <= k < i ==> !(#[trigger] tv[k]).contains(':'),
        decreases 12 - i,
    {
        if has_colon(t[i].as_str()) {
            assert(tv[i as int].contains(':'));
            return Err(PafError::Colon);
        }
        i = i + 1;
    }
    let query_length = parse_decimal(t[1].as_str());
    let query_start = parse_decimal(t[2].as_str());
    let query_end = parse_decimal(t[3].as_str());
    let target_length = parse_decimal(t[6].as_str());
    let target_start = parse_decimal(t[7].as_str());
    let target_end = parse_decimal(t[8].as_str());
    let nmatch = parse_decimal(t[9].as_str());
    let aln_len = parse_decimal(t[10].as_str());
    let mapq = parse_decimal(t[11].as_str());
    if query_length.is_none() || query_start.is_none() || query_end.is_none()
        || target_length.is_none() || target_start.is_none() || target_end.is_none()
        || nmatch.is_none() || aln_len.is_none() || mapq.is_none() {
        return Err(PafError::Number);
    }
    let record = PafRecord {
        query_name: t[0].clone(),
        query_length: query_length.unwrap(),
        query_start: query_start.unwrap(),
        query_end: query_end.unwrap(),
        strand: t[4].clone(),
        target_name: t[5].clone(),
        target_length: target_length.unwrap(),
        target_start: target_start.unwrap(),
        target_end: target_end.unwrap(),
        nmatch: nmatch.unwrap(),
        aln_len: aln_len.unwrap(),
        mapq: mapq.unwrap(),
    };
    match parse_tags(&t) {
        Err(e) => Err(e),
        Ok(tags) => Ok(PafLine { record, tags }),
    }
}

/// The lines of a text: what stands between its line feeds, without the
/// empty piece after a last line feed.
pub open spec fn lines_of(text: Seq<char>) -> Seq<Seq<char>> {
    let f = fields(text, '\n');
    if f.last().len() == 0 {
        f.drop_last()
    } else {
        f
    }
}

/// The views of a list of lines.
pub open spec fn line_views(lines: Seq<PafLine>) -> Seq<PafLineView> {
    Seq::new(lines.len(), |i: int| lines[i]@)
}

/// What a run of lines reads as: the lines, or why the first one that is
/// refused is refused.
pub open spec fn read_lines(lines: Seq<Seq<char>>) -> Result<Seq<PafLineView>, PafError>
    decreases lines.len(),
{
    if lines.len() == 0 {
        Ok(Seq::empty())
    } else {
        match read_lines(lines.drop_last()) {
            Err(e) => Err(e),
            Ok(read) => match read_line(lines.last()) {
                Ok(line) => Ok(read.push(line)),
                Err(e) => Err(e),
            },
        }
    }
}

proof fn lemma_read_lines_stays(lines: Seq<Seq<char>>, i: int)
    requires
        0 <= i <= lines.len(),
        read_lines(lines.take(i)) is Err,
    ensures
        read_lines(lines) == read_lines(lines.take(i)),
    decreases lines.len() - i,
{
    if i < lines.len() {
        assert(lines.take(i + 1).drop_last() =~= lines.take(i));
        lemma_read_lines_stays(lines, i + 1);
    } else {
        assert(lines.take(i) =~= lines);
    }
}

/// What the text of a file reads as: an empty text is refused, and so is a
/// text with a line that is refused.
pub open spec fn read_paf(text: Seq<char>) -> Result<Seq<PafLineView>, PafError> {
    if text.len() == 0 {
        Err(PafError::Empty)
    } else {
        read_lines(lines_of(text))
    }
}

/// Parts a text into its lines.
pub fn split_lines(contents: &str) -> (out: Vec<String>)
    ensures
        texts(out@) == lines_of(contents@),
{
    let mut out = split_fields(contents, '\n');
    proof {
        lemma_fields_nonempty(contents@, '\n');
        assert(texts(out@).len() == out@.len());
        assert(texts(out@).last() == out@[out@.len() - 1]@);
    }
    let n: usize = out.len();
    if out[n - 1].as_str().is_empty() {
        let ghost before = texts(out@);
        out.pop();
        assert(texts(out@) =~= before.drop_last());
    }
    out
}

/// Reads the text of a file of alignments, every line of it.
pub fn parse_paf_file(contents: &str) -> (r: Result<Vec<PafLine>, PafError>)
    ensures
        match r {
            Ok(lines) => read_paf(contents@) == Ok::<Seq<PafLineView>, PafError>(line_views(lines@)),
            Err(e) => read_paf(contents@) == Err::<Seq<PafLineView>, PafError>(e),
        },
{
    if contents.is_empty() {
        return Err(PafError::Empty);
    }
    let raw = split_lines(contents);
    let ghost all = texts(raw@);
    let mut lines: Vec<PafLine> = Vec::new();
    let mut i: usize = 0;
    assert(all.take(0) =~= Seq::<Seq<char>>::empty());
    assert(line_views(lines@) =~= Seq::<PafLineView>::empty());
    while i < raw.len()
        invariant
            i <= raw.len(),
            all == texts(raw@),
            all == lines_of(contents@),
            contents@.len() > 0,
            read_lines(all.take(i as int)) == Ok::<Seq<PafLineView>, PafError>(line_views(lines@)),
        decreases raw.len() - i,
    {
        proof {
            assert(all.take(i + 1).drop_last() =~= all.take(i as int));
            assert(all.take(i + 1).last() == raw@[i as int]@);
        }
        match parse_line(raw[i].as_str()) {
            Ok(line) => {
                let ghost before = line_views(lines@);
                lines.push(line);
                assert(line_views(lines@) =~= before.push(line@));
            },
            Err(e) => {
                proof {
                    lemma_read_lines_stays(all, i + 1);
                }
                return Err(e);
            },
        }
        i = i + 1;
    }
    proof {
        assert(all.take(i as int) =~= all);
    }
    Ok(lines)
}

/// The alignments of one file, read, in the order of its lines.
#[derive(Debug)]
pub struct Paf {
    /// The lines of the file.
    pub lines: Vec<PafLine>,
}

impl Paf {
    /// Holds the lines that were read from a file.
    pub fn new(lines: Vec<PafLine>) -> (paf: Paf)
        ensures
            paf.lines == lines,
    {
        Paf { lines }
    }
}

/// The value of the first annotation token with that key.
pub open spec fn tag_value(tags: Seq<PafTagView>, key: Seq<char>) -> Option<Seq<char>>
    decreases tags.len(),
{
    if tags.len() == 0 {
        None
    } else if tags[0].key == key {
        Some(tags[0].value)
    } else {
        tag_value(tags.skip(1), key)
    }
}

/// Whether a line says itself where it belongs: it has a token for the
/// channel, `ch`, or for the barcode, `ba`.
pub open spec fn self_describing(tags: Seq<PafTagView>) -> bool {
    tag_value(tags, "ch"@) is Some || tag_value(tags, "ba"@) is Some
}

/// The coordinate that an alignment is classified by: where it starts on
/// the contig as the read runs, which on the reverse strand is its end.
pub open spec fn mapping_start(record: PafRecordView) -> usize {
    if Strand::read_or_forward(record.strand) == Strand::Reverse {
        record.target_end
    } else {
        record.target_start
    }
}

/// Whether an alignment is on target for a condition.
pub open spec fn on_target(condition: ConditionView, record: PafRecordView) -> bool {
    covers(
        condition.targets[(Strand::read_or_forward(record.strand), record.target_name)],
        mapping_start(record),
    )
}

/// What a pass carries from line to line.
pub struct PassState {
    /// The side information, where it was supplied.
    pub aux: Option<SeqSumState>,
    /// The read that the side information was last asked for.
    pub previous: Seq<char>,
    /// The statistics so far.
    pub summary: Map<Seq<char>, ConditionStats>,
}

/// The barcode of a record of the side information, as text.
pub open spec fn barcode_text(barcode: Option<String>) -> Option<Seq<char>> {
    match barcode {
        Some(b) => Some(b@),
        None => None,
    }
}

/// Channel and barcode of a line, and what becomes of the side
/// information in finding them. A line that says them itself is taken at
/// its word; for any other the side information is asked for the line's
/// read, which lets go of the read asked for before where it is another.
pub open spec fn address(state: PassState, line: PafLineView) -> Result<
    (PassState, Option<usize>, Option<Seq<char>>),
    PafError,
> {
    if self_describing(line.tags) {
        match tag_value(line.tags, "ch"@) {
            Some(v) => match parsed_decimal(v) {
                Some(c) => Ok((state, Some(c), tag_value(line.tags, "ba"@))),
                None => Err(PafError::Channel),
            },
            None => Ok((state, None, tag_value(line.tags, "ba"@))),
        }
    } else {
        match state.aux {
            None => Err(PafError::MissingTags),
            Some(aux) => {
                let asked = request(aux, line.record.query_name, Some(state.previous));
                match asked.1 {
                    None => Err(PafError::UnknownRead),
                    Some(info) => Ok(
                        (
                            PassState {
                                aux: Some(asked.0),
                                previous: line.record.query_name,
                                summary: state.summary,
                            },
                            Some(info.channel),
                            barcode_text(info.barcode_arrangement),
                        ),
                    ),
                }
            },
        }
    }
}

/// One line of a pass: the line's condition is found, its alignment is
/// classified against that condition's targets, and the read is counted
/// for the condition.
pub open spec fn step(conf: ConfView, state: PassState, line: PafLineView) -> Result<
    PassState,
    PafError,
> {
    match address(state, line) {
        Err(e) => Err(e),
        Ok((next, channel, barcode)) => match resolve(conf, channel, barcode) {
            None => Err(PafError::NoCondition),
            Some(condition) => {
                let counted = count_read(
                    next.summary,
                    condition.name,
                    read_event(line.record, on_target(condition, line.record)),
                );
                if counted[condition.name].fits() {
                    Ok(PassState { aux: next.aux, previous: next.previous, summary: counted })
                } else {
                    Err(PafError::Overflow)
                }
            },
        },
    }
}

/// A pass over lines in their order: the first line that fails ends it.
pub open spec fn run(conf: ConfView, state: PassState, lines: Seq<PafLineView>) -> Result<
    PassState,
    PafError,
>
    decreases lines.len(),
{
    if lines.len() == 0 {
        Ok(state)
    } else {
        match run(conf, state, lines.drop_last()) {
            Err(e) => Err(e),
            Ok(s) => step(conf, s, lines.last()),
        }
    }
}

proof fn lemma_run_stays(conf: ConfView, state: PassState, lines: Seq<PafLineView>, i: int)
    requires
        0 <= i <= lines.len(),
        run(conf, state, lines.take(i)) is Err,
    ensures
        run(conf, state, lines) == run(conf, state, lines.take(i)),
    decreases lines.len() - i,
{
    if i < lines.len() {
        assert(lines.take(i + 1).drop_last() =~= lines.take(i));
        lemma_run_stays(conf, state, lines, i + 1);
    } else {
        assert(lines.take(i) =~= lines);
    }
}

/// The side information as a pass sees it.
pub open spec fn aux_state(aux: Option<&mut SeqSum>) -> Option<SeqSumState> {
    match aux {
        Some(a) => Some(a.state()),
        None => None,
    }
}

fn find_tag<'a>(tags: &'a Vec<PafTag>, key: &str) -> (r: Option<&'a String>)
    ensures
        match r {
            Some(v) => tag_value(tag_views(tags@), key@) == Some(v@),
            None => tag_value(tag_views(tags@), key@) is None,
        },
{
    let ghost all = tag_views(tags@);
    let mut i: usize = 0;
    assert(all.skip(0) =~= all);
    while i < tags.len()
        invariant
            i <= tags.len(),
            all == tag_views(tags@),
            tag_value(all, key@) == tag_value(all.skip(i as int), key@),
        decreases tags.len() - i,
    {
        proof {
            assert(all.skip(i as int)[0] == tags@[i as int]@);
            assert(all.skip(i as int).skip(1) =~= all.skip(i + 1));
        }
        if text_eq(tags[i].key.as_str(), key) {
            return Some(&tags[i].value);
        }
        i = i + 1;
    }
    None
}

/// Takes one line of a pass: finds its condition, classifies its alignment
/// and counts the read. `previous_read_id` is the read that the side
/// information was last asked for.
pub fn classify(
    conf: &Conf,
    line: &PafLine,
    sequencing_summary: Option<&mut SeqSum>,
    previous_read_id: &mut String,
    summary: &mut Summary,
) -> (r: Result<(), PafError>)
    requires
        old(summary).well_formed(),
    ensures
        final(summary).well_formed(),
        match step(
            conf@,
            PassState {
                aux: aux_state(sequencing_summary),
                previous: old(previous_read_id)@,
                summary: old(summary)@,
            },
            line@,
        ) {
            Ok(next) => r is Ok && final(summary)@ == next.summary && final(previous_read_id)@
                == next.previous && (match sequencing_summary {
                Some(a) => next.aux == Some(final(a).state()),
                None => next.aux is None,
            }),
            Err(e) => r == Err::<(), PafError>(e) && final(summary)@ == old(summary)@,
        },
{
    let channel_tag = find_tag(&line.tags, "ch");
    let barcode_tag = find_tag(&line.tags, "ba");
    let tagged: bool = channel_tag.is_some() || barcode_tag.is_some();
    let info = if tagged {
        None
    } else {
        match sequencing_summary {
            None => {
                return Err(PafError::MissingTags);
            },
            Some(aux) => match aux.get_record(
                line.record.query_name.as_str(),
                Some(previous_read_id),
            ) {
                None => {
                    return Err(PafError::UnknownRead);
                },
                Some(info) => Some(info),
            },
        }
    };
    let channel: Option<usize> = match &info {
        Some(i) => Some(i.channel),
        None => match channel_tag {
            Some(v) => match parse_decimal(v.as_str()) {
                Some(c) => Some(c),
                None => {
                    return Err(PafError::Channel);
                },
            },
            None => None,
        },
    };
    let barcode: Option<&str> = match &info {
        Some(i) => match &i.barcode_arrangement {
            Some(b) => Some(b.as_str()),
            None => None,
        },
        None => match barcode_tag {
            Some(v) => Some(v.as_str()),
            None => None,
        },
    };
    let condition = match conf.get_condition(channel, barcode) {
        None => {
            return Err(PafError::NoCondition);
        },
        Some(c) => c,
    };
    let strand = Strand::from_text(line.record.strand.as_str());
    let coordinate: usize = match strand {
        Strand::Reverse => line.record.target_end,
        Strand::Forward => line.record.target_start,
    };
    let hit = condition.targets.contains_on(line.record.target_name.as_str(), strand, coordinate);
    match summary.record(condition.name.as_str(), line.record.duplicate(), hit) {
        Ok(()) => Ok(()),
        Err(_) => Err(PafError::Overflow),
    }
}

fn pass_with(lines: &Vec<PafLine>, conf: &Conf, aux: &mut SeqSum, summary: &mut Summary) -> (r:
    Result<(), PafError>)
    requires
        old(summary).well_formed(),
    ensures
        final(summary).well_formed(),
        match run(
            conf@,
            PassState {
                aux: Some(old(aux).state()),
                previous: Seq::empty(),
                summary: old(summary)@,
            },
            line_views(lines@),
        ) {
            Ok(end) => r is Ok && final(summary)@ == end.summary && end.aux == Some(
                final(aux).state(),
            ),
            Err(e) => r == Err::<(), PafError>(e),
        },
{
    let ghost all = line_views(lines@);
    let ghost start = PassState {
        aux: Some(aux.state()),
        previous: Seq::empty(),
        summary: summary@,
    };
    let mut previous = String::new();
    let mut i: usize = 0;
    assert(all.take(0) =~= Seq::<PafLineView>::empty());
    while i < lines.len()
        invariant
            i <= lines.len(),
            all == line_views(lines@),
            summary.well_formed(),
            start == (PassState {
                aux: Some(old(aux).state()),
                previous: Seq::empty(),
                summary: old(summary)@,
            }),
            run(conf@, start, all.take(i as int)) == Ok::<PassState, PafError>(
                PassState { aux: Some(aux.state()), previous: previous@, summary: summary@ },
            ),
        decreases lines.len() - i,
    {
        proof {
            assert(all.take(i + 1).drop_last() =~= all.take(i as int));
            assert(all.take(i + 1).last() == lines@[i as int]@);
        }
        match classify(conf, &lines[i], Some(&mut *aux), &mut previous, summary) {
            Ok(()) => {},
            Err(e) => {
                proof {
                    lemma_run_stays(conf@, start, all, i + 1);
                }
                return Err(e);
            },
        }
        i = i + 1;
    }
    proof {
        assert(all.take(i as int) =~= all);
    }
    Ok(())
}

fn pass_without(lines: &Vec<PafLine>, conf: &Conf, summary: &mut Summary) -> (r: Result<
    (),
    PafError,
>)
    requires
        old(summary).well_formed(),
    ensures
        final(summary).well_formed(),
        match run(
            conf@,
            PassState { aux: None, previous: Seq::empty(), summary: old(summary)@ },
            line_views(lines@),
        ) {
            Ok(end) => r is Ok && final(summary)@ == end.summary && end.aux is None,
            Err(e) => r == Err::<(), PafError>(e),
        },
{
    let ghost all = line_views(lines@);
    let ghost start = PassState { aux: None, previous: Seq::empty(), summary: summary@ };
    let mut previous = String::new();
    let mut i: usize = 0;
    assert(all.take(0) =~= Seq::<PafLineView>::empty());
    while i < lines.len()
        invariant
            i <= lines.len(),
            all == line_views(lines@),
            summary.well_formed(),
            start == (PassState { aux: None, previous: Seq::empty(), summary: old(summary)@ }),
            run(conf@, start, all.take(i as int)) == Ok::<PassState, PafError>(
                PassState { aux: None, previous: previous@, summary: summary@ },
            ),
        decreases lines.len() - i,
    {
        proof {
            assert(all.take(i + 1).drop_last() =~= all.take(i as int));
            assert(all.take(i + 1).last() == lines@[i as int]@);
        }
        match classify(conf, &lines[i], None, &mut previous, summary) {
            Ok(()) => {},
            Err(e) => {
                proof {
                    lemma_run_stays(conf@, start, all, i + 1);
                }
                return Err(e);
            },
        }
        i = i + 1;
    }
    proof {
        assert(all.take(i as int) =~= all);
    }
    Ok(())
}

impl Paf {
    /// Takes the lines in their order and counts each read for its
    /// condition, as on target or off target. The first line that fails
    /// ends the pass with its error, and the statistics are then left as
    /// they were before the pass.
    pub fn demultiplex(
        &self,
        conf: &Conf,
        sequencing_summary: Option<&mut SeqSum>,
        summary: &mut Summary,
    ) -> (r: Result<(), PafError>)
        requires
            old(summary).well_formed(),
        ensures
            final(summary).well_formed(),
            match run(
                conf@,
                PassState {
                    aux: aux_state(sequencing_summary),
                    previous: Seq::empty(),
                    summary: old(summary)@,
                },
                line_views(self.lines@),
            ) {
                Ok(end) => r is Ok && final(summary)@ == end.summary && (match sequencing_summary {
                    Some(a) => end.aux == Some(final(a).state()),
                    None => end.aux is None,
                }),
                Err(e) => r == Err::<(), PafError>(e) && *final(summary) == *old(summary),
            },
    {
        let mut work = summary.duplicate();
        let r = match sequencing_summary {
            Some(aux) => pass_with(&self.lines, conf, aux, &mut work),
            None => pass_without(&self.lines, conf, &mut work),
        };
        match r {
            Ok(()) => {
                *summary = work;
                Ok(())
            },
            Err(e) => Err(e),
        }
    }
}

} // verus!
