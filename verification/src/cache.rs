//! The cache file: one line per record, eight fields per line.
//!
//! A blur score is a floating-point number. The library keeps its bit pattern and leaves
//! the decimal text of it to the caller: writing takes that text, and reading hands it out
//! and takes the score it stands for.
use vstd::hash_map::StringHashMap;
use vstd::prelude::*;
use vstd::string::*;

use crate::escape::{
    escape_field, escaped, law_escaped_field_is_one_field, law_unescape_undoes_escape,
    unescape_field, unescaped,
};
use crate::numbers::{
    decimal, decimal_text, is_digit, law_parse_undoes_decimal, lemma_decimal_digits,
    parse_number, parsed_number,
};
use crate::record::{record_views, CacheRecord, RecordView};
use crate::text::{
    lemma_split_joined, lemma_split_not_empty, lemma_split_pieces_clean, lemma_split_whole,
    lines_of, split_on, split_text, text_lines, text_views, without_carriage_return,
};

verus! {

/// A number in decimal, or nothing.
pub open spec fn optional_decimal(n: Option<u64>) -> Seq<char> {
    match n {
        Some(n) => decimal(n as nat),
        None => Seq::empty(),
    }
}

/// The text of a score in a line: nothing where there is no score.
pub open spec fn score_text_of(score: Option<u64>, score_text: Seq<char>) -> Seq<char> {
    match score {
        Some(_) => score_text,
        None => Seq::empty(),
    }
}

/// The eight fields of a record's line.
pub open spec fn cache_fields(record: RecordView, score_text: Seq<char>) -> Seq<Seq<char>> {
    seq![
        escaped(record.path),
        decimal(record.size_bytes as nat),
        decimal(record.modified_at as nat),
        record.content_hash,
        decimal(record.width as nat),
        decimal(record.height as nat),
        score_text_of(record.blur_score, score_text),
        optional_decimal(record.perceptual_hash),
    ]
}

/// Fields with a tab between one and the next.
pub open spec fn tab_joined(fields: Seq<Seq<char>>) -> Seq<char>
    decreases fields.len(),
{
    if fields.len() == 0 {
        Seq::empty()
    } else if fields.len() == 1 {
        fields[0]
    } else {
        tab_joined(fields.drop_last()) + seq!['\t'] + fields.last()
    }
}

/// A record's line, given the text of its score.
pub open spec fn cache_line(record: RecordView, score_text: Seq<char>) -> Seq<char> {
    tab_joined(cache_fields(record, score_text))
}

/// The number that an optional field of a line stands for.
pub open spec fn optional_number(field: Seq<char>) -> Option<u64> {
    if field.len() == 0 {
        None
    } else {
        match parsed_number(field, u64::MAX as nat) {
            Some(n) => Some(n as u64),
            None => None,
        }
    }
}

/// The record that a line stands for, given the score that its seventh field stands for.
/// A line without exactly eight fields, or with a number that cannot be read where one must
/// stand, stands for none.
pub open spec fn parsed_line(line: Seq<char>, score: Option<u64>) -> Option<RecordView> {
    let parts = split_on(line, '\t');
    if parts.len() != 8 {
        None
    } else {
        let size = parsed_number(parts[1], u64::MAX as nat);
        let modified = parsed_number(parts[2], u64::MAX as nat);
        let width = parsed_number(parts[4], u32::MAX as nat);
        let height = parsed_number(parts[5], u32::MAX as nat);
        if size is Some && modified is Some && width is Some && height is Some {
            Some(
                RecordView {
                    path: unescaped(parts[0]),
                    size_bytes: size->0 as u64,
                    modified_at: modified->0 as u64,
                    content_hash: parts[3],
                    width: width->0 as u32,
                    height: height->0 as u32,
                    blur_score: if parts[6].len() == 0 {
                        None
                    } else {
                        score
                    },
                    perceptual_hash: optional_number(parts[7]),
                },
            )
        } else {
            None
        }
    }
}

/// The text of the score in a line, where the line has eight fields and the seventh is not
/// empty.
pub open spec fn score_field_of(line: Seq<char>) -> Option<Seq<char>> {
    let parts = split_on(line, '\t');
    if parts.len() == 8 && parts[6].len() > 0 {
        Some(parts[6])
    } else {
        None
    }
}

/// The entry of a list, or a value to use behind its end.
pub open spec fn entry_or<T>(list: Seq<T>, i: int, otherwise: T) -> T {
    if 0 <= i < list.len() {
        list[i]
    } else {
        otherwise
    }
}

/// The cache file for records and the texts of their scores: each line ends with a line
/// feed.
pub open spec fn cache_text(records: Seq<RecordView>, score_texts: Seq<Seq<char>>) -> Seq<char>
    decreases records.len(),
{
    if records.len() == 0 {
        Seq::empty()
    } else {
        cache_text(records.drop_last(), score_texts) + cache_line(
            records.last(),
            entry_or(score_texts, records.len() - 1, Seq::empty()),
        ) + seq!['\n']
    }
}

/// What the first `n` lines of a cache file hold, by path. The last line for a path counts;
/// a line that stands for no record counts for nothing.
pub open spec fn loaded_lines(
    lines: Seq<Seq<char>>,
    scores: Seq<Option<u64>>,
    n: nat,
) -> Map<Seq<char>, RecordView>
    decreases n,
{
    if n == 0 {
        Map::empty()
    } else {
        let before = loaded_lines(lines, scores, (n - 1) as nat);
        match parsed_line(lines[n - 1], entry_or(scores, n - 1, None)) {
            Some(record) => before.insert(record.path, record),
            None => before,
        }
    }
}

/// What a cache file holds, by path, given the scores of its lines.
pub open spec fn loaded(content: Seq<char>, scores: Seq<Option<u64>>) -> Map<
    Seq<char>,
    RecordView,
> {
    loaded_lines(text_lines(content), scores, text_lines(content).len())
}

/// Records by path. The last record for a path counts.
pub open spec fn by_path(records: Seq<RecordView>) -> Map<Seq<char>, RecordView>
    decreases records.len(),
{
    if records.len() == 0 {
        Map::empty()
    } else {
        by_path(records.drop_last()).insert(records.last().path, records.last())
    }
}

/// The contents of a table of records.
pub open spec fn table_view(table: Map<Seq<char>, CacheRecord>) -> Map<Seq<char>, RecordView> {
    table.map_values(|record: CacheRecord| record@)
}

/// The contents of a list of optional strings.
pub open spec fn optional_views(texts: Seq<Option<String>>) -> Seq<Option<Seq<char>>> {
    texts.map_values(
        |text: Option<String>|
            match text {
                Some(text) => Some(text@),
                None => None,
            },
    )
}

impl CacheRecord {
    /// The record that a line stands for, given the score that [`CacheRecord::score_field`]
    /// stands for.
    pub fn from_cache_line(line: &str, score: Option<u64>) -> (record: Option<CacheRecord>)
        ensures
            match record {
                Some(record) => parsed_line(line@, score) == Some(record@),
                None => parsed_line(line@, score) is None,
            },
    {
        let parts: Vec<String> = split_text(line, '\t');
        let ghost views = split_on(line@, '\t');
        assert(views.len() == parts@.len());
        if parts.len() != 8 {
            return None;
        }
        assert(forall|k: int| 0 <= k < 8 ==> views[k] == (#[trigger] parts@[k])@);
        let size_bytes: u64 = match parse_number(parts[1].as_str(), u64::MAX) {
            Some(n) => n,
            None => {
                return None;
            },
        };
        let modified_at: u64 = match parse_number(parts[2].as_str(), u64::MAX) {
            Some(n) => n,
            None => {
                return None;
            },
        };
        let width: u64 = match parse_number(parts[4].as_str(), u32::MAX as u64) {
            Some(n) => n,
            None => {
                return None;
            },
        };
        let height: u64 = match parse_number(parts[5].as_str(), u32::MAX as u64) {
            Some(n) => n,
            None => {
                return None;
            },
        };
        let blur_score: Option<u64> = if parts[6].as_str().is_empty() {
            None
        } else {
            score
        };
        let perceptual_hash: Option<u64> = if parts[7].as_str().is_empty() {
            None
        } else {
            parse_number(parts[7].as_str(), u64::MAX)
        };
        Some(
            CacheRecord {
                path: unescape_field(parts[0].as_str()),
                size_bytes,
                modified_at,
                content_hash: parts[3].clone(),
                width: width as u32,
                height: height as u32,
                blur_score,
                perceptual_hash,
            },
        )
    }

    /// The text of the score in a line.
    pub fn score_field(line: &str) -> (field: Option<String>)
        ensures
            match field {
                Some(text) => score_field_of(line@) == Some(text@),
                None => score_field_of(line@) is None,
            },
    {
        let parts: Vec<String> = split_text(line, '\t');
        let ghost views = split_on(line@, '\t');
        assert(views.len() == parts@.len());
        if parts.len() != 8 {
            return None;
        }
        assert(views[6] == parts@[6]@);
        if parts[6].as_str().is_empty() {
            None
        } else {
            Some(parts[6].clone())
        }
    }

    /// The record's line, given the text of its score.
    pub fn to_cache_line(&self, score_text: &str) -> (line: String)
        ensures
            line@ == cache_line(self@, score_text@),
    {
        let mut line: String = escape_field(self.path.as_str());
        line.push('\t');
        line.append(decimal_text(self.size_bytes).as_str());
        line.push('\t');
        line.append(decimal_text(self.modified_at).as_str());
        line.push('\t');
        line.append(self.content_hash.as_str());
        line.push('\t');
        line.append(decimal_text(self.width as u64).as_str());
        line.push('\t');
        line.append(decimal_text(self.height as u64).as_str());
        line.push('\t');
        if self.blur_score.is_some() {
            line.append(score_text);
        }
        line.push('\t');
        if let Some(hash) = self.perceptual_hash {
            line.append(decimal_text(hash).as_str());
        }
        proof {
            lemma_eight_joined(cache_fields(self@, score_text@));
            assert(line@ =~= cache_line(self@, score_text@));
        }
        line
    }
}

/// Eight fields, joined, written out.
proof fn lemma_eight_joined(fields: Seq<Seq<char>>)
    requires
        fields.len() == 8,
    ensures
        tab_joined(fields) == fields[0] + seq!['\t'] + fields[1] + seq!['\t'] + fields[2]
            + seq!['\t'] + fields[3] + seq!['\t'] + fields[4] + seq!['\t'] + fields[5]
            + seq!['\t'] + fields[6] + seq!['\t'] + fields[7],
{
    reveal_with_fuel(tab_joined, 9);
}

/// The text of the score in each line of a cache file.
pub fn score_fields(content: &str) -> (fields: Vec<Option<String>>)
    ensures
        optional_views(fields@) == text_lines(content@).map_values(
            |line: Seq<char>| score_field_of(line),
        ),
{
    let lines: Vec<String> = lines_of(content);
    let ghost views = text_lines(content@);
    assert(views.len() == lines@.len());
    let mut fields: Vec<Option<String>> = Vec::new();
    let mut i: usize = 0;
    while i < lines.len()
        invariant
            i <= lines@.len(),
            views == text_views(lines@),
            fields@.len() == i,
            forall|k: int|
                0 <= k < i ==> (#[trigger] optional_views(fields@)[k]) == score_field_of(views[k]),
        decreases lines@.len() - i,
    {
        let field: Option<String> = CacheRecord::score_field(lines[i].as_str());
        let ghost before = optional_views(fields@);
        fields.push(field);
        assert(views[i as int] == lines@[i as int]@);
        assert forall|k: int| 0 <= k < i + 1 implies (#[trigger] optional_views(fields@)[k])
            == score_field_of(views[k]) by {
            if k < i {
                assert(optional_views(fields@)[k] == before[k]);
            }
        }
        i = i + 1;
    }
    assert(optional_views(fields@) =~= views.map_values(|line: Seq<char>| score_field_of(line)));
    fields
}

/// Reads a cache file, given the score that stands in each of its lines.
pub fn load_cache(content: &str, scores: &Vec<Option<u64>>) -> (table: StringHashMap<CacheRecord>)
    ensures
        table_view(table@) == loaded(content@, scores@),
{
    let lines: Vec<String> = lines_of(content);
    let ghost views = text_lines(content@);
    let mut table: StringHashMap<CacheRecord> = StringHashMap::new();
    let mut i: usize = 0;
    assert(table_view(table@) =~= Map::empty());
    while i < lines.len()
        invariant
            i <= lines@.len(),
            views == text_views(lines@),
            table_view(table@) == loaded_lines(views, scores@, i as nat),
        decreases lines@.len() - i,
    {
        let score: Option<u64> = if i < scores.len() {
            scores[i]
        } else {
            None
        };
        assert(views[i as int] == lines@[i as int]@);
        match CacheRecord::from_cache_line(lines[i].as_str(), score) {
            Some(record) => {
                let ghost before = table@;
                let ghost added = record;
                table.insert(record.path.clone(), record);
                assert(table_view(table@) =~= table_view(before).insert(added@.path, added@));
            },
            None => {},
        }
        i = i + 1;
    }
    table
}

/// Writes a cache file, given the texts of the records' scores.
pub fn save_cache(records: &Vec<CacheRecord>, score_texts: &Vec<String>) -> (content: String)
    ensures
        content@ == cache_text(record_views(records@), text_views(score_texts@)),
{
    let ghost views = record_views(records@);
    let ghost texts = text_views(score_texts@);
    let mut content: String = String::new();
    let mut i: usize = 0;
    assert(views.take(0) =~= Seq::empty());
    while i < records.len()
        invariant
            i <= records@.len(),
            views == record_views(records@),
            texts == text_views(score_texts@),
            content@ == cache_text(views.take(i as int), texts),
        decreases records@.len() - i,
    {
        let line: String = if i < score_texts.len() {
            records[i].to_cache_line(score_texts[i].as_str())
        } else {
            records[i].to_cache_line(String::new().as_str())
        };
        content.append(line.as_str());
        content.push('\n');
        proof {
            assert(views.take(i + 1).drop_last() =~= views.take(i as int));
            assert(views.take(i + 1).last() == records@[i as int]@);
            assert(content@ =~= cache_text(views.take(i + 1), texts));
        }
        i = i + 1;
    }
    assert(views.take(i as int) =~= views);
    content
}

/// Whether a record's line can be read back: its hash is the one field that is written as it
/// is.
pub open spec fn is_storable(record: RecordView) -> bool {
    !record.content_hash.contains('\t') && !record.content_hash.contains('\n')
}

/// Whether a text can stand for a score in a line.
pub open spec fn is_score_text(text: Seq<char>) -> bool {
    text.len() > 0 && !text.contains('\t') && !text.contains('\n')
}

/// Joined fields that hold no tab come apart again.
proof fn lemma_split_fields(fields: Seq<Seq<char>>)
    requires
        fields.len() >= 1,
        forall|k: int| 0 <= k < fields.len() ==> !(#[trigger] fields[k]).contains('\t'),
    ensures
        split_on(tab_joined(fields), '\t') == fields,
    decreases fields.len(),
{
    if fields.len() == 1 {
        lemma_split_whole(fields[0], '\t');
        assert(seq![fields[0]] =~= fields);
    } else {
        let front = fields.drop_last();
        assert forall|k: int| 0 <= k < front.len() implies !(#[trigger] front[k]).contains(
            '\t',
        ) by {
            assert(front[k] == fields[k]);
        }
        lemma_split_fields(front);
        lemma_split_joined(tab_joined(front), '\t', fields.last());
        lemma_split_whole(fields[fields.len() - 1], '\t');
        assert(front + seq![fields.last()] =~= fields);
    }
}

/// A number in decimal holds digits only.
proof fn lemma_decimal_plain(n: nat, c: char)
    requires
        !is_digit(c),
    ensures
        !decimal(n).contains(c),
        decimal(n).len() > 0,
{
    lemma_decimal_digits(n);
    assert forall|k: int| 0 <= k < decimal(n).len() implies decimal(n)[k] != c by {
        assert(is_digit(decimal(n)[k]));
    }
}

/// The fields of a record hold a tab or a line feed only where its hash or the text of its
/// score does.
proof fn lemma_fields_plain(record: RecordView, score_text: Seq<char>, c: char)
    requires
        !record.content_hash.contains(c),
        record.blur_score is Some ==> !score_text.contains(c),
        c == '\t' || c == '\n',
    ensures
        forall|k: int|
            0 <= k < 8 ==> !(#[trigger] cache_fields(record, score_text)[k]).contains(c),
{
    law_escaped_field_is_one_field(record.path);
    lemma_decimal_plain(record.size_bytes as nat, c);
    lemma_decimal_plain(record.modified_at as nat, c);
    lemma_decimal_plain(record.width as nat, c);
    lemma_decimal_plain(record.height as nat, c);
    if record.perceptual_hash is Some {
        lemma_decimal_plain(record.perceptual_hash->0 as nat, c);
    }
    assert(!Seq::<char>::empty().contains(c));
}

/// A record's line reads back as the record, and hands out the text of its score, if neither
/// its hash nor that text holds a tab.
pub proof fn law_line_round_trip(record: RecordView, score_text: Seq<char>)
    requires
        !record.content_hash.contains('\t'),
        record.blur_score is Some ==> score_text.len() > 0 && !score_text.contains('\t'),
    ensures
        parsed_line(cache_line(record, score_text), record.blur_score) == Some(record),
        score_field_of(cache_line(record, score_text)) == match record.blur_score {
            Some(_) => Some(score_text),
            None => None,
        },
{
    let fields = cache_fields(record, score_text);
    lemma_fields_plain(record, score_text, '\t');
    lemma_split_fields(fields);
    law_unescape_undoes_escape(record.path);
    law_parse_undoes_decimal(record.size_bytes as nat, u64::MAX as nat);
    law_parse_undoes_decimal(record.modified_at as nat, u64::MAX as nat);
    law_parse_undoes_decimal(record.width as nat, u32::MAX as nat);
    law_parse_undoes_decimal(record.height as nat, u32::MAX as nat);
    if record.perceptual_hash is Some {
        law_parse_undoes_decimal(record.perceptual_hash->0 as nat, u64::MAX as nat);
        lemma_decimal_plain(record.perceptual_hash->0 as nat, '\t');
    }
    assert(parsed_line(cache_line(record, score_text), record.blur_score)->0 =~= record);
}

/// Joined fields hold only what the fields and the tabs hold, and end as the last field
/// ends, or with a tab.
proof fn lemma_joined_plain(fields: Seq<Seq<char>>, c: char)
    requires
        fields.len() >= 1,
        c != '\t',
        forall|k: int| 0 <= k < fields.len() ==> !(#[trigger] fields[k]).contains(c),
    ensures
        !tab_joined(fields).contains(c),
    decreases fields.len(),
{
    if fields.len() > 1 {
        let front = fields.drop_last();
        assert forall|k: int| 0 <= k < front.len() implies !(#[trigger] front[k]).contains(c) by {
            assert(front[k] == fields[k]);
        }
        lemma_joined_plain(front, c);
        let start = tab_joined(front);
        let last = fields[fields.len() - 1];
        assert(!last.contains(c));
        assert forall|k: int| 0 <= k < tab_joined(fields).len() implies tab_joined(fields)[k]
            != c by {
            if k < start.len() {
                assert(tab_joined(fields)[k] == start[k]);
            } else if k > start.len() {
                assert(tab_joined(fields)[k] == last[k - start.len() - 1]);
            }
        }
    }
}

/// A storable record's line is one line: it holds no line feed, and does not end with a
/// carriage return.
proof fn lemma_line_is_one_line(record: RecordView, score_text: Seq<char>)
    requires
        is_storable(record),
        record.blur_score is Some ==> is_score_text(score_text),
    ensures
        !cache_line(record, score_text).contains('\n'),
        without_carriage_return(cache_line(record, score_text)) == cache_line(record, score_text),
        cache_line(record, score_text).len() > 0,
{
    let fields = cache_fields(record, score_text);
    lemma_fields_plain(record, score_text, '\n');
    lemma_joined_plain(fields, '\n');
    let last = fields.last();
    let line = cache_line(record, score_text);
    assert(line == tab_joined(fields.drop_last()) + seq!['\t'] + last);
    if last.len() > 0 {
        lemma_decimal_digits(record.perceptual_hash->0 as nat);
        assert(is_digit(last[last.len() - 1]));
        assert(line.last() == last[last.len() - 1]);
    } else {
        assert(line.last() == '\t');
    }
}

/// The lines of a cache file, one per record.
proof fn lemma_lines_of_cache(records: Seq<RecordView>, score_texts: Seq<Seq<char>>)
    requires
        forall|k: int| 0 <= k < records.len() ==> is_storable(#[trigger] records[k]),
        forall|k: int|
            0 <= k < records.len() && (#[trigger] records[k]).blur_score is Some ==> is_score_text(
                entry_or(score_texts, k, Seq::empty()),
            ),
    ensures
        split_on(cache_text(records, score_texts), '\n') == Seq::new(
            records.len(),
            |k: int| cache_line(records[k], entry_or(score_texts, k, Seq::empty())),
        ).push(Seq::empty()),
    decreases records.len(),
{
    let lines = Seq::new(
        records.len(),
        |k: int| cache_line(records[k], entry_or(score_texts, k, Seq::empty())),
    );
    if records.len() == 0 {
        assert(split_on(cache_text(records, score_texts), '\n') =~= lines.push(Seq::empty()));
    } else {
        let front = records.drop_last();
        assert forall|k: int| 0 <= k < front.len() implies is_storable(#[trigger] front[k]) by {
            assert(front[k] == records[k]);
        }
        assert forall|k: int|
            0 <= k < front.len() && (#[trigger] front[k]).blur_score is Some implies is_score_text(
            entry_or(score_texts, k, Seq::empty()),
        ) by {
            assert(front[k] == records[k]);
        }
        lemma_lines_of_cache(front, score_texts);
        let n = records.len() - 1;
        let line = cache_line(records[n], entry_or(score_texts, n, Seq::empty()));
        lemma_line_is_one_line(records[n], entry_or(score_texts, n, Seq::empty()));
        lemma_split_ends_empty(cache_text(front, score_texts), line);
        let earlier = split_on(cache_text(front, score_texts), '\n');
        assert(earlier.drop_last() =~= lines.drop_last());
        assert(cache_text(records, score_texts) =~= cache_text(front, score_texts) + line + seq![
            '\n',
        ]);
        assert(split_on(cache_text(records, score_texts), '\n') =~= lines.push(Seq::empty()));
    }
}

/// Adding a whole line to a text of whole lines adds one piece.
proof fn lemma_split_ends_empty(text: Seq<char>, line: Seq<char>)
    requires
        split_on(text, '\n').last().len() == 0,
        !line.contains('\n'),
    ensures
        split_on(text + line + seq!['\n'], '\n') == split_on(text, '\n').drop_last().push(
            line,
        ).push(Seq::empty()),
{
    lemma_split_not_empty(text, '\n');
    lemma_split_extended(text, line);
    let longer = text + line;
    assert((longer + seq!['\n']).drop_last() =~= longer);
    let pieces = split_on(text, '\n');
    assert(pieces.last() + line =~= line);
    assert(split_on(longer + seq!['\n'], '\n') =~= pieces.drop_last().push(line).push(
        Seq::empty(),
    ));
}

/// Characters other than line feeds belong to the last piece.
proof fn lemma_split_extended(text: Seq<char>, tail: Seq<char>)
    requires
        !tail.contains('\n'),
    ensures
        split_on(text + tail, '\n') == split_on(text, '\n').drop_last().push(
            split_on(text, '\n').last() + tail,
        ),
    decreases tail.len(),
{
    lemma_split_not_empty(text, '\n');
    let pieces = split_on(text, '\n');
    if tail.len() == 0 {
        assert(text + tail =~= text);
        assert(pieces.last() + tail =~= pieces.last());
        assert(pieces.drop_last().push(pieces.last()) =~= pieces);
    } else {
        let shorter = tail.drop_last();
        assert forall|k: int| 0 <= k < shorter.len() implies shorter[k] != '\n' by {
            assert(tail[k] == shorter[k]);
        }
        lemma_split_extended(text, shorter);
        assert(tail[tail.len() - 1] != '\n');
        assert((text + tail).drop_last() =~= text + shorter);
        assert((text + tail).last() == tail.last());
        let before = split_on(text + shorter, '\n');
        assert(before.drop_last() =~= pieces.drop_last());
        assert((pieces.last() + shorter).push(tail.last()) =~= pieces.last() + tail);
    }
}

/// A cache file that was written reads back as the records that were written, the last one
/// for each path, and hands out the texts of their scores.
pub proof fn law_cache_round_trip(
    records: Seq<RecordView>,
    score_texts: Seq<Seq<char>>,
    scores: Seq<Option<u64>>,
)
    requires
        forall|k: int| 0 <= k < records.len() ==> is_storable(#[trigger] records[k]),
        forall|k: int|
            0 <= k < records.len() && (#[trigger] records[k]).blur_score is Some ==> is_score_text(
                entry_or(score_texts, k, Seq::empty()),
            ),
        forall|k: int|
            0 <= k < records.len() ==> entry_or(scores, k, None) == (#[trigger] records[k]).blur_score,
    ensures
        loaded(cache_text(records, score_texts), scores) == by_path(records),
        text_lines(cache_text(records, score_texts)).len() == records.len(),
        forall|k: int|
            0 <= k < records.len() ==> #[trigger] score_field_of(
                text_lines(cache_text(records, score_texts))[k],
            ) == match records[k].blur_score {
                Some(_) => Some(entry_or(score_texts, k, Seq::empty())),
                None => None,
            },
{
    let content = cache_text(records, score_texts);
    let lines = Seq::new(
        records.len(),
        |k: int| cache_line(records[k], entry_or(score_texts, k, Seq::empty())),
    );
    lemma_lines_of_cache(records, score_texts);
    let pieces = split_on(content, '\n');
    assert(pieces.drop_last() =~= lines);
    assert(pieces.last() == Seq::<char>::empty());
    let ended = pieces.drop_last().map_values(|line: Seq<char>| without_carriage_return(line));
    assert forall|k: int| 0 <= k < lines.len() implies #[trigger] ended[k] == lines[k] by {
        lemma_line_is_one_line(records[k], entry_or(score_texts, k, Seq::empty()));
    }
    assert(ended =~= lines);
    assert(text_lines(content) == lines);
    lemma_loaded_lines(records, score_texts, scores, lines, records.len());
    assert(records.take(records.len() as int) =~= records);
    assert forall|k: int| 0 <= k < records.len() implies #[trigger] score_field_of(
        text_lines(content)[k],
    ) == match records[k].blur_score {
        Some(_) => Some(entry_or(score_texts, k, Seq::empty())),
        None => None,
    } by {
        law_line_round_trip(records[k], entry_or(score_texts, k, Seq::empty()));
    }
}

proof fn lemma_loaded_lines(
    records: Seq<RecordView>,
    score_texts: Seq<Seq<char>>,
    scores: Seq<Option<u64>>,
    lines: Seq<Seq<char>>,
    n: nat,
)
    requires
        n <= records.len(),
        forall|k: int| 0 <= k < records.len() ==> is_storable(#[trigger] records[k]),
        forall|k: int|
            0 <= k < records.len() && (#[trigger] records[k]).blur_score is Some ==> is_score_text(
                entry_or(score_texts, k, Seq::empty()),
            ),
        forall|k: int|
            0 <= k < records.len() ==> entry_or(scores, k, None) == (#[trigger] records[k]).blur_score,
        lines == Seq::new(
            records.len(),
            |k: int| cache_line(records[k], entry_or(score_texts, k, Seq::empty())),
        ),
    ensures
        loaded_lines(lines, scores, n) == by_path(records.take(n as int)),
    decreases n,
{
    if n > 0 {
        lemma_loaded_lines(records, score_texts, scores, lines, (n - 1) as nat);
        law_line_round_trip(records[n - 1], entry_or(score_texts, n - 1, Seq::empty()));
        assert(records.take(n as int).drop_last() =~= records.take(n - 1));
        assert(records.take(n as int).last() == records[n - 1]);
    }
}

/// Every record that a cache file gives can be stored again.
pub proof fn law_loaded_records_are_storable(content: Seq<char>, scores: Seq<Option<u64>>)
    ensures
        forall|path: Seq<char>|
            loaded(content, scores).contains_key(path) ==> is_storable(
                #[trigger] loaded(content, scores)[path],
            ) && loaded(content, scores)[path].path == path,
{
    let lines = text_lines(content);
    lemma_split_pieces_clean(content, '\n');
    lemma_split_not_empty(content, '\n');
    let pieces = split_on(content, '\n');
    assert forall|k: int| 0 <= k < lines.len() implies !(#[trigger] lines[k]).contains('\n') by {
        let piece = pieces[k];
        assert(!piece.contains('\n'));
        assert forall|m: int| 0 <= m < lines[k].len() implies lines[k][m] != '\n' by {
            assert(lines[k][m] == piece[m]);
        }
    }
    lemma_loaded_storable(lines, scores, lines.len());
}

proof fn lemma_loaded_storable(lines: Seq<Seq<char>>, scores: Seq<Option<u64>>, n: nat)
    requires
        n <= lines.len(),
        forall|k: int| 0 <= k < lines.len() ==> !(#[trigger] lines[k]).contains('\n'),
    ensures
        forall|path: Seq<char>|
            loaded_lines(lines, scores, n).contains_key(path) ==> is_storable(
                #[trigger] loaded_lines(lines, scores, n)[path],
            ) && loaded_lines(lines, scores, n)[path].path == path,
    decreases n,
{
    if n > 0 {
        lemma_loaded_storable(lines, scores, (n - 1) as nat);
        let line = lines[n - 1];
        lemma_split_pieces_clean(line, '\t');
        let parts = split_on(line, '\t');
        if parts.len() == 8 {
            lemma_piece_within(line, '\t', 3, '\n');
            assert(!parts[3].contains('\t'));
        }
    }
}

/// A piece of a text holds nothing that the text does not hold.
proof fn lemma_piece_within(text: Seq<char>, separator: char, k: int, c: char)
    requires
        0 <= k < split_on(text, separator).len(),
        !text.contains(c),
    ensures
        !split_on(text, separator)[k].contains(c),
    decreases text.len(),
{
    if text.len() > 0 {
        let shorter = text.drop_last();
        assert forall|m: int| 0 <= m < shorter.len() implies shorter[m] != c by {
            assert(text[m] == shorter[m]);
        }
        lemma_split_not_empty(shorter, separator);
        let before = split_on(shorter, separator);
        assert(text[text.len() - 1] != c);
        if k < before.len() {
            lemma_piece_within(shorter, separator, k, c);
            let piece = split_on(text, separator)[k];
            assert forall|m: int| 0 <= m < piece.len() implies piece[m] != c by {
                if m < before[k].len() {
                    assert(piece[m] == before[k][m]);
                }
            }
        }
    }
}

/// Of the records for one path, the last one counts.
pub proof fn law_last_record_counts(records: Seq<RecordView>, i: int)
    requires
        0 <= i < records.len(),
        forall|j: int| i < j < records.len() ==> (#[trigger] records[j]).path != records[i].path,
    ensures
        by_path(records).contains_key(records[i].path),
        by_path(records)[records[i].path] == records[i],
    decreases records.len(),
{
    let shorter = records.drop_last();
    if i < records.len() - 1 {
        assert(records[records.len() - 1].path != records[i].path);
        assert forall|j: int| i < j < shorter.len() implies (#[trigger] shorter[j]).path
            != shorter[i].path by {
            assert(shorter[j] == records[j]);
        }
        assert(shorter[i] == records[i]);
        law_last_record_counts(shorter, i);
    }
}

/// The layout of a record's line: the path as it is escaped, the size, the time of change, the
/// hash, the width, the height, the score and the perceptual hash, with tabs between them.
/// What is missing is left empty.
pub proof fn law_layout_of_a_line(record: RecordView, score_text: Seq<char>)
    ensures
        cache_line(record, score_text) == escaped(record.path) + seq!['\t'] + decimal(
            record.size_bytes as nat,
        ) + seq!['\t'] + decimal(record.modified_at as nat) + seq!['\t'] + record.content_hash
            + seq!['\t'] + decimal(record.width as nat) + seq!['\t'] + decimal(
            record.height as nat,
        ) + seq!['\t'] + (if record.blur_score is Some {
            score_text
        } else {
            Seq::empty()
        }) + seq!['\t'] + (if record.perceptual_hash is Some {
            decimal(record.perceptual_hash->0 as nat)
        } else {
            Seq::empty()
        }),
{
    lemma_eight_joined(cache_fields(record, score_text));
}

/// What is read from a line: a record exactly if it has eight fields and the second, the
/// third, the fifth and the sixth are numbers of their widths, with each field in its place.
pub proof fn law_reading_of_a_line(line: Seq<char>, score: Option<u64>)
    ensures
        ({
            let parts = split_on(line, '\t');
            &&& parsed_line(line, score) is Some <==> parts.len() == 8 && parsed_number(
                parts[1],
                0xffff_ffff_ffff_ffff,
            ) is Some && parsed_number(parts[2], 0xffff_ffff_ffff_ffff) is Some && parsed_number(
                parts[4],
                0xffff_ffff,
            ) is Some && parsed_number(parts[5], 0xffff_ffff) is Some
            &&& parsed_line(line, score) matches Some(record) ==> {
                &&& record.path == unescaped(parts[0])
                &&& Some(record.size_bytes as nat) == parsed_number(parts[1], 0xffff_ffff_ffff_ffff)
                &&& Some(record.modified_at as nat) == parsed_number(
                    parts[2],
                    0xffff_ffff_ffff_ffff,
                )
                &&& record.content_hash == parts[3]
                &&& Some(record.width as nat) == parsed_number(parts[4], 0xffff_ffff)
                &&& Some(record.height as nat) == parsed_number(parts[5], 0xffff_ffff)
                &&& record.blur_score == if parts[6].len() == 0 {
                    None
                } else {
                    score
                }
                &&& match record.perceptual_hash {
                    Some(hash) => parsed_number(parts[7], 0xffff_ffff_ffff_ffff) == Some(
                        hash as nat,
                    ),
                    None => parsed_number(parts[7], 0xffff_ffff_ffff_ffff) is None,
                }
            }
            &&& score_field_of(line) == if parts.len() == 8 && parts[6].len() > 0 {
                Some(parts[6])
            } else {
                None::<Seq<char>>
            }
        }),
{
}

/// A cache file grows line by line, each with the text of its own score and a line feed.
pub proof fn law_cache_file_line_by_line(
    records: Seq<RecordView>,
    score_texts: Seq<Seq<char>>,
    record: RecordView,
)
    ensures
        cache_text(Seq::empty(), score_texts) == Seq::<char>::empty(),
        cache_text(records.push(record), score_texts) == cache_text(records, score_texts)
            + cache_line(
            record,
            if records.len() < score_texts.len() {
                score_texts[records.len() as int]
            } else {
                Seq::empty()
            },
        ) + seq!['\n'],
{
    assert(records.push(record).drop_last() =~= records);
}

/// The record that a line of a cache file stands for, with the score of that line.
spec fn line_record(lines: Seq<Seq<char>>, scores: Seq<Option<u64>>, i: int) -> Option<RecordView> {
    parsed_line(
        lines[i],
        if i < scores.len() {
            scores[i]
        } else {
            None
        },
    )
}

proof fn lemma_loaded_by_line(
    lines: Seq<Seq<char>>,
    scores: Seq<Option<u64>>,
    n: nat,
    path: Seq<char>,
)
    requires
        n <= lines.len(),
    ensures
        loaded_lines(lines, scores, n).contains_key(path) ==> exists|i: int|
            0 <= i < n && (#[trigger] line_record(lines, scores, i)) is Some && line_record(
                lines,
                scores,
                i,
            )->0.path == path,
        forall|i: int|
            0 <= i < n && (#[trigger] line_record(lines, scores, i)) is Some && line_record(
                lines,
                scores,
                i,
            )->0.path == path && (forall|j: int|
                i < j < n && (#[trigger] line_record(lines, scores, j)) is Some ==> line_record(
                    lines,
                    scores,
                    j,
                )->0.path != path) ==> loaded_lines(lines, scores, n).contains_key(path)
                && loaded_lines(lines, scores, n)[path] == line_record(lines, scores, i)->0,
    decreases n,
{
    if n > 0 {
        lemma_loaded_by_line(lines, scores, (n - 1) as nat, path);
        let last = line_record(lines, scores, n - 1);
        assert(last == parsed_line(lines[n - 1], entry_or(scores, n - 1, None)));
        assert forall|i: int|
            0 <= i < n && (#[trigger] line_record(lines, scores, i)) is Some && line_record(
                lines,
                scores,
                i,
            )->0.path == path && (forall|j: int|
                i < j < n && (#[trigger] line_record(lines, scores, j)) is Some ==> line_record(
                    lines,
                    scores,
                    j,
                )->0.path != path) implies loaded_lines(lines, scores, n).contains_key(path)
            && loaded_lines(lines, scores, n)[path] == line_record(lines, scores, i)->0 by {
            if i < n - 1 {
                assert(last is Some ==> last->0.path != path);
            }
        }
    }
}

/// A cache file holds a record for a path exactly if one of its lines stands for one, and
/// then it is that of the last such line, with the score that belongs to that line.
pub proof fn law_last_line_for_a_path_counts(
    content: Seq<char>,
    scores: Seq<Option<u64>>,
    path: Seq<char>,
    i: int,
)
    requires
        0 <= i < text_lines(content).len(),
    ensures
        loaded(content, scores).contains_key(path) ==> exists|k: int|
            0 <= k < text_lines(content).len() && (parsed_line(
                #[trigger] text_lines(content)[k],
                if k < scores.len() {
                    scores[k]
                } else {
                    None
                },
            ) matches Some(record) && record.path == path),
        parsed_line(
            text_lines(content)[i],
            if i < scores.len() {
                scores[i]
            } else {
                None
            },
        ) matches Some(record) ==> record.path == path && (forall|j: int|
            i < j < text_lines(content).len() ==> (parsed_line(
                #[trigger] text_lines(content)[j],
                if j < scores.len() {
                    scores[j]
                } else {
                    None
                },
            ) matches Some(later) ==> later.path != path)) ==> loaded(
            content,
            scores,
        ).contains_key(path) && loaded(content, scores)[path] == record,
{
    let lines = text_lines(content);
    lemma_loaded_by_line(lines, scores, lines.len(), path);
    if loaded(content, scores).contains_key(path) {
        let k = choose|k: int|
            0 <= k < lines.len() && (#[trigger] line_record(lines, scores, k)) is Some
                && line_record(lines, scores, k)->0.path == path;
        assert(text_lines(content)[k] == lines[k]);
    }
    if let Some(record) = line_record(lines, scores, i) {
        if record.path == path && (forall|j: int|
            i < j < text_lines(content).len() ==> (parsed_line(
                #[trigger] text_lines(content)[j],
                if j < scores.len() {
                    scores[j]
                } else {
                    None
                },
            ) matches Some(later) ==> later.path != path)) {
            assert forall|j: int|
                i < j < lines.len() && (#[trigger] line_record(
                    lines,
                    scores,
                    j,
                )) is Some implies line_record(lines, scores, j)->0.path != path by {
                assert(text_lines(content)[j] == lines[j]);
            }
        }
    }
}

/// An empty cache file holds nothing.
pub proof fn law_empty_cache_file_holds_nothing(scores: Seq<Option<u64>>)
    ensures
        loaded(Seq::empty(), scores) == Map::<Seq<char>, RecordView>::empty(),
{
    assert(split_on(Seq::empty(), '\n') =~= seq![Seq::<char>::empty()]);
    assert(text_lines(Seq::empty()).len() == 0);
}

/// Records by path hold nothing but records of the list, each under its own path.
pub proof fn law_records_by_path_are_of_the_list(records: Seq<RecordView>, path: Seq<char>)
    requires
        by_path(records).contains_key(path),
    ensures
        exists|i: int|
            0 <= i < records.len() && (#[trigger] records[i]).path == path && by_path(records)[path]
                == records[i],
    decreases records.len(),
{
    if records.len() > 0 {
        let shorter = records.drop_last();
        let last = records[records.len() - 1];
        if last.path == path {
            assert(by_path(records)[path] == last);
        } else {
            law_records_by_path_are_of_the_list(shorter, path);
            let i = choose|i: int|
                0 <= i < shorter.len() && (#[trigger] shorter[i]).path == path && by_path(
                    shorter,
                )[path] == shorter[i];
            assert(records[i] == shorter[i]);
        }
    }
}

/// The contents of a table are the contents of its records, under the same paths.
pub proof fn law_table_view_holds_every_record(table: Map<Seq<char>, CacheRecord>, path: Seq<char>)
    ensures
        table_view(table).contains_key(path) <==> table.contains_key(path),
        table.contains_key(path) ==> table_view(table)[path] == table[path]@,
{
}

/// The contents of optional texts are their characters, one by one.
pub proof fn law_optional_views_hold_every_text(texts: Seq<Option<String>>)
    ensures
        optional_views(texts).len() == texts.len(),
        forall|k: int|
            0 <= k < texts.len() ==> (#[trigger] optional_views(texts)[k]) == match texts[k] {
                Some(text) => Some(text@),
                None => None,
            },
{
}

} // verus!
