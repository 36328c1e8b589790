//! The records of an input, grouped by country.

use crate::error::{ParseError, ReadError};
use crate::keys::{first_seen, lemma_first_seen, KeyIndex};
use crate::record::{parse_row, record_views, row_of, Record, RecordView, Row};
use crate::text::{
    cut_point, find_line_end, lemma_cut_after_single_byte, lemma_lines_from, lines, lines_from,
    piece, CARRIAGE_RETURN,
};
use vstd::prelude::*;
use vstd::string::StringSliceAdditionalSpecFns;
use vstd::utf8::*;

verus! {

/// A country with its records.
pub struct Group {
    pub country: Seq<char>,
    pub records: Seq<RecordView>,
}

/// The countries of some rows.
pub open spec fn countries(rows: Seq<Row>) -> Seq<Seq<char>> {
    Seq::new(rows.len(), |i: int| rows[i].country)
}

/// The records of the rows of one country, in the order of the rows.
pub open spec fn records_of(rows: Seq<Row>, country: Seq<char>) -> Seq<RecordView>
    decreases rows.len(),
{
    if rows.len() == 0 {
        Seq::empty()
    } else {
        let before = records_of(rows.drop_last(), country);
        if rows.last().country == country {
            before.push(rows.last().record)
        } else {
            before
        }
    }
}

/// The rows grouped by country: one group for each country, in the order in
/// which the countries first appear, with the records of that country's rows.
pub open spec fn grouped(rows: Seq<Row>) -> Seq<Group> {
    let keys = first_seen(countries(rows));
    Seq::new(keys.len(), |i: int| Group { country: keys[i], records: records_of(rows, keys[i]) })
}

/// Whether one of the groups is that of `country`.
pub open spec fn has_country(groups: Seq<Group>, country: Seq<char>) -> bool {
    exists|i: int| 0 <= i < groups.len() && #[trigger] groups[i].country == country
}

/// The place of the group of `country`.
pub open spec fn place_of(groups: Seq<Group>, country: Seq<char>) -> int {
    choose|i: int| 0 <= i < groups.len() && #[trigger] groups[i].country == country
}

/// The groups with one more record: at the end of the group of its country,
/// or, where the country has none yet, as a new last group.
pub open spec fn with_record(groups: Seq<Group>, country: Seq<char>, record: RecordView) -> Seq<
    Group,
> {
    if has_country(groups, country) {
        let place = place_of(groups, country);
        groups.update(place, Group { country, records: groups[place].records.push(record) })
    } else {
        groups.push(Group { country, records: seq![record] })
    }
}

/// The number of records in all groups together.
pub open spec fn total_records(groups: Seq<Group>) -> nat
    decreases groups.len(),
{
    if groups.len() == 0 {
        0
    } else {
        total_records(groups.drop_last()) + groups.last().records.len()
    }
}

/// Records grouped by country. No country has two groups, and no group is
/// empty.
#[derive(Debug)]
pub struct Data {
    names: KeyIndex,
    groups: Vec<Vec<Record>>,
}

impl Data {
    #[verifier::type_invariant]
    spec fn one_group_per_name(self) -> bool {
        &&& self.names@.len() == self.groups@.len()
        &&& self.names@.no_duplicates()
        &&& forall|i: int| 0 <= i < self.groups@.len() ==> (#[trigger] self.groups@[i])@.len() > 0
    }

    /// The groups, in the order in which their countries were first added.
    pub closed spec fn view(&self) -> Seq<Group> {
        Seq::new(
            self.groups@.len(),
            |i: int| Group { country: self.names@[i], records: record_views(self.groups@[i]@) },
        )
    }

    /// A dataset without records.
    pub fn new() -> (data: Self)
        ensures
            data@ == Seq::<Group>::empty(),
    {
        Data { names: KeyIndex::new(), groups: Vec::new() }
    }

    /// Adds a record to the group of its country.
    pub fn insert(&mut self, country: &str, record: Record)
        ensures
            final(self)@ == with_record(old(self)@, country@, record@),
    {
        proof {
            use_type_invariant(&*self);
        }
        let mut taken = Data::new();
        std::mem::swap(self, &mut taken);
        let Data { mut names, mut groups } = taken;
        let ghost before = old(self)@;
        let slot: usize = names.intern(country);
        if slot < groups.len() {
            proof {
                assert(before[slot as int].country == country@);
                assert forall|i: int|
                    0 <= i < before.len() && #[trigger] before[i].country == country@ implies i
                    == slot by {}
            }
            groups[slot].push(record);
        } else {
            proof {
                if has_country(before, country@) {
                    let i = place_of(before, country@);
                    assert(old(self).names@[i] == country@);
                }
            }
            let mut fresh: Vec<Record> = Vec::new();
            fresh.push(record);
            groups.push(fresh);
        }
        *self = Data { names, groups };
        proof {
            assert(self@ =~= with_record(before, country@, record@)) by {
                if slot < before.len() {
                    assert(record_views(self.groups@[slot as int]@) =~= before[slot as int].records.push(
                        record@,
                    ));
                } else {
                    assert(record_views(self.groups@[slot as int]@) =~= seq![record@]);
                }
            }
        }
    }

    /// The number of countries.
    pub fn len(&self) -> (len: usize)
        ensures
            len == self@.len(),
    {
        proof {
            use_type_invariant(self);
        }
        self.groups.len()
    }

    /// The country of group `place`.
    pub fn country(&self, place: usize) -> (country: &str)
        requires
            place < self@.len(),
        ensures
            country@ == self@[place as int].country,
    {
        proof {
            use_type_invariant(self);
        }
        self.names.key(place)
    }

    /// The records of group `place`, of which there is at least one.
    pub fn records(&self, place: usize) -> (records: &Vec<Record>)
        requires
            place < self@.len(),
        ensures
            record_views(records@) == self@[place as int].records,
            records@.len() > 0,
    {
        proof {
            use_type_invariant(self);
        }
        &self.groups[place]
    }

    /// The place of the group of `country`, if there is one.
    pub fn find(&self, country: &str) -> (place: Option<usize>)
        ensures
            match place {
                Some(place) => place < self@.len() && self@[place as int].country == country@,
                None => !has_country(self@, country@),
            },
    {
        proof {
            use_type_invariant(self);
        }
        let place = self.names.find(country);
        proof {
            if place is None && has_country(self@, country@) {
                let i = place_of(self@, country@);
                assert(self.names@[i] == country@);
            }
        }
        place
    }
}

/// Whether each line after the header and before line `upto` is a row.
pub open spec fn rows_before(lines: Seq<Seq<u8>>, upto: int) -> bool {
    forall|i: int| 1 <= i < upto ==> (#[trigger] row_of(lines[i])) is Ok
}

/// Whether each line after the header is a row.
pub open spec fn all_rows(lines: Seq<Seq<u8>>) -> bool {
    rows_before(lines, lines.len() as int)
}

/// The rows of the lines after the header and before line `upto`.
pub open spec fn rows_upto(lines: Seq<Seq<u8>>, upto: int) -> Seq<Row> {
    Seq::new(
        if upto > 1 {
            (upto - 1) as nat
        } else {
            0
        },
        |i: int| row_of(lines[i + 1])->Ok_0,
    )
}

/// The rows of an input: what its lines after the first, the header, hold.
pub open spec fn data_rows(lines: Seq<Seq<u8>>) -> Seq<Row> {
    rows_upto(lines, lines.len() as int)
}

/// Whether `error` tells the first line after the header that is no row, and
/// what is wrong with it.
pub open spec fn first_error(lines: Seq<Seq<u8>>, error: ParseError) -> bool {
    &&& 1 <= error.line < lines.len()
    &&& rows_before(lines, error.line as int)
    &&& row_of(lines[error.line as int]) == Err::<Row, _>(error.kind)
}

/// Adding the record of one more row to the groups of some rows gives the
/// groups of all of them.
pub proof fn lemma_grouped_push(rows: Seq<Row>, row: Row)
    ensures
        grouped(rows.push(row)) == with_record(grouped(rows), row.country, row.record),
{
    let more = rows.push(row);
    let keys = first_seen(countries(rows));
    let groups = grouped(rows);
    assert(more.drop_last() =~= rows);
    assert(countries(more).drop_last() =~= countries(rows));
    lemma_first_seen(countries(rows));
    if keys.contains(row.country) {
        let slot = choose|i: int| 0 <= i < keys.len() && keys[i] == row.country;
        assert(groups[slot].country == row.country);
        let place = place_of(groups, row.country);
        assert(keys[place] == row.country);
    } else {
        if has_country(groups, row.country) {
            let place = place_of(groups, row.country);
            assert(keys[place] == row.country);
        }
        lemma_records_of_absent(rows, row.country);
    }
    assert(grouped(more) =~= with_record(groups, row.country, row.record));
}

/// A country that no row names has no records.
pub proof fn lemma_records_of_absent(rows: Seq<Row>, country: Seq<char>)
    requires
        !countries(rows).contains(country),
    ensures
        records_of(rows, country) == Seq::<RecordView>::empty(),
    decreases rows.len(),
{
    if rows.len() > 0 {
        assert(countries(rows)[rows.len() - 1] == rows.last().country);
        assert forall|i: int| 0 <= i < rows.len() - 1 implies countries(rows.drop_last())[i]
            != country by {
            assert(countries(rows)[i] == rows[i].country);
        }
        lemma_records_of_absent(rows.drop_last(), country);
    }
}

/// Putting another group in the place of one changes the number of records
/// by the difference of the two.
proof fn lemma_total_records_update(groups: Seq<Group>, place: int, group: Group)
    requires
        0 <= place < groups.len(),
    ensures
        total_records(groups.update(place, group)) == total_records(groups)
            - groups[place].records.len() + group.records.len(),
    decreases groups.len(),
{
    let updated = groups.update(place, group);
    if place == groups.len() - 1 {
        assert(updated.drop_last() =~= groups.drop_last());
    } else {
        assert(updated.drop_last() =~= groups.drop_last().update(place, group));
        lemma_total_records_update(groups.drop_last(), place, group);
    }
}

/// One more record is one more record in all groups together.
pub proof fn lemma_total_records_with_record(
    groups: Seq<Group>,
    country: Seq<char>,
    record: RecordView,
)
    ensures
        total_records(with_record(groups, country, record)) == total_records(groups) + 1,
{
    if has_country(groups, country) {
        let place = place_of(groups, country);
        lemma_total_records_update(
            groups,
            place,
            Group { country, records: groups[place].records.push(record) },
        );
    } else {
        let group = Group { country, records: seq![record] };
        assert(groups.push(group).drop_last() =~= groups);
    }
}

/// Grouping neither drops nor repeats a record: the groups hold as many
/// records as there are rows.
pub proof fn lemma_grouped_keeps_count(rows: Seq<Row>)
    ensures
        total_records(grouped(rows)) == rows.len(),
    decreases rows.len(),
{
    if rows.len() == 0 {
        assert(grouped(rows) =~= Seq::<Group>::empty());
    } else {
        let head = rows.drop_last();
        assert(head.push(rows.last()) =~= rows);
        lemma_grouped_keeps_count(head);
        lemma_grouped_push(head, rows.last());
        lemma_total_records_with_record(grouped(head), rows.last().country, rows.last().record);
    }
}

/// The record of each row stands among the records of the country that the
/// row names.
pub proof fn lemma_record_is_grouped(rows: Seq<Row>, at: int)
    requires
        0 <= at < rows.len(),
    ensures
        records_of(rows, rows[at].country).contains(rows[at].record),
    decreases rows.len(),
{
    let country = rows[at].country;
    let before = records_of(rows.drop_last(), country);
    if at == rows.len() - 1 {
        assert(before.push(rows[at].record)[before.len() as int] == rows[at].record);
    } else {
        lemma_record_is_grouped(rows.drop_last(), at);
        let i = choose|i: int| 0 <= i < before.len() && before[i] == rows[at].record;
        assert(records_of(rows, country)[i] == rows[at].record);
    }
}

/// How rows are grouped: no country has two groups, every country that a row
/// names has one, and each group holds the records of the rows of its
/// country, in their order, of which there is at least one.
pub proof fn lemma_grouped(rows: Seq<Row>)
    ensures
        forall|i: int, j: int|
            0 <= i < j < grouped(rows).len() ==> grouped(rows)[i].country != grouped(
                rows,
            )[j].country,
        forall|at: int|
            0 <= at < rows.len() ==> has_country(grouped(rows), #[trigger] rows[at].country),
        forall|i: int|
            0 <= i < grouped(rows).len() ==> (#[trigger] grouped(rows)[i]).records == records_of(
                rows,
                grouped(rows)[i].country,
            ) && grouped(rows)[i].records.len() > 0,
{
    let keys = first_seen(countries(rows));
    let groups = grouped(rows);
    lemma_first_seen(countries(rows));
    assert forall|at: int| 0 <= at < rows.len() implies has_country(
        groups,
        #[trigger] rows[at].country,
    ) by {
        assert(countries(rows)[at] == rows[at].country);
        assert(countries(rows).contains(rows[at].country));
        assert(keys.contains(rows[at].country));
        let i = choose|i: int| 0 <= i < keys.len() && keys[i] == rows[at].country;
        assert(groups[i].country == rows[at].country);
    }
    assert forall|i: int| 0 <= i < groups.len() implies (#[trigger] groups[i]).records.len()
        > 0 by {
        assert(keys.contains(keys[i]));
        assert(countries(rows).contains(keys[i]));
        let at = choose|at: int|
            0 <= at < countries(rows).len() && countries(rows)[at] == keys[i];
        lemma_record_is_grouped(rows, at);
    }
}

/// Reads a text as a dataset. The first line is the header and is passed
/// over; every other line must be a row. There is a dataset if and only if
/// they all are, and the error tells the first line that is not.
pub fn parse_data(text: &str) -> (parsed: Result<Data, ParseError>)
    ensures
        parsed is Ok <==> all_rows(lines(text.spec_bytes())),
        match parsed {
            Ok(data) => data@ == grouped(data_rows(lines(text.spec_bytes())))
                && total_records(data@) == data_rows(lines(text.spec_bytes())).len(),
            Err(error) => first_error(lines(text.spec_bytes()), error),
        },
{
    let bytes = text.as_bytes();
    let ghost all = lines(bytes@);
    let mut data = Data::new();
    let mut start: usize = 0;
    let mut count: usize = 0;
    proof {
        encode_utf8_valid_utf8(text@);
        if bytes@.len() > 0 {
            is_char_boundary_iff_not_is_continuation_byte(bytes@, 0);
        }
        assert(all.skip(0) =~= all);
        assert(grouped(rows_upto(all, 0)) =~= Seq::<Group>::empty());
    }
    while start < bytes.len()
        invariant
            bytes@ == text.spec_bytes(),
            valid_utf8(bytes@),
            all == lines(bytes@),
            start <= bytes@.len(),
            count <= start,
            count <= all.len(),
            cut_point(bytes@, start as int),
            lines_from(bytes@, start as int) == all.skip(count as int),
            rows_before(all, count as int),
            data@ == grouped(rows_upto(all, count as int)),
        decreases bytes@.len() - start,
    {
        proof {
            lemma_lines_from(bytes@, start as int);
            assert(all.skip(count as int)[0] == all[count as int]);
            assert(all.skip(count as int).skip(1) =~= all.skip(count + 1));
        }
        let end: usize = find_line_end(bytes, start);
        let stop: usize = if start < end && end < bytes.len() && bytes[end - 1]
            == CARRIAGE_RETURN {
            end - 1
        } else {
            end
        };
        if count > 0 {
            let line: &str = piece(text, start, stop);
            match parse_row(line) {
                Ok((country, record)) => {
                    proof {
                        let row = Row { country: country@, record: record@ };
                        lemma_grouped_push(rows_upto(all, count as int), row);
                        assert(rows_upto(all, count + 1) =~= rows_upto(all, count as int).push(row));
                    }
                    data.insert(country, record);
                },
                Err(kind) => {
                    return Err(ParseError { line: count, kind });
                },
            }
        } else {
            proof {
                assert(rows_upto(all, 1) =~= rows_upto(all, 0));
            }
        }
        count += 1;
        if end < bytes.len() {
            proof {
                lemma_cut_after_single_byte(bytes@, end + 1);
            }
            start = end + 1;
        } else {
            start = end;
        }
    }
    proof {
        lemma_grouped_keeps_count(data_rows(all));
    }
    Ok(data)
}

/// `core::str::from_utf8`: the bytes as text where they are well-formed
/// UTF-8, and `None` where they are not.
#[verifier::external_body]
fn as_text(bytes: &[u8]) -> (text: Option<&str>)
    ensures
        match text {
            Some(text) => text.spec_bytes() == bytes@,
            None => !valid_utf8(bytes@),
        },
{
    core::str::from_utf8(bytes).ok()
}

/// Reads the bytes of an input as a dataset. There is a dataset if and only
/// if the bytes are well-formed UTF-8 and every line after the header is a
/// row. Bytes that are not well-formed are refused before any line is read.
pub fn read_data(input: &[u8]) -> (read: Result<Data, ReadError>)
    ensures
        read is Ok <==> valid_utf8(input@) && all_rows(lines(input@)),
        match read {
            Ok(data) => data@ == grouped(data_rows(lines(input@))) && total_records(data@)
                == data_rows(lines(input@)).len(),
            Err(ReadError::Encoding) => !valid_utf8(input@),
            Err(ReadError::Parse(error)) => valid_utf8(input@) && first_error(lines(input@), error),
        },
{
    match as_text(input) {
        None => Err(ReadError::Encoding),
        Some(text) => {
            proof {
                encode_utf8_valid_utf8(text@);
            }
            match parse_data(text) {
                Ok(data) => Ok(data),
                Err(error) => Err(ReadError::Parse(error)),
            }
        },
    }
}

} // verus!
