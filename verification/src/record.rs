//! One publication record, and the row of text that holds it.

use crate::error::RowError;
use crate::text::{
    decimal, delimiter_at, fields, fields_from, find_field_end, lemma_cut_after_single_byte,
    lemma_fields_from, parse_number, piece,
};
use vstd::prelude::*;
use vstd::slice::slice_subrange;
use vstd::string::StringSliceAdditionalSpecFns;
use vstd::utf8::*;

verus! {

/// One publication.
#[derive(Clone, Debug, PartialEq, Eq)]
pub struct Record {
    pub id: u64,
    pub author_age: u64,
    pub pages: u64,
    pub publication_age: u64,
    pub author_nationality: String,
}

/// A record with its text as characters.
pub struct RecordView {
    pub id: u64,
    pub author_age: u64,
    pub pages: u64,
    pub publication_age: u64,
    pub author_nationality: Seq<char>,
}

impl View for Record {
    type V = RecordView;

    open spec fn view(&self) -> RecordView {
        RecordView {
            id: self.id,
            author_age: self.author_age,
            pages: self.pages,
            publication_age: self.publication_age,
            author_nationality: self.author_nationality@,
        }
    }
}

/// The views of some records.
pub open spec fn record_views(records: Seq<Record>) -> Seq<RecordView> {
    Seq::new(records.len(), |i: int| records[i]@)
}

/// What one line of input says: a record and the country it belongs to.
pub struct Row {
    pub country: Seq<char>,
    pub record: RecordView,
}

/// The number in field `index`: the field must be there and must write one.
pub open spec fn number_at(fields: Seq<Seq<u8>>, index: int) -> Result<u64, RowError> {
    if index >= fields.len() {
        Err(RowError::MissingField)
    } else {
        match decimal(fields[index]) {
            Some(number) => Ok(number),
            None => Err(RowError::InvalidNumber),
        }
    }
}

/// The row that a line holds. Its fields are, in this order, the country, the
/// identifier, the author's age, the pages, the publication's age and the
/// author's nationality; fields after these are not looked at. The fields are
/// taken one after the other, and the first that is missing, or is no number
/// where one is due, decides the error.
pub open spec fn row_of(line: Seq<u8>) -> Result<Row, RowError> {
    let fields = fields(line);
    match number_at(fields, 1) {
        Err(error) => Err(error),
        Ok(id) => match number_at(fields, 2) {
            Err(error) => Err(error),
            Ok(author_age) => match number_at(fields, 3) {
                Err(error) => Err(error),
                Ok(pages) => match number_at(fields, 4) {
                    Err(error) => Err(error),
                    Ok(publication_age) => if fields.len() < 6 {
                        Err(RowError::MissingField)
                    } else {
                        Ok(
                            Row {
                                country: decode_utf8(fields[0]),
                                record: RecordView {
                                    id,
                                    author_age,
                                    pages,
                                    publication_age,
                                    author_nationality: decode_utf8(fields[5]),
                                },
                            },
                        )
                    },
                },
            },
        },
    }
}

/// The first `taken` fields of the line have been read, and the last of them
/// ends at `end`.
spec fn taken_up_to(line: Seq<u8>, taken: int, end: int) -> bool {
    &&& 0 <= end <= line.len()
    &&& 1 <= taken <= fields(line).len()
    &&& if end < line.len() {
        delimiter_at(line, end) && fields(line).skip(taken) == fields_from(line, end + 2)
    } else {
        fields(line).len() == taken
    }
}

/// Reads the number in the field behind the one that ends at `end`.
fn read_number(line: &[u8], end: usize, Ghost(index): Ghost<int>) -> (read: Result<
    (u64, usize),
    RowError,
>)
    requires
        taken_up_to(line@, index, end as int),
    ensures
        match read {
            Ok((number, next_end)) => number_at(fields(line@), index) == Ok::<u64, RowError>(number)
                && taken_up_to(line@, index + 1, next_end as int),
            Err(error) => number_at(fields(line@), index) == Err::<u64, RowError>(error),
        },
{
    if end >= line.len() {
        return Err(RowError::MissingField);
    }
    let start: usize = end + 2;
    proof {
        lemma_fields_from(line@, start as int);
        assert(fields(line@).skip(index)[0] == fields(line@)[index]);
        assert(fields(line@).skip(index).skip(1) =~= fields(line@).skip(index + 1));
    }
    let next_end: usize = find_field_end(line, start);
    match parse_number(slice_subrange(line, start, next_end)) {
        Some(number) => Ok((number, next_end)),
        None => Err(RowError::InvalidNumber),
    }
}

/// What `parse_row` hands back, as a row.
pub open spec fn parsed_row(parsed: Result<(&str, Record), RowError>) -> Result<Row, RowError> {
    match parsed {
        Ok((country, record)) => Ok(Row { country: country@, record: record@ }),
        Err(error) => Err(error),
    }
}

/// Reads one line as a row: the country, borrowed from the line, and the
/// record.
pub fn parse_row<'a>(line: &'a str) -> (parsed: Result<(&'a str, Record), RowError>)
    ensures
        parsed_row(parsed) == row_of(line.spec_bytes()),
{
    let bytes = line.as_bytes();
    proof {
        encode_utf8_valid_utf8(line@);
        lemma_fields_from(bytes@, 0);
        assert(fields(bytes@).skip(0) =~= fields(bytes@));
        assert(fields(bytes@).skip(1) =~= fields(bytes@).skip(0).skip(1));
    }
    let country_end: usize = find_field_end(bytes, 0);
    let (id, id_end) = match read_number(bytes, country_end, Ghost(1)) {
        Ok(read) => read,
        Err(error) => {
            return Err(error);
        },
    };
    let (author_age, author_age_end) = match read_number(bytes, id_end, Ghost(2)) {
        Ok(read) => read,
        Err(error) => {
            return Err(error);
        },
    };
    let (pages, pages_end) = match read_number(bytes, author_age_end, Ghost(3)) {
        Ok(read) => read,
        Err(error) => {
            return Err(error);
        },
    };
    let (publication_age, publication_age_end) = match read_number(bytes, pages_end, Ghost(4)) {
        Ok(read) => read,
        Err(error) => {
            return Err(error);
        },
    };
    if publication_age_end >= bytes.len() {
        return Err(RowError::MissingField);
    }
    let nationality_start: usize = publication_age_end + 2;
    proof {
        lemma_fields_from(bytes@, nationality_start as int);
        assert(fields(bytes@).skip(5)[0] == fields(bytes@)[5]);
        lemma_cut_after_single_byte(bytes@, nationality_start as int);
    }
    let nationality_end: usize = find_field_end(bytes, nationality_start);
    let country: &str = piece(line, 0, country_end);
    let nationality: &str = piece(line, nationality_start, nationality_end);
    Ok(
        (
            country,
            Record {
                id,
                author_age,
                pages,
                publication_age,
                author_nationality: nationality.to_owned(),
            },
        ),
    )
}

} // verus!
