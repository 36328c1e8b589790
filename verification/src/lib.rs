//! Per-country descriptive statistics over publication records.
//!
//! An input is a text of lines: a header, then one row for each record, with
//! six fields that a comma and a space separate. [`read_data`] groups the
//! records by country, and [`analyse`] reports, for each country, the most
//! common nationality of its authors and the statistics of the authors'
//! ages, the page counts and the publications' ages.

pub mod dataset;
pub mod error;
pub mod keys;
pub mod rank;
pub mod record;
pub mod report;
pub mod stats;
pub mod text;

pub use dataset::{parse_data, read_data, Data};
pub use error::{ParseError, ReadError, RowError};
pub use keys::KeyIndex;
pub use rank::p95_index;
pub use record::{parse_row, Record};
pub use report::{analyse, analyse_country, most_common_nationality, Report};
pub use stats::{analyse_prop, Stats};
pub use text::parse_number;
