//! What is reported of each country: the most common nationality of its
//! authors, and the statistics of three of its columns.

use crate::dataset::{Data, Group};
use crate::keys::{first_seen, lemma_first_seen, KeyIndex};
use crate::record::{record_views, Record, RecordView};
use crate::stats::{analyse_prop, lemma_stats_of_one, stats_of, Stats};
use vstd::prelude::*;

verus! {

/// The report on one country.
#[derive(Clone, Debug, PartialEq, Eq)]
pub struct Report {
    pub country: String,
    /// The most common nationality among the authors, with the number of
    /// records that name it; `None` where there is no record.
    pub most_common_nationality: Option<(String, usize)>,
    pub author_age: Stats,
    pub pages: Stats,
    pub publication_age: Stats,
}

/// A report with its text as characters.
pub struct ReportView {
    pub country: Seq<char>,
    pub most_common_nationality: Option<(Seq<char>, nat)>,
    pub author_age: Stats,
    pub pages: Stats,
    pub publication_age: Stats,
}

/// A nationality and its number of records, with the text as characters.
pub open spec fn counted_view(counted: Option<(String, usize)>) -> Option<(Seq<char>, nat)> {
    match counted {
        Some((name, count)) => Some((name@, count as nat)),
        None => None,
    }
}

impl View for Report {
    type V = ReportView;

    open spec fn view(&self) -> ReportView {
        ReportView {
            country: self.country@,
            most_common_nationality: counted_view(self.most_common_nationality),
            author_age: self.author_age,
            pages: self.pages,
            publication_age: self.publication_age,
        }
    }
}

/// The views of some reports.
pub open spec fn report_views(reports: Seq<Report>) -> Seq<ReportView> {
    Seq::new(reports.len(), |i: int| reports[i]@)
}

/// The authors' ages of some records.
pub open spec fn author_ages(records: Seq<RecordView>) -> Seq<u64> {
    Seq::new(records.len(), |i: int| records[i].author_age)
}

/// The page counts of some records.
pub open spec fn page_counts(records: Seq<RecordView>) -> Seq<u64> {
    Seq::new(records.len(), |i: int| records[i].pages)
}

/// The publications' ages of some records.
pub open spec fn publication_ages(records: Seq<RecordView>) -> Seq<u64> {
    Seq::new(records.len(), |i: int| records[i].publication_age)
}

/// The authors' nationalities of some records.
pub open spec fn nationalities(records: Seq<RecordView>) -> Seq<Seq<char>> {
    Seq::new(records.len(), |i: int| records[i].author_nationality)
}

/// How often an item occurs.
pub open spec fn occurrences<T>(items: Seq<T>, item: T) -> nat
    decreases items.len(),
{
    if items.len() == 0 {
        0
    } else {
        occurrences(items.drop_last(), item) + if items.last() == item {
            1nat
        } else {
            0nat
        }
    }
}

/// The candidate that occurs most often among the items, and of several that
/// do the one that stands first among the candidates.
pub open spec fn leader<T>(items: Seq<T>, candidates: Seq<T>) -> Option<T>
    decreases candidates.len(),
{
    if candidates.len() == 0 {
        None
    } else {
        match leader(items, candidates.drop_last()) {
            Some(best) if occurrences(items, best) >= occurrences(items, candidates.last()) => Some(
                best,
            ),
            _ => Some(candidates.last()),
        }
    }
}

/// The item that occurs most often, with the number of its occurrences; of
/// several such items the one that occurs first. There is none where there
/// is no item.
pub open spec fn most_common<T>(items: Seq<T>) -> Option<(T, nat)> {
    match leader(items, first_seen(items)) {
        Some(best) => Some((best, occurrences(items, best))),
        None => None,
    }
}

/// The report on a country with the given records.
pub open spec fn report_of(country: Seq<char>, records: Seq<RecordView>) -> ReportView {
    ReportView {
        country,
        most_common_nationality: most_common(nationalities(records)),
        author_age: stats_of(author_ages(records)),
        pages: stats_of(page_counts(records)),
        publication_age: stats_of(publication_ages(records)),
    }
}

/// The reports on some groups, one for each, in the same order.
pub open spec fn reports_of(groups: Seq<Group>) -> Seq<ReportView> {
    Seq::new(groups.len(), |i: int| report_of(groups[i].country, groups[i].records))
}

/// An item occurs at most as often as there are items, and at least once if
/// it is one of them.
pub proof fn lemma_occurrences<T>(items: Seq<T>, item: T)
    ensures
        occurrences(items, item) <= items.len(),
        items.contains(item) <==> occurrences(items, item) > 0,
    decreases items.len(),
{
    if items.len() > 0 {
        lemma_occurrences(items.drop_last(), item);
        if items.contains(item) {
            let i = choose|i: int| 0 <= i < items.len() && items[i] == item;
            if i < items.len() - 1 {
                assert(items.drop_last()[i] == item);
            }
        }
        if items.drop_last().contains(item) {
            let i = choose|i: int| 0 <= i < items.len() - 1 && items.drop_last()[i] == item;
            assert(items[i] == item);
        }
        if items.last() == item {
            assert(items[items.len() - 1] == item);
        }
    }
}

/// The leader among some candidates is one of them, and no candidate occurs
/// more often.
pub proof fn lemma_leader<T>(items: Seq<T>, candidates: Seq<T>)
    ensures
        candidates.len() == 0 <==> leader(items, candidates) is None,
        leader(items, candidates) matches Some(best) ==> candidates.contains(best) && forall|
            i: int,
        |
            0 <= i < candidates.len() ==> occurrences(items, #[trigger] candidates[i])
                <= occurrences(items, best),
    decreases candidates.len(),
{
    if candidates.len() > 0 {
        let head = candidates.drop_last();
        lemma_leader(items, head);
        let best = leader(items, candidates)->0;
        if best == candidates.last() {
            assert(candidates[candidates.len() - 1] == best);
        } else {
            let i = choose|i: int| 0 <= i < head.len() && head[i] == best;
            assert(candidates[i] == best);
        }
        assert forall|i: int| 0 <= i < candidates.len() implies occurrences(
            items,
            #[trigger] candidates[i],
        ) <= occurrences(items, best) by {
            if i < head.len() {
                assert(head[i] == candidates[i]);
            }
        }
    }
}

/// The most common item is one of the items, the number beside it is the
/// number of its occurrences, and no item occurs more often. There is a most
/// common item unless there is no item at all.
pub proof fn lemma_most_common<T>(items: Seq<T>)
    ensures
        items.len() == 0 <==> most_common(items) is None,
        most_common(items) matches Some((best, count)) ==> items.contains(best) && count
            == occurrences(items, best) && forall|other: T| #[trigger]
            occurrences(items, other) <= occurrences(items, best),
{
    let candidates = first_seen(items);
    lemma_first_seen(items);
    lemma_leader(items, candidates);
    if items.len() > 0 {
        assert(items.contains(items[0]));
        assert(candidates.contains(items[0]));
    }
    if let Some((best, count)) = most_common(items) {
        assert forall|other: T| #[trigger]
            occurrences(items, other) <= occurrences(items, best) by {
            lemma_occurrences(items, other);
            if items.contains(other) {
                assert(candidates.contains(other));
                let i = choose|i: int| 0 <= i < candidates.len() && candidates[i] == other;
                assert(occurrences(items, candidates[i]) <= occurrences(items, best));
            }
        }
    }
}

/// The report on a country with a single record: that record's nationality,
/// named once, and each statistic of a column is that record's value there.
pub proof fn lemma_report_of_one(country: Seq<char>, record: RecordView)
    ensures
        report_of(country, seq![record]) == (ReportView {
            country,
            most_common_nationality: Some((record.author_nationality, 1nat)),
            author_age: Stats {
                min: record.author_age,
                max: record.author_age,
                mean: record.author_age,
                med: record.author_age,
                p95: record.author_age,
            },
            pages: Stats {
                min: record.pages,
                max: record.pages,
                mean: record.pages,
                med: record.pages,
                p95: record.pages,
            },
            publication_age: Stats {
                min: record.publication_age,
                max: record.publication_age,
                mean: record.publication_age,
                med: record.publication_age,
                p95: record.publication_age,
            },
        }),
{
    let records = seq![record];
    let names = nationalities(records);
    lemma_stats_of_one(author_ages(records));
    lemma_stats_of_one(page_counts(records));
    lemma_stats_of_one(publication_ages(records));
    assert(names.drop_last() =~= Seq::<Seq<char>>::empty());
    assert(first_seen(names) =~= names) by {
        reveal_with_fuel(first_seen, 2);
    }
    assert(leader(names, names) == Some(record.author_nationality)) by {
        reveal_with_fuel(leader, 2);
    }
    assert(occurrences(names, record.author_nationality) == 1) by {
        reveal_with_fuel(occurrences, 2);
    }
}

/// The most common nationality among the authors of some records, with the
/// number of records that name it.
pub fn most_common_nationality(records: &Vec<Record>) -> (best: Option<(String, usize)>)
    ensures
        counted_view(best) == most_common(nationalities(record_views(records@))),
{
    let ghost names = nationalities(record_views(records@));
    let mut seen = KeyIndex::new();
    let mut counts: Vec<usize> = Vec::new();
    let mut at: usize = 0;
    while at < records.len()
        invariant
            at <= records@.len(),
            names == nationalities(record_views(records@)),
            seen@ == first_seen(names.take(at as int)),
            seen@.no_duplicates(),
            counts@.len() == seen@.len(),
            forall|slot: int|
                0 <= slot < counts@.len() ==> #[trigger] counts@[slot] == occurrences(
                    names.take(at as int),
                    seen@[slot],
                ),
        decreases records@.len() - at,
    {
        let slot: usize = seen.intern(records[at].author_nationality.as_str());
        proof {
            assert(names.take(at + 1).drop_last() =~= names.take(at as int));
            assert(names.take(at + 1).last() == names[at as int]);
            lemma_occurrences(names.take(at + 1), names[at as int]);
            lemma_occurrences(names.take(at as int), names[at as int]);
            lemma_first_seen(names.take(at as int));
        }
        if slot < counts.len() {
            let count: usize = counts[slot];
            counts.set(slot, count + 1);
        } else {
            counts.push(1);
        }
        at += 1;
    }
    assert(names.take(at as int) =~= names);
    if counts.len() == 0 {
        return None;
    }
    let mut best: usize = 0;
    let mut slot: usize = 1;
    assert(seen@.take(1).drop_last() =~= Seq::<Seq<char>>::empty());
    assert(leader(names, seen@.take(1)) == Some(seen@[0])) by {
        reveal_with_fuel(leader, 2);
    }
    while slot < counts.len()
        invariant
            1 <= slot <= counts@.len(),
            best < slot,
            counts@.len() == seen@.len(),
            leader(names, seen@.take(slot as int)) == Some(seen@[best as int]),
            forall|slot: int|
                0 <= slot < counts@.len() ==> #[trigger] counts@[slot] == occurrences(
                    names,
                    seen@[slot],
                ),
        decreases counts@.len() - slot,
    {
        proof {
            assert(seen@.take(slot + 1).drop_last() =~= seen@.take(slot as int));
            assert(seen@.take(slot + 1).last() == seen@[slot as int]);
        }
        if counts[slot] > counts[best] {
            best = slot;
        }
        slot += 1;
    }
    assert(seen@.take(slot as int) =~= seen@);
    Some((seen.key(best).to_owned(), counts[best]))
}

/// Three columns of some records: the authors' ages, the page counts and the
/// publications' ages.
fn columns(records: &Vec<Record>) -> (columns: (Vec<u64>, Vec<u64>, Vec<u64>))
    ensures
        columns.0@ == author_ages(record_views(records@)),
        columns.1@ == page_counts(record_views(records@)),
        columns.2@ == publication_ages(record_views(records@)),
{
    let mut author_age: Vec<u64> = Vec::new();
    let mut pages: Vec<u64> = Vec::new();
    let mut publication_age: Vec<u64> = Vec::new();
    let mut at: usize = 0;
    while at < records.len()
        invariant
            at <= records@.len(),
            author_age@ == author_ages(record_views(records@)).take(at as int),
            pages@ == page_counts(record_views(records@)).take(at as int),
            publication_age@ == publication_ages(record_views(records@)).take(at as int),
        decreases records@.len() - at,
    {
        author_age.push(records[at].author_age);
        pages.push(records[at].pages);
        publication_age.push(records[at].publication_age);
        at += 1;
    }
    (author_age, pages, publication_age)
}

/// Reports on one country, of which there must be at least one record.
pub fn analyse_country(country: &str, records: &Vec<Record>) -> (report: Report)
    requires
        records@.len() > 0,
    ensures
        report@ == report_of(country@, record_views(records@)),
{
    let (author_age, pages, publication_age) = columns(records);
    Report {
        country: country.to_owned(),
        most_common_nationality: most_common_nationality(records),
        author_age: analyse_prop(author_age),
        pages: analyse_prop(pages),
        publication_age: analyse_prop(publication_age),
    }
}

/// Reports on every country of a dataset, in the order of its groups.
pub fn analyse(data: Data) -> (reports: Vec<Report>)
    ensures
        report_views(reports@) == reports_of(data@),
{
    let mut reports: Vec<Report> = Vec::new();
    let mut place: usize = 0;
    while place < data.len()
        invariant
            place <= data@.len(),
            reports@.len() == place,
            report_views(reports@) == reports_of(data@).take(place as int),
        decreases data@.len() - place,
    {
        let report = analyse_country(data.country(place), data.records(place));
        let ghost before = reports@;
        reports.push(report);
        proof {
            assert forall|i: int| 0 <= i <= place implies report_views(reports@)[i] == reports_of(
                data@,
            )[i] by {
                if i < place {
                    assert(report_views(before)[i] == reports_of(data@).take(place as int)[i]);
                }
            }
            assert(report_views(reports@) =~= reports_of(data@).take(place + 1));
        }
        place += 1;
    }
    assert(reports_of(data@).take(place as int) =~= reports_of(data@));
    reports
}

} // verus!
