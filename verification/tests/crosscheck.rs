use analyse::{analyse, read_data, Record, Stats};
use std::collections::BTreeMap;

struct Columns {
    author_age: Vec<u64>,
    pages: Vec<u64>,
    publication_age: Vec<u64>,
    author_nationality: Vec<String>,
}

fn plain_rows(input: &str) -> Option<BTreeMap<String, Vec<Record>>> {
    let mut groups: BTreeMap<String, Vec<Record>> = BTreeMap::new();
    for line in input.lines().skip(1) {
        let mut items = line.split(", ");
        let country = items.next()?;
        let id = items.next()?.parse().ok()?;
        let author_age = items.next()?.parse().ok()?;
        let pages = items.next()?.parse().ok()?;
        let publication_age = items.next()?.parse().ok()?;
        let author_nationality = items.next()?.to_owned();
        groups.entry(country.to_owned()).or_default().push(Record {
            id,
            author_age,
            pages,
            publication_age,
            author_nationality,
        });
    }
    Some(groups)
}

fn plain_stats(mut values: Vec<u64>) -> Stats {
    values.sort_unstable();
    let sum: u128 = values.iter().map(|&value| value as u128).sum();
    Stats {
        min: values[0],
        max: *values.last().unwrap(),
        mean: (sum / values.len() as u128) as u64,
        med: values[values.len() / 2],
        p95: values[(values.len() as f64 * 0.95) as usize],
    }
}

fn columns(records: &[Record]) -> Columns {
    Columns {
        author_age: records.iter().map(|record| record.author_age).collect(),
        pages: records.iter().map(|record| record.pages).collect(),
        publication_age: records.iter().map(|record| record.publication_age).collect(),
        author_nationality: records.iter().map(|record| record.author_nationality.clone()).collect(),
    }
}

fn times(names: &[String], name: &str) -> usize {
    names.iter().filter(|other| other.as_str() == name).count()
}

fn next(state: &mut u64) -> u64 {
    *state ^= *state << 13;
    *state ^= *state >> 7;
    *state ^= *state << 17;
    *state
}

fn made_up_input(state: &mut u64, rows: usize, faults: bool) -> String {
    let countries = ["US", "FR", "DE", "日本", "", "U S", "Côte d'Ivoire", "A,B"];
    let nationalities = ["American", "French", "German", "", "日本人", "x,y", "Swiss"];
    let endings = ["\n", "\n", "\n", "\r\n"];
    let mut input = String::from("country, id, author_age, pages, publication_age, author_nationality");
    input.push_str(endings[(next(state) % 4) as usize]);
    for row in 0..rows {
        let country = countries[(next(state) % 8) as usize];
        let nationality = nationalities[(next(state) % 7) as usize];
        let fault = if faults { next(state) % 40 } else { 99 };
        let line = match fault {
            0 => format!("{}, {}, x{}, 1, 2, {}", country, row, next(state) % 90, nationality),
            1 => format!("{}, {}, {}", country, row, next(state) % 90),
            2 => String::new(),
            3 => format!("{}, {}, 1, 2, 18446744073709551616, {}", country, row, nationality),
            4 => format!("{}, {}, 1, 2, +3, {}, extra", country, row, nationality),
            _ => format!(
                "{}, {}, {}, {}, {}, {}",
                country,
                row,
                next(state) % 90,
                next(state) % 2000,
                next(state) % 300,
                nationality
            ),
        };
        input.push_str(&line);
        if row + 1 < rows || next(state) % 2 == 0 {
            input.push_str(endings[(next(state) % 4) as usize]);
        }
    }
    input
}

fn agrees_with_plain_code(input: &str) {
    let read = read_data(input.as_bytes());
    let plain = plain_rows(input);
    assert_eq!(read.is_ok(), plain.is_some(), "input {:?}", input);
    let (data, plain) = match (read, plain) {
        (Ok(data), Some(plain)) => (data, plain),
        _ => return,
    };
    assert_eq!(data.len(), plain.len());
    let rows: usize = input.lines().skip(1).count();
    let records: usize = (0..data.len()).map(|place| data.records(place).len()).sum();
    assert_eq!(records, rows);
    for (country, records) in plain.iter() {
        let place = data.find(country).unwrap();
        assert_eq!(data.records(place), records);
    }
    let reports = analyse(data);
    assert_eq!(reports.len(), plain.len());
    for report in reports.iter() {
        let columns = columns(&plain[&report.country]);
        assert_eq!(report.author_age, plain_stats(columns.author_age));
        assert_eq!(report.pages, plain_stats(columns.pages));
        assert_eq!(report.publication_age, plain_stats(columns.publication_age));
        let (name, count) = report.most_common_nationality.clone().unwrap();
        assert_eq!(times(&columns.author_nationality, &name), count);
        for other in columns.author_nationality.iter() {
            assert!(times(&columns.author_nationality, other) <= count);
        }
    }
}

#[test]
fn made_up_inputs_without_faults_agree_with_plain_code() {
    let mut state: u64 = 0x0123_4567_89ab_cdef;
    for round in 0..150usize {
        let input = made_up_input(&mut state, round % 60, false);
        agrees_with_plain_code(&input);
    }
}

#[test]
fn made_up_inputs_with_faults_agree_with_plain_code() {
    let mut state: u64 = 0xfedc_ba98_7654_3210;
    for round in 0..300usize {
        let input = made_up_input(&mut state, round % 25, true);
        agrees_with_plain_code(&input);
    }
}

#[test]
fn odd_inputs_agree_with_plain_code() {
    let inputs = [
        "",
        "\n",
        "\r\n",
        "\n\n",
        "h",
        "h\n",
        "h\r",
        "h\nA, 1, 2, 3, 4, b",
        "h\nA, 1, 2, 3, 4, b\r",
        "h\nA, 1, 2, 3, 4, b\r\n",
        "h\nA, 1, 2, 3, 4, b\n\r",
        "h\nA, 1, 2, 3, 4, b\n\n",
        "h\n, 1, 2, 3, 4, ",
        "h\n, , , , , ",
        "h\nA, 1, 2, 3, 4,b",
        "h\nA, 1, 2, 3, 4, b, ",
        "h\nA,  1, 2, 3, 4, b",
        "h\nA, 1, 2, 3, 4, b\nA, 1, 2, 3, 4",
        "h\r\nA, 01, 002, +3, 4, b\r\nA, 1, 2, 3, 4, c\r\n",
    ];
    for input in inputs {
        agrees_with_plain_code(input);
    }
}
