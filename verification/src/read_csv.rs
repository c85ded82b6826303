//! Reading of a training set: the pixels of the digits and their labels,
//! stored as CSV files (records read by the `csv` crate).
use vstd::prelude::*;
use crate::text::{chars_of, is_white_space, parse_u32, parse_u32_at, white_space};

verus! {

/// What the `csv` crate's reader (first record taken as headers and
/// skipped, the given delimiter) reads from the bytes: the fields of the
/// records read before the first error, and that error's message if there
/// is one.
pub uninterp spec fn csv_records(bytes: Seq<u8>, delimiter: u8) -> (
    Seq<Seq<Seq<char>>>,
    Option<Seq<char>>,
);

pub open spec fn records_view(v: Seq<Vec<String>>) -> Seq<Seq<Seq<char>>> {
    v.map_values(|r: Vec<String>| r@.map_values(|f: String| f@))
}

/// Reads the records of a CSV text with `csv::ReaderBuilder` (headers on,
/// the given delimiter) and `Reader::records`, each field as a string, up
/// to the first error, whose message comes with them. The result is named
/// by `csv_records`.
#[verifier::external_body]
fn read_csv_records(bytes: &[u8], delimiter: u8) -> (res: (Vec<Vec<String>>, Option<String>))
    ensures
        csv_records(bytes@, delimiter) == (
            records_view(res.0@),
            match res.1 {
                Some(m) => Some(m@),
                None => None::<Seq<char>>,
            },
        ),
{
    let mut reader = csv::ReaderBuilder::new().has_headers(true).delimiter(delimiter).from_reader(
        bytes,
    );
    let mut rows: Vec<Vec<String>> = Vec::new();
    for record in reader.records() {
        match record {
            Ok(r) => rows.push(r.iter().map(|f| f.to_string()).collect()),
            Err(e) => return (rows, Some(e.to_string())),
        }
    }
    (rows, None)
}

/// First position from `i` on that is not white space.
pub open spec fn trim_start(t: Seq<char>, i: int) -> int
    decreases t.len() - i,
{
    if i >= t.len() || !is_white_space(t[i]) {
        i
    } else {
        trim_start(t, i + 1)
    }
}

/// End of `t[lo..j]` once its trailing white space is removed.
pub open spec fn trim_end(t: Seq<char>, lo: int, j: int) -> int
    decreases j - lo,
{
    if j <= lo || !is_white_space(t[j - 1]) {
        j
    } else {
        trim_end(t, lo, j - 1)
    }
}

/// `t` without its leading and trailing white space, as `str::trim` gives.
pub open spec fn trimmed(t: Seq<char>) -> Seq<char> {
    let a = trim_start(t, 0);
    t.subrange(a, trim_end(t, a, t.len() as int))
}

/// What `field.trim().parse::<u32>()` gives.
pub open spec fn field_value(f: Seq<char>) -> Option<u32> {
    parse_u32(trimmed(f))
}

/// Parses a field once trimmed.
fn parse_field(field: &String) -> (r: Option<u32>)
    ensures
        r == field_value(field@),
{
    let t = chars_of(field.as_str());
    let n = t.len();
    let mut a: usize = 0;
    while a < n && white_space(t[a])
        invariant
            a <= n,
            n == t@.len(),
            trim_start(t@, a as int) == trim_start(t@, 0),
        decreases n - a,
    {
        a = a + 1;
    }
    let mut b: usize = n;
    while b > a && white_space(t[b - 1])
        invariant
            a <= b <= n,
            n == t@.len(),
            trim_end(t@, a as int, b as int) == trim_end(t@, a as int, n as int),
        decreases b - a,
    {
        b = b - 1;
    }
    parse_u32_at(&t, a, b)
}

/// Why a training set cannot be read.
#[derive(Debug, PartialEq, Eq)]
pub enum DatasetError {
    /// The CSV reader's message.
    Csv(String),
    /// Field `field` of record `record` (headers not counted) is not a
    /// pixel value.
    Pixel { record: usize, field: usize },
    /// The first field of record `record` is not a label.
    Label { record: usize },
}

/// First field from `j` on that is not a number.
pub open spec fn bad_field(fields: Seq<Seq<char>>, j: int) -> Option<int>
    decreases fields.len() - j,
{
    if j < 0 || j >= fields.len() {
        None
    } else if field_value(fields[j]) is None {
        Some(j)
    } else {
        bad_field(fields, j + 1)
    }
}

/// First record from `k` on with a field that is not a number.
pub open spec fn bad_record(recs: Seq<Seq<Seq<char>>>, k: int) -> Option<int>
    decreases recs.len() - k,
{
    if k < 0 || k >= recs.len() {
        None
    } else if bad_field(recs[k], 0) is Some {
        Some(k)
    } else {
        bad_record(recs, k + 1)
    }
}

/// The values of the fields of a record whose fields are all numbers.
pub open spec fn record_values(fields: Seq<Seq<char>>) -> Seq<u32> {
    fields.map_values(|f: Seq<char>| field_value(f)->Some_0)
}

/// First record from `k` on that has a field and whose first field is
/// not a number.
pub open spec fn bad_label(recs: Seq<Seq<Seq<char>>>, k: int) -> Option<int>
    decreases recs.len() - k,
{
    if k < 0 || k >= recs.len() {
        None
    } else if recs[k].len() > 0 && field_value(recs[k][0]) is None {
        Some(k)
    } else {
        bad_label(recs, k + 1)
    }
}

/// The labels of the records from `k` on: the value of the first field of
/// each record that has one.
pub open spec fn labels_from(recs: Seq<Seq<Seq<char>>>, k: int) -> Seq<u32>
    decreases recs.len() - k,
{
    if k < 0 || k >= recs.len() {
        seq![]
    } else if recs[k].len() > 0 {
        seq![field_value(recs[k][0])->Some_0] + labels_from(recs, k + 1)
    } else {
        labels_from(recs, k + 1)
    }
}

/// Reads the pixels of the digits from a CSV text with `;` between fields
/// and a header record: one row of values per record, each field trimmed
/// and read as a `u32`.
pub fn parse_digits_csv(bytes: &[u8]) -> (r: Result<Vec<Vec<u32>>, DatasetError>)
    ensures
        ({
            let (recs, failure) = csv_records(bytes@, 59u8);
            match bad_record(recs, 0) {
                Some(k) => r == Err::<Vec<Vec<u32>>, DatasetError>(
                    DatasetError::Pixel { record: k as usize, field: bad_field(recs[k], 0)->Some_0 as usize },
                ),
                None => match failure {
                    Some(m) => r matches Err(DatasetError::Csv(e)) && e@ == m,
                    None => r matches Ok(v) && v@.map_values(|row: Vec<u32>| row@) == recs.map_values(
                        |f: Seq<Seq<char>>| record_values(f),
                    ),
                },
            }
        }),
{
    let (records, failure) = read_csv_records(bytes, 59u8);
    let ghost recs = records_view(records@);
    let ghost target = recs.map_values(|f: Seq<Seq<char>>| record_values(f));
    let mut digits: Vec<Vec<u32>> = Vec::new();
    let mut k: usize = 0;
    while k < records.len()
        invariant
            k <= records@.len(),
            recs == records_view(records@),
            csv_records(bytes@, 59u8).0 == recs,
            target == recs.map_values(|f: Seq<Seq<char>>| record_values(f)),
            bad_record(recs, k as int) == bad_record(recs, 0),
            digits@.map_values(|row: Vec<u32>| row@) == target.take(k as int),
        decreases records@.len() - k,
    {
        let record = &records[k];
        let ghost fields = recs[k as int];
        proof {
            assert(fields == record@.map_values(|f: String| f@));
        }
        let mut row: Vec<u32> = Vec::new();
        let mut j: usize = 0;
        while j < record.len()
            invariant
                j <= record@.len(),
                k < records@.len(),
                recs == records_view(records@),
                csv_records(bytes@, 59u8).0 == recs,
                fields == recs[k as int],
                fields == record@.map_values(|f: String| f@),
                bad_record(recs, k as int) == bad_record(recs, 0),
                bad_field(fields, j as int) == bad_field(fields, 0),
                row@ == record_values(fields).take(j as int),
            decreases record@.len() - j,
        {
            match parse_field(&record[j]) {
                Some(v) => {
                    row.push(v);
                    proof {
                        assert(row@ =~= record_values(fields).take(j + 1));
                    }
                },
                None => {
                    proof {
                        assert(fields[j as int] == record@[j as int]@);
                        assert(bad_field(fields, 0) == Some(j as int));
                        assert(bad_record(recs, k as int) == Some(k as int));
                        assert(csv_records(bytes@, 59u8).0 == recs);
                    }
                    return Err(DatasetError::Pixel { record: k, field: j });
                },
            }
            j = j + 1;
        }
        proof {
            assert(row@ =~= record_values(fields));
            assert(bad_field(fields, j as int) is None);
        }
        let ghost before = digits@.map_values(|row: Vec<u32>| row@);
        digits.push(row);
        proof {
            assert(digits@.map_values(|row: Vec<u32>| row@) =~= before.push(row@));
            assert(digits@.map_values(|row: Vec<u32>| row@) =~= target.take(k + 1));
        }
        k = k + 1;
    }
    proof {
        assert(target.take(records@.len() as int) =~= target);
    }
    match failure {
        Some(e) => Err(DatasetError::Csv(e)),
        None => Ok(digits),
    }
}

/// Reads the labels from a CSV text with `,` between fields and a header
/// record: the first field of each record, trimmed and read as a `u32`.
pub fn parse_labels_csv(bytes: &[u8]) -> (r: Result<Vec<u32>, DatasetError>)
    ensures
        ({
            let (recs, failure) = csv_records(bytes@, 44u8);
            match bad_label(recs, 0) {
                Some(k) => r == Err::<Vec<u32>, DatasetError>(DatasetError::Label { record: k as usize }),
                None => match failure {
                    Some(m) => r matches Err(DatasetError::Csv(e)) && e@ == m,
                    None => r matches Ok(v) && v@ == labels_from(recs, 0),
                },
            }
        }),
{
    let (records, failure) = read_csv_records(bytes, 44u8);
    let ghost recs = records_view(records@);
    let mut labels: Vec<u32> = Vec::new();
    let mut k: usize = 0;
    while k < records.len()
        invariant
            k <= records@.len(),
            recs == records_view(records@),
            csv_records(bytes@, 44u8).0 == recs,
            bad_label(recs, k as int) == bad_label(recs, 0),
            labels@ + labels_from(recs, k as int) == labels_from(recs, 0),
        decreases records@.len() - k,
    {
        let record = &records[k];
        proof {
            assert(recs[k as int] == record@.map_values(|f: String| f@));
        }
        if record.len() > 0 {
            proof {
                assert(recs[k as int][0] == record@[0]@);
            }
            match parse_field(&record[0]) {
                Some(v) => {
                    proof {
                        assert(labels@.push(v) + labels_from(recs, k + 1) =~= labels@ + labels_from(recs, k as int));
                    }
                    labels.push(v);
                },
                None => {
                    proof {
                        assert(bad_label(recs, k as int) == Some(k as int));
                        assert(csv_records(bytes@, 44u8).0 == recs);
                    }
                    return Err(DatasetError::Label { record: k });
                },
            }
        }
        k = k + 1;
    }
    proof {
        assert(labels@ + labels_from(recs, k as int) =~= labels@);
    }
    match failure {
        Some(e) => Err(DatasetError::Csv(e)),
        None => Ok(labels),
    }
}

} // verus!
