//! Turning named text fields of a record into a row of feature codes.
use vstd::prelude::*;
use crate::dataset::Dataset;
use crate::error::ForestError;
use crate::tree::{labels_wf, matrix, rows_wf};

verus! {

/// How the text of a feature column becomes a number.
#[derive(Debug, Clone, Copy, PartialEq, Eq, Structural)]
pub enum ColumnKind {
    /// A non-negative decimal integer (a class, a count).
    Count,
    /// 1 for `female`, 0 for any other text.
    Sex,
}

/// A feature column, looked up by name.
#[derive(Debug, Clone, PartialEq, Eq)]
pub struct FeatureColumn {
    pub name: String,
    pub kind: ColumnKind,
}

/// One raw input row: (column name, text) pairs.
#[derive(Debug, Clone, PartialEq, Eq)]
pub struct Record {
    pub fields: Vec<(String, String)>,
}

/// The text of the first field called `name`.
pub open spec fn lookup(fields: Seq<(String, String)>, name: Seq<char>) -> Option<Seq<char>>
    decreases fields.len(),
{
    if fields.len() == 0 {
        None
    } else if fields[0].0@ == name {
        Some(fields[0].1@)
    } else {
        lookup(fields.drop_first(), name)
    }
}

pub open spec fn is_digit(c: char) -> bool {
    '0' <= c && c <= '9'
}

pub open spec fn all_digits(s: Seq<char>) -> bool {
    forall|i: int| 0 <= i < s.len() ==> is_digit(#[trigger] s[i])
}

pub open spec fn digit_value(c: char) -> int {
    (c as u32) - ('0' as u32)
}

/// The number that the decimal digits `s` spell.
pub open spec fn digits_value(s: Seq<char>) -> int
    decreases s.len(),
{
    if s.len() == 0 {
        0
    } else {
        digits_value(s.drop_last()) * 10 + digit_value(s.last())
    }
}

/// `s` read as a non-negative decimal integer that fits in 64 bits.
pub open spec fn parse_count(s: Seq<char>) -> Option<u64> {
    if s.len() > 0 && all_digits(s) && digits_value(s) <= u64::MAX {
        Some(digits_value(s) as u64)
    } else {
        None
    }
}

pub open spec fn encode_value(kind: ColumnKind, text: Seq<char>) -> Option<u64> {
    match kind {
        ColumnKind::Sex => Some(
            if text == "female"@ {
                1u64
            } else {
                0u64
            },
        ),
        ColumnKind::Count => parse_count(text),
    }
}

/// The code of column `c` in a record, if the field is there and encodes.
pub open spec fn column_value(fields: Seq<(String, String)>, c: FeatureColumn) -> Option<u64> {
    match lookup(fields, c.name@) {
        Some(t) => encode_value(c.kind, t),
        None => None,
    }
}

/// The label of a record: 0 or 1 in the field called `name`.
pub open spec fn label_value(fields: Seq<(String, String)>, name: Seq<char>) -> Option<u64> {
    match lookup(fields, name) {
        Some(t) => match parse_count(t) {
            Some(v) => if v <= 1 {
                Some(v)
            } else {
                None
            },
            None => None,
        },
        None => None,
    }
}

pub open spec fn columns_ok(fields: Seq<(String, String)>, columns: Seq<FeatureColumn>) -> bool {
    forall|j: int| 0 <= j < columns.len() ==> #[trigger] column_value(fields, columns[j]) is Some
}

/// Column `j` is the first of `columns` that the record fails to encode.
pub open spec fn first_bad_column(fields: Seq<(String, String)>, columns: Seq<FeatureColumn>, j: int) -> bool {
    &&& 0 <= j < columns.len()
    &&& column_value(fields, columns[j]) is None
    &&& forall|k: int| 0 <= k < j ==> column_value(fields, columns[k]) is Some
}

/// `e` is the error for a record at `row` that fails: the first column that
/// does not encode, or else the label column.
pub open spec fn record_error(
    fields: Seq<(String, String)>,
    columns: Seq<FeatureColumn>,
    label: Option<String>,
    row: usize,
    e: ForestError,
) -> bool {
    if !columns_ok(fields, columns) {
        exists|j: int|
            #[trigger] first_bad_column(fields, columns, j) && e == (ForestError::MalformedInput {
                field: columns[j].name,
                row,
            })
    } else {
        label is Some && e == (ForestError::MalformedInput { field: label->0, row })
    }
}

/// The record encodes in every column and, where a label column is named, has a label.
pub open spec fn record_ok(fields: Seq<(String, String)>, columns: Seq<FeatureColumn>, label: Option<String>) -> bool {
    columns_ok(fields, columns) && (label matches Some(name) ==> label_value(fields, name@) is Some)
}

/// Whether two texts hold the same characters.
pub fn text_eq(a: &str, b: &str) -> (r: bool)
    ensures
        r == (a@ == b@),
{
    let n = a.unicode_len();
    if n != b.unicode_len() {
        return false;
    }
    let mut i: usize = 0;
    while i < n
        invariant
            i <= n,
            n == a@.len(),
            n == b@.len(),
            forall|k: int| 0 <= k < i ==> a@[k] == b@[k],
        decreases n - i,
    {
        if a.get_char(i) != b.get_char(i) {
            return false;
        }
        i = i + 1;
    }
    proof {
        assert(a@ =~= b@);
    }
    true
}

proof fn lemma_value_nonneg(s: Seq<char>)
    requires
        all_digits(s),
    ensures
        digits_value(s) >= 0,
    decreases s.len(),
{
    if s.len() > 0 {
        assert(all_digits(s.drop_last())) by {
            assert forall|i: int| 0 <= i < s.drop_last().len() implies is_digit(#[trigger] s.drop_last()[i]) by {
                assert(s.drop_last()[i] == s[i]);
            }
        }
        lemma_value_nonneg(s.drop_last());
        assert(is_digit(s[s.len() - 1]));
    }
}

proof fn lemma_value_prefix(s: Seq<char>, i: int)
    requires
        all_digits(s),
        0 <= i <= s.len(),
    ensures
        digits_value(s.take(i)) <= digits_value(s),
    decreases s.len(),
{
    if i == s.len() {
        assert(s.take(i) =~= s);
    } else {
        let d = s.drop_last();
        assert(all_digits(d)) by {
            assert forall|k: int| 0 <= k < d.len() implies is_digit(#[trigger] d[k]) by {
                assert(d[k] == s[k]);
            }
        }
        lemma_value_prefix(d, i);
        assert(d.take(i) =~= s.take(i));
        lemma_value_nonneg(d);
        assert(is_digit(s[s.len() - 1]));
    }
}

/// Reads `s` as a non-negative decimal integer that fits in 64 bits.
pub fn parse_count_text(s: &str) -> (r: Option<u64>)
    ensures
        r == parse_count(s@),
{
    let n = s.unicode_len();
    if n == 0 {
        return None;
    }
    let mut acc: u64 = 0;
    let mut i: usize = 0;
    while i < n
        invariant
            i <= n,
            n == s@.len(),
            all_digits(s@.take(i as int)),
            acc == digits_value(s@.take(i as int)),
        decreases n - i,
    {
        let c = s.get_char(i);
        proof {
            assert(s@.take(i + 1).drop_last() =~= s@.take(i as int));
            assert(s@.take(i + 1).last() == c);
        }
        if !(c >= '0' && c <= '9') {
            proof {
                assert(!is_digit(s@[i as int]));
            }
            return None;
        }
        let d = (c as u32 - '0' as u32) as u64;
        proof {
            assert(all_digits(s@.take(i + 1))) by {
                assert forall|k: int| 0 <= k < i + 1 implies is_digit(#[trigger] s@.take(i + 1)[k]) by {
                    if k < i {
                        assert(s@.take(i + 1)[k] == s@.take(i as int)[k]);
                    }
                }
            }
        }
        let next = match acc.checked_mul(10) {
            Some(x) => x.checked_add(d),
            None => None,
        };
        match next {
            Some(x) => {
                acc = x;
            },
            None => {
                proof {
                    lemma_value_nonneg(s@.take(i as int));
                    if all_digits(s@) {
                        lemma_value_prefix(s@, i + 1);
                    }
                }
                return None;
            },
        }
        i = i + 1;
    }
    proof {
        assert(s@.take(n as int) =~= s@);
    }
    Some(acc)
}

/// The position of the first field called `name`.
fn find_field(record: &Record, name: &String) -> (r: Option<usize>)
    ensures
        match r {
            Some(i) => i < record.fields@.len() && lookup(record.fields@, name@) == Some(
                record.fields@[i as int].1@,
            ),
            None => lookup(record.fields@, name@) is None,
        },
{
    let n = record.fields.len();
    let mut i: usize = 0;
    assert(record.fields@.subrange(0, n as int) =~= record.fields@);
    while i < n
        invariant
            i <= n,
            n == record.fields@.len(),
            lookup(record.fields@, name@) == lookup(record.fields@.subrange(i as int, n as int), name@),
        decreases n - i,
    {
        proof {
            let rest = record.fields@.subrange(i as int, n as int);
            assert(rest[0] == record.fields@[i as int]);
            assert(rest.drop_first() =~= record.fields@.subrange(i + 1, n as int));
        }
        let same = record.fields[i].0.eq(name);
        if same {
            assert(record.fields@[i as int].0@ == name@);
            assert(record.fields@.subrange(i as int, n as int)[0] == record.fields@[i as int]);
            assert(lookup(record.fields@.subrange(i as int, n as int), name@) == Some(record.fields@[i as int].1@));
            return Some(i);
        }
        i = i + 1;
    }
    None
}

/// The code of one column of `record`.
fn encode_column(record: &Record, column: &FeatureColumn) -> (r: Option<u64>)
    ensures
        r == column_value(record.fields@, *column),
{
    match find_field(record, &column.name) {
        None => None,
        Some(i) => {
            let text = record.fields[i].1.as_str();
            match column.kind {
                ColumnKind::Sex => {
                    if text_eq(text, "female") {
                        Some(1)
                    } else {
                        Some(0)
                    }
                },
                ColumnKind::Count => parse_count_text(text),
            }
        },
    }
}

/// Encodes the columns of `record`, in order, into a feature row. The first
/// column whose field is missing or does not parse is reported with `row`.
pub fn encode_record(record: &Record, columns: &Vec<FeatureColumn>, row: usize) -> (r: Result<Vec<u64>, ForestError>)
    ensures
        r is Ok <==> columns_ok(record.fields@, columns@),
        r matches Ok(v) ==> v@.len() == columns@.len() && forall|j: int|
            0 <= j < v@.len() ==> Some(#[trigger] v@[j]) == column_value(record.fields@, columns@[j]),
        r matches Err(e) ==> exists|j: int|
            #[trigger] first_bad_column(record.fields@, columns@, j) && e == (ForestError::MalformedInput {
                field: columns@[j].name,
                row,
            }),
{
    let mut out: Vec<u64> = Vec::new();
    let mut j: usize = 0;
    while j < columns.len()
        invariant
            j <= columns@.len(),
            out@.len() == j,
            forall|k: int| 0 <= k < j ==> Some(#[trigger] out@[k]) == column_value(record.fields@, columns@[k]),
        decreases columns@.len() - j,
    {
        match encode_column(record, &columns[j]) {
            Some(v) => {
                out.push(v);
            },
            None => {
                let ghost jj = j as int;
                assert(column_value(record.fields@, columns@[jj]) is None);
                assert(forall|k: int| 0 <= k < jj ==> column_value(record.fields@, columns@[k]) == Some(out@[k]));
                assert(first_bad_column(record.fields@, columns@, jj));
                return Err(ForestError::MalformedInput { field: columns[j].name.clone(), row });
            },
        }
        j = j + 1;
    }
    assert forall|k: int| 0 <= k < columns@.len() implies #[trigger] column_value(record.fields@, columns@[k]) is Some by {
        assert(Some(out@[k]) == column_value(record.fields@, columns@[k]));
    }
    Ok(out)
}

/// Reads the label of `record` from the field called `label_column`: 0 or 1.
pub fn encode_label(record: &Record, label_column: &String, row: usize) -> (r: Result<u64, ForestError>)
    ensures
        r is Ok <==> label_value(record.fields@, label_column@) is Some,
        r matches Ok(v) ==> Some(v) == label_value(record.fields@, label_column@),
        r matches Err(e) ==> e == (ForestError::MalformedInput { field: *label_column, row }),
{
    let found = match find_field(record, label_column) {
        None => None,
        Some(i) => parse_count_text(record.fields[i].1.as_str()),
    };
    match found {
        Some(v) => {
            if v <= 1 {
                Ok(v)
            } else {
                Err(ForestError::MalformedInput { field: label_column.clone(), row })
            }
        },
        None => Err(ForestError::MalformedInput { field: label_column.clone(), row }),
    }
}


/// Encodes every record, in order, into a dataset of `columns.len()`
/// features, with labels read from `label_column` where one is named. The
/// first record that fails stops the whole stage, and no dataset is built.
pub fn assemble_dataset(records: &Vec<Record>, columns: &Vec<FeatureColumn>, label_column: &Option<String>) -> (r: Result<Dataset, ForestError>)
    ensures
        r is Ok <==> forall|i: int|
            0 <= i < records@.len() ==> record_ok(#[trigger] records@[i].fields@, columns@, *label_column),
        r matches Ok(d) ==> {
            &&& d.wf()
            &&& d.width() == columns@.len()
            &&& d.rows().len() == records@.len()
            &&& forall|i: int, j: int|
                0 <= i < records@.len() && 0 <= j < columns@.len() ==> Some(#[trigger] d.rows()[i][j])
                    == column_value(records@[i].fields@, columns@[j])
            &&& label_column is None ==> d.labels() is None
            &&& label_column is Some ==> d.labels() is Some && forall|i: int|
                0 <= i < records@.len() ==> Some(#[trigger] d.labels()->0[i]) == label_value(
                    records@[i].fields@,
                    label_column->0@,
                )
        },
        r matches Err(e) ==> (e matches ForestError::MalformedInput { row, .. } && row < records@.len()
            && !record_ok(records@[row as int].fields@, columns@, *label_column) && (forall|k: int|
            0 <= k < row ==> record_ok(#[trigger] records@[k].fields@, columns@, *label_column))
            && record_error(records@[row as int].fields@, columns@, *label_column, row, e)),
{
    let mut rows: Vec<Vec<u64>> = Vec::new();
    let mut labels: Vec<u64> = Vec::new();
    let mut i: usize = 0;
    while i < records.len()
        invariant
            i <= records@.len(),
            rows@.len() == i,
            forall|k: int| 0 <= k < i ==> record_ok(#[trigger] records@[k].fields@, columns@, *label_column),
            forall|k: int| 0 <= k < i ==> (#[trigger] rows@[k])@.len() == columns@.len(),
            forall|k: int, j: int|
                0 <= k < i && 0 <= j < columns@.len() ==> Some(#[trigger] rows@[k]@[j]) == column_value(
                    records@[k].fields@,
                    columns@[j],
                ),
            label_column is Some ==> labels@.len() == i,
            label_column is Some ==> forall|k: int|
                0 <= k < i ==> Some(#[trigger] labels@[k]) == label_value(records@[k].fields@, label_column->0@),
        decreases records@.len() - i,
    {
        let row = match encode_record(&records[i], columns, i) {
            Ok(v) => v,
            Err(e) => {
                return Err(e);
            },
        };
        match label_column {
            Some(name) => {
                match encode_label(&records[i], name, i) {
                    Ok(l) => {
                        labels.push(l);
                    },
                    Err(e) => {
                        return Err(e);
                    },
                }
            },
            None => {},
        }
        proof {
            assert(columns_ok(records@[i as int].fields@, columns@));
        }
        rows.push(row);
        i = i + 1;
    }
    let lab = match label_column {
        Some(_) => Some(labels),
        None => None,
    };
    proof {
        assert(rows_wf(matrix(rows@), columns@.len()));
        if label_column is Some {
            assert forall|k: int| 0 <= k < labels@.len() implies #[trigger] labels@[k] <= 1 by {
                assert(Some(labels@[k]) == label_value(records@[k].fields@, label_column->0@));
            }
            assert(labels_wf(labels@));
        }
    }
    let width = columns.len();
    Dataset::new(width, rows, lab)
}

} // verus!
