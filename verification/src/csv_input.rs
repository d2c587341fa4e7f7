use vstd::prelude::*;

use crate::frame::{push_entry, DataFrame};

verus! {

/// The header row and the data rows that the `csv` crate reads from `data`,
/// with the first row taken as headers; `None` when it reports an error.
pub uninterp spec fn csv_table(data: Seq<u8>) -> Option<(Seq<Seq<char>>, Seq<Seq<Seq<char>>>)>;

#[verifier::external_type_specification]
#[verifier::external_body]
pub struct ExCsvError(csv::Error);

/// Reads `data` with `csv::ReaderBuilder::new().has_headers(true)`: the
/// header row through `Reader::headers` and every data row through
/// `Reader::records`, stopping at the first error. The result is named by
/// `csv_table`. Each data row has as many fields as the header row: the
/// reader is not flexible, so a row of another length is an error
/// (`ErrorKind::UnequalLengths`).
#[verifier::external_body]
fn read_csv_table(data: &[u8]) -> (r: Result<(Vec<String>, Vec<Vec<String>>), csv::Error>)
    ensures
        match r {
            Ok((headers, rows)) => {
                &&& csv_table(data@) == Some((headers.deep_view(), rows.deep_view()))
                &&& forall|i: int| 0 <= i < rows.len() ==> #[trigger] rows[i].len() == headers.len()
            },
            Err(_) => csv_table(data@) is None,
        },
{
    let mut rdr = csv::ReaderBuilder::new().has_headers(true).from_reader(data);
    let headers: Vec<String> = rdr.headers()?.iter().map(|h| h.to_string()).collect();
    let mut rows: Vec<Vec<String>> = Vec::new();
    for result in rdr.records() {
        rows.push(result?.iter().map(|field| field.to_string()).collect());
    }
    Ok((headers, rows))
}

/// Why a table could not be read.
#[derive(Debug)]
pub enum ReadError {
    /// The `csv` crate rejected the data.
    Csv(csv::Error),
}

/// `m` with field `j` of `record` appended under `headers[j]`, for each `j`
/// in order.
pub open spec fn add_record(
    m: Map<Seq<char>, Seq<Seq<char>>>,
    headers: Seq<Seq<char>>,
    record: Seq<Seq<char>>,
) -> Map<Seq<char>, Seq<Seq<char>>>
    decreases record.len(),
{
    if record.len() == 0 {
        m
    } else {
        push_entry(
            add_record(m, headers, record.drop_last()),
            headers[record.len() - 1],
            record.last(),
        )
    }
}

/// `m` with every record added in order.
pub open spec fn add_records(
    m: Map<Seq<char>, Seq<Seq<char>>>,
    headers: Seq<Seq<char>>,
    records: Seq<Seq<Seq<char>>>,
) -> Map<Seq<char>, Seq<Seq<char>>>
    decreases records.len(),
{
    if records.len() == 0 {
        m
    } else {
        add_record(add_records(m, headers, records.drop_last()), headers, records.last())
    }
}

/// Appends `new_headers` to `headers`, then adds each field of each record
/// to `df` under the header at its position.
pub fn load_records(
    df: &mut DataFrame,
    headers: &mut Vec<String>,
    new_headers: Vec<String>,
    records: &Vec<Vec<String>>,
)
    requires
        forall|i: int|
            0 <= i < records.len() ==> #[trigger] records[i].len() <= old(headers).len()
                + new_headers.len(),
    ensures
        final(headers).deep_view() == old(headers).deep_view() + new_headers.deep_view(),
        final(df)@ == add_records(old(df)@, final(headers).deep_view(), records.deep_view()),
{
    let ghost base = df@;
    let ghost old_h = headers.deep_view();
    let mut k: usize = 0;
    while k < new_headers.len()
        invariant
            k <= new_headers.len(),
            headers.deep_view() == old_h + new_headers.deep_view().take(k as int),
        decreases new_headers.len() - k,
    {
        let ghost before = headers.deep_view();
        headers.push(new_headers[k].clone());
        assert(headers.deep_view() == before.push(new_headers.deep_view()[k as int]));
        assert(headers.deep_view() =~~= old_h + new_headers.deep_view().take(k + 1));
        k = k + 1;
    }
    assert(new_headers.deep_view().take(new_headers.len() as int) =~= new_headers.deep_view());
    let ghost hv = headers.deep_view();
    let mut i: usize = 0;
    assert(records.deep_view().take(0) =~= Seq::<Seq<Seq<char>>>::empty());
    while i < records.len()
        invariant
            i <= records.len(),
            hv == headers.deep_view(),
            forall|x: int| 0 <= x < records.len() ==> #[trigger] records[x].len() <= hv.len(),
            df@ == add_records(base, hv, records.deep_view().take(i as int)),
        decreases records.len() - i,
    {
        let record = &records[i];
        assert(record.len() <= hv.len());
        let ghost start = df@;
        let mut j: usize = 0;
        assert(record.deep_view().take(0) =~= Seq::<Seq<char>>::empty());
        while j < record.len()
            invariant
                j <= record.len(),
                record.len() <= hv.len(),
                hv == headers.deep_view(),
                df@ == add_record(start, hv, record.deep_view().take(j as int)),
            decreases record.len() - j,
        {
            df.push_entry(&headers[j], record[j].clone());
            assert(record.deep_view().take(j + 1).drop_last() =~= record.deep_view().take(j as int));
            j = j + 1;
        }
        assert(record.deep_view().take(record.len() as int) =~= record.deep_view());
        assert(records.deep_view().take(i + 1).drop_last() =~= records.deep_view().take(i as int));
        i = i + 1;
    }
    assert(records.deep_view().take(records.len() as int) =~= records.deep_view());
}

/// Reads CSV `data`, header row first: appends its headers to `headers` and
/// adds each field of each data row to `df` under the header at its
/// position. On an error of the `csv` crate nothing is changed.
pub fn read_csv(df: &mut DataFrame, data: &[u8], headers: &mut Vec<String>) -> (r: Result<(), ReadError>)
    ensures
        r is Ok <==> csv_table(data@) is Some,
        r is Ok ==> {
            let (new_headers, rows) = csv_table(data@)->0;
            &&& final(headers).deep_view() == old(headers).deep_view() + new_headers
            &&& final(df)@ == add_records(old(df)@, final(headers).deep_view(), rows)
        },
        r is Err ==> *final(headers) == *old(headers) && final(df)@ == old(df)@,
{
    match read_csv_table(data) {
        Ok((new_headers, rows)) => {
            load_records(df, headers, new_headers, &rows);
            Ok(())
        },
        Err(e) => Err(ReadError::Csv(e)),
    }
}

} // verus!
