//! The table file: CSV records framed by the `csv` crate, a header row of
//! channel names, then one row per sample index.

use vstd::prelude::*;
use crate::table::{has_channel, names_unique, ChannelTable, Columns};

verus! {

#[verifier::external_type_specification]
#[verifier::external_body]
pub struct ExCsvError(csv::Error);

/// The bytes that the `csv` writer, as `csv::Writer::from_writer` builds it,
/// emits for one record with the given fields.
pub uninterp spec fn csv_record_bytes(fields: Seq<Seq<char>>) -> Seq<u8>;

/// The records that the `csv` reader, with headers off and otherwise as
/// `csv::ReaderBuilder::new` sets it, finds in the given bytes; `None` where
/// it reports an error.
pub uninterp spec fn csv_records_of(bytes: Seq<u8>) -> Option<Seq<Seq<Seq<char>>>>;

/// A character that the `csv` writer copies as one byte, never quoting a
/// field for it: ASCII, and none of the delimiter, the quote, `\r`, `\n`.
pub open spec fn plain_char(c: char) -> bool {
    &&& (c as u32) < 128
    &&& c != ','
    &&& c != '"'
    &&& c != '\r'
    &&& c != '\n'
}

/// A record that the `csv` writer writes without any quoting: at least one
/// field, not a lone empty field, and only plain characters.
pub open spec fn plain_fields(fields: Seq<Seq<char>>) -> bool {
    &&& fields.len() >= 1
    &&& !(fields.len() == 1 && fields[0].len() == 0)
    &&& forall|i: int, j: int|
        0 <= i < fields.len() && 0 <= j < fields[i].len() ==> plain_char(#[trigger] fields[i][j])
}

/// The ASCII bytes of `s`.
pub open spec fn ascii_bytes(s: Seq<char>) -> Seq<u8> {
    s.map_values(|c: char| (c as u32) as u8)
}

/// The fields joined by commas (byte 44).
pub open spec fn joined_bytes(fields: Seq<Seq<char>>) -> Seq<u8>
    decreases fields.len(),
{
    if fields.len() <= 1 {
        if fields.len() == 0 {
            Seq::empty()
        } else {
            ascii_bytes(fields[0])
        }
    } else {
        joined_bytes(fields.drop_last()) + seq![44u8] + ascii_bytes(fields.last())
    }
}

/// Relies on `csv::Writer::from_writer`, `csv::Writer::write_record` and
/// `csv::Writer::into_inner` over an in-memory buffer: writing one record to
/// a fresh writer over a `Vec` cannot fail (the `Vec` accepts every write, and
/// the field-count check has no earlier record to compare with); the bytes are
/// those of that record, and a plain record is its fields joined by commas
/// and ended by a newline (byte 10).
#[verifier::external_body]
fn encode_record(fields: &Vec<String>) -> (r: Result<Vec<u8>, csv::Error>)
    ensures
        r is Ok,
        match r {
            Ok(b) => b@ == csv_record_bytes(fields.deep_view()),
            Err(_) => true,
        },
        match r {
            Ok(b) => plain_fields(fields.deep_view()) ==> b@ == joined_bytes(fields.deep_view())
                + seq![10u8],
            Err(_) => true,
        },
{
    let mut w = csv::Writer::from_writer(Vec::new());
    w.write_record(fields)?;
    w.into_inner().map_err(|e| csv::Error::from(e.into_error()))
}

/// Relies on `csv::Reader::records` (headers off): every record of the input,
/// the first one included, as text; or the reader's error. Either outcome is
/// fixed by the bytes alone.
#[verifier::external_body]
fn decode_records(bytes: &[u8]) -> (r: Result<Vec<Vec<String>>, csv::Error>)
    ensures
        match r {
            Ok(rows) => csv_records_of(bytes@) == Some(rows.deep_view()),
            Err(_) => csv_records_of(bytes@) is None,
        },
{
    let mut rdr = csv::ReaderBuilder::new().has_headers(false).from_reader(bytes);
    rdr.records().map(|rec| rec.map(|rec| rec.iter().map(String::from).collect())).collect()
}

/// The bytes of a file holding the given records, in order.
pub open spec fn csv_document(rows: Seq<Seq<Seq<char>>>) -> Seq<u8>
    decreases rows.len(),
{
    if rows.len() == 0 {
        Seq::empty()
    } else {
        csv_document(rows.drop_last()) + csv_record_bytes(rows.last())
    }
}

/// Every record is plain.
pub open spec fn all_plain(rows: Seq<Seq<Seq<char>>>) -> bool {
    forall|i: int| 0 <= i < rows.len() ==> plain_fields(#[trigger] rows[i])
}

/// The bytes of a file of plain records: each one's fields joined by commas,
/// then a newline (byte 10).
pub open spec fn plain_document(rows: Seq<Seq<Seq<char>>>) -> Seq<u8>
    decreases rows.len(),
{
    if rows.len() == 0 {
        Seq::empty()
    } else {
        plain_document(rows.drop_last()) + joined_bytes(rows.last()) + seq![10u8]
    }
}

/// Frames each row as one CSV record and concatenates them.
pub fn encode_rows(rows: &Vec<Vec<String>>) -> (r: Vec<u8>)
    ensures
        r@ == csv_document(rows.deep_view()),
        all_plain(rows.deep_view()) ==> r@ == plain_document(rows.deep_view()),
{
    let mut out: Vec<u8> = Vec::new();
    let mut i: usize = 0;
    while i < rows.len()
        invariant
            i <= rows@.len(),
            out@ == csv_document(rows.deep_view().take(i as int)),
            all_plain(rows.deep_view()) ==> out@ == plain_document(rows.deep_view().take(i as int)),
        decreases rows.len() - i,
    {
        let mut rec = encode_record(&rows[i]).unwrap();
        proof {
            let d = rows.deep_view();
            assert(d.take(i + 1).drop_last() =~= d.take(i as int));
            assert(d.take(i + 1).last() == rows@[i as int].deep_view());
            assert(d[i as int] == rows@[i as int].deep_view());
        }
        out.append(&mut rec);
        i = i + 1;
    }
    assert(rows.deep_view().take(i as int) =~= rows.deep_view());
    out
}

/// Why a table file could not be read.
#[derive(Debug)]
pub enum ReadError {
    /// The CSV framing is broken (unequal record lengths, invalid UTF-8).
    Csv(csv::Error),
    /// The file holds no record at all.
    MissingHeader,
    /// A header name is empty, or occurs twice.
    MalformedHeader,
    /// Data row `row` (counted from zero, after the header) does not have
    /// one field per header name.
    RowLength { row: usize },
    /// The field of data row `row` in column `column` is not a value.
    Parse { row: usize, column: usize },
}

/// A header is usable when its names are non-empty and distinct.
pub open spec fn header_ok(names: Seq<Seq<char>>) -> bool {
    &&& forall|c: int| 0 <= c < names.len() ==> #[trigger] names[c].len() > 0
    &&& names.no_duplicates()
}

/// Every row has `width` fields.
pub open spec fn rows_fit<A>(width: nat, rows: Seq<Seq<A>>) -> bool {
    forall|r: int| 0 <= r < rows.len() ==> #[trigger] rows[r].len() == width
}

/// Row `row` is the first one without `width` fields.
pub open spec fn first_misfit<A>(width: nat, rows: Seq<Seq<A>>, row: int) -> bool {
    &&& 0 <= row < rows.len()
    &&& rows[row].len() != width
    &&& rows_fit(width, rows.take(row))
}

/// The table whose channels are the header's names and whose channel `c`
/// holds field `c` of each row, in row order.
pub open spec fn columns_of<V>(names: Seq<Seq<char>>, rows: Seq<Seq<V>>) -> Columns<V> {
    Seq::new(names.len(), |c: int| (names[c], Seq::new(rows.len(), |r: int| rows[r][c])))
}

/// Whether the names are non-empty and distinct.
pub fn header_is_valid(names: &Vec<String>) -> (b: bool)
    ensures
        b == header_ok(names.deep_view()),
{
    let ghost d = names.deep_view();
    let mut c: usize = 0;
    while c < names.len()
        invariant
            c <= names@.len(),
            d == names.deep_view(),
            forall|k: int| 0 <= k < c ==> #[trigger] d[k].len() > 0,
            forall|i: int, j: int| 0 <= i < j < c ==> d[i] != d[j],
        decreases names.len() - c,
    {
        assert(d[c as int] == names@[c as int]@);
        if names[c].as_str().unicode_len() == 0 {
            return false;
        }
        let mut j: usize = 0;
        while j < c
            invariant
                j <= c,
                c < names@.len(),
                d == names.deep_view(),
                forall|i: int| 0 <= i < j ==> d[i] != d[c as int],
            decreases c - j,
        {
            assert(d[j as int] == names@[j as int]@);
            if names[j] == names[c] {
                assert(d[j as int] == d[c as int]);
                assert(!d.no_duplicates());
                return false;
            }
            j = j + 1;
        }
        c = c + 1;
    }
    true
}

/// Builds the table whose channels are `names`, channel `c` holding field `c`
/// of each row.
pub fn columns_from_rows<V: Copy>(names: &Vec<String>, rows: &Vec<Vec<V>>) -> (r: Result<
    ChannelTable<V>,
    ReadError,
>)
    ensures
        r matches Err(ReadError::MalformedHeader) <==> !header_ok(names.deep_view()),
        r matches Err(ReadError::RowLength { .. }) <==> header_ok(names.deep_view()) && !rows_fit(
            names@.len(),
            rows@.map_values(|v: Vec<V>| v@),
        ),
        r matches Err(ReadError::RowLength { row }) ==> first_misfit(
            names@.len(),
            rows@.map_values(|v: Vec<V>| v@),
            row as int,
        ),
        r is Ok <==> header_ok(names.deep_view()) && rows_fit(
            names@.len(),
            rows@.map_values(|v: Vec<V>| v@),
        ),
        r matches Ok(t) ==> t@ == columns_of(names.deep_view(), rows@.map_values(|v: Vec<V>| v@)),
        !(r matches Err(ReadError::Csv(_))),
        !(r matches Err(ReadError::MissingHeader)),
        !(r matches Err(ReadError::Parse { .. })),
{
    if !header_is_valid(names) {
        return Err(ReadError::MalformedHeader);
    }
    let ghost rs = rows@.map_values(|v: Vec<V>| v@);
    let n = names.len();
    let mut k: usize = 0;
    while k < rows.len()
        invariant
            k <= rows@.len(),
            n == names@.len(),
            rs == rows@.map_values(|v: Vec<V>| v@),
            rows_fit(n as nat, rs.take(k as int)),
            header_ok(names.deep_view()),
        decreases rows.len() - k,
    {
        assert(rs[k as int] == rows@[k as int]@);
        if rows[k].len() != n {
            assert(!rows_fit(n as nat, rs));
            return Err(ReadError::RowLength { row: k });
        }
        k = k + 1;
        assert forall|i: int| 0 <= i < k implies #[trigger] rs.take(k as int)[i].len() == n by {
            if i < k - 1 {
                assert(rs.take(k as int)[i] == rs.take(k - 1)[i]);
            }
        }
    }
    assert(rs.take(k as int) =~= rs);
    let ghost d = names.deep_view();
    let ghost want = columns_of(d, rs);
    let mut table: ChannelTable<V> = ChannelTable::new();
    let mut c: usize = 0;
    while c < n
        invariant
            c <= n,
            n == names@.len(),
            d == names.deep_view(),
            header_ok(d),
            rs == rows@.map_values(|v: Vec<V>| v@),
            rows_fit(n as nat, rs),
            want == columns_of(d, rs),
            table@ == want.take(c as int),
            names_unique(table@),
        decreases n - c,
    {
        let mut col: Vec<V> = Vec::new();
        let mut i: usize = 0;
        while i < rows.len()
            invariant
                i <= rows@.len(),
                c < n,
                n == names@.len(),
                rs == rows@.map_values(|v: Vec<V>| v@),
                rows_fit(n as nat, rs),
                col@ =~= Seq::new(i as nat, |r: int| rs[r][c as int]),
            decreases rows.len() - i,
        {
            assert(rs[i as int].len() == n);
            col.push(rows[i][c]);
            i = i + 1;
        }
        let name = names[c].clone();
        proof {
            assert(name@ == d[c as int]);
            if has_channel(table@, name@) {
                let j = choose|j: int| 0 <= j < table@.len() && #[trigger] table@[j].0 == name@;
                assert(table@[j].0 == d[j]);
                assert(d[j] == d[c as int]);
            }
        }
        table.add_channel(name, col);
        c = c + 1;
        assert(table@ =~= want.take(c as int));
    }
    assert(want.take(n as int) =~= want);
    Ok(table)
}

/// `parse` may turn the text `field` into `out`.
pub open spec fn parses_to<V, F: Fn(&str) -> Option<V>>(
    field: Seq<char>,
    parse: F,
    out: Option<V>,
) -> bool {
    exists|s: &str| s@ == field && #[trigger] call_ensures(parse, (s,), out)
}

/// Each field of `rows` reads, through `parse`, as the value at the same
/// place in `vals`.
pub open spec fn parsed_as<V, F: Fn(&str) -> Option<V>>(
    rows: Seq<Seq<Seq<char>>>,
    parse: F,
    vals: Seq<Seq<V>>,
) -> bool {
    &&& vals.len() == rows.len()
    &&& forall|r: int| 0 <= r < rows.len() ==> #[trigger] vals[r].len() == rows[r].len()
    &&& forall|r: int, c: int|
        0 <= r < rows.len() && 0 <= c < rows[r].len() ==> parses_to(
            rows[r][c],
            parse,
            Some(#[trigger] vals[r][c]),
        )
}

/// What reading the records `recs` (header first) gives.
pub open spec fn read_outcome<V, F: Fn(&str) -> Option<V>>(
    recs: Seq<Seq<Seq<char>>>,
    parse: F,
    r: Result<ChannelTable<V>, ReadError>,
) -> bool {
    let data = recs.drop_first();
    &&& (r matches Err(ReadError::MissingHeader)) <==> recs.len() == 0
    &&& (r matches Err(ReadError::MalformedHeader)) <==> recs.len() > 0 && !header_ok(recs[0])
    &&& (r matches Err(ReadError::RowLength { .. })) <==> recs.len() > 0 && header_ok(recs[0])
        && !rows_fit(recs[0].len(), data)
    &&& r matches Err(ReadError::RowLength { row }) ==> first_misfit(
        recs[0].len(),
        data,
        row as int,
    )
    &&& (r is Ok || (r matches Err(ReadError::Parse { .. }))) <==> recs.len() > 0 && header_ok(
        recs[0],
    ) && rows_fit(recs[0].len(), data)
    &&& r matches Err(ReadError::Parse { row, column }) ==> row < data.len() && column
        < recs[0].len() && parses_to(data[row as int][column as int], parse, None)
    &&& r matches Ok(t) ==> exists|vals: Seq<Seq<V>>|
        #[trigger] parsed_as(data, parse, vals) && t@ == columns_of(recs[0], vals)
}

/// Reads a table file: the CSV records of `bytes`, the first one naming the
/// channels, each later one giving one value per channel, turned into a
/// value by `parse`. A single field that does not parse fails the whole read.
pub fn read_csv_as_audio_data<V: Copy, F: Fn(&str) -> Option<V>>(bytes: &[u8], parse: F) -> (r:
    Result<ChannelTable<V>, ReadError>)
    requires
        forall|s: &str| call_requires(parse, (s,)),
    ensures
        r matches Err(ReadError::Csv(_)) <==> csv_records_of(bytes@) is None,
        match csv_records_of(bytes@) {
            Some(recs) => read_outcome(recs, parse, r),
            None => true,
        },
{
    match decode_records(bytes) {
        Ok(records) => table_from_records(&records, parse),
        Err(e) => Err(ReadError::Csv(e)),
    }
}

/// Builds the table from the records of a table file (header first): the
/// header names the channels, each later record gives one value per channel,
/// turned into a value by `parse`. A single field that does not parse fails
/// the whole read.
pub fn table_from_records<V: Copy, F: Fn(&str) -> Option<V>>(
    records: &Vec<Vec<String>>,
    parse: F,
) -> (r: Result<ChannelTable<V>, ReadError>)
    requires
        forall|s: &str| call_requires(parse, (s,)),
    ensures
        read_outcome(records.deep_view(), parse, r),
        !(r matches Err(ReadError::Csv(_))),
{
    let ghost recs = records.deep_view();
    if records.len() == 0 {
        return Err(ReadError::MissingHeader);
    }
    let ghost data = recs.drop_first();
    let header = &records[0];
    assert(header.deep_view() == recs[0]);
    if !header_is_valid(header) {
        return Err(ReadError::MalformedHeader);
    }
    let n = header.len();
    let mut k: usize = 1;
    while k < records.len()
        invariant
            1 <= k <= records@.len(),
            recs == records.deep_view(),
            data == recs.drop_first(),
            n == recs[0].len(),
            recs.len() > 0,
            header_ok(recs[0]),
            rows_fit(n as nat, data.take(k - 1)),
        decreases records.len() - k,
    {
        assert(data[k - 1] == records@[k as int].deep_view());
        if records[k].len() != n {
            assert(!rows_fit(n as nat, data));
            assert(first_misfit(n as nat, data, k - 1));
            return Err(ReadError::RowLength { row: k - 1 });
        }
        k = k + 1;
        assert forall|i: int| 0 <= i < k - 1 implies #[trigger] data.take(k - 1)[i].len() == n by {
            if i < k - 2 {
                assert(data.take(k - 1)[i] == data.take(k - 2)[i]);
            }
        }
    }
    assert(data.take(k - 1) =~= data);
    let mut vals: Vec<Vec<V>> = Vec::new();
    let mut k: usize = 1;
    while k < records.len()
        invariant
            1 <= k <= records@.len(),
            recs == records.deep_view(),
            data == recs.drop_first(),
            n == recs[0].len(),
            recs.len() > 0,
            header_ok(recs[0]),
            rows_fit(n as nat, data),
            forall|s: &str| call_requires(parse, (s,)),
            vals@.len() == k - 1,
            parsed_as(data.take(k - 1), parse, vals@.map_values(|v: Vec<V>| v@)),
        decreases records.len() - k,
    {
        let row = &records[k];
        assert(row.deep_view() == data[k - 1]);
        let mut out: Vec<V> = Vec::new();
        let mut c: usize = 0;
        while c < n
            invariant
                c <= n,
                n == row@.len(),
                row.deep_view() == data[k - 1],
                1 <= k < records@.len(),
                data.len() == records@.len() - 1,
                    recs == records.deep_view(),
                data == recs.drop_first(),
                n == recs[0].len(),
                recs.len() > 0,
                header_ok(recs[0]),
                rows_fit(n as nat, data),
                forall|s: &str| call_requires(parse, (s,)),
                out@.len() == c,
                forall|j: int| 0 <= j < c ==> parses_to(row@[j]@, parse, Some(#[trigger] out@[j])),
            decreases n - c,
        {
            let field = row[c].as_str();
            match parse(field) {
                Some(v) => {
                    out.push(v);
                },
                None => {
                    assert(data[k - 1][c as int] == row@[c as int]@);
                    assert(call_ensures(parse, (field,), None::<V>));
                    assert(parses_to(data[k - 1][c as int], parse, None::<V>));
                    return Err(ReadError::Parse { row: k - 1, column: c });
                },
            }
            c = c + 1;
        }
        let ghost before = vals@.map_values(|v: Vec<V>| v@);
        vals.push(out);
        proof {
            let now = vals@.map_values(|v: Vec<V>| v@);
            let dk = data.take(k as int);
            assert(now[k - 1] == out@);
            assert forall|r: int| 0 <= r < dk.len() implies #[trigger] now[r].len() == dk[r].len() by {
                if r < k - 1 {
                    assert(now[r] == before[r]);
                }
            }
            assert forall|r: int, c2: int| 0 <= r < dk.len() && 0 <= c2 < dk[r].len() implies parses_to(
                dk[r][c2],
                parse,
                Some(#[trigger] now[r][c2]),
            ) by {
                if r < k - 1 {
                    assert(now[r] == before[r]);
                    assert(dk[r] == data.take(k - 1)[r]);
                } else {
                    assert(dk[r] == row.deep_view());
                    assert(dk[r][c2] == row@[c2]@);
                }
            }
        }
        k = k + 1;
    }
    assert(data.take(k - 1) =~= data);
    let ghost vs = vals@.map_values(|v: Vec<V>| v@);
    assert(rows_fit(n as nat, vs));
    columns_from_rows(header, &vals)
}

} // verus!
