//! The derived results table: extracted records persisted as one flat
//! tabular file and read back for statistics.
//!
//! The table opens with a header row naming its columns — workload, event,
//! value, filter — so the file describes itself; each record row holds the
//! workload identity, the event name, the attributed value in canonical
//! decimal, and the filter that produced it.

use vstd::prelude::*;
use crate::extract::{
    AttributionFilter, bytes_eq, ExtractedRecord, name_wf, RecordData, records_view,
};
use crate::tabular::{
    COMMA, NEWLINE, copy_bytes, dec_digits, dec_val, is_canonical_dec, lemma_canonical_roundtrip,
    lemma_canonical_sep_free, lemma_dec_digits_canonical, lemma_table_bytes_terminated,
    lemma_table_bytes_unique, parse_table, parse_u64, render_table, render_u64, rows_wf, sep_free,
    table_bytes,
};

verus! {

/// The filter column tag.
pub open spec fn filter_tag(f: AttributionFilter) -> Seq<u8> {
    match f {
        // "exclusive"
        AttributionFilter::Exclusive => seq![
            101u8, 120u8, 99u8, 108u8, 117u8, 115u8, 105u8, 118u8, 101u8,
        ],
        // "shared"
        AttributionFilter::Shared => seq![115u8, 104u8, 97u8, 114u8, 101u8, 100u8],
    }
}

/// The header row naming the columns: workload, event, value, filter.
pub open spec fn header_row() -> Seq<Seq<u8>> {
    seq![
        seq![119u8, 111u8, 114u8, 107u8, 108u8, 111u8, 97u8, 100u8],
        seq![101u8, 118u8, 101u8, 110u8, 116u8],
        seq![118u8, 97u8, 108u8, 117u8, 101u8],
        seq![102u8, 105u8, 108u8, 116u8, 101u8, 114u8],
    ]
}

/// A record whose identities can stand in a table field.
pub open spec fn record_wf(r: RecordData) -> bool {
    &&& name_wf(r.workload)
    &&& name_wf(r.event)
}

pub open spec fn all_records_wf(rs: Seq<RecordData>) -> bool {
    forall|i: int| 0 <= i < rs.len() ==> record_wf(#[trigger] rs[i])
}

/// The table row of one record.
pub open spec fn record_fields(r: RecordData) -> Seq<Seq<u8>> {
    seq![r.workload, r.event, dec_digits(r.value as nat), filter_tag(r.filter)]
}

pub open spec fn records_rows(rs: Seq<RecordData>) -> Seq<Seq<Seq<u8>>> {
    rs.map_values(|r: RecordData| record_fields(r))
}

/// The exact bytes of the results table holding these records.
pub open spec fn results_bytes(rs: Seq<RecordData>) -> Seq<u8> {
    table_bytes(seq![header_row()] + records_rows(rs))
}

/// Whether a byte string is the results table of some well-formed records.
pub open spec fn results_ok(bytes: Seq<u8>) -> bool {
    exists|rs: Seq<RecordData>| all_records_wf(rs) && results_bytes(rs) == bytes
}

/// The records a readable results table holds.
pub open spec fn results_records(bytes: Seq<u8>) -> Seq<RecordData> {
    choose|rs: Seq<RecordData>| all_records_wf(rs) && results_bytes(rs) == bytes
}

/// Header and record rows are well-formed table rows.
proof fn lemma_results_rows_wf(rs: Seq<RecordData>)
    requires
        all_records_wf(rs),
    ensures
        rows_wf(seq![header_row()] + records_rows(rs)),
{
    let rows = seq![header_row()] + records_rows(rs);
    assert forall|j: int, k: int|
        0 <= j < rows.len() && 0 <= k < rows[j].len() implies sep_free(
        #[trigger] rows[j][k],
        COMMA,
    ) && sep_free(rows[j][k], NEWLINE) by {
        if j == 0 {
            assert(rows[0] == header_row());
        } else {
            assert(rows[j] == record_fields(rs[j - 1]));
            lemma_dec_digits_canonical(rs[j - 1].value as nat);
            lemma_canonical_sep_free(dec_digits(rs[j - 1].value as nat));
        }
    }
    assert forall|j: int| 0 <= j < rows.len() implies #[trigger] rows[j].len() >= 1 by {
        if j == 0 {
            assert(rows[0] == header_row());
        } else {
            assert(rows[j] == record_fields(rs[j - 1]));
        }
    }
}

/// What a valid record row looks like.
pub open spec fn row_is_record(row: Seq<Seq<u8>>) -> bool {
    &&& row.len() == 4
    &&& row[0].len() > 0
    &&& row[1].len() > 0
    &&& is_canonical_dec(row[2]) && dec_val(row[2]) <= u64::MAX
    &&& (row[3] == filter_tag(AttributionFilter::Exclusive) || row[3] == filter_tag(
        AttributionFilter::Shared,
    ))
}

/// A record row determines the record.
proof fn lemma_record_fields_injective(r1: RecordData, r2: RecordData)
    requires
        record_fields(r1) == record_fields(r2),
    ensures
        r1 == r2,
{
    assert(record_fields(r1)[0] == record_fields(r2)[0]);
    assert(record_fields(r1)[1] == record_fields(r2)[1]);
    assert(record_fields(r1)[2] == record_fields(r2)[2]);
    assert(record_fields(r1)[3] == record_fields(r2)[3]);
    assert(filter_tag(r1.filter).len() == filter_tag(r2.filter).len());
    assert(r1.filter == r2.filter);
    lemma_dec_digits_canonical(r1.value as nat);
    lemma_dec_digits_canonical(r2.value as nat);
}

/// The filter tag as bytes.
pub fn filter_tag_bytes(f: AttributionFilter) -> (r: Vec<u8>)
    ensures
        r@ == filter_tag(f),
{
    let mut r: Vec<u8> = Vec::new();
    match f {
        AttributionFilter::Exclusive => {
            r.push(101);
            r.push(120);
            r.push(99);
            r.push(108);
            r.push(117);
            r.push(115);
            r.push(105);
            r.push(118);
            r.push(101);
        }
        AttributionFilter::Shared => {
            r.push(115);
            r.push(104);
            r.push(97);
            r.push(114);
            r.push(101);
            r.push(100);
        }
    }
    proof {
        assert(r@ =~= filter_tag(f));
    }
    r
}

/// Reads a filter tag back.
fn tag_filter(f: &Vec<u8>) -> (r: Option<AttributionFilter>)
    ensures
        r is Some <==> (f@ == filter_tag(AttributionFilter::Exclusive) || f@ == filter_tag(
            AttributionFilter::Shared,
        )),
        r matches Some(x) ==> filter_tag(x) == f@,
{
    let exclusive = filter_tag_bytes(AttributionFilter::Exclusive);
    if bytes_eq(f, &exclusive) {
        return Some(AttributionFilter::Exclusive);
    }
    let shared = filter_tag_bytes(AttributionFilter::Shared);
    if bytes_eq(f, &shared) {
        return Some(AttributionFilter::Shared);
    }
    None
}

/// The header row as byte vectors.
fn header_fields() -> (r: Vec<Vec<u8>>)
    ensures
        r.deep_view() == header_row(),
        r@.len() == 4,
{
    let mut w: Vec<u8> = Vec::new();
    w.push(119);
    w.push(111);
    w.push(114);
    w.push(107);
    w.push(108);
    w.push(111);
    w.push(97);
    w.push(100);
    let mut e: Vec<u8> = Vec::new();
    e.push(101);
    e.push(118);
    e.push(101);
    e.push(110);
    e.push(116);
    let mut v: Vec<u8> = Vec::new();
    v.push(118);
    v.push(97);
    v.push(108);
    v.push(117);
    v.push(101);
    let mut f: Vec<u8> = Vec::new();
    f.push(102);
    f.push(105);
    f.push(108);
    f.push(116);
    f.push(101);
    f.push(114);
    let mut r: Vec<Vec<u8>> = Vec::new();
    r.push(w);
    r.push(e);
    r.push(v);
    r.push(f);
    proof {
        assert(r.deep_view() =~~= header_row());
    }
    r
}

/// Checks one record's identities for use as table fields.
fn record_is_wf(r: &ExtractedRecord) -> (ok: bool)
    ensures
        ok == record_wf(r@),
{
    if r.workload.len() == 0 || r.event.len() == 0 {
        return false;
    }
    let ok1 = field_clean(&r.workload);
    let ok2 = field_clean(&r.event);
    ok1 && ok2
}

/// Whether a byte string is free of commas and newlines.
fn field_clean(b: &Vec<u8>) -> (ok: bool)
    ensures
        ok == (sep_free(b@, COMMA) && sep_free(b@, NEWLINE)),
{
    let n = b.len();
    let mut i: usize = 0;
    while i < n
        invariant
            n == b@.len(),
            i <= n,
            forall|k: int| 0 <= k < i ==> b@[k] != COMMA && b@[k] != NEWLINE,
        decreases n - i,
    {
        if b[i] == COMMA || b[i] == NEWLINE {
            return false;
        }
        i = i + 1;
    }
    true
}

/// Renders records as the results table, exactly as `results_bytes` states;
/// refuses a record whose identities could not stand in a table field.
pub fn render_results(records: &Vec<ExtractedRecord>) -> (r: Option<Vec<u8>>)
    ensures
        r is Some <==> all_records_wf(records_view(records@)),
        r matches Some(bytes) ==> bytes@ == results_bytes(records_view(records@)),
{
    let n = records.len();
    let mut rows: Vec<Vec<Vec<u8>>> = Vec::new();
    rows.push(header_fields());
    let mut i: usize = 0;
    while i < n
        invariant
            n == records@.len(),
            i <= n,
            forall|k: int| 0 <= k < i ==> record_wf(#[trigger] records_view(records@)[k]),
            rows.deep_view() =~~= seq![header_row()] + records_rows(
                records_view(records@).take(i as int),
            ),
        decreases n - i,
    {
        let rec = &records[i];
        if !record_is_wf(rec) {
            proof {
                assert(records_view(records@)[i as int] == records@[i as int]@);
            }
            return None;
        }
        let mut row: Vec<Vec<u8>> = Vec::new();
        row.push(copy_bytes(&rec.workload, 0, rec.workload.len()));
        row.push(copy_bytes(&rec.event, 0, rec.event.len()));
        row.push(render_u64(rec.value));
        row.push(filter_tag_bytes(rec.filter));
        proof {
            assert(rec.workload@.subrange(0, rec.workload@.len() as int) =~= rec.workload@);
            assert(rec.event@.subrange(0, rec.event@.len() as int) =~= rec.event@);
            assert(row.deep_view() =~~= record_fields(records_view(records@)[i as int]));
        }
        let ghost rows0 = rows.deep_view();
        rows.push(row);
        proof {
            assert(rows.deep_view() =~~= rows0.push(record_fields(records_view(records@)[i as int])));
            assert(rows.deep_view() =~~= seq![header_row()] + records_rows(
                records_view(records@).take(i + 1),
            ));
        }
        i = i + 1;
    }
    proof {
        assert(records_view(records@).take(n as int) =~= records_view(records@));
    }
    Some(render_table(&rows))
}

/// Reads a results table. Accepts exactly the tables of well-formed record
/// lists, and returns the records the table holds.
pub fn parse_results(bytes: &Vec<u8>) -> (r: Option<Vec<ExtractedRecord>>)
    ensures
        r is Some <==> results_ok(bytes@),
        r matches Some(rs) ==> all_records_wf(records_view(rs@)) && results_bytes(
            records_view(rs@),
        ) == bytes@,
{
    let rows = match parse_table(bytes) {
        Some(rows) => rows,
        None => {
            proof {
                assert forall|rs: Seq<RecordData>|
                    !(all_records_wf(rs) && results_bytes(rs) == bytes@) by {
                    if all_records_wf(rs) && results_bytes(rs) == bytes@ {
                        lemma_table_bytes_terminated(seq![header_row()] + records_rows(rs));
                    }
                }
            }
            return None;
        }
    };
    let ghost rowsv = rows.deep_view();
    let n = rows.len();
    let header = header_fields();
    let header_bad = if n == 0 {
        true
    } else {
        let h = &rows[0];
        if h.len() != 4 {
            true
        } else {
            !(bytes_eq(&h[0], &header[0]) && bytes_eq(&h[1], &header[1]) && bytes_eq(
                &h[2],
                &header[2],
            ) && bytes_eq(&h[3], &header[3]))
        }
    };
    proof {
        if n > 0 {
            assert(rows@[0].deep_view() =~~= rowsv[0]);
        }
    }
    if header_bad {
        proof {
            assert forall|rs: Seq<RecordData>|
                !(all_records_wf(rs) && results_bytes(rs) == bytes@) by {
                if all_records_wf(rs) && results_bytes(rs) == bytes@ {
                    lemma_results_rows_wf(rs);
                    lemma_table_bytes_unique(rowsv, seq![header_row()] + records_rows(rs));
                    assert(rowsv[0] == header_row());
                    assert(rowsv.len() >= 1);
                    assert(n > 0);
                    assert(rows@[0].deep_view() == rowsv[0]);
                    assert(rows@[0]@.len() == 4);
                    assert(rows@[0]@[0]@ =~= rowsv[0][0]);
                    assert(rows@[0]@[1]@ =~= rowsv[0][1]);
                    assert(rows@[0]@[2]@ =~= rowsv[0][2]);
                    assert(rows@[0]@[3]@ =~= rowsv[0][3]);
                    assert(header@[0]@ =~= header.deep_view()[0]);
                    assert(header@[1]@ =~= header.deep_view()[1]);
                    assert(header@[2]@ =~= header.deep_view()[2]);
                    assert(header@[3]@ =~= header.deep_view()[3]);
                    assert(!header_bad);
                }
            }
        }
        return None;
    }
    proof {
        assert(rowsv[0] =~~= header_row());
    }
    let mut out: Vec<ExtractedRecord> = Vec::new();
    let mut i: usize = 1;
    while i < n
        invariant
            n == rows@.len(),
            n >= 1,
            rowsv == rows.deep_view(),
            rows_wf(rowsv),
            rowsv[0] == header_row(),
            table_bytes(rowsv) == bytes@,
            1 <= i <= n,
            records_view(out@).len() == i - 1,
            forall|k: int| 1 <= k < i ==> row_is_record(#[trigger] rowsv[k]),
            forall|k: int|
                0 <= k < i - 1 ==> record_fields(#[trigger] records_view(out@)[k]) == rowsv[k + 1],
        decreases n - i,
    {
        let rec = match parse_record_row(&rows[i]) {
            Some(rec) => rec,
            None => {
                proof {
                    assert(rows@[i as int].deep_view() =~~= rowsv[i as int]);
                    assert(!row_is_record(rowsv[i as int]));
                    assert forall|rs: Seq<RecordData>|
                        !(all_records_wf(rs) && results_bytes(rs) == bytes@) by {
                        if all_records_wf(rs) && results_bytes(rs) == bytes@ {
                            lemma_results_rows_wf(rs);
                            lemma_table_bytes_unique(rowsv, seq![header_row()] + records_rows(rs));
                            lemma_record_row_valid(rs[i - 1]);
                            assert((seq![header_row()] + records_rows(rs))[i as int]
                                == record_fields(rs[i - 1]));
                        }
                    }
                }
                return None;
            }
        };
        proof {
            assert(rows@[i as int].deep_view() =~~= rowsv[i as int]);
        }
        let ghost out0 = records_view(out@);
        out.push(rec);
        proof {
            assert(records_view(out@) =~= out0.push(rec@));
        }
        i = i + 1;
    }
    proof {
        assert(seq![header_row()] + records_rows(records_view(out@)) =~~= rowsv);
        assert forall|j: int| 0 <= j < records_view(out@).len() implies record_wf(
            #[trigger] records_view(out@)[j],
        ) by {
            assert(record_fields(records_view(out@)[j]) == rowsv[j + 1]);
            assert(records_view(out@)[j].workload == rowsv[j + 1][0]);
            assert(records_view(out@)[j].event == rowsv[j + 1][1]);
            assert(rowsv[j + 1].len() >= 1);
            assert(sep_free(rowsv[j + 1][0], COMMA) && sep_free(rowsv[j + 1][0], NEWLINE));
            assert(sep_free(rowsv[j + 1][1], COMMA) && sep_free(rowsv[j + 1][1], NEWLINE));
            assert(row_is_record(rowsv[j + 1]));
        }
        assert(results_bytes(records_view(out@)) == bytes@);
        assert(all_records_wf(records_view(out@)));
        assert(results_ok(bytes@));
    }
    Some(out)
}

/// The row of a well-formed record is a valid record row.
proof fn lemma_record_row_valid(r: RecordData)
    requires
        record_wf(r),
    ensures
        row_is_record(record_fields(r)),
{
    lemma_dec_digits_canonical(r.value as nat);
}

/// Reads one table row as a record. Accepts exactly the valid record rows.
fn parse_record_row(fields: &Vec<Vec<u8>>) -> (r: Option<ExtractedRecord>)
    ensures
        r is Some <==> row_is_record(fields.deep_view()),
        r matches Some(rec) ==> record_fields(rec@) == fields.deep_view(),
{
    if fields.len() != 4 {
        return None;
    }
    proof {
        let fv = fields.deep_view();
        assert(fv[0] =~= fields@[0]@);
        assert(fv[1] =~= fields@[1]@);
        assert(fv[2] =~= fields@[2]@);
        assert(fv[3] =~= fields@[3]@);
    }
    if fields[0].len() == 0 {
        return None;
    }
    if fields[1].len() == 0 {
        return None;
    }
    let value = match parse_u64(&fields[2]) {
        Some(v) => v,
        None => {
            return None;
        }
    };
    let filter = match tag_filter(&fields[3]) {
        Some(f) => f,
        None => {
            return None;
        }
    };
    let workload = copy_bytes(&fields[0], 0, fields[0].len());
    let event = copy_bytes(&fields[1], 0, fields[1].len());
    let rec = ExtractedRecord { workload, event, value, filter };
    proof {
        let fv = fields.deep_view();
        assert(rec@.workload =~= fv[0]);
        assert(rec@.event =~= fv[1]);
        lemma_canonical_roundtrip(fv[2]);
        assert(record_fields(rec@) =~~= fv);
    }
    Some(rec)
}

/// The results table of well-formed records always reads back as those
/// records.
pub proof fn lemma_results_roundtrip(rs: Seq<RecordData>)
    requires
        all_records_wf(rs),
    ensures
        results_ok(results_bytes(rs)),
        results_records(results_bytes(rs)) == rs,
{
    assert(all_records_wf(rs) && results_bytes(rs) == results_bytes(rs));
    let w = results_records(results_bytes(rs));
    assert(all_records_wf(w) && results_bytes(w) == results_bytes(rs));
    lemma_results_rows_wf(rs);
    lemma_results_rows_wf(w);
    lemma_table_bytes_unique(seq![header_row()] + records_rows(rs), seq![header_row()]
        + records_rows(w));
    assert forall|k: int| 0 <= k < rs.len() implies rs[k] == w[k] by {
        assert((seq![header_row()] + records_rows(rs))[k + 1] == record_fields(rs[k]));
        assert((seq![header_row()] + records_rows(w))[k + 1] == record_fields(w[k]));
        lemma_record_fields_injective(rs[k], w[k]);
    }
    assert(rs =~= w);
}

} // verus!
