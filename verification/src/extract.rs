//! Extractor: turns raw per-run artifacts into normalized records under an
//! attribution policy.
//!
//! A raw artifact is one table (see `tabular`) of samples: event name,
//! counter class, the combined counter value measured with the co-located
//! aggressor running, and the aggressor-alone baseline for the same counter
//! and window (zero for solo runs). Extraction applies one attribution filter
//! per counter class: `Shared` reports the combined value unchanged;
//! `Exclusive` subtracts the baseline, floored at zero. A malformed artifact
//! is skipped with a warning and extraction continues over the rest.

use vstd::prelude::*;
use crate::events::CounterClass;
use crate::tabular::{
    COMMA, NEWLINE, copy_bytes, dec_digits, dec_val, is_canonical_dec, lemma_canonical_roundtrip,
    lemma_canonical_sep_free, lemma_dec_digits_canonical, lemma_table_bytes_terminated,
    lemma_table_bytes_unique, parse_table, parse_u64, render_table, rows_wf, sep_free, table_bytes,
};

verus! {

/// The attribution policy for one counter class.
#[derive(Clone, Copy, Debug, PartialEq, Eq, Structural)]
pub enum AttributionFilter {
    /// Attribute only the portion caused by the workload under study:
    /// combined value minus the co-located baseline, floored at zero.
    Exclusive,
    /// Report the raw combined value with no adjustment.
    Shared,
}

/// One counter reading recovered from a raw artifact.
pub struct RawSample {
    pub event_name: Vec<u8>,
    pub class: CounterClass,
    pub combined: u64,
    pub baseline: u64,
}

/// The mathematical content of one sample.
pub struct SampleData {
    pub event_name: Seq<u8>,
    pub class: CounterClass,
    pub combined: u64,
    pub baseline: u64,
}

impl View for RawSample {
    type V = SampleData;

    open spec fn view(&self) -> SampleData {
        SampleData {
            event_name: self.event_name@,
            class: self.class,
            combined: self.combined,
            baseline: self.baseline,
        }
    }
}

/// The class field tag of a sample row.
pub open spec fn class_tag(c: CounterClass) -> Seq<u8> {
    match c {
        CounterClass::Core => seq![99u8, 111u8, 114u8, 101u8],
        CounterClass::Uncore => seq![117u8, 110u8, 99u8, 111u8, 114u8, 101u8],
    }
}

/// A usable event name: nonempty and free of the two separators.
pub open spec fn name_wf(n: Seq<u8>) -> bool {
    &&& n.len() > 0
    &&& sep_free(n, COMMA)
    &&& sep_free(n, NEWLINE)
}

pub open spec fn sample_wf(s: SampleData) -> bool {
    name_wf(s.event_name)
}

pub open spec fn samples_wf(ss: Seq<SampleData>) -> bool {
    forall|i: int| 0 <= i < ss.len() ==> sample_wf(#[trigger] ss[i])
}

/// The table row of one sample.
pub open spec fn sample_fields(s: SampleData) -> Seq<Seq<u8>> {
    seq![
        s.event_name,
        class_tag(s.class),
        dec_digits(s.combined as nat),
        dec_digits(s.baseline as nat),
    ]
}

pub open spec fn samples_rows(ss: Seq<SampleData>) -> Seq<Seq<Seq<u8>>> {
    ss.map_values(|s: SampleData| sample_fields(s))
}

/// The version row that opens every raw artifact, so the file names its own
/// format: "perfraw1".
pub open spec fn version_row() -> Seq<Seq<u8>> {
    seq![seq![112u8, 101u8, 114u8, 102u8, 114u8, 97u8, 119u8, 49u8]]
}

/// The exact bytes of the raw artifact holding these samples: the version
/// row, then one row per sample.
pub open spec fn artifact_bytes(ss: Seq<SampleData>) -> Seq<u8> {
    table_bytes(seq![version_row()] + samples_rows(ss))
}

pub open spec fn samples_view(v: Seq<RawSample>) -> Seq<SampleData> {
    v.map_values(|s: RawSample| s@)
}

/// Whether a byte string is the artifact of some well-formed sample list.
pub open spec fn artifact_ok(bytes: Seq<u8>) -> bool {
    exists|sv: Seq<SampleData>| samples_wf(sv) && artifact_bytes(sv) == bytes
}

/// The sample list a readable artifact holds.
pub open spec fn artifact_samples(bytes: Seq<u8>) -> Seq<SampleData> {
    choose|sv: Seq<SampleData>| samples_wf(sv) && artifact_bytes(sv) == bytes
}

/// Version and sample rows are well-formed table rows.
proof fn lemma_sample_rows_wf(ss: Seq<SampleData>)
    requires
        samples_wf(ss),
    ensures
        rows_wf(seq![version_row()] + samples_rows(ss)),
{
    let rows = seq![version_row()] + samples_rows(ss);
    assert forall|j: int, k: int|
        0 <= j < rows.len() && 0 <= k < rows[j].len() implies sep_free(
        #[trigger] rows[j][k],
        COMMA,
    ) && sep_free(rows[j][k], NEWLINE) by {
        if j == 0 {
            assert(rows[0] == version_row());
        } else {
            assert(rows[j] == sample_fields(ss[j - 1]));
            lemma_dec_digits_canonical(ss[j - 1].combined as nat);
            lemma_dec_digits_canonical(ss[j - 1].baseline as nat);
            lemma_canonical_sep_free(dec_digits(ss[j - 1].combined as nat));
            lemma_canonical_sep_free(dec_digits(ss[j - 1].baseline as nat));
        }
    }
    assert forall|j: int| 0 <= j < rows.len() implies #[trigger] rows[j].len() >= 1 by {
        if j == 0 {
            assert(rows[0] == version_row());
        } else {
            assert(rows[j] == sample_fields(ss[j - 1]));
        }
    }
}

/// What a valid sample row looks like.
pub open spec fn row_is_sample(row: Seq<Seq<u8>>) -> bool {
    &&& row.len() == 4
    &&& row[0].len() > 0
    &&& (row[1] == class_tag(CounterClass::Core) || row[1] == class_tag(CounterClass::Uncore))
    &&& is_canonical_dec(row[2]) && dec_val(row[2]) <= u64::MAX
    &&& is_canonical_dec(row[3]) && dec_val(row[3]) <= u64::MAX
}

/// The row of a well-formed sample is a valid sample row.
proof fn lemma_sample_row_valid(s: SampleData)
    requires
        sample_wf(s),
    ensures
        row_is_sample(sample_fields(s)),
{
    lemma_dec_digits_canonical(s.combined as nat);
    lemma_dec_digits_canonical(s.baseline as nat);
}

/// A sample row determines the sample.
proof fn lemma_sample_fields_injective(s1: SampleData, s2: SampleData)
    requires
        sample_fields(s1) == sample_fields(s2),
    ensures
        s1 == s2,
{
    assert(sample_fields(s1)[0] == sample_fields(s2)[0]);
    assert(sample_fields(s1)[1] == sample_fields(s2)[1]);
    assert(sample_fields(s1)[2] == sample_fields(s2)[2]);
    assert(sample_fields(s1)[3] == sample_fields(s2)[3]);
    assert(class_tag(s1.class).len() == class_tag(s2.class).len());
    assert(s1.class == s2.class);
    lemma_dec_digits_canonical(s1.combined as nat);
    lemma_dec_digits_canonical(s2.combined as nat);
    lemma_dec_digits_canonical(s1.baseline as nat);
    lemma_dec_digits_canonical(s2.baseline as nat);
}

/// Whether two byte strings hold the same bytes.
pub fn bytes_eq(a: &Vec<u8>, b: &Vec<u8>) -> (r: bool)
    ensures
        r == (a@ == b@),
{
    if a.len() != b.len() {
        return false;
    }
    let n = a.len();
    let mut i: usize = 0;
    while i < n
        invariant
            n == a@.len() == b@.len(),
            i <= n,
            forall|k: int| 0 <= k < i ==> a@[k] == b@[k],
        decreases n - i,
    {
        if a[i] != b[i] {
            return false;
        }
        i = i + 1;
    }
    proof {
        assert(a@ =~= b@);
    }
    true
}

/// The class tag as bytes.
pub fn class_tag_bytes(c: CounterClass) -> (r: Vec<u8>)
    ensures
        r@ == class_tag(c),
{
    let mut r: Vec<u8> = Vec::new();
    match c {
        CounterClass::Core => {
            r.push(99);
            r.push(111);
            r.push(114);
            r.push(101);
        }
        CounterClass::Uncore => {
            r.push(117);
            r.push(110);
            r.push(99);
            r.push(111);
            r.push(114);
            r.push(101);
        }
    }
    proof {
        assert(r@ =~= class_tag(c));
    }
    r
}

/// Reads a class field tag back.
fn tag_class(f: &Vec<u8>) -> (r: Option<CounterClass>)
    ensures
        r is Some <==> (f@ == class_tag(CounterClass::Core) || f@ == class_tag(
            CounterClass::Uncore,
        )),
        r matches Some(c) ==> class_tag(c) == f@,
{
    let core = class_tag_bytes(CounterClass::Core);
    if bytes_eq(f, &core) {
        return Some(CounterClass::Core);
    }
    let uncore = class_tag_bytes(CounterClass::Uncore);
    if bytes_eq(f, &uncore) {
        return Some(CounterClass::Uncore);
    }
    None
}

/// The version row as byte vectors.
fn version_fields() -> (r: Vec<Vec<u8>>)
    ensures
        r.deep_view() == version_row(),
        r@.len() == 1,
{
    let mut tag: Vec<u8> = Vec::new();
    tag.push(112);
    tag.push(101);
    tag.push(114);
    tag.push(102);
    tag.push(114);
    tag.push(97);
    tag.push(119);
    tag.push(49);
    let mut r: Vec<Vec<u8>> = Vec::new();
    r.push(tag);
    proof {
        assert(r.deep_view() =~~= version_row());
    }
    r
}

/// Renders samples as one raw artifact, exactly as `artifact_bytes` states.
pub fn render_artifact(samples: &Vec<RawSample>) -> (r: Vec<u8>)
    requires
        samples_wf(samples_view(samples@)),
    ensures
        r@ == artifact_bytes(samples_view(samples@)),
{
    let n = samples.len();
    let mut rows: Vec<Vec<Vec<u8>>> = Vec::new();
    rows.push(version_fields());
    let mut i: usize = 0;
    while i < n
        invariant
            n == samples@.len(),
            i <= n,
            samples_wf(samples_view(samples@)),
            rows.deep_view() =~~= seq![version_row()] + samples_rows(
                samples_view(samples@).take(i as int),
            ),
        decreases n - i,
    {
        let s = &samples[i];
        let mut row: Vec<Vec<u8>> = Vec::new();
        row.push(copy_bytes(&s.event_name, 0, s.event_name.len()));
        row.push(class_tag_bytes(s.class));
        row.push(crate::tabular::render_u64(s.combined));
        row.push(crate::tabular::render_u64(s.baseline));
        proof {
            assert(s.event_name@.subrange(0, s.event_name@.len() as int) =~= s.event_name@);
            assert(row.deep_view() =~~= sample_fields(samples_view(samples@)[i as int]));
        }
        let ghost rows0 = rows.deep_view();
        rows.push(row);
        proof {
            assert(rows.deep_view() =~~= rows0.push(sample_fields(samples_view(samples@)[i as int])));
            assert(rows.deep_view() =~~= seq![version_row()] + samples_rows(
                samples_view(samples@).take(i + 1),
            ));
        }
        i = i + 1;
    }
    proof {
        assert(samples_view(samples@).take(n as int) =~= samples_view(samples@));
        assert(rows.deep_view() =~~= seq![version_row()] + samples_rows(samples_view(samples@)));
    }
    render_table(&rows)
}

/// Reads one table row as a sample. Accepts exactly the valid sample rows.
fn parse_sample_row(fields: &Vec<Vec<u8>>) -> (r: Option<RawSample>)
    ensures
        r is Some <==> row_is_sample(fields.deep_view()),
        r matches Some(s) ==> sample_fields(s@) == fields.deep_view(),
{
    if fields.len() != 4 {
        return None;
    }
    proof {
        let fv = fields.deep_view();
        assert(fv[0] =~= fields@[0]@);
        assert(fv[1] =~= fields@[1]@);
        assert(fv[2] =~= fields@[2]@);
        assert(fv[3] =~= fields@[3]@);
    }
    if fields[0].len() == 0 {
        return None;
    }
    let class = match tag_class(&fields[1]) {
        Some(c) => c,
        None => {
            return None;
        }
    };
    let combined = match parse_u64(&fields[2]) {
        Some(v) => v,
        None => {
            return None;
        }
    };
    let baseline = match parse_u64(&fields[3]) {
        Some(v) => v,
        None => {
            return None;
        }
    };
    let name = copy_bytes(&fields[0], 0, fields[0].len());
    let s = RawSample { event_name: name, class, combined, baseline };
    proof {
        let fv = fields.deep_view();
        assert(fv[0] =~= fields@[0]@);
        assert(fv[1] =~= fields@[1]@);
        assert(fv[2] =~= fields@[2]@);
        assert(fv[3] =~= fields@[3]@);
        assert(s@.event_name =~= fv[0]);
        lemma_canonical_roundtrip(fv[2]);
        lemma_canonical_roundtrip(fv[3]);
        assert(sample_fields(s@) =~~= fv);
    }
    Some(s)
}

/// Reads a raw artifact. Accepts exactly the artifacts of well-formed sample
/// lists, and returns the list the artifact holds.
pub fn parse_artifact(bytes: &Vec<u8>) -> (r: Option<Vec<RawSample>>)
    ensures
        r is Some <==> artifact_ok(bytes@),
        r matches Some(ss) ==> samples_wf(samples_view(ss@)) && artifact_bytes(samples_view(ss@))
            == bytes@,
{
    let rows = match parse_table(bytes) {
        Some(rows) => rows,
        None => {
            proof {
                assert forall|sv: Seq<SampleData>|
                    !(samples_wf(sv) && artifact_bytes(sv) == bytes@) by {
                    if samples_wf(sv) && artifact_bytes(sv) == bytes@ {
                        lemma_table_bytes_terminated(seq![version_row()] + samples_rows(sv));
                    }
                }
            }
            return None;
        }
    };
    let ghost rowsv = rows.deep_view();
    let n = rows.len();
    let version = version_fields();
    let version_bad = if n == 0 {
        true
    } else {
        let h = &rows[0];
        if h.len() != 1 {
            true
        } else {
            !bytes_eq(&h[0], &version[0])
        }
    };
    proof {
        if n > 0 {
            assert(rows@[0].deep_view() =~~= rowsv[0]);
        }
    }
    if version_bad {
        proof {
            assert forall|sv: Seq<SampleData>|
                !(samples_wf(sv) && artifact_bytes(sv) == bytes@) by {
                if samples_wf(sv) && artifact_bytes(sv) == bytes@ {
                    lemma_sample_rows_wf(sv);
                    lemma_table_bytes_unique(rowsv, seq![version_row()] + samples_rows(sv));
                    assert(rowsv[0] == version_row());
                    assert(rowsv.len() >= 1);
                    assert(n > 0);
                    assert(rows@[0].deep_view() == rowsv[0]);
                    assert(rows@[0]@.len() == 1);
                    assert(rows@[0]@[0]@ =~= rowsv[0][0]);
                    assert(version@[0]@ =~= version.deep_view()[0]);
                    assert(!version_bad);
                }
            }
        }
        return None;
    }
    proof {
        assert(rowsv[0] =~~= version_row());
    }
    let mut out: Vec<RawSample> = Vec::new();
    let mut i: usize = 1;
    while i < n
        invariant
            n == rows@.len(),
            n >= 1,
            rowsv == rows.deep_view(),
            rows_wf(rowsv),
            rowsv[0] == version_row(),
            table_bytes(rowsv) == bytes@,
            1 <= i <= n,
            samples_view(out@).len() == i - 1,
            forall|k: int| 1 <= k < i ==> row_is_sample(#[trigger] rowsv[k]),
            forall|k: int|
                0 <= k < i - 1 ==> sample_fields(#[trigger] samples_view(out@)[k]) == rowsv[k + 1],
        decreases n - i,
    {
        let s = match parse_sample_row(&rows[i]) {
            Some(s) => s,
            None => {
                proof {
                    assert(rows@[i as int].deep_view() =~~= rowsv[i as int]);
                    assert(!row_is_sample(rowsv[i as int]));
                    assert forall|sv: Seq<SampleData>|
                        !(samples_wf(sv) && artifact_bytes(sv) == bytes@) by {
                        if samples_wf(sv) && artifact_bytes(sv) == bytes@ {
                            lemma_sample_rows_wf(sv);
                            lemma_table_bytes_unique(rowsv, seq![version_row()] + samples_rows(sv));
                            lemma_sample_row_valid(sv[i - 1]);
                            assert((seq![version_row()] + samples_rows(sv))[i as int]
                                == sample_fields(sv[i - 1]));
                        }
                    }
                }
                return None;
            }
        };
        proof {
            assert(rows@[i as int].deep_view() =~~= rowsv[i as int]);
        }
        let ghost out0 = samples_view(out@);
        out.push(s);
        proof {
            assert(samples_view(out@) =~= out0.push(s@));
        }
        i = i + 1;
    }
    proof {
        assert(seq![version_row()] + samples_rows(samples_view(out@)) =~~= rowsv);
        assert forall|j: int| 0 <= j < samples_view(out@).len() implies sample_wf(
            #[trigger] samples_view(out@)[j],
        ) by {
            assert(sample_fields(samples_view(out@)[j]) == rowsv[j + 1]);
            assert(samples_view(out@)[j].event_name == sample_fields(samples_view(out@)[j])[0]);
            assert(rowsv[j + 1].len() >= 1);
            assert(sep_free(rowsv[j + 1][0], COMMA) && sep_free(rowsv[j + 1][0], NEWLINE));
            assert(row_is_sample(rowsv[j + 1]));
        }
        assert(artifact_bytes(samples_view(out@)) == bytes@);
        assert(samples_wf(samples_view(out@)));
        assert(artifact_ok(bytes@));
    }
    Some(out)
}

/// The artifact of a well-formed sample list always reads back as that list.
pub proof fn lemma_artifact_roundtrip(sv: Seq<SampleData>)
    requires
        samples_wf(sv),
    ensures
        artifact_ok(artifact_bytes(sv)),
        artifact_samples(artifact_bytes(sv)) == sv,
{
    assert(samples_wf(sv) && artifact_bytes(sv) == artifact_bytes(sv));
    let w = artifact_samples(artifact_bytes(sv));
    assert(samples_wf(w) && artifact_bytes(w) == artifact_bytes(sv));
    lemma_sample_rows_wf(sv);
    lemma_sample_rows_wf(w);
    lemma_table_bytes_unique(seq![version_row()] + samples_rows(sv), seq![version_row()]
        + samples_rows(w));
    assert forall|k: int| 0 <= k < sv.len() implies sv[k] == w[k] by {
        assert((seq![version_row()] + samples_rows(sv))[k + 1] == sample_fields(sv[k]));
        assert((seq![version_row()] + samples_rows(w))[k + 1] == sample_fields(w[k]));
        lemma_sample_fields_injective(sv[k], w[k]);
    }
    assert(sv =~= w);
}

/// The attributed value of one sample under a filter: `Shared` passes the
/// combined value through; `Exclusive` subtracts the baseline, floored at
/// zero.
pub open spec fn attributed_value(combined: u64, baseline: u64, f: AttributionFilter) -> u64 {
    match f {
        AttributionFilter::Shared => combined,
        AttributionFilter::Exclusive => if combined >= baseline {
            (combined - baseline) as u64
        } else {
            0
        },
    }
}

/// Applies one attribution filter to one counter reading.
pub fn attribute(combined: u64, baseline: u64, f: AttributionFilter) -> (r: u64)
    ensures
        r == attributed_value(combined, baseline, f),
        f is Shared ==> r == combined,
        f is Exclusive ==> r as int == if combined >= baseline {
            combined - baseline
        } else {
            0
        },
{
    match f {
        AttributionFilter::Shared => combined,
        AttributionFilter::Exclusive => if combined >= baseline {
            combined - baseline
        } else {
            0
        },
    }
}

/// Attribution law: the `Shared` filter reproduces the raw combined value
/// unchanged, and the `Exclusive` filter never attributes more than the
/// combined value and exactly the baseline-subtracted amount, floored at
/// zero.
pub proof fn lemma_attribution_policy(combined: u64, baseline: u64)
    ensures
        attributed_value(combined, baseline, AttributionFilter::Shared) == combined,
        attributed_value(combined, baseline, AttributionFilter::Exclusive) <= combined,
        attributed_value(combined, baseline, AttributionFilter::Exclusive) as int == if combined
            >= baseline {
            combined - baseline
        } else {
            0
        },
{
}

} // verus!

verus! {

/// One raw artifact handed in for extraction: the workload identity its path
/// was keyed by, and the file's bytes.
pub struct ArtifactInput {
    pub workload: Vec<u8>,
    pub bytes: Vec<u8>,
}

/// The mathematical content of one artifact input.
pub struct InputData {
    pub workload: Seq<u8>,
    pub bytes: Seq<u8>,
}

impl View for ArtifactInput {
    type V = InputData;

    open spec fn view(&self) -> InputData {
        InputData { workload: self.workload@, bytes: self.bytes@ }
    }
}

pub open spec fn inputs_view(v: Seq<ArtifactInput>) -> Seq<InputData> {
    v.map_values(|a: ArtifactInput| a@)
}

/// One normalized record: a derived, read-only view of the samples.
pub struct ExtractedRecord {
    pub workload: Vec<u8>,
    pub event: Vec<u8>,
    pub value: u64,
    pub filter: AttributionFilter,
}

/// The mathematical content of one record.
pub struct RecordData {
    pub workload: Seq<u8>,
    pub event: Seq<u8>,
    pub value: u64,
    pub filter: AttributionFilter,
}

impl View for ExtractedRecord {
    type V = RecordData;

    open spec fn view(&self) -> RecordData {
        RecordData {
            workload: self.workload@,
            event: self.event@,
            value: self.value,
            filter: self.filter,
        }
    }
}

pub open spec fn records_view(v: Seq<ExtractedRecord>) -> Seq<RecordData> {
    v.map_values(|r: ExtractedRecord| r@)
}

/// The filter that applies to a sample's counter class.
pub open spec fn filter_for(
    class: CounterClass,
    core_filter: AttributionFilter,
    uncore_filter: AttributionFilter,
) -> AttributionFilter {
    match class {
        CounterClass::Core => core_filter,
        CounterClass::Uncore => uncore_filter,
    }
}

/// The record one sample of one workload yields.
pub open spec fn record_of_sample(
    workload: Seq<u8>,
    s: SampleData,
    core_filter: AttributionFilter,
    uncore_filter: AttributionFilter,
) -> RecordData {
    let f = filter_for(s.class, core_filter, uncore_filter);
    RecordData {
        workload,
        event: s.event_name,
        value: attributed_value(s.combined, s.baseline, f),
        filter: f,
    }
}

pub open spec fn records_of_samples(
    workload: Seq<u8>,
    ss: Seq<SampleData>,
    core_filter: AttributionFilter,
    uncore_filter: AttributionFilter,
) -> Seq<RecordData> {
    ss.map_values(|s: SampleData| record_of_sample(workload, s, core_filter, uncore_filter))
}

/// All records the readable artifacts yield, in input order; a malformed
/// artifact contributes nothing.
pub open spec fn extracted_of(
    inputs: Seq<InputData>,
    core_filter: AttributionFilter,
    uncore_filter: AttributionFilter,
) -> Seq<RecordData>
    decreases inputs.len(),
{
    if inputs.len() == 0 {
        Seq::empty()
    } else {
        extracted_of(inputs.drop_last(), core_filter, uncore_filter) + if artifact_ok(
            inputs.last().bytes,
        ) {
            records_of_samples(
                inputs.last().workload,
                artifact_samples(inputs.last().bytes),
                core_filter,
                uncore_filter,
            )
        } else {
            Seq::empty()
        }
    }
}

/// How many artifacts are malformed and will be skipped with a warning.
pub open spec fn corrupt_count(inputs: Seq<InputData>) -> nat
    decreases inputs.len(),
{
    if inputs.len() == 0 {
        0
    } else {
        corrupt_count(inputs.drop_last()) + if artifact_ok(inputs.last().bytes) {
            0nat
        } else {
            1nat
        }
    }
}

/// Walks every artifact: parses it, applies the per-class attribution
/// filters, and emits the records. A malformed artifact is counted as one
/// warning and skipped; extraction continues across the rest and succeeds.
pub fn extract_records(
    inputs: &Vec<ArtifactInput>,
    core_filter: AttributionFilter,
    uncore_filter: AttributionFilter,
) -> (r: (Vec<ExtractedRecord>, usize))
    ensures
        records_view(r.0@) == extracted_of(inputs_view(inputs@), core_filter, uncore_filter),
        r.1 == corrupt_count(inputs_view(inputs@)),
{
    let n = inputs.len();
    let mut records: Vec<ExtractedRecord> = Vec::new();
    let mut warnings: usize = 0;
    let mut i: usize = 0;
    while i < n
        invariant
            n == inputs@.len(),
            i <= n,
            warnings <= i,
            records_view(records@) == extracted_of(
                inputs_view(inputs@).take(i as int),
                core_filter,
                uncore_filter,
            ),
            warnings == corrupt_count(inputs_view(inputs@).take(i as int)),
        decreases n - i,
    {
        let ghost iv = inputs_view(inputs@);
        proof {
            assert(iv.take(i + 1).drop_last() =~= iv.take(i as int));
            assert(iv.take(i + 1).last() == iv[i as int]);
        }
        let input = &inputs[i];
        match parse_artifact(&input.bytes) {
            None => {
                warnings = warnings + 1;
                proof {
                    assert(!artifact_ok(iv[i as int].bytes));
                    assert(records_view(records@) =~= extracted_of(
                        iv.take(i + 1),
                        core_filter,
                        uncore_filter,
                    ));
                }
            }
            Some(ss) => {
                proof {
                    lemma_artifact_roundtrip(samples_view(ss@));
                    assert(artifact_samples(iv[i as int].bytes) == samples_view(ss@));
                }
                let ghost base = records_view(records@);
                let ghost sv = samples_view(ss@);
                let m = ss.len();
                let mut j: usize = 0;
                while j < m
                    invariant
                        m == ss@.len(),
                        sv == samples_view(ss@),
                        j <= m,
                        records_view(records@) == base + records_of_samples(
                            input.workload@,
                            sv.take(j as int),
                            core_filter,
                            uncore_filter,
                        ),
                    decreases m - j,
                {
                    let s = &ss[j];
                    let f = match s.class {
                        CounterClass::Core => core_filter,
                        CounterClass::Uncore => uncore_filter,
                    };
                    let value = attribute(s.combined, s.baseline, f);
                    let ghost rs0 = records_view(records@);
                    records.push(
                        ExtractedRecord {
                            workload: copy_bytes(&input.workload, 0, input.workload.len()),
                            event: copy_bytes(&s.event_name, 0, s.event_name.len()),
                            value,
                            filter: f,
                        },
                    );
                    proof {
                        assert(input.workload@.subrange(0, input.workload@.len() as int)
                            =~= input.workload@);
                        assert(s.event_name@.subrange(0, s.event_name@.len() as int)
                            =~= s.event_name@);
                        assert(records_view(records@) =~= rs0.push(
                            record_of_sample(input.workload@, sv[j as int], core_filter, uncore_filter),
                        ));
                        assert(records_view(records@) =~= base + records_of_samples(
                            input.workload@,
                            sv.take(j + 1),
                            core_filter,
                            uncore_filter,
                        ));
                    }
                    j = j + 1;
                }
                proof {
                    assert(sv.take(m as int) =~= sv);
                    assert(records_view(records@) =~= extracted_of(
                        iv.take(i + 1),
                        core_filter,
                        uncore_filter,
                    ));
                }
            }
        }
        i = i + 1;
    }
    proof {
        assert(inputs_view(inputs@).take(n as int) =~= inputs_view(inputs@));
    }
    (records, warnings)
}

} // verus!
