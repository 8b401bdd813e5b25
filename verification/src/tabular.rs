//! The byte-level tabular format shared by raw run artifacts and the derived
//! results table.
//!
//! A table is a sequence of rows, each a comma-separated list of fields
//! terminated by one newline. Fields are byte strings free of commas and
//! newlines; numbers are canonical decimal (no leading zeros). The format is
//! its own specification: `table_bytes` says exactly which bytes a table
//! renders to, the writer produces exactly those bytes, and the parser
//! accepts a byte string exactly when it is newline-terminated, yielding rows
//! that render back to the input.

use vstd::prelude::*;

verus! {

pub const COMMA: u8 = 44;

pub const NEWLINE: u8 = 10;

pub const DIGIT_ZERO: u8 = 48;

/// Whether a byte string is free of the separator `sep`.
pub open spec fn sep_free(p: Seq<u8>, sep: u8) -> bool {
    forall|i: int| 0 <= i < p.len() ==> p[i] != sep
}

/// The pieces joined with `sep` between each two.
pub open spec fn join_with(ps: Seq<Seq<u8>>, sep: u8) -> Seq<u8>
    decreases ps.len(),
{
    if ps.len() == 0 {
        Seq::empty()
    } else if ps.len() == 1 {
        ps[0]
    } else {
        join_with(ps.drop_last(), sep) + seq![sep] + ps.last()
    }
}

/// One row: its fields joined with commas.
pub open spec fn row_bytes(fields: Seq<Seq<u8>>) -> Seq<u8> {
    join_with(fields, COMMA)
}

/// A whole table: each row's bytes terminated by one newline.
pub open spec fn table_bytes(rows: Seq<Seq<Seq<u8>>>) -> Seq<u8>
    decreases rows.len(),
{
    if rows.len() == 0 {
        Seq::empty()
    } else {
        table_bytes(rows.drop_last()) + row_bytes(rows.last()) + seq![NEWLINE]
    }
}

/// Well-formed rows: at least one field each, and every field free of commas
/// and newlines, so that the rendering is unambiguous.
pub open spec fn rows_wf(rows: Seq<Seq<Seq<u8>>>) -> bool {
    &&& forall|j: int| 0 <= j < rows.len() ==> #[trigger] rows[j].len() >= 1
    &&& forall|j: int, k: int|
        0 <= j < rows.len() && 0 <= k < rows[j].len() ==> sep_free(#[trigger] rows[j][k], COMMA)
            && sep_free(rows[j][k], NEWLINE)
}

/// An equal copy of a byte string.
pub fn copy_bytes(src: &Vec<u8>, from: usize, to: usize) -> (r: Vec<u8>)
    requires
        from <= to <= src@.len(),
    ensures
        r@ == src@.subrange(from as int, to as int),
{
    let mut r: Vec<u8> = Vec::new();
    let mut i: usize = from;
    while i < to
        invariant
            from <= i <= to <= src@.len(),
            r@ == src@.subrange(from as int, i as int),
        decreases to - i,
    {
        r.push(src[i]);
        proof {
            assert(r@ =~= src@.subrange(from as int, i + 1));
        }
        i = i + 1;
    }
    r
}

/// Appending a byte to the last piece appends it to the join.
proof fn lemma_join_push_byte(ps: Seq<Seq<u8>>, sep: u8, b: u8)
    requires
        ps.len() > 0,
    ensures
        join_with(ps.update(ps.len() - 1, ps.last().push(b)), sep) == join_with(ps, sep).push(b),
{
    let ps2 = ps.update(ps.len() - 1, ps.last().push(b));
    if ps.len() == 1 {
        assert(join_with(ps2, sep) =~= join_with(ps, sep).push(b));
    } else {
        assert(ps2.drop_last() =~= ps.drop_last());
        assert(join_with(ps2, sep) =~= join_with(ps, sep).push(b));
    }
}

/// Opening a new empty piece appends one separator to the join.
proof fn lemma_join_push_empty(ps: Seq<Seq<u8>>, sep: u8)
    requires
        ps.len() > 0,
    ensures
        join_with(ps.push(Seq::empty()), sep) == join_with(ps, sep).push(sep),
{
    let ps2 = ps.push(Seq::<u8>::empty());
    assert(ps2.drop_last() =~= ps);
    assert(join_with(ps2, sep) =~= join_with(ps, sep).push(sep));
}

/// Splits `src[from..to]` at every occurrence of `sep`: the pieces are
/// `sep`-free and joining them with `sep` restores the input exactly.
pub fn split_bytes(src: &Vec<u8>, from: usize, to: usize, sep: u8) -> (r: Vec<Vec<u8>>)
    requires
        from <= to <= src@.len(),
    ensures
        r.deep_view().len() >= 1,
        forall|j: int| 0 <= j < r.deep_view().len() ==> sep_free(#[trigger] r.deep_view()[j], sep),
        join_with(r.deep_view(), sep) == src@.subrange(from as int, to as int),
{
    let mut out: Vec<Vec<u8>> = Vec::new();
    let mut cur: Vec<u8> = Vec::new();
    let mut i: usize = from;
    while i < to
        invariant
            from <= i <= to <= src@.len(),
            sep_free(cur@, sep),
            forall|j: int|
                0 <= j < out.deep_view().len() ==> sep_free(#[trigger] out.deep_view()[j], sep),
            join_with(out.deep_view().push(cur@), sep) == src@.subrange(from as int, i as int),
        decreases to - i,
    {
        let ghost pieces = out.deep_view().push(cur@);
        let b = src[i];
        if b == sep {
            proof {
                lemma_join_push_empty(pieces, sep);
            }
            out.push(cur);
            cur = Vec::new();
            proof {
                assert(out.deep_view() =~~= pieces);
                assert forall|j: int| 0 <= j < out.deep_view().len() implies sep_free(
                    #[trigger] out.deep_view()[j],
                    sep,
                ) by {
                    assert(out.deep_view()[j] == pieces[j]);
                }
                assert(out.deep_view().push(cur@) =~~= pieces.push(Seq::<u8>::empty()));
                assert(src@.subrange(from as int, i + 1) =~= src@.subrange(from as int, i as int).push(
                    src@[i as int],
                ));
            }
        } else {
            proof {
                lemma_join_push_byte(pieces, sep, b);
            }
            cur.push(b);
            proof {
                assert(out.deep_view().push(cur@) =~~= pieces.update(pieces.len() - 1, pieces.last().push(
                    b,
                )));
                assert(src@.subrange(from as int, i + 1) =~= src@.subrange(from as int, i as int).push(
                    src@[i as int],
                ));
            }
        }
        i = i + 1;
    }
    let ghost pieces = out.deep_view().push(cur@);
    out.push(cur);
    proof {
        assert(out.deep_view() =~~= pieces);
    }
    out
}

/// Whether a byte is a decimal digit.
pub open spec fn is_digit(b: u8) -> bool {
    DIGIT_ZERO <= b <= DIGIT_ZERO + 9
}

/// The value of a digit string read as decimal.
pub open spec fn dec_val(s: Seq<u8>) -> nat
    decreases s.len(),
{
    if s.len() == 0 {
        0
    } else {
        dec_val(s.drop_last()) * 10 + (s.last() - DIGIT_ZERO) as nat
    }
}

/// A canonical decimal numeral: nonempty, all digits, no leading zero.
pub open spec fn is_canonical_dec(s: Seq<u8>) -> bool {
    &&& s.len() > 0
    &&& forall|i: int| 0 <= i < s.len() ==> is_digit(#[trigger] s[i])
    &&& (s.len() > 1 ==> s[0] != DIGIT_ZERO)
}

/// The canonical decimal numeral of a number.
pub open spec fn dec_digits(n: nat) -> Seq<u8>
    decreases n,
{
    if n < 10 {
        seq![(DIGIT_ZERO + n) as u8]
    } else {
        dec_digits(n / 10).push((DIGIT_ZERO + n % 10) as u8)
    }
}

/// The canonical numeral of `n` is canonical and reads back as `n`.
pub proof fn lemma_dec_digits_canonical(n: nat)
    ensures
        is_canonical_dec(dec_digits(n)),
        dec_val(dec_digits(n)) == n,
        n > 0 ==> dec_digits(n)[0] != DIGIT_ZERO,
    decreases n,
{
    if n < 10 {
        let s = dec_digits(n);
        assert(s.drop_last() =~= Seq::<u8>::empty());
        assert(dec_val(Seq::<u8>::empty()) == 0);
    } else {
        lemma_dec_digits_canonical(n / 10);
        let s = dec_digits(n);
        let h = dec_digits(n / 10);
        assert(s.drop_last() =~= h);
        assert(dec_val(s) == dec_val(h) * 10 + n % 10);
        assert(n / 10 * 10 + n % 10 == n) by (nonlinear_arith);
        assert(s[0] == h[0]);
    }
}

/// A longer digit prefix never reads as a smaller number.
proof fn lemma_dec_val_take_le(s: Seq<u8>, i: int)
    requires
        0 <= i <= s.len(),
    ensures
        dec_val(s.take(i)) <= dec_val(s),
    decreases s.len() - i,
{
    if i < s.len() {
        lemma_dec_val_take_le(s, i + 1);
        let t = s.take(i + 1);
        assert(t.drop_last() =~= s.take(i));
        assert(dec_val(t) == dec_val(s.take(i)) * 10 + (t.last() - DIGIT_ZERO) as nat);
        assert(dec_val(s.take(i)) <= dec_val(s.take(i)) * 10) by (nonlinear_arith);
    } else {
        assert(s.take(i) =~= s);
    }
}

/// Renders a number as its canonical decimal numeral.
pub fn render_u64(v: u64) -> (r: Vec<u8>)
    ensures
        r@ == dec_digits(v as nat),
    decreases v,
{
    if v < 10 {
        let mut r: Vec<u8> = Vec::new();
        r.push(DIGIT_ZERO + (v as u8));
        proof {
            assert(r@ =~= dec_digits(v as nat));
        }
        r
    } else {
        let mut r = render_u64(v / 10);
        r.push(DIGIT_ZERO + ((v % 10) as u8));
        proof {
            assert(r@ =~= dec_digits(v as nat));
        }
        r
    }
}

/// Reads a canonical decimal numeral. Accepts exactly the canonical numerals
/// whose value fits a `u64`, and returns that value.
pub fn parse_u64(field: &Vec<u8>) -> (r: Option<u64>)
    ensures
        r is Some <==> is_canonical_dec(field@) && dec_val(field@) <= u64::MAX,
        r matches Some(v) ==> v as nat == dec_val(field@),
{
    let n = field.len();
    if n == 0 {
        return None;
    }
    if n > 1 && field[0] == DIGIT_ZERO {
        return None;
    }
    let mut acc: u64 = 0;
    let mut i: usize = 0;
    while i < n
        invariant
            n == field@.len(),
            0 < n,
            i <= n,
            n > 1 ==> field@[0] != DIGIT_ZERO,
            forall|k: int| 0 <= k < i ==> is_digit(#[trigger] field@[k]),
            acc as nat == dec_val(field@.take(i as int)),
        decreases n - i,
    {
        let b = field[i];
        if b < DIGIT_ZERO || b > DIGIT_ZERO + 9 {
            return None;
        }
        let d = b - DIGIT_ZERO;
        proof {
            assert(field@.take(i + 1).drop_last() =~= field@.take(i as int));
            assert(field@.take(i + 1).last() == field@[i as int]);
        }
        let shifted = match acc.checked_mul(10) {
            Some(x) => x,
            None => {
                proof {
                    assert(dec_val(field@.take(i + 1)) > u64::MAX);
                    lemma_dec_val_take_le(field@, i + 1);
                }
                return None;
            }
        };
        acc = match shifted.checked_add(d as u64) {
            Some(x) => x,
            None => {
                proof {
                    assert(dec_val(field@.take(i + 1)) > u64::MAX);
                    lemma_dec_val_take_le(field@, i + 1);
                }
                return None;
            }
        };
        i = i + 1;
    }
    proof {
        assert(field@.take(n as int) =~= field@);
    }
    Some(acc)
}

/// Renders rows of fields as one table: each row comma-joined, newline-
/// terminated.
pub fn render_table(rows: &Vec<Vec<Vec<u8>>>) -> (r: Vec<u8>)
    ensures
        r@ == table_bytes(rows.deep_view()),
{
    let n = rows.len();
    let mut out: Vec<u8> = Vec::new();
    let mut i: usize = 0;
    while i < n
        invariant
            n == rows@.len(),
            i <= n,
            out@ == table_bytes(rows.deep_view().take(i as int)),
        decreases n - i,
    {
        proof {
            assert(rows.deep_view().take(i + 1).drop_last() =~~= rows.deep_view().take(i as int));
            assert(rows.deep_view().take(i + 1).last() =~~= rows.deep_view()[i as int]);
            assert(rows.deep_view()[i as int] =~~= rows@[i as int].deep_view());
        }
        let ghost target = table_bytes(rows.deep_view().take(i + 1));
        let row = &rows[i];
        let m = row.len();
        let mut k: usize = 0;
        while k < m
            invariant
                m == row@.len(),
                k <= m,
                k == 0 ==> out@ == table_bytes(rows.deep_view().take(i as int)),
                k > 0 ==> out@ == table_bytes(rows.deep_view().take(i as int)) + join_with(
                    row.deep_view().take(k as int),
                    COMMA,
                ),
            decreases m - k,
        {
            if k > 0 {
                out.push(COMMA);
            }
            let f = &row[k];
            let fl = f.len();
            let mut p: usize = 0;
            while p < fl
                invariant
                    fl == f@.len(),
                    p <= fl,
                    k == 0 ==> out@ == table_bytes(rows.deep_view().take(i as int)) + f@.take(
                        p as int,
                    ),
                    k > 0 ==> out@ == table_bytes(rows.deep_view().take(i as int)) + join_with(
                        row.deep_view().take(k as int),
                        COMMA,
                    ) + seq![COMMA] + f@.take(p as int),
                decreases fl - p,
            {
                out.push(f[p]);
                proof {
                    assert(f@.take(p + 1) =~= f@.take(p as int).push(f@[p as int]));
                    if k == 0 {
                        assert(out@ =~= table_bytes(rows.deep_view().take(i as int)) + f@.take(
                            p + 1,
                        ));
                    } else {
                        assert(out@ =~= table_bytes(rows.deep_view().take(i as int)) + join_with(
                            row.deep_view().take(k as int),
                            COMMA,
                        ) + seq![COMMA] + f@.take(p + 1));
                    }
                }
                p = p + 1;
            }
            proof {
                assert(f@.take(fl as int) =~= f@);
                assert(row.deep_view().take(k + 1).drop_last() =~~= row.deep_view().take(k as int));
                assert(row.deep_view().take(k + 1).last() =~~= row.deep_view()[k as int]);
                assert(row.deep_view()[k as int] =~~= f@);
                if k == 0 {
                    assert(join_with(row.deep_view().take(1), COMMA) == row.deep_view().take(1)[0]);
                    assert(row.deep_view().take(1)[0] =~~= f@);
                    assert(out@ =~= table_bytes(rows.deep_view().take(i as int)) + join_with(
                        row.deep_view().take(k + 1),
                        COMMA,
                    ));
                } else {
                    assert(join_with(row.deep_view().take(k + 1), COMMA) == join_with(
                        row.deep_view().take(k as int),
                        COMMA,
                    ) + seq![COMMA] + f@);
                    assert(out@ =~= table_bytes(rows.deep_view().take(i as int)) + join_with(
                        row.deep_view().take(k + 1),
                        COMMA,
                    ));
                }
            }
            k = k + 1;
        }
        if m == 0 {
            proof {
                assert(row.deep_view().take(0) =~~= Seq::<Seq<u8>>::empty());
                assert(join_with(Seq::<Seq<u8>>::empty(), COMMA) =~= Seq::<u8>::empty());
                assert(out@ =~= table_bytes(rows.deep_view().take(i as int)) + join_with(
                    row.deep_view(),
                    COMMA,
                ));
            }
        }
        out.push(NEWLINE);
        proof {
            assert(row.deep_view().take(m as int) =~~= row.deep_view());
            assert(out@ =~= table_bytes(rows.deep_view().take(i as int)) + row_bytes(
                rows.deep_view().take(i + 1).last(),
            ) + seq![NEWLINE]);
            assert(out@ =~= target);
        }
        i = i + 1;
    }
    proof {
        assert(rows.deep_view().take(n as int) =~~= rows.deep_view());
    }
    out
}

/// A nonempty table's last byte is a newline.
pub proof fn lemma_table_bytes_terminated(rows: Seq<Seq<Seq<u8>>>)
    ensures
        rows.len() > 0 ==> table_bytes(rows).len() > 0 && table_bytes(rows).last() == NEWLINE,
        rows.len() == 0 ==> table_bytes(rows).len() == 0,
{
}

/// Lines that each render one row, joined with newlines and terminated,
/// render the whole table.
proof fn lemma_table_of_lines(rows: Seq<Seq<Seq<u8>>>, lines: Seq<Seq<u8>>)
    requires
        rows.len() == lines.len(),
        rows.len() > 0,
        forall|k: int| 0 <= k < rows.len() ==> row_bytes(#[trigger] rows[k]) == lines[k],
    ensures
        table_bytes(rows) == join_with(lines, NEWLINE).push(NEWLINE),
    decreases rows.len(),
{
    if rows.len() == 1 {
        assert(rows.drop_last() =~= Seq::<Seq<Seq<u8>>>::empty());
        assert(table_bytes(Seq::<Seq<Seq<u8>>>::empty()) =~= Seq::<u8>::empty());
        assert(table_bytes(rows) =~= join_with(lines, NEWLINE).push(NEWLINE));
    } else {
        lemma_table_of_lines(rows.drop_last(), lines.drop_last());
        assert(rows.drop_last().len() == lines.drop_last().len());
        assert(table_bytes(rows) == table_bytes(rows.drop_last()) + row_bytes(rows.last())
            + seq![NEWLINE]);
        assert(join_with(lines, NEWLINE) == join_with(lines.drop_last(), NEWLINE) + seq![NEWLINE]
            + lines.last());
        assert(table_bytes(rows) =~= join_with(lines, NEWLINE).push(NEWLINE));
    }
}

/// Parses a table: accepts exactly the empty input and every newline-
/// terminated input, and the rows it yields render back to the input.
pub fn parse_table(bytes: &Vec<u8>) -> (r: Option<Vec<Vec<Vec<u8>>>>)
    ensures
        r is Some <==> (bytes@.len() == 0 || bytes@.last() == NEWLINE),
        r matches Some(rows) ==> {
            &&& table_bytes(rows.deep_view()) == bytes@
            &&& rows_wf(rows.deep_view())
        },
{
    let n = bytes.len();
    if n == 0 {
        let rows: Vec<Vec<Vec<u8>>> = Vec::new();
        proof {
            assert(rows.deep_view() =~~= Seq::<Seq<Seq<u8>>>::empty());
            assert(table_bytes(rows.deep_view()) =~= bytes@);
        }
        return Some(rows);
    }
    if bytes[n - 1] != NEWLINE {
        return None;
    }
    let lines = split_bytes(bytes, 0, n - 1, NEWLINE);
    let ghost linesv = lines.deep_view();
    let mut rows: Vec<Vec<Vec<u8>>> = Vec::new();
    let ln = lines.len();
    let mut i: usize = 0;
    while i < ln
        invariant
            ln == lines@.len(),
            linesv == lines.deep_view(),
            i <= ln,
            rows.deep_view().len() == i,
            forall|k: int| 0 <= k < i ==> #[trigger] rows.deep_view()[k].len() >= 1,
            forall|k: int|
                0 <= k < i ==> row_bytes(#[trigger] rows.deep_view()[k]) == linesv[k],
            forall|k: int| 0 <= k < ln ==> sep_free(#[trigger] linesv[k], NEWLINE),
            forall|j: int, k: int|
                0 <= j < i && 0 <= k < rows.deep_view()[j].len() ==> sep_free(
                    #[trigger] rows.deep_view()[j][k],
                    COMMA,
                ) && sep_free(rows.deep_view()[j][k], NEWLINE),
        decreases ln - i,
    {
        let line = &lines[i];
        let fields = split_bytes(line, 0, line.len(), COMMA);
        let ghost fv = fields.deep_view();
        proof {
            assert(line@.subrange(0, line@.len() as int) =~= line@);
            assert(linesv[i as int] =~~= line@);
            assert forall|k: int| 0 <= k < fv.len() implies sep_free(#[trigger] fv[k], NEWLINE) by {
                lemma_join_pieces_sep_free(fv, COMMA, NEWLINE, k);
            }
        }
        let ghost rows0 = rows.deep_view();
        rows.push(fields);
        proof {
            assert(rows.deep_view() =~~= rows0.push(fv));
        }
        i = i + 1;
    }
    proof {
        assert(linesv.len() >= 1);
        lemma_table_of_lines(rows.deep_view(), linesv);
        assert(bytes@.subrange(0, n - 1).push(NEWLINE) =~= bytes@);
    }
    Some(rows)
}

/// A byte of a piece occurs in the join, so a join free of some byte has
/// pieces free of it too.
proof fn lemma_join_pieces_sep_free(ps: Seq<Seq<u8>>, sep: u8, other: u8, k: int)
    requires
        0 <= k < ps.len(),
        sep_free(join_with(ps, sep), other),
    ensures
        sep_free(ps[k], other),
    decreases ps.len(),
{
    if ps.len() == 1 {
    } else {
        let j = join_with(ps, sep);
        let h = join_with(ps.drop_last(), sep);
        if k == ps.len() - 1 {
            assert forall|i: int| 0 <= i < ps[k].len() implies ps[k][i] != other by {
                assert(j[h.len() + 1 + i] == ps[k][i]);
            }
        } else {
            assert(sep_free(h, other)) by {
                assert forall|i: int| 0 <= i < h.len() implies h[i] != other by {
                    assert(j[i] == h[i]);
                }
            }
            lemma_join_pieces_sep_free(ps.drop_last(), sep, other, k);
        }
    }
}

} // verus!

verus! {

/// Joining `sep`-free pieces with `sep` is injective: the pieces can be read
/// back unambiguously.
pub proof fn lemma_join_unique(ps1: Seq<Seq<u8>>, ps2: Seq<Seq<u8>>, sep: u8)
    requires
        ps1.len() >= 1,
        ps2.len() >= 1,
        forall|j: int| 0 <= j < ps1.len() ==> sep_free(#[trigger] ps1[j], sep),
        forall|j: int| 0 <= j < ps2.len() ==> sep_free(#[trigger] ps2[j], sep),
        join_with(ps1, sep) == join_with(ps2, sep),
    ensures
        ps1 == ps2,
    decreases ps1.len(),
{
    let j = join_with(ps1, sep);
    if ps1.len() == 1 && ps2.len() == 1 {
        assert(ps1 =~= ps2);
    } else if ps1.len() == 1 {
        let b = join_with(ps2.drop_last(), sep);
        assert(j[b.len() as int] == sep);
        assert(false);
    } else if ps2.len() == 1 {
        let a = join_with(ps1.drop_last(), sep);
        assert(j[a.len() as int] == sep);
        assert(false);
    } else {
        let a = join_with(ps1.drop_last(), sep);
        let b = join_with(ps2.drop_last(), sep);
        assert(j == a + seq![sep] + ps1.last());
        assert(j == b + seq![sep] + ps2.last());
        assert(j.len() == a.len() + 1 + ps1.last().len());
        assert(j.len() == b.len() + 1 + ps2.last().len());
        if a.len() < b.len() {
            let t = b.len() - a.len() - 1;
            assert(j[b.len() as int] == sep);
            assert((a + seq![sep] + ps1.last())[a.len() + 1 + t] == ps1.last()[t]);
            assert(false);
        }
        if b.len() < a.len() {
            let t = a.len() - b.len() - 1;
            assert(j[a.len() as int] == sep);
            assert((b + seq![sep] + ps2.last())[b.len() + 1 + t] == ps2.last()[t]);
            assert(false);
        }
        assert(a.len() == b.len());
        assert forall|i: int| 0 <= i < a.len() implies a[i] == b[i] by {
            assert(j[i] == a[i]);
            assert(j[i] == b[i]);
        }
        assert(a =~= b);
        assert(ps1.last().len() == ps2.last().len());
        assert forall|t: int| 0 <= t < ps1.last().len() implies ps1.last()[t] == ps2.last()[t] by {
            assert(j[a.len() + 1 + t] == ps1.last()[t]);
            assert(j[b.len() + 1 + t] == ps2.last()[t]);
        }
        assert(ps1.last() =~= ps2.last());
        lemma_join_unique(ps1.drop_last(), ps2.drop_last(), sep);
        assert(ps1.len() == ps2.len());
        assert forall|i: int| 0 <= i < ps1.len() implies ps1[i] == ps2[i] by {
            if i < ps1.len() - 1 {
                assert(ps1.drop_last()[i] == ps1[i]);
                assert(ps2.drop_last()[i] == ps2[i]);
            } else {
                assert(ps1[i] == ps1.last());
                assert(ps2[i] == ps2.last());
            }
        }
        assert(ps1 =~= ps2);
    }
}

/// A join made with one separator stays free of a different byte that none
/// of its pieces holds.
proof fn lemma_join_free_of_other(ps: Seq<Seq<u8>>, sep: u8, other: u8)
    requires
        sep != other,
        forall|k: int| 0 <= k < ps.len() ==> sep_free(#[trigger] ps[k], other),
    ensures
        sep_free(join_with(ps, sep), other),
    decreases ps.len(),
{
    if ps.len() > 1 {
        lemma_join_free_of_other(ps.drop_last(), sep, other);
        let j = join_with(ps, sep);
        let h = join_with(ps.drop_last(), sep);
        assert forall|i: int| 0 <= i < j.len() implies j[i] != other by {
            if i < h.len() {
                assert(j[i] == h[i]);
            } else if i == h.len() {
                assert(j[i] == sep);
            } else {
                assert(j[i] == ps.last()[i - h.len() - 1]);
            }
        }
    }
}

/// Well-formed rows render to distinct tables: the table bytes determine the
/// rows exactly.
pub proof fn lemma_table_bytes_unique(r1: Seq<Seq<Seq<u8>>>, r2: Seq<Seq<Seq<u8>>>)
    requires
        rows_wf(r1),
        rows_wf(r2),
        table_bytes(r1) == table_bytes(r2),
    ensures
        r1 == r2,
{
    lemma_table_bytes_terminated(r1);
    lemma_table_bytes_terminated(r2);
    if r1.len() == 0 || r2.len() == 0 {
        assert(r1.len() == 0 && r2.len() == 0);
        assert(r1 =~= r2);
    } else {
        let lines1 = Seq::new(r1.len(), |k: int| row_bytes(r1[k]));
        let lines2 = Seq::new(r2.len(), |k: int| row_bytes(r2[k]));
        lemma_table_of_lines(r1, lines1);
        lemma_table_of_lines(r2, lines2);
        let t1 = join_with(lines1, NEWLINE);
        let t2 = join_with(lines2, NEWLINE);
        assert forall|k: int| 0 <= k < r1.len() implies row_bytes(#[trigger] r1[k]) == lines1[k] by {}
        assert forall|k: int| 0 <= k < r2.len() implies row_bytes(#[trigger] r2[k]) == lines2[k] by {}
        assert(table_bytes(r1) == t1.push(NEWLINE));
        assert(table_bytes(r2) == t2.push(NEWLINE));
        assert(t1.push(NEWLINE) == t2.push(NEWLINE));
        assert(t1.len() == t2.len());
        assert forall|i: int| 0 <= i < t1.len() implies t1[i] == t2[i] by {
            assert(t1.push(NEWLINE)[i] == t1[i]);
            assert(t2.push(NEWLINE)[i] == t2[i]);
        }
        assert(t1 =~= t2);
        assert forall|k: int| 0 <= k < lines1.len() implies sep_free(#[trigger] lines1[k], NEWLINE) by {
            lemma_join_free_of_other(r1[k], COMMA, NEWLINE);
        }
        assert forall|k: int| 0 <= k < lines2.len() implies sep_free(#[trigger] lines2[k], NEWLINE) by {
            lemma_join_free_of_other(r2[k], COMMA, NEWLINE);
        }
        lemma_join_unique(lines1, lines2, NEWLINE);
        assert forall|k: int| 0 <= k < r1.len() implies r1[k] == r2[k] by {
            assert(row_bytes(r1[k]) == lines1[k]);
            assert(row_bytes(r2[k]) == lines2[k]);
            lemma_join_unique(r1[k], r2[k], COMMA);
        }
        assert(r1 =~= r2);
    }
}

} // verus!

verus! {

/// A canonical numeral with a nonzero leading digit reads as a positive
/// number, and at least ten when it has more than one digit.
proof fn lemma_canonical_positive(s: Seq<u8>)
    requires
        is_canonical_dec(s),
        s[0] != DIGIT_ZERO,
    ensures
        dec_val(s) >= 1,
        s.len() > 1 ==> dec_val(s) >= 10,
    decreases s.len(),
{
    if s.len() > 1 {
        let h = s.drop_last();
        assert(h[0] == s[0]);
        assert forall|i: int| 0 <= i < h.len() implies is_digit(#[trigger] h[i]) by {
            assert(h[i] == s[i]);
        }
        lemma_canonical_positive(h);
        assert(dec_val(s) == dec_val(h) * 10 + (s.last() - DIGIT_ZERO) as nat);
        assert(dec_val(h) * 10 >= 10) by (nonlinear_arith)
            requires dec_val(h) >= 1;
    }
}

/// Reading a canonical numeral and rendering the value gives the numeral
/// back: canonical numerals and numbers correspond one to one.
pub proof fn lemma_canonical_roundtrip(s: Seq<u8>)
    requires
        is_canonical_dec(s),
    ensures
        dec_digits(dec_val(s)) == s,
    decreases s.len(),
{
    if s.len() == 1 {
        assert(s.drop_last() =~= Seq::<u8>::empty());
        assert(dec_val(Seq::<u8>::empty()) == 0);
        assert(dec_val(s) == (s[0] - DIGIT_ZERO) as nat);
        assert(dec_digits(dec_val(s)) =~= s);
    } else {
        let h = s.drop_last();
        let d = (s.last() - DIGIT_ZERO) as nat;
        assert(h[0] == s[0]);
        assert forall|i: int| 0 <= i < h.len() implies is_digit(#[trigger] h[i]) by {
            assert(h[i] == s[i]);
        }
        lemma_canonical_positive(h);
        let v = dec_val(s);
        assert(v == dec_val(h) * 10 + d);
        assert(v / 10 == dec_val(h) && v % 10 == d) by (nonlinear_arith)
            requires v == dec_val(h) * 10 + d && 0 <= d < 10;
        assert(v >= 10) by (nonlinear_arith)
            requires v == dec_val(h) * 10 + d && dec_val(h) >= 1;
        lemma_canonical_roundtrip(h);
        assert(dec_digits(v) == dec_digits(dec_val(h)).push((DIGIT_ZERO + d) as u8));
        assert((DIGIT_ZERO + d) as u8 == s.last());
        assert(dec_digits(v) =~= s);
    }
}

/// Digits are neither commas nor newlines, so a canonical numeral is a
/// well-formed field.
pub proof fn lemma_canonical_sep_free(s: Seq<u8>)
    requires
        is_canonical_dec(s),
    ensures
        sep_free(s, COMMA),
        sep_free(s, NEWLINE),
{
}

} // verus!
