//! Fixed-width ASCII rendering of a table: dashed borders, a centered
//! header, integers and nulls right-aligned, text left-aligned, and the
//! literal "NULL" for a null cell.

use vstd::prelude::*;
use vstd::string::StrSliceExecFns;
use crate::num::{dec_str, i32_str, digit_char, i32_len};
use crate::value::{Value, ValueV};
use crate::table::{Table, row_view, has_name, idx_of, sel_idxs};

verus! {

/// `n` copies of one character.
pub open spec fn rep_char(c: char, n: nat) -> Seq<char> {
    Seq::new(n, |i: int| c)
}

/// Right-aligned in a field of `w` cells; longer content is never cut.
pub open spec fn pad_left(s: Seq<char>, w: nat) -> Seq<char> {
    if s.len() >= w {
        s
    } else {
        rep_char(' ', (w - s.len()) as nat) + s
    }
}

/// Left-aligned in a field of `w` cells; longer content is never cut.
pub open spec fn pad_right(s: Seq<char>, w: nat) -> Seq<char> {
    if s.len() >= w {
        s
    } else {
        s + rep_char(' ', (w - s.len()) as nat)
    }
}

/// Centered in a field of `w` cells, the odd spare cell going right.
pub open spec fn centered(s: Seq<char>, w: nat) -> Seq<char> {
    if s.len() >= w {
        s
    } else {
        let d = (w - s.len()) as nat;
        rep_char(' ', d / 2) + s + rep_char(' ', (d - d / 2) as nat)
    }
}

/// The text of one cell before padding: "NULL" for a null.
pub open spec fn val_text(v: ValueV) -> Seq<char> {
    match v {
        ValueV::Int(Some(i)) => i32_str(i as int),
        ValueV::Text(Some(s)) => s,
        _ => seq!['N', 'U', 'L', 'L'],
    }
}

/// One padded cell: text left-aligned, integers and nulls right-aligned.
pub open spec fn cell(v: ValueV, w: nat) -> Seq<char> {
    match v {
        ValueV::Text(Some(s)) => pad_right(s, w),
        _ => pad_left(val_text(v), w),
    }
}

/// A dashed run covering a column of width `w` (at least one dash).
pub open spec fn dashes(w: nat) -> Seq<char> {
    if w < 1 {
        rep_char('-', 1)
    } else {
        rep_char('-', w)
    }
}

/// The border segments of the first `k` columns.
pub open spec fn border_cells(ws: Seq<usize>, k: int) -> Seq<char>
    decreases k,
{
    if k <= 0 {
        Seq::empty()
    } else {
        border_cells(ws, k - 1) + seq!['-'] + dashes(ws[k - 1] as nat) + seq!['-', '+']
    }
}

/// A border line: " +" then "-<dashes>-+" per column.
pub open spec fn border_line(ws: Seq<usize>) -> Seq<char> {
    seq![' ', '+'] + border_cells(ws, ws.len() as int) + seq!['\n']
}

/// The header segments of the first `k` columns, each name centered.
pub open spec fn header_cells(names: Seq<Seq<char>>, ws: Seq<usize>, k: int) -> Seq<char>
    decreases k,
{
    if k <= 0 {
        Seq::empty()
    } else {
        header_cells(names, ws, k - 1) + seq![' '] + centered(names[k - 1], ws[k - 1] as nat)
            + seq![' ', '|']
    }
}

/// The header line: " |" then " <name> |" per column.
pub open spec fn header_line(names: Seq<Seq<char>>, ws: Seq<usize>) -> Seq<char> {
    seq![' ', '|'] + header_cells(names, ws, names.len() as int) + seq!['\n']
}

/// The cell segments of the first `k` columns of one row.
pub open spec fn row_cells(row: Seq<ValueV>, ws: Seq<usize>, k: int) -> Seq<char>
    decreases k,
{
    if k <= 0 {
        Seq::empty()
    } else {
        row_cells(row, ws, k - 1) + seq![' ', '|', ' '] + cell(row[k - 1], ws[k - 1] as nat)
    }
}

/// One row's line: " | <cell>" per column, closed by " |".
pub open spec fn row_line(row: Seq<ValueV>, ws: Seq<usize>) -> Seq<char> {
    row_cells(row, ws, ws.len() as int) + seq![' ', '|', '\n']
}

/// The lines of the first `k` rows.
pub open spec fn body_lines(rows: Seq<Seq<ValueV>>, ws: Seq<usize>, k: int) -> Seq<char>
    decreases k,
{
    if k <= 0 {
        Seq::empty()
    } else {
        body_lines(rows, ws, k - 1) + row_line(rows[k - 1], ws)
    }
}

/// The whole grid: border, header, border, one line per row, border. It
/// reads nothing of a table but its column names, widths and row values.
pub open spec fn render(names: Seq<Seq<char>>, ws: Seq<usize>, rows: Seq<Seq<ValueV>>) -> Seq<
    char,
> {
    border_line(ws) + header_line(names, ws) + border_line(ws) + body_lines(
        rows,
        ws,
        rows.len() as int,
    ) + border_line(ws)
}

/// Relies on `String::from_iter` over `char`: the collected string holds
/// exactly the characters of the vector, in order.
#[verifier::external_body]
fn chars_to_string(v: &Vec<char>) -> (r: String)
    ensures
        r@ == v@,
{
    v.iter().collect()
}

/// Appends `n` copies of `c`.
fn push_rep(out: &mut Vec<char>, c: char, n: usize)
    ensures
        final(out)@ == old(out)@ + rep_char(c, n as nat),
{
    let ghost base = out@;
    let mut i: usize = 0;
    while i < n
        invariant
            i <= n,
            out@ == base + rep_char(c, i as nat),
        decreases n - i,
    {
        out.push(c);
        i += 1;
        proof {
            assert(base + rep_char(c, (i - 1) as nat) + seq![c] =~= base + rep_char(c, i as nat));
        }
    }
}

/// Appends the characters of a string.
fn push_str_chars(out: &mut Vec<char>, s: &str)
    ensures
        final(out)@ == old(out)@ + s@,
{
    let ghost base = out@;
    let n = s.unicode_len();
    let mut i: usize = 0;
    while i < n
        invariant
            i <= n,
            n == s@.len(),
            out@ == base + s@.take(i as int),
        decreases n - i,
    {
        out.push(s.get_char(i));
        i += 1;
        proof {
            assert(base + s@.take((i - 1) as int) + seq![s@[i - 1]] =~= base + s@.take(i as int));
        }
    }
    proof {
        assert(base + s@.take(n as int) =~= base + s@);
    }
}

/// The character of one decimal digit.
fn digit_exec(d: u64) -> (c: char)
    requires
        d <= 9,
    ensures
        c == digit_char(d as int),
{
    if d == 0 {
        '0'
    } else if d == 1 {
        '1'
    } else if d == 2 {
        '2'
    } else if d == 3 {
        '3'
    } else if d == 4 {
        '4'
    } else if d == 5 {
        '5'
    } else if d == 6 {
        '6'
    } else if d == 7 {
        '7'
    } else if d == 8 {
        '8'
    } else {
        '9'
    }
}

/// Appends the decimal digits of a nonnegative number.
fn push_dec(out: &mut Vec<char>, m: u64)
    ensures
        final(out)@ == old(out)@ + dec_str(m as int),
    decreases m,
{
    if m <= 9 {
        out.push(digit_exec(m));
        proof {
            assert(old(out)@ + seq![digit_char(m as int)] =~= out@);
        }
    } else {
        push_dec(out, m / 10);
        out.push(digit_exec(m % 10));
        proof {
            assert(old(out)@ + dec_str(m as int / 10) + seq![digit_char(m as int % 10)] =~= old(
                out,
            )@ + dec_str(m as int));
        }
    }
}

/// Appends the decimal rendering of a 32-bit integer, sign included.
fn push_i32(out: &mut Vec<char>, v: i32)
    ensures
        final(out)@ == old(out)@ + i32_str(v as int),
{
    if v < 0 {
        out.push('-');
        let m: u64 = (-(v as i64)) as u64;
        push_dec(out, m);
        proof {
            assert(old(out)@ + seq!['-'] + dec_str(m as int) =~= old(out)@ + i32_str(v as int));
        }
    } else {
        push_dec(out, v as u64);
    }
}

/// Appends one cell: the value's text padded to width `w`.
fn push_cell(out: &mut Vec<char>, v: &Value, w: usize)
    ensures
        final(out)@ == old(out)@ + cell(v@, w as nat),
{
    match v {
        Value::Text(os) => match os {
            Some(s) => {
                let len = s.as_str().unicode_len();
                push_str_chars(out, s.as_str());
                if len < w {
                    push_rep(out, ' ', w - len);
                    proof {
                        assert(old(out)@ + s@ + rep_char(' ', (w - s@.len()) as nat) =~= old(out)@
                            + cell(v@, w as nat));
                    }
                }
            },
            None => {
                if w > 4 {
                    push_rep(out, ' ', w - 4);
                }
                push_str_chars(out, "NULL");
                proof {
                    reveal_strlit("NULL");
                    assert("NULL"@ =~= seq!['N', 'U', 'L', 'L']);
                    if w > 4 {
                        assert(old(out)@ + rep_char(' ', (w - 4) as nat) + "NULL"@ =~= old(out)@
                            + cell(v@, w as nat));
                    } else {
                        assert(old(out)@ + "NULL"@ =~= old(out)@ + cell(v@, w as nat));
                    }
                }
            },
        },
        Value::Int(ov) => match ov {
            Some(x) => {
                let len = i32_len(*x);
                if len < w {
                    push_rep(out, ' ', w - len);
                }
                push_i32(out, *x);
                proof {
                    if len < w {
                        assert(old(out)@ + rep_char(' ', (w - i32_str(*x as int).len()) as nat)
                            + i32_str(*x as int) =~= old(out)@ + cell(v@, w as nat));
                    } else {
                        assert(old(out)@ + i32_str(*x as int) =~= old(out)@ + cell(v@, w as nat));
                    }
                }
            },
            None => {
                if w > 4 {
                    push_rep(out, ' ', w - 4);
                }
                push_str_chars(out, "NULL");
                proof {
                    reveal_strlit("NULL");
                    assert("NULL"@ =~= seq!['N', 'U', 'L', 'L']);
                    if w > 4 {
                        assert(old(out)@ + rep_char(' ', (w - 4) as nat) + "NULL"@ =~= old(out)@
                            + cell(v@, w as nat));
                    } else {
                        assert(old(out)@ + "NULL"@ =~= old(out)@ + cell(v@, w as nat));
                    }
                }
            },
        },
    }
}

impl Table {
    /// Appends one border line.
    fn push_border(&self, out: &mut Vec<char>)
        requires
            self.wf(),
        ensures
            final(out)@ == old(out)@ + border_line(self.widths@),
    {
        let ghost base = out@;
        out.push(' ');
        out.push('+');
        let n = self.widths.len();
        let mut k: usize = 0;
        proof {
            assert(out@ =~= base + seq![' ', '+'] + border_cells(self.widths@, 0));
        }
        while k < n
            invariant
                k <= n,
                n == self.widths@.len(),
                out@ == base + seq![' ', '+'] + border_cells(self.widths@, k as int),
            decreases n - k,
        {
            let ghost before = out@;
            out.push('-');
            let w = self.widths[k];
            if w < 1 {
                push_rep(out, '-', 1);
            } else {
                push_rep(out, '-', w);
            }
            out.push('-');
            out.push('+');
            k += 1;
            proof {
                assert(out@ =~= before + seq!['-'] + dashes(self.widths@[k - 1] as nat) + seq![
                    '-',
                    '+',
                ]);
                assert(out@ =~= base + seq![' ', '+'] + border_cells(self.widths@, k as int));
            }
        }
        out.push('\n');
        proof {
            assert(out@ =~= base + border_line(self.widths@));
        }
    }

    /// Appends the header line, each column name centered in its width.
    fn push_header(&self, out: &mut Vec<char>)
        requires
            self.wf(),
        ensures
            final(out)@ == old(out)@ + header_line(self.names(), self.widths@),
    {
        let ghost base = out@;
        out.push(' ');
        out.push('|');
        let n = self.cols.len();
        let mut k: usize = 0;
        proof {
            assert(out@ =~= base + seq![' ', '|'] + header_cells(self.names(), self.widths@, 0));
        }
        while k < n
            invariant
                self.wf(),
                k <= n,
                n == self.cols@.len(),
                out@ == base + seq![' ', '|'] + header_cells(self.names(), self.widths@, k as int),
            decreases n - k,
        {
            let ghost before = out@;
            out.push(' ');
            let w = self.widths[k];
            let name = &self.cols[k].name;
            let len = name.as_str().unicode_len();
            if len >= w {
                push_str_chars(out, name.as_str());
                proof {
                    assert(centered(name@, w as nat) == name@);
                }
            } else {
                let d = w - len;
                push_rep(out, ' ', d / 2);
                push_str_chars(out, name.as_str());
                push_rep(out, ' ', d - d / 2);
                proof {
                    assert(before + seq![' '] + rep_char(' ', (d / 2) as nat) + name@ + rep_char(
                        ' ',
                        (d - d / 2) as nat,
                    ) =~= before + seq![' '] + centered(name@, w as nat));
                }
            }
            out.push(' ');
            out.push('|');
            k += 1;
            proof {
                assert(self.names()[k - 1] == name@);
                assert(out@ =~= before + seq![' '] + centered(name@, self.widths@[k - 1] as nat)
                    + seq![' ', '|']);
                assert(out@ =~= base + seq![' ', '|'] + header_cells(
                    self.names(),
                    self.widths@,
                    k as int,
                ));
            }
        }
        out.push('\n');
        proof {
            assert(out@ =~= base + header_line(self.names(), self.widths@));
        }
    }

    /// Appends the line of row `t`.
    fn push_row(&self, out: &mut Vec<char>, t: usize)
        requires
            self.wf(),
            t < self.rows@.len(),
        ensures
            final(out)@ == old(out)@ + row_line(self.rdata()[t as int], self.widths@),
    {
        let ghost base = out@;
        let ghost row = self.rdata()[t as int];
        let n = self.cols.len();
        let mut k: usize = 0;
        proof {
            assert(out@ =~= base + row_cells(row, self.widths@, 0));
        }
        while k < n
            invariant
                self.wf(),
                t < self.rows@.len(),
                k <= n,
                n == self.cols@.len(),
                row == self.rdata()[t as int],
                out@ == base + row_cells(row, self.widths@, k as int),
            decreases n - k,
        {
            let ghost before = out@;
            out.push(' ');
            out.push('|');
            out.push(' ');
            push_cell(out, &self.rows[t][k], self.widths[k]);
            k += 1;
            proof {
                assert(row == row_view(self.rows@[t as int]@));
                assert(row[k - 1] == self.rows@[t as int]@[k - 1]@);
                assert(out@ =~= before + seq![' ', '|', ' '] + cell(
                    row[k - 1],
                    self.widths@[k - 1] as nat,
                ));
                assert(out@ =~= base + row_cells(row, self.widths@, k as int));
            }
        }
        out.push(' ');
        out.push('|');
        out.push('\n');
        proof {
            assert(out@ =~= base + row_line(row, self.widths@));
        }
    }

    /// The table rendered as an aligned ASCII grid.
    pub fn display(&self) -> (r: String)
        requires
            self.wf(),
        ensures
            r@ == render(self.names(), self.widths@, self.rdata()),
    {
        let mut out: Vec<char> = Vec::new();
        self.push_border(&mut out);
        self.push_header(&mut out);
        self.push_border(&mut out);
        let nr = self.rows.len();
        let ghost head = out@;
        let mut t: usize = 0;
        while t < nr
            invariant
                self.wf(),
                t <= nr,
                nr == self.rows@.len(),
                out@ == head + body_lines(self.rdata(), self.widths@, t as int),
            decreases nr - t,
        {
            let ghost before = out@;
            self.push_row(&mut out, t);
            t += 1;
            proof {
                assert(out@ =~= head + body_lines(self.rdata(), self.widths@, t as int));
            }
        }
        self.push_border(&mut out);
        proof {
            assert(out@ =~= render(self.names(), self.widths@, self.rdata()));
        }
        chars_to_string(&out)
    }
}

/// Two schemas that offer the same requested names select columns that
/// carry the same names, position for position.
proof fn lemma_sel_idxs_agree(an: Seq<Seq<char>>, bn: Seq<Seq<char>>, req: Seq<Seq<char>>)
    requires
        forall|i: int, j: int| 0 <= i < j < an.len() ==> an[i] != an[j],
        forall|i: int, j: int| 0 <= i < j < bn.len() ==> bn[i] != bn[j],
        forall|m: int|
            0 <= m < req.len() ==> (has_name(an, #[trigger] req[m]) <==> has_name(bn, req[m])),
    ensures
        sel_idxs(an, req).len() == sel_idxs(bn, req).len(),
        forall|k: int|
            0 <= k < sel_idxs(an, req).len() ==> {
                &&& 0 <= #[trigger] sel_idxs(an, req)[k] < an.len()
                &&& 0 <= sel_idxs(bn, req)[k] < bn.len()
                &&& an[sel_idxs(an, req)[k]] == bn[sel_idxs(bn, req)[k]]
                &&& req.contains(an[sel_idxs(an, req)[k]])
            },
    decreases req.len(),
{
    if req.len() > 0 {
        assert forall|m: int|
            0 <= m < req.drop_last().len() implies (has_name(
            an,
            #[trigger] req.drop_last()[m],
        ) <==> has_name(bn, req.drop_last()[m])) by {
            assert(req.drop_last()[m] == req[m]);
        }
        lemma_sel_idxs_agree(an, bn, req.drop_last());
        let ia = sel_idxs(an, req);
        let ib = sel_idxs(bn, req);
        let pa = sel_idxs(an, req.drop_last());
        let pb = sel_idxs(bn, req.drop_last());
        assert forall|k: int| 0 <= k < pa.len() implies req.contains(an[#[trigger] pa[k]]) by {
            let m = choose|m: int| 0 <= m < req.drop_last().len() && req.drop_last()[m] == an[pa[k]];
            assert(req[m] == an[pa[k]]);
        }
        assert(req[req.len() - 1] == req.last());
        if has_name(an, req.last()) {
            let x = idx_of(an, req.last());
            let y = idx_of(bn, req.last());
            assert(0 <= x < an.len() && an[x] == req.last());
            assert(0 <= y < bn.len() && bn[y] == req.last());
            assert(ia == pa.push(x) && ib == pb.push(y));
            assert(req.contains(an[x]));
        }
    }
}

/// Projection then rendering exposes only the requested columns, in the
/// requested order: two well-formed tables that agree on the requested
/// columns (same presence, widths and values, row for row) render the same
/// text after `select`, whatever else — other columns, table names — they
/// hold. `ra` and `rb` stand for the respective selection results, given by
/// `select`'s contract.
pub proof fn lemma_select_display_agrees(
    a: Table,
    b: Table,
    req: Seq<Seq<char>>,
    ra: Table,
    rb: Table,
)
    requires
        a.wf(),
        b.wf(),
        ra.wf(),
        rb.wf(),
        a.rows@.len() == b.rows@.len(),
        forall|i: int, j: int| 0 <= i < j < req.len() ==> req[i] != req[j],
        forall|m: int|
            0 <= m < req.len() ==> (has_name(a.names(), #[trigger] req[m]) <==> has_name(
                b.names(),
                req[m],
            )),
        forall|n: Seq<char>|
            #[trigger] req.contains(n) && has_name(a.names(), n) ==> a.widths@[idx_of(
                a.names(),
                n,
            )] == b.widths@[idx_of(b.names(), n)],
        forall|t: int, n: Seq<char>|
            0 <= t < a.rows@.len() && req.contains(n) && has_name(a.names(), n) ==> (
            #[trigger] a.rdata()[t][idx_of(a.names(), n)]) == b.rdata()[t][idx_of(b.names(), n)],
        ra.cols@.len() == sel_idxs(a.names(), req).len(),
        forall|k: int|
            0 <= k < ra.cols@.len() ==> (#[trigger] ra.names()[k]) == a.names()[sel_idxs(
                a.names(),
                req,
            )[k]] && ra.widths@[k] == a.widths@[sel_idxs(a.names(), req)[k]],
        ra.rows@.len() == a.rows@.len(),
        forall|t: int, k: int|
            0 <= t < ra.rows@.len() && 0 <= k < ra.cols@.len() ==> (#[trigger] ra.rdata()[t][k])
                == a.rdata()[t][sel_idxs(a.names(), req)[k]],
        rb.cols@.len() == sel_idxs(b.names(), req).len(),
        forall|k: int|
            0 <= k < rb.cols@.len() ==> (#[trigger] rb.names()[k]) == b.names()[sel_idxs(
                b.names(),
                req,
            )[k]] && rb.widths@[k] == b.widths@[sel_idxs(b.names(), req)[k]],
        rb.rows@.len() == b.rows@.len(),
        forall|t: int, k: int|
            0 <= t < rb.rows@.len() && 0 <= k < rb.cols@.len() ==> (#[trigger] rb.rdata()[t][k])
                == b.rdata()[t][sel_idxs(b.names(), req)[k]],
    ensures
        render(ra.names(), ra.widths@, ra.rdata()) == render(rb.names(), rb.widths@, rb.rdata()),
{
    let an = a.names();
    let bn = b.names();
    let ia = sel_idxs(an, req);
    let ib = sel_idxs(bn, req);
    lemma_sel_idxs_agree(an, bn, req);
    assert forall|k: int| 0 <= k < ia.len() implies an[#[trigger] ia[k]] == bn[ib[k]]
        && idx_of(an, an[ia[k]]) == ia[k] && idx_of(bn, an[ia[k]]) == ib[k] by {
        assert(has_name(an, an[ia[k]]));
        let x = idx_of(an, an[ia[k]]);
        assert(0 <= x < an.len() && an[x] == an[ia[k]]);
        assert(x == ia[k]);
        assert(bn[ib[k]] == an[ia[k]]);
        assert(has_name(bn, an[ia[k]]));
        let y = idx_of(bn, an[ia[k]]);
        assert(0 <= y < bn.len() && bn[y] == an[ia[k]]);
        assert(y == ib[k]);
    }
    assert(ra.names() =~= rb.names());
    assert forall|k: int| 0 <= k < ra.widths@.len() implies ra.widths@[k] == rb.widths@[k] by {
        assert(ra.names()[k] == an[ia[k]]);
        assert(rb.names()[k] == bn[ib[k]]);
        assert(req.contains(an[ia[k]]));
        assert(has_name(an, an[ia[k]]));
        assert(a.widths@[idx_of(an, an[ia[k]])] == b.widths@[idx_of(bn, an[ia[k]])]);
    }
    assert(ra.widths@ =~= rb.widths@);
    assert forall|t: int| 0 <= t < ra.rdata().len() implies ra.rdata()[t] == rb.rdata()[t] by {
        assert(ra.rdata()[t] == row_view(ra.rows@[t]@));
        assert(rb.rdata()[t] == row_view(rb.rows@[t]@));
        assert(ra.rdata()[t].len() == ra.cols@.len());
        assert(rb.rdata()[t].len() == rb.cols@.len());
        assert forall|k: int| 0 <= k < ra.cols@.len() implies ra.rdata()[t][k]
            == rb.rdata()[t][k] by {
            assert(req.contains(an[ia[k]]));
            assert(has_name(an, an[ia[k]]));
        }
        assert(ra.rdata()[t] =~= rb.rdata()[t]);
    }
    assert(ra.rdata() =~= rb.rdata());
}

} // verus!
