//! Tables: an ordered schema of typed columns, a rendering-width cache, and
//! rows; with projection, range filtering, LIKE filtering and left outer
//! join, each deriving an independent new table.

use vstd::prelude::*;
use vstd::string::StrSliceExecFns;
use crate::value::{ColKind, Value, ValueV, null_v, null_value, val_width, value_width, dup_value,
    val_eq, str_eq};
use crate::pattern::{LikeType, LikeTypeV, like_match, spec_tokenize, toks_view, tokenize};
use crate::value::str_chars;

verus! {

/// One schema column: its name and declared kind.
pub struct Column {
    pub name: String,
    pub kind: ColKind,
}

/// A schema violation, or a missing join key.
#[derive(Clone, Copy, Debug, PartialEq, Eq, Structural)]
pub enum TableError {
    UnknownColumn,
    DuplicateColumn,
    MissingJoinKey,
}

/// A named table: schema, per-column rendering widths, and rows. Every row
/// holds one value per schema column; a column never given a value holds the
/// null of its kind.
pub struct Table {
    pub name: String,
    pub cols: Vec<Column>,
    pub widths: Vec<usize>,
    pub rows: Vec<Vec<Value>>,
}

/// The model of one row.
pub open spec fn row_view(r: Seq<Value>) -> Seq<ValueV> {
    r.map_values(|v: Value| v@)
}

/// Is `n` one of the names?
pub open spec fn has_name(names: Seq<Seq<char>>, n: Seq<char>) -> bool {
    exists|i: int| 0 <= i < names.len() && names[i] == n
}

/// The position of `n` among the names (unique when the names are distinct).
pub open spec fn idx_of(names: Seq<Seq<char>>, n: Seq<char>) -> int {
    choose|i: int| 0 <= i < names.len() && names[i] == n
}

impl Table {
    /// Column names, as character sequences, in schema order.
    pub open spec fn names(self) -> Seq<Seq<char>> {
        self.cols@.map_values(|c: Column| c.name@)
    }

    /// Declared kinds, in schema order.
    pub open spec fn kinds(self) -> Seq<ColKind> {
        self.cols@.map_values(|c: Column| c.kind)
    }

    pub open spec fn num_cols(self) -> int {
        self.cols@.len() as int
    }

    /// Rows as sequences of value models.
    pub open spec fn rdata(self) -> Seq<Seq<ValueV>> {
        self.rows@.map_values(|r: Vec<Value>| row_view(r@))
    }

    pub open spec fn has_col(self, n: Seq<char>) -> bool {
        has_name(self.names(), n)
    }

    pub open spec fn col_at(self, n: Seq<char>) -> int {
        idx_of(self.names(), n)
    }

    /// Structural well-formedness: distinct column names, one width per
    /// column, and every row exactly as wide as the schema.
    pub open spec fn wf(self) -> bool {
        &&& self.widths@.len() == self.cols@.len()
        &&& forall|i: int, j: int|
            0 <= i < j < self.cols@.len() ==> self.names()[i] != self.names()[j]
        &&& forall|r: int|
            0 <= r < self.rows@.len() ==> (#[trigger] self.rows@[r])@.len() == self.cols@.len()
    }

    /// Every cached width covers its column's name and every value in the
    /// column.
    pub open spec fn widths_ok(self) -> bool {
        &&& forall|j: int|
            0 <= j < self.num_cols() ==> (#[trigger] self.widths@[j]) >= self.names()[j].len()
        &&& forall|r: int, j: int|
            0 <= r < self.rdata().len() && 0 <= j < self.num_cols() ==> self.widths@[j]
                >= val_width(#[trigger] self.rdata()[r][j])
    }

    /// Position of a named column, scanning in schema order.
    pub fn col_index(&self, n: &str) -> (r: Option<usize>)
        ensures
            match r {
                Some(i) => i < self.cols@.len() && self.names()[i as int] == n@,
                None => !self.has_col(n@),
            },
    {
        let mut i: usize = 0;
        while i < self.cols.len()
            invariant
                i <= self.cols@.len(),
                forall|k: int| 0 <= k < i ==> self.names()[k] != n@,
            decreases self.cols@.len() - i,
        {
            if str_eq(self.cols[i].name.as_str(), n) {
                return Some(i);
            }
            i += 1;
        }
        None
    }

    /// An empty table over the given schema; each width starts at the length
    /// of its column's name, so headers never truncate.
    pub fn new(name: &str, columns: Vec<(String, ColKind)>) -> (r: Table)
        requires
            forall|i: int, j: int|
                0 <= i < j < columns@.len() ==> (#[trigger] columns@[i].0)@ != (
                #[trigger] columns@[j].0)@,
        ensures
            r.wf(),
            r.widths_ok(),
            r.name@ == name@,
            r.cols@.len() == columns@.len(),
            forall|i: int|
                0 <= i < columns@.len() ==> r.names()[i] == (#[trigger] columns@[i].0)@
                    && r.kinds()[i] == columns@[i].1 && r.widths@[i] == columns@[i].0@.len(),
            r.rows@.len() == 0,
    {
        let mut cols: Vec<Column> = Vec::new();
        let mut widths: Vec<usize> = Vec::new();
        let n = columns.len();
        let mut k: usize = 0;
        while k < n
            invariant
                k <= n,
                n == columns@.len(),
                cols@.len() == k,
                widths@.len() == k,
                forall|i: int|
                    0 <= i < k ==> (#[trigger] cols@[i]).name@ == columns@[i].0@ && cols@[i].kind
                        == columns@[i].1,
                forall|i: int| 0 <= i < k ==> (#[trigger] widths@[i]) == columns@[i].0@.len(),
            decreases n - k,
        {
            cols.push(
                Column { name: columns[k].0.clone(), kind: columns[k].1 },
            );
            widths.push(columns[k].0.as_str().unicode_len());
            k += 1;
        }
        let r = Table { name: name.to_owned(), cols, widths, rows: Vec::new() };
        proof {
            assert(forall|i: int| 0 <= i < r.cols@.len() ==> r.names()[i] == (#[trigger] r.cols@[i]).name@);
        }
        r
    }
}

/// The models of insert entries: each column name with the offered value.
pub open spec fn entry_views(es: Seq<(String, Value)>) -> Seq<(Seq<char>, ValueV)> {
    es.map_values(|e: (String, Value)| (e.0@, e.1@))
}

/// Every entry names a schema column, and no column is named twice.
pub open spec fn entries_valid(names: Seq<Seq<char>>, es: Seq<(Seq<char>, ValueV)>) -> bool {
    &&& forall|k: int| 0 <= k < es.len() ==> has_name(names, (#[trigger] es[k]).0)
    &&& forall|k: int, l: int|
        0 <= k < l < es.len() ==> (#[trigger] es[k]).0 != (#[trigger] es[l]).0
}

/// The first schema violation among the entries, scanned left to right: an
/// unknown column, or a column already given earlier in the same call.
pub open spec fn first_violation(
    names: Seq<Seq<char>>,
    es: Seq<(Seq<char>, ValueV)>,
) -> Option<TableError>
    decreases es.len(),
{
    if es.len() == 0 {
        None
    } else {
        let pre = first_violation(names, es.drop_last());
        if pre is Some {
            pre
        } else if !has_name(names, es.last().0) {
            Some(TableError::UnknownColumn)
        } else if exists|k: int| 0 <= k < es.len() - 1 && (#[trigger] es[k]).0 == es.last().0 {
            Some(TableError::DuplicateColumn)
        } else {
            None
        }
    }
}

/// No violation is found exactly when the entries are valid.
pub proof fn lemma_first_violation_none(names: Seq<Seq<char>>, es: Seq<(Seq<char>, ValueV)>)
    ensures
        first_violation(names, es) is None <==> entries_valid(names, es),
    decreases es.len(),
{
    if es.len() > 0 {
        lemma_first_violation_none(names, es.drop_last());
        if first_violation(names, es) is None {
            assert(entries_valid(names, es.drop_last()));
            assert forall|k: int| 0 <= k < es.len() implies has_name(
                names,
                (#[trigger] es[k]).0,
            ) by {
                if k < es.len() - 1 {
                    assert(es.drop_last()[k] == es[k]);
                }
            }
            assert forall|k: int, l: int| 0 <= k < l < es.len() implies (#[trigger] es[k]).0 != (
            #[trigger] es[l]).0 by {
                if l < es.len() - 1 {
                    assert(es.drop_last()[k] == es[k]);
                    assert(es.drop_last()[l] == es[l]);
                }
            }
        }
        if entries_valid(names, es) {
            assert forall|k: int| 0 <= k < es.drop_last().len() implies has_name(
                names,
                (#[trigger] es.drop_last()[k]).0,
            ) by {
                assert(es.drop_last()[k] == es[k]);
            }
            assert forall|k: int, l: int|
                0 <= k < l < es.drop_last().len() implies (#[trigger] es.drop_last()[k]).0 != (
            #[trigger] es.drop_last()[l]).0 by {
                assert(es.drop_last()[k] == es[k]);
                assert(es.drop_last()[l] == es[l]);
            }
            assert(first_violation(names, es.drop_last()) is None);
        }
    }
}

/// A violation inside a prefix is the violation of the whole list.
proof fn lemma_first_violation_prefix(
    names: Seq<Seq<char>>,
    es: Seq<(Seq<char>, ValueV)>,
    m: int,
)
    requires
        0 <= m <= es.len(),
        first_violation(names, es.take(m)) is Some,
    ensures
        first_violation(names, es) == first_violation(names, es.take(m)),
    decreases es.len() - m,
{
    if m < es.len() {
        assert(es.take(m + 1).drop_last() =~= es.take(m));
        assert(first_violation(names, es.take(m + 1)) == first_violation(names, es.take(m)));
        lemma_first_violation_prefix(names, es, m + 1);
    } else {
        assert(es.take(m) =~= es);
    }
}

/// The value the inserted row stores at column `j`: what the entry naming
/// the column offers, or the null of the declared kind.
pub open spec fn row_val(
    names: Seq<Seq<char>>,
    kinds: Seq<ColKind>,
    es: Seq<(Seq<char>, ValueV)>,
    j: int,
) -> ValueV {
    if exists|k: int| 0 <= k < es.len() && (#[trigger] es[k]).0 == names[j] {
        es[choose|k: int| 0 <= k < es.len() && (#[trigger] es[k]).0 == names[j]].1
    } else {
        null_v(kinds[j])
    }
}

/// The position of the entry naming `name`, if any.
fn find_entry(entries: &Vec<(String, Value)>, name: &str) -> (r: Option<usize>)
    ensures
        match r {
            Some(f) => f < entries@.len() && entry_views(entries@)[f as int].0 == name@,
            None => forall|m: int|
                0 <= m < entries@.len() ==> entry_views(entries@)[m].0 != name@,
        },
{
    let n = entries.len();
    let mut k: usize = 0;
    while k < n
        invariant
            k <= n,
            n == entries@.len(),
            forall|m: int| 0 <= m < k ==> entry_views(entries@)[m].0 != name@,
        decreases n - k,
    {
        if str_eq(entries[k].0.as_str(), name) {
            return Some(k);
        }
        k += 1;
    }
    None
}

impl Table {
    /// Validates and appends one row given as (column, value) pairs; a
    /// column not given stores the null of its declared kind. Each column's
    /// cached width rises to cover the stored value. On a schema violation
    /// nothing changes and the first violation found is returned.
    pub fn insert(&mut self, entries: Vec<(String, Value)>) -> (r: Result<(), TableError>)
        requires
            old(self).wf(),
        ensures
            final(self).wf(),
            final(self).name@ == old(self).name@,
            final(self).cols@ == old(self).cols@,
            r is Ok <==> entries_valid(old(self).names(), entry_views(entries@)),
            match r {
                Ok(()) => {
                    let names = old(self).names();
                    let kinds = old(self).kinds();
                    let es = entry_views(entries@);
                    &&& final(self).rows@.len() == old(self).rows@.len() + 1
                    &&& (forall|t: int|
                        0 <= t < old(self).rows@.len() ==> final(self).rdata()[t] == old(
                            self,
                        ).rdata()[t])
                    &&& (forall|j: int|
                        0 <= j < old(self).num_cols() ==> final(self).rdata().last()[j] == row_val(
                            names,
                            kinds,
                            es,
                            j,
                        ))
                    &&& (forall|j: int|
                        0 <= j < old(self).num_cols() ==> final(self).widths@[j] == (
                        if val_width(row_val(names, kinds, es, j)) > old(self).widths@[j] {
                            val_width(row_val(names, kinds, es, j))
                        } else {
                            old(self).widths@[j] as nat
                        }))
                    &&& (old(self).widths_ok() ==> final(self).widths_ok())
                },
                Err(e) => {
                    &&& *final(self) == *old(self)
                    &&& Some(e) == first_violation(old(self).names(), entry_views(entries@))
                },
            },
    {
        let ghost names = old(self).names();
        let ghost kinds = old(self).kinds();
        let ghost es = entry_views(entries@);
        proof {
            lemma_first_violation_none(names, es);
        }
        let n = entries.len();
        let mut k: usize = 0;
        while k < n
            invariant
                *self == *old(self),
                old(self).wf(),
                k <= n,
                n == entries@.len(),
                es == entry_views(entries@),
                names == old(self).names(),
                first_violation(names, es.take(k as int)) is None,
            decreases n - k,
        {
            proof {
                assert(es.take(k + 1).drop_last() =~= es.take(k as int));
                assert(es.take(k + 1).last() == es[k as int]);
            }
            if self.col_index(entries[k].0.as_str()).is_none() {
                proof {
                    assert(!has_name(names, es[k as int].0));
                    assert(first_violation(names, es.take(k + 1)) == Some(
                        TableError::UnknownColumn,
                    ));
                    lemma_first_violation_prefix(names, es, k + 1);
                }
                return Err(TableError::UnknownColumn);
            }
            let mut l: usize = 0;
            while l < k
                invariant
                    *self == *old(self),
                    old(self).wf(),
                    l <= k < n,
                    n == entries@.len(),
                    es == entry_views(entries@),
                    names == old(self).names(),
                    has_name(names, es[k as int].0),
                    first_violation(names, es.take(k as int)) is None,
                    es.take(k + 1).drop_last() == es.take(k as int),
                    es.take(k + 1).last() == es[k as int],
                    forall|m: int| 0 <= m < l ==> es[m].0 != es[k as int].0,
                decreases k - l,
            {
                if str_eq(entries[l].0.as_str(), entries[k].0.as_str()) {
                    proof {
                        assert(es[l as int].0 == es[k as int].0);
                        assert(es.take(k + 1)[l as int] == es[l as int]);
                        assert(0 <= l < es.take(k + 1).len() - 1 && es.take(k + 1)[l as int].0
                            == es.take(k + 1).last().0);
                        assert(first_violation(names, es.take(k + 1)) == Some(
                            TableError::DuplicateColumn,
                        ));
                        lemma_first_violation_prefix(names, es, k + 1);
                    }
                    return Err(TableError::DuplicateColumn);
                }
                l += 1;
            }
            proof {
                assert(forall|m: int| 0 <= m < k ==> es.take(k as int)[m] == es[m]);
                assert(first_violation(names, es.take(k + 1)) is None);
            }
            k += 1;
        }
        proof {
            assert(es.take(n as int) =~= es);
            assert(entries_valid(names, es));
        }
        // The entries are valid: build the full row, then raise the widths.
        let mut row: Vec<Value> = Vec::new();
        let nc = self.cols.len();
        let mut j: usize = 0;
        while j < nc
            invariant
                *self == *old(self),
                old(self).wf(),
                nc == self.cols@.len(),
                j <= nc,
                n == entries@.len(),
                es == entry_views(entries@),
                names == old(self).names(),
                kinds == old(self).kinds(),
                entries_valid(names, es),
                row@.len() == j,
                forall|m: int| 0 <= m < j ==> (#[trigger] row@[m])@ == row_val(names, kinds, es, m),
            decreases nc - j,
        {
            match find_entry(&entries, self.cols[j].name.as_str()) {
                Some(f) => {
                    proof {
                        assert(es[f as int].0 == names[j as int]);
                        let kw = choose|kk: int|
                            0 <= kk < es.len() && (#[trigger] es[kk]).0 == names[j as int];
                        assert(kw == f as int);
                    }
                    row.push(dup_value(&entries[f].1));
                },
                None => {
                    proof {
                        assert(!exists|kk: int|
                            0 <= kk < es.len() && (#[trigger] es[kk]).0 == names[j as int]);
                    }
                    row.push(null_value(self.cols[j].kind));
                },
            }
            j += 1;
        }
        let ghost rv = row@;
        let mut j2: usize = 0;
        while j2 < nc
            invariant
                j2 <= nc,
                nc == self.cols@.len(),
                self.cols@ == old(self).cols@,
                self.rows@ == old(self).rows@,
                self.name@ == old(self).name@,
                self.widths@.len() == old(self).widths@.len(),
                old(self).wf(),
                names == old(self).names(),
                kinds == old(self).kinds(),
                es == entry_views(entries@),
                row@ == rv,
                rv.len() == nc,
                forall|m: int| 0 <= m < nc ==> (#[trigger] rv[m])@ == row_val(names, kinds, es, m),
                forall|m: int|
                    0 <= m < j2 ==> (#[trigger] self.widths@[m]) == (if val_width(
                        row_val(names, kinds, es, m),
                    ) > old(self).widths@[m] {
                        val_width(row_val(names, kinds, es, m))
                    } else {
                        old(self).widths@[m] as nat
                    }),
                forall|m: int| j2 <= m < nc ==> self.widths@[m] == old(self).widths@[m],
            decreases nc - j2,
        {
            let w = value_width(&row[j2]);
            if self.widths[j2] < w {
                self.widths[j2] = w;
            }
            j2 += 1;
        }
        self.rows.push(row);
        proof {
            assert(self.rdata() =~= old(self).rdata().push(row_view(rv)));
            assert forall|jj: int| 0 <= jj < old(self).num_cols() implies self.rdata().last()[jj]
                == row_val(names, kinds, es, jj) by {
                assert(self.rdata().last() == row_view(rv));
                assert(row_view(rv)[jj] == rv[jj]@);
            }
            if old(self).widths_ok() {
                assert forall|rr: int, jj: int|
                    0 <= rr < self.rdata().len() && 0 <= jj < self.num_cols() implies self.widths@[jj]
                    >= val_width(#[trigger] self.rdata()[rr][jj]) by {
                    if rr < old(self).rows@.len() {
                        assert(self.rdata()[rr] == old(self).rdata()[rr]);
                        assert(old(self).widths@[jj] >= val_width(old(self).rdata()[rr][jj]));
                    } else {
                        assert(self.rdata()[rr] == row_view(rv));
                    }
                }
            }
        }
        Ok(())
    }
}

/// The models of a list of requested column names.
pub open spec fn names_view(cs: Seq<String>) -> Seq<Seq<char>> {
    cs.map_values(|s: String| s@)
}

/// Schema positions of the requested names that exist, in request order;
/// names not in the schema are dropped.
pub open spec fn sel_idxs(names: Seq<Seq<char>>, req: Seq<Seq<char>>) -> Seq<int>
    decreases req.len(),
{
    if req.len() == 0 {
        Seq::empty()
    } else {
        let pre = sel_idxs(names, req.drop_last());
        if has_name(names, req.last()) {
            pre.push(idx_of(names, req.last()))
        } else {
            pre
        }
    }
}

/// Selected positions lie in the schema and carry the requested names,
/// which are distinct when the request is.
pub proof fn lemma_sel_idxs(names: Seq<Seq<char>>, req: Seq<Seq<char>>)
    requires
        forall|i: int, j: int| 0 <= i < j < req.len() ==> req[i] != req[j],
    ensures
        sel_idxs(names, req).len() <= req.len(),
        forall|k: int|
            0 <= k < sel_idxs(names, req).len() ==> 0 <= #[trigger] sel_idxs(names, req)[k]
                < names.len(),
        forall|k: int|
            0 <= k < sel_idxs(names, req).len() ==> exists|m: int|
                0 <= m < req.len() && names[#[trigger] sel_idxs(names, req)[k]] == req[m],
        forall|k: int, l: int|
            0 <= k < l < sel_idxs(names, req).len() ==> names[#[trigger] sel_idxs(names, req)[k]]
                != names[#[trigger] sel_idxs(names, req)[l]],
    decreases req.len(),
{
    if req.len() > 0 {
        assert forall|i: int, j: int| 0 <= i < j < req.drop_last().len() implies (
        #[trigger] req.drop_last()[i]) != (#[trigger] req.drop_last()[j]) by {
            assert(req.drop_last()[i] == req[i]);
            assert(req.drop_last()[j] == req[j]);
        }
        lemma_sel_idxs(names, req.drop_last());
        let s = sel_idxs(names, req);
        let pre = sel_idxs(names, req.drop_last());
        assert forall|k: int|
            0 <= k < pre.len() implies exists|m: int|
            0 <= m < req.len() && names[#[trigger] pre[k]] == req[m] by {
            let m = choose|m: int|
                0 <= m < req.drop_last().len() && names[pre[k]] == req.drop_last()[m];
            assert(req.drop_last()[m] == req[m]);
            assert(0 <= m < req.len() && names[pre[k]] == req[m]);
        }
        if has_name(names, req.last()) {
            let idx = idx_of(names, req.last());
            assert(0 <= idx < names.len() && names[idx] == req.last());
            assert forall|k: int| 0 <= k < pre.len() implies names[#[trigger] pre[k]]
                != names[idx] by {
                let m = choose|m: int|
                    0 <= m < req.drop_last().len() && names[pre[k]] == req.drop_last()[m];
                assert(req.drop_last()[m] == req[m]);
                assert(req[m] != req.last());
            }
        }
    }
}

impl Table {
    /// A table over the requested columns, in request order, with the same
    /// rows and widths; requested names missing from the schema are silently
    /// dropped.
    pub fn select(&self, cols: &Vec<String>) -> (r: Table)
        requires
            self.wf(),
            forall|i: int, j: int|
                0 <= i < j < cols@.len() ==> (#[trigger] cols@[i])@ != (#[trigger] cols@[j])@,
        ensures
            r.wf(),
            r.name@ == self.name@,
            r.cols@.len() == sel_idxs(self.names(), names_view(cols@)).len(),
            forall|k: int|
                0 <= k < r.cols@.len() ==> {
                    let idxs = sel_idxs(self.names(), names_view(cols@));
                    &&& (#[trigger] r.names()[k]) == self.names()[idxs[k]]
                    &&& r.kinds()[k] == self.kinds()[idxs[k]]
                    &&& r.widths@[k] == self.widths@[idxs[k]]
                },
            r.rows@.len() == self.rows@.len(),
            forall|t: int, k: int|
                0 <= t < r.rows@.len() && 0 <= k < r.cols@.len() ==> #[trigger] r.rdata()[t][k]
                    == self.rdata()[t][sel_idxs(self.names(), names_view(cols@))[k]],
            self.widths_ok() ==> r.widths_ok(),
    {
        let ghost req = names_view(cols@);
        let ghost idxs = sel_idxs(self.names(), req);
        proof {
            assert forall|i: int, j: int| 0 <= i < j < req.len() implies req[i] != req[j] by {
                assert(req[i] == cols@[i]@ && req[j] == cols@[j]@);
            }
            lemma_sel_idxs(self.names(), req);
        }
        let mut picked: Vec<usize> = Vec::new();
        let mut new_cols: Vec<Column> = Vec::new();
        let mut new_widths: Vec<usize> = Vec::new();
        let n = cols.len();
        let mut k: usize = 0;
        while k < n
            invariant
                self.wf(),
                k <= n,
                n == cols@.len(),
                req == names_view(cols@),
                picked@.map_values(|u: usize| u as int) == sel_idxs(self.names(), req.take(k as int)),
                forall|m: int| 0 <= m < picked@.len() ==> (#[trigger] picked@[m]) < self.cols@.len(),
                new_cols@.len() == picked@.len(),
                new_widths@.len() == picked@.len(),
                forall|m: int|
                    0 <= m < picked@.len() ==> (#[trigger] new_cols@[m]).name@ == self.names()[picked@[m] as int]
                        && new_cols@[m].kind == self.kinds()[picked@[m] as int],
                forall|m: int|
                    0 <= m < picked@.len() ==> (#[trigger] new_widths@[m]) == self.widths@[picked@[m] as int],
            decreases n - k,
        {
            let ghost prev = picked@.map_values(|u: usize| u as int);
            proof {
                assert(req.take(k + 1).drop_last() =~= req.take(k as int));
                assert(req.take(k + 1).last() == req[k as int]);
                assert(req[k as int] == cols@[k as int]@);
            }
            match self.col_index(cols[k].as_str()) {
                Some(i) => {
                    proof {
                        assert(has_name(self.names(), req[k as int]));
                        let i0 = idx_of(self.names(), req[k as int]);
                        assert(self.names()[i0] == req[k as int]);
                        assert(i0 == i as int);
                        assert(prev.push(i as int) =~= sel_idxs(self.names(), req.take(k + 1)));
                    }
                    picked.push(i);
                    new_cols.push(Column { name: self.cols[i].name.clone(), kind: self.cols[i].kind });
                    new_widths.push(self.widths[i]);
                    proof {
                        assert(picked@.map_values(|u: usize| u as int) =~= prev.push(i as int));
                    }
                },
                None => {
                    proof {
                        assert(sel_idxs(self.names(), req.take(k + 1)) == prev);
                    }
                },
            }
            k += 1;
        }
        proof {
            assert(req.take(n as int) =~= req);
        }
        let nsel = picked.len();
        let mut new_rows: Vec<Vec<Value>> = Vec::new();
        let nr = self.rows.len();
        let mut t: usize = 0;
        while t < nr
            invariant
                self.wf(),
                t <= nr,
                nr == self.rows@.len(),
                nsel == picked@.len(),
                picked@.map_values(|u: usize| u as int) == idxs,
                idxs == sel_idxs(self.names(), req),
                forall|m: int| 0 <= m < picked@.len() ==> (#[trigger] picked@[m]) < self.cols@.len(),
                new_rows@.len() == t,
                forall|u: int, m: int|
                    0 <= u < t && 0 <= m < nsel ==> (#[trigger] new_rows@[u]@[m])@ == self.rdata()[u][idxs[m]],
                forall|u: int| 0 <= u < t ==> (#[trigger] new_rows@[u])@.len() == nsel,
            decreases nr - t,
        {
            let mut nrow: Vec<Value> = Vec::new();
            let mut m: usize = 0;
            while m < nsel
                invariant
                    self.wf(),
                    t < nr,
                    nr == self.rows@.len(),
                    m <= nsel,
                    nsel == picked@.len(),
                    forall|q: int| 0 <= q < picked@.len() ==> (#[trigger] picked@[q]) < self.cols@.len(),
                    nrow@.len() == m,
                    forall|q: int|
                        0 <= q < m ==> (#[trigger] nrow@[q])@ == self.rows@[t as int]@[picked@[q] as int]@,
                decreases nsel - m,
            {
                nrow.push(dup_value(&self.rows[t][picked[m]]));
                m += 1;
            }
            new_rows.push(nrow);
            proof {
                assert forall|q: int| 0 <= q < nsel implies (#[trigger] new_rows@[t as int]@[q])@
                    == self.rdata()[t as int][idxs[q]] by {
                    assert(picked@.map_values(|u: usize| u as int)[q] == picked@[q] as int);
                    assert(self.rdata()[t as int] == row_view(self.rows@[t as int]@));
                }
            }
            t += 1;
        }
        let r = Table { name: self.name.clone(), cols: new_cols, widths: new_widths, rows: new_rows };
        proof {
            assert forall|k2: int| 0 <= k2 < r.cols@.len() implies {
                &&& r.names()[k2] == self.names()[idxs[k2]]
                &&& r.kinds()[k2] == self.kinds()[idxs[k2]]
                &&& r.widths@[k2] == self.widths@[idxs[k2]]
            } by {
                assert(picked@.map_values(|u: usize| u as int)[k2] == picked@[k2] as int);
            }
            assert forall|t2: int, k2: int|
                0 <= t2 < r.rows@.len() && 0 <= k2 < r.cols@.len() implies #[trigger] r.rdata()[t2][k2]
                == self.rdata()[t2][idxs[k2]] by {
                assert(r.rdata()[t2] == row_view(r.rows@[t2]@));
                assert(row_view(r.rows@[t2]@)[k2] == r.rows@[t2]@[k2]@);
            }
            if self.widths_ok() {
                assert forall|rr: int, jj: int|
                    0 <= rr < r.rdata().len() && 0 <= jj < r.num_cols() implies r.widths@[jj]
                    >= val_width(#[trigger] r.rdata()[rr][jj]) by {
                    assert(r.rdata()[rr][jj] == self.rdata()[rr][idxs[jj]]);
                    assert(self.widths@[idxs[jj]] >= val_width(self.rdata()[rr][idxs[jj]]));
                }
            }
        }
        r
    }
}

/// Filtering a one-longer prefix appends the new element or nothing.
proof fn lemma_filter_take_step<A>(s: Seq<A>, pred: spec_fn(A) -> bool, i: int)
    requires
        0 <= i < s.len(),
    ensures
        s.take(i + 1).filter(pred) == if pred(s[i]) {
            s.take(i).filter(pred).push(s[i])
        } else {
            s.take(i).filter(pred)
        },
{
    reveal(Seq::filter);
    assert(s.take(i + 1).drop_last() =~= s.take(i));
    assert(s.take(i + 1).last() == s[i]);
    if pred(s[i]) {
        assert(s.take(i + 1).filter(pred) =~= s.take(i).filter(pred).push(s[i]));
    }
}

/// What a filtered sequence holds: only elements of the source, all
/// satisfying the predicate. The filtering operations return a subset of the
/// source rows.
pub proof fn lemma_filter_subset<A>(s: Seq<A>, pred: spec_fn(A) -> bool)
    ensures
        s.filter(pred).len() <= s.len(),
        forall|i: int|
            0 <= i < s.filter(pred).len() ==> pred(#[trigger] s.filter(pred)[i]) && s.contains(
                s.filter(pred)[i],
            ),
    decreases s.len(),
{
    reveal(Seq::filter);
    if s.len() > 0 {
        lemma_filter_subset(s.drop_last(), pred);
        let f = s.filter(pred);
        let fp = s.drop_last().filter(pred);
        assert forall|i: int| 0 <= i < f.len() implies pred(#[trigger] f[i]) && s.contains(
            f[i],
        ) by {
            if i < fp.len() {
                assert(f[i] == fp[i]);
                assert(s.drop_last().contains(fp[i]));
                let w = choose|w: int|
                    0 <= w < s.drop_last().len() && s.drop_last()[w] == fp[i];
                assert(s[w] == fp[i]);
            } else {
                assert(f[i] == s.last());
                assert(s[s.len() - 1] == s.last());
            }
        }
    }
}

/// An owned copy of a row, value for value.
fn dup_row(r: &Vec<Value>) -> (d: Vec<Value>)
    ensures
        row_view(d@) == row_view(r@),
        d@.len() == r@.len(),
{
    let n = r.len();
    let mut d: Vec<Value> = Vec::new();
    let mut i: usize = 0;
    while i < n
        invariant
            i <= n,
            n == r@.len(),
            d@.len() == i,
            forall|m: int| 0 <= m < i ==> (#[trigger] d@[m])@ == r@[m]@,
        decreases n - i,
    {
        d.push(dup_value(&r[i]));
        i += 1;
    }
    proof {
        assert(row_view(d@) =~= row_view(r@));
    }
    d
}

/// Does the row hold, at column `j`, a non-null integer below `n`?
pub open spec fn lt_pass(row: Seq<ValueV>, j: int, n: i32) -> bool {
    match row[j] {
        ValueV::Int(Some(v)) => v < n,
        _ => false,
    }
}

/// Does the row hold, at column `j`, non-null text the pattern admits whole?
pub open spec fn like_pass(row: Seq<ValueV>, j: int, toks: Seq<LikeTypeV>) -> bool {
    match row[j] {
        ValueV::Text(Some(s)) => like_match(toks, s),
        _ => false,
    }
}

impl Table {
    /// The rows whose `col` holds a non-null integer strictly below `num`;
    /// schema and widths are kept. The column is taken to be integer-typed:
    /// text and null cells never pass.
    pub fn less_than(&self, col: &str, num: i32) -> (r: Table)
        requires
            self.wf(),
            self.has_col(col@),
        ensures
            r.wf(),
            r.name@ == self.name@,
            r.cols@ == self.cols@,
            r.widths@ == self.widths@,
            r.rdata() == self.rdata().filter(
                (|row: Seq<ValueV>| lt_pass(row, self.col_at(col@), num)),
            ),
            self.widths_ok() ==> r.widths_ok(),
    {
        let j = match self.col_index(col) {
            Some(j) => j,
            None => 0,
        };
        let ghost pred = (|row: Seq<ValueV>| lt_pass(row, self.col_at(col@), num));
        proof {
            assert(self.names()[j as int] == col@);
            assert(idx_of(self.names(), col@) == j as int);
            reveal(Seq::filter);
        }
        let nr = self.rows.len();
        let mut new_rows: Vec<Vec<Value>> = Vec::new();
        let mut t: usize = 0;
        while t < nr
            invariant
                self.wf(),
                t <= nr,
                nr == self.rows@.len(),
                j < self.cols@.len(),
                self.col_at(col@) == j as int,
                pred == (|row: Seq<ValueV>| lt_pass(row, self.col_at(col@), num)),
                new_rows@.map_values(|rr: Vec<Value>| row_view(rr@)) == self.rdata().take(
                    t as int,
                ).filter(pred),
                forall|u: int| 0 <= u < new_rows@.len() ==> (#[trigger] new_rows@[u])@.len() == self.cols@.len(),
            decreases nr - t,
        {
            let ghost prev = new_rows@.map_values(|rr: Vec<Value>| row_view(rr@));
            proof {
                lemma_filter_take_step(self.rdata(), pred, t as int);
                assert(self.rdata()[t as int] == row_view(self.rows@[t as int]@));
            }
            let keep = match &self.rows[t][j] {
                Value::Int(ov) => match ov {
                    Some(x) => *x < num,
                    None => false,
                },
                _ => false,
            };
            proof {
                assert(row_view(self.rows@[t as int]@)[j as int] == self.rows@[t as int]@[j as int]@);
                assert(keep == pred(self.rdata()[t as int]));
            }
            if keep {
                new_rows.push(dup_row(&self.rows[t]));
                proof {
                    assert(new_rows@.map_values(|rr: Vec<Value>| row_view(rr@)) =~= prev.push(
                        row_view(self.rows@[t as int]@),
                    ));
                }
            }
            t += 1;
        }
        proof {
            assert(self.rdata().take(nr as int) =~= self.rdata());
        }
        let r = Table {
            name: self.name.clone(),
            cols: dup_cols(&self.cols),
            widths: dup_widths(&self.widths),
            rows: new_rows,
        };
        proof {
            lemma_filter_subset(self.rdata(), pred);
            if self.widths_ok() {
                assert forall|rr: int, jj: int|
                    0 <= rr < r.rdata().len() && 0 <= jj < r.num_cols() implies r.widths@[jj]
                    >= val_width(#[trigger] r.rdata()[rr][jj]) by {
                    let i0 = choose|i0: int|
                        0 <= i0 < self.rdata().len() && self.rdata()[i0] == r.rdata()[rr];
                    assert(self.widths@[jj] >= val_width(self.rdata()[i0][jj]));
                }
            }
        }
        r
    }

    /// The rows whose `col` holds non-null text that the LIKE `pattern`
    /// consumes entirely; schema and widths are kept.
    pub fn like(&self, col: &str, pattern: &str) -> (r: Table)
        requires
            self.wf(),
            self.has_col(col@),
        ensures
            r.wf(),
            r.name@ == self.name@,
            r.cols@ == self.cols@,
            r.widths@ == self.widths@,
            r.rdata() == self.rdata().filter(
                (|row: Seq<ValueV>| like_pass(row, self.col_at(col@), spec_tokenize(pattern@))),
            ),
            self.widths_ok() ==> r.widths_ok(),
    {
        let j = match self.col_index(col) {
            Some(j) => j,
            None => 0,
        };
        let toks = tokenize(pattern);
        let ghost pred = (|row: Seq<ValueV>|
            like_pass(row, self.col_at(col@), spec_tokenize(pattern@)));
        proof {
            assert(self.names()[j as int] == col@);
            assert(idx_of(self.names(), col@) == j as int);
            reveal(Seq::filter);
        }
        let nr = self.rows.len();
        let mut new_rows: Vec<Vec<Value>> = Vec::new();
        let mut t: usize = 0;
        while t < nr
            invariant
                self.wf(),
                t <= nr,
                nr == self.rows@.len(),
                j < self.cols@.len(),
                self.col_at(col@) == j as int,
                toks_view(toks@) == spec_tokenize(pattern@),
                pred == (|row: Seq<ValueV>|
                    like_pass(row, self.col_at(col@), spec_tokenize(pattern@))),
                new_rows@.map_values(|rr: Vec<Value>| row_view(rr@)) == self.rdata().take(
                    t as int,
                ).filter(pred),
                forall|u: int| 0 <= u < new_rows@.len() ==> (#[trigger] new_rows@[u])@.len() == self.cols@.len(),
            decreases nr - t,
        {
            let ghost prev = new_rows@.map_values(|rr: Vec<Value>| row_view(rr@));
            proof {
                lemma_filter_take_step(self.rdata(), pred, t as int);
                assert(self.rdata()[t as int] == row_view(self.rows@[t as int]@));
            }
            let keep = match &self.rows[t][j] {
                Value::Text(os) => match os {
                    Some(s) => {
                        let cs = str_chars(s.as_str());
                        crate::pattern::like(&toks, &cs)
                    },
                    None => false,
                },
                _ => false,
            };
            proof {
                assert(row_view(self.rows@[t as int]@)[j as int] == self.rows@[t as int]@[j as int]@);
                assert(keep == pred(self.rdata()[t as int]));
            }
            if keep {
                new_rows.push(dup_row(&self.rows[t]));
                proof {
                    assert(new_rows@.map_values(|rr: Vec<Value>| row_view(rr@)) =~= prev.push(
                        row_view(self.rows@[t as int]@),
                    ));
                }
            }
            t += 1;
        }
        proof {
            assert(self.rdata().take(nr as int) =~= self.rdata());
        }
        let r = Table {
            name: self.name.clone(),
            cols: dup_cols(&self.cols),
            widths: dup_widths(&self.widths),
            rows: new_rows,
        };
        proof {
            lemma_filter_subset(self.rdata(), pred);
            if self.widths_ok() {
                assert forall|rr: int, jj: int|
                    0 <= rr < r.rdata().len() && 0 <= jj < r.num_cols() implies r.widths@[jj]
                    >= val_width(#[trigger] r.rdata()[rr][jj]) by {
                    let i0 = choose|i0: int|
                        0 <= i0 < self.rdata().len() && self.rdata()[i0] == r.rdata()[rr];
                    assert(self.widths@[jj] >= val_width(self.rdata()[i0][jj]));
                }
            }
        }
        r
    }
}

/// Positions of the right-hand columns absent from the left schema, in
/// right-schema order: the columns a join imports.
pub open spec fn imp_idxs(lnames: Seq<Seq<char>>, rnames: Seq<Seq<char>>) -> Seq<int>
    decreases rnames.len(),
{
    if rnames.len() == 0 {
        Seq::empty()
    } else {
        let pre = imp_idxs(lnames, rnames.drop_last());
        if has_name(lnames, rnames.last()) {
            pre
        } else {
            pre.push(rnames.len() - 1)
        }
    }
}

/// Imported positions are increasing, in range, and name no left column.
pub proof fn lemma_imp_idxs(lnames: Seq<Seq<char>>, rnames: Seq<Seq<char>>)
    ensures
        forall|k: int|
            0 <= k < imp_idxs(lnames, rnames).len() ==> 0 <= #[trigger] imp_idxs(lnames, rnames)[k]
                < rnames.len(),
        forall|k: int, l: int|
            0 <= k < l < imp_idxs(lnames, rnames).len() ==> imp_idxs(lnames, rnames)[k] < imp_idxs(
                lnames,
                rnames,
            )[l],
        forall|k: int|
            0 <= k < imp_idxs(lnames, rnames).len() ==> !has_name(
                lnames,
                rnames[#[trigger] imp_idxs(lnames, rnames)[k]],
            ),
    decreases rnames.len(),
{
    if rnames.len() > 0 {
        lemma_imp_idxs(lnames, rnames.drop_last());
        let s = imp_idxs(lnames, rnames);
        let pre = imp_idxs(lnames, rnames.drop_last());
        assert forall|k: int| 0 <= k < pre.len() implies !has_name(
            lnames,
            rnames[#[trigger] pre[k]],
        ) by {
            assert(rnames.drop_last()[pre[k]] == rnames[pre[k]]);
        }
    }
}

/// Index of the last right row whose key column equals `kv`, or -1.
pub open spec fn last_match(rrows: Seq<Seq<ValueV>>, rk: int, kv: ValueV) -> int
    decreases rrows.len(),
{
    if rrows.len() == 0 {
        -1
    } else if rrows.last()[rk] == kv {
        rrows.len() - 1
    } else {
        last_match(rrows.drop_last(), rk, kv)
    }
}

/// The matched index lies in range, matches the key, and no later row does.
pub proof fn lemma_last_match(rrows: Seq<Seq<ValueV>>, rk: int, kv: ValueV)
    ensures
        last_match(rrows, rk, kv) >= -1,
        last_match(rrows, rk, kv) >= 0 ==> {
            let m = last_match(rrows, rk, kv);
            &&& m < rrows.len()
            &&& rrows[m][rk] == kv
            &&& forall|u: int| m < u < rrows.len() ==> (#[trigger] rrows[u])[rk] != kv
        },
        last_match(rrows, rk, kv) == -1 ==> forall|u: int|
            0 <= u < rrows.len() ==> (#[trigger] rrows[u])[rk] != kv,
    decreases rrows.len(),
{
    if rrows.len() > 0 {
        lemma_last_match(rrows.drop_last(), rk, kv);
        assert forall|u: int| 0 <= u < rrows.len() - 1 implies #[trigger] rrows[u]
            == rrows.drop_last()[u] by {}
    }
}

/// The model of one joined row: the left row's values, then for each
/// imported column the last matching right row's value, or the null of the
/// column's declared kind when no right row matches the key.
pub open spec fn join_row(
    lrow: Seq<ValueV>,
    lk: int,
    rrows: Seq<Seq<ValueV>>,
    rk: int,
    rkinds: Seq<ColKind>,
    imp: Seq<int>,
) -> Seq<ValueV> {
    let m = last_match(rrows, rk, lrow[lk]);
    lrow + imp.map_values(
        |oc: int|
            if m >= 0 {
                rrows[m][oc]
            } else {
                null_v(rkinds[oc])
            },
    )
}

/// Does some left row find no right row with its key?
pub open spec fn some_row_unmatched(
    lrows: Seq<Seq<ValueV>>,
    lk: int,
    rrows: Seq<Seq<ValueV>>,
    rk: int,
) -> bool {
    exists|i: int| 0 <= i < lrows.len() && last_match(rrows, rk, (#[trigger] lrows[i])[lk]) == -1
}

/// The width a join gives an imported column: the right table's cached
/// width, raised to cover the four-cell "NULL" when some left row has no
/// match, since that column then holds a null in the unmatched rows.
pub open spec fn import_width(w: usize, unmatched: bool) -> nat {
    if unmatched && w < 4 {
        4
    } else {
        w as nat
    }
}

impl Table {
    /// Left outer join on `key`: every left row is kept; the columns of
    /// `other` not already on the left are appended, with their widths taken
    /// from `other` and raised to cover "NULL" when some left row has no
    /// match; each left row takes the values of the last right row (in
    /// `other`'s row order) whose key equals its own, and nulls where none
    /// does. A key missing from either schema is an error.
    pub fn left_join(&self, other: &Table, key: &str) -> (r: Result<Table, TableError>)
        requires
            self.wf(),
            other.wf(),
        ensures
            r is Ok <==> self.has_col(key@) && other.has_col(key@),
            match r {
                Ok(t) => {
                    let lk = self.col_at(key@);
                    let rk = other.col_at(key@);
                    let imp = imp_idxs(self.names(), other.names());
                    &&& t.wf()
                    &&& t.name@ == self.name@
                    &&& t.cols@.len() == self.cols@.len() + imp.len()
                    &&& (forall|k: int|
                        0 <= k < self.cols@.len() ==> #[trigger] t.cols@[k] == self.cols@[k]
                            && t.widths@[k] == self.widths@[k])
                    &&& (forall|k: int|
                        0 <= k < imp.len() ==> #[trigger] t.names()[self.cols@.len() + k]
                            == other.names()[imp[k]] && t.kinds()[self.cols@.len() + k]
                            == other.kinds()[imp[k]] && t.widths@[self.cols@.len() + k]
                            == import_width(
                            other.widths@[imp[k]],
                            some_row_unmatched(self.rdata(), lk, other.rdata(), rk),
                        ))
                    &&& t.rows@.len() == self.rows@.len()
                    &&& (forall|i: int|
                        0 <= i < self.rows@.len() ==> #[trigger] t.rdata()[i] == join_row(
                            self.rdata()[i],
                            lk,
                            other.rdata(),
                            rk,
                            other.kinds(),
                            imp,
                        ))
                    &&& (self.widths_ok() && other.widths_ok() ==> t.widths_ok())
                },
                Err(e) => e == TableError::MissingJoinKey,
            },
    {
        let lk = match self.col_index(key) {
            Some(i) => i,
            None => {
                return Err(TableError::MissingJoinKey);
            },
        };
        let rk = match other.col_index(key) {
            Some(i) => i,
            None => {
                return Err(TableError::MissingJoinKey);
            },
        };
        proof {
            assert(idx_of(self.names(), key@) == lk as int);
            assert(idx_of(other.names(), key@) == rk as int);
            lemma_imp_idxs(self.names(), other.names());
        }
        let ghost imp = imp_idxs(self.names(), other.names());
        let nl = self.cols.len();
        let nro = other.cols.len();
        let mut new_cols: Vec<Column> = dup_cols(&self.cols);
        let mut new_widths: Vec<usize> = dup_widths(&self.widths);
        let mut picked: Vec<usize> = Vec::new();
        let mut o: usize = 0;
        while o < nro
            invariant
                self.wf(),
                other.wf(),
                o <= nro,
                nl == self.cols@.len(),
                nro == other.cols@.len(),
                picked@.map_values(|u: usize| u as int) == imp_idxs(
                    self.names(),
                    other.names().take(o as int),
                ),
                forall|m: int| 0 <= m < picked@.len() ==> (#[trigger] picked@[m]) < other.cols@.len(),
                new_cols@.len() == nl + picked@.len(),
                new_widths@.len() == nl + picked@.len(),
                forall|m: int| 0 <= m < nl ==> #[trigger] new_cols@[m] == self.cols@[m]
                    && new_widths@[m] == self.widths@[m],
                forall|m: int|
                    0 <= m < picked@.len() ==> (#[trigger] new_cols@[nl + m]).name@
                        == other.names()[picked@[m] as int] && new_cols@[nl + m].kind
                        == other.kinds()[picked@[m] as int] && new_widths@[nl + m]
                        == other.widths@[picked@[m] as int],
            decreases nro - o,
        {
            let ghost prev = picked@.map_values(|u: usize| u as int);
            proof {
                assert(other.names().take(o + 1).drop_last() =~= other.names().take(o as int));
                assert(other.names().take(o + 1).last() == other.names()[o as int]);
            }
            if self.col_index(other.cols[o].name.as_str()).is_none() {
                picked.push(o);
                new_cols.push(
                    Column { name: other.cols[o].name.clone(), kind: other.cols[o].kind },
                );
                new_widths.push(other.widths[o]);
                proof {
                    assert(picked@.map_values(|u: usize| u as int) =~= prev.push(o as int));
                }
            } else {
                proof {
                    assert(has_name(self.names(), other.names()[o as int]));
                }
            }
            o += 1;
        }
        proof {
            assert(other.names().take(nro as int) =~= other.names());
            assert(picked@.map_values(|u: usize| u as int) == imp);
        }
        let nimp = picked.len();
        let nr = self.rows.len();
        let nrr = other.rows.len();
        let mut new_rows: Vec<Vec<Value>> = Vec::new();
        let mut any_unmatched: bool = false;
        let mut i: usize = 0;
        while i < nr
            invariant
                self.wf(),
                other.wf(),
                i <= nr,
                nr == self.rows@.len(),
                nrr == other.rows@.len(),
                nl == self.cols@.len(),
                lk < nl,
                rk < other.cols@.len(),
                nimp == picked@.len(),
                picked@.map_values(|u: usize| u as int) == imp,
                forall|m: int| 0 <= m < picked@.len() ==> (#[trigger] picked@[m]) < other.cols@.len(),
                any_unmatched == some_row_unmatched(
                    self.rdata().take(i as int),
                    lk as int,
                    other.rdata(),
                    rk as int,
                ),
                new_rows@.len() == i,
                forall|u: int|
                    0 <= u < i ==> #[trigger] row_view(new_rows@[u]@) == join_row(
                        self.rdata()[u],
                        lk as int,
                        other.rdata(),
                        rk as int,
                        other.kinds(),
                        imp,
                    ),
                forall|u: int| 0 <= u < i ==> (#[trigger] new_rows@[u])@.len() == nl + nimp,
            decreases nr - i,
        {
            let ghost kv = self.rdata()[i as int][lk as int];
            proof {
                assert(self.rdata()[i as int] == row_view(self.rows@[i as int]@));
                assert(row_view(self.rows@[i as int]@)[lk as int] == self.rows@[i as int]@[lk as int]@);
            }
            let mut m: Option<usize> = None;
            let mut rr: usize = 0;
            while rr < nrr
                invariant
                    self.wf(),
                    other.wf(),
                    i < nr,
                    nr == self.rows@.len(),
                    nrr == other.rows@.len(),
                    lk < self.cols@.len(),
                    rk < other.cols@.len(),
                    rr <= nrr,
                    kv == self.rdata()[i as int][lk as int],
                    kv == self.rows@[i as int]@[lk as int]@,
                    match m {
                        Some(mm) => last_match(other.rdata().take(rr as int), rk as int, kv) == mm
                            && mm < nrr,
                        None => last_match(other.rdata().take(rr as int), rk as int, kv) == -1,
                    },
                decreases nrr - rr,
            {
                proof {
                    assert(other.rdata().take(rr + 1).drop_last() =~= other.rdata().take(rr as int));
                    assert(other.rdata().take(rr + 1).last() == other.rdata()[rr as int]);
                    assert(other.rdata()[rr as int] == row_view(other.rows@[rr as int]@));
                    assert(row_view(other.rows@[rr as int]@)[rk as int] == other.rows@[rr as int]@[rk as int]@);
                }
                if val_eq(&self.rows[i][lk], &other.rows[rr][rk]) {
                    m = Some(rr);
                }
                rr += 1;
            }
            proof {
                assert(other.rdata().take(nrr as int) =~= other.rdata());
            }
            if m.is_none() {
                any_unmatched = true;
            }
            proof {
                let pre = self.rdata().take(i as int);
                let post = self.rdata().take(i + 1);
                assert(post[i as int] == self.rdata()[i as int]);
                assert forall|u: int| 0 <= u < i implies post[u] == pre[u] by {
                    assert(post[u] == self.rdata()[u]);
                    assert(pre[u] == self.rdata()[u]);
                }
                match m {
                    None => {
                        assert(last_match(other.rdata(), rk as int, (post[i as int])[lk as int])
                            == -1);
                        assert(some_row_unmatched(post, lk as int, other.rdata(), rk as int));
                    },
                    Some(mm) => {
                        assert(last_match(
                            other.rdata(),
                            rk as int,
                            (self.rdata()[i as int])[lk as int],
                        ) == mm);
                        if some_row_unmatched(post, lk as int, other.rdata(), rk as int) {
                            let w = choose|u: int|
                                0 <= u < post.len() && last_match(
                                    other.rdata(),
                                    rk as int,
                                    (#[trigger] post[u])[lk as int],
                                ) == -1;
                            assert(w < i);
                            assert(pre[w] == post[w]);
                            assert(some_row_unmatched(pre, lk as int, other.rdata(), rk as int));
                        }
                        if some_row_unmatched(pre, lk as int, other.rdata(), rk as int) {
                            let w = choose|u: int|
                                0 <= u < pre.len() && last_match(
                                    other.rdata(),
                                    rk as int,
                                    (#[trigger] pre[u])[lk as int],
                                ) == -1;
                            assert(post[w] == pre[w]);
                            assert(some_row_unmatched(post, lk as int, other.rdata(), rk as int));
                        }
                    },
                }
                assert(any_unmatched == some_row_unmatched(
                    post,
                    lk as int,
                    other.rdata(),
                    rk as int,
                ));
            }
            let mut nrow: Vec<Value> = dup_row(&self.rows[i]);
            let ghost lrow = self.rdata()[i as int];
            proof {
                assert(row_view(nrow@) == lrow);
                assert(lrow.len() == nl);
            }
            let mut q: usize = 0;
            while q < nimp
                invariant
                    self.wf(),
                    other.wf(),
                    i < nr,
                    nr == self.rows@.len(),
                    q <= nimp,
                    nimp == picked@.len(),
                    nl == self.cols@.len(),
                    nrr == other.rows@.len(),
                    rk < other.cols@.len(),
                    forall|m2: int| 0 <= m2 < picked@.len() ==> (#[trigger] picked@[m2]) < other.cols@.len(),
                    lrow == self.rdata()[i as int],
                    lrow.len() == nl,
                    kv == lrow[lk as int],
                    match m {
                        Some(mm) => last_match(other.rdata(), rk as int, kv) == mm && mm < nrr,
                        None => last_match(other.rdata(), rk as int, kv) == -1,
                    },
                    nrow@.len() == nl + q,
                    forall|u: int| 0 <= u < nl ==> #[trigger] nrow@[u]@ == lrow[u],
                    forall|u: int|
                        0 <= u < q ==> #[trigger] nrow@[nl + u]@ == (match m {
                            Some(mm) => other.rdata()[mm as int][picked@[u] as int],
                            None => null_v(other.kinds()[picked@[u] as int]),
                        }),
                decreases nimp - q,
            {
                let oc = picked[q];
                match m {
                    Some(mm) => {
                        proof {
                            assert(other.rdata()[mm as int] == row_view(other.rows@[mm as int]@));
                            assert(row_view(other.rows@[mm as int]@)[oc as int] == other.rows@[mm as int]@[oc as int]@);
                        }
                        nrow.push(dup_value(&other.rows[mm][oc]));
                    },
                    None => {
                        nrow.push(null_value(other.cols[oc].kind));
                    },
                }
                q += 1;
            }
            let ghost nrowv = nrow@;
            new_rows.push(nrow);
            proof {
                let jr = join_row(lrow, lk as int, other.rdata(), rk as int, other.kinds(), imp);
                assert(new_rows@[i as int]@ == nrowv);
                assert forall|u: int| 0 <= u < nl + nimp implies row_view(nrowv)[u] == jr[u] by {
                    assert(row_view(nrowv)[u] == nrowv[u]@);
                    let mspec = last_match(other.rdata(), rk as int, lrow[lk as int]);
                    if u >= nl {
                        let u2 = u - nl;
                        assert(imp[u2] == picked@.map_values(|u3: usize| u3 as int)[u2]);
                        assert(imp[u2] == picked@[u2] as int);
                        assert(nrowv[nl + u2]@ == (match m {
                            Some(mm) => other.rdata()[mm as int][picked@[u2] as int],
                            None => null_v(other.kinds()[picked@[u2] as int]),
                        }));
                        assert(jr[u] == if mspec >= 0 {
                            other.rdata()[mspec][imp[u2]]
                        } else {
                            null_v(other.kinds()[imp[u2]])
                        });
                    } else {
                        assert(nrowv[u]@ == lrow[u]);
                        assert(jr[u] == lrow[u]);
                    }
                }
                assert(row_view(new_rows@[i as int]@) =~= jr);
            }
            i += 1;
        }
        proof {
            assert(self.rdata().take(nr as int) =~= self.rdata());
        }
        let ghost unm = some_row_unmatched(self.rdata(), lk as int, other.rdata(), rk as int);
        proof {
            assert(any_unmatched == unm);
        }
        proof {
            assert forall|m2: int| 0 <= m2 < nl implies #[trigger] new_widths@[m2]
                == self.widths@[m2] by {
                assert(new_cols@[m2] == self.cols@[m2]);
            }
            assert forall|m2: int| 0 <= m2 < nimp implies #[trigger] new_widths@[nl + m2]
                == other.widths@[picked@[m2] as int] by {
                let c = new_cols@[nl + m2];
                assert(c.name@ == other.names()[picked@[m2] as int]);
            }
        }
        // An unmatched left row leaves nulls under every imported column:
        // raise those widths to cover the four cells of "NULL".
        if any_unmatched {
            let total = new_widths.len();
            let mut q2: usize = 0;
            while q2 < nimp
                invariant
                    q2 <= nimp,
                    nimp == picked@.len(),
                    nl == self.cols@.len(),
                    total == new_widths@.len(),
                    total == nl + nimp,
                    forall|m2: int| 0 <= m2 < nl ==> #[trigger] new_widths@[m2] == self.widths@[m2],
                    forall|m2: int|
                        0 <= m2 < q2 ==> #[trigger] new_widths@[nl + m2] == import_width(
                            other.widths@[picked@[m2] as int],
                            true,
                        ),
                    forall|m2: int|
                        q2 <= m2 < nimp ==> #[trigger] new_widths@[nl + m2] == other.widths@[
                            picked@[m2] as int],
                decreases nimp - q2,
            {
                if new_widths[nl + q2] < 4 {
                    new_widths[nl + q2] = 4;
                }
                q2 += 1;
            }
        }
        let t = Table { name: self.name.clone(), cols: new_cols, widths: new_widths, rows: new_rows };
        proof {
            assert forall|k2: int| 0 <= k2 < nimp implies #[trigger] t.widths@[nl + k2]
                == import_width(other.widths@[picked@[k2] as int], unm) by {
                let c = t.cols@[nl + k2];
                assert(c.name@ == other.names()[picked@[k2] as int]);
            }
        }
        proof {
            // Distinct names: left names are distinct, imported names are
            // distinct right names, and no imported name is a left name.
            assert forall|a: int, b: int| 0 <= a < b < t.cols@.len() implies t.names()[a]
                != t.names()[b] by {
                assert(t.names()[a] == t.cols@[a].name@);
                assert(t.names()[b] == t.cols@[b].name@);
                if b >= nl {
                    assert(imp[b - nl] == picked@.map_values(|u2: usize| u2 as int)[b - nl]);
                    assert(imp[b - nl] == picked@[b - nl] as int);
                    assert(t.cols@[nl + (b - nl)].name@ == other.names()[picked@[b - nl] as int]);
                    assert(t.cols@[b].name@ == other.names()[imp[b - nl]]);
                }
                if a >= nl {
                    assert(imp[a - nl] == picked@.map_values(|u2: usize| u2 as int)[a - nl]);
                    assert(imp[a - nl] == picked@[a - nl] as int);
                    assert(t.cols@[nl + (a - nl)].name@ == other.names()[picked@[a - nl] as int]);
                    assert(t.cols@[a].name@ == other.names()[imp[a - nl]]);
                }
                if a < nl && b < nl {
                    assert(t.names()[a] == self.names()[a]);
                    assert(t.names()[b] == self.names()[b]);
                } else if a < nl {
                    assert(!has_name(self.names(), other.names()[imp[b - nl]]));
                    assert(t.names()[a] == self.names()[a]);
                } else {
                    assert(imp[a - nl] < imp[b - nl]);
                    assert(other.names()[imp[a - nl]] != other.names()[imp[b - nl]]);
                }
            }
            assert forall|i2: int| 0 <= i2 < self.rows@.len() implies #[trigger] t.rdata()[i2]
                == join_row(
                self.rdata()[i2],
                lk as int,
                other.rdata(),
                rk as int,
                other.kinds(),
                imp,
            ) by {
                assert(t.rdata()[i2] == row_view(t.rows@[i2]@));
            }
            if self.widths_ok() && other.widths_ok() {
                assert forall|jj: int| 0 <= jj < t.num_cols() implies (#[trigger] t.widths@[jj])
                    >= t.names()[jj].len() by {
                    assert(t.names()[jj] == t.cols@[jj].name@);
                    if jj < nl {
                        assert(t.cols@[jj] == self.cols@[jj]);
                        assert(t.names()[jj] == self.names()[jj]);
                        assert(self.widths@[jj] >= self.names()[jj].len());
                    } else {
                        assert(imp[jj - nl] == picked@.map_values(|u2: usize| u2 as int)[jj - nl]);
                        assert(imp[jj - nl] == picked@[jj - nl] as int);
                        assert(t.cols@[nl + (jj - nl)].name@ == other.names()[picked@[jj
                            - nl] as int]);
                        assert(t.widths@[nl + (jj - nl)] == import_width(
                            other.widths@[picked@[jj - nl] as int],
                            unm,
                        ));
                        assert(t.widths@[jj] >= other.widths@[imp[jj - nl]]);
                        assert(other.widths@[imp[jj - nl]] >= other.names()[imp[jj - nl]].len());
                    }
                }
                assert forall|rr2: int, jj: int|
                    0 <= rr2 < t.rdata().len() && 0 <= jj < t.num_cols() implies t.widths@[jj]
                    >= val_width(#[trigger] t.rdata()[rr2][jj]) by {
                    let lrow = self.rdata()[rr2];
                    let jr = join_row(lrow, lk as int, other.rdata(), rk as int, other.kinds(), imp);
                    assert(t.rdata()[rr2] == jr);
                    let mspec = last_match(other.rdata(), rk as int, lrow[lk as int]);
                    lemma_last_match(other.rdata(), rk as int, lrow[lk as int]);
                    if jj < nl {
                        assert(jr[jj] == lrow[jj]);
                        assert(self.widths@[jj] >= val_width(lrow[jj]));
                    } else {
                        assert(imp[jj - nl] == picked@.map_values(|u2: usize| u2 as int)[jj - nl]);
                        assert(imp[jj - nl] == picked@[jj - nl] as int);
                        assert(jr[jj] == (if mspec >= 0 {
                            other.rdata()[mspec][imp[jj - nl]]
                        } else {
                            null_v(other.kinds()[imp[jj - nl]])
                        }));
                        assert(t.cols@[nl + (jj - nl)].name@ == other.names()[picked@[jj
                            - nl] as int]);
                        assert(t.widths@[nl + (jj - nl)] == import_width(
                            other.widths@[picked@[jj - nl] as int],
                            unm,
                        ));
                        assert(t.widths@[jj] >= other.widths@[imp[jj - nl]]);
                        if mspec >= 0 {
                            assert(other.widths@[imp[jj - nl]] >= val_width(
                                other.rdata()[mspec][imp[jj - nl]],
                            ));
                        } else {
                            assert(last_match(
                                other.rdata(),
                                rk as int,
                                (self.rdata()[rr2])[lk as int],
                            ) == -1);
                            assert(unm);
                            assert(t.widths@[jj] >= 4);
                            assert(val_width(null_v(other.kinds()[imp[jj - nl]])) == 4);
                        }
                    }
                }
            }
        }
        Ok(t)
    }
}

proof fn lemma_sel_idxs_prefix_identity(names: Seq<Seq<char>>, m: int)
    requires
        forall|i: int, j: int| 0 <= i < j < names.len() ==> names[i] != names[j],
        0 <= m <= names.len(),
    ensures
        sel_idxs(names, names.take(m)).len() == m,
        forall|k: int| 0 <= k < m ==> #[trigger] sel_idxs(names, names.take(m))[k] == k,
    decreases m,
{
    if m > 0 {
        lemma_sel_idxs_prefix_identity(names, m - 1);
        let req = names.take(m);
        assert(req.drop_last() =~= names.take(m - 1));
        assert(req.last() == names[m - 1]);
        assert(0 <= m - 1 < names.len() && names[m - 1] == req.last());
        assert(has_name(names, req.last()));
        let idx = idx_of(names, req.last());
        assert(0 <= idx < names.len() && names[idx] == names[m - 1]);
        assert(idx == m - 1);
        assert(sel_idxs(names, req) == sel_idxs(names, req.drop_last()).push(m - 1));
    }
}

/// Selecting a table's own full column list is the identity on positions:
/// with select's contract, the derived table keeps every row's values and
/// the whole schema, in order.
pub proof fn lemma_select_full_list(names: Seq<Seq<char>>)
    requires
        forall|i: int, j: int| 0 <= i < j < names.len() ==> names[i] != names[j],
    ensures
        sel_idxs(names, names).len() == names.len(),
        forall|k: int| 0 <= k < names.len() ==> #[trigger] sel_idxs(names, names)[k] == k,
{
    lemma_sel_idxs_prefix_identity(names, names.len() as int);
    assert(names.take(names.len() as int) =~= names);
}

/// A join imports only columns the left table lacks: joining with a table
/// all of whose columns already exist on the left leaves the schema exactly
/// as it was, duplicating nothing.
pub proof fn lemma_join_imports_nothing(lnames: Seq<Seq<char>>, rnames: Seq<Seq<char>>)
    requires
        forall|o: int| 0 <= o < rnames.len() ==> has_name(lnames, #[trigger] rnames[o]),
    ensures
        imp_idxs(lnames, rnames).len() == 0,
    decreases rnames.len(),
{
    if rnames.len() > 0 {
        assert forall|o: int| 0 <= o < rnames.drop_last().len() implies has_name(
            lnames,
            #[trigger] rnames.drop_last()[o],
        ) by {
            assert(rnames.drop_last()[o] == rnames[o]);
        }
        lemma_join_imports_nothing(lnames, rnames.drop_last());
        assert(has_name(lnames, rnames[rnames.len() - 1]));
    }
}

/// An owned copy of a schema, column for column.
fn dup_cols(cs: &Vec<Column>) -> (d: Vec<Column>)
    ensures
        d@ == cs@,
{
    let n = cs.len();
    let mut d: Vec<Column> = Vec::new();
    let mut i: usize = 0;
    while i < n
        invariant
            i <= n,
            n == cs@.len(),
            d@.len() == i,
            forall|m: int| 0 <= m < i ==> #[trigger] d@[m] == cs@[m],
        decreases n - i,
    {
        d.push(Column { name: cs[i].name.clone(), kind: cs[i].kind });
        i += 1;
    }
    proof {
        assert(d@ =~= cs@);
    }
    d
}

/// An owned copy of the width cache.
fn dup_widths(ws: &Vec<usize>) -> (d: Vec<usize>)
    ensures
        d@ == ws@,
{
    let n = ws.len();
    let mut d: Vec<usize> = Vec::new();
    let mut i: usize = 0;
    while i < n
        invariant
            i <= n,
            n == ws@.len(),
            d@ == ws@.take(i as int),
        decreases n - i,
    {
        d.push(ws[i]);
        i += 1;
        proof {
            assert(d@ =~= ws@.take(i as int));
        }
    }
    proof {
        assert(ws@.take(n as int) =~= ws@);
    }
    d
}

} // verus!
