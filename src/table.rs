//! A table: same-length columns keyed by dictionary symbols.
use vstd::prelude::*;
use crate::column::{nulls, Cell, Column, ColumnValue, ColumnView, SchemaMismatch};

verus! {

/// A half-open range `[start, end)` of nanosecond timestamps.
#[derive(Debug, Clone, Copy, PartialEq, Eq, Structural)]
pub struct TimestampRange {
    pub start: i64,
    pub end: i64,
}

impl TimestampRange {
    /// Whether `t` falls in the range.
    pub open spec fn spec_contains(&self, t: i64) -> bool {
        self.start <= t && t < self.end
    }

    /// Whether `t` falls in the range.
    pub fn contains(&self, t: i64) -> (r: bool)
        ensures
            r == self.spec_contains(t),
    {
        self.start <= t && t < self.end
    }
}

/// A timestamp range together with the symbol of the time column in the
/// partition where it is applied.
#[derive(Debug, Clone, Copy, PartialEq, Eq, Structural)]
pub struct TimestampPredicate {
    pub time_column_id: u32,
    pub range: TimestampRange,
}

/// The mathematical content of a table.
pub struct TableView {
    pub id: u32,
    pub column_ids: Seq<u32>,
    pub columns: Seq<ColumnView>,
    pub row_count: nat,
}

/// A set of same-length columns, each named by a dictionary symbol.
#[derive(Debug)]
pub struct Table {
    id: u32,
    column_ids: Vec<u32>,
    columns: Vec<Column>,
    row_count: usize,
}

/// The content of a row: each column symbol with the cell it receives.
pub open spec fn row_cells(values: Seq<(u32, ColumnValue)>) -> Seq<(u32, Cell)> {
    Seq::new(values.len(), |i: int| (values[i].0, values[i].1.cell()))
}

/// The column symbols of a row, in order.
pub open spec fn row_ids(values: Seq<(u32, Cell)>) -> Seq<u32> {
    values.map_values(|p: (u32, Cell)| p.0)
}

/// The value that a row gives column `id`, if any.
pub open spec fn row_cell(values: Seq<(u32, Cell)>, id: u32) -> Option<Cell>
    decreases values.len(),
{
    if values.len() == 0 {
        None
    } else if values.last().0 == id {
        Some(values.last().1)
    } else {
        row_cell(values.drop_last(), id)
    }
}

/// The symbols of `ids` not in `existing`, in order.
pub open spec fn new_column_ids(existing: Seq<u32>, ids: Seq<u32>) -> Seq<u32>
    decreases ids.len(),
{
    if ids.len() == 0 {
        Seq::<u32>::empty()
    } else if existing.contains(ids.last()) {
        new_column_ids(existing, ids.drop_last())
    } else {
        new_column_ids(existing, ids.drop_last()).push(ids.last())
    }
}

/// The cell that a table's column at position `k` holds at `row`.
pub open spec fn cell_at(t: TableView, k: int, row: int) -> Option<Cell> {
    t.columns[k].cells[row]
}

/// Position of the column `id` in the table, if any.
pub open spec fn column_position(t: TableView, id: u32) -> Option<int> {
    if t.column_ids.contains(id) {
        Some(t.column_ids.index_of(id))
    } else {
        None
    }
}

/// Whether row `row` has a time, in column `pred.time_column_id`, inside
/// `pred.range`.
pub open spec fn row_in_range(t: TableView, pred: TimestampPredicate, row: int) -> bool {
    exists|k: int|
        0 <= k < t.column_ids.len() && t.column_ids[k] == pred.time_column_id && time_in(
            #[trigger] cell_at(t, k, row),
            pred.range,
        )
}

/// Whether a cell holds a time inside `range`.
pub open spec fn time_in(c: Option<Cell>, range: TimestampRange) -> bool {
    match c {
        Some(Cell::I64(ts)) => range.spec_contains(ts),
        _ => false,
    }
}

/// Whether some row of the table satisfies the optional timestamp predicate.
pub open spec fn table_matches(t: TableView, pred: Option<TimestampPredicate>) -> bool {
    match pred {
        None => true,
        Some(p) => has_row_in_range(t, p),
    }
}

/// Whether some row of the table has a time inside `pred`.
pub open spec fn has_row_in_range(t: TableView, pred: TimestampPredicate) -> bool {
    exists|row: int| 0 <= row < t.row_count && #[trigger] row_in_range(t, pred, row)
}

/// Whether the column at position `k` holds a value in some row that
/// satisfies the optional timestamp predicate.
pub open spec fn column_matches(t: TableView, k: int, pred: Option<TimestampPredicate>) -> bool {
    exists|row: int|
        0 <= row < t.row_count && (#[trigger] cell_at(t, k, row)) is Some && match pred {
            None => true,
            Some(p) => row_in_range(t, p, row),
        }
}

/// A row value conflicts with the stored variant of its column.
pub open spec fn row_conflicts(t: TableView, values: Seq<(u32, Cell)>) -> bool {
    exists|j: int, k: int|
        0 <= j < values.len() && 0 <= k < t.column_ids.len() && t.column_ids[k] == values[j].0
            && #[trigger] t.columns[k].kind != #[trigger] values[j].1.kind()
}

impl View for Table {
    type V = TableView;

    closed spec fn view(&self) -> TableView {
        TableView {
            id: self.id,
            column_ids: self.column_ids@,
            columns: self.columns@.map_values(|c: Column| c@),
            row_count: self.row_count as nat,
        }
    }
}

/// `n` is `o` after appending the row `values`: each existing column gets
/// the row's value or a null, and each symbol that is new to the table
/// becomes a column of nulls ending in the row's value.
pub open spec fn row_appended(o: TableView, n: TableView, values: Seq<(u32, Cell)>) -> bool {
    &&& n.id == o.id
    &&& n.row_count == o.row_count + 1
    &&& n.column_ids == o.column_ids + new_column_ids(o.column_ids, row_ids(values))
    &&& n.columns.len() == n.column_ids.len()
    &&& forall|k: int|
        0 <= k < o.columns.len() ==> #[trigger] n.columns[k] == (ColumnView {
            kind: o.columns[k].kind,
            cells: o.columns[k].cells.push(row_cell(values, o.column_ids[k])),
        })
    &&& forall|k: int|
        o.columns.len() <= k < n.columns.len() ==> (row_cell(values, n.column_ids[k]) is Some
            && #[trigger] n.columns[k] == (ColumnView {
            kind: row_cell(values, n.column_ids[k]).unwrap().kind(),
            cells: nulls(o.row_count).push(row_cell(values, n.column_ids[k])),
        }))
}

/// The table after appending the row `values` to `o`.
pub open spec fn appended_table(o: TableView, values: Seq<(u32, Cell)>) -> TableView {
    let ids = o.column_ids + new_column_ids(o.column_ids, row_ids(values));
    TableView {
        id: o.id,
        column_ids: ids,
        columns: Seq::new(
            ids.len(),
            |k: int|
                if k < o.columns.len() {
                    ColumnView { kind: o.columns[k].kind, cells: o.columns[k].cells.push(row_cell(values, o.column_ids[k])) }
                } else {
                    ColumnView {
                        kind: row_cell(values, ids[k]).unwrap().kind(),
                        cells: nulls(o.row_count).push(row_cell(values, ids[k])),
                    }
                },
        ),
        row_count: o.row_count + 1,
    }
}

/// Appending a row has exactly one outcome.
pub proof fn lemma_row_appended_unique(o: TableView, n: TableView, values: Seq<(u32, Cell)>)
    requires
        table_wf(o),
        row_appended(o, n, values),
    ensures
        n == appended_table(o, values),
{
    let a = appended_table(o, values);
    assert(n.columns.len() == a.columns.len());
    assert forall|k: int| 0 <= k < n.columns.len() implies n.columns[k] == a.columns[k] by {
        if k < o.columns.len() {
            assert(n.columns[k] == a.columns[k]);
        } else {
            assert(n.columns[k] == a.columns[k]);
        }
    }
    assert(n.columns =~= a.columns);
}

/// A table view is well formed: one column per symbol, each symbol once,
/// every column as long as the table.
pub open spec fn table_wf(t: TableView) -> bool {
    &&& t.column_ids.len() == t.columns.len()
    &&& t.column_ids.no_duplicates()
    &&& forall|k: int| 0 <= k < t.columns.len() ==> (#[trigger] t.columns[k]).cells.len() == t.row_count
}

/// Every column of a table is as long as the table.
pub proof fn lemma_columns_same_length(t: TableView, k: int)
    requires
        table_wf(t),
        0 <= k < t.columns.len(),
    ensures
        t.columns[k].cells.len() == t.row_count,
{
}

/// With distinct symbols, the value a row gives a column is the one at
/// that column's entry.
pub proof fn lemma_row_cell_at(values: Seq<(u32, Cell)>, j: int)
    requires
        row_ids(values).no_duplicates(),
        0 <= j < values.len(),
    ensures
        row_cell(values, values[j].0) == Some(values[j].1),
    decreases values.len(),
{
    if j != values.len() - 1 {
        let d = values.drop_last();
        assert(row_ids(values)[j] == values[j].0);
        assert(row_ids(values)[values.len() - 1] == values.last().0);
        assert(row_ids(d) =~= row_ids(values).drop_last());
        assert(d[j] == values[j]);
        lemma_row_cell_at(d, j);
    }
}

/// A symbol that no row entry names gets no value.
pub proof fn lemma_row_cell_absent(values: Seq<(u32, Cell)>, id: u32)
    requires
        !row_ids(values).contains(id),
    ensures
        row_cell(values, id) is None,
    decreases values.len(),
{
    if values.len() > 0 {
        let d = values.drop_last();
        assert(row_ids(values)[values.len() - 1] == values.last().0);
        assert(row_ids(d) =~= row_ids(values).drop_last());
        if row_ids(d).contains(id) {
            let i = choose|i: int| 0 <= i < row_ids(d).len() && row_ids(d)[i] == id;
            assert(row_ids(values)[i] == id);
        }
        lemma_row_cell_absent(d, id);
    }
}

/// The symbols added by a row are those it names that are not yet columns.
proof fn lemma_new_column_ids(existing: Seq<u32>, ids: Seq<u32>)
    requires
        ids.no_duplicates(),
    ensures
        forall|x: u32|
            new_column_ids(existing, ids).contains(x) <==> (ids.contains(x) && !existing.contains(
                x,
            )),
        new_column_ids(existing, ids).no_duplicates(),
    decreases ids.len(),
{
    if ids.len() > 0 {
        let d = ids.drop_last();
        assert(d.no_duplicates()) by {
            assert forall|i: int, j: int| 0 <= i < d.len() && 0 <= j < d.len() && i != j implies d[i]
                != d[j] by {
                assert(d[i] == ids[i] && d[j] == ids[j]);
            }
        }
        lemma_new_column_ids(existing, d);
        assert forall|x: u32| ids.contains(x) <==> (d.contains(x) || x == ids.last()) by {
            if ids.contains(x) {
                let i = choose|i: int| 0 <= i < ids.len() && ids[i] == x;
                if i < ids.len() - 1 {
                    assert(d[i] == x);
                }
            }
            if d.contains(x) {
                let i = choose|i: int| 0 <= i < d.len() && d[i] == x;
                assert(ids[i] == x);
            }
        }
        assert(!d.contains(ids.last())) by {
            if d.contains(ids.last()) {
                let i = choose|i: int| 0 <= i < d.len() && d[i] == ids.last();
                assert(ids[i] == ids[ids.len() - 1]);
            }
        }
        let n = new_column_ids(existing, d);
        if !existing.contains(ids.last()) {
            assert forall|x: u32| n.push(ids.last()).contains(x) <==> (n.contains(x) || x == ids.last()) by {
                if n.push(ids.last()).contains(x) {
                    let i = choose|i: int| 0 <= i < n.len() + 1 && n.push(ids.last())[i] == x;
                    if i < n.len() {
                        assert(n[i] == x);
                    }
                }
                if n.contains(x) {
                    let i = choose|i: int| 0 <= i < n.len() && n[i] == x;
                    assert(n.push(ids.last())[i] == x);
                }
                if x == ids.last() {
                    assert(n.push(ids.last())[n.len() as int] == x);
                }
            }
        }
    }
}

impl Table {
    /// The table is well formed.
    pub open spec fn wf(&self) -> bool {
        &&& table_wf(self@)
        &&& self@.columns.len() < usize::MAX
    }

    /// An empty table named by symbol `id`.
    pub fn new(id: u32) -> (r: Table)
        ensures
            r.wf(),
            r@.id == id,
            r@.column_ids.len() == 0,
            r@.columns.len() == 0,
            r@.row_count == 0,
    {
        let r = Table { id, column_ids: Vec::new(), columns: Vec::new(), row_count: 0 };
        assert(r@.columns =~= Seq::<ColumnView>::empty());
        r
    }

    /// The symbol of the table's name.
    pub fn id(&self) -> (r: u32)
        ensures
            r == self@.id,
    {
        self.id
    }

    /// Number of rows.
    pub fn row_count(&self) -> (r: usize)
        ensures
            r == self@.row_count,
    {
        self.row_count
    }

    /// Number of columns.
    pub fn column_count(&self) -> (r: usize)
        ensures
            r == self@.columns.len(),
    {
        self.columns.len()
    }

    /// The symbol of the column at `k`.
    pub fn column_id_at(&self, k: usize) -> (r: u32)
        requires
            k < self@.column_ids.len(),
        ensures
            r == self@.column_ids[k as int],
    {
        self.column_ids[k]
    }

    /// The column at `k`.
    pub fn column_at(&self, k: usize) -> (r: &Column)
        requires
            self.wf(),
            k < self@.columns.len(),
        ensures
            r@ == self@.columns[k as int],
    {
        &self.columns[k]
    }

    /// Position of column `id`, if the table has it.
    pub fn column_index(&self, id: u32) -> (r: Option<usize>)
        requires
            self.wf(),
        ensures
            r matches Some(k) ==> k < self@.column_ids.len() && self@.column_ids[k as int] == id
                && column_position(self@, id) == Some(k as int),
            r is None ==> !self@.column_ids.contains(id) && column_position(self@, id) is None,
    {
        let mut k: usize = 0;
        while k < self.column_ids.len()
            invariant
                self.wf(),
                0 <= k <= self.column_ids.len(),
                forall|i: int| 0 <= i < k ==> self.column_ids@[i] != id,
            decreases self.column_ids.len() - k,
        {
            if self.column_ids[k] == id {
                proof {
                    let s = self@.column_ids;
                    assert(s[k as int] == id);
                    assert(s.contains(id));
                    let m = s.index_of(id);
                    assert(s[m] == id);
                    assert(s.no_duplicates());
                }
                return Some(k);
            }
            k = k + 1;
        }
        None
    }

    /// `true` if `id` is `None` or names this table.
    pub fn matches_id_predicate(&self, id: Option<u32>) -> (r: bool)
        ensures
            r == match id {
                None => true,
                Some(i) => i == self@.id,
            },
    {
        match id {
            None => true,
            Some(i) => i == self.id,
        }
    }

    /// Whether the time column at position `tk` holds, at `row`, a time in
    /// `pred.range`.
    fn time_in_range(&self, tk: usize, row: usize, pred: &TimestampPredicate) -> (r: bool)
        requires
            self.wf(),
            row < self@.row_count,
            tk < self@.column_ids.len(),
            self@.column_ids[tk as int] == pred.time_column_id,
        ensures
            r == row_in_range(self@, *pred, row as int),
    {
        let ghost t = self@;
        proof {
            lemma_columns_same_length(t, tk as int);
        }
        let r = match &self.columns[tk] {
            Column::I64(v) => match v[row] {
                Some(ts) => pred.range.contains(ts),
                None => false,
            },
            _ => false,
        };
        proof {
            assert(r == time_in(cell_at(t, tk as int, row as int), pred.range));
            if !r {
                assert forall|k: int|
                    0 <= k < t.column_ids.len() && t.column_ids[k] == pred.time_column_id
                    implies !time_in(#[trigger] cell_at(t, k, row as int), pred.range) by {
                    assert(t.column_ids[k] == t.column_ids[tk as int]);
                    assert(t.column_ids.no_duplicates());
                }
            }
        }
        r
    }

    /// `true` if `pred` is `None`, else whether some row's time falls in
    /// the range.
    pub fn matches_timestamp_predicate(&self, pred: Option<TimestampPredicate>) -> (r: bool)
        requires
            self.wf(),
        ensures
            r == table_matches(self@, pred),
    {
        match pred {
            None => true,
            Some(p) => {
                let tk = match self.column_index(p.time_column_id) {
                    Some(tk) => tk,
                    None => {
                        proof {
                            assert forall|row: int| 0 <= row < self@.row_count implies !#[trigger] row_in_range(
                                self@,
                                p,
                                row,
                            ) by {
                                if row_in_range(self@, p, row) {
                                    let k = choose|k: int|
                                        0 <= k < self@.column_ids.len()
                                            && self@.column_ids[k] == p.time_column_id
                                            && time_in(#[trigger] cell_at(self@, k, row), p.range);
                                    assert(self@.column_ids[k] == p.time_column_id);
                                    assert(self@.column_ids.contains(p.time_column_id));
                                }
                            }
                        }
                        return false;
                    },
                };
                let mut row: usize = 0;
                while row < self.row_count
                    invariant
                        self.wf(),
                        pred == Some(p),
                        tk < self@.column_ids.len(),
                        self@.column_ids[tk as int] == p.time_column_id,
                        row <= self@.row_count,
                        forall|i: int| 0 <= i < row ==> !#[trigger] row_in_range(self@, p, i),
                    decreases self.row_count - row,
                {
                    if self.time_in_range(tk, row, &p) {
                        let ghost ri = row as int;
                        assert(0 <= ri < self@.row_count && row_in_range(self@, p, ri));
                        assert(exists|i: int| 0 <= i < self@.row_count && #[trigger] row_in_range(self@, p, i));
                        assert(has_row_in_range(self@, p));
                        return true;
                    }
                    row = row + 1;
                }
                false
            },
        }
    }

    /// Whether the column at `k` holds a value in some row that satisfies
    /// the optional timestamp predicate.
    pub fn column_matches_timestamp_predicate(
        &self,
        k: usize,
        pred: Option<TimestampPredicate>,
    ) -> (r: bool)
        requires
            self.wf(),
            k < self@.columns.len(),
        ensures
            r == column_matches(self@, k as int, pred),
    {
        let tk: Option<usize> = match pred {
            None => None,
            Some(p) => self.column_index(p.time_column_id),
        };
        let mut row: usize = 0;
        proof {
            lemma_columns_same_length(self@, k as int);
        }
        while row < self.row_count
            invariant
                self.wf(),
                k < self@.columns.len(),
                row <= self@.row_count,
                pred is None ==> tk is None,
                tk matches Some(i) ==> pred is Some && i < self@.column_ids.len()
                    && self@.column_ids[i as int] == pred.unwrap().time_column_id,
                pred is Some && tk is None ==> !self@.column_ids.contains(pred.unwrap().time_column_id),
                forall|i: int|
                    0 <= i < row ==> !((#[trigger] cell_at(self@, k as int, i)) is Some && match pred {
                        None => true,
                        Some(p) => row_in_range(self@, p, i),
                    }),
            decreases self.row_count - row,
        {
            let present = self.is_present(k, row);
            if present {
                match pred {
                    None => {
                        return true;
                    },
                    Some(p) => match tk {
                        Some(tki) => {
                            if self.time_in_range(tki, row, &p) {
                                return true;
                            }
                        },
                        None => {
                            proof {
                                if row_in_range(self@, p, row as int) {
                                    let kk = choose|kk: int|
                                        0 <= kk < self@.column_ids.len()
                                            && self@.column_ids[kk] == p.time_column_id
                                            && time_in(#[trigger] cell_at(self@, kk, row as int), p.range);
                                    assert(self@.column_ids[kk] == p.time_column_id);
                                    assert(self@.column_ids.contains(p.time_column_id));
                                }
                            }
                        },
                    },
                }
            }
            row = row + 1;
        }
        false
    }

    /// Whether the column at `k` holds a value (not a null) at `row`.
    pub fn is_present(&self, k: usize, row: usize) -> (r: bool)
        requires
            self.wf(),
            k < self@.columns.len(),
            row < self@.row_count,
        ensures
            r == (cell_at(self@, k as int, row as int) is Some),
    {
        proof {
            lemma_columns_same_length(self@, k as int);
        }
        match &self.columns[k] {
            Column::Tag(v) => v[row].is_some(),
            Column::I64(v) => v[row].is_some(),
            Column::F64(v) => v[row].is_some(),
            Column::Bool(v) => v[row].is_some(),
            Column::String(v) => v[row].is_some(),
        }
    }
}

impl Table {
    /// The position in `values` of the entry for column `id`, if any.
    fn find_value(values: &Vec<(u32, ColumnValue)>, id: u32) -> (r: Option<usize>)
        requires
            row_ids(row_cells(values@)).no_duplicates(),
        ensures
            r matches Some(j) ==> j < values@.len() && values@[j as int].0 == id && row_cell(
                row_cells(values@),
                id,
            ) == Some(values@[j as int].1.cell()),
            r is None ==> row_cell(row_cells(values@), id) is None && !row_ids(row_cells(values@)).contains(id),
    {
        let mut j: usize = 0;
        while j < values.len()
            invariant
                row_ids(row_cells(values@)).no_duplicates(),
                j <= values@.len(),
                forall|i: int| 0 <= i < j ==> values@[i].0 != id,
            decreases values.len() - j,
        {
            if values[j].0 == id {
                proof {
                    lemma_row_cell_at(row_cells(values@), j as int);
                }
                return Some(j);
            }
            j = j + 1;
        }
        proof {
            if row_ids(row_cells(values@)).contains(id) {
                let i = choose|i: int| 0 <= i < row_ids(row_cells(values@)).len() && row_ids(row_cells(values@))[i] == id;
                assert(values@[i].0 == id);
            }
            lemma_row_cell_absent(row_cells(values@), id);
        }
        None
    }

    /// Appends one row. `values` maps column symbols to values; a column
    /// that the row does not name gets a null, and a symbol that is not yet
    /// a column becomes a new column, back-filled with nulls and typed by its
    /// first value. If a value's variant differs from its column's, the
    /// table is left unchanged and the mismatch is returned.
    pub fn append_row(&mut self, values: &Vec<(u32, ColumnValue)>) -> (r: Result<(), SchemaMismatch>)
        requires
            old(self).wf(),
            row_ids(row_cells(values@)).no_duplicates(),
            old(self)@.row_count < usize::MAX,
            old(self)@.columns.len() + values@.len() < usize::MAX,
        ensures
            final(self).wf(),
            r is Err <==> row_conflicts(old(self)@, row_cells(values@)),
            r is Err ==> final(self)@ == old(self)@,
            r is Ok ==> row_appended(old(self)@, final(self)@, row_cells(values@)),
    {
        let ghost o = self@;
        // Check every value against its column before changing anything.
        let mut j: usize = 0;
        while j < values.len()
            invariant
                self.wf(),
                self@ == o,
                j <= values@.len(),
                forall|i: int, k: int|
                    0 <= i < j && 0 <= k < o.column_ids.len() && o.column_ids[k] == values@[i].0
                        ==> #[trigger] o.columns[k].kind == #[trigger] values@[i].1.spec_kind(),
            decreases values.len() - j,
        {
            match self.column_index(values[j].0) {
                Some(k) => {
                    let kind = self.columns[k].kind();
                    let vk = values[j].1.kind();
                    if kind != vk {
                        assert(o.columns[k as int].kind != values@[j as int].1.spec_kind());
                        assert(row_cells(values@)[j as int] == (values@[j as int].0, values@[j as int].1.cell()));
                        assert(o.columns[k as int].kind != row_cells(values@)[j as int].1.kind());
                        return Err(SchemaMismatch { expected: kind, found: vk });
                    }
                    proof {
                        assert forall|k2: int|
                            0 <= k2 < o.column_ids.len() && o.column_ids[k2] == values@[j as int].0
                            implies #[trigger] o.columns[k2].kind == values@[j as int].1.spec_kind() by {
                            assert(o.column_ids[k2] == o.column_ids[k as int]);
                        }
                    }
                },
                None => {},
            }
            j = j + 1;
        }
        assert forall|j2: int, k2: int|
            0 <= j2 < row_cells(values@).len() && 0 <= k2 < o.column_ids.len() && o.column_ids[k2] == row_cells(values@)[j2].0
            implies o.columns[k2].kind == row_cells(values@)[j2].1.kind() by {
            assert(row_cells(values@)[j2] == (values@[j2].0, values@[j2].1.cell()));
            assert(o.columns[k2].kind == values@[j2].1.spec_kind());
        }
        assert(!row_conflicts(o, row_cells(values@)));
        // Extend every existing column by the row's value or a null.
        let ncols = self.columns.len();
        let mut k: usize = 0;
        while k < ncols
            invariant
                ncols == o.columns.len(),
                self.id == o.id,
                self.row_count == o.row_count,
                self.column_ids@ == o.column_ids,
                self.columns@.len() == ncols,
                table_wf(o),
                k <= ncols,
                row_ids(row_cells(values@)).no_duplicates(),
                !row_conflicts(o, row_cells(values@)),
                forall|i: int|
                    0 <= i < k ==> #[trigger] self.columns@[i]@ == (ColumnView {
                        kind: o.columns[i].kind,
                        cells: o.columns[i].cells.push(row_cell(row_cells(values@), o.column_ids[i])),
                    }),
                forall|i: int| k <= i < ncols ==> #[trigger] self.columns@[i]@ == o.columns[i],
            decreases ncols - k,
        {
            let id = self.column_ids[k];
            match Table::find_value(values, id) {
                Some(j) => {
                    let v = values[j].1.copy();
                    assert(o.columns[k as int].kind == values@[j as int].1.spec_kind()) by {
                        if o.columns[k as int].kind != values@[j as int].1.spec_kind() {
                            assert(row_cells(values@)[j as int] == (values@[j as int].0, values@[j as int].1.cell()));
                            assert(o.columns[k as int].kind != row_cells(values@)[j as int].1.kind());
                            assert(row_conflicts(o, row_cells(values@)));
                        }
                    }
                    let _ = self.columns[k].push(v);
                },
                None => {
                    self.columns[k].push_null();
                },
            }
            k = k + 1;
        }
        // Add a column for each symbol that is new to the table.
        let ghost ids = row_ids(row_cells(values@));
        let mut j: usize = 0;
        proof {
            lemma_new_column_ids(o.column_ids, ids);
            assert(ids.take(0) =~= Seq::<u32>::empty());
            assert(self.column_ids@ =~= o.column_ids + new_column_ids(o.column_ids, ids.take(0)));
        }
        while j < values.len()
            invariant
                ncols == o.columns.len(),
                self.id == o.id,
                self.row_count == o.row_count,
                table_wf(o),
                o.row_count < usize::MAX,
                o.columns.len() + values@.len() < usize::MAX,
                ids == row_ids(row_cells(values@)),
                ids.no_duplicates(),
                j <= values@.len(),
                self.column_ids@ == o.column_ids + new_column_ids(o.column_ids, ids.take(j as int)),
                self.columns@.len() == self.column_ids@.len(),
                self.columns@.len() <= ncols + j,
                forall|i: int|
                    0 <= i < ncols ==> #[trigger] self.columns@[i]@ == (ColumnView {
                        kind: o.columns[i].kind,
                        cells: o.columns[i].cells.push(row_cell(row_cells(values@), o.column_ids[i])),
                    }),
                forall|i: int|
                    ncols <= i < self.columns@.len() ==> (row_cell(row_cells(values@), self.column_ids@[i]) is Some
                        && #[trigger] self.columns@[i]@ == (ColumnView {
                        kind: row_cell(row_cells(values@), self.column_ids@[i]).unwrap().kind(),
                        cells: nulls(o.row_count).push(row_cell(row_cells(values@), self.column_ids@[i])),
                    })),
            decreases values.len() - j,
        {
            let id = values[j].0;
            proof {
                assert(ids.take(j + 1).drop_last() =~= ids.take(j as int));
                assert(ids.take(j + 1).last() == id);
                lemma_new_column_ids(o.column_ids, ids.take(j as int));
            }
            let mut present = false;
            let mut c: usize = 0;
            while c < ncols
                invariant
                    ncols == o.columns.len(),
                    ncols <= self.column_ids@.len(),
                    self.column_ids@.subrange(0, ncols as int) == o.column_ids,
                    c <= ncols,
                    present == (exists|i: int| 0 <= i < c && o.column_ids[i] == id),
                decreases ncols - c,
            {
                if self.column_ids[c] == id {
                    assert(o.column_ids[c as int] == self.column_ids@[c as int]);
                    present = true;
                } else {
                    assert(o.column_ids[c as int] == self.column_ids@[c as int]);
                }
                c = c + 1;
            }
            assert(present == o.column_ids.contains(id));
            if !present {
                let v = values[j].1.copy();
                let mut col = Column::new_nulls(v.kind(), self.row_count);
                let _ = col.push(v);
                proof {
                    lemma_row_cell_at(row_cells(values@), j as int);
                }
                let ghost before = self.column_ids@;
                self.columns.push(col);
                self.column_ids.push(id);
                proof {
                    assert(self.column_ids@ =~= o.column_ids + new_column_ids(
                        o.column_ids,
                        ids.take(j + 1),
                    ));
                }
            } else {
                proof {
                    assert(self.column_ids@ =~= o.column_ids + new_column_ids(
                        o.column_ids,
                        ids.take(j + 1),
                    ));
                }
            }
            j = j + 1;
        }
        self.row_count = self.row_count + 1;
        proof {
            assert(ids.take(values@.len() as int) =~= ids);
            lemma_new_column_ids(o.column_ids, ids);
            let n = self@;
            assert(n.column_ids == o.column_ids + new_column_ids(o.column_ids, ids));
            let nn = new_column_ids(o.column_ids, ids);
            assert forall|i: int, m: int|
                0 <= i < n.column_ids.len() && 0 <= m < n.column_ids.len() && i != m implies n.column_ids[i]
                != n.column_ids[m] by {
                if i < ncols && m >= ncols {
                    assert(nn[m - ncols] == n.column_ids[m]);
                    assert(nn.contains(n.column_ids[m]));
                    assert(o.column_ids.contains(n.column_ids[i]));
                } else if i >= ncols && m < ncols {
                    assert(nn[i - ncols] == n.column_ids[i]);
                    assert(nn.contains(n.column_ids[i]));
                    assert(o.column_ids.contains(n.column_ids[m]));
                } else if i >= ncols && m >= ncols {
                    assert(nn[i - ncols] == n.column_ids[i]);
                    assert(nn[m - ncols] == n.column_ids[m]);
                }
            }
            assert forall|k: int| 0 <= k < n.columns.len() implies (#[trigger] n.columns[k]).cells.len()
                == n.row_count by {
                if k < ncols {
                    assert(n.columns[k] == self.columns@[k]@);
                    lemma_columns_same_length(o, k);
                } else {
                    assert(n.columns[k] == self.columns@[k]@);
                }
            }
            assert forall|k: int|
                0 <= k < o.columns.len() implies #[trigger] n.columns[k] == (ColumnView {
                    kind: o.columns[k].kind,
                    cells: o.columns[k].cells.push(row_cell(row_cells(values@), o.column_ids[k])),
                }) by {
                assert(n.columns[k] == self.columns@[k]@);
            }
            assert forall|k: int|
                o.columns.len() <= k < n.columns.len() implies (row_cell(row_cells(values@), n.column_ids[k]) is Some
                    && #[trigger] n.columns[k] == (ColumnView {
                    kind: row_cell(row_cells(values@), n.column_ids[k]).unwrap().kind(),
                    cells: nulls(o.row_count).push(row_cell(row_cells(values@), n.column_ids[k])),
                })) by {
                assert(n.columns[k] == self.columns@[k]@);
            }
        }
        Ok(())
    }
}

impl Table {
    /// Whether row `row` satisfies the optional timestamp predicate.
    pub fn row_matches(&self, row: usize, pred: Option<TimestampPredicate>) -> (r: bool)
        requires
            self.wf(),
            row < self@.row_count,
        ensures
            r == match pred {
                None => true,
                Some(p) => row_in_range(self@, p, row as int),
            },
    {
        match pred {
            None => true,
            Some(p) => match self.column_index(p.time_column_id) {
                Some(tk) => self.time_in_range(tk, row, &p),
                None => {
                    proof {
                        if row_in_range(self@, p, row as int) {
                            let k = choose|k: int|
                                0 <= k < self@.column_ids.len() && self@.column_ids[k] == p.time_column_id
                                    && time_in(#[trigger] cell_at(self@, k, row as int), p.range);
                            assert(self@.column_ids[k] == p.time_column_id);
                            assert(self@.column_ids.contains(p.time_column_id));
                        }
                    }
                    false
                },
            },
        }
    }

    /// The tag symbol that column `k` holds at `row`, if the cell holds one.
    pub fn tag_at(&self, k: usize, row: usize) -> (r: Option<u32>)
        requires
            self.wf(),
            k < self@.columns.len(),
            row < self@.row_count,
        ensures
            match cell_at(self@, k as int, row as int) {
                Some(Cell::Tag(v)) => r == Some(v),
                _ => r is None,
            },
    {
        proof {
            lemma_columns_same_length(self@, k as int);
        }
        match &self.columns[k] {
            Column::Tag(v) => v[row],
            _ => None,
        }
    }
}

} // verus!
