//! The database: its partitions, the write path, and the metadata queries.
use vstd::prelude::*;
use crate::column::{Cell, ColumnType};
use crate::partition::{batches_applied, lemma_names_persist, tables_extend, column_matches_where, predicate_view, row_selected, Predicate, cell_symbol_ok, partition_predicate, partition_wf, symbols_valid, time_name, Partition, PartitionError, PartitionView};
use crate::table::{cell_at, column_matches, has_row_in_range, lemma_columns_same_length, row_in_range, time_in, TimestampPredicate, table_matches, TableView, TimestampRange};
use crate::text::{distinct_strings, insert_sorted, lemma_sorted_distinct, seq_of_strings, sorted_strings};
use crate::codec::{decode_batch, decode_spec, encode_batch};
use crate::line::{all_timestamped, group_lines, split_lines_into_write_entry_partitions, ParsedLine};
use crate::wal::{EntryModel, WriteBufferBatch};
use crate::batch::{BatchColumnView, RecordBatch};
use crate::partition::{has_table_named, projection, table_named, ProjectionError};

verus! {

/// Why a database operation failed.
#[derive(Debug, Clone, Copy, PartialEq, Eq, Structural)]
pub enum Error {
    /// Applying an entry to a partition failed.
    PartitionError(PartitionError),
    /// A row has no timestamp, so it has no partition.
    MissingTimestamp,
    /// The named table is not in the dictionary of some partition.
    TableNameNotFoundInDictionary,
    /// The named column is not in the dictionary of some partition.
    ColumnNameNotFoundInDictionary,
    /// Values were asked of a column that does not hold tags.
    UnsupportedColumnTypeForListingValues,
    /// A projection named a column that the table does not have.
    MissingColumn,
    /// A log frame could not be decoded.
    WalRecoverError,
}

/// The tables of the database, partition by partition, in order of
/// creation.
#[derive(Debug)]
pub struct Db {
    name: String,
    partitions: Vec<Partition>,
}

impl View for Db {
    type V = Seq<PartitionView>;

    closed spec fn view(&self) -> Seq<PartitionView> {
        self.partitions@.map_values(|p: Partition| p@)
    }
}

/// Every partition is well formed and no two share a key.
pub open spec fn db_wf(db: Seq<PartitionView>) -> bool {
    &&& forall|i: int| 0 <= i < db.len() ==> partition_wf(#[trigger] db[i])
    &&& forall|i: int, j: int|
        0 <= i < db.len() && 0 <= j < db.len() && i != j ==> (#[trigger] db[i]).key != (#[trigger] db[j]).key
}

/// The name of table `j` of partition `p`.
pub open spec fn table_name(p: PartitionView, j: int) -> Seq<char> {
    p.dictionary[p.tables[j].id as int]
}

/// One of the first `jmax` tables of `p` is named `s` and has a row in
/// `range`.
pub open spec fn name_in_partition(
    p: PartitionView,
    jmax: int,
    range: Option<TimestampRange>,
    s: Seq<char>,
) -> bool {
    exists|j: int|
        0 <= j < jmax && #[trigger] table_matches(p.tables[j], partition_predicate(range))
            && table_name(p, j) == s
}

/// One of the first `imax` partitions has a table named `s` with a row in
/// `range`.
pub open spec fn table_name_listed(
    db: Seq<PartitionView>,
    imax: int,
    range: Option<TimestampRange>,
    s: Seq<char>,
) -> bool {
    exists|i: int| 0 <= i < imax && #[trigger] name_in_partition(db[i], db[i].tables.len() as int, range, s)
}

/// The result of a listing: ascending, no string twice, and exactly the
/// strings that `listed` holds.
pub open spec fn lists_exactly(r: Seq<String>, listed: spec_fn(Seq<char>) -> bool) -> bool {
    &&& sorted_strings(seq_of_strings(r))
    &&& distinct_strings(seq_of_strings(r))
    &&& forall|s: Seq<char>| #[trigger] seq_of_strings(r).contains(s) <==> listed(s)
}

/// Table `j` of `p` has a row in `range` and, if `table` names a table,
/// is that table.
pub open spec fn table_selected(
    p: PartitionView,
    j: int,
    table: Option<Seq<char>>,
    range: Option<TimestampRange>,
) -> bool {
    &&& table_matches(p.tables[j], partition_predicate(range))
    &&& match table {
        None => true,
        Some(n) => table_name(p, j) == n,
    }
}

/// One of the first `kmax` columns of table `j` of `p` is a tag column
/// named `s` with a value in a row in `range` that satisfies `tag`.
pub open spec fn tag_in_table(
    p: PartitionView,
    j: int,
    kmax: int,
    range: Option<TimestampRange>,
    tag: Option<(Seq<char>, Seq<char>)>,
    s: Seq<char>,
) -> bool {
    exists|k: int|
        0 <= k < kmax && p.tables[j].columns[k].kind == ColumnType::Tag && #[trigger] column_matches_where(
            p,
            j,
            k,
            range,
            tag,
        ) && p.dictionary[p.tables[j].column_ids[k] as int] == s
}

/// One of the first `jmax` tables of `p` is selected and has a tag column
/// named `s` with a value in a row in `range`.
pub open spec fn tag_in_partition(
    p: PartitionView,
    jmax: int,
    table: Option<Seq<char>>,
    range: Option<TimestampRange>,
    tag: Option<(Seq<char>, Seq<char>)>,
    s: Seq<char>,
) -> bool {
    exists|j: int|
        0 <= j < jmax && #[trigger] table_selected(p, j, table, range) && tag_in_table(
            p,
            j,
            p.tables[j].columns.len() as int,
            range,
            tag,
            s,
        )
}

/// One of the first `imax` partitions lists the tag column name `s`.
pub open spec fn tag_name_listed(
    db: Seq<PartitionView>,
    imax: int,
    table: Option<Seq<char>>,
    range: Option<TimestampRange>,
    tag: Option<(Seq<char>, Seq<char>)>,
    s: Seq<char>,
) -> bool {
    exists|i: int|
        0 <= i < imax && #[trigger] tag_in_partition(db[i], db[i].tables.len() as int, table, range, tag, s)
}

/// `table` names a table that the dictionary of some partition lacks.
pub open spec fn table_missing(db: Seq<PartitionView>, table: Option<Seq<char>>) -> bool {
    match table {
        None => false,
        Some(n) => exists|i: int| 0 <= i < db.len() && !(#[trigger] db[i].dictionary).contains(n),
    }
}

/// The view of an optional string.
pub open spec fn opt_view(s: Option<&str>) -> Option<Seq<char>> {
    match s {
        None => None,
        Some(x) => Some(x@),
    }
}

/// Row `r` of column `k` of table `j` of `p` holds a tag whose string is
/// `s`, in a row in `range` that satisfies `tag`.
pub open spec fn value_at(
    p: PartitionView,
    j: int,
    k: int,
    r: int,
    range: Option<TimestampRange>,
    tag: Option<(Seq<char>, Seq<char>)>,
    s: Seq<char>,
) -> bool {
    match p.tables[j].columns[k].cells[r] {
        Some(Cell::Tag(v)) => p.dictionary[v as int] == s && row_selected(p, j, r, range, tag),
        _ => false,
    }
}

/// One of the first `rmax` rows of column `k` of table `j` gives `s`.
pub open spec fn value_in_column(
    p: PartitionView,
    j: int,
    k: int,
    rmax: int,
    range: Option<TimestampRange>,
    tag: Option<(Seq<char>, Seq<char>)>,
    s: Seq<char>,
) -> bool {
    exists|r: int| 0 <= r < rmax && #[trigger] value_at(p, j, k, r, range, tag, s)
}

/// One of the first `kmax` columns of table `j`, named `column`, gives `s`.
pub open spec fn value_in_table(
    p: PartitionView,
    j: int,
    kmax: int,
    column: Seq<char>,
    range: Option<TimestampRange>,
    tag: Option<(Seq<char>, Seq<char>)>,
    s: Seq<char>,
) -> bool {
    exists|k: int|
        0 <= k < kmax && p.dictionary[p.tables[j].column_ids[k] as int] == column && #[trigger] value_in_column(
            p,
            j,
            k,
            p.tables[j].row_count as int,
            range,
            tag,
            s,
        )
}

/// One of the first `jmax` tables of `p`, if selected, gives `s`.
pub open spec fn value_in_partition(
    p: PartitionView,
    jmax: int,
    table: Option<Seq<char>>,
    column: Seq<char>,
    range: Option<TimestampRange>,
    tag: Option<(Seq<char>, Seq<char>)>,
    s: Seq<char>,
) -> bool {
    exists|j: int|
        0 <= j < jmax && #[trigger] table_selected(p, j, table, range) && value_in_table(
            p,
            j,
            p.tables[j].columns.len() as int,
            column,
            range,
            tag,
            s,
        )
}

/// One of the first `imax` partitions gives the tag value `s`.
pub open spec fn value_listed(
    db: Seq<PartitionView>,
    imax: int,
    table: Option<Seq<char>>,
    column: Seq<char>,
    range: Option<TimestampRange>,
    tag: Option<(Seq<char>, Seq<char>)>,
    s: Seq<char>,
) -> bool {
    exists|i: int|
        0 <= i < imax && #[trigger] value_in_partition(db[i], db[i].tables.len() as int, table, column, range, tag, s)
}

/// Among the first `jmax` tables of `p`, a selected one has a column named
/// `column` that does not hold tags.
pub open spec fn non_tag_column(
    p: PartitionView,
    jmax: int,
    table: Option<Seq<char>>,
    column: Seq<char>,
    range: Option<TimestampRange>,
) -> bool {
    exists|j: int, k: int|
        0 <= j < jmax && 0 <= k < p.tables[j].columns.len() && #[trigger] table_selected(p, j, table, range)
            && p.dictionary[p.tables[j].column_ids[k] as int] == column
            && #[trigger] p.tables[j].columns[k].kind != ColumnType::Tag
}

/// Listing the values of `column` fails in partition `p`.
pub open spec fn values_fail_in(
    p: PartitionView,
    table: Option<Seq<char>>,
    column: Seq<char>,
    range: Option<TimestampRange>,
) -> bool {
    ||| (table matches Some(n) && !p.dictionary.contains(n))
    ||| !p.dictionary.contains(column)
    ||| non_tag_column(p, p.tables.len() as int, table, column, range)
}

/// What error `e` of a value listing means: its condition holds in some
/// partition.
pub open spec fn values_error_holds(
    db: Seq<PartitionView>,
    e: Error,
    table: Option<Seq<char>>,
    column: Seq<char>,
    range: Option<TimestampRange>,
) -> bool {
    match e {
        Error::TableNameNotFoundInDictionary => table_missing(db, table),
        Error::ColumnNameNotFoundInDictionary => exists|i: int|
            0 <= i < db.len() && !(#[trigger] db[i].dictionary).contains(column),
        Error::UnsupportedColumnTypeForListingValues => exists|i: int|
            0 <= i < db.len() && #[trigger] non_tag_column(db[i], db[i].tables.len() as int, table, column, range),
        _ => false,
    }
}

impl Db {
    /// The database is well formed.
    pub open spec fn wf(&self) -> bool {
        db_wf(self@)
    }

    /// An empty database.
    pub fn new(name: &str) -> (r: Db)
        ensures
            r.wf(),
            r@.len() == 0,
            r.spec_name() == name@,
    {
        let r = Db { name: name.to_owned(), partitions: Vec::new() };
        assert(r@ =~= Seq::<PartitionView>::empty());
        r
    }

    /// The database's name.
    pub closed spec fn spec_name(&self) -> Seq<char> {
        self.name@
    }

    /// The database's name.
    pub fn name(&self) -> (r: &str)
        ensures
            r@ == self.spec_name(),
    {
        self.name.as_str()
    }

    /// Number of partitions.
    pub fn partition_count(&self) -> (r: usize)
        ensures
            r == self@.len(),
    {
        self.partitions.len()
    }

    /// The partition at position `i`.
    pub fn partition_at(&self, i: usize) -> (r: &Partition)
        requires
            i < self@.len(),
        ensures
            r@ == self@[i as int],
    {
        &self.partitions[i]
    }

    /// The names of the tables that have a row in `range` (any row when
    /// `range` is `None`), each once.
    pub fn table_names(&self, range: Option<TimestampRange>) -> (r: Vec<String>)
        requires
            self.wf(),
        ensures
            lists_exactly(r@, |s: Seq<char>| table_name_listed(self@, self@.len() as int, range, s)),
    {
        let mut out: Vec<String> = Vec::new();
        let ghost db = self@;
        let mut i: usize = 0;
        while i < self.partitions.len()
            invariant
                db == self@,
                db_wf(db),
                i <= db.len(),
                sorted_strings(seq_of_strings(out@)),
                forall|s: Seq<char>|
                    #[trigger] seq_of_strings(out@).contains(s) <==> table_name_listed(db, i as int, range, s),
            decreases self.partitions.len() - i,
        {
            let p = &self.partitions[i];
            let pred = p.make_timestamp_predicate(range);
            assert(partition_wf(db[i as int]));
            let mut j: usize = 0;
            while j < p.table_count()
                invariant
                    db == self@,
                    p@ == db[i as int],
                    db_wf(db),
                    i < db.len(),
                    partition_wf(p@),
                    pred == partition_predicate(range),
                    j <= p@.tables.len(),
                    sorted_strings(seq_of_strings(out@)),
                    forall|s: Seq<char>|
                        #[trigger] seq_of_strings(out@).contains(s) <==> (table_name_listed(
                            db,
                            i as int,
                            range,
                            s,
                        ) || name_in_partition(p@, j as int, range, s)),
                decreases p@.tables.len() - j,
            {
                let t = p.table_at(j);
                let m = t.matches_timestamp_predicate(pred);
                let ghost before = seq_of_strings(out@);
                if m {
                    assert(p@.tables[j as int].id < p@.dictionary.len());
                    match p.dictionary().lookup_id(t.id()) {
                        Some(name) => {
                            insert_sorted(&mut out, name);
                        },
                        None => {},
                    }
                }
                proof {
                    assert forall|s: Seq<char>|
                        name_in_partition(p@, j + 1, range, s) <==> (name_in_partition(p@, j as int, range, s)
                            || (m && table_name(p@, j as int) == s)) by {
                        if name_in_partition(p@, j + 1, range, s) {
                            let w = choose|w: int|
                                0 <= w < j + 1 && #[trigger] table_matches(
                                    p@.tables[w],
                                    partition_predicate(range),
                                ) && table_name(p@, w) == s;
                            if w < j {
                                assert(name_in_partition(p@, j as int, range, s));
                            }
                        }
                        if name_in_partition(p@, j as int, range, s) {
                            let w = choose|w: int|
                                0 <= w < j && #[trigger] table_matches(
                                    p@.tables[w],
                                    partition_predicate(range),
                                ) && table_name(p@, w) == s;
                            assert(0 <= w < j + 1);
                        }
                        if m && table_name(p@, j as int) == s {
                            assert(table_matches(p@.tables[j as int], partition_predicate(range)));
                        }
                    }
                }
                j = j + 1;
            }
            proof {
                assert forall|s: Seq<char>|
                    table_name_listed(db, i + 1, range, s) <==> (table_name_listed(db, i as int, range, s)
                        || name_in_partition(db[i as int], db[i as int].tables.len() as int, range, s)) by {
                    if table_name_listed(db, i + 1, range, s) {
                        let w = choose|w: int|
                            0 <= w < i + 1 && #[trigger] name_in_partition(
                                db[w],
                                db[w].tables.len() as int,
                                range,
                                s,
                            );
                        if w < i {
                            assert(table_name_listed(db, i as int, range, s));
                        }
                    }
                    if table_name_listed(db, i as int, range, s) {
                        let w = choose|w: int|
                            0 <= w < i && #[trigger] name_in_partition(
                                db[w],
                                db[w].tables.len() as int,
                                range,
                                s,
                            );
                        assert(0 <= w < i + 1);
                    }
                }
            }
            i = i + 1;
        }
        proof {
            lemma_sorted_distinct(seq_of_strings(out@));
        }
        out
    }
}

impl Db {
    /// Resolves the optional table name in partition `i`: `Ok(None)` when no
    /// name is given, the name's symbol when the partition knows it, and an
    /// error otherwise.
    fn table_symbol(&self, i: usize, table: Option<&str>) -> (r: Result<Option<u32>, Error>)
        requires
            self.wf(),
            i < self@.len(),
        ensures
            table is None ==> r == Ok::<Option<u32>, Error>(None),
            table matches Some(n) ==> match r {
                Ok(Some(sym)) => self@[i as int].dictionary.contains(n@) && sym < self@[i as int].dictionary.len()
                    && self@[i as int].dictionary[sym as int] == n@,
                Ok(None) => false,
                Err(e) => e == Error::TableNameNotFoundInDictionary && !self@[i as int].dictionary.contains(n@),
            },
    {
        match table {
            None => Ok(None),
            Some(name) => {
                let p = &self.partitions[i];
                assert(partition_wf(self@[i as int]));
                match p.dictionary().lookup_value(name) {
                    Some(sym) => Ok(Some(sym)),
                    None => Err(Error::TableNameNotFoundInDictionary),
                }
            },
        }
    }

    /// The names of the tag columns that hold a value in a row in `range`,
    /// over the tables named `table` (all tables when `None`), each once.
    /// Fails if `table` names a table unknown to some partition.
    #[verifier::loop_isolation(false)]
    pub fn tag_column_names(
        &self,
        table: Option<&str>,
        range: Option<TimestampRange>,
        predicate: Option<&Predicate>,
    ) -> (r: Result<
        Vec<String>,
        Error,
    >)
        requires
            self.wf(),
        ensures
            r is Err <==> table_missing(self@, opt_view(table)),
            r matches Err(e) ==> e == Error::TableNameNotFoundInDictionary,
            r matches Ok(v) ==> lists_exactly(
                v@,
                |s: Seq<char>| tag_name_listed(self@, self@.len() as int, opt_view(table), range, predicate_view(predicate), s),
            ),
    {
        let mut out: Vec<String> = Vec::new();
        let ghost db = self@;
        let ghost tv = opt_view(table);
        let ghost tg = predicate_view(predicate);
        let mut i: usize = 0;
        while i < self.partitions.len()
            invariant
                db == self@,
                db_wf(db),
                tv == opt_view(table),
                i <= db.len(),
                sorted_strings(seq_of_strings(out@)),
                forall|s: Seq<char>|
                    #[trigger] seq_of_strings(out@).contains(s) <==> tag_name_listed(db, i as int, tv, range, tg, s),
                tv matches Some(n) ==> forall|k: int| 0 <= k < i ==> (#[trigger] db[k].dictionary).contains(n),
            decreases self.partitions.len() - i,
        {
            let sym = match self.table_symbol(i, table) {
                Ok(sym) => sym,
                Err(e) => {
                    return Err(e);
                },
            };
            let p = &self.partitions[i];
            let pred = p.make_timestamp_predicate(range);
            assert(partition_wf(db[i as int]));
            let mut j: usize = 0;
            while j < p.table_count()
                invariant
                    db == self@,
                    p@ == db[i as int],
                    db_wf(db),
                    tv == opt_view(table),
                    i < db.len(),
                    partition_wf(p@),
                    pred == partition_predicate(range),
                    table is None ==> sym is None,
                    tv matches Some(n) ==> (sym matches Some(x) && x < p@.dictionary.len() && p@.dictionary[x as int] == n),
                    j <= p@.tables.len(),
                    sorted_strings(seq_of_strings(out@)),
                    forall|s: Seq<char>|
                        #[trigger] seq_of_strings(out@).contains(s) <==> (tag_name_listed(db, i as int, tv, range, tg, s)
                            || tag_in_partition(p@, j as int, tv, range, tg, s)),
                decreases p@.tables.len() - j,
            {
                let t = p.table_at(j);
                let ghost tj = p@.tables[j as int];
                let selected = t.matches_id_predicate(sym) && t.matches_timestamp_predicate(pred);
                proof {
                    if let Some(n) = tv {
                        let x = sym.unwrap();
                        assert(tj.id < p@.dictionary.len());
                        if table_name(p@, j as int) == n {
                            assert(p@.dictionary[tj.id as int] == p@.dictionary[x as int]);
                        }
                    }
                    assert(selected == table_selected(p@, j as int, tv, range));
                }
                if selected {
                    let mut k: usize = 0;
                    while k < t.column_count()
                        invariant
                            db == self@,
                            p@ == db[i as int],
                            tj == p@.tables[j as int],
                            t@ == tj,
                            t.wf(),
                            partition_wf(p@),
                            j < p@.tables.len(),
                            pred == partition_predicate(range),
                            k <= tj.columns.len(),
                            sorted_strings(seq_of_strings(out@)),
                            forall|s: Seq<char>|
                                #[trigger] seq_of_strings(out@).contains(s) <==> (tag_name_listed(
                                    db,
                                    i as int,
                                    tv,
                                    range,
                                    tg,
                                    s,
                                ) || tag_in_partition(p@, j as int, tv, range, tg, s) || tag_in_table(
                                    p@,
                                    j as int,
                                    k as int,
                                    range,
                                    tg,
                                    s,
                                )),
                        decreases tj.columns.len() - k,
                    {
                        let is_tag = t.column_at(k).kind() == ColumnType::Tag;
                        let hit = is_tag && p.column_has_match(j, k, range, predicate);
                        if hit {
                            let cid = t.column_id_at(k);
                            assert(cid < p@.dictionary.len());
                            match p.dictionary().lookup_id(cid) {
                                Some(name) => {
                                    insert_sorted(&mut out, name);
                                },
                                None => {},
                            }
                        }
                        proof {
                            assert forall|s: Seq<char>|
                                tag_in_table(p@, j as int, k + 1, range, tg, s) <==> (tag_in_table(
                                    p@,
                                    j as int,
                                    k as int,
                                    range,
                                    tg,
                                    s,
                                ) || (hit && p@.dictionary[tj.column_ids[k as int] as int] == s)) by {
                                if tag_in_table(p@, j as int, k + 1, range, tg, s) {
                                    let w = choose|w: int|
                                        0 <= w < k + 1 && tj.columns[w].kind == ColumnType::Tag
                                            && #[trigger] column_matches_where(p@, j as int, w, range, tg)
                                            && p@.dictionary[tj.column_ids[w] as int] == s;
                                    if w < k {
                                        assert(tag_in_table(p@, j as int, k as int, range, tg, s));
                                    }
                                }
                                if tag_in_table(p@, j as int, k as int, range, tg, s) {
                                    let w = choose|w: int|
                                        0 <= w < k && tj.columns[w].kind == ColumnType::Tag
                                            && #[trigger] column_matches_where(p@, j as int, w, range, tg)
                                            && p@.dictionary[tj.column_ids[w] as int] == s;
                                    assert(0 <= w < k + 1);
                                }
                                if hit && p@.dictionary[tj.column_ids[k as int] as int] == s {
                                    assert(column_matches_where(p@, j as int, k as int, range, tg));
                                }
                            }
                        }
                        k = k + 1;
                    }
                }
                proof {
                    assert forall|s: Seq<char>|
                        tag_in_partition(p@, j + 1, tv, range, tg, s) <==> (tag_in_partition(p@, j as int, tv, range, tg, s)
                            || (selected && tag_in_table(p@, j as int, tj.columns.len() as int, range, tg, s))) by {
                        if tag_in_partition(p@, j + 1, tv, range, tg, s) {
                            let w = choose|w: int|
                                0 <= w < j + 1 && #[trigger] table_selected(p@, w, tv, range) && tag_in_table(
                                    p@,
                                    w,
                                    p@.tables[w].columns.len() as int,
                                    range,
                                    tg,
                                    s,
                                );
                            if w < j {
                                assert(tag_in_partition(p@, j as int, tv, range, tg, s));
                            }
                        }
                        if tag_in_partition(p@, j as int, tv, range, tg, s) {
                            let w = choose|w: int|
                                0 <= w < j && #[trigger] table_selected(p@, w, tv, range) && tag_in_table(
                                    p@,
                                    w,
                                    p@.tables[w].columns.len() as int,
                                    range,
                                    tg,
                                    s,
                                );
                            assert(0 <= w < j + 1);
                        }
                        if selected && tag_in_table(p@, j as int, tj.columns.len() as int, range, tg, s) {
                            assert(table_selected(p@, j as int, tv, range));
                        }
                    }
                }
                j = j + 1;
            }
            proof {
                assert forall|s: Seq<char>|
                    tag_name_listed(db, i + 1, tv, range, tg, s) <==> (tag_name_listed(db, i as int, tv, range, tg, s)
                        || tag_in_partition(db[i as int], db[i as int].tables.len() as int, tv, range, tg, s)) by {
                    if tag_name_listed(db, i + 1, tv, range, tg, s) {
                        let w = choose|w: int|
                            0 <= w < i + 1 && #[trigger] tag_in_partition(
                                db[w],
                                db[w].tables.len() as int,
                                tv,
                                range,
                                tg,
                                s,
                            );
                        if w < i {
                            assert(tag_name_listed(db, i as int, tv, range, tg, s));
                        }
                    }
                    if tag_name_listed(db, i as int, tv, range, tg, s) {
                        let w = choose|w: int|
                            0 <= w < i && #[trigger] tag_in_partition(
                                db[w],
                                db[w].tables.len() as int,
                                tv,
                                range,
                                tg,
                                s,
                            );
                        assert(0 <= w < i + 1);
                    }
                }
            }
            i = i + 1;
        }
        proof {
            lemma_sorted_distinct(seq_of_strings(out@));
        }
        Ok(out)
    }
}

impl Db {
    /// The distinct strings of the tag column `column_name`, over the rows
    /// in `range` of the tables named `table` (all tables when `None`).
    /// Fails if some partition does not know `table` or `column_name`, or
    /// if a selected table's `column_name` column does not hold tags.
    #[verifier::loop_isolation(false)]
    #[verifier::rlimit(50)]
    pub fn column_values(
        &self,
        column_name: &str,
        table: Option<&str>,
        range: Option<TimestampRange>,
        predicate: Option<&Predicate>,
    ) -> (r: Result<Vec<String>, Error>)
        requires
            self.wf(),
        ensures
            r is Err <==> exists|i: int|
                0 <= i < self@.len() && #[trigger] values_fail_in(self@[i], opt_view(table), column_name@, range),
            r matches Err(e) ==> values_error_holds(self@, e, opt_view(table), column_name@, range),
            r matches Ok(v) ==> lists_exactly(
                v@,
                |s: Seq<char>| value_listed(self@, self@.len() as int, opt_view(table), column_name@, range, predicate_view(predicate), s),
            ),
    {
        let mut out: Vec<String> = Vec::new();
        let ghost db = self@;
        let ghost tv = opt_view(table);
        let ghost tg = predicate_view(predicate);
        let ghost col = column_name@;
        let mut i: usize = 0;
        while i < self.partitions.len()
            invariant
                db == self@,
                db_wf(db),
                i <= db.len(),
                sorted_strings(seq_of_strings(out@)),
                forall|s: Seq<char>|
                    #[trigger] seq_of_strings(out@).contains(s) <==> value_listed(db, i as int, tv, col, range, tg, s),
                forall|k: int| 0 <= k < i ==> !#[trigger] values_fail_in(db[k], tv, col, range),
            decreases self.partitions.len() - i,
        {
            let p = &self.partitions[i];
            assert(partition_wf(db[i as int]));
            let sym = match self.table_symbol(i, table) {
                Ok(sym) => sym,
                Err(e) => {
                    assert(values_fail_in(db[i as int], tv, col, range));
                    return Err(e);
                },
            };
            let csym = match p.dictionary().lookup_value(column_name) {
                Some(c) => c,
                None => {
                    assert(values_fail_in(db[i as int], tv, col, range));
                    return Err(Error::ColumnNameNotFoundInDictionary);
                },
            };
            let pred = p.make_timestamp_predicate(range);
            let mut j: usize = 0;
            while j < p.table_count()
                invariant
                    p@ == db[i as int],
                    i < db.len(),
                    partition_wf(p@),
                    csym < p@.dictionary.len(),
                    p@.dictionary[csym as int] == col,
                    j <= p@.tables.len(),
                    sorted_strings(seq_of_strings(out@)),
                    forall|s: Seq<char>|
                        #[trigger] seq_of_strings(out@).contains(s) <==> (value_listed(db, i as int, tv, col, range, tg, s)
                            || value_in_partition(p@, j as int, tv, col, range, tg, s)),
                    !non_tag_column(p@, j as int, tv, col, range),
                decreases p@.tables.len() - j,
            {
                let t = p.table_at(j);
                let ghost tj = p@.tables[j as int];
                let selected = t.matches_id_predicate(sym) && t.matches_timestamp_predicate(pred);
                proof {
                    if let Some(n) = tv {
                        let x = sym.unwrap();
                        assert(tj.id < p@.dictionary.len());
                        if table_name(p@, j as int) == n {
                            assert(p@.dictionary[tj.id as int] == p@.dictionary[x as int]);
                        }
                    }
                    assert(selected == table_selected(p@, j as int, tv, range));
                    assert forall|k: int| 0 <= k < tj.columns.len() && p@.dictionary[tj.column_ids[k] as int] == col
                        implies tj.column_ids[k] == csym by {
                        assert(tj.column_ids[k] < p@.dictionary.len());
                    }
                }
                if selected {
                    match t.column_index(csym) {
                        None => {
                            proof {
                                assert forall|s: Seq<char>| !value_in_table(p@, j as int, tj.columns.len() as int, col, range, tg, s) by {
                                    if value_in_table(p@, j as int, tj.columns.len() as int, col, range, tg, s) {
                                        let k = choose|k: int|
                                            0 <= k < tj.columns.len() && p@.dictionary[tj.column_ids[k] as int] == col
                                                && #[trigger] value_in_column(p@, j as int, k, tj.row_count as int, range, tg, s);
                                        assert(tj.column_ids[k] == csym);
                                        assert(tj.column_ids.contains(csym));
                                    }
                                }
                                assert forall|k: int| 0 <= k < tj.columns.len() && p@.dictionary[tj.column_ids[k] as int] == col
                                    implies false by {
                                    assert(tj.column_ids[k] == csym);
                                    assert(tj.column_ids.contains(csym));
                                }
                            }
                        },
                        Some(k) => {
                            if t.column_at(k).kind() != ColumnType::Tag {
                                proof {
                                    assert(p@.tables[j as int].columns[k as int].kind != ColumnType::Tag);
                                    assert(non_tag_column(p@, p@.tables.len() as int, tv, col, range));
                                    assert(values_fail_in(db[i as int], tv, col, range));
                                }
                                return Err(Error::UnsupportedColumnTypeForListingValues);
                            }
                            let mut row: usize = 0;
                            while row < t.row_count()
                                invariant
                                    t@ == tj,
                                    t.wf(),
                                    tj == p@.tables[j as int],
                                    k < tj.columns.len(),
                                    tj.column_ids[k as int] == csym,
                                    row <= tj.row_count,
                                    sorted_strings(seq_of_strings(out@)),
                                    forall|s: Seq<char>|
                                        #[trigger] seq_of_strings(out@).contains(s) <==> (value_listed(db, i as int, tv, col, range, tg, s)
                                            || value_in_partition(p@, j as int, tv, col, range, tg, s)
                                            || value_in_column(p@, j as int, k as int, row as int, range, tg, s)),
                                decreases tj.row_count - row,
                            {
                                let ghost before = seq_of_strings(out@);
                                let tag = t.tag_at(k, row);
                                let m = p.row_is_selected(j, row, range, predicate);
                                if tag.is_some() && m {
                                    let v = tag.unwrap();
                                    assert(v < p@.dictionary.len()) by {
                                        assert(symbols_valid_cell(p@, j as int, k as int, row as int));
                                    }
                                    match p.dictionary().lookup_id(v) {
                                        Some(name) => {
                                            insert_sorted(&mut out, name);
                                        },
                                        None => {},
                                    }
                                }
                                proof {
                                    assert forall|s: Seq<char>|
                                        value_at(p@, j as int, k as int, row as int, range, tg, s) <==> (tag.is_some() && m
                                            && p@.dictionary[tag.unwrap() as int] == s) by {
                                        assert(cell_at(tj, k as int, row as int) == p@.tables[j as int].columns[k as int].cells[row as int]);
                                    }
                                    assert forall|s: Seq<char>|
                                        seq_of_strings(out@).contains(s) <==> (before.contains(s) || value_at(
                                            p@, j as int, k as int, row as int, range, tg, s,
                                        )) by {
                                        if tag.is_some() && m {
                                            assert(tag.unwrap() < p@.dictionary.len());
                                        }
                                    }
                                }
                                proof {
                                    assert forall|s: Seq<char>|
                                        value_in_column(p@, j as int, k as int, row + 1, range, tg, s) <==> (value_in_column(
                                            p@, j as int, k as int, row as int, range, tg, s,
                                        ) || value_at(p@, j as int, k as int, row as int, range, tg, s)) by {
                                        if value_in_column(p@, j as int, k as int, row + 1, range, tg, s) {
                                            let w = choose|w: int| 0 <= w < row + 1 && #[trigger] value_at(p@, j as int, k as int, w, range, tg, s);
                                            if w < row {
                                                assert(value_in_column(p@, j as int, k as int, row as int, range, tg, s));
                                            }
                                        }
                                        if value_in_column(p@, j as int, k as int, row as int, range, tg, s) {
                                            let w = choose|w: int| 0 <= w < row && #[trigger] value_at(p@, j as int, k as int, w, range, tg, s);
                                            assert(0 <= w < row + 1);
                                        }
                                    }
                                    assert forall|s: Seq<char>|
                                        #[trigger] seq_of_strings(out@).contains(s) <==> (value_listed(db, i as int, tv, col, range, tg, s)
                                            || value_in_partition(p@, j as int, tv, col, range, tg, s)
                                            || value_in_column(p@, j as int, k as int, row + 1, range, tg, s)) by {
                                        assert(before.contains(s) <==> (value_listed(db, i as int, tv, col, range, tg, s)
                                            || value_in_partition(p@, j as int, tv, col, range, tg, s)
                                            || value_in_column(p@, j as int, k as int, row as int, range, tg, s)));
                                    }
                                }
                                row = row + 1;
                            }
                            proof {
                                assert forall|s: Seq<char>|
                                    value_in_table(p@, j as int, tj.columns.len() as int, col, range, tg, s)
                                        <==> value_in_column(p@, j as int, k as int, tj.row_count as int, range, tg, s) by {
                                    if value_in_table(p@, j as int, tj.columns.len() as int, col, range, tg, s) {
                                        let w = choose|w: int|
                                            0 <= w < tj.columns.len() && p@.dictionary[tj.column_ids[w] as int] == col
                                                && #[trigger] value_in_column(p@, j as int, w, tj.row_count as int, range, tg, s);
                                        assert(tj.column_ids[w] == csym);
                                        assert(tj.column_ids.no_duplicates());
                                        assert(w == k);
                                    }
                                }
                                assert forall|k2: int| 0 <= k2 < tj.columns.len() && p@.dictionary[tj.column_ids[k2] as int] == col
                                    implies tj.columns[k2].kind == ColumnType::Tag by {
                                    assert(tj.column_ids[k2] == csym);
                                    assert(tj.column_ids.no_duplicates());
                                }
                            }
                        },
                    }
                }
                proof {
                    assert forall|s: Seq<char>|
                        value_in_partition(p@, j + 1, tv, col, range, tg, s) <==> (value_in_partition(p@, j as int, tv, col, range, tg, s)
                            || (selected && value_in_table(p@, j as int, tj.columns.len() as int, col, range, tg, s))) by {
                        if value_in_partition(p@, j + 1, tv, col, range, tg, s) {
                            let w = choose|w: int|
                                0 <= w < j + 1 && #[trigger] table_selected(p@, w, tv, range) && value_in_table(
                                    p@, w, p@.tables[w].columns.len() as int, col, range, tg, s,
                                );
                            if w < j {
                                assert(value_in_partition(p@, j as int, tv, col, range, tg, s));
                            }
                        }
                        if value_in_partition(p@, j as int, tv, col, range, tg, s) {
                            let w = choose|w: int|
                                0 <= w < j && #[trigger] table_selected(p@, w, tv, range) && value_in_table(
                                    p@, w, p@.tables[w].columns.len() as int, col, range, tg, s,
                                );
                            assert(0 <= w < j + 1);
                        }
                    }
                    if non_tag_column(p@, j + 1, tv, col, range) {
                        let (w, k2) = choose|w: int, k2: int|
                            0 <= w < j + 1 && 0 <= k2 < p@.tables[w].columns.len() && #[trigger] table_selected(p@, w, tv, range)
                                && p@.dictionary[p@.tables[w].column_ids[k2] as int] == col
                                && #[trigger] p@.tables[w].columns[k2].kind != ColumnType::Tag;
                        if w < j {
                            assert(non_tag_column(p@, j as int, tv, col, range));
                        }
                    }
                }
                j = j + 1;
            }
            proof {
                assert(!values_fail_in(db[i as int], tv, col, range));
                assert forall|s: Seq<char>|
                    value_listed(db, i + 1, tv, col, range, tg, s) <==> (value_listed(db, i as int, tv, col, range, tg, s)
                        || value_in_partition(db[i as int], db[i as int].tables.len() as int, tv, col, range, tg, s)) by {
                    if value_listed(db, i + 1, tv, col, range, tg, s) {
                        let w = choose|w: int|
                            0 <= w < i + 1 && #[trigger] value_in_partition(db[w], db[w].tables.len() as int, tv, col, range, tg, s);
                        if w < i {
                            assert(value_listed(db, i as int, tv, col, range, tg, s));
                        }
                    }
                    if value_listed(db, i as int, tv, col, range, tg, s) {
                        let w = choose|w: int|
                            0 <= w < i && #[trigger] value_in_partition(db[w], db[w].tables.len() as int, tv, col, range, tg, s);
                        assert(0 <= w < i + 1);
                    }
                }
            }
            i = i + 1;
        }
        proof {
            lemma_sorted_distinct(seq_of_strings(out@));
        }
        Ok(out)
    }
}

/// Every tag symbol stored in a well-formed partition has a dictionary
/// entry.
pub open spec fn symbols_valid_cell(p: PartitionView, j: int, k: int, r: int) -> bool {
    0 <= j < p.tables.len() && 0 <= k < p.tables[j].columns.len() && 0 <= r < p.tables[j].columns[k].cells.len()
        ==> cell_symbol_ok(p.tables[j].columns[k].cells[r], p.dictionary.len())
}

/// `n` extends `o`: the same partitions first, in order, with the same
/// keys, and dictionaries that only grew.
pub open spec fn db_extends(o: Seq<PartitionView>, n: Seq<PartitionView>) -> bool {
    &&& n.len() >= o.len()
    &&& forall|i: int| 0 <= i < o.len() ==> (#[trigger] n[i]).key == o[i].key && tables_extend(o[i], n[i])
}

/// A partition for `key` that holds nothing yet.
pub open spec fn new_partition(key: Seq<char>) -> PartitionView {
    PartitionView { key, dictionary: seq![time_name()], tables: Seq::<TableView>::empty() }
}

/// The database after applying entry `e` to the partition with its key,
/// created at the end if there is none; `None` if the entry is refused.
pub open spec fn entry_applied(db: Seq<PartitionView>, e: EntryModel) -> Option<Seq<PartitionView>> {
    if exists|i: int| 0 <= i < db.len() && (#[trigger] db[i]).key == e.partition_key {
        let i = choose|i: int| 0 <= i < db.len() && (#[trigger] db[i]).key == e.partition_key;
        match batches_applied(db[i], e.table_batches) {
            None => None,
            Some(q) => Some(db.update(i, q)),
        }
    } else {
        match batches_applied(new_partition(e.partition_key), e.table_batches) {
            None => None,
            Some(q) => Some(db.push(q)),
        }
    }
}

/// The database after applying entries one after another.
pub open spec fn entries_applied(db: Seq<PartitionView>, es: Seq<EntryModel>) -> Option<Seq<PartitionView>>
    decreases es.len(),
{
    if es.len() == 0 {
        Some(db)
    } else {
        match entries_applied(db, es.drop_last()) {
            None => None,
            Some(d) => entry_applied(d, es.last()),
        }
    }
}

/// The database after applying batches one after another, from empty.
pub open spec fn writes_applied(batches: Seq<Seq<EntryModel>>) -> Option<Seq<PartitionView>>
    decreases batches.len(),
{
    if batches.len() == 0 {
        Some(Seq::<PartitionView>::empty())
    } else {
        match writes_applied(batches.drop_last()) {
            None => None,
            Some(d) => entries_applied(d, batches.last()),
        }
    }
}

/// The database rebuilt from log frames: each decoded and applied in turn;
/// `None` if one does not decode or is refused.
pub open spec fn replayed(frames: Seq<Seq<u8>>) -> Option<Seq<PartitionView>>
    decreases frames.len(),
{
    if frames.len() == 0 {
        Some(Seq::<PartitionView>::empty())
    } else {
        match replayed(frames.drop_last()) {
            None => None,
            Some(d) => match decode_spec(frames.last()) {
                None => None,
                Some(b) => entries_applied(d, b),
            },
        }
    }
}

/// Once applying entries fails, applying more of them fails too.
pub proof fn lemma_entries_applied_none(db: Seq<PartitionView>, es: Seq<EntryModel>, i: int)
    requires
        0 <= i <= es.len(),
        entries_applied(db, es.take(i)) is None,
    ensures
        entries_applied(db, es) is None,
    decreases es.len() - i,
{
    if i < es.len() {
        assert(es.take(i + 1).drop_last() =~= es.take(i));
        lemma_entries_applied_none(db, es, i + 1);
    } else {
        assert(es.take(i) =~= es);
    }
}

/// Once replaying frames fails, replaying more of them fails too.
pub proof fn lemma_replayed_none(frames: Seq<Seq<u8>>, i: int)
    requires
        0 <= i <= frames.len(),
        replayed(frames.take(i)) is None,
    ensures
        replayed(frames) is None,
    decreases frames.len() - i,
{
    if i < frames.len() {
        assert(frames.take(i + 1).drop_last() =~= frames.take(i));
        lemma_replayed_none(frames, i + 1);
    } else {
        assert(frames.take(i) =~= frames);
    }
}

/// The contents of a list of frames.
pub open spec fn frames_view(frames: Seq<Vec<u8>>) -> Seq<Seq<u8>> {
    frames.map_values(|v: Vec<u8>| v@)
}

/// Replaying the frames of a sequence of writes rebuilds exactly the state
/// that the writes built.
pub proof fn lemma_replay_matches_writes(batches: Seq<Seq<EntryModel>>, frames: Seq<Seq<u8>>)
    requires
        frames.len() == batches.len(),
        forall|i: int| 0 <= i < frames.len() ==> decode_spec(#[trigger] frames[i]) == Some(batches[i]),
    ensures
        replayed(frames) == writes_applied(batches),
    decreases frames.len(),
{
    if frames.len() > 0 {
        let fd = frames.drop_last();
        let bd = batches.drop_last();
        assert forall|i: int| 0 <= i < fd.len() implies decode_spec(#[trigger] fd[i]) == Some(bd[i]) by {
            assert(fd[i] == frames[i]);
        }
        lemma_replay_matches_writes(bd, fd);
        assert(decode_spec(frames.last()) == Some(batches.last())) by {
            assert(frames.last() == frames[frames.len() - 1]);
        }
    }
}

/// Some partition of `db` has key `key` and a table named `table`.
pub open spec fn holds_table(db: Seq<PartitionView>, key: Seq<char>, table: Seq<char>) -> bool {
    exists|i: int| 0 <= i < db.len() && (#[trigger] db[i]).key == key && has_table_named(db[i], table)
}

/// Every non-empty table batch of `batch` has its table in the partition
/// with the entry's key.
pub open spec fn batch_held(db: Seq<PartitionView>, batch: Seq<EntryModel>, kmax: int) -> bool {
    forall|k: int, b: int|
        0 <= k < kmax && 0 <= b < batch[k].table_batches.len() && (#[trigger] batch[k].table_batches[b]).rows.len() > 0
            ==> holds_table(db, batch[k].partition_key, batch[k].table_batches[b].table)
}

/// One step of applying a batch keeps the database an extension of where
/// it started and keeps every table held so far.
proof fn lemma_extend_step(
    o: Seq<PartitionView>,
    before: Seq<PartitionView>,
    now: Seq<PartitionView>,
    batch: Seq<EntryModel>,
    k: int,
)
    requires
        db_wf(before),
        db_extends(o, before),
        db_extends(before, now),
        batch_held(before, batch, k),
    ensures
        db_extends(o, now),
        batch_held(now, batch, k),
{
    assert forall|i: int| 0 <= i < o.len() implies (#[trigger] now[i]).key == o[i].key && tables_extend(o[i], now[i]) by {
        assert(tables_extend(o[i], before[i]));
        assert(tables_extend(before[i], now[i]));
        crate::partition::lemma_tables_extend_trans(o[i], before[i], now[i]);
    }
    assert forall|k2: int, b: int|
        0 <= k2 < k && 0 <= b < batch[k2].table_batches.len() && (#[trigger] batch[k2].table_batches[b]).rows.len() > 0
        implies holds_table(now, batch[k2].partition_key, batch[k2].table_batches[b].table) by {
        lemma_held_persist(before, now, batch[k2].partition_key, batch[k2].table_batches[b].table);
    }
}

/// Tables held stay held as the database extends.
proof fn lemma_held_persist(o: Seq<PartitionView>, n: Seq<PartitionView>, key: Seq<char>, table: Seq<char>)
    requires
        db_wf(o),
        db_extends(o, n),
        holds_table(o, key, table),
    ensures
        holds_table(n, key, table),
{
    let i = choose|i: int| 0 <= i < o.len() && (#[trigger] o[i]).key == key && has_table_named(o[i], table);
    assert(partition_wf(o[i]));
    assert(tables_extend(o[i], n[i]));
    lemma_names_persist(o[i], n[i]);
    assert(has_table_named(n[i], table));
}

impl Db {
    /// Applies each entry of `batch`, in order, to the partition with the
    /// entry's key, creating that partition at the end if there is none.
    /// Stops at the first entry that fails.
    pub fn apply_batch(&mut self, batch: &WriteBufferBatch) -> (r: Result<(), Error>)
        requires
            old(self).wf(),
        ensures
            final(self).wf(),
            db_extends(old(self)@, final(self)@),
            final(self).spec_name() == old(self).spec_name(),
            r matches Err(e) ==> e is PartitionError,
            r is Ok ==> batch_held(final(self)@, batch@, batch@.len() as int),
            r is Ok ==> entries_applied(old(self)@, batch@) == Some(final(self)@),
            r is Err ==> entries_applied(old(self)@, batch@) is None,
    {
        let mut k: usize = 0;
        while k < batch.entries.len()
            invariant
                self.wf(),
                db_extends(old(self)@, self@),
                self.spec_name() == old(self).spec_name(),
                k <= batch.entries@.len(),
                batch_held(self@, batch@, k as int),
                entries_applied(old(self)@, batch@.take(k as int)) == Some(self@),
            decreases batch.entries.len() - k,
        {
            let entry = &batch.entries[k];
            let ghost before = self@;
            let mut j: usize = 0;
            let mut slot: Option<usize> = None;
            while j < self.partitions.len()
                invariant
                    before == self@,
                    j <= self@.len(),
                    slot matches Some(x) ==> x < self@.len() && self@[x as int].key == entry.partition_key@,
                    slot is None ==> forall|m: int| 0 <= m < j ==> self@[m].key != entry.partition_key@,
                decreases self.partitions.len() - j,
            {
                if slot.is_none() && self.partitions[j].should_write(entry.partition_key.as_str()) {
                    slot = Some(j);
                }
                j = j + 1;
            }
            let res = if let Some(i) = slot {
                assert(partition_wf(self@[i as int]));
                let res = self.partitions[i].write_entry(entry);
                proof {
                    assert(self@ =~= before.update(i as int, self.partitions@[i as int]@));
                    assert(self@[i as int].key == before[i as int].key);
                    assert forall|a: int, b: int| 0 <= a < self@.len() && 0 <= b < self@.len() && a != b
                        implies (#[trigger] self@[a]).key != (#[trigger] self@[b]).key by {
                        assert(self@[a].key == before[a].key);
                        assert(self@[b].key == before[b].key);
                    }
                    assert forall|m: int| 0 <= m < before.len() implies (#[trigger] self@[m]).key == before[m].key
                        && tables_extend(before[m], self@[m]) by {
                        if m == i as int {
                            assert(tables_extend(before[m], self@[m]));
                        } else {
                            assert(self@[m] == before[m]);
                            assert(before[m].dictionary.is_prefix_of(before[m].dictionary));
                        }
                    }
                    lemma_extend_step(old(self)@, before, self@, batch@, k as int);
                    if res is Ok {
                        assert forall|b: int|
                            0 <= b < batch@[k as int].table_batches.len() && (#[trigger] batch@[k as int].table_batches[b]).rows.len() > 0
                            implies holds_table(self@, batch@[k as int].partition_key, batch@[k as int].table_batches[b].table) by {
                            assert(entry.table_batches@[b]@ == batch@[k as int].table_batches[b]);
                            assert(has_table_named(self@[i as int], entry.table_batches@[b].table@));
                        }
                        let w = choose|w: int| 0 <= w < before.len() && (#[trigger] before[w]).key == entry@.partition_key;
                        assert(before[w].key == before[i as int].key);
                        assert(w == i as int);
                        assert(entry_applied(before, entry@) == Some(self@));
                    }
                }
                res
            } else {
                let mut p = Partition::new(entry.partition_key.as_str());
                let ghost pv0 = p@;
                proof {
                    assert(pv0.tables =~= Seq::<TableView>::empty());
                }
                let res = p.write_entry(entry);
                self.partitions.push(p);
                proof {
                    assert(self@ =~= before.push(p@));
                    assert forall|a: int, b: int| 0 <= a < self@.len() && 0 <= b < self@.len() && a != b
                        implies (#[trigger] self@[a]).key != (#[trigger] self@[b]).key by {
                        if a < before.len() {
                            assert(self@[a].key == before[a].key);
                        }
                        if b < before.len() {
                            assert(self@[b].key == before[b].key);
                        }
                    }
                    assert forall|m: int| 0 <= m < before.len() implies (#[trigger] self@[m]).key == before[m].key
                        && tables_extend(before[m], self@[m]) by {
                        assert(self@[m] == before[m]);
                        assert(before[m].dictionary.is_prefix_of(before[m].dictionary));
                    }
                    lemma_extend_step(old(self)@, before, self@, batch@, k as int);
                    if res is Ok {
                        assert(pv0 == new_partition(entry@.partition_key));
                        assert(entry_applied(before, entry@) == Some(self@));
                        let last = before.len() as int;
                        assert forall|b: int|
                            0 <= b < batch@[k as int].table_batches.len() && (#[trigger] batch@[k as int].table_batches[b]).rows.len() > 0
                            implies holds_table(self@, batch@[k as int].partition_key, batch@[k as int].table_batches[b].table) by {
                            assert(entry.table_batches@[b]@ == batch@[k as int].table_batches[b]);
                            assert(has_table_named(self@[last], entry.table_batches@[b].table@));
                        }
                    }
                }
                res
            };
            match res {
                Ok(()) => {},
                Err(e) => {
                    proof {
                        assert(entry_applied(before, entry@) is None) by {
                            if exists|w: int| 0 <= w < before.len() && (#[trigger] before[w]).key == entry@.partition_key {
                                let w = choose|w: int| 0 <= w < before.len() && (#[trigger] before[w]).key == entry@.partition_key;
                                assert(slot is Some);
                                let i = slot.unwrap();
                                assert(before[w].key == before[i as int].key);
                                assert(w == i as int);
                            }
                        }
                        assert(batch@.take(k + 1).drop_last() =~= batch@.take(k as int));
                        assert(batch@.take(k + 1).last() == entry@);
                        lemma_entries_applied_none(old(self)@, batch@, k + 1);
                    }
                    return Err(Error::PartitionError(e));
                },
            }
            proof {
                assert(batch@.take(k + 1).drop_last() =~= batch@.take(k as int));
                assert(batch@.take(k + 1).last() == entry@);
                assert forall|k2: int, b: int|
                    0 <= k2 < k + 1 && 0 <= b < batch@[k2].table_batches.len() && (#[trigger] batch@[k2].table_batches[b]).rows.len() > 0
                    implies holds_table(self@, batch@[k2].partition_key, batch@[k2].table_batches[b].table) by {
                    if k2 < k {
                        assert(batch_held(self@, batch@, k as int));
                    }
                }
            }
            k = k + 1;
        }
        proof {
            assert(batch@.take(batch.entries@.len() as int) =~= batch@);
        }
        Ok(())
    }

    #[verifier::rlimit(50)]
    /// Writes `lines`: groups them by partition key into one batch, applies
    /// the batch, and returns the batch's frame for the write-ahead log. A
    /// line without a timestamp fails the whole write before anything
    /// changes; a failing entry stops the write, and the entries before it
    /// stay applied.
    pub fn write_lines(&mut self, lines: &Vec<ParsedLine>) -> (r: Result<Vec<u8>, Error>)
        requires
            old(self).wf(),
        ensures
            final(self).wf(),
            db_extends(old(self)@, final(self)@),
            final(self).spec_name() == old(self).spec_name(),
            !all_timestamped(lines@) <==> r == Err::<Vec<u8>, Error>(Error::MissingTimestamp),
            !all_timestamped(lines@) ==> final(self)@ == old(self)@,
            r matches Ok(frame) ==> decode_spec(frame@) == Some(group_lines(lines@)),
            r is Ok ==> batch_held(final(self)@, group_lines(lines@), group_lines(lines@).len() as int),
            r is Ok ==> entries_applied(old(self)@, group_lines(lines@)) == Some(final(self)@),
            all_timestamped(lines@) ==> (r is Ok <==> entries_applied(old(self)@, group_lines(lines@)) is Some),
    {
        let mut i: usize = 0;
        while i < lines.len()
            invariant
                self.wf(),
                self@ == old(self)@,
                self.spec_name() == old(self).spec_name(),
                i <= lines@.len(),
                forall|k: int| 0 <= k < i ==> (#[trigger] lines@[k]).timestamp is Some,
            decreases lines.len() - i,
        {
            if lines[i].timestamp.is_none() {
                assert(lines@[i as int].timestamp is None);
                assert(!all_timestamped(lines@));
                return Err(Error::MissingTimestamp);
            }
            i = i + 1;
        }
        assert(all_timestamped(lines@));
        let batch = split_lines_into_write_entry_partitions(lines);
        let frame = encode_batch(&batch);
        match self.apply_batch(&batch) {
            Ok(()) => Ok(frame),
            Err(e) => {
                assert(e is PartitionError);
                Err(e)
            },
        }
    }

    /// A database rebuilt by replaying log frames, oldest first. Fails if a
    /// frame does not decode, or if applying one fails.
    pub fn restore_from_wal(name: &str, frames: &Vec<Vec<u8>>) -> (r: Result<Db, Error>)
        ensures
            r matches Ok(db) ==> db.wf() && db.spec_name() == name@ && forall|i: int|
                0 <= i < frames@.len() ==> decode_spec((#[trigger] frames@[i])@) is Some,
            (exists|i: int| 0 <= i < frames@.len() && decode_spec((#[trigger] frames@[i])@) is None) ==> r is Err,
            r matches Err(e) ==> e == Error::WalRecoverError || e is PartitionError,
            r matches Ok(db) ==> replayed(frames_view(frames@)) == Some(db@),
            r is Ok <==> replayed(frames_view(frames@)) is Some,
    {
        let mut db = Db::new(name);
        let mut i: usize = 0;
        proof {
            assert(frames_view(frames@).take(0) =~= Seq::<Seq<u8>>::empty());
        }
        while i < frames.len()
            invariant
                db.wf(),
                db.spec_name() == name@,
                i <= frames@.len(),
                forall|k: int| 0 <= k < i ==> decode_spec((#[trigger] frames@[k])@) is Some,
                replayed(frames_view(frames@).take(i as int)) == Some(db@),
            decreases frames.len() - i,
        {
            proof {
                let fv = frames_view(frames@);
                assert(fv.take(i + 1).drop_last() =~= fv.take(i as int));
                assert(fv.take(i + 1).last() == frames@[i as int]@);
            }
            let batch = match decode_batch(frames[i].as_slice()) {
                Some(b) => b,
                None => {
                    proof {
                        lemma_replayed_none(frames_view(frames@), i + 1);
                    }
                    return Err(Error::WalRecoverError);
                },
            };
            let ghost before = db@;
            match db.apply_batch(&batch) {
                Ok(()) => {},
                Err(e) => {
                    proof {
                        lemma_replayed_none(frames_view(frames@), i + 1);
                    }
                    return Err(e);
                },
            }
            i = i + 1;
        }
        proof {
            assert(frames_view(frames@).take(frames@.len() as int) =~= frames_view(frames@));
        }
        Ok(db)
    }
}

/// The projections, in partition order, of the table named `name` in the
/// partitions that have it.
pub open spec fn db_projections(db: Seq<PartitionView>, name: Seq<char>, cols: Seq<Seq<char>>) -> Seq<Seq<BatchColumnView>>
    decreases db.len(),
{
    if db.len() == 0 {
        Seq::<Seq<BatchColumnView>>::empty()
    } else {
        let prev = db_projections(db.drop_last(), name, cols);
        let p = db.last();
        if has_table_named(p, name) {
            prev.push(projection(p, p.tables[table_named(p, name)], cols).unwrap())
        } else {
            prev
        }
    }
}

/// Some partition has the table but not all the requested columns.
pub open spec fn projection_fails(db: Seq<PartitionView>, name: Seq<char>, cols: Seq<Seq<char>>) -> bool {
    exists|i: int|
        0 <= i < db.len() && has_table_named(#[trigger] db[i], name) && projection(
            db[i],
            db[i].tables[table_named(db[i], name)],
            cols,
        ) is None
}

/// No partition's dictionary holds `name`.
pub open spec fn name_unknown(db: Seq<PartitionView>, name: Seq<char>) -> bool {
    forall|i: int| 0 <= i < db.len() ==> !(#[trigger] db[i].dictionary).contains(name)
}

/// The contents of a list of record batches.
pub open spec fn batches_view(v: Seq<RecordBatch>) -> Seq<Seq<BatchColumnView>> {
    v.map_values(|b: RecordBatch| b@)
}

impl Db {
    /// One record batch per partition that has the table `table_name`,
    /// holding the columns named `columns` (all columns when empty). Fails
    /// if no partition knows the name, or if a partition's table lacks a
    /// requested column.
    #[verifier::loop_isolation(false)]
    pub fn table_to_batches(&self, table_name: &str, columns: &Vec<String>) -> (r: Result<Vec<RecordBatch>, Error>)
        requires
            self.wf(),
        ensures
            name_unknown(self@, table_name@) ==> r == Err::<Vec<RecordBatch>, Error>(Error::TableNameNotFoundInDictionary),
            !name_unknown(self@, table_name@) && projection_fails(self@, table_name@, seq_of_strings(columns@))
                ==> r == Err::<Vec<RecordBatch>, Error>(Error::MissingColumn),
            !name_unknown(self@, table_name@) && !projection_fails(self@, table_name@, seq_of_strings(columns@))
                ==> (r matches Ok(v) && batches_view(v@) == db_projections(self@, table_name@, seq_of_strings(columns@))),
    {
        let ghost db = self@;
        let ghost cols = seq_of_strings(columns@);
        let ghost name = table_name@;
        let mut out: Vec<RecordBatch> = Vec::new();
        let mut known = false;
        let mut i: usize = 0;
        assert(db.take(0) =~= Seq::<PartitionView>::empty());
        while i < self.partitions.len()
            invariant
                db == self@,
                db_wf(db),
                i <= db.len(),
                known == exists|k: int| 0 <= k < i && (#[trigger] db[k].dictionary).contains(name),
                forall|k: int|
                    0 <= k < i ==> !(has_table_named(#[trigger] db[k], name) && projection(
                        db[k],
                        db[k].tables[table_named(db[k], name)],
                        cols,
                    ) is None),
                batches_view(out@) == db_projections(db.take(i as int), name, cols),
            decreases self.partitions.len() - i,
        {
            let p = &self.partitions[i];
            assert(partition_wf(db[i as int]));
            if p.dictionary().lookup_value(table_name).is_some() {
                known = true;
            }
            let ghost before = out@;
            assert(db.take(i + 1).drop_last() =~= db.take(i as int));
            assert(db.take(i + 1).last() == db[i as int]);
            match p.table_to_batch(table_name, columns) {
                Ok(b) => {
                    out.push(b);
                    assert(batches_view(out@) =~= batches_view(before).push(out@.last()@));
                },
                Err(ProjectionError::TableNotFound) => {},
                Err(ProjectionError::MissingColumn) => {
                    proof {
                        if !has_table_named(db[i as int], name) {
                            assert(false);
                        }
                        let j = table_named(db[i as int], name);
                        assert(db[i as int].tables[j].id < db[i as int].dictionary.len());
                        assert(db[i as int].dictionary.contains(name));
                        assert(!name_unknown(db, name));
                        assert(projection_fails(db, name, cols));
                    }
                    return Err(Error::MissingColumn);
                },
            }
            proof {
                if has_table_named(db[i as int], name) {
                    let j = table_named(db[i as int], name);
                    assert(db[i as int].tables[j].id < db[i as int].dictionary.len());
                    assert(db[i as int].dictionary.contains(name));
                }
            }
            i = i + 1;
        }
        assert(db.take(db.len() as int) =~= db);
        if !known {
            proof {
                assert forall|k: int| 0 <= k < db.len() implies !(#[trigger] db[k].dictionary).contains(name) by {}
                assert(!projection_fails(db, name, cols));
            }
            return Err(Error::TableNameNotFoundInDictionary);
        }
        Ok(out)
    }
}

/// In a well-formed database every column of every table is exactly as
/// long as the table's row count.
pub proof fn lemma_columns_match_row_count(db: Seq<PartitionView>, i: int, j: int, k: int)
    requires
        db_wf(db),
        0 <= i < db.len(),
        0 <= j < db[i].tables.len(),
        0 <= k < db[i].tables[j].columns.len(),
    ensures
        db[i].tables[j].columns[k].cells.len() == db[i].tables[j].row_count,
{
    assert(partition_wf(db[i]));
    lemma_columns_same_length(db[i].tables[j], k);
}

/// In a well-formed database every symbol stored in a partition has an
/// entry in that partition's dictionary: the table's name, each column's
/// name, and each tag value.
pub proof fn lemma_symbols_resolve(db: Seq<PartitionView>, i: int, j: int, k: int, r: int)
    requires
        db_wf(db),
        0 <= i < db.len(),
        0 <= j < db[i].tables.len(),
        0 <= k < db[i].tables[j].columns.len(),
        0 <= r < db[i].tables[j].row_count,
    ensures
        db[i].tables[j].id < db[i].dictionary.len(),
        db[i].tables[j].column_ids[k] < db[i].dictionary.len(),
        match db[i].tables[j].columns[k].cells[r] {
            Some(Cell::Tag(v)) => v < db[i].dictionary.len(),
            _ => true,
        },
{
    assert(partition_wf(db[i]));
    let t = db[i].tables[j];
    assert(symbols_valid(t, db[i].dictionary.len()));
    lemma_columns_same_length(t, k);
    assert(cell_symbol_ok(t.columns[k].cells[r], db[i].dictionary.len()));
}

/// Without a range, the table names listed are exactly the names of the
/// tables, in any partition, that hold at least one row.
pub proof fn lemma_table_names_unfiltered(db: Seq<PartitionView>, s: Seq<char>)
    requires
        db_wf(db),
    ensures
        table_name_listed(db, db.len() as int, None, s) <==> exists|i: int, j: int|
            0 <= i < db.len() && 0 <= j < db[i].tables.len() && (#[trigger] db[i].tables[j]).row_count > 0
                && table_name(db[i], j) == s,
{
    if table_name_listed(db, db.len() as int, None, s) {
        let i = choose|i: int| 0 <= i < db.len() && #[trigger] name_in_partition(db[i], db[i].tables.len() as int, None, s);
        let j = choose|j: int|
            0 <= j < db[i].tables.len() && #[trigger] table_matches(db[i].tables[j], partition_predicate(None))
                && table_name(db[i], j) == s;
        assert(partition_wf(db[i]));
        assert(db[i].tables[j].row_count > 0);
    }
    if exists|i: int, j: int|
        0 <= i < db.len() && 0 <= j < db[i].tables.len() && (#[trigger] db[i].tables[j]).row_count > 0
            && table_name(db[i], j) == s {
        let (i, j) = choose|i: int, j: int|
            0 <= i < db.len() && 0 <= j < db[i].tables.len() && (#[trigger] db[i].tables[j]).row_count > 0
                && table_name(db[i], j) == s;
        assert(table_matches(db[i].tables[j], partition_predicate(None)));
        assert(name_in_partition(db[i], db[i].tables.len() as int, None, s));
    }
}

/// Row `row` of table `j` of partition `p` has, in the column named `time`,
/// a timestamp in `range`.
pub open spec fn row_time_in(p: PartitionView, j: int, row: int, range: TimestampRange) -> bool {
    exists|k: int|
        0 <= k < p.tables[j].column_ids.len() && p.dictionary[p.tables[j].column_ids[k] as int] == time_name()
            && #[trigger] time_in(p.tables[j].columns[k].cells[row], range)
}

/// With a range, a table's name is listed exactly when the table, in some
/// partition, has a row whose `time` column holds a timestamp in the range.
pub proof fn lemma_table_names_in_range(db: Seq<PartitionView>, range: TimestampRange, s: Seq<char>)
    requires
        db_wf(db),
    ensures
        table_name_listed(db, db.len() as int, Some(range), s) <==> exists|i: int, j: int, row: int|
            0 <= i < db.len() && 0 <= j < db[i].tables.len() && 0 <= row < db[i].tables[j].row_count
                && table_name(db[i], j) == s && #[trigger] row_time_in(db[i], j, row, range),
{
    let pred = TimestampPredicate { time_column_id: 0, range };
    assert forall|i: int, j: int, row: int|
        0 <= i < db.len() && 0 <= j < db[i].tables.len() implies (#[trigger] row_time_in(db[i], j, row, range)
            <==> row_in_range(db[i].tables[j], pred, row)) by {
        let p = db[i];
        let t = p.tables[j];
        assert(partition_wf(p));
        assert(symbols_valid(t, p.dictionary.len()));
        assert forall|k: int| 0 <= k < t.column_ids.len() implies (p.dictionary[t.column_ids[k] as int] == time_name()
            <==> t.column_ids[k] == 0) by {
            assert(t.column_ids[k] < p.dictionary.len());
            if p.dictionary[t.column_ids[k] as int] == time_name() && t.column_ids[k] != 0 {
                assert(p.dictionary[0] == time_name());
            }
        }
        if row_time_in(p, j, row, range) {
            let k = choose|k: int|
                0 <= k < t.column_ids.len() && p.dictionary[t.column_ids[k] as int] == time_name()
                    && #[trigger] time_in(t.columns[k].cells[row], range);
            assert(time_in(cell_at(t, k, row), pred.range));
        }
        if row_in_range(t, pred, row) {
            let k = choose|k: int|
                0 <= k < t.column_ids.len() && t.column_ids[k] == pred.time_column_id && time_in(
                    #[trigger] cell_at(t, k, row),
                    pred.range,
                );
            assert(time_in(t.columns[k].cells[row], range));
        }
    }
    if table_name_listed(db, db.len() as int, Some(range), s) {
        let i = choose|i: int| 0 <= i < db.len() && #[trigger] name_in_partition(db[i], db[i].tables.len() as int, Some(range), s);
        let j = choose|j: int|
            0 <= j < db[i].tables.len() && #[trigger] table_matches(db[i].tables[j], partition_predicate(Some(range)))
                && table_name(db[i], j) == s;
        assert(has_row_in_range(db[i].tables[j], pred));
        let row = choose|row: int| 0 <= row < db[i].tables[j].row_count && #[trigger] row_in_range(db[i].tables[j], pred, row);
        assert(row_time_in(db[i], j, row, range));
    }
    if exists|i: int, j: int, row: int|
        0 <= i < db.len() && 0 <= j < db[i].tables.len() && 0 <= row < db[i].tables[j].row_count
            && table_name(db[i], j) == s && #[trigger] row_time_in(db[i], j, row, range) {
        let (i, j, row) = choose|i: int, j: int, row: int|
            0 <= i < db.len() && 0 <= j < db[i].tables.len() && 0 <= row < db[i].tables[j].row_count
                && table_name(db[i], j) == s && #[trigger] row_time_in(db[i], j, row, range);
        assert(row_in_range(db[i].tables[j], pred, row));
        assert(has_row_in_range(db[i].tables[j], pred));
        assert(table_matches(db[i].tables[j], partition_predicate(Some(range))));
        assert(name_in_partition(db[i], db[i].tables.len() as int, Some(range), s));
    }
}

} // verus!
