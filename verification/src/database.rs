//! The time-series store: a verified decision layer over per-table,
//! append-only log files.
//!
//! The `Database` owns, per [`Table`], the cached last-written record that
//! drives deduplication. It performs no file I/O itself: the caller asks it
//! what to do ([`Database::store`]), hands it the lines of an existing log
//! file on the first touch of a table ([`Database::attach`]), and appends the
//! byte chunks it returns to the table's log file.

use vstd::prelude::*;
use crate::codec;
use crate::codec::{enc_row, spec_header, spec_recover_rows};
use crate::records::{ObsView, Record, Table, TableView};

verus! {

/// Why an operation of the store failed.
#[derive(Clone, Copy, Debug, Eq, PartialEq, Structural)]
pub enum DatabaseError {
    /// The root path given to `open` does not name an existing directory.
    NotADirectory,
    /// A data row of an existing log file does not consist of exactly two
    /// comma-separated fields; the on-disk history is corrupt or written in
    /// an incompatible format.
    MalformedLog,
}

impl DatabaseError {
    /// A short description of the error.
    pub fn message(&self) -> (m: String)
        ensures
            *self == DatabaseError::NotADirectory ==> m@ == "not a directory"@,
            *self == DatabaseError::MalformedLog ==> m@ == "malformed log row"@,
    {
        match self {
            DatabaseError::NotADirectory => String::from_str("not a directory"),
            DatabaseError::MalformedLog => String::from_str("malformed log row"),
        }
    }
}

/// What the caller must do to complete one `store` call.
#[derive(Debug, Eq, PartialEq)]
pub enum StoreStep {
    /// The table has no handle yet: read its log file (creating it and its
    /// parent directories if absent), call [`Database::attach`] with the
    /// file's lines, then call [`Database::store`] again.
    NeedsRecovery,
    /// The record equals the last one written: append nothing.
    Skip,
    /// Append exactly these bytes to the table's log file and flush them.
    Append(String),
}

struct Entry {
    table: Table,
    last: Option<Record>,
}

spec fn entry_view(e: Entry) -> Option<ObsView> {
    match e.last {
        Some(r) => Some(r@),
        None => None,
    }
}

spec fn entries_map(s: Seq<Entry>) -> Map<TableView, Option<ObsView>>
    decreases s.len(),
{
    if s.len() == 0 {
        Map::empty()
    } else {
        entries_map(s.drop_last()).insert(s.last().table@, entry_view(s.last()))
    }
}

spec fn distinct_keys(s: Seq<Entry>) -> bool {
    forall|i: int, j: int| 0 <= i < j < s.len() ==> s[i].table@ != s[j].table@
}

proof fn lemma_entries_map_domain(s: Seq<Entry>, t: TableView)
    ensures
        entries_map(s).contains_key(t) <==> exists|i: int|
            0 <= i < s.len() && s[i].table@ == t,
    decreases s.len(),
{
    if s.len() > 0 {
        lemma_entries_map_domain(s.drop_last(), t);
        if entries_map(s).contains_key(t) {
            if s.last().table@ == t {
                assert(s[s.len() - 1].table@ == t);
            } else {
                let i = choose|i: int| 0 <= i < s.drop_last().len() && s.drop_last()[i].table@
                    == t;
                assert(s[i].table@ == t);
            }
        }
        if exists|i: int| 0 <= i < s.len() && s[i].table@ == t {
            let i = choose|i: int| 0 <= i < s.len() && s[i].table@ == t;
            if i < s.len() - 1 {
                assert(s.drop_last()[i].table@ == t);
            }
        }
    }
}

proof fn lemma_entries_map_index(s: Seq<Entry>, i: int)
    requires
        distinct_keys(s),
        0 <= i < s.len(),
    ensures
        entries_map(s).contains_key(s[i].table@),
        entries_map(s)[s[i].table@] == entry_view(s[i]),
    decreases s.len(),
{
    if i < s.len() - 1 {
        assert(distinct_keys(s.drop_last())) by {
            assert(forall|a: int, b: int| 0 <= a < b < s.drop_last().len() ==> s.drop_last()[a]
                == s[a] && s.drop_last()[b] == s[b]);
        }
        assert(s.drop_last()[i] == s[i]);
        lemma_entries_map_index(s.drop_last(), i);
        assert(s[i].table@ != s.last().table@);
    }
}

proof fn lemma_entries_map_push(s: Seq<Entry>, e: Entry)
    ensures
        entries_map(s.push(e)) == entries_map(s).insert(e.table@, entry_view(e)),
{
    assert(s.push(e).drop_last() =~= s);
    assert(s.push(e).last() == e);
}

proof fn lemma_entries_map_update(s: Seq<Entry>, i: int, e: Entry)
    requires
        distinct_keys(s),
        0 <= i < s.len(),
        e.table@ == s[i].table@,
    ensures
        distinct_keys(s.update(i, e)),
        entries_map(s.update(i, e)) == entries_map(s).insert(e.table@, entry_view(e)),
    decreases s.len(),
{
    let s2 = s.update(i, e);
    assert(forall|k: int| 0 <= k < s.len() ==> s2[k].table@ == s[k].table@);
    assert(distinct_keys(s2));
    if i == s.len() - 1 {
        assert(s2.drop_last() =~= s.drop_last());
        assert(s2.last() == e);
        assert(entries_map(s.update(i, e)) =~= entries_map(s).insert(e.table@, entry_view(e)));
    } else {
        assert(distinct_keys(s.drop_last())) by {
            assert(forall|a: int, b: int| 0 <= a < b < s.drop_last().len() ==> s.drop_last()[a]
                == s[a] && s.drop_last()[b] == s[b]);
        }
        assert(s.drop_last()[i] == s[i]);
        lemma_entries_map_update(s.drop_last(), i, e);
        assert(s2.drop_last() =~= s.drop_last().update(i, e));
        assert(s2.last() == s.last());
        // the two inserts commute: the updated key differs from the last key
        assert(s[i].table@ != s.last().table@);
        assert(entries_map(s2) =~= entries_map(s).insert(e.table@, entry_view(e)));
    }
}

proof fn lemma_entries_map_remove(s: Seq<Entry>, i: int)
    requires
        distinct_keys(s),
        0 <= i < s.len(),
    ensures
        distinct_keys(s.remove(i)),
        entries_map(s.remove(i)) == entries_map(s).remove(s[i].table@),
    decreases s.len(),
{
    let s2 = s.remove(i);
    assert(forall|k: int| 0 <= k < i ==> s2[k] == s[k]);
    assert(forall|k: int| i <= k < s2.len() ==> s2[k] == s[k + 1]);
    assert(distinct_keys(s2)) by {
        assert forall|a: int, b: int| 0 <= a < b < s2.len() implies s2[a].table@ != s2[b].table@
        by {
            let a0: int = if a < i { a } else { a + 1 };
            let b0: int = if b < i { b } else { b + 1 };
            assert(s2[a] == s[a0] && s2[b] == s[b0]);
        }
    }
    if i == s.len() - 1 {
        assert(s2 =~= s.drop_last());
        assert(!entries_map(s.drop_last()).contains_key(s[i].table@)) by {
            lemma_entries_map_domain(s.drop_last(), s[i].table@);
            assert(forall|k: int| 0 <= k < s.drop_last().len() ==> s.drop_last()[k] == s[k]);
        }
        assert(entries_map(s.remove(i)) =~= entries_map(s).remove(s[i].table@));
    } else {
        assert(distinct_keys(s.drop_last())) by {
            assert(forall|a: int, b: int| 0 <= a < b < s.drop_last().len() ==> s.drop_last()[a]
                == s[a] && s.drop_last()[b] == s[b]);
        }
        assert(s.drop_last()[i] == s[i]);
        lemma_entries_map_remove(s.drop_last(), i);
        assert(s2.drop_last() =~= s.drop_last().remove(i));
        assert(s2.last() == s.last());
        assert(s[i].table@ != s.last().table@);
        assert(entries_map(s2) =~= entries_map(s).remove(s[i].table@));
    }
}

/// The view of one sequence of file lines as character sequences.
pub open spec fn lines_view(lines: Seq<String>) -> Seq<Seq<char>> {
    lines.map_values(|l: String| l@)
}

/// The data rows of a log file: every line after the header row.
pub open spec fn rows_view(lines: Seq<String>) -> Seq<Seq<char>> {
    lines_view(lines).skip(1)
}

/// The view of an optional record.
pub open spec fn opt_view(o: Option<Record>) -> Option<ObsView> {
    match o {
        Some(r) => Some(r@),
        None => None,
    }
}

/// Whether a `store` call appends a data row: it does exactly when the
/// record differs from the cached last-written record (field-wise).
pub open spec fn spec_store_emits(last: Option<ObsView>, o: ObsView) -> bool {
    last != Some(o)
}

/// The cached last-written record after a `store` call: the stored record,
/// whether or not a row was appended.
pub open spec fn spec_store_next(last: Option<ObsView>, o: ObsView) -> Option<ObsView> {
    Some(o)
}

/// Reads the cached last record back out of an existing log file's lines:
/// the first line is the header and is never parsed; each later line must be
/// a well-formed data row; the last data row wins.
pub fn recover_last(lines: &Vec<String>) -> (r: Result<Option<Record>, DatabaseError>)
    requires
        lines@.len() >= 1,
    ensures
        match r {
            Ok(opt) => spec_recover_rows(rows_view(lines@)) == Some(opt_view(opt)),
            Err(e) => e == DatabaseError::MalformedLog && spec_recover_rows(rows_view(lines@))
                is None,
        },
{
    let ghost rows = rows_view(lines@);
    let mut last: Option<Record> = None;
    let mut n: usize = 1;
    proof {
        assert(rows.take(0) =~= Seq::<Seq<char>>::empty());
    }
    while n < lines.len()
        invariant
            1 <= n <= lines@.len(),
            rows == rows_view(lines@),
            rows.len() == lines@.len() - 1,
            spec_recover_rows(rows.take(n - 1)) == Some(opt_view(last)),
        decreases lines@.len() - n,
    {
        proof {
            assert(rows[n - 1] == lines@[n as int]@);
        }
        match codec::parse_line(lines[n].as_str()) {
            Some(rec) => {
                proof {
                    assert(rows.take(n as int).drop_last() =~= rows.take(n - 1));
                    assert(rows.take(n as int).last() == rows[n - 1]);
                }
                last = Some(rec);
            },
            None => {
                proof {
                    codec::lemma_recover_rows_malformed(rows, n - 1);
                }
                return Err(DatabaseError::MalformedLog);
            },
        }
        n += 1;
    }
    proof {
        assert(rows.take(lines@.len() - 1) =~= rows);
    }
    Ok(last)
}

/// The store: a root directory and, per table, the cached last-written
/// record of its log file.
pub struct Database {
    root: String,
    entries: Vec<Entry>,
}

impl View for Database {
    type V = Map<TableView, Option<ObsView>>;

    /// The model of the store: which tables have a live handle, and the
    /// cached last-written record of each.
    closed spec fn view(&self) -> Map<TableView, Option<ObsView>> {
        entries_map(self.entries@)
    }
}

impl Database {
    /// Internal consistency: at most one handle per table.
    pub closed spec fn wf(&self) -> bool {
        distinct_keys(self.entries@)
    }

    /// The root directory the store was opened on.
    pub closed spec fn root_view(&self) -> Seq<char> {
        self.root@
    }

    /// Opens a store over `root`. The caller reports whether `root` names an
    /// existing directory; the store does not create it, and refuses to open
    /// anything else.
    pub fn open(root: String, root_is_directory: bool) -> (r: Result<Database, DatabaseError>)
        ensures
            match r {
                Ok(db) => root_is_directory && db.wf() && db@ =~= Map::<
                    TableView,
                    Option<ObsView>,
                >::empty() && db.root_view() == root@,
                Err(e) => !root_is_directory && e == DatabaseError::NotADirectory,
            },
    {
        if root_is_directory {
            Ok(Database { root, entries: Vec::new() })
        } else {
            Err(DatabaseError::NotADirectory)
        }
    }

    fn find_index(&self, table: &Table) -> (r: Option<usize>)
        ensures
            match r {
                Some(i) => i < self.entries@.len() && self.entries@[i as int].table@ == table@,
                None => forall|k: int|
                    0 <= k < self.entries@.len() ==> self.entries@[k].table@ != table@,
            },
    {
        let mut i: usize = 0;
        while i < self.entries.len()
            invariant
                i <= self.entries@.len(),
                forall|k: int| 0 <= k < i ==> self.entries@[k].table@ != table@,
            decreases self.entries@.len() - i,
        {
            if self.entries[i].table.same_key(table) {
                return Some(i);
            }
            i += 1;
        }
        None
    }

    /// Whether the table already has a live handle (a cached last record).
    pub fn is_attached(&self, table: &Table) -> (r: bool)
        ensures
            r == self@.contains_key(table@),
    {
        let r = self.find_index(table);
        proof {
            lemma_entries_map_domain(self.entries@, table@);
        }
        r.is_some()
    }

    /// The path of the table's log file: `<root>/<charge_point>/<property>`.
    pub fn file_path(&self, table: &Table) -> (p: String)
        ensures
            p@ == self.root_view() + seq!['/'] + table@.charge_point + seq!['/']
                + table@.property,
    {
        let mut p = self.root.clone();
        p.append("/");
        let rel = table.path();
        p.append(rel.as_str());
        proof {
            reveal_strlit("/");
            assert(p@ =~= self.root_view() + seq!['/'] + table@.charge_point + seq!['/']
                + table@.property);
        }
        p
    }

    /// Gives the table a handle, recovering the cached last record from its
    /// existing log file's `lines` (read by the caller; empty when the file
    /// was just created). When the file is empty, the returned chunk is the
    /// header row, which the caller must append before any data row.
    ///
    /// On a malformed log the store is left unchanged: no handle is kept, so
    /// a later retry re-attempts the full recovery.
    pub fn attach(&mut self, table: Table, lines: Vec<String>) -> (r: Result<
        Option<String>,
        DatabaseError,
    >)
        requires
            old(self).wf(),
            !old(self)@.contains_key(table@),
        ensures
            final(self).wf(),
            final(self).root_view() == old(self).root_view(),
            match r {
                Ok(Some(h)) => lines@.len() == 0 && h@ == spec_header() + seq!['\n']
                    && final(self)@ == old(self)@.insert(table@, None::<ObsView>),
                Ok(None) => lines@.len() >= 1 && spec_recover_rows(rows_view(lines@)) == Some(
                    final(self)@[table@],
                ) && final(self)@ == old(self)@.insert(table@, final(self)@[table@]),
                Err(e) => lines@.len() >= 1 && e == DatabaseError::MalformedLog
                    && spec_recover_rows(rows_view(lines@)) is None
                    && final(self)@ == old(self)@,
            },
    {
        proof {
            lemma_entries_map_domain(self.entries@, table@);
        }
        if lines.len() == 0 {
            let ghost entries0 = self.entries@;
            let entry = Entry { table, last: None };
            proof {
                lemma_entries_map_push(entries0, entry);
            }
            self.entries.push(entry);
            let mut h = codec::header_line();
            h.append("\n");
            proof {
                reveal_strlit("\n");
                assert(h@ =~= spec_header() + seq!['\n']);
                assert(distinct_keys(self.entries@)) by {
                    assert(forall|k: int| 0 <= k < entries0.len() ==> self.entries@[k]
                        == entries0[k]);
                }
            }
            Ok(Some(h))
        } else {
            match recover_last(&lines) {
                Ok(opt) => {
                    let ghost entries0 = self.entries@;
                    let entry = Entry { table, last: opt };
                    proof {
                        lemma_entries_map_push(entries0, entry);
                        assert(entry_view(entry) == opt_view(opt));
                    }
                    self.entries.push(entry);
                    proof {
                        assert(distinct_keys(self.entries@)) by {
                            assert(forall|k: int| 0 <= k < entries0.len() ==> self.entries@[k]
                                == entries0[k]);
                        }
                        assert(self@[table@] == opt_view(opt));
                    }
                    Ok(None)
                },
                Err(e) => Err(e),
            }
        }
    }

    /// One `store` call: decides, from the cached last record, whether the
    /// record must be appended to the table's log file, and what exactly.
    /// The returned [`StoreStep`] tells the caller what remains to be done;
    /// the cached last record is advanced as if the append succeeds. If the
    /// caller's append then fails, it must call [`Database::discard`].
    pub fn store(&mut self, table: &Table, record: Record) -> (step: StoreStep)
        requires
            old(self).wf(),
        ensures
            final(self).wf(),
            final(self).root_view() == old(self).root_view(),
            match step {
                StoreStep::NeedsRecovery => !old(self)@.contains_key(table@) && final(self)@
                    == old(self)@,
                StoreStep::Skip => {
                    &&& old(self)@.contains_key(table@)
                    &&& !spec_store_emits(old(self)@[table@], record@)
                    &&& final(self)@ == old(self)@
                    &&& final(self)@[table@] == spec_store_next(old(self)@[table@], record@)
                },
                StoreStep::Append(chunk) => {
                    &&& old(self)@.contains_key(table@)
                    &&& spec_store_emits(old(self)@[table@], record@)
                    &&& chunk@ == enc_row(record@) + seq!['\n']
                    &&& final(self)@ == old(self)@.insert(
                        table@,
                        spec_store_next(old(self)@[table@], record@),
                    )
                },
            },
    {
        proof {
            lemma_entries_map_domain(self.entries@, table@);
        }
        match self.find_index(table) {
            None => StoreStep::NeedsRecovery,
            Some(i) => {
                proof {
                    lemma_entries_map_index(self.entries@, i as int);
                }
                let duplicate = match &self.entries[i].last {
                    Some(last) => record.same_record(last),
                    None => false,
                };
                if duplicate {
                    StoreStep::Skip
                } else {
                    let mut chunk = codec::encode_row(&record);
                    chunk.append("\n");
                    proof {
                        reveal_strlit("\n");
                        assert(chunk@ =~= enc_row(record@) + seq!['\n']);
                    }
                    let ghost entries0 = self.entries@;
                    let entry = Entry { table: table.clone(), last: Some(record) };
                    proof {
                        lemma_entries_map_update(entries0, i as int, entry);
                    }
                    self.entries[i] = entry;
                    StoreStep::Append(chunk)
                }
            },
        }
    }

    /// Drops the table's handle, so that the next `store` call for it
    /// re-attempts full recovery. For use after a failed append, whose
    /// outcome on disk the caller cannot know.
    pub fn discard(&mut self, table: &Table)
        requires
            old(self).wf(),
        ensures
            final(self).wf(),
            final(self).root_view() == old(self).root_view(),
            final(self)@ == old(self)@.remove(table@),
    {
        match self.find_index(table) {
            None => {
                proof {
                    lemma_entries_map_domain(self.entries@, table@);
                    assert(self@ =~= self@.remove(table@));
                }
            },
            Some(i) => {
                proof {
                    lemma_entries_map_remove(self.entries@, i as int);
                }
                self.entries.remove(i);
            },
        }
    }
}

} // verus!
