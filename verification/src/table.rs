//! The three-column table that the MVCC protocol keeps its records in.

use vstd::prelude::*;

use crate::cell::{Column, Key, KeyView, Value, ValueView};
use crate::versions::{earliest_pointer, is_latest, latest, VersionMap, Versions};

verus! {

/// The mathematical value of a [`KvTable`]: the cells of each column.
#[verifier::ext_equal]
pub struct TableView {
    pub write: Versions,
    pub data: Versions,
    pub lock: Versions,
}

impl TableView {
    pub open spec fn empty() -> TableView {
        TableView { write: Map::empty(), data: Map::empty(), lock: Map::empty() }
    }

    pub open spec fn column(self, column: Column) -> Versions {
        match column {
            Column::Write => self.write,
            Column::Data => self.data,
            Column::Lock => self.lock,
        }
    }

    pub open spec fn with_column(self, column: Column, cells: Versions) -> TableView {
        match column {
            Column::Write => TableView { write: cells, ..self },
            Column::Data => TableView { data: cells, ..self },
            Column::Lock => TableView { lock: cells, ..self },
        }
    }
}

/// In-memory stand-in for Google Bigtable used by Percolator's MVCC protocol.
pub struct KvTable {
    write: VersionMap,
    data: VersionMap,
    lock: VersionMap,
}

impl View for KvTable {
    type V = TableView;

    closed spec fn view(&self) -> TableView {
        TableView { write: self.write@, data: self.data@, lock: self.lock@ }
    }
}

impl KvTable {
    /// The latest version of `key` in `column` with a timestamp in the inclusive range;
    /// a bound that is `None` leaves its side open.
    pub fn read(
        &self,
        key: Vec<u8>,
        column: Column,
        ts_start_inclusive: Option<u64>,
        ts_end_inclusive: Option<u64>,
    ) -> (found: Option<(&Key, &Value)>)
        requires
            range_start(ts_start_inclusive) <= range_end(ts_end_inclusive),
        ensures
            ({
                let cells = self@.column(column);
                let lo = range_start(ts_start_inclusive);
                let hi = range_end(ts_end_inclusive);
                match found {
                    Some((k, v)) => {
                        &&& k@.0 == key@
                        &&& latest(cells, key@, lo, hi) == Some(k@.1)
                        &&& is_latest(cells, key@, lo, hi, k@.1)
                        &&& cells[(key@, k@.1)] == v@
                    },
                    None => {
                        &&& latest(cells, key@, lo, hi) is None
                        &&& forall|t: u64| lo <= t <= hi ==> !#[trigger] cells.contains_key((key@, t))
                    },
                }
            }),
    {
        let map = match column {
            Column::Write => &self.write,
            Column::Data => &self.data,
            Column::Lock => &self.lock,
        };
        let ts_start: u64 = ts_start_inclusive.unwrap_or(0);
        let ts_end: u64 = ts_end_inclusive.unwrap_or(u64::MAX);
        map.latest_between(&key, ts_start, ts_end)
    }

    /// Sets the cell of `key` in `column` at `ts`.
    pub fn write(&mut self, key: Vec<u8>, column: Column, ts: u64, value: Value)
        ensures
            final(self)@ == old(self)@.with_column(
                column,
                old(self)@.column(column).insert((key@, ts), value@),
            ),
    {
        match column {
            Column::Write => self.write.insert(key, ts, value),
            Column::Data => self.data.insert(key, ts, value),
            Column::Lock => self.lock.insert(key, ts, value),
        }
    }

    /// Drops the cell of `key` in `column` at `ts`, if there is one.
    pub fn erase(&mut self, key: Vec<u8>, column: Column, ts: u64)
        ensures
            final(self)@ == old(self)@.with_column(
                column,
                old(self)@.column(column).remove((key@, ts)),
            ),
    {
        match column {
            Column::Write => self.write.remove(&key, ts),
            Column::Data => self.data.remove(&key, ts),
            Column::Lock => self.lock.remove(&key, ts),
        }
    }

    /// The least timestamp at which `key` has a commit record for the data at `data_ts`.
    pub fn find_write_commit_ts(&self, key: &[u8], data_ts: u64) -> (commit_ts: Option<u64>)
        ensures
            commit_ts == earliest_pointer(self@.write, key@, data_ts),
    {
        self.write.first_pointer(key, data_ts)
    }
}

/// The lower end of a range of timestamps.
pub open spec fn range_start(bound: Option<u64>) -> u64 {
    match bound {
        Some(ts) => ts,
        None => 0,
    }
}

/// The upper end of a range of timestamps.
pub open spec fn range_end(bound: Option<u64>) -> u64 {
    match bound {
        Some(ts) => ts,
        None => u64::MAX,
    }
}

impl Default for KvTable {
    fn default() -> (table: KvTable)
        ensures
            table@ == TableView::empty(),
            table@.write == Map::<KeyView, ValueView>::empty(),
            table@.data == Map::<KeyView, ValueView>::empty(),
            table@.lock == Map::<KeyView, ValueView>::empty(),
    {
        KvTable { write: VersionMap::new(), data: VersionMap::new(), lock: VersionMap::new() }
    }
}

impl Clone for KvTable {
    fn clone(&self) -> (copy: KvTable)
        ensures
            copy@ == self@,
    {
        KvTable { write: self.write.clone(), data: self.data.clone(), lock: self.lock.clone() }
    }
}

} // verus!
