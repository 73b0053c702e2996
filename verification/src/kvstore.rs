//! The key-value engine.
//!
//! The engine owns the key index, the buffer pool, the write-ahead log and
//! the page-id allocator, and enforces the write-ahead rule: a mutation is
//! durable in the log before the index or the pool show it.
//!
//! The engine does no input or output. Each operation returns an `Action`:
//! either the operation is `Done`, or the caller has to perform one device
//! operation and hand its result to `resume` as an `Event`. The engine runs
//! one operation at a time.

use vstd::prelude::*;
use vstd::slice::slice_to_vec;
use vstd::utf8::{decode_utf8, encode_utf8, valid_utf8};
use dashmap::DashMap;
use crate::buffer_pool::{Admission, BufferPool, Placement, PoolState};
use crate::error::{Fault, IronCladError};
use crate::index::{
    index_entries, index_get, index_insert, index_keys, index_len, index_new, index_remove,
    lists_keys,
};
use crate::log_format::{encode_record, record_line};
use crate::page::{
    check_fits, decode_fault, decode_page, encode_page, fits, page_key, page_value, record_page,
    size_fault, valid_record, zero_page, zeros, PAGE_SIZE,
};
use crate::text::{string_from_utf8, text_of, utf8_fault_text};
use crate::wal::{records_of, replayed, LogRecord, LogState, WalEntry, WAL, WAL_BACKOFF_MS, WAL_RETRIES};

verus! {

// ---------------------------------------------------------------------------
// What the engine and its caller tell each other
// ---------------------------------------------------------------------------

/// How an operation ended.
#[derive(Debug)]
pub enum Outcome {
    /// `set`: the key has the value.
    Stored,
    /// `get`: the value of the key, if it has one.
    Value(Option<String>),
    /// `delete`: whether the key was there.
    Deleted(bool),
    /// `scan`: the keys with their values.
    Entries(Vec<(String, String)>),
    /// `flush`: every page that was dirty has reached the page store.
    Flushed,
    /// `checkpoint`: the page store is up to date and the log is empty.
    Checkpointed,
    /// `recover`: the number of log records that were replayed.
    Recovered(usize),
    /// The operation failed.
    Failed(IronCladError),
}

/// What the caller has to do next.
#[derive(Debug)]
pub enum Action {
    /// Wait `delay_ms` milliseconds, then append `line` to the log as one
    /// block. Answer with `Event::LogAppended`.
    AppendLog { line: Vec<u8>, delay_ms: u64 },
    /// Read the whole log. Answer with `Event::LogRead`.
    ReadLog,
    /// Delete the log and create it anew, empty. Answer with `Event::LogReset`.
    ResetLog,
    /// Read page `page_id` from the page store. Answer with `Event::PageRead`.
    ReadPage { page_id: u64 },
    /// Write `data` as page `page_id` of the page store. Answer with
    /// `Event::PageWritten`.
    WritePage { page_id: u64, data: Vec<u8> },
    /// Make every page written so far durable. Answer with
    /// `Event::StoreFlushed`.
    FlushStore,
    /// Nothing: the operation has ended.
    Done(Outcome),
}

/// The result of the device operation that the engine asked for.
#[derive(Debug)]
pub enum Event {
    LogAppended(Result<(), IronCladError>),
    LogRead(Result<Vec<u8>, IronCladError>),
    LogReset(Result<(), IronCladError>),
    PageRead(Result<Vec<u8>, IronCladError>),
    PageWritten(Result<(), IronCladError>),
    StoreFlushed(Result<(), IronCladError>),
}

/// The abstract value of an `Outcome`.
pub enum Reply {
    Stored,
    Value(Option<Seq<char>>),
    Deleted(bool),
    Entries(Seq<(Seq<char>, Seq<char>)>),
    Flushed,
    Checkpointed,
    Recovered(nat),
    Failed(Fault),
}

/// The abstract value of an `Action`.
pub enum Demand {
    AppendLog { line: Seq<u8>, delay_ms: u64 },
    ReadLog,
    ResetLog,
    ReadPage { page_id: u64 },
    WritePage { page_id: u64, data: Seq<u8> },
    FlushStore,
    Done(Reply),
}

/// The abstract value of an `Event`.
pub enum Signal {
    LogAppended(Result<(), Fault>),
    LogRead(Result<Seq<u8>, Fault>),
    LogReset(Result<(), Fault>),
    PageRead(Result<Seq<u8>, Fault>),
    PageWritten(Result<(), Fault>),
    StoreFlushed(Result<(), Fault>),
}

/// The abstract value of a device result without content.
pub open spec fn plain_result(r: Result<(), IronCladError>) -> Result<(), Fault> {
    match r {
        Ok(()) => Ok(()),
        Err(e) => Err(e@),
    }
}

/// The abstract value of a device result that carries bytes.
pub open spec fn bytes_result(r: Result<Vec<u8>, IronCladError>) -> Result<Seq<u8>, Fault> {
    match r {
        Ok(bytes) => Ok(bytes@),
        Err(e) => Err(e@),
    }
}

impl View for Outcome {
    type V = Reply;

    open spec fn view(&self) -> Reply {
        match self {
            Outcome::Stored => Reply::Stored,
            Outcome::Value(Some(text)) => Reply::Value(Some(text@)),
            Outcome::Value(None) => Reply::Value(None),
            Outcome::Deleted(found) => Reply::Deleted(*found),
            Outcome::Entries(pairs) => Reply::Entries(pairs.deep_view()),
            Outcome::Flushed => Reply::Flushed,
            Outcome::Checkpointed => Reply::Checkpointed,
            Outcome::Recovered(count) => Reply::Recovered(*count as nat),
            Outcome::Failed(e) => Reply::Failed(e@),
        }
    }
}

impl View for Action {
    type V = Demand;

    open spec fn view(&self) -> Demand {
        match self {
            Action::AppendLog { line, delay_ms } => Demand::AppendLog {
                line: line@,
                delay_ms: *delay_ms,
            },
            Action::ReadLog => Demand::ReadLog,
            Action::ResetLog => Demand::ResetLog,
            Action::ReadPage { page_id } => Demand::ReadPage { page_id: *page_id },
            Action::WritePage { page_id, data } => Demand::WritePage {
                page_id: *page_id,
                data: data@,
            },
            Action::FlushStore => Demand::FlushStore,
            Action::Done(outcome) => Demand::Done(outcome@),
        }
    }
}

impl View for Event {
    type V = Signal;

    open spec fn view(&self) -> Signal {
        match self {
            Event::LogAppended(r) => Signal::LogAppended(plain_result(*r)),
            Event::LogRead(r) => Signal::LogRead(bytes_result(*r)),
            Event::LogReset(r) => Signal::LogReset(plain_result(*r)),
            Event::PageRead(r) => Signal::PageRead(bytes_result(*r)),
            Event::PageWritten(r) => Signal::PageWritten(plain_result(*r)),
            Event::StoreFlushed(r) => Signal::StoreFlushed(plain_result(*r)),
        }
    }
}

// ---------------------------------------------------------------------------
// The abstract state
// ---------------------------------------------------------------------------

/// What happens once a page has been installed.
pub enum Sequel {
    /// The key is mapped to the page: the end of a `set`.
    Index { key: Seq<char> },
    /// Nothing more: the end of a `delete`.
    Deleted,
    /// The page is decoded and its value returned: the end of a `get`.
    Decode { key: Seq<char> },
}

/// A page that is to be installed in the pool, and what follows.
pub struct Job {
    pub page_id: u64,
    pub page: Seq<u8>,
    pub dirty: bool,
    pub sequel: Sequel,
}

/// What the engine waits for.
pub enum Stage {
    /// Nothing: no operation is running.
    Idle,
    /// The log record `entry` is being appended; `failures` appends have
    /// failed so far.
    Logging { entry: LogRecord, failures: u32 },
    /// The page of `key` is being read from the page store.
    Fetching { key: Seq<char>, page_id: u64 },
    /// The dirty page `victim` is being written back so that the page of
    /// `job` can take its frame.
    Installing { job: Job, victim: u64 },
    /// The dirty page `current` is being written by a flush, and `rest`
    /// are still to be written.
    Flushing { current: u64, rest: Seq<(u64, Seq<u8>)>, checkpoint: bool },
    /// The page store is making the flushed pages durable.
    Barrier { checkpoint: bool },
    /// The log is being deleted and created anew.
    Resetting,
    /// The log is being read.
    Loading,
}

/// The series of steps that the running operation is made of.
pub enum Series {
    /// One step: `set`, `get`, `delete`, `flush`, `checkpoint`.
    Single,
    /// A `scan`: one `get` for each of `keys`. The key at `pos` is being
    /// read, and `found` are the pairs found before it.
    Scan { keys: Seq<Seq<char>>, pos: nat, found: Seq<(Seq<char>, Seq<char>)> },
    /// A recovery: the records `entries` of the log are applied again. The
    /// record at `pos` is being applied.
    Replay { entries: Seq<LogRecord>, pos: nat },
}

/// Where a step of an operation has got to.
pub enum Headway {
    /// The step has ended with this reply.
    Finished(Reply),
    /// The step waits for the caller to do this.
    Wait(Demand),
}

/// The abstract state of the engine.
pub struct StoreState {
    /// The page of each key.
    pub index: Map<Seq<char>, u64>,
    /// The buffer pool.
    pub pool: PoolState,
    /// The write-ahead log.
    pub log: LogState,
    /// The id that the next new key gets.
    pub next_page_id: u64,
    /// What the engine waits for.
    pub stage: Stage,
    /// The steps of the running operation.
    pub series: Series,
}

/// The text of the error for an operation begun while another one runs.
pub open spec fn busy_text() -> Seq<char> {
    "an operation is in progress"@
}

/// The text of the error for an event that no operation waits for.
pub open spec fn stray_text() -> Seq<char> {
    "no operation awaits this event"@
}

/// The text of the error for a new key when no page id is left.
pub open spec fn full_text() -> Seq<char> {
    "page ids are exhausted"@
}

/// The value that `page` holds for `key`: `None` unless the page is a valid
/// record of that key whose value is text.
pub open spec fn stored_value(page: Seq<u8>, key: Seq<char>) -> Option<Seq<char>> {
    if valid_record(page) && page_key(page) == encode_utf8(key) && valid_utf8(page_value(page)) {
        Some(decode_utf8(page_value(page)))
    } else {
        None
    }
}

impl Series {
    /// The steps that are left, the running one included.
    pub open spec fn remaining(self) -> nat {
        match self {
            Series::Single => 0,
            Series::Scan { keys, pos, found } => (keys.len() - pos) as nat,
            Series::Replay { entries, pos } => (entries.len() - pos) as nat,
        }
    }

    /// The running step exists.
    pub open spec fn in_range(self) -> bool {
        match self {
            Series::Single => true,
            Series::Scan { keys, pos, found } => pos < keys.len() <= usize::MAX,
            Series::Replay { entries, pos } => pos < entries.len() <= usize::MAX,
        }
    }
}

impl StoreState {
    /// An operation is running.
    pub open spec fn busy(self) -> bool {
        !(self.stage is Idle)
    }

    /// The reply to an operation that was begun while another one runs.
    pub open spec fn refused(self) -> (StoreState, Demand) {
        (self, Demand::Done(Reply::Failed(Fault::ConfigError(busy_text()))))
    }

    /// The state in which the engine waits in `stage`.
    pub open spec fn waiting(self, stage: Stage) -> StoreState {
        StoreState { stage, ..self }
    }

    /// The page that a record of `key` goes to: the one the key has, or
    /// the next new one.
    pub open spec fn target_page(self, key: Seq<char>) -> u64 {
        if self.index.contains_key(key) {
            self.index[key]
        } else {
            self.next_page_id
        }
    }

    /// Starts to append `entry` to the log.
    pub open spec fn begin_log(self, entry: LogRecord) -> (StoreState, Headway) {
        (
            self.waiting(Stage::Logging { entry, failures: 0 }),
            Headway::Wait(Demand::AppendLog { line: record_line(entry), delay_ms: 0 }),
        )
    }

    /// What follows the installation of the page of `job`.
    pub open spec fn finish_install(self, job: Job) -> (StoreState, Headway) {
        match job.sequel {
            Sequel::Index { key } => (
                StoreState {
                    index: self.index.insert(key, job.page_id),
                    next_page_id: if job.page_id == self.next_page_id && self.next_page_id
                        < u64::MAX {
                        (self.next_page_id + 1) as u64
                    } else {
                        self.next_page_id
                    },
                    ..self
                },
                Headway::Finished(Reply::Stored),
            ),
            Sequel::Deleted => (self, Headway::Finished(Reply::Deleted(true))),
            Sequel::Decode { key } => (
                self,
                Headway::Finished(
                    Reply::Value(stored_value(self.pool.pages[job.page_id].data, key)),
                ),
            ),
        }
    }

    /// Installs the page of `job` in the pool. A dirty page that stands in
    /// the way is written back first.
    pub open spec fn install(self, job: Job) -> (StoreState, Headway) {
        let image = if job.dirty {
            self.pool.put_image(job.page_id, job.page)
        } else {
            self.pool.load_image(job.page_id, job.page)
        };
        match self.pool.placement(job.page_id) {
            Placement::WriteBack(victim) => (
                self.waiting(Stage::Installing { job, victim }),
                Headway::Wait(
                    Demand::WritePage { page_id: victim, data: self.pool.pages[victim].data },
                ),
            ),
            Placement::Exhausted => (
                self,
                Headway::Finished(Reply::Failed(Fault::BufferPoolExhausted)),
            ),
            _ => StoreState {
                pool: self.pool.after_admission(job.page_id, image),
                ..self
            }.finish_install(job),
        }
    }

    /// Applies a record that has become durable with sequence number `lsn`.
    pub open spec fn apply(self, entry: LogRecord, lsn: u64) -> (StoreState, Headway) {
        match entry {
            LogRecord::Put { key, value } => {
                if !fits(encode_utf8(key), encode_utf8(value)) {
                    (
                        self,
                        Headway::Finished(
                            Reply::Failed(size_fault(encode_utf8(key), encode_utf8(value))),
                        ),
                    )
                } else if !self.index.contains_key(key) && self.next_page_id == u64::MAX {
                    (self, Headway::Finished(Reply::Failed(Fault::ConfigError(full_text()))))
                } else {
                    self.install(
                        Job {
                            page_id: self.target_page(key),
                            page: record_page(encode_utf8(key), encode_utf8(value), lsn),
                            dirty: true,
                            sequel: Sequel::Index { key },
                        },
                    )
                }
            },
            LogRecord::Delete { key } => {
                if self.index.contains_key(key) {
                    StoreState { index: self.index.remove(key), ..self }.install(
                        Job {
                            page_id: self.index[key],
                            page: zeros(PAGE_SIZE as nat),
                            dirty: true,
                            sequel: Sequel::Deleted,
                        },
                    )
                } else {
                    (self, Headway::Finished(Reply::Deleted(false)))
                }
            },
            LogRecord::Checkpoint { lsn } => (
                self.waiting(Stage::Resetting),
                Headway::Wait(Demand::ResetLog),
            ),
        }
    }

    /// Applies a record again that was read back from the log. A record
    /// that cannot be applied is skipped.
    pub open spec fn redo(self, entry: LogRecord, lsn: u64) -> (StoreState, Headway) {
        match entry {
            LogRecord::Put { key, value } => {
                let (after, headway) = self.apply(entry, lsn);
                match headway {
                    Headway::Finished(Reply::Failed(_)) => (self, Headway::Finished(Reply::Stored)),
                    _ => (after, headway),
                }
            },
            LogRecord::Delete { key } => (
                StoreState { index: self.index.remove(key), ..self },
                Headway::Finished(Reply::Deleted(self.index.contains_key(key))),
            ),
            LogRecord::Checkpoint { lsn } => (self, Headway::Finished(Reply::Checkpointed)),
        }
    }

    /// Looks `key` up: in the index, then in the pool, then in the page store.
    pub open spec fn get_step(self, key: Seq<char>) -> (StoreState, Headway) {
        if !self.index.contains_key(key) {
            (self, Headway::Finished(Reply::Value(None)))
        } else {
            let page_id = self.index[key];
            if self.pool.resident(page_id) {
                (
                    StoreState { pool: self.pool.touch(page_id), ..self },
                    Headway::Finished(
                        Reply::Value(stored_value(self.pool.pages[page_id].data, key)),
                    ),
                )
            } else {
                (
                    self.waiting(Stage::Fetching { key, page_id }),
                    Headway::Wait(Demand::ReadPage { page_id }),
                )
            }
        }
    }

    /// Writes the last of the pages `dirty`, or, when none is left, asks the
    /// page store to make the written pages durable.
    pub open spec fn flush_step(self, dirty: Seq<(u64, Seq<u8>)>, checkpoint: bool) -> (
        StoreState,
        Headway,
    ) {
        if dirty.len() == 0 {
            (self.waiting(Stage::Barrier { checkpoint }), Headway::Wait(Demand::FlushStore))
        } else {
            (
                self.waiting(
                    Stage::Flushing {
                        current: dirty.last().0,
                        rest: dirty.drop_last(),
                        checkpoint,
                    },
                ),
                Headway::Wait(
                    Demand::WritePage { page_id: dirty.last().0, data: dirty.last().1 },
                ),
            )
        }
    }

    /// The state with page `page_id` marked clean, if it is resident.
    pub open spec fn cleaned(self, page_id: u64) -> StoreState {
        StoreState { pool: self.pool.cleaned(page_id), ..self }
    }

    /// The append of `entry` has ended with `result`, after `failures`
    /// earlier failures.
    pub open spec fn on_log_appended(self, entry: LogRecord, failures: u32, result: Result<(), Fault>) -> (
        StoreState,
        Headway,
    ) {
        match result {
            Ok(()) => StoreState {
                log: LogState {
                    entries: self.log.entries.push(entry),
                    lsn: (self.log.lsn + 1) as u64,
                },
                ..self
            }.apply(entry, (self.log.lsn + 1) as u64),
            Err(e) => {
                if failures < WAL_RETRIES {
                    (
                        self.waiting(
                            Stage::Logging { entry, failures: (failures + 1) as u32 },
                        ),
                        Headway::Wait(
                            Demand::AppendLog {
                                line: record_line(entry),
                                delay_ms: (WAL_BACKOFF_MS * (failures + 1)) as u64,
                            },
                        ),
                    )
                } else {
                    (self, Headway::Finished(Reply::Failed(e)))
                }
            },
        }
    }

    /// The read of the page of `key` has ended with `result`.
    pub open spec fn on_page_read(self, key: Seq<char>, page_id: u64, result: Result<Seq<u8>, Fault>) -> (
        StoreState,
        Headway,
    ) {
        match result {
            Ok(data) => {
                if data.len() == PAGE_SIZE {
                    self.install(
                        Job { page_id, page: data, dirty: false, sequel: Sequel::Decode { key } },
                    )
                } else {
                    (self, Headway::Finished(Reply::Value(None)))
                }
            },
            Err(e) => {
                if e.is_benign_absence() {
                    (self, Headway::Finished(Reply::Value(None)))
                } else {
                    (self, Headway::Finished(Reply::Failed(e)))
                }
            },
        }
    }

    /// The write-back of `victim` has ended with `result`.
    pub open spec fn on_written_back(self, job: Job, victim: u64, result: Result<(), Fault>) -> (
        StoreState,
        Headway,
    ) {
        match result {
            Ok(()) => self.cleaned(victim).install(job),
            Err(e) => (self, Headway::Finished(Reply::Failed(e))),
        }
    }

    /// The write of the dirty page `current` by a flush has ended with `result`.
    pub open spec fn on_flushed_page(
        self,
        current: u64,
        rest: Seq<(u64, Seq<u8>)>,
        checkpoint: bool,
        result: Result<(), Fault>,
    ) -> (StoreState, Headway) {
        match result {
            Ok(()) => self.cleaned(current).flush_step(rest, checkpoint),
            Err(e) => (self, Headway::Finished(Reply::Failed(e))),
        }
    }

    /// The page store has answered the durability barrier with `result`.
    pub open spec fn on_store_flushed(self, checkpoint: bool, result: Result<(), Fault>) -> (
        StoreState,
        Headway,
    ) {
        match result {
            Ok(()) => {
                if checkpoint {
                    self.begin_log(LogRecord::Checkpoint { lsn: self.log.lsn })
                } else {
                    (self, Headway::Finished(Reply::Flushed))
                }
            },
            Err(e) => (self, Headway::Finished(Reply::Failed(e))),
        }
    }

    /// The reset of the log has ended with `result`.
    pub open spec fn on_log_reset(self, result: Result<(), Fault>) -> (StoreState, Headway) {
        match result {
            Ok(()) => (
                StoreState { log: LogState { entries: Seq::empty(), lsn: 0 }, ..self },
                Headway::Finished(Reply::Checkpointed),
            ),
            Err(e) => (self, Headway::Finished(Reply::Failed(e))),
        }
    }

    /// The read of the log has ended with `result`.
    pub open spec fn on_log_read(self, result: Result<Seq<u8>, Fault>) -> (StoreState, Headway) {
        match result {
            Ok(bytes) => {
                let entries = replayed(bytes);
                let loaded = StoreState {
                    log: LogState { entries, lsn: entries.len() as u64 },
                    ..self
                };
                if entries.len() == 0 {
                    (loaded, Headway::Finished(Reply::Recovered(0)))
                } else {
                    StoreState {
                        series: Series::Replay { entries, pos: 0 },
                        ..loaded
                    }.redo(entries[0], 1)
                }
            },
            Err(e) => (self, Headway::Finished(Reply::Failed(e))),
        }
    }

    /// Carries the running operation on from the end of a step: to the end
    /// of the operation, or to the next wait.
    pub open spec fn settle(self, headway: Headway) -> (StoreState, Demand)
        decreases self.series.remaining(),
    {
        match headway {
            Headway::Wait(demand) => (self, demand),
            Headway::Finished(reply) => {
                let ended = StoreState { stage: Stage::Idle, series: Series::Single, ..self };
                match self.series {
                    Series::Single => (ended, Demand::Done(reply)),
                    Series::Scan { keys, pos, found } => {
                        let found = match reply {
                            Reply::Value(Some(value)) if pos < keys.len() => found.push(
                                (keys[pos as int], value),
                            ),
                            _ => found,
                        };
                        if pos + 1 >= keys.len() {
                            (ended, Demand::Done(Reply::Entries(found)))
                        } else {
                            let next = StoreState {
                                series: Series::Scan { keys, pos: pos + 1, found },
                                ..self
                            };
                            let (after, headway) = next.get_step(keys[pos + 1 as int]);
                            after.settle(headway)
                        }
                    },
                    Series::Replay { entries, pos } => {
                        if reply is Failed {
                            (ended, Demand::Done(reply))
                        } else if pos + 1 >= entries.len() {
                            (ended, Demand::Done(Reply::Recovered(entries.len())))
                        } else {
                            let next = StoreState {
                                series: Series::Replay { entries, pos: pos + 1 },
                                ..self
                            };
                            let (after, headway) = next.redo(entries[pos + 1 as int], (pos + 2) as u64);
                            after.settle(headway)
                        }
                    },
                }
            },
        }
    }

    /// The event `signal` has arrived.
    pub open spec fn resume(self, signal: Signal) -> (StoreState, Demand) {
        let idle = self.waiting(Stage::Idle);
        match (self.stage, signal) {
            (Stage::Logging { entry, failures }, Signal::LogAppended(r)) => {
                let (after, headway) = idle.on_log_appended(entry, failures, r);
                after.settle(headway)
            },
            (Stage::Fetching { key, page_id }, Signal::PageRead(r)) => {
                let (after, headway) = idle.on_page_read(key, page_id, r);
                after.settle(headway)
            },
            (Stage::Installing { job, victim }, Signal::PageWritten(r)) => {
                let (after, headway) = idle.on_written_back(job, victim, r);
                after.settle(headway)
            },
            (Stage::Flushing { current, rest, checkpoint }, Signal::PageWritten(r)) => {
                let (after, headway) = idle.on_flushed_page(current, rest, checkpoint, r);
                after.settle(headway)
            },
            (Stage::Barrier { checkpoint }, Signal::StoreFlushed(r)) => {
                let (after, headway) = idle.on_store_flushed(checkpoint, r);
                after.settle(headway)
            },
            (Stage::Resetting, Signal::LogReset(r)) => {
                let (after, headway) = idle.on_log_reset(r);
                after.settle(headway)
            },
            (Stage::Loading, Signal::LogRead(r)) => {
                let (after, headway) = idle.on_log_read(r);
                after.settle(headway)
            },
            _ => (
                StoreState { stage: Stage::Idle, series: Series::Single, ..self },
                Demand::Done(Reply::Failed(Fault::ConfigError(stray_text()))),
            ),
        }
    }

    /// `set(key, value)` on this state.
    pub open spec fn set(self, key: Seq<char>, value: Seq<char>) -> (StoreState, Demand) {
        if self.busy() {
            self.refused()
        } else if !fits(encode_utf8(key), encode_utf8(value)) {
            (
                self,
                Demand::Done(Reply::Failed(size_fault(encode_utf8(key), encode_utf8(value)))),
            )
        } else {
            let (after, headway) = self.begin_log(LogRecord::Put { key, value });
            after.settle(headway)
        }
    }

    /// `get(key)` on this state.
    pub open spec fn get(self, key: Seq<char>) -> (StoreState, Demand) {
        if self.busy() {
            self.refused()
        } else {
            let (after, headway) = self.get_step(key);
            after.settle(headway)
        }
    }

    /// `delete(key)` on this state.
    pub open spec fn delete(self, key: Seq<char>) -> (StoreState, Demand) {
        if self.busy() {
            self.refused()
        } else if !self.index.contains_key(key) {
            (self, Demand::Done(Reply::Deleted(false)))
        } else {
            let (after, headway) = self.begin_log(LogRecord::Delete { key });
            after.settle(headway)
        }
    }

    /// `scan()` on this state when no operation is running, with the keys
    /// visited in the order of `keys`.
    pub open spec fn scan(self, keys: Seq<Seq<char>>) -> (StoreState, Demand) {
        if keys.len() == 0 {
            (self, Demand::Done(Reply::Entries(Seq::empty())))
        } else {
            let (after, headway) = StoreState {
                series: Series::Scan { keys, pos: 0, found: Seq::empty() },
                ..self
            }.get_step(keys[0]);
            after.settle(headway)
        }
    }

    /// `flush()` or `checkpoint()` on this state when no operation is
    /// running, with the dirty pages written from the last of `dirty` to
    /// the first.
    pub open spec fn flush(self, dirty: Seq<(u64, Seq<u8>)>, checkpoint: bool) -> (
        StoreState,
        Demand,
    ) {
        let (after, headway) = self.flush_step(dirty, checkpoint);
        after.settle(headway)
    }

    /// `recover()` on this state.
    pub open spec fn recover(self) -> (StoreState, Demand) {
        if self.busy() {
            self.refused()
        } else {
            (self.waiting(Stage::Loading), Demand::ReadLog)
        }
    }
}

impl StoreState {
    /// The state of an engine that was just created, with `frames` frames.
    pub open spec fn fresh(frames: nat) -> StoreState {
        StoreState {
            index: Map::empty(),
            pool: PoolState { capacity: frames, pages: Map::empty(), lru: Seq::empty() },
            log: LogState { entries: Seq::empty(), lsn: 0 },
            next_page_id: 1,
            stage: Stage::Idle,
            series: Series::Single,
        }
    }

    /// The invariant of the engine, in terms of its abstract state.
    pub open spec fn well_formed(self) -> bool {
        &&& self.index.dom().finite()
        &&& self.pool.well_formed()
        &&& self.log.lsn == self.log.entries.len()
        &&& self.series.in_range()
        &&& self.stage is Idle ==> self.series is Single
        &&& self.stage matches Stage::Installing { job, victim } ==> job.page.len() == PAGE_SIZE
    }
}

// ---------------------------------------------------------------------------
// The engine
// ---------------------------------------------------------------------------

enum AfterInstall {
    Index { key: String },
    Deleted,
    Decode { key: String },
}

struct InstallJob {
    page_id: u64,
    page: Vec<u8>,
    dirty: bool,
    sequel: AfterInstall,
}

enum Waiting {
    Idle,
    Logging { entry: WalEntry, failures: u32 },
    Fetching { key: String, page_id: u64 },
    Installing { job: InstallJob, victim: u64 },
    Flushing { current: u64, rest: Vec<(u64, Vec<u8>)>, checkpoint: bool },
    Barrier { checkpoint: bool },
    Resetting,
    Loading,
}

enum Batch {
    Single,
    Scan { keys: Vec<String>, pos: usize, found: Vec<(String, String)> },
    Replay { entries: Vec<WalEntry>, pos: usize },
}

enum Progress {
    Finished(Outcome),
    Wait(Action),
}

impl View for AfterInstall {
    type V = Sequel;

    closed spec fn view(&self) -> Sequel {
        match self {
            AfterInstall::Index { key } => Sequel::Index { key: key@ },
            AfterInstall::Deleted => Sequel::Deleted,
            AfterInstall::Decode { key } => Sequel::Decode { key: key@ },
        }
    }
}

impl View for InstallJob {
    type V = Job;

    closed spec fn view(&self) -> Job {
        Job { page_id: self.page_id, page: self.page@, dirty: self.dirty, sequel: self.sequel@ }
    }
}

impl View for Waiting {
    type V = Stage;

    closed spec fn view(&self) -> Stage {
        match self {
            Waiting::Idle => Stage::Idle,
            Waiting::Logging { entry, failures } => Stage::Logging {
                entry: entry@,
                failures: *failures,
            },
            Waiting::Fetching { key, page_id } => Stage::Fetching { key: key@, page_id: *page_id },
            Waiting::Installing { job, victim } => Stage::Installing { job: job@, victim: *victim },
            Waiting::Flushing { current, rest, checkpoint } => Stage::Flushing {
                current: *current,
                rest: rest.deep_view(),
                checkpoint: *checkpoint,
            },
            Waiting::Barrier { checkpoint } => Stage::Barrier { checkpoint: *checkpoint },
            Waiting::Resetting => Stage::Resetting,
            Waiting::Loading => Stage::Loading,
        }
    }
}

impl View for Batch {
    type V = Series;

    closed spec fn view(&self) -> Series {
        match self {
            Batch::Single => Series::Single,
            Batch::Scan { keys, pos, found } => Series::Scan {
                keys: keys.deep_view(),
                pos: *pos as nat,
                found: found.deep_view(),
            },
            Batch::Replay { entries, pos } => Series::Replay {
                entries: records_of(entries@),
                pos: *pos as nat,
            },
        }
    }
}

impl View for Progress {
    type V = Headway;

    closed spec fn view(&self) -> Headway {
        match self {
            Progress::Finished(outcome) => Headway::Finished(outcome@),
            Progress::Wait(action) => Headway::Wait(action@),
        }
    }
}

/// The key-value engine.
pub struct KVStore {
    index: DashMap<String, u64>,
    buffer_pool: BufferPool,
    wal: WAL,
    next_page_id: u64,
    stage: Waiting,
    batch: Batch,
}

/// Counters over the engine.
#[derive(Debug, Clone, Copy)]
pub struct KVStoreStats {
    /// Keys in the index.
    pub num_keys: usize,
    /// Records in the log since it was last emptied.
    pub wal_entries: usize,
    /// The sequence number of the last log record.
    pub wal_lsn: u64,
    /// Frames of the pool that hold a page.
    pub frames_used: usize,
    /// Pages of the pool that are dirty.
    pub frames_dirty: usize,
    /// Pages of the pool that are pinned.
    pub frames_pinned: usize,
    /// Mebibytes of the pool that hold pages, rounded down.
    pub buffer_pool_used_mb: usize,
    /// Mebibytes of the pool, rounded down.
    pub buffer_pool_total_mb: usize,
}

impl View for KVStore {
    type V = StoreState;

    closed spec fn view(&self) -> StoreState {
        StoreState {
            index: index_entries(&self.index),
            pool: self.buffer_pool@,
            log: self.wal@,
            next_page_id: self.next_page_id,
            stage: self.stage@,
            series: self.batch@,
        }
    }
}

/// Tells whether two byte strings are equal.
fn same_bytes(a: &[u8], b: &[u8]) -> (same: bool)
    ensures
        same == (a@ == b@),
{
    if a.len() != b.len() {
        return false;
    }
    let mut i: usize = 0;
    while i < a.len()
        invariant
            i <= a@.len(),
            a@.len() == b@.len(),
            forall|j: int| 0 <= j < i ==> a@[j] == b@[j],
        decreases a@.len() - i,
    {
        if a[i] != b[i] {
            return false;
        }
        i += 1;
    }
    proof {
        assert(a@ =~= b@);
    }
    true
}

/// Reads the value that `page` holds for `key`.
fn read_value(page_id: u64, page: &[u8], key: &str) -> (value: Option<String>)
    ensures
        Outcome::Value(value)@ == Reply::Value(stored_value(page@, key@)),
{
    match decode_page(page_id, page) {
        Ok(record) => {
            if same_bytes(record.key.as_slice(), key.as_bytes()) {
                match text_of(record.value) {
                    Some(text) => {
                        proof {
                            vstd::utf8::encode_utf8_decode_utf8(text@);
                        }
                        Some(text)
                    },
                    None => None,
                }
            } else {
                None
            }
        },
        Err(_) => None,
    }
}

impl KVStore {
    /// The representation invariant while a step runs.
    spec fn inv(&self) -> bool {
        &&& index_entries(&self.index).dom().finite()
        &&& self.buffer_pool.wf()
        &&& self.wal.wf()
        &&& self.batch@.in_range()
        &&& self.stage@ matches Stage::Installing { job, victim } ==> job.page.len() == PAGE_SIZE
    }

    /// The representation invariant between operations and their steps.
    pub closed spec fn wf(&self) -> bool {
        &&& self.inv()
        &&& self.stage@ is Idle ==> self.batch@ is Single
    }

    /// The abstract state of an engine is well formed.
    pub proof fn lemma_well_formed(&self)
        requires
            self.wf(),
        ensures
            self@.well_formed(),
    {
        self.buffer_pool.lemma_well_formed();
        self.wal.lemma_lsn_counts();
    }

    /// Reads the value that the image `page` of the resident page `page_id`
    /// holds for `key`. The page is pinned while it is decoded.
    fn read_pinned(&mut self, page_id: u64, page: &[u8], key: &str) -> (value: Option<String>)
        requires
            old(self).inv(),
            old(self).stage@ is Idle,
            old(self)@.pool.resident(page_id),
        ensures
            final(self).inv(),
            final(self)@ == old(self)@,
            Outcome::Value(value)@ == Reply::Value(stored_value(page@, key@)),
    {
        let pinned = self.buffer_pool.pin_page(page_id).is_ok();
        let value = read_value(page_id, page, key);
        if pinned {
            match self.buffer_pool.unpin_page(page_id) {
                Ok(()) => {},
                Err(_) => {},
            }
        }
        proof {
            assert(self@.pool.pages =~= old(self)@.pool.pages);
        }
        value
    }

    fn begin_log(&mut self, entry: WalEntry) -> (r: Progress)
        requires
            old(self).inv(),
            old(self).stage@ is Idle,
        ensures
            final(self).inv(),
            (final(self)@, r@) == old(self)@.begin_log(entry@),
    {
        let line = encode_record(&entry);
        self.stage = Waiting::Logging { entry, failures: 0 };
        Progress::Wait(Action::AppendLog { line, delay_ms: 0 })
    }

    fn finish_install(&mut self, job: InstallJob) -> (r: Progress)
        requires
            old(self).inv(),
            old(self).stage@ is Idle,
            old(self)@.pool.resident(job.page_id),
        ensures
            final(self).inv(),
            final(self).stage@ is Idle,
            (final(self)@, r@) == old(self)@.finish_install(job@),
    {
        match job.sequel {
            AfterInstall::Index { key } => {
                index_insert(&mut self.index, key, job.page_id);
                if job.page_id == self.next_page_id && self.next_page_id < u64::MAX {
                    self.next_page_id = self.next_page_id + 1;
                }
                Progress::Finished(Outcome::Stored)
            },
            AfterInstall::Deleted => Progress::Finished(Outcome::Deleted(true)),
            AfterInstall::Decode { key } => {
                let value = match self.buffer_pool.peek_page(job.page_id) {
                    Some(data) => self.read_pinned(job.page_id, data.as_slice(), key.as_str()),
                    None => None,
                };
                Progress::Finished(Outcome::Value(value))
            },
        }
    }

    fn install(&mut self, job: InstallJob) -> (r: Progress)
        requires
            old(self).inv(),
            old(self).stage@ is Idle,
            job.page@.len() == PAGE_SIZE,
        ensures
            final(self).inv(),
            r is Wait <==> !(final(self).stage@ is Idle),
            (final(self)@, r@) == old(self)@.install(job@),
    {
        let copy = slice_to_vec(job.page.as_slice());
        let admission = if job.dirty {
            self.buffer_pool.put_page(job.page_id, copy)
        } else {
            self.buffer_pool.load_page_into_buffer(job.page_id, copy)
        };
        match admission {
            Ok(Admission::Installed) => {
                proof {
                    self.buffer_pool.lemma_well_formed();
                    old(self).buffer_pool.lemma_well_formed();
                    crate::buffer_pool::lemma_admitted_is_resident(
                        old(self)@.pool,
                        job.page_id,
                        if job.dirty {
                            old(self)@.pool.put_image(job.page_id, job.page@)
                        } else {
                            old(self)@.pool.load_image(job.page_id, job.page@)
                        },
                    );
                }
                self.finish_install(job)
            },
            Ok(Admission::WriteBack { page_id, data }) => {
                self.stage = Waiting::Installing { job, victim: page_id };
                Progress::Wait(Action::WritePage { page_id, data })
            },
            Err(e) => Progress::Finished(Outcome::Failed(e)),
        }
    }

    fn apply(&mut self, entry: WalEntry, lsn: u64) -> (r: Progress)
        requires
            old(self).inv(),
            old(self).stage@ is Idle,
        ensures
            final(self).inv(),
            r is Wait <==> !(final(self).stage@ is Idle),
            (final(self)@, r@) == old(self)@.apply(entry@, lsn),
    {
        match entry {
            WalEntry::Put { key, value } => {
                match encode_page(key.as_str().as_bytes(), value.as_str().as_bytes(), lsn) {
                    Ok(page) => {
                        let target = match index_get(&self.index, key.as_str()) {
                            Some(page_id) => page_id,
                            None => {
                                if self.next_page_id == u64::MAX {
                                    return Progress::Finished(
                                        Outcome::Failed(
                                            IronCladError::ConfigError(
                                                "page ids are exhausted".to_string(),
                                            ),
                                        ),
                                    );
                                }
                                self.next_page_id
                            },
                        };
                        self.install(
                            InstallJob {
                                page_id: target,
                                page,
                                dirty: true,
                                sequel: AfterInstall::Index { key },
                            },
                        )
                    },
                    Err(e) => Progress::Finished(Outcome::Failed(e)),
                }
            },
            WalEntry::Delete { key } => {
                match index_remove(&mut self.index, key.as_str()) {
                    Some(page_id) => self.install(
                        InstallJob {
                            page_id,
                            page: zero_page(),
                            dirty: true,
                            sequel: AfterInstall::Deleted,
                        },
                    ),
                    None => {
                        proof {
                            assert(index_entries(&self.index) =~= index_entries(&old(self).index));
                        }
                        Progress::Finished(Outcome::Deleted(false))
                    },
                }
            },
            WalEntry::Checkpoint { lsn } => {
                self.stage = Waiting::Resetting;
                Progress::Wait(Action::ResetLog)
            },
        }
    }

    fn redo(&mut self, entry: WalEntry, lsn: u64) -> (r: Progress)
        requires
            old(self).inv(),
            old(self).stage@ is Idle,
        ensures
            final(self).inv(),
            r is Wait <==> !(final(self).stage@ is Idle),
            (final(self)@, r@) == old(self)@.redo(entry@, lsn),
    {
        match entry {
            WalEntry::Put { key, value } => {
                let progress = self.apply(WalEntry::Put { key, value }, lsn);
                match progress {
                    Progress::Finished(Outcome::Failed(_)) => {
                        proof {
                            lemma_failed_apply_changes_nothing(old(self)@, entry@, lsn);
                            assert(self@ == old(self)@);
                        }
                        Progress::Finished(Outcome::Stored)
                    },
                    other => other,
                }
            },
            WalEntry::Delete { key } => {
                let removed = index_remove(&mut self.index, key.as_str());
                Progress::Finished(Outcome::Deleted(removed.is_some()))
            },
            WalEntry::Checkpoint { lsn } => Progress::Finished(Outcome::Checkpointed),
        }
    }

    fn get_step(&mut self, key: String) -> (r: Progress)
        requires
            old(self).inv(),
            old(self).stage@ is Idle,
        ensures
            final(self).inv(),
            r is Wait <==> !(final(self).stage@ is Idle),
            (final(self)@, r@) == old(self)@.get_step(key@),
    {
        match index_get(&self.index, key.as_str()) {
            None => Progress::Finished(Outcome::Value(None)),
            Some(page_id) => match self.buffer_pool.get_page(page_id) {
                Some(data) => Progress::Finished(
                    Outcome::Value(self.read_pinned(page_id, data.as_slice(), key.as_str())),
                ),
                None => {
                    self.stage = Waiting::Fetching { key, page_id };
                    Progress::Wait(Action::ReadPage { page_id })
                },
            },
        }
    }

    fn flush_step(&mut self, dirty: Vec<(u64, Vec<u8>)>, checkpoint: bool) -> (r: Progress)
        requires
            old(self).inv(),
            old(self).stage@ is Idle,
        ensures
            final(self).inv(),
            r is Wait,
            !(final(self).stage@ is Idle),
            (final(self)@, r@) == old(self)@.flush_step(dirty.deep_view(), checkpoint),
    {
        let mut rest = dirty;
        match rest.pop() {
            Some((current, data)) => {
                proof {
                    assert(rest.deep_view() =~= dirty.deep_view().drop_last());
                    assert(dirty.deep_view().last() == (current, data@));
                }
                self.stage = Waiting::Flushing { current, rest, checkpoint };
                Progress::Wait(Action::WritePage { page_id: current, data })
            },
            None => {
                self.stage = Waiting::Barrier { checkpoint };
                Progress::Wait(Action::FlushStore)
            },
        }
    }

    fn clean(&mut self, page_id: u64)
        requires
            old(self).inv(),
            old(self).stage@ is Idle,
        ensures
            final(self).inv(),
            final(self).stage@ is Idle,
            final(self)@ == old(self)@.cleaned(page_id),
    {
        match self.buffer_pool.clear_dirty(page_id) {
            Ok(()) => {},
            Err(_) => {},
        }
    }

    fn on_log_appended(&mut self, entry: WalEntry, failures: u32, result: Result<
        (),
        IronCladError,
    >) -> (r: Progress)
        requires
            old(self).inv(),
            old(self).stage@ is Idle,
        ensures
            final(self).inv(),
            r is Wait <==> !(final(self).stage@ is Idle),
            (final(self)@, r@) == old(self)@.on_log_appended(
                entry@,
                failures,
                plain_result(result),
            ),
    {
        match result {
            Ok(()) => {
                let lsn = self.wal.append_entry(entry.clone());
                self.apply(entry, lsn)
            },
            Err(e) => {
                if failures < WAL_RETRIES {
                    let failures = failures + 1;
                    let delay_ms = match WAL::retry_delay_ms(failures) {
                        Some(delay_ms) => delay_ms,
                        None => 0,
                    };
                    let line = encode_record(&entry);
                    self.stage = Waiting::Logging { entry, failures };
                    Progress::Wait(Action::AppendLog { line, delay_ms })
                } else {
                    Progress::Finished(Outcome::Failed(e))
                }
            },
        }
    }

    fn on_page_read(&mut self, key: String, page_id: u64, result: Result<Vec<u8>, IronCladError>) -> (r:
        Progress)
        requires
            old(self).inv(),
            old(self).stage@ is Idle,
        ensures
            final(self).inv(),
            r is Wait <==> !(final(self).stage@ is Idle),
            (final(self)@, r@) == old(self)@.on_page_read(key@, page_id, bytes_result(result)),
    {
        match result {
            Ok(data) => {
                if data.len() == PAGE_SIZE {
                    self.install(
                        InstallJob {
                            page_id,
                            page: data,
                            dirty: false,
                            sequel: AfterInstall::Decode { key },
                        },
                    )
                } else {
                    Progress::Finished(Outcome::Value(None))
                }
            },
            Err(e) => {
                if e.benign_absence() {
                    Progress::Finished(Outcome::Value(None))
                } else {
                    Progress::Finished(Outcome::Failed(e))
                }
            },
        }
    }

    fn on_written_back(&mut self, job: InstallJob, victim: u64, result: Result<
        (),
        IronCladError,
    >) -> (r: Progress)
        requires
            old(self).inv(),
            old(self).stage@ is Idle,
            job.page@.len() == PAGE_SIZE,
        ensures
            final(self).inv(),
            r is Wait <==> !(final(self).stage@ is Idle),
            (final(self)@, r@) == old(self)@.on_written_back(job@, victim, plain_result(result)),
    {
        match result {
            Ok(()) => {
                self.clean(victim);
                self.install(job)
            },
            Err(e) => Progress::Finished(Outcome::Failed(e)),
        }
    }

    fn on_flushed_page(
        &mut self,
        current: u64,
        rest: Vec<(u64, Vec<u8>)>,
        checkpoint: bool,
        result: Result<(), IronCladError>,
    ) -> (r: Progress)
        requires
            old(self).inv(),
            old(self).stage@ is Idle,
        ensures
            final(self).inv(),
            r is Wait <==> !(final(self).stage@ is Idle),
            (final(self)@, r@) == old(self)@.on_flushed_page(
                current,
                rest.deep_view(),
                checkpoint,
                plain_result(result),
            ),
    {
        match result {
            Ok(()) => {
                self.clean(current);
                self.flush_step(rest, checkpoint)
            },
            Err(e) => Progress::Finished(Outcome::Failed(e)),
        }
    }

    fn on_store_flushed(&mut self, checkpoint: bool, result: Result<(), IronCladError>) -> (r:
        Progress)
        requires
            old(self).inv(),
            old(self).stage@ is Idle,
        ensures
            final(self).inv(),
            r is Wait <==> !(final(self).stage@ is Idle),
            (final(self)@, r@) == old(self)@.on_store_flushed(checkpoint, plain_result(result)),
    {
        match result {
            Ok(()) => {
                if checkpoint {
                    let entry = self.wal.checkpoint_record();
                    self.begin_log(entry)
                } else {
                    Progress::Finished(Outcome::Flushed)
                }
            },
            Err(e) => Progress::Finished(Outcome::Failed(e)),
        }
    }

    fn on_log_reset(&mut self, result: Result<(), IronCladError>) -> (r: Progress)
        requires
            old(self).inv(),
            old(self).stage@ is Idle,
        ensures
            final(self).inv(),
            r is Wait <==> !(final(self).stage@ is Idle),
            (final(self)@, r@) == old(self)@.on_log_reset(plain_result(result)),
    {
        match result {
            Ok(()) => {
                self.wal.clear();
                Progress::Finished(Outcome::Checkpointed)
            },
            Err(e) => Progress::Finished(Outcome::Failed(e)),
        }
    }

    fn on_log_read(&mut self, result: Result<Vec<u8>, IronCladError>) -> (r: Progress)
        requires
            old(self).inv(),
            old(self).stage@ is Idle,
        ensures
            final(self).inv(),
            r is Wait <==> !(final(self).stage@ is Idle),
            (final(self)@, r@) == old(self)@.on_log_read(bytes_result(result)),
    {
        match result {
            Ok(bytes) => {
                let entries = self.wal.replay(bytes.as_slice());
                if entries.len() == 0 {
                    Progress::Finished(Outcome::Recovered(0))
                } else {
                    let first = entries[0].clone();
                    self.batch = Batch::Replay { entries, pos: 0 };
                    self.redo(first, 1)
                }
            },
            Err(e) => Progress::Finished(Outcome::Failed(e)),
        }
    }

    /// Carries the running operation on from the end of a step.
    #[verifier::rlimit(50)]
    fn settle(&mut self, first: Progress) -> (action: Action)
        requires
            old(self).inv(),
            first is Wait <==> !(old(self).stage@ is Idle),
        ensures
            final(self).wf(),
            (final(self)@, action@) == old(self)@.settle(first@),
    {
        let mut progress = first;
        loop
            invariant
                self.inv(),
                progress is Wait <==> !(self.stage@ is Idle),
                self@.settle(progress@) == old(self)@.settle(first@),
            decreases self.batch@.remaining(),
        {
            let outcome = match progress {
                Progress::Wait(action) => {
                    return action;
                },
                Progress::Finished(outcome) => outcome,
            };
            let ghost before = self@;
            let mut batch = Batch::Single;
            core::mem::swap(&mut self.batch, &mut batch);
            match batch {
                Batch::Single => {
                    return Action::Done(outcome);
                },
                Batch::Scan { keys, pos, found } => {
                    let mut found = found;
                    let ghost earlier = found.deep_view();
                    match outcome {
                        Outcome::Value(Some(value)) => {
                            let key = keys[pos].clone();
                            found.push((key, value));
                            proof {
                                assert(found.deep_view() =~= earlier.push((keys[pos as int]@, value@)));
                                assert(keys.deep_view()[pos as int] == keys[pos as int]@);
                            }
                        },
                        _ => {},
                    }
                    if pos + 1 >= keys.len() {
                        return Action::Done(Outcome::Entries(found));
                    }
                    let key = keys[pos + 1].clone();
                    proof {
                        assert(keys.deep_view()[pos + 1] == keys[pos + 1]@);
                    }
                    self.batch = Batch::Scan { keys, pos: pos + 1, found };
                    progress = self.get_step(key);
                },
                Batch::Replay { entries, pos } => {
                    match outcome {
                        Outcome::Failed(e) => {
                            return Action::Done(Outcome::Failed(e));
                        },
                        _ => {},
                    }
                    if pos + 1 >= entries.len() {
                        return Action::Done(Outcome::Recovered(entries.len()));
                    }
                    let entry = entries[pos + 1].clone();
                    let lsn = (pos + 2) as u64;
                    self.batch = Batch::Replay { entries, pos: pos + 1 };
                    progress = self.redo(entry, lsn);
                },
            }
        }
    }

    /// Creates an engine with a pool of `NUM_FRAMES` frames whose log is
    /// kept under `connection_string`. The engine is empty: `recover`
    /// brings back what the log holds.
    pub fn new(connection_string: &str) -> (store: KVStore)
        ensures
            store.wf(),
            store@ == StoreState::fresh(crate::buffer_pool::NUM_FRAMES as nat),
            store.log_location() == (connection_string@, "ironclad-db"@, "db-wal"@),
    {
        KVStore::with_frames(connection_string, crate::buffer_pool::NUM_FRAMES)
    }

    /// Creates an engine with a pool of `frames` frames. Its log is the blob
    /// `db-wal` in the container `ironclad-db` of the storage account that
    /// `connection_string` names.
    pub fn with_frames(connection_string: &str, frames: usize) -> (store: KVStore)
        ensures
            store.wf(),
            store@ == StoreState::fresh(frames as nat),
            store.log_location() == (connection_string@, "ironclad-db"@, "db-wal"@),
    {
        let store = KVStore {
            index: index_new(),
            buffer_pool: BufferPool::with_capacity(frames),
            wal: WAL::new(connection_string, "ironclad-db", "db-wal"),
            next_page_id: 1,
            stage: Waiting::Idle,
            batch: Batch::Single,
        };
        proof {
            assert(store@.index =~= Map::<Seq<char>, u64>::empty());
        }
        store
    }

    /// Where the log is kept: connection string, container and blob.
    pub closed spec fn log_location(&self) -> (Seq<char>, Seq<char>, Seq<char>) {
        self.wal.location()
    }

    /// The write-ahead log of the engine.
    pub fn wal(&self) -> (wal: &WAL)
        ensures
            wal@ == self@.log,
            wal.location() == self.log_location(),
    {
        &self.wal
    }

    /// The reply to an operation that was begun while another one runs.
    fn refuse() -> (action: Action)
        ensures
            action@ == Demand::Done(Reply::Failed(Fault::ConfigError(busy_text()))),
    {
        Action::Done(
            Outcome::Failed(IronCladError::ConfigError("an operation is in progress".to_string())),
        )
    }

    /// Tells whether an operation is running.
    pub fn is_busy(&self) -> (busy: bool)
        ensures
            busy == self@.busy(),
    {
        match &self.stage {
            Waiting::Idle => false,
            _ => true,
        }
    }

    /// Sets `key` to `value`.
    ///
    /// The record is appended to the log first. Once that append has
    /// succeeded the page of the key is installed in the pool, dirty, and
    /// the key is mapped to it; a key that is new gets the next page id.
    /// The operation ends with `Stored`.
    ///
    /// It ends with `KeyTooLarge` or `ValueTooLarge`, and has done nothing,
    /// where key and value do not fit into one page; with the error of the
    /// log where the append failed again after `WAL_RETRIES` retries, in
    /// which case neither index nor pool have changed; with
    /// `BufferPoolExhausted` where every frame holds a pinned page, or the
    /// error of the page store where a dirty page could not be written
    /// back: the record is in the log then, and the next recovery applies it.
    pub fn set(&mut self, key: &str, value: &str) -> (action: Action)
        requires
            old(self).wf(),
        ensures
            final(self).wf(),
            (final(self)@, action@) == old(self)@.set(key@, value@),
    {
        if self.is_busy() {
            return KVStore::refuse();
        }
        match check_fits(key.as_bytes().len(), value.as_bytes().len()) {
            Ok(()) => {},
            Err(e) => {
                return Action::Done(Outcome::Failed(e));
            },
        }
        let progress = self.begin_log(
            WalEntry::Put { key: key.to_owned(), value: value.to_owned() },
        );
        self.settle(progress)
    }

    /// Looks up the value of `key`.
    ///
    /// A key that the index does not hold has no value. Else the page of
    /// the key is taken from the pool, or read from the page store and
    /// admitted to the pool, and decoded. The operation ends with
    /// `Value(Some(..))` where the page is a valid record of this key, and
    /// with `Value(None)` where it is not, or where the page store has no
    /// such page. It fails with the error of the page store on any other
    /// read error.
    pub fn get(&mut self, key: &str) -> (action: Action)
        requires
            old(self).wf(),
        ensures
            final(self).wf(),
            (final(self)@, action@) == old(self)@.get(key@),
    {
        if self.is_busy() {
            return KVStore::refuse();
        }
        let progress = self.get_step(key.to_owned());
        self.settle(progress)
    }

    /// Deletes `key`.
    ///
    /// A key that the index does not hold ends the operation at once with
    /// `Deleted(false)`; nothing is logged. Else the record is appended to
    /// the log, the key leaves the index, its page is overwritten with
    /// zeros in the pool, and the operation ends with `Deleted(true)`.
    pub fn delete(&mut self, key: &str) -> (action: Action)
        requires
            old(self).wf(),
        ensures
            final(self).wf(),
            (final(self)@, action@) == old(self)@.delete(key@),
    {
        if self.is_busy() {
            return KVStore::refuse();
        }
        match index_get(&self.index, key) {
            None => Action::Done(Outcome::Deleted(false)),
            Some(_) => {
                let progress = self.begin_log(WalEntry::Delete { key: key.to_owned() });
                self.settle(progress)
            },
        }
    }

    /// Reads every key with its value.
    ///
    /// The keys are those of the index when the scan begins, each once, in
    /// the order in which the index yields them. Each is looked up as `get`
    /// does; a key without a value, or whose page cannot be read, is left
    /// out. The operation ends with `Entries`.
    pub fn scan(&mut self) -> (action: Action)
        requires
            old(self).wf(),
        ensures
            final(self).wf(),
            old(self)@.busy() ==> (final(self)@, action@) == old(self)@.refused(),
            !old(self)@.busy() ==> exists|keys: Seq<Seq<char>>|
                lists_keys(keys, old(self)@.index) && (final(self)@, action@) == old(self)@.scan(
                    keys,
                ),
    {
        if self.is_busy() {
            return KVStore::refuse();
        }
        let keys = index_keys(&self.index);
        let ghost listed = keys.deep_view();
        if keys.len() == 0 {
            let found: Vec<(String, String)> = Vec::new();
            proof {
                assert(found.deep_view() =~= Seq::<(Seq<char>, Seq<char>)>::empty());
                assert(lists_keys(listed, old(self)@.index));
                assert((self@, Action::Done(Outcome::Entries(found))@) == old(self)@.scan(listed));
            }
            return Action::Done(Outcome::Entries(found));
        }
        let first = keys[0].clone();
        let found: Vec<(String, String)> = Vec::new();
        proof {
            assert(found.deep_view() =~= Seq::<(Seq<char>, Seq<char>)>::empty());
            assert(listed[0] == keys[0]@);
        }
        self.batch = Batch::Scan { keys, pos: 0, found };
        let progress = self.get_step(first);
        let action = self.settle(progress);
        proof {
            assert(lists_keys(listed, old(self)@.index));
            assert((self@, action@) == old(self)@.scan(listed));
        }
        action
    }

    /// Writes every dirty page to the page store.
    ///
    /// Each page that is dirty when the flush begins is written and then
    /// marked clean; at last the page store is asked to make the pages
    /// durable. The operation ends with `Flushed`, or with the error of the
    /// page store. The log is left as it is.
    pub fn flush(&mut self) -> (action: Action)
        requires
            old(self).wf(),
        ensures
            final(self).wf(),
            old(self)@.busy() ==> (final(self)@, action@) == old(self)@.refused(),
            !old(self)@.busy() ==> exists|dirty: Seq<(u64, Seq<u8>)>|
                old(self)@.pool.lists_dirty(dirty) && (final(self)@, action@) == old(
                    self,
                )@.flush(dirty, false),
    {
        self.begin_flush(false)
    }

    /// Flushes, then appends a checkpoint record to the log, then empties
    /// the log. The operation ends with `Checkpointed`, or with the error of
    /// the step that failed.
    pub fn checkpoint(&mut self) -> (action: Action)
        requires
            old(self).wf(),
        ensures
            final(self).wf(),
            old(self)@.busy() ==> (final(self)@, action@) == old(self)@.refused(),
            !old(self)@.busy() ==> exists|dirty: Seq<(u64, Seq<u8>)>|
                old(self)@.pool.lists_dirty(dirty) && (final(self)@, action@) == old(
                    self,
                )@.flush(dirty, true),
    {
        self.begin_flush(true)
    }

    fn begin_flush(&mut self, checkpoint: bool) -> (action: Action)
        requires
            old(self).wf(),
        ensures
            final(self).wf(),
            old(self)@.busy() ==> (final(self)@, action@) == old(self)@.refused(),
            !old(self)@.busy() ==> exists|dirty: Seq<(u64, Seq<u8>)>|
                old(self)@.pool.lists_dirty(dirty) && (final(self)@, action@) == old(
                    self,
                )@.flush(dirty, checkpoint),
    {
        if self.is_busy() {
            return KVStore::refuse();
        }
        let dirty = self.buffer_pool.get_dirty_pages();
        let ghost listed = dirty.deep_view();
        let progress = self.flush_step(dirty, checkpoint);
        let action = self.settle(progress);
        proof {
            assert((self@, action@) == old(self)@.flush(listed, checkpoint));
        }
        action
    }

    /// Brings back the state that the log describes.
    ///
    /// The log is read and its records are applied in order: a record that
    /// sets a key installs the page of the key and maps the key to it, one
    /// that deletes a key takes the key out of the index, a checkpoint
    /// record does nothing. A record that cannot be applied is skipped. The
    /// operation ends with `Recovered` and the number of records, or with
    /// the error of the device.
    pub fn recover(&mut self) -> (action: Action)
        requires
            old(self).wf(),
        ensures
            final(self).wf(),
            (final(self)@, action@) == old(self)@.recover(),
    {
        if self.is_busy() {
            return KVStore::refuse();
        }
        self.stage = Waiting::Loading;
        Action::ReadLog
    }

    /// Takes up the running operation with the result of the device
    /// operation that the engine asked for last.
    ///
    /// An event that the engine does not wait for ends the running
    /// operation, if there is one, with `ConfigError`.
    #[verifier::rlimit(50)]
    pub fn resume(&mut self, event: Event) -> (action: Action)
        requires
            old(self).wf(),
        ensures
            final(self).wf(),
            (final(self)@, action@) == old(self)@.resume(event@),
    {
        let mut stage = Waiting::Idle;
        core::mem::swap(&mut self.stage, &mut stage);
        let progress = match stage {
            Waiting::Logging { entry, failures } => match event {
                Event::LogAppended(result) => Some(self.on_log_appended(entry, failures, result)),
                _ => None,
            },
            Waiting::Fetching { key, page_id } => match event {
                Event::PageRead(result) => Some(self.on_page_read(key, page_id, result)),
                _ => None,
            },
            Waiting::Installing { job, victim } => match event {
                Event::PageWritten(result) => Some(self.on_written_back(job, victim, result)),
                _ => None,
            },
            Waiting::Flushing { current, rest, checkpoint } => match event {
                Event::PageWritten(result) => Some(
                    self.on_flushed_page(current, rest, checkpoint, result),
                ),
                _ => None,
            },
            Waiting::Barrier { checkpoint } => match event {
                Event::StoreFlushed(result) => Some(self.on_store_flushed(checkpoint, result)),
                _ => None,
            },
            Waiting::Resetting => match event {
                Event::LogReset(result) => Some(self.on_log_reset(result)),
                _ => None,
            },
            Waiting::Loading => match event {
                Event::LogRead(result) => Some(self.on_log_read(result)),
                _ => None,
            },
            Waiting::Idle => None,
        };
        match progress {
            Some(progress) => self.settle(progress),
            None => {
                self.batch = Batch::Single;
                Action::Done(
                    Outcome::Failed(
                        IronCladError::ConfigError("no operation awaits this event".to_string()),
                    ),
                )
            },
        }
    }

    /// Counts keys, log records and frames.
    pub fn stats(&self) -> (stats: KVStoreStats)
        requires
            self.wf(),
        ensures
            stats.num_keys == self@.index.dom().len(),
            stats.wal_entries == self@.log.entries.len(),
            stats.wal_lsn == self@.log.lsn,
            stats.frames_used == self@.pool.pages.dom().len(),
            stats.frames_dirty == self@.pool.pages.dom().filter(
                |id: u64| self@.pool.pages[id].dirty,
            ).len(),
            stats.frames_pinned == self@.pool.pages.dom().filter(
                |id: u64| self@.pool.pages[id].pins > 0,
            ).len(),
            stats.buffer_pool_used_mb == stats.frames_used * PAGE_SIZE / 0x10_0000,
            stats.buffer_pool_total_mb == self@.pool.capacity * PAGE_SIZE / 0x10_0000,
    {
        let pool = self.buffer_pool.stats();
        KVStoreStats {
            num_keys: index_len(&self.index),
            wal_entries: self.wal.entry_count(),
            wal_lsn: self.wal.current_lsn(),
            frames_used: pool.used_frames,
            frames_dirty: pool.dirty_pages,
            frames_pinned: pool.pinned_pages,
            buffer_pool_used_mb: pool.used_frames / 256,
            buffer_pool_total_mb: pool.total_frames / 256,
        }
    }

    /// Encodes `key` and `value` as the page of a record that carries the
    /// sequence number of the last log record.
    pub fn encode_kv_page(&self, key: &str, value: &str) -> (r: Result<Vec<u8>, IronCladError>)
        ensures
            match r {
                Ok(page) => {
                    &&& fits(encode_utf8(key@), encode_utf8(value@))
                    &&& page@ == record_page(encode_utf8(key@), encode_utf8(value@), self@.log.lsn)
                    &&& stored_value(page@, key@) == Some(value@)
                },
                Err(e) => {
                    &&& !fits(encode_utf8(key@), encode_utf8(value@))
                    &&& e@ == size_fault(encode_utf8(key@), encode_utf8(value@))
                },
            },
    {
        let r = encode_page(key.as_bytes(), value.as_bytes(), self.wal.current_lsn());
        proof {
            vstd::utf8::encode_utf8_valid_utf8(value@);
            vstd::utf8::encode_utf8_decode_utf8(value@);
        }
        r
    }

    /// Decodes the value of the record that `page` holds.
    ///
    /// Fails as `decode_page` does on a page that holds no valid record,
    /// and with `Utf8Error` where the value is not text; the error then
    /// carries the text with which the standard library refuses the value.
    pub fn decode_kv_page(&self, page: &[u8]) -> (r: Result<String, IronCladError>)
        ensures
            match r {
                Ok(value) => {
                    &&& valid_record(page@)
                    &&& valid_utf8(page_value(page@))
                    &&& value@ == decode_utf8(page_value(page@))
                },
                Err(e) => {
                    if valid_record(page@) {
                        &&& !valid_utf8(page_value(page@))
                        &&& e@ == Fault::Utf8Error(utf8_fault_text(page_value(page@)))
                    } else {
                        e@ == decode_fault(0, page@)
                    }
                },
            },
    {
        match decode_page(0, page) {
            Ok(record) => match string_from_utf8(record.value) {
                Ok(value) => {
                    proof {
                        vstd::utf8::encode_utf8_decode_utf8(value@);
                    }
                    Ok(value)
                },
                Err(text) => Err(IronCladError::Utf8Error(text)),
            },
            Err(e) => Err(e),
        }
    }
}

/// A record whose application fails leaves the engine as it was.
proof fn lemma_failed_apply_changes_nothing(state: StoreState, entry: LogRecord, lsn: u64)
    requires
        entry is Put,
        state.apply(entry, lsn).1 matches Headway::Finished(Reply::Failed(_)),
    ensures
        state.apply(entry, lsn).0 == state,
{
}

} // verus!
