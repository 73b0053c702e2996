//! The write-ahead log: every mutation is recorded here, and is durable,
//! before it becomes observable.

use vstd::prelude::*;
use vstd::slice::slice_subrange;
use crate::log_format::{
    decode_record, lemma_record_text_injective, lemma_record_text_is_one_line, record_line, record_text, NEWLINE,
};

verus! {

/// How often a failed append is tried again before the log gives up.
pub const WAL_RETRIES: u32 = 5;

/// The pause before the first retry, in milliseconds. Each further retry
/// waits this much longer than the one before.
pub const WAL_BACKOFF_MS: u64 = 50;

/// One record of the log.
#[derive(Debug, PartialEq)]
pub enum WalEntry {
    /// The key was set to the value.
    Put { key: String, value: String },
    /// The key was deleted.
    Delete { key: String },
    /// Every record before this one is reflected in the page store. `lsn`
    /// is the sequence number of the last of them.
    Checkpoint { lsn: u64 },
}

/// The abstract value of a log record.
pub enum LogRecord {
    Put { key: Seq<char>, value: Seq<char> },
    Delete { key: Seq<char> },
    Checkpoint { lsn: u64 },
}

impl View for WalEntry {
    type V = LogRecord;

    open spec fn view(&self) -> LogRecord {
        match self {
            WalEntry::Put { key, value } => LogRecord::Put { key: key@, value: value@ },
            WalEntry::Delete { key } => LogRecord::Delete { key: key@ },
            WalEntry::Checkpoint { lsn } => LogRecord::Checkpoint { lsn: *lsn },
        }
    }
}

impl Clone for WalEntry {
    fn clone(&self) -> (copy: Self)
        ensures
            copy == *self,
    {
        match self {
            WalEntry::Put { key, value } => WalEntry::Put {
                key: key.clone(),
                value: value.clone(),
            },
            WalEntry::Delete { key } => WalEntry::Delete { key: key.clone() },
            WalEntry::Checkpoint { lsn } => WalEntry::Checkpoint { lsn: *lsn },
        }
    }
}

// ---------------------------------------------------------------------------
// Reading a log back
// ---------------------------------------------------------------------------

/// The record whose text is `text`, if there is any.
pub open spec fn line_record(text: Seq<u8>) -> Option<LogRecord> {
    if exists|r: LogRecord| record_text(r) == text {
        Some(choose|r: LogRecord| record_text(r) == text)
    } else {
        None
    }
}

/// The record of a line as a sequence: one record, or none where the line
/// is blank or corrupted.
pub open spec fn line_records(text: Seq<u8>) -> Seq<LogRecord> {
    match line_record(text) {
        Some(r) => seq![r],
        None => Seq::empty(),
    }
}

/// The offset at which the last line of `log` starts: behind the last end
/// of line, or at 0 where there is none.
pub open spec fn last_line_start(log: Seq<u8>) -> int
    decreases log.len(),
{
    if log.len() == 0 {
        0
    } else if log.last() == NEWLINE {
        log.len() as int
    } else {
        last_line_start(log.drop_last())
    }
}

/// The records that a log holds, in order. Lines are separated by ends of
/// line; a line that is the text of no record is skipped.
pub open spec fn replayed(log: Seq<u8>) -> Seq<LogRecord>
    decreases log.len(),
{
    let start = last_line_start(log);
    let last = line_records(log.subrange(start, log.len() as int));
    if 0 < start <= log.len() {
        replayed(log.take(start - 1)) + last
    } else {
        last
    }
}

/// The log that appending `records` one after the other leaves.
pub open spec fn log_of(records: Seq<LogRecord>) -> Seq<u8>
    decreases records.len(),
{
    if records.len() == 0 {
        Seq::empty()
    } else {
        log_of(records.drop_last()) + record_line(records.last())
    }
}

/// The last line starts where the last end of line says.
proof fn lemma_last_line_start(log: Seq<u8>, start: int)
    requires
        0 <= start <= log.len(),
        start == 0 || log[start - 1] == NEWLINE,
        forall|i: int| start <= i < log.len() ==> log[i] != NEWLINE,
    ensures
        last_line_start(log) == start,
    decreases log.len() - start,
{
    if start < log.len() {
        lemma_last_line_start(log.drop_last(), start);
    }
}

/// The text of a record is read back as that record.
pub proof fn lemma_line_record(r: LogRecord)
    ensures
        line_record(record_text(r)) == Some(r),
{
    let found = choose|x: LogRecord| record_text(x) == record_text(r);
    lemma_record_text_injective(found, r);
}

/// An empty line holds no record.
proof fn lemma_blank_line()
    ensures
        line_records(Seq::<u8>::empty()) == Seq::<LogRecord>::empty(),
{
    assert forall|r: LogRecord| record_text(r) != Seq::<u8>::empty() by {
        lemma_record_text_is_one_line(r);
        crate::log_format::lemma_record_text_is_not_empty(r);
    }
}

/// Durability of the log: after one more record was appended to a log that
/// ends at the end of a line, replay returns what it returned before and
/// then that record.
pub proof fn lemma_replay_appended(log: Seq<u8>, r: LogRecord)
    requires
        log.len() == 0 || log.last() == NEWLINE,
    ensures
        replayed(log + record_line(r)) == replayed(log).push(r),
{
    let text = record_text(r);
    let grown = log + record_line(r);
    let open = log + text;
    lemma_record_text_is_one_line(r);
    lemma_line_record(r);
    lemma_blank_line();
    // the grown log ends with an empty line
    assert(grown.last() == NEWLINE);
    assert(grown.subrange(grown.len() as int, grown.len() as int) =~= Seq::<u8>::empty());
    assert(grown.take(grown.len() - 1) =~= open);
    assert(replayed(grown) =~= replayed(open));
    // the line before it is the text of the record
    assert forall|i: int| log.len() <= i < open.len() implies open[i] != NEWLINE by {
        assert(open[i] == text[i - log.len()]);
    }
    lemma_last_line_start(open, log.len() as int);
    assert(open.subrange(log.len() as int, open.len() as int) =~= text);
    if log.len() == 0 {
        assert(log.subrange(0, 0) =~= Seq::<u8>::empty());
        assert(replayed(log) =~= Seq::<LogRecord>::empty());
        assert(replayed(open) =~= seq![r]);
    } else {
        assert(open.take(log.len() - 1) =~= log.take(log.len() - 1));
        assert(log.subrange(log.len() as int, log.len() as int) =~= Seq::<u8>::empty());
        assert(replayed(log) =~= replayed(log.take(log.len() - 1)));
        assert(replayed(open) =~= replayed(log).push(r));
    }
}

/// A line that is the text of no record is skipped: replay returns what
/// it returned before the line was appended.
pub proof fn lemma_replay_skips(log: Seq<u8>, line: Seq<u8>)
    requires
        log.len() == 0 || log.last() == NEWLINE,
        crate::log_format::one_line(line),
        line_record(line) is None,
    ensures
        replayed(log + line.push(NEWLINE)) == replayed(log),
{
    let grown = log + line.push(NEWLINE);
    let open = log + line;
    lemma_blank_line();
    assert(grown.last() == NEWLINE);
    assert(grown.subrange(grown.len() as int, grown.len() as int) =~= Seq::<u8>::empty());
    assert(grown.take(grown.len() - 1) =~= open);
    assert(replayed(grown) =~= replayed(open));
    assert forall|i: int| log.len() <= i < open.len() implies open[i] != NEWLINE by {
        assert(open[i] == line[i - log.len()]);
    }
    lemma_last_line_start(open, log.len() as int);
    assert(open.subrange(log.len() as int, open.len() as int) =~= line);
    if log.len() == 0 {
        assert(log.subrange(0, 0) =~= Seq::<u8>::empty());
        assert(replayed(log) =~= Seq::<LogRecord>::empty());
        assert(replayed(open) =~= Seq::<LogRecord>::empty());
    } else {
        assert(open.take(log.len() - 1) =~= log.take(log.len() - 1));
        assert(log.subrange(log.len() as int, log.len() as int) =~= Seq::<u8>::empty());
        assert(replayed(log) =~= replayed(log.take(log.len() - 1)));
        assert(replayed(open) =~= replayed(log));
    }
}

/// Replay returns exactly the records that were appended, in the order in
/// which they were appended.
pub proof fn lemma_replay_round_trip(records: Seq<LogRecord>)
    ensures
        replayed(log_of(records)) == records,
        log_of(records).len() == 0 || log_of(records).last() == NEWLINE,
    decreases records.len(),
{
    if records.len() == 0 {
        lemma_blank_line();
        assert(log_of(records).subrange(0, 0) =~= Seq::<u8>::empty());
        assert(replayed(log_of(records)) =~= records);
    } else {
        lemma_replay_round_trip(records.drop_last());
        lemma_replay_appended(log_of(records.drop_last()), records.last());
        assert(records.drop_last().push(records.last()) =~= records);
    }
}

// ---------------------------------------------------------------------------
// The log
// ---------------------------------------------------------------------------

/// The abstract state of the log: the records that are durable, and the
/// sequence number of the last of them.
pub struct LogState {
    pub entries: Seq<LogRecord>,
    pub lsn: u64,
}

/// The in-memory side of the write-ahead log. It mirrors the records that
/// the append blob holds and assigns sequence numbers; the caller moves the
/// bytes.
pub struct WAL {
    entries: Vec<WalEntry>,
    lsn: u64,
    connection_string: String,
    container_name: String,
    wal_blob_name: String,
}

/// The abstract values of a list of records.
pub open spec fn records_of(entries: Seq<WalEntry>) -> Seq<LogRecord> {
    entries.map_values(|e: WalEntry| e@)
}

impl View for WAL {
    type V = LogState;

    closed spec fn view(&self) -> LogState {
        LogState { entries: records_of(self.entries@), lsn: self.lsn }
    }
}

impl WAL {
    /// The representation invariant: the sequence number of the last record
    /// is the number of records.
    pub closed spec fn wf(&self) -> bool {
        self.lsn == self.entries@.len()
    }

    /// In every log the sequence number counts the records.
    pub proof fn lemma_lsn_counts(&self)
        requires
            self.wf(),
        ensures
            self@.lsn == self@.entries.len(),
    {
    }

    /// Creates the log kept in blob `wal_blob_name` of container
    /// `container_name`. It holds no record yet.
    pub fn new(connection_string: &str, container_name: &str, wal_blob_name: &str) -> (wal: WAL)
        ensures
            wal.wf(),
            wal@.entries == Seq::<LogRecord>::empty(),
            wal@.lsn == 0,
            wal.location() == (connection_string@, container_name@, wal_blob_name@),
    {
        let wal = WAL {
            entries: Vec::new(),
            lsn: 0,
            connection_string: connection_string.to_owned(),
            container_name: container_name.to_owned(),
            wal_blob_name: wal_blob_name.to_owned(),
        };
        proof {
            assert(wal@.entries =~= Seq::<LogRecord>::empty());
        }
        wal
    }

    /// Where the log is kept: connection string, container and blob.
    pub closed spec fn location(&self) -> (Seq<char>, Seq<char>, Seq<char>) {
        (self.connection_string@, self.container_name@, self.wal_blob_name@)
    }

    /// The connection string of the storage account that holds the log.
    pub fn connection_string(&self) -> (s: &str)
        ensures
            s@ == self.location().0,
    {
        self.connection_string.as_str()
    }

    /// The container that holds the log.
    pub fn container_name(&self) -> (s: &str)
        ensures
            s@ == self.location().1,
    {
        self.container_name.as_str()
    }

    /// The append blob that holds the log.
    pub fn wal_blob_name(&self) -> (s: &str)
        ensures
            s@ == self.location().2,
    {
        self.wal_blob_name.as_str()
    }

    /// How long to wait before an append that has failed `failures` times
    /// is tried again, in milliseconds; `None` when it is not tried again.
    ///
    /// A failed append is retried `WAL_RETRIES` times. The pause grows by
    /// `WAL_BACKOFF_MS` with every failure.
    pub fn retry_delay_ms(failures: u32) -> (delay: Option<u64>)
        ensures
            delay == if 1 <= failures <= WAL_RETRIES {
                Some((WAL_BACKOFF_MS * failures) as u64)
            } else {
                None
            },
    {
        if 1 <= failures && failures <= WAL_RETRIES {
            Some(WAL_BACKOFF_MS * (failures as u64))
        } else {
            None
        }
    }

    /// Records that `entry` has become durable: it gets the next sequence
    /// number, which is returned.
    ///
    /// The caller has appended `encode_record(&entry)` to the append blob
    /// before. An append that failed is not recorded, so it takes no
    /// sequence number.
    pub fn append_entry(&mut self, entry: WalEntry) -> (lsn: u64)
        requires
            old(self).wf(),
        ensures
            final(self).wf(),
            final(self).location() == old(self).location(),
            final(self)@.entries == old(self)@.entries.push(entry@),
            lsn == old(self)@.lsn + 1,
            final(self)@.lsn == lsn,
    {
        self.entries.push(entry);
        let count = self.entries.len();
        self.lsn = count as u64;
        proof {
            assert(self@.entries =~= old(self)@.entries.push(entry@));
        }
        self.lsn
    }

    /// The record that a checkpoint appends: it carries the current
    /// sequence number.
    pub fn checkpoint_record(&self) -> (entry: WalEntry)
        ensures
            entry@ == (LogRecord::Checkpoint { lsn: self@.lsn }),
    {
        WalEntry::Checkpoint { lsn: self.lsn }
    }

    /// Records that a checkpoint record has become durable. Returns the
    /// sequence number that the record carries: that of the last record
    /// before it.
    pub fn checkpoint(&mut self) -> (lsn: u64)
        requires
            old(self).wf(),
        ensures
            final(self).wf(),
            final(self).location() == old(self).location(),
            lsn == old(self)@.lsn,
            final(self)@.entries == old(self)@.entries.push(LogRecord::Checkpoint { lsn }),
            final(self)@.lsn == lsn + 1,
    {
        let lsn = self.lsn;
        let entry = self.checkpoint_record();
        self.append_entry(entry);
        lsn
    }

    /// Records that the append blob was deleted and created anew: the log
    /// is empty and sequence numbers start over.
    pub fn clear(&mut self)
        ensures
            final(self).wf(),
            final(self).location() == old(self).location(),
            final(self)@.entries == Seq::<LogRecord>::empty(),
            final(self)@.lsn == 0,
    {
        self.entries.clear();
        self.lsn = 0;
        proof {
            assert(self@.entries =~= Seq::<LogRecord>::empty());
        }
    }

    /// Reads back the whole content of the append blob. The log then
    /// mirrors the records found, which are returned in order, and the
    /// sequence number is their count.
    ///
    /// Blank lines and corrupted lines are skipped.
    pub fn replay(&mut self, log: &[u8]) -> (entries: Vec<WalEntry>)
        ensures
            final(self).wf(),
            final(self).location() == old(self).location(),
            final(self)@.entries == replayed(log@),
            final(self)@.lsn == replayed(log@).len(),
            records_of(entries@) == replayed(log@),
    {
        let found = read_log(log);
        let copy = copy_entries(&found);
        self.entries = found;
        self.lsn = self.entries.len() as u64;
        copy
    }

    /// The sequence number of the last durable record; 0 for an empty log.
    pub fn current_lsn(&self) -> (lsn: u64)
        ensures
            lsn == self@.lsn,
    {
        self.lsn
    }

    /// The number of durable records.
    pub fn entry_count(&self) -> (n: usize)
        ensures
            n == self@.entries.len(),
    {
        self.entries.len()
    }

    /// A copy of the durable records, in order.
    pub fn get_all_entries(&self) -> (entries: Vec<WalEntry>)
        ensures
            records_of(entries@) == self@.entries,
    {
        copy_entries(&self.entries)
    }
}

/// Copies a list of records.
fn copy_entries(entries: &Vec<WalEntry>) -> (copy: Vec<WalEntry>)
    ensures
        copy@ == entries@,
{
    let mut copy: Vec<WalEntry> = Vec::with_capacity(entries.len());
    let mut i: usize = 0;
    while i < entries.len()
        invariant
            i <= entries@.len(),
            copy@ == entries@.take(i as int),
        decreases entries@.len() - i,
    {
        copy.push(entries[i].clone());
        proof {
            assert(copy@ =~= entries@.take(i + 1));
        }
        i += 1;
    }
    proof {
        assert(entries@.take(entries@.len() as int) =~= entries@);
    }
    copy
}

/// Decodes one line and appends its record, if it is one, to `found`.
fn read_line(found: &mut Vec<WalEntry>, text: &[u8])
    ensures
        records_of(final(found)@) == records_of(old(found)@) + line_records(text@),
{
    match decode_record(text) {
        Some(entry) => {
            proof {
                lemma_line_record(entry@);
            }
            found.push(entry);
            proof {
                assert(records_of(found@) =~= records_of(old(found)@) + line_records(text@));
            }
        },
        None => {
            proof {
                assert(records_of(found@) =~= records_of(old(found)@) + line_records(text@));
            }
        },
    }
}

/// Reads the records of a log, line by line.
fn read_log(log: &[u8]) -> (found: Vec<WalEntry>)
    ensures
        records_of(found@) == replayed(log@),
{
    let mut found: Vec<WalEntry> = Vec::new();
    let mut start: usize = 0;
    let mut at: usize = 0;
    proof {
        assert(records_of(found@) =~= Seq::<LogRecord>::empty());
    }
    while at < log.len()
        invariant
            start <= at <= log@.len(),
            start == 0 || log@[start - 1] == NEWLINE,
            forall|i: int| start <= i < at ==> log@[i] != NEWLINE,
            records_of(found@) == if start == 0 {
                Seq::<LogRecord>::empty()
            } else {
                replayed(log@.take(start - 1))
            },
        decreases log@.len() - at,
    {
        if log[at] == NEWLINE {
            let ghost prefix = log@.take(at as int);
            proof {
                lemma_last_line_start(prefix, start as int);
                assert(prefix.subrange(start as int, prefix.len() as int) =~= log@.subrange(
                    start as int,
                    at as int,
                ));
                if start > 0 {
                    assert(prefix.take(start - 1) =~= log@.take(start - 1));
                }
            }
            read_line(&mut found, slice_subrange(log, start, at));
            start = at + 1;
        }
        at += 1;
    }
    proof {
        lemma_last_line_start(log@, start as int);
    }
    read_line(&mut found, slice_subrange(log, start, at));
    found
}

} // verus!
