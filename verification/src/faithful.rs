//! The engine on a faithful device.
//!
//! A faithful device does what it is asked: an append extends the log, a
//! page that was written is read back as it was written, and nothing fails.
//! On such a device the engine keeps a map from keys to values: this module
//! says so, operation by operation, and derives the laws of the store from it.

use vstd::prelude::*;
use vstd::utf8::encode_utf8;
use crate::buffer_pool::{
    lemma_admission, lemma_cleaned_victim_leaves, lemma_unpinned_has_victim, lemma_victim,
    lemma_with_page_well_formed, CachedPage, Placement, PoolState,
};
use crate::error::Fault;
use crate::kvstore::{
    stored_value, Demand, Headway, Job, Reply, Sequel, Series, Signal, Stage, StoreState,
};
use crate::log_format::{record_line, NEWLINE};
use crate::page::{fits, lemma_record_round_trip, record_page, zeros, PAGE_SIZE};
use crate::wal::{lemma_replay_appended, replayed, LogRecord, LogState};

verus! {

/// What a device holds: the pages of the page store and the bytes of the log.
pub struct Device {
    pub pages: Map<u64, Seq<u8>>,
    pub log: Seq<u8>,
}

impl Device {
    /// What a faithful device answers to `demand`, and what it holds then.
    pub open spec fn serve(self, demand: Demand) -> (Device, Signal) {
        match demand {
            Demand::AppendLog { line, delay_ms } => (
                Device { log: self.log + line, ..self },
                Signal::LogAppended(Ok(())),
            ),
            Demand::ReadLog => (self, Signal::LogRead(Ok(self.log))),
            Demand::ResetLog => (Device { log: Seq::empty(), ..self }, Signal::LogReset(Ok(()))),
            Demand::ReadPage { page_id } => (
                self,
                Signal::PageRead(
                    if self.pages.contains_key(page_id) {
                        Ok(self.pages[page_id])
                    } else {
                        Err(Fault::PageNotFound { page_id })
                    },
                ),
            ),
            Demand::WritePage { page_id, data } => (
                Device { pages: self.pages.insert(page_id, data), ..self },
                Signal::PageWritten(Ok(())),
            ),
            Demand::FlushStore => (self, Signal::StoreFlushed(Ok(()))),
            Demand::Done(reply) => (self, Signal::StoreFlushed(Ok(()))),
        }
    }
}

/// Runs an operation that has asked for `demand` on a faithful device: the
/// device serves, the engine resumes, at most `steps` times. Returns the
/// engine, the device and the last demand, which is `Done` where the
/// operation has ended.
#[verifier::opaque]
pub open spec fn run(state: StoreState, device: Device, demand: Demand, steps: nat) -> (
    StoreState,
    Device,
    Demand,
)
    decreases steps,
{
    if steps == 0 || demand is Done {
        (state, device, demand)
    } else {
        let (served, signal) = device.serve(demand);
        let (resumed, next) = state.resume(signal);
        run(resumed, served, next, (steps - 1) as nat)
    }
}

/// The value that the engine holds for `key`: the one in the current image
/// of the page of the key.
pub open spec fn value_at(state: StoreState, device: Device, key: Seq<char>) -> Option<Seq<char>> {
    match state.pool.image(device.pages, state.index[key]) {
        Some(page) => stored_value(page, key),
        None => None,
    }
}

/// The map that the engine holds: the keys of the index with their values.
pub open spec fn contents(state: StoreState, device: Device) -> Map<Seq<char>, Seq<char>> {
    Map::new(
        |key: Seq<char>| state.index.contains_key(key),
        |key: Seq<char>| value_at(state, device, key).unwrap(),
    )
}

/// The engine is at rest and agrees with the device:
/// every key of the index has a page of its own whose current image is a
/// valid record of the key; a page that is clean in the pool is the same in
/// the page store; no page is pinned; and the log of the engine is what a
/// replay of the device's log yields.
pub open spec fn consistent(state: StoreState, device: Device) -> bool {
    &&& state.well_formed()
    &&& state.stage is Idle
    &&& state.pool.capacity > 0
    &&& state.pool.unpinned()
    &&& state.pool.backed_by(device.pages)
    &&& forall|a: Seq<char>, b: Seq<char>|
        #![trigger state.index[a], state.index[b]]
        state.index.contains_key(a) && state.index.contains_key(b) && state.index[a]
            == state.index[b] ==> a == b
    &&& forall|key: Seq<char>| #[trigger]
        state.index.contains_key(key) ==> state.index[key] < state.next_page_id
    &&& forall|key: Seq<char>| #[trigger]
        state.index.contains_key(key) ==> value_at(state, device, key) is Some
    &&& state.log.entries == replayed(device.log)
    &&& (device.log.len() == 0 || device.log.last() == NEWLINE)
}

/// The pool after the page of a job was installed, a dirty page that stood
/// in the way having been written back and marked clean.
pub open spec fn pool_after(pool: PoolState, job: Job) -> PoolState {
    let ready = if pool.placement(job.page_id) is WriteBack {
        pool.cleaned(pool.victim())
    } else {
        pool
    };
    let image = if job.dirty {
        ready.put_image(job.page_id, job.page)
    } else {
        ready.load_image(job.page_id, job.page)
    };
    ready.after_admission(job.page_id, image)
}

/// The page store after the page of a job was installed.
pub open spec fn pages_after(pool: PoolState, store: Map<u64, Seq<u8>>, job: Job) -> Map<
    u64,
    Seq<u8>,
> {
    if pool.placement(job.page_id) is WriteBack {
        store.insert(pool.victim(), pool.pages[pool.victim()].data)
    } else {
        store
    }
}

/// Eviction correctness: installing a page on a faithful device loses
/// nothing. The pool stays well formed, unpinned and backed by the page
/// store; the page has the image it was given; and every other page has the
/// current image it had, in the pool or in the page store.
#[verifier::rlimit(50)]
pub proof fn lemma_install_keeps_images(pool: PoolState, store: Map<u64, Seq<u8>>, job: Job)
    requires
        pool.well_formed(),
        pool.capacity > 0,
        pool.unpinned(),
        pool.backed_by(store),
        job.page.len() == PAGE_SIZE,
        !job.dirty ==> !pool.resident(job.page_id) && store.contains_key(job.page_id)
            && store[job.page_id] == job.page,
    ensures
        !(pool.placement(job.page_id) is Exhausted),
        pool_after(pool, job).well_formed(),
        pool_after(pool, job).capacity == pool.capacity,
        pool_after(pool, job).unpinned(),
        pool_after(pool, job).backed_by(pages_after(pool, store, job)),
        pool_after(pool, job).resident(job.page_id),
        pool_after(pool, job).pages[job.page_id].data == job.page,
        forall|id: u64|
            id != job.page_id ==> pool_after(pool, job).image(pages_after(pool, store, job), id)
                == pool.image(store, id),
{
    let id = job.page_id;
    if !pool.resident(id) && !pool.has_room() {
        lemma_unpinned_has_victim(pool);
    }
    let ready = if pool.placement(id) is WriteBack {
        pool.cleaned(pool.victim())
    } else {
        pool
    };
    let pages = pages_after(pool, store, job);
    if pool.placement(id) is WriteBack {
        lemma_cleaned_victim_leaves(pool, id);
        lemma_victim(pool, 0);
    }
    assert(ready.well_formed());
    assert(ready.unpinned());
    assert(ready.backed_by(pages));
    assert(forall|other: u64| ready.image(pages, other) == pool.image(store, other));
    assert(ready.resident(id) == pool.resident(id));
    let image = if job.dirty {
        ready.put_image(id, job.page)
    } else {
        ready.load_image(id, job.page)
    };
    lemma_admission(ready, id, image);
    let after = ready.after_admission(id, image);
    assert(after == pool_after(pool, job));
    assert(after.capacity == pool.capacity) by {
        assert(ready.capacity == pool.capacity);
    }
    assert forall|other: u64| other != id implies after.image(pages, other) == pool.image(
        store,
        other,
    ) by {
        if ready.placement(id) == Placement::Evict(other) {
            assert(ready.pages.contains_key(other));
        }
    }
}

/// What installing the page of `job` comes to on a faithful device: the
/// engine asks for a write-back at most once and then finishes.
#[verifier::rlimit(50)]
pub proof fn lemma_install_runs(state: StoreState, device: Device, job: Job, steps: nat)
    requires
        state.well_formed(),
        state.stage is Idle,
        state.series is Single,
        state.pool.capacity > 0,
        state.pool.unpinned(),
        job.page.len() == PAGE_SIZE,
        steps >= 1,
    ensures
        ({
            let (installed, headway) = state.install(job);
            let (begun, demand) = installed.settle(headway);
            let ended = StoreState { pool: pool_after(state.pool, job), ..state }.finish_install(
                job,
            );
            run(begun, device, demand, steps) == (
                StoreState { stage: Stage::Idle, series: Series::Single, ..ended.0 },
                Device { pages: pages_after(state.pool, device.pages, job), ..device },
                Demand::Done(ended.1->Finished_0),
            )
        }),
{
    let id = job.page_id;
    if !state.pool.resident(id) && !state.pool.has_room() {
        lemma_unpinned_has_victim(state.pool);
    }
    let (installed, headway) = state.install(job);
    let (begun, demand) = installed.settle(headway);
    reveal_with_fuel(run, 3);
    if state.pool.placement(id) is WriteBack {
        let victim = state.pool.victim();
        lemma_cleaned_victim_leaves(state.pool, id);
        let (served, signal) = device.serve(demand);
        let (resumed, next) = begun.resume(signal);
        let idle = begun.waiting(Stage::Idle);
        assert(idle == state);
        let (after, progress) = idle.on_written_back(job, victim, Ok(()));
        assert(resumed == after.settle(progress).0);
        assert(next is Done);
    } else {
        assert(demand is Done);
    }
}

/// A key's own value is what its page holds once the page was written for it.
proof fn lemma_written_value(key: Seq<char>, value: Seq<char>, lsn: u64)
    requires
        fits(encode_utf8(key), encode_utf8(value)),
    ensures
        stored_value(record_page(encode_utf8(key), encode_utf8(value), lsn), key) == Some(value),
{
    lemma_record_round_trip(encode_utf8(key), encode_utf8(value), lsn);
    vstd::utf8::encode_utf8_valid_utf8(value);
    vstd::utf8::encode_utf8_decode_utf8(value);
}

/// `set` on a faithful device: the operation ends with `Stored` after the
/// record was appended to the log, and the engine then holds the map it
/// held before with `key` set to `value`.
#[verifier::rlimit(50)]
pub proof fn lemma_set(state: StoreState, device: Device, key: Seq<char>, value: Seq<char>)
    requires
        consistent(state, device),
        fits(encode_utf8(key), encode_utf8(value)),
        state.index.contains_key(key) || state.next_page_id < u64::MAX,
        state.log.lsn < u64::MAX,
    ensures
        ({
            let (begun, demand) = state.set(key, value);
            let (after, served, last) = run(begun, device, demand, 2);
            &&& last == Demand::Done(Reply::Stored)
            &&& consistent(after, served)
            &&& contents(after, served) == contents(state, device).insert(key, value)
            &&& served.log == device.log + record_line(LogRecord::Put { key, value })
            &&& after.log.lsn == state.log.lsn + 1
            &&& state.next_page_id <= after.next_page_id <= state.next_page_id + 1
        }),
{
    let entry = LogRecord::Put { key, value };
    let (begun, demand) = state.set(key, value);
    let (after, served, last) = run(begun, device, demand, 2);
    reveal_with_fuel(run, 3);
    let lsn = (state.log.lsn + 1) as u64;
    let appended = Device { log: device.log + record_line(entry), ..device };
    let logged = StoreState {
        log: LogState { entries: state.log.entries.push(entry), lsn },
        ..state
    };
    let job = Job {
        page_id: state.target_page(key),
        page: record_page(encode_utf8(key), encode_utf8(value), lsn),
        dirty: true,
        sequel: Sequel::Index { key },
    };
    lemma_record_round_trip(encode_utf8(key), encode_utf8(value), lsn);
    assert(begun.waiting(Stage::Idle) == state);
    assert(device.serve(demand) == (appended, Signal::LogAppended(Ok(()))));
    lemma_install_runs(logged, appended, job, 1);
    lemma_install_keeps_images(state.pool, device.pages, job);
    lemma_replay_appended(device.log, entry);
    lemma_written_value(key, value, lsn);
    let pool = pool_after(state.pool, job);
    let pages = pages_after(state.pool, device.pages, job);
    assert(after.pool == pool);
    assert(served.pages == pages);
    assert(after.index == state.index.insert(key, job.page_id));
    assert forall|other: Seq<char>| #[trigger]
        after.index.contains_key(other) implies value_at(after, served, other) == if other == key {
        Some(value)
    } else {
        value_at(state, device, other)
    } by {
        if other != key {
            assert(state.index.contains_key(other));
            assert(state.index[other] != job.page_id);
        }
    }
    assert(contents(after, served) =~= contents(state, device).insert(key, value));
}

/// `get` on a faithful device: the operation ends with the value that the
/// engine holds for `key`, or with none where the index does not hold the
/// key, and the engine holds the map it held before.
#[verifier::rlimit(50)]
pub proof fn lemma_get(state: StoreState, device: Device, key: Seq<char>)
    requires
        consistent(state, device),
    ensures
        ({
            let (begun, demand) = state.get(key);
            let (after, served, last) = run(begun, device, demand, 2);
            &&& last == Demand::Done(
                Reply::Value(
                    if state.index.contains_key(key) {
                        Some(contents(state, device)[key])
                    } else {
                        None
                    },
                ),
            )
            &&& consistent(after, served)
            &&& contents(after, served) == contents(state, device)
            &&& served.log == device.log
            &&& after.log == state.log
        }),
{
    let (begun, demand) = state.get(key);
    let (after, served, last) = run(begun, device, demand, 2);
    reveal_with_fuel(run, 3);
    if state.index.contains_key(key) {
        let page_id = state.index[key];
        if state.pool.resident(page_id) {
            crate::buffer_pool::lemma_touch_well_formed(state.pool, page_id);
            assert(contents(after, served) =~= contents(state, device));
        } else {
            let data = device.pages[page_id];
            assert(value_at(state, device, key) is Some);
            let job = Job { page_id, page: data, dirty: false, sequel: Sequel::Decode { key } };
            assert(begun.waiting(Stage::Idle) == state);
            lemma_install_runs(state, device, job, 1);
            lemma_install_keeps_images(state.pool, device.pages, job);
            assert forall|other: Seq<char>| #[trigger]
                after.index.contains_key(other) implies value_at(after, served, other)
                == value_at(state, device, other) by {
                if state.index[other] == page_id {
                    assert(other == key);
                }
            }
            assert(contents(after, served) =~= contents(state, device));
        }
    }
}

/// `delete` on a faithful device: the operation ends with `Deleted`, which
/// tells whether the index held the key, and the engine then holds the map
/// it held before without `key`. Nothing is logged for a key that the index
/// does not hold.
#[verifier::rlimit(50)]
pub proof fn lemma_delete(state: StoreState, device: Device, key: Seq<char>)
    requires
        consistent(state, device),
        state.log.lsn < u64::MAX,
    ensures
        ({
            let (begun, demand) = state.delete(key);
            let (after, served, last) = run(begun, device, demand, 2);
            &&& last == Demand::Done(Reply::Deleted(state.index.contains_key(key)))
            &&& consistent(after, served)
            &&& contents(after, served) == contents(state, device).remove(key)
            &&& served.log == if state.index.contains_key(key) {
                device.log + record_line(LogRecord::Delete { key })
            } else {
                device.log
            }
            &&& after.log.lsn == if state.index.contains_key(key) {
                state.log.lsn + 1
            } else {
                state.log.lsn as int
            }
            &&& after.next_page_id == state.next_page_id
        }),
{
    let entry = LogRecord::Delete { key };
    let (begun, demand) = state.delete(key);
    let (after, served, last) = run(begun, device, demand, 2);
    reveal_with_fuel(run, 3);
    if state.index.contains_key(key) {
        let lsn = (state.log.lsn + 1) as u64;
        let appended = Device { log: device.log + record_line(entry), ..device };
        let logged = StoreState {
            index: state.index.remove(key),
            log: LogState { entries: state.log.entries.push(entry), lsn },
            ..state
        };
        let job = Job {
            page_id: state.index[key],
            page: zeros(PAGE_SIZE as nat),
            dirty: true,
            sequel: Sequel::Deleted,
        };
        assert(begun.waiting(Stage::Idle) == state);
        assert(device.serve(demand) == (appended, Signal::LogAppended(Ok(()))));
        lemma_install_runs(logged, appended, job, 1);
        lemma_install_keeps_images(state.pool, device.pages, job);
        lemma_replay_appended(device.log, entry);
        assert(after.index == state.index.remove(key));
        assert forall|other: Seq<char>| #[trigger]
            after.index.contains_key(other) implies value_at(after, served, other) == value_at(
            state,
            device,
            other,
        ) by {
            assert(state.index.contains_key(other));
            assert(state.index[other] != job.page_id);
        }
        assert(contents(after, served) =~= contents(state, device).remove(key));
    } else {
        assert(contents(after, served) =~= contents(state, device).remove(key));
    }
}

/// Round trip: a `set` followed by a `get` of the same key returns the
/// value that was set.
#[verifier::rlimit(50)]
pub proof fn lemma_set_then_get(state: StoreState, device: Device, key: Seq<char>, value: Seq<char>)
    requires
        consistent(state, device),
        fits(encode_utf8(key), encode_utf8(value)),
        state.index.contains_key(key) || state.next_page_id < u64::MAX,
        state.log.lsn < u64::MAX,
    ensures
        ({
            let (begun, demand) = state.set(key, value);
            let (stored, written, _) = run(begun, device, demand, 2);
            let (begun, demand) = stored.get(key);
            run(begun, written, demand, 2).2 == Demand::Done(Reply::Value(Some(value)))
        }),
{
    lemma_set(state, device, key, value);
    let (begun, demand) = state.set(key, value);
    let (stored, written, _) = run(begun, device, demand, 2);
    lemma_get(stored, written, key);
    assert(contents(stored, written).contains_key(key));
    assert(contents(stored, written)[key] == value);
    assert(stored.index.contains_key(key));
}

/// Idempotence: setting a key to a value twice leaves the engine with the
/// map that setting it once leaves, so the key has the value and every
/// other key has the value it had.
#[verifier::rlimit(50)]
pub proof fn lemma_set_twice(state: StoreState, device: Device, key: Seq<char>, value: Seq<char>)
    requires
        consistent(state, device),
        fits(encode_utf8(key), encode_utf8(value)),
        state.index.contains_key(key) || state.next_page_id < u64::MAX,
        state.log.lsn + 1 < u64::MAX,
    ensures
        ({
            let (begun, demand) = state.set(key, value);
            let (once, written, _) = run(begun, device, demand, 2);
            let (begun, demand) = once.set(key, value);
            let (twice, rewritten, last) = run(begun, written, demand, 2);
            &&& last == Demand::Done(Reply::Stored)
            &&& contents(twice, rewritten) == contents(once, written)
            &&& contents(twice, rewritten) == contents(state, device).insert(key, value)
        }),
{
    lemma_set(state, device, key, value);
    let (begun, demand) = state.set(key, value);
    let (once, written, _) = run(begun, device, demand, 2);
    assert(once.index.contains_key(key)) by {
        assert(contents(once, written).contains_key(key));
    }
    lemma_set(once, written, key, value);
    assert(contents(state, device).insert(key, value).insert(key, value) =~= contents(
        state,
        device,
    ).insert(key, value));
}

/// Deleting a key twice: the first `delete` tells whether the key was
/// there, the second finds nothing, and a `get` after either finds nothing.
#[verifier::rlimit(50)]
pub proof fn lemma_delete_twice(state: StoreState, device: Device, key: Seq<char>)
    requires
        consistent(state, device),
        state.log.lsn + 1 < u64::MAX,
    ensures
        ({
            let (begun, demand) = state.delete(key);
            let (once, written, first) = run(begun, device, demand, 2);
            let (begun, demand) = once.delete(key);
            let (twice, rewritten, second) = run(begun, written, demand, 2);
            let (begun, demand) = twice.get(key);
            &&& first == Demand::Done(Reply::Deleted(state.index.contains_key(key)))
            &&& second == Demand::Done(Reply::Deleted(false))
            &&& run(begun, rewritten, demand, 2).2 == Demand::Done(Reply::Value(None))
        }),
{
    lemma_delete(state, device, key);
    let (begun, demand) = state.delete(key);
    let (once, written, first) = run(begun, device, demand, 2);
    assert(!once.index.contains_key(key)) by {
        assert(!contents(once, written).contains_key(key));
    }
    lemma_delete(once, written, key);
    let (begun, demand) = once.delete(key);
    let (twice, rewritten, second) = run(begun, written, demand, 2);
    assert(!twice.index.contains_key(key)) by {
        assert(!contents(twice, rewritten).contains_key(key));
    }
    lemma_get(twice, rewritten, key);
}

// ---------------------------------------------------------------------------
// Recovery
// ---------------------------------------------------------------------------

/// The map that a list of log records describes: each record that sets a
/// key, and fits into a page, gives the key its value; each record that
/// deletes a key takes the key out; a checkpoint record changes nothing.
pub open spec fn applied(records: Seq<LogRecord>) -> Map<Seq<char>, Seq<char>>
    decreases records.len(),
{
    if records.len() == 0 {
        Map::empty()
    } else {
        let before = applied(records.drop_last());
        match records.last() {
            LogRecord::Put { key, value } => {
                if fits(encode_utf8(key), encode_utf8(value)) {
                    before.insert(key, value)
                } else {
                    before
                }
            },
            LogRecord::Delete { key } => before.remove(key),
            LogRecord::Checkpoint { lsn } => before,
        }
    }
}

/// The engine is replaying `entries` on a device and has done so up to,
/// and without, the record at `pos`.
#[verifier::opaque]
pub open spec fn replaying(state: StoreState, device: Device, entries: Seq<LogRecord>, pos: nat) -> bool {
    &&& state.pool.well_formed()
    &&& state.index.dom().finite()
    &&& state.pool.capacity > 0
    &&& state.pool.unpinned()
    &&& state.pool.backed_by(device.pages)
    &&& state.stage is Idle
    &&& state.series == (Series::Replay { entries, pos })
    &&& pos < entries.len() < u64::MAX
    &&& state.log == (LogState { entries, lsn: entries.len() as u64 })
    &&& state.next_page_id <= pos + 1
    &&& forall|a: Seq<char>, b: Seq<char>|
        #![trigger state.index[a], state.index[b]]
        state.index.contains_key(a) && state.index.contains_key(b) && state.index[a]
            == state.index[b] ==> a == b
    &&& forall|key: Seq<char>| #[trigger]
        state.index.contains_key(key) ==> state.index[key] < state.next_page_id
    &&& forall|key: Seq<char>| #[trigger]
        state.index.contains_key(key) ==> value_at(state, device, key) is Some
}

/// The engine has applied the records up to and with the one at `pos`
/// again and is about to go on.
#[verifier::opaque]
pub open spec fn rested(state: StoreState, device: Device, entries: Seq<LogRecord>, pos: nat) -> bool {
    &&& state.pool.well_formed()
    &&& state.index.dom().finite()
    &&& state.pool.capacity > 0
    &&& state.pool.unpinned()
    &&& state.pool.backed_by(device.pages)
    &&& state.stage is Idle
    &&& state.series == (Series::Replay { entries, pos })
    &&& pos < entries.len() < u64::MAX
    &&& state.log == (LogState { entries, lsn: entries.len() as u64 })
    &&& state.next_page_id <= pos + 2
    &&& forall|a: Seq<char>, b: Seq<char>|
        #![trigger state.index[a], state.index[b]]
        state.index.contains_key(a) && state.index.contains_key(b) && state.index[a]
            == state.index[b] ==> a == b
    &&& forall|key: Seq<char>| #[trigger]
        state.index.contains_key(key) ==> state.index[key] < state.next_page_id
    &&& forall|key: Seq<char>| #[trigger]
        state.index.contains_key(key) ==> value_at(state, device, key) is Some
    &&& contents(state, device) == applied(entries.take(pos + 1 as int))
}

/// The engine and the device after `entry` was applied again, the
/// write-back that this may need included.
pub open spec fn redone(state: StoreState, device: Device, entry: LogRecord, lsn: u64) -> (
    StoreState,
    Device,
) {
    let (after, headway) = state.redo(entry, lsn);
    match after.stage {
        Stage::Installing { job, victim } => (
            after.waiting(Stage::Idle).on_written_back(job, victim, Ok(())).0,
            Device {
                pages: device.pages.insert(victim, state.pool.pages[victim].data),
                ..device
            },
        ),
        _ => (after, device),
    }
}

/// Applying `entry` again ends at once without a failure, or asks for one
/// write-back and ends when that is done.
pub open spec fn redo_ends(state: StoreState, entry: LogRecord, lsn: u64) -> bool {
    let (after, headway) = state.redo(entry, lsn);
    match headway {
        Headway::Finished(reply) => !(reply is Failed) && after.stage is Idle,
        Headway::Wait(demand) => {
            &&& after.stage matches Stage::Installing { job, victim }
            &&& demand == (Demand::WritePage { page_id: victim, data: state.pool.pages[victim].data })
            &&& after.series == state.series
            &&& after.waiting(Stage::Idle).on_written_back(job, victim, Ok(())).1
                == Headway::Finished(Reply::Stored)
        },
    }
}

/// Applying one record again, with the write-back that it may need, leaves
/// the engine with the map that the records up to and with this one describe.
#[verifier::rlimit(50)]
proof fn lemma_redo_step(state: StoreState, device: Device, entries: Seq<LogRecord>, pos: nat)
    requires
        replaying(state, device, entries, pos),
        contents(state, device) == applied(entries.take(pos as int)),
    ensures
        redo_ends(state, entries[pos as int], (pos + 1) as u64),
        rested(
            redone(state, device, entries[pos as int], (pos + 1) as u64).0,
            redone(state, device, entries[pos as int], (pos + 1) as u64).1,
            entries,
            pos,
        ),
{
    reveal(replaying);
    reveal(rested);
    let entry = entries[pos as int];
    let lsn = (pos + 1) as u64;
    let (after, headway) = state.redo(entry, lsn);
    let done = entries.take(pos + 1 as int);
    assert(done.drop_last() =~= entries.take(pos as int));
    assert(done.last() == entry);
    match entry {
        LogRecord::Put { key, value } => {
            if fits(encode_utf8(key), encode_utf8(value)) {
                let job = put_job(state, key, value, lsn);
                lemma_record_round_trip(encode_utf8(key), encode_utf8(value), lsn);
                lemma_install_keeps_images(state.pool, device.pages, job);
                if state.pool.placement(job.page_id) is WriteBack {
                    lemma_cleaned_victim_leaves(state.pool, job.page_id);
                    assert(after.waiting(Stage::Idle) == state);
                }
                let (ended, stored) = redone(state, device, entry, lsn);
                assert(ended == installed(state, job));
                assert(stored == written(state, device, job));
                lemma_put_rests(state, device, entries, pos, key, value);
            } else {
                assert(contents(after, device) =~= applied(done));
            }
        },
        LogRecord::Delete { key } => {
            assert forall|other: Seq<char>| #[trigger]
                after.index.contains_key(other) implies value_at(after, device, other)
                == value_at(state, device, other) by {}
            assert(contents(after, device) =~= applied(done));
        },
        LogRecord::Checkpoint { lsn } => {
            assert(contents(after, device) =~= applied(done));
        },
    }
}

/// The job that installs the page of a record that sets `key` to `value`.
pub open spec fn put_job(state: StoreState, key: Seq<char>, value: Seq<char>, lsn: u64) -> Job {
    Job {
        page_id: state.target_page(key),
        page: record_page(encode_utf8(key), encode_utf8(value), lsn),
        dirty: true,
        sequel: Sequel::Index { key },
    }
}

/// The engine after the page of `job` was installed and what follows was done.
pub open spec fn installed(state: StoreState, job: Job) -> StoreState {
    StoreState { pool: pool_after(state.pool, job), ..state }.finish_install(job).0
}

/// The device after the page of `job` was installed.
pub open spec fn written(state: StoreState, device: Device, job: Job) -> Device {
    Device { pages: pages_after(state.pool, device.pages, job), ..device }
}

/// After the page of a record that sets a key was installed, the engine
/// holds the map of before with the key set.
#[verifier::rlimit(50)]
proof fn lemma_put_rests(
    state: StoreState,
    device: Device,
    entries: Seq<LogRecord>,
    pos: nat,
    key: Seq<char>,
    value: Seq<char>,
)
    requires
        replaying(state, device, entries, pos),
        contents(state, device) == applied(entries.take(pos as int)),
        entries[pos as int] == (LogRecord::Put { key, value }),
        fits(encode_utf8(key), encode_utf8(value)),
    ensures
        rested(
            installed(state, put_job(state, key, value, (pos + 1) as u64)),
            written(state, device, put_job(state, key, value, (pos + 1) as u64)),
            entries,
            pos,
        ),
{
    reveal(replaying);
    reveal(rested);
    let job = put_job(state, key, value, (pos + 1) as u64);
    let after = installed(state, job);
    let written = written(state, device, job);
    let lsn = (pos + 1) as u64;
    let done = entries.take(pos + 1 as int);
    assert(done.drop_last() =~= entries.take(pos as int));
    assert(done.last() == entries[pos as int]);
    lemma_record_round_trip(encode_utf8(key), encode_utf8(value), lsn);
    lemma_install_keeps_images(state.pool, device.pages, job);
    lemma_written_value(key, value, lsn);
    assert(after.index == state.index.insert(key, job.page_id));
    assert forall|other: Seq<char>| #[trigger]
        after.index.contains_key(other) implies value_at(after, written, other) == if other == key {
        Some(value)
    } else {
        value_at(state, device, other)
    } by {
        if other != key {
            assert(state.index.contains_key(other));
            assert(state.index[other] != job.page_id);
        }
    }
    assert(contents(after, written) =~= contents(state, device).insert(key, value));
}

/// A recovery of `entries` has ended: the engine is at rest, agrees with
/// the device, and holds the map that the records describe.
#[verifier::opaque]
pub open spec fn recovered(
    state: StoreState,
    device: Device,
    last: Demand,
    entries: Seq<LogRecord>,
) -> bool {
    &&& last == Demand::Done(Reply::Recovered(entries.len()))
    &&& state.well_formed()
    &&& state.stage is Idle
    &&& state.pool.capacity > 0
    &&& state.pool.unpinned()
    &&& state.pool.backed_by(device.pages)
    &&& state.log == (LogState { entries, lsn: entries.len() as u64 })
    &&& forall|a: Seq<char>, b: Seq<char>|
        #![trigger state.index[a], state.index[b]]
        state.index.contains_key(a) && state.index.contains_key(b) && state.index[a]
            == state.index[b] ==> a == b
    &&& forall|key: Seq<char>| #[trigger]
        state.index.contains_key(key) ==> state.index[key] < state.next_page_id
    &&& forall|key: Seq<char>| #[trigger]
        state.index.contains_key(key) ==> value_at(state, device, key) is Some
    &&& contents(state, device) == applied(entries)
}

/// The engine that rests behind the last record has recovered.
proof fn lemma_rested_at_the_end(state: StoreState, device: Device, entries: Seq<LogRecord>, pos: nat)
    requires
        rested(state, device, entries, pos),
        pos + 1 >= entries.len(),
    ensures
        state.series == (Series::Replay { entries, pos }),
        recovered(
            StoreState { stage: Stage::Idle, series: Series::Single, ..state },
            device,
            Demand::Done(Reply::Recovered(entries.len())),
            entries,
        ),
{
    reveal(rested);
    reveal(recovered);
    let ended = StoreState { stage: Stage::Idle, series: Series::Single, ..state };
    assert(entries.take(pos + 1 as int) =~= entries);
    assert(contents(ended, device) =~= contents(state, device));
    assert forall|key: Seq<char>| #[trigger] ended.index.contains_key(key) implies value_at(
        ended,
        device,
        key,
    ) is Some by {
        assert(value_at(ended, device, key) == value_at(state, device, key));
    }
}

/// The engine that rests behind a record that is not the last is about to
/// replay the next one.
proof fn lemma_rested_goes_on(state: StoreState, device: Device, entries: Seq<LogRecord>, pos: nat)
    requires
        rested(state, device, entries, pos),
        pos + 1 < entries.len(),
    ensures
        state.series == (Series::Replay { entries, pos }),
        replaying(
            StoreState { series: Series::Replay { entries, pos: pos + 1 }, ..state },
            device,
            entries,
            pos + 1,
        ),
        contents(
            StoreState { series: Series::Replay { entries, pos: pos + 1 }, ..state },
            device,
        ) == applied(entries.take(pos + 1 as int)),
{
    reveal(rested);
    reveal(replaying);
    let next = StoreState { series: Series::Replay { entries, pos: pos + 1 }, ..state };
    assert(contents(next, device) =~= contents(state, device));
    assert forall|key: Seq<char>| #[trigger] next.index.contains_key(key) implies value_at(
        next,
        device,
        key,
    ) is Some by {
        assert(value_at(next, device, key) == value_at(state, device, key));
    }
}

/// From the end of the record at `pos` a replay on a faithful device runs
/// to its end.
#[verifier::rlimit(50)]
proof fn lemma_replay_rest(
    state: StoreState,
    device: Device,
    entries: Seq<LogRecord>,
    pos: nat,
    reply: Reply,
    steps: nat,
)
    requires
        rested(state, device, entries, pos),
        !(reply is Failed),
        steps >= 2 * (entries.len() - pos - 1),
    ensures
        ({
            let (begun, demand) = state.settle(Headway::Finished(reply));
            let (after, served, last) = run(begun, device, demand, steps);
            recovered(after, served, last, entries) && served.log == device.log
        }),
    decreases entries.len() - pos, 0nat,
{
    reveal_with_fuel(run, 1);
    if pos + 1 >= entries.len() {
        lemma_rested_at_the_end(state, device, entries, pos);
    } else {
        lemma_rested_goes_on(state, device, entries, pos);
        let next = StoreState { series: Series::Replay { entries, pos: pos + 1 }, ..state };
        lemma_replay_from(next, device, entries, pos + 1, steps);
    }
}

/// From the record at `pos` a replay on a faithful device runs to its end.
#[verifier::rlimit(50)]
proof fn lemma_replay_from(
    state: StoreState,
    device: Device,
    entries: Seq<LogRecord>,
    pos: nat,
    steps: nat,
)
    requires
        replaying(state, device, entries, pos),
        contents(state, device) == applied(entries.take(pos as int)),
        steps >= 2 * (entries.len() - pos),
    ensures
        ({
            let (applied_once, headway) = state.redo(entries[pos as int], (pos + 1) as u64);
            let (begun, demand) = applied_once.settle(headway);
            let (after, served, last) = run(begun, device, demand, steps);
            recovered(after, served, last, entries) && served.log == device.log
        }),
    decreases entries.len() - pos, 1nat,
{
    let entry = entries[pos as int];
    let lsn = (pos + 1) as u64;
    lemma_redo_step(state, device, entries, pos);
    assert(pos < entries.len()) by {
        reveal(replaying);
    }
    let (applied_once, headway) = state.redo(entry, lsn);
    let (ended, stored) = redone(state, device, entry, lsn);
    match headway {
        Headway::Finished(reply) => {
            lemma_replay_rest(applied_once, device, entries, pos, reply, steps);
        },
        Headway::Wait(demand) => {
            reveal_with_fuel(run, 2);
            let (served, signal) = device.serve(demand);
            assert(served == stored);
            let (resumed, next) = applied_once.resume(signal);
            lemma_replay_rest(ended, stored, entries, pos, Reply::Stored, (steps - 1) as nat);
            assert((resumed, next) == ended.settle(Headway::Finished(Reply::Stored)));
        },
    }
}

/// Recovery on a faithful device: a new engine that recovers ends with
/// `Recovered` and the number of records in the log, agrees with the device
/// then, and holds the map that the records of the log describe.
#[verifier::rlimit(50)]
pub proof fn lemma_recover(frames: nat, device: Device, steps: nat)
    requires
        frames > 0,
        replayed(device.log).len() < u64::MAX,
        steps > 2 * replayed(device.log).len(),
        device.log.len() == 0 || device.log.last() == NEWLINE,
    ensures
        ({
            let (begun, demand) = StoreState::fresh(frames).recover();
            let (after, served, last) = run(begun, device, demand, steps);
            &&& last == Demand::Done(Reply::Recovered(replayed(device.log).len()))
            &&& consistent(after, served)
            &&& contents(after, served) == applied(replayed(device.log))
            &&& served.log == device.log
        }),
{
    reveal(replaying);
    reveal(recovered);
    let fresh = StoreState::fresh(frames);
    let entries = replayed(device.log);
    let (begun, demand) = fresh.recover();
    reveal_with_fuel(run, 2);
    let (served, signal) = device.serve(demand);
    let (resumed, next) = begun.resume(signal);
    assert(fresh.pool.pages.dom() =~= Set::<u64>::empty());
    assert(fresh.pool.well_formed());
    if entries.len() == 0 {
        assert(contents(resumed, device) =~= applied(entries));
    } else {
        let loaded = StoreState {
            log: LogState { entries, lsn: entries.len() as u64 },
            series: Series::Replay { entries, pos: 0 },
            ..fresh
        };
        assert(entries.take(0) =~= Seq::<LogRecord>::empty());
        assert(contents(loaded, device) =~= applied(entries.take(0)));
        lemma_replay_from(loaded, device, entries, 0, (steps - 1) as nat);
    }
}

/// Crash safety of `set`: when the engine is lost after a `set` has ended,
/// a new engine that recovers from the device finds the value under the key.
#[verifier::rlimit(50)]
pub proof fn lemma_set_survives_crash(
    state: StoreState,
    device: Device,
    key: Seq<char>,
    value: Seq<char>,
    frames: nat,
    steps: nat,
)
    requires
        consistent(state, device),
        fits(encode_utf8(key), encode_utf8(value)),
        state.index.contains_key(key) || state.next_page_id < u64::MAX,
        state.log.lsn + 1 < u64::MAX,
        frames > 0,
        steps > 2 * (state.log.lsn + 1),
    ensures
        ({
            let (begun, demand) = state.set(key, value);
            let (_, kept, _) = run(begun, device, demand, 2);
            let (begun, demand) = StoreState::fresh(frames).recover();
            let (restarted, kept, _) = run(begun, kept, demand, steps);
            let (begun, demand) = restarted.get(key);
            run(begun, kept, demand, 2).2 == Demand::Done(Reply::Value(Some(value)))
        }),
{
    lemma_set(state, device, key, value);
    let (begun, demand) = state.set(key, value);
    let (stored, kept, _) = run(begun, device, demand, 2);
    let entries = replayed(kept.log);
    assert(entries == state.log.entries.push(LogRecord::Put { key, value })) by {
        lemma_replay_appended(device.log, LogRecord::Put { key, value });
    }
    assert(entries.drop_last() =~= state.log.entries);
    lemma_recover(frames, kept, steps);
    let (begun, demand) = StoreState::fresh(frames).recover();
    let (restarted, kept, _) = run(begun, kept, demand, steps);
    assert(contents(restarted, kept).contains_key(key));
    assert(contents(restarted, kept)[key] == value);
    assert(restarted.index.contains_key(key));
    lemma_get(restarted, kept, key);
}

/// Crash safety of `delete`: when the engine is lost after a `delete` has
/// ended, a new engine that recovers from the device finds nothing under
/// the key.
#[verifier::rlimit(50)]
pub proof fn lemma_delete_survives_crash(
    state: StoreState,
    device: Device,
    key: Seq<char>,
    frames: nat,
    steps: nat,
)
    requires
        consistent(state, device),
        state.index.contains_key(key),
        state.log.lsn + 1 < u64::MAX,
        frames > 0,
        steps > 2 * (state.log.lsn + 1),
    ensures
        ({
            let (begun, demand) = state.delete(key);
            let (_, kept, _) = run(begun, device, demand, 2);
            let (begun, demand) = StoreState::fresh(frames).recover();
            let (restarted, kept, _) = run(begun, kept, demand, steps);
            let (begun, demand) = restarted.get(key);
            run(begun, kept, demand, 2).2 == Demand::Done(Reply::Value(None))
        }),
{
    lemma_delete(state, device, key);
    let (begun, demand) = state.delete(key);
    let (stored, kept, _) = run(begun, device, demand, 2);
    let entries = replayed(kept.log);
    assert(entries == state.log.entries.push(LogRecord::Delete { key })) by {
        lemma_replay_appended(device.log, LogRecord::Delete { key });
    }
    assert(entries.drop_last() =~= state.log.entries);
    lemma_recover(frames, kept, steps);
    let (begun, demand) = StoreState::fresh(frames).recover();
    let (restarted, kept, _) = run(begun, kept, demand, steps);
    assert(!contents(restarted, kept).contains_key(key));
    assert(!restarted.index.contains_key(key));
    lemma_get(restarted, kept, key);
}

// ---------------------------------------------------------------------------
// Flush and checkpoint
// ---------------------------------------------------------------------------

/// A flush, or a checkpoint, of the engine `before` on the device `held`
/// has ended: the engine agrees with the device and holds the map it held,
/// no page is dirty, and after a checkpoint the log is empty.
#[verifier::opaque]
pub open spec fn flushed(
    before: StoreState,
    held: Device,
    after: StoreState,
    served: Device,
    last: Demand,
    checkpoint: bool,
) -> bool {
    &&& last == Demand::Done(
        if checkpoint {
            Reply::Checkpointed
        } else {
            Reply::Flushed
        },
    )
    &&& consistent(after, served)
    &&& contents(after, served) == contents(before, held)
    &&& forall|id: u64| #[trigger] after.pool.resident(id) ==> !after.pool.pages[id].dirty
    &&& if checkpoint {
        served.log == Seq::<u8>::empty() && after.log.lsn == 0
    } else {
        served.log == held.log && after.log == before.log
    }
}

/// Writing one dirty page to the page store and marking it clean keeps
/// the engine in agreement with the device, with the same map, and leaves
/// the other dirty pages dirty.
#[verifier::rlimit(50)]
proof fn lemma_page_flushed(state: StoreState, device: Device, dirty: Seq<(u64, Seq<u8>)>)
    requires
        consistent(state, device),
        state.pool.lists_dirty(dirty),
        dirty.len() > 0,
    ensures
        consistent(
            state.cleaned(dirty.last().0),
            Device { pages: device.pages.insert(dirty.last().0, dirty.last().1), ..device },
        ),
        contents(
            state.cleaned(dirty.last().0),
            Device { pages: device.pages.insert(dirty.last().0, dirty.last().1), ..device },
        ) == contents(state, device),
        state.cleaned(dirty.last().0).pool.lists_dirty(dirty.drop_last()),
{
    let (id, data) = dirty.last();
    let after = state.cleaned(id);
    let served = Device { pages: device.pages.insert(id, data), ..device };
    let rest = dirty.drop_last();
    assert(dirty[dirty.len() - 1].0 == id);
    lemma_with_page_well_formed(state.pool, id, CachedPage { dirty: false, ..state.pool.pages[id] });
    assert forall|key: Seq<char>| #[trigger] after.index.contains_key(key) implies value_at(
        after,
        served,
        key,
    ) == value_at(state, device, key) by {}
    assert(contents(after, served) =~= contents(state, device));
    assert forall|k: int| 0 <= k < rest.len() implies {
        &&& after.pool.resident((#[trigger] rest[k]).0)
        &&& after.pool.pages[rest[k].0].dirty
        &&& rest[k].1 == after.pool.pages[rest[k].0].data
    } by {
        assert(rest[k] == dirty[k]);
        assert(dirty[k].0 != dirty[dirty.len() - 1].0);
    }
    assert forall|other: u64| after.pool.resident(other) && after.pool.pages[other].dirty implies exists|
        k: int,
    |
        0 <= k < rest.len() && (#[trigger] rest[k]).0 == other by {
        assert(other != id);
        assert(state.pool.resident(other) && state.pool.pages[other].dirty);
        let k = choose|k: int| 0 <= k < dirty.len() && (#[trigger] dirty[k]).0 == other;
        assert(k < dirty.len() - 1);
        assert(rest[k] == dirty[k]);
    }
    assert forall|k: int, l: int| 0 <= k < l < rest.len() implies (#[trigger] rest[k]).0 != (
    #[trigger] rest[l]).0 by {
        assert(rest[k] == dirty[k] && rest[l] == dirty[l]);
    }
}

/// After the last dirty page a flush puts up the barrier and ends; a
/// checkpoint goes on to append its record and to empty the log.
#[verifier::rlimit(50)]
proof fn lemma_flush_ends(state: StoreState, device: Device, checkpoint: bool, steps: nat)
    requires
        consistent(state, device),
        state.pool.lists_dirty(Seq::empty()),
        steps >= 3,
        state.log.lsn < u64::MAX,
    ensures
        ({
            let (begun, demand) = state.flush(Seq::empty(), checkpoint);
            let (after, served, last) = run(begun, device, demand, steps);
            flushed(state, device, after, served, last, checkpoint)
        }),
{
    reveal(flushed);
    reveal_with_fuel(run, 4);
    let none = Seq::<(u64, Seq<u8>)>::empty();
    let (begun, demand) = state.flush(none, checkpoint);
    let (after, served, last) = run(begun, device, demand, steps);
    assert(begun.waiting(Stage::Idle) == state);
    assert forall|id: u64| #[trigger] state.pool.resident(id) implies !state.pool.pages[id].dirty by {
        if state.pool.pages[id].dirty {
            let k = choose|k: int| 0 <= k < none.len() && (#[trigger] none[k]).0 == id;
        }
    }
    if checkpoint {
        let entry = LogRecord::Checkpoint { lsn: state.log.lsn };
        assert(replayed(Seq::<u8>::empty()) =~= Seq::<LogRecord>::empty()) by {
            crate::wal::lemma_replay_round_trip(Seq::<LogRecord>::empty());
        }
        assert(contents(after, served) =~= contents(state, device));
        assert forall|key: Seq<char>| #[trigger] after.index.contains_key(key) implies value_at(
            after,
            served,
            key,
        ) is Some by {
            assert(value_at(after, served, key) == value_at(state, device, key));
        }
    } else {
        assert(after == state);
    }
}

/// A flush on a faithful device, from the pages `dirty` on.
#[verifier::rlimit(50)]
proof fn lemma_flush_from(
    state: StoreState,
    device: Device,
    dirty: Seq<(u64, Seq<u8>)>,
    checkpoint: bool,
    steps: nat,
)
    requires
        consistent(state, device),
        state.pool.lists_dirty(dirty),
        steps >= dirty.len() + 3,
        state.log.lsn < u64::MAX,
    ensures
        ({
            let (begun, demand) = state.flush(dirty, checkpoint);
            let (after, served, last) = run(begun, device, demand, steps);
            flushed(state, device, after, served, last, checkpoint)
        }),
    decreases dirty.len(),
{
    if dirty.len() == 0 {
        assert(dirty =~= Seq::<(u64, Seq<u8>)>::empty());
        lemma_flush_ends(state, device, checkpoint, steps);
    } else {
        let (id, data) = dirty.last();
        let cleaned = state.cleaned(id);
        let written = Device { pages: device.pages.insert(id, data), ..device };
        lemma_page_flushed(state, device, dirty);
        lemma_flush_from(cleaned, written, dirty.drop_last(), checkpoint, (steps - 1) as nat);
        reveal(flushed);
        reveal_with_fuel(run, 2);
        let (begun, demand) = state.flush(dirty, checkpoint);
        assert(begun.waiting(Stage::Idle) == state);
        assert(device.serve(demand) == (written, Signal::PageWritten(Ok(()))));
        assert(begun.resume(Signal::PageWritten(Ok(()))) == cleaned.flush(
            dirty.drop_last(),
            checkpoint,
        ));
        assert(cleaned.log == state.log);
    }
}

/// `flush` on a faithful device: the operation ends with `Flushed`; every
/// page that was dirty has reached the page store and is clean; the engine
/// holds the map it held, and the log is as it was.
pub proof fn lemma_flush(state: StoreState, device: Device, dirty: Seq<(u64, Seq<u8>)>, steps: nat)
    requires
        consistent(state, device),
        state.pool.lists_dirty(dirty),
        steps >= dirty.len() + 3,
        state.log.lsn < u64::MAX,
    ensures
        ({
            let (begun, demand) = state.flush(dirty, false);
            let (after, served, last) = run(begun, device, demand, steps);
            flushed(state, device, after, served, last, false)
        }),
{
    lemma_flush_from(state, device, dirty, false, steps);
}

/// `checkpoint` on a faithful device: the operation ends with
/// `Checkpointed`; no page is dirty, so the page store alone holds the map
/// that the engine holds, which is the map it held; and the log is empty.
pub proof fn lemma_checkpoint(
    state: StoreState,
    device: Device,
    dirty: Seq<(u64, Seq<u8>)>,
    steps: nat,
)
    requires
        consistent(state, device),
        state.pool.lists_dirty(dirty),
        steps >= dirty.len() + 3,
        state.log.lsn < u64::MAX,
    ensures
        ({
            let (begun, demand) = state.flush(dirty, true);
            let (after, served, last) = run(begun, device, demand, steps);
            flushed(state, device, after, served, last, true)
        }),
{
    lemma_flush_from(state, device, dirty, true, steps);
}

// ---------------------------------------------------------------------------
// Scan
// ---------------------------------------------------------------------------

/// The keys `keys`, each with the value that `map` gives it.
pub open spec fn listing(keys: Seq<Seq<char>>, map: Map<Seq<char>, Seq<char>>) -> Seq<
    (Seq<char>, Seq<char>),
> {
    Seq::new(keys.len(), |i: int| (keys[i], map[keys[i]]))
}

/// The engine is scanning `keys` on a device, is about to look up the key
/// at `pos`, and has found `found`.
#[verifier::opaque]
pub open spec fn scanning(
    state: StoreState,
    device: Device,
    keys: Seq<Seq<char>>,
    pos: nat,
    found: Seq<(Seq<char>, Seq<char>)>,
) -> bool {
    &&& state.pool.well_formed()
    &&& state.index.dom().finite()
    &&& state.pool.capacity > 0
    &&& state.pool.unpinned()
    &&& state.pool.backed_by(device.pages)
    &&& state.stage is Idle
    &&& state.series == (Series::Scan { keys, pos, found })
    &&& pos < keys.len() <= usize::MAX
    &&& state.log.lsn == state.log.entries.len()
    &&& state.log.entries == replayed(device.log)
    &&& (device.log.len() == 0 || device.log.last() == NEWLINE)
    &&& forall|i: int| 0 <= i < keys.len() ==> state.index.contains_key(#[trigger] keys[i])
    &&& forall|a: Seq<char>, b: Seq<char>|
        #![trigger state.index[a], state.index[b]]
        state.index.contains_key(a) && state.index.contains_key(b) && state.index[a]
            == state.index[b] ==> a == b
    &&& forall|key: Seq<char>| #[trigger]
        state.index.contains_key(key) ==> state.index[key] < state.next_page_id
    &&& forall|key: Seq<char>| #[trigger]
        state.index.contains_key(key) ==> value_at(state, device, key) is Some
    &&& found == listing(keys.take(pos as int), contents(state, device))
}

/// A scan of `keys` by the engine `before` on the device `held` has ended
/// with every key and its value.
#[verifier::opaque]
pub open spec fn scanned(
    before: StoreState,
    held: Device,
    after: StoreState,
    served: Device,
    last: Demand,
    keys: Seq<Seq<char>>,
) -> bool {
    &&& last == Demand::Done(Reply::Entries(listing(keys, contents(before, held))))
    &&& consistent(after, served)
    &&& contents(after, served) == contents(before, held)
    &&& served.log == held.log
}

/// The engine and the device after `key` was looked up, the read and the
/// write-back that this may need included.
pub open spec fn looked_up(state: StoreState, device: Device, key: Seq<char>) -> (
    StoreState,
    Device,
) {
    let (begun, headway) = state.get_step(key);
    match begun.stage {
        Stage::Fetching { key, page_id } => {
            let job = Job {
                page_id,
                page: device.pages[page_id],
                dirty: false,
                sequel: Sequel::Decode { key },
            };
            (
                StoreState { pool: pool_after(state.pool, job), ..state },
                Device { pages: pages_after(state.pool, device.pages, job), ..device },
            )
        },
        _ => (begun, device),
    }
}

/// Looking a key of the index up during a scan keeps the engine in
/// agreement with the device, with the same map.
#[verifier::rlimit(50)]
proof fn lemma_lookup_step(
    state: StoreState,
    device: Device,
    keys: Seq<Seq<char>>,
    pos: nat,
    found: Seq<(Seq<char>, Seq<char>)>,
)
    requires
        scanning(state, device, keys, pos, found),
    ensures
        scanning(
            looked_up(state, device, keys[pos as int]).0,
            looked_up(state, device, keys[pos as int]).1,
            keys,
            pos,
            found,
        ),
        contents(
            looked_up(state, device, keys[pos as int]).0,
            looked_up(state, device, keys[pos as int]).1,
        ) == contents(state, device),
        looked_up(state, device, keys[pos as int]).1.log == device.log,
        pos < keys.len(),
        contents(state, device).contains_key(keys[pos as int]),
{
    reveal(scanning);
    let key = keys[pos as int];
    let (after, served) = looked_up(state, device, key);
    let page_id = state.index[key];
    assert(state.index.contains_key(key));
    assert(value_at(state, device, key) is Some);
    if state.pool.resident(page_id) {
        crate::buffer_pool::lemma_touch_well_formed(state.pool, page_id);
    } else {
        let job = Job {
            page_id,
            page: device.pages[page_id],
            dirty: false,
            sequel: Sequel::Decode { key },
        };
        lemma_install_keeps_images(state.pool, device.pages, job);
        assert forall|other: Seq<char>| #[trigger]
            after.index.contains_key(other) implies value_at(after, served, other) == value_at(
            state,
            device,
            other,
        ) by {
            if state.index[other] == page_id {
                assert(other == key);
            }
        }
    }
    assert(contents(after, served) =~= contents(state, device));
}

/// From the end of the lookup of the key at `pos` a scan on a faithful
/// device runs to its end.
#[verifier::rlimit(50)]
proof fn lemma_scan_rest(
    state: StoreState,
    device: Device,
    keys: Seq<Seq<char>>,
    pos: nat,
    found: Seq<(Seq<char>, Seq<char>)>,
    steps: nat,
)
    requires
        scanning(state, device, keys, pos, found),
        steps >= 2 * (keys.len() - pos - 1),
    ensures
        ({
            let value = contents(state, device)[keys[pos as int]];
            let (begun, demand) = state.settle(Headway::Finished(Reply::Value(Some(value))));
            let (after, served, last) = run(begun, device, demand, steps);
            scanned(state, device, after, served, last, keys)
        }),
    decreases keys.len() - pos, 0nat,
{
    let map = contents(state, device);
    let value = map[keys[pos as int]];
    let more = found.push((keys[pos as int], value));
    assert(pos < keys.len() && state.series == (Series::Scan { keys, pos, found }) && more
        == listing(keys.take(pos + 1 as int), map)) by {
        reveal(scanning);
        assert(more =~= listing(keys.take(pos + 1 as int), map));
    }
    if pos + 1 >= keys.len() {
        reveal_with_fuel(run, 1);
        reveal(scanning);
        reveal(scanned);
        let ended = StoreState { stage: Stage::Idle, series: Series::Single, ..state };
        assert(keys.take(pos + 1 as int) =~= keys);
        assert(contents(ended, device) =~= map);
        assert forall|key: Seq<char>| #[trigger] ended.index.contains_key(key) implies value_at(
            ended,
            device,
            key,
        ) is Some by {
            assert(value_at(ended, device, key) == value_at(state, device, key));
        }
    } else {
        let next = StoreState { series: Series::Scan { keys, pos: pos + 1, found: more }, ..state };
        assert(scanning(next, device, keys, pos + 1, more) && contents(next, device) == map) by {
            reveal(scanning);
            assert(contents(next, device) =~= map);
            assert forall|key: Seq<char>| #[trigger] next.index.contains_key(key) implies value_at(
                next,
                device,
                key,
            ) is Some by {
                assert(value_at(next, device, key) == value_at(state, device, key));
            }
        }
        lemma_scan_from(next, device, keys, pos + 1, more, steps);
        let (looked, headway) = next.get_step(keys[pos + 1 as int]);
        let (begun, demand) = looked.settle(headway);
        let (after, served, last) = run(begun, device, demand, steps);
        assert(scanned(state, device, after, served, last, keys)) by {
            reveal(scanned);
        }
    }
}

/// From the lookup of the key at `pos` a scan on a faithful device runs to
/// its end.
#[verifier::rlimit(50)]
proof fn lemma_scan_from(
    state: StoreState,
    device: Device,
    keys: Seq<Seq<char>>,
    pos: nat,
    found: Seq<(Seq<char>, Seq<char>)>,
    steps: nat,
)
    requires
        scanning(state, device, keys, pos, found),
        steps >= 2 * (keys.len() - pos),
    ensures
        ({
            let (looked, headway) = state.get_step(keys[pos as int]);
            let (begun, demand) = looked.settle(headway);
            let (after, served, last) = run(begun, device, demand, steps);
            scanned(state, device, after, served, last, keys)
        }),
    decreases keys.len() - pos, 1nat,
{
    let key = keys[pos as int];
    lemma_lookup_step(state, device, keys, pos, found);
    let (ended, stored) = looked_up(state, device, key);
    let value = contents(state, device)[key];
    let (looked, headway) = state.get_step(key);
    let (begun, demand) = looked.settle(headway);
    let page_id = state.index[key];
    assert(value_at(state, device, key) == Some(value) && state.index.contains_key(key)
        && state.pool.well_formed() && state.pool.capacity > 0 && state.pool.unpinned()
        && state.pool.backed_by(device.pages) && state.stage is Idle && pos < keys.len()) by {
        reveal(scanning);
    }
    if state.pool.resident(page_id) {
        lemma_scan_rest(ended, stored, keys, pos, found, steps);
    } else {
        let job = Job {
            page_id,
            page: device.pages[page_id],
            dirty: false,
            sequel: Sequel::Decode { key },
        };
        lemma_install_keeps_images(state.pool, device.pages, job);
        reveal_with_fuel(run, 3);
        assert(looked.waiting(Stage::Idle) == state);
        let (read, next) = looked.resume(Signal::PageRead(Ok(device.pages[page_id])));
        if state.pool.placement(page_id) is WriteBack {
            lemma_cleaned_victim_leaves(state.pool, page_id);
            let victim = state.pool.victim();
            assert(read.waiting(Stage::Idle) == state);
            lemma_scan_rest(ended, stored, keys, pos, found, (steps - 2) as nat);
            assert(read.resume(Signal::PageWritten(Ok(()))) == ended.settle(
                Headway::Finished(Reply::Value(Some(value))),
            ));
        } else {
            lemma_scan_rest(ended, stored, keys, pos, found, (steps - 1) as nat);
            assert((read, next) == ended.settle(Headway::Finished(Reply::Value(Some(value)))));
        }
    }
    let (after, served, last) = run(begun, device, demand, steps);
    assert(scanned(state, device, after, served, last, keys)) by {
        reveal(scanned);
    }
}

/// `scan` on a faithful device: the operation ends with every key of the
/// index and its value, in the order in which the keys were listed, and the
/// engine holds the map it held.
#[verifier::rlimit(50)]
pub proof fn lemma_scan(state: StoreState, device: Device, keys: Seq<Seq<char>>, steps: nat)
    requires
        consistent(state, device),
        crate::index::lists_keys(keys, state.index),
        keys.len() <= usize::MAX,
        steps >= 2 * keys.len(),
    ensures
        ({
            let (begun, demand) = state.scan(keys);
            let (after, served, last) = run(begun, device, demand, steps);
            scanned(state, device, after, served, last, keys)
        }),
{
    let none = Seq::<(Seq<char>, Seq<char>)>::empty();
    if keys.len() == 0 {
        reveal_with_fuel(run, 1);
        reveal(scanned);
        assert(listing(keys, contents(state, device)) =~= none);
    } else {
        let first = StoreState { series: Series::Scan { keys, pos: 0, found: none }, ..state };
        assert(scanning(first, device, keys, 0, none)) by {
            reveal(scanning);
            assert(keys.take(0) =~= Seq::<Seq<char>>::empty());
            assert(none =~= listing(keys.take(0), contents(first, device)));
            assert forall|i: int| 0 <= i < keys.len() implies first.index.contains_key(
                #[trigger] keys[i],
            ) by {
                assert(keys.contains(keys[i]));
            }
            assert forall|key: Seq<char>| #[trigger] first.index.contains_key(key) implies value_at(
                first,
                device,
                key,
            ) is Some by {
                assert(value_at(first, device, key) == value_at(state, device, key));
            }
        }
        assert(contents(first, device) =~= contents(state, device));
        lemma_scan_from(first, device, keys, 0, none, steps);
        let (looked, headway) = first.get_step(keys[0]);
        let (begun, demand) = looked.settle(headway);
        let (after, served, last) = run(begun, device, demand, steps);
        assert(scanned(state, device, after, served, last, keys)) by {
            reveal(scanned);
        }
    }
}

// ---------------------------------------------------------------------------
// The write-ahead rule and integrity
// ---------------------------------------------------------------------------

/// The write-ahead rule: the first thing that `set` and `delete` ask for is
/// the append of their record to the log, and until that append has
/// succeeded neither the index nor the pool nor the log of the engine show
/// the mutation.
pub proof fn lemma_log_comes_first(state: StoreState, key: Seq<char>, value: Seq<char>)
    requires
        !state.busy(),
    ensures
        ({
            let (begun, demand) = state.set(key, value);
            &&& begun.index == state.index
            &&& begun.pool == state.pool
            &&& begun.log == state.log
            &&& if fits(encode_utf8(key), encode_utf8(value)) {
                demand == (Demand::AppendLog {
                    line: record_line(LogRecord::Put { key, value }),
                    delay_ms: 0,
                })
            } else {
                demand is Done && begun == state
            }
        }),
        ({
            let (begun, demand) = state.delete(key);
            &&& begun.index == state.index
            &&& begun.pool == state.pool
            &&& begun.log == state.log
            &&& if state.index.contains_key(key) {
                demand == (Demand::AppendLog {
                    line: record_line(LogRecord::Delete { key }),
                    delay_ms: 0,
                })
            } else {
                demand == Demand::Done(Reply::Deleted(false)) && begun == state
            }
        }),
{
}

/// An append that fails is made again, after a pause that grows by
/// `WAL_BACKOFF_MS` each time, until it has failed `WAL_RETRIES` times
/// after the first attempt. Then the operation ends with the error, and
/// the mutation has not happened: index, pool and log are as they were.
pub proof fn lemma_failed_append(state: StoreState, e: Fault)
    requires
        state.stage is Logging,
        state.series is Single,
    ensures
        ({
            let (after, demand) = state.resume(Signal::LogAppended(Err(e)));
            let failures = state.stage->Logging_failures;
            let entry = state.stage->Logging_entry;
            &&& after.index == state.index
            &&& after.pool == state.pool
            &&& after.log == state.log
            &&& after.next_page_id == state.next_page_id
            &&& if failures < crate::wal::WAL_RETRIES {
                &&& after.stage == (Stage::Logging { entry, failures: (failures + 1) as u32 })
                &&& demand == (Demand::AppendLog {
                    line: record_line(entry),
                    delay_ms: (crate::wal::WAL_BACKOFF_MS * (failures + 1)) as u64,
                })
            } else {
                &&& after.stage is Idle
                &&& demand == Demand::Done(Reply::Failed(e))
            }
        }),
{
}

/// Integrity: when a single byte of the page of a key has changed in the
/// page store, a `get` that has to read the page finds no value, not a
/// wrong one.
#[verifier::rlimit(50)]
pub proof fn lemma_get_detects_corruption(
    state: StoreState,
    device: Device,
    key: Seq<char>,
    damaged: Seq<u8>,
    at: int,
)
    requires
        consistent(state, device),
        state.index.contains_key(key),
        !state.pool.resident(state.index[key]),
        damaged.len() == PAGE_SIZE,
        0 <= at < PAGE_SIZE,
        damaged[at] != device.pages[state.index[key]][at],
        forall|j: int|
            0 <= j < PAGE_SIZE && j != at ==> damaged[j] == device.pages[state.index[key]][j],
    ensures
        ({
            let harmed = Device { pages: device.pages.insert(state.index[key], damaged), ..device };
            let (begun, demand) = state.get(key);
            run(begun, harmed, demand, 2).2 == Demand::Done(Reply::Value(None))
        }),
{
    let page_id = state.index[key];
    let harmed = Device { pages: device.pages.insert(page_id, damaged), ..device };
    let (begun, demand) = state.get(key);
    reveal_with_fuel(run, 3);
    assert(value_at(state, device, key) is Some);
    crate::page::lemma_corruption_detected(device.pages[page_id], damaged, at);
    let job = Job { page_id, page: damaged, dirty: false, sequel: Sequel::Decode { key } };
    assert(begun.waiting(Stage::Idle) == state);
    lemma_install_runs(state, harmed, job, 1);
    assert(state.pool.backed_by(harmed.pages));
    lemma_install_keeps_images(state.pool, harmed.pages, job);
}

// ---------------------------------------------------------------------------
// Histories
// ---------------------------------------------------------------------------

/// A mutation of the store.
pub enum Mutation {
    Put { key: Seq<char>, value: Seq<char> },
    Delete { key: Seq<char> },
}

/// The map that `map` becomes when the mutations `ops` are made in order.
pub open spec fn mutated(map: Map<Seq<char>, Seq<char>>, ops: Seq<Mutation>) -> Map<
    Seq<char>,
    Seq<char>,
>
    decreases ops.len(),
{
    if ops.len() == 0 {
        map
    } else {
        let before = mutated(map, ops.drop_last());
        match ops.last() {
            Mutation::Put { key, value } => before.insert(key, value),
            Mutation::Delete { key } => before.remove(key),
        }
    }
}

/// The engine and the device after the mutations `ops` were made in order
/// by `set` and `delete`, each run to its end on a faithful device.
pub open spec fn played(state: StoreState, device: Device, ops: Seq<Mutation>) -> (
    StoreState,
    Device,
)
    decreases ops.len(),
{
    if ops.len() == 0 {
        (state, device)
    } else {
        let (before, held) = played(state, device, ops.drop_last());
        let (begun, demand) = match ops.last() {
            Mutation::Put { key, value } => before.set(key, value),
            Mutation::Delete { key } => before.delete(key),
        };
        let (after, served, last) = run(begun, held, demand, 2);
        (after, served)
    }
}

/// Every value that `ops` set fits into a page beside its key.
pub open spec fn all_fit(ops: Seq<Mutation>) -> bool {
    forall|i: int|
        0 <= i < ops.len() ==> (#[trigger] ops[i] matches Mutation::Put { key, value } ==> fits(
            encode_utf8(key),
            encode_utf8(value),
        ))
}

/// The store is a map: after any history of `set` and `delete` on a
/// faithful device the engine agrees with the device and holds the map that
/// the history makes of the map it held before.
#[verifier::rlimit(50)]
pub proof fn lemma_history(state: StoreState, device: Device, ops: Seq<Mutation>)
    requires
        consistent(state, device),
        all_fit(ops),
        state.log.lsn + ops.len() < u64::MAX,
        state.next_page_id + ops.len() < u64::MAX,
    ensures
        consistent(played(state, device, ops).0, played(state, device, ops).1),
        contents(played(state, device, ops).0, played(state, device, ops).1) == mutated(
            contents(state, device),
            ops,
        ),
        played(state, device, ops).0.log.lsn <= state.log.lsn + ops.len(),
        played(state, device, ops).0.next_page_id <= state.next_page_id + ops.len(),
    decreases ops.len(),
{
    if ops.len() > 0 {
        let earlier = ops.drop_last();
        assert(all_fit(earlier)) by {
            assert forall|i: int| 0 <= i < earlier.len() implies (#[trigger] earlier[i] matches Mutation::Put {
                key,
                value,
            } ==> fits(encode_utf8(key), encode_utf8(value))) by {
                assert(earlier[i] == ops[i]);
            }
        }
        lemma_history(state, device, earlier);
        let (before, held) = played(state, device, earlier);
        assert(ops[ops.len() - 1] == ops.last());
        match ops.last() {
            Mutation::Put { key, value } => {
                lemma_set(before, held, key, value);
            },
            Mutation::Delete { key } => {
                lemma_delete(before, held, key);
            },
        }
    }
}

/// A `get` returns the value of the most recent `set` of the key that no
/// `delete` has followed: after any history of `set` and `delete` on a
/// faithful device, `get` ends with the value that the history leaves
/// under the key, and with none where it leaves none.
#[verifier::rlimit(50)]
pub proof fn lemma_get_after_history(
    state: StoreState,
    device: Device,
    ops: Seq<Mutation>,
    key: Seq<char>,
)
    requires
        consistent(state, device),
        all_fit(ops),
        state.log.lsn + ops.len() < u64::MAX,
        state.next_page_id + ops.len() < u64::MAX,
    ensures
        ({
            let (after, served) = played(state, device, ops);
            let map = mutated(contents(state, device), ops);
            let (begun, demand) = after.get(key);
            run(begun, served, demand, 2).2 == Demand::Done(
                Reply::Value(
                    if map.contains_key(key) {
                        Some(map[key])
                    } else {
                        None
                    },
                ),
            )
        }),
{
    lemma_history(state, device, ops);
    let (after, served) = played(state, device, ops);
    lemma_get(after, served, key);
    assert(contents(after, served).contains_key(key) == after.index.contains_key(key));
}

} // verus!
