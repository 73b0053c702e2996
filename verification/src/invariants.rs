//! What holds of the engine whatever the device does.
//!
//! The device may fail any request and may return any bytes. The structure
//! of the engine does not depend on it: the pool stays well formed, no page
//! stays pinned, every key has a page of its own, and page 0 is never used.

use vstd::prelude::*;
use crate::buffer_pool::{
    lemma_admission, lemma_touch_well_formed, lemma_with_page_well_formed, CachedPage, Placement,
};
use crate::kvstore::{Headway, Job, Sequel, Series, Signal, Stage, StoreState};
use crate::page::{record_page, zeros, PAGE_SIZE};
use crate::wal::{LogRecord, LogState};

verus! {

/// The structure of the engine is sound: the pool is well formed and
/// holds no pinned page; different keys have different pages; the page of
/// every key was given out by the allocator, which starts at 1; and a page
/// that waits to be installed for a key is the page that the key goes to.
pub open spec fn sound(state: StoreState) -> bool {
    &&& state.index.dom().finite()
    &&& state.pool.well_formed()
    &&& state.pool.unpinned()
    &&& state.next_page_id >= 1
    &&& forall|a: Seq<char>, b: Seq<char>|
        #![trigger state.index[a], state.index[b]]
        state.index.contains_key(a) && state.index.contains_key(b) && state.index[a]
            == state.index[b] ==> a == b
    &&& forall|key: Seq<char>| #[trigger]
        state.index.contains_key(key) ==> 1 <= state.index[key] < state.next_page_id
    &&& state.stage matches Stage::Installing { job, victim } ==> fitting(state, job)
}

/// The page of `job` can be installed: it is one page long, and where it
/// is the page of a key it is the page that the key goes to.
pub open spec fn fitting(state: StoreState, job: Job) -> bool {
    &&& job.page.len() == PAGE_SIZE
    &&& job.sequel matches Sequel::Index { key } ==> {
        &&& job.page_id == state.target_page(key)
        &&& state.index.contains_key(key) || state.next_page_id < u64::MAX
    }
}

/// Marking a page clean keeps the structure sound.
proof fn lemma_cleaned(state: StoreState, page_id: u64)
    requires
        sound(state),
    ensures
        sound(state.cleaned(page_id)),
        state.cleaned(page_id).index == state.index,
        state.cleaned(page_id).next_page_id == state.next_page_id,
        state.cleaned(page_id).stage == state.stage,
        state.cleaned(page_id).series == state.series,
{
    if state.pool.resident(page_id) {
        lemma_with_page_well_formed(
            state.pool,
            page_id,
            CachedPage { dirty: false, ..state.pool.pages[page_id] },
        );
    }
}

/// Installing a page keeps the structure sound.
#[verifier::rlimit(50)]
proof fn lemma_install(state: StoreState, job: Job)
    requires
        sound(state),
        state.stage is Idle,
        fitting(state, job),
    ensures
        sound(state.install(job).0),
        state.install(job).0.series == state.series,
{
    let id = job.page_id;
    let image = if job.dirty {
        state.pool.put_image(id, job.page)
    } else {
        state.pool.load_image(id, job.page)
    };
    match state.pool.placement(id) {
        Placement::WriteBack(_) | Placement::Exhausted => {},
        _ => {
            lemma_admission(state.pool, id, image);
            let after = state.install(job).0;
            match job.sequel {
                Sequel::Index { key } => {
                    assert(after.index.dom() =~= state.index.dom().insert(key));
                },
                _ => {},
            }
        },
    }
}

/// Applying a record keeps the structure sound.
#[verifier::rlimit(50)]
proof fn lemma_apply(state: StoreState, entry: LogRecord, lsn: u64)
    requires
        sound(state),
        state.stage is Idle,
    ensures
        sound(state.apply(entry, lsn).0),
        sound(state.redo(entry, lsn).0),
        state.apply(entry, lsn).0.series == state.series,
        state.redo(entry, lsn).0.series == state.series,
{
    match entry {
        LogRecord::Put { key, value } => {
            let job = Job {
                page_id: state.target_page(key),
                page: record_page(
                    vstd::utf8::encode_utf8(key),
                    vstd::utf8::encode_utf8(value),
                    lsn,
                ),
                dirty: true,
                sequel: Sequel::Index { key },
            };
            if crate::page::fits(vstd::utf8::encode_utf8(key), vstd::utf8::encode_utf8(value))
                && (state.index.contains_key(key) || state.next_page_id < u64::MAX) {
                crate::page::lemma_record_round_trip(
                    vstd::utf8::encode_utf8(key),
                    vstd::utf8::encode_utf8(value),
                    lsn,
                );
                lemma_install(state, job);
            }
        },
        LogRecord::Delete { key } => {
            let removed = StoreState { index: state.index.remove(key), ..state };
            assert(sound(removed));
            if state.index.contains_key(key) {
                let job = Job {
                    page_id: state.index[key],
                    page: zeros(PAGE_SIZE as nat),
                    dirty: true,
                    sequel: Sequel::Deleted,
                };
                lemma_install(removed, job);
            }
        },
        LogRecord::Checkpoint { lsn } => {},
    }
}

/// Looking a key up keeps the structure sound.
proof fn lemma_get_step(state: StoreState, key: Seq<char>)
    requires
        sound(state),
        state.stage is Idle,
    ensures
        sound(state.get_step(key).0),
        state.get_step(key).0.series == state.series,
{
    if state.index.contains_key(key) && state.pool.resident(state.index[key]) {
        lemma_touch_well_formed(state.pool, state.index[key]);
    }
}

/// Carrying an operation on from the end of a step keeps the structure sound.
#[verifier::rlimit(50)]
proof fn lemma_settle(state: StoreState, headway: Headway)
    requires
        sound(state),
        headway is Finished ==> state.stage is Idle,
    ensures
        sound(state.settle(headway).0),
    decreases state.series.remaining(),
{
    match headway {
        Headway::Wait(demand) => {},
        Headway::Finished(reply) => {
            match state.series {
                Series::Single => {},
                Series::Scan { keys, pos, found } => {
                    if pos + 1 < keys.len() {
                        let next = StoreState {
                            series: Series::Scan {
                                keys,
                                pos: pos + 1,
                                found: match reply {
                                    crate::kvstore::Reply::Value(Some(value)) if pos
                                        < keys.len() => found.push((keys[pos as int], value)),
                                    _ => found,
                                },
                            },
                            ..state
                        };
                        lemma_get_step(next, keys[pos + 1 as int]);
                        let (after, progress) = next.get_step(keys[pos + 1 as int]);
                        lemma_settle(after, progress);
                    }
                },
                Series::Replay { entries, pos } => {
                    if !(reply is Failed) && pos + 1 < entries.len() {
                        let next = StoreState {
                            series: Series::Replay { entries, pos: pos + 1 },
                            ..state
                        };
                        lemma_apply(next, entries[pos + 1 as int], (pos + 2) as u64);
                        let (after, progress) = next.redo(entries[pos + 1 as int], (pos + 2) as u64);
                        lemma_settle(after, progress);
                    }
                },
            }
        },
    }
}

/// A new engine is sound.
pub proof fn lemma_fresh_is_sound(frames: nat)
    ensures
        sound(StoreState::fresh(frames)),
{
    let fresh = StoreState::fresh(frames);
    assert(fresh.pool.pages.dom() =~= Set::<u64>::empty());
}

/// Whatever operation is begun, the structure of the engine stays sound.
#[verifier::rlimit(50)]
pub proof fn lemma_begin_keeps_sound(
    state: StoreState,
    key: Seq<char>,
    value: Seq<char>,
    keys: Seq<Seq<char>>,
    dirty: Seq<(u64, Seq<u8>)>,
    checkpoint: bool,
)
    requires
        sound(state),
    ensures
        sound(state.set(key, value).0),
        sound(state.get(key).0),
        sound(state.delete(key).0),
        sound(state.recover().0),
        !state.busy() ==> sound(state.scan(keys).0),
        !state.busy() ==> sound(state.flush(dirty, checkpoint).0),
{
    if !state.busy() {
        lemma_get_step(state, key);
        let (looked, headway) = state.get_step(key);
        lemma_settle(looked, headway);
        let (logging, headway) = state.begin_log(LogRecord::Put { key, value });
        lemma_settle(logging, headway);
        let (logging, headway) = state.begin_log(LogRecord::Delete { key });
        lemma_settle(logging, headway);
        if keys.len() > 0 {
            let first = StoreState {
                series: Series::Scan { keys, pos: 0, found: Seq::empty() },
                ..state
            };
            lemma_get_step(first, keys[0]);
            let (looked, headway) = first.get_step(keys[0]);
            lemma_settle(looked, headway);
        }
        let (flushing, headway) = state.flush_step(dirty, checkpoint);
        lemma_settle(flushing, headway);
    }
}

/// Whatever the device answers, the structure of the engine stays sound:
/// the pool is well formed, no page is pinned, no two keys share a page,
/// and no key has page 0.
#[verifier::rlimit(50)]
pub proof fn lemma_resume_keeps_sound(state: StoreState, signal: Signal)
    requires
        sound(state),
    ensures
        sound(state.resume(signal).0),
{
    let idle = state.waiting(Stage::Idle);
    match (state.stage, signal) {
        (Stage::Logging { entry, failures }, Signal::LogAppended(r)) => {
            let logged = StoreState {
                log: LogState {
                    entries: idle.log.entries.push(entry),
                    lsn: (idle.log.lsn + 1) as u64,
                },
                ..idle
            };
            lemma_apply(logged, entry, (idle.log.lsn + 1) as u64);
            let (after, headway) = idle.on_log_appended(entry, failures, r);
            lemma_settle(after, headway);
        },
        (Stage::Fetching { key, page_id }, Signal::PageRead(r)) => {
            match r {
                Ok(data) => {
                    if data.len() == PAGE_SIZE {
                        lemma_install(
                            idle,
                            Job { page_id, page: data, dirty: false, sequel: Sequel::Decode { key } },
                        );
                    }
                },
                Err(e) => {},
            }
            let (after, headway) = idle.on_page_read(key, page_id, r);
            lemma_settle(after, headway);
        },
        (Stage::Installing { job, victim }, Signal::PageWritten(r)) => {
            lemma_cleaned(idle, victim);
            lemma_install(idle.cleaned(victim), job);
            let (after, headway) = idle.on_written_back(job, victim, r);
            lemma_settle(after, headway);
        },
        (Stage::Flushing { current, rest, checkpoint }, Signal::PageWritten(r)) => {
            lemma_cleaned(idle, current);
            let (after, headway) = idle.on_flushed_page(current, rest, checkpoint, r);
            lemma_settle(after, headway);
        },
        (Stage::Barrier { checkpoint }, Signal::StoreFlushed(r)) => {
            let (after, headway) = idle.on_store_flushed(checkpoint, r);
            lemma_settle(after, headway);
        },
        (Stage::Resetting, Signal::LogReset(r)) => {
            let (after, headway) = idle.on_log_reset(r);
            lemma_settle(after, headway);
        },
        (Stage::Loading, Signal::LogRead(r)) => {
            match r {
                Ok(bytes) => {
                    let entries = crate::wal::replayed(bytes);
                    if entries.len() > 0 {
                        let loaded = StoreState {
                            log: LogState { entries, lsn: entries.len() as u64 },
                            series: Series::Replay { entries, pos: 0 },
                            ..idle
                        };
                        lemma_apply(loaded, entries[0], 1);
                    }
                },
                Err(e) => {},
            }
            let (after, headway) = idle.on_log_read(r);
            lemma_settle(after, headway);
        },
        _ => {},
    }
}

} // verus!
