//! The pager: a fixed-capacity cache of pages with LRU eviction, write-back,
//! pinning and dirty tracking.
//!
//! The pool never talks to the device. A page that must reach the device
//! before its frame can be reused is handed to the caller, who persists it,
//! marks it clean and asks again.

use vstd::prelude::*;
use vstd::slice::slice_to_vec;
use std::collections::HashMap;
use std::collections::VecDeque;
use crate::error::{Fault, IronCladError};
use crate::page::PAGE_SIZE;
use crate::text::{decimal_text, numbered};

verus! {

broadcast use vstd::std_specs::hash::group_hash_axioms;

/// Frames of a pool built with `BufferPool::new`.
pub const NUM_FRAMES: usize = 12288;

// ---------------------------------------------------------------------------
// The model
// ---------------------------------------------------------------------------

/// What the pool knows about one resident page.
pub struct CachedPage {
    pub data: Seq<u8>,
    pub dirty: bool,
    pub pins: nat,
}

/// The abstract state of a pool: which pages are resident, in which order
/// they were last used (least recently used first), and how many frames
/// there are.
pub struct PoolState {
    pub capacity: nat,
    pub pages: Map<u64, CachedPage>,
    pub lru: Seq<u64>,
}

/// Where a page that is about to be admitted will go.
pub enum Placement {
    /// The page is resident already and is updated in place.
    Resident,
    /// An empty frame is available.
    Free,
    /// The least recently used unpinned page is clean and gives up its frame.
    Evict(u64),
    /// The least recently used unpinned page is dirty and must be persisted first.
    WriteBack(u64),
    /// Every frame holds a pinned page.
    Exhausted,
}

/// The text of the error for an image of `len` bytes, which is not one page:
/// `Page size must be 4096, got ` and `len` in decimal.
pub open spec fn wrong_size_text(len: nat) -> Seq<char> {
    "Page size must be 4096, got "@ + decimal_text(len)
}

/// The queue `lru` after `id` was used: `id` moves to the tail.
pub open spec fn touched(lru: Seq<u64>, id: u64) -> Seq<u64> {
    if lru.contains(id) {
        lru.remove(lru.index_of(id)).push(id)
    } else {
        lru.push(id)
    }
}

impl PoolState {
    /// The invariant of every pool, in terms of its abstract state.
    pub open spec fn well_formed(self) -> bool {
        &&& self.pages.dom().finite()
        &&& self.pages.dom().len() <= self.capacity
        &&& self.lru.no_duplicates()
        &&& forall|id: u64|
            #![trigger self.lru.contains(id)]
            #![trigger self.pages.contains_key(id)]
            self.lru.contains(id) <==> self.pages.contains_key(id)
        &&& forall|id: u64| #[trigger]
            self.pages.contains_key(id) ==> self.pages[id].data.len() == PAGE_SIZE
    }

    pub open spec fn resident(self, id: u64) -> bool {
        self.pages.contains_key(id)
    }

    /// An empty frame exists.
    pub open spec fn has_room(self) -> bool {
        self.pages.dom().len() < self.capacity
    }

    /// A resident page that nobody has pinned.
    pub open spec fn evictable(self, id: u64) -> bool {
        self.pages.contains_key(id) && self.pages[id].pins == 0
    }

    /// Position in the queue, at or after `from`, of the first page that may
    /// be evicted; the length of the queue when there is none.
    pub open spec fn victim_from(self, from: int) -> int
        decreases self.lru.len() - from,
    {
        if from < 0 || from >= self.lru.len() {
            self.lru.len() as int
        } else if self.evictable(self.lru[from]) {
            from
        } else {
            self.victim_from(from + 1)
        }
    }

    /// Position in the queue of the page that eviction would choose.
    pub open spec fn victim_index(self) -> int {
        self.victim_from(0)
    }

    pub open spec fn has_victim(self) -> bool {
        self.victim_index() < self.lru.len()
    }

    /// The page that eviction would choose: the least recently used page
    /// that is not pinned.
    pub open spec fn victim(self) -> u64
        recommends
            self.has_victim(),
    {
        self.lru[self.victim_index()]
    }

    /// Where page `id` goes when it is admitted.
    pub open spec fn placement(self, id: u64) -> Placement {
        if self.resident(id) {
            Placement::Resident
        } else if self.has_room() {
            Placement::Free
        } else if !self.has_victim() {
            Placement::Exhausted
        } else if self.pages[self.victim()].dirty {
            Placement::WriteBack(self.victim())
        } else {
            Placement::Evict(self.victim())
        }
    }

    /// The state after `page` became the image of `id` and `id` was used.
    pub open spec fn install(self, id: u64, page: CachedPage) -> PoolState {
        PoolState { pages: self.pages.insert(id, page), lru: touched(self.lru, id), ..self }
    }

    /// The state after the victim left. The pinned pages that were passed
    /// over on the way to the victim move to the tail of the queue, in order.
    pub open spec fn evict(self) -> PoolState
        recommends
            self.has_victim(),
    {
        let v = self.victim_index();
        PoolState {
            pages: self.pages.remove(self.lru[v]),
            lru: self.lru.subrange(v + 1, self.lru.len() as int) + self.lru.subrange(0, v),
            ..self
        }
    }

    /// The image that `put_page` installs for `id`: dirty, with the pins
    /// that the page has.
    pub open spec fn put_image(self, id: u64, data: Seq<u8>) -> CachedPage {
        CachedPage {
            data,
            dirty: true,
            pins: if self.resident(id) {
                self.pages[id].pins
            } else {
                0
            },
        }
    }

    /// The image that `load_page_into_buffer` installs for `id`: the cached
    /// one where there is one, else the clean image read from the device.
    pub open spec fn load_image(self, id: u64, data: Seq<u8>) -> CachedPage {
        if self.resident(id) {
            self.pages[id]
        } else {
            CachedPage { data, dirty: false, pins: 0 }
        }
    }

    /// The state that an admission of `page` as the image of `id` leaves.
    pub open spec fn after_admission(self, id: u64, page: CachedPage) -> PoolState {
        match self.placement(id) {
            Placement::Resident | Placement::Free => self.install(id, page),
            Placement::Evict(_) => self.evict().install(id, page),
            Placement::WriteBack(_) | Placement::Exhausted => self,
        }
    }

    /// A list that holds every dirty page once, with its image.
    pub open spec fn lists_dirty(self, dirty: Seq<(u64, Seq<u8>)>) -> bool {
        &&& forall|k: int|
            0 <= k < dirty.len() ==> {
                &&& self.resident((#[trigger] dirty[k]).0)
                &&& self.pages[dirty[k].0].dirty
                &&& dirty[k].1 == self.pages[dirty[k].0].data
            }
        &&& forall|id: u64|
            self.resident(id) && self.pages[id].dirty ==> exists|k: int|
                0 <= k < dirty.len() && (#[trigger] dirty[k]).0 == id
        &&& forall|k: int, l: int|
            0 <= k < l < dirty.len() ==> (#[trigger] dirty[k]).0 != (#[trigger] dirty[l]).0
    }

    /// What an admission of `page` as the image of `id` does: `after` is
    /// the state it leaves and `r` what it returns.
    pub open spec fn admitted(
        self,
        id: u64,
        page: CachedPage,
        after: PoolState,
        r: Result<Admission, IronCladError>,
    ) -> bool {
        &&& after == self.after_admission(id, page)
        &&& match self.placement(id) {
            Placement::Resident | Placement::Free | Placement::Evict(_) => {
                r matches Ok(Admission::Installed)
            },
            Placement::WriteBack(victim) => {
                &&& r matches Ok(Admission::WriteBack { page_id, data })
                &&& page_id == victim
                &&& data@ == self.pages[victim].data
            },
            Placement::Exhausted => r matches Err(IronCladError::BufferPoolExhausted),
        }
    }

    /// No page is pinned.
    pub open spec fn unpinned(self) -> bool {
        forall|id: u64| #[trigger] self.pages.contains_key(id) ==> self.pages[id].pins == 0
    }

    /// Every clean page has the image that the page store holds.
    pub open spec fn backed_by(self, store: Map<u64, Seq<u8>>) -> bool {
        forall|id: u64|
            #[trigger] self.pages.contains_key(id) && !self.pages[id].dirty ==> store.contains_key(
                id,
            ) && store[id] == self.pages[id].data
    }

    /// The current image of page `id`: the cached one where the page is
    /// resident, else the one in the page store, if there is one.
    pub open spec fn image(self, store: Map<u64, Seq<u8>>, id: u64) -> Option<Seq<u8>> {
        if self.pages.contains_key(id) {
            Some(self.pages[id].data)
        } else if store.contains_key(id) {
            Some(store[id])
        } else {
            None
        }
    }

    /// The state with page `id` marked clean.
    pub open spec fn cleaned(self, id: u64) -> PoolState {
        if self.resident(id) {
            self.with_page(id, CachedPage { dirty: false, ..self.pages[id] })
        } else {
            self
        }
    }

    /// The state after page `id` was used.
    pub open spec fn touch(self, id: u64) -> PoolState {
        PoolState { lru: touched(self.lru, id), ..self }
    }

    /// The state with the image of `id` replaced by `page`.
    pub open spec fn with_page(self, id: u64, page: CachedPage) -> PoolState {
        PoolState { pages: self.pages.insert(id, page), ..self }
    }
}

// ---------------------------------------------------------------------------
// The pool
// ---------------------------------------------------------------------------

struct Frame {
    page_id: u64,
    data: Vec<u8>,
    is_dirty: bool,
    pin_count: u32,
}

impl Frame {
    spec fn model(self) -> CachedPage {
        CachedPage { data: self.data@, dirty: self.is_dirty, pins: self.pin_count as nat }
    }
}

/// A fixed array of frames, a table from page id to frame, and the queue of
/// resident pages in order of last use.
pub struct BufferPool {
    frames: Vec<Option<Frame>>,
    page_table: HashMap<u64, usize>,
    lru_queue: VecDeque<u64>,
}

/// What the caller of an admission has to do next.
#[derive(Debug)]
pub enum Admission {
    /// The page is resident now.
    Installed,
    /// Nothing has changed. Page `page_id`, whose image is `data`, is dirty
    /// and next in line for eviction: write it to the device, call
    /// `clear_dirty(page_id)` and repeat the admission.
    WriteBack { page_id: u64, data: Vec<u8> },
}

/// A frame for a page that is about to be admitted, or the dirty page that
/// stands in the way.
enum FrameGrant {
    Frame(usize),
    WriteBack { page_id: u64, data: Vec<u8> },
}

/// Counters over the frames of a pool.
#[derive(Debug)]
pub struct BufferPoolStats {
    pub total_frames: usize,
    pub used_frames: usize,
    pub dirty_pages: usize,
    pub pinned_pages: usize,
    pub page_table_size: usize,
}

impl View for BufferPool {
    type V = PoolState;

    closed spec fn view(&self) -> PoolState {
        PoolState {
            capacity: self.frames@.len(),
            pages: Map::new(
                |id: u64| self.page_table@.contains_key(id),
                |id: u64| self.frames@[self.page_table@[id] as int].unwrap().model(),
            ),
            lru: self.lru_queue@,
        }
    }
}

impl BufferPool {
    /// The representation invariant.
    pub closed spec fn wf(&self) -> bool {
        &&& forall|id: u64| #[trigger]
            self.page_table@.contains_key(id) ==> {
                let i = self.page_table@[id];
                &&& i < self.frames@.len()
                &&& self.frames@[i as int] is Some
                &&& self.frames@[i as int].unwrap().page_id == id
            }
        &&& forall|i: int|
            0 <= i < self.frames@.len() && (#[trigger] self.frames@[i]) is Some ==> {
                let f = self.frames@[i].unwrap();
                &&& self.page_table@.contains_key(f.page_id)
                &&& self.page_table@[f.page_id] == i
                &&& f.data@.len() == PAGE_SIZE
            }
        &&& self.lru_queue@.no_duplicates()
        &&& forall|id: u64|
            #![trigger self.lru_queue@.contains(id)]
            #![trigger self.page_table@.contains_key(id)]
            self.lru_queue@.contains(id) <==> self.page_table@.contains_key(id)
    }

    /// Creates a pool of `capacity` empty frames.
    pub fn with_capacity(capacity: usize) -> (pool: BufferPool)
        ensures
            pool.wf(),
            pool@.capacity == capacity,
            pool@.pages == Map::<u64, CachedPage>::empty(),
            pool@.lru == Seq::<u64>::empty(),
    {
        let mut frames: Vec<Option<Frame>> = Vec::with_capacity(capacity);
        let mut i: usize = 0;
        while i < capacity
            invariant
                i <= capacity,
                frames@.len() == i,
                forall|j: int| 0 <= j < i ==> frames@[j] is None,
            decreases capacity - i,
        {
            frames.push(None);
            i += 1;
        }
        let pool = BufferPool { frames, page_table: HashMap::new(), lru_queue: VecDeque::new() };
        proof {
            assert(pool@.pages =~= Map::<u64, CachedPage>::empty());
        }
        pool
    }

    /// Creates a pool of `NUM_FRAMES` empty frames.
    pub fn new() -> (pool: BufferPool)
        ensures
            pool.wf(),
            pool@.capacity == NUM_FRAMES,
            pool@.pages == Map::<u64, CachedPage>::empty(),
            pool@.lru == Seq::<u64>::empty(),
    {
        BufferPool::with_capacity(NUM_FRAMES)
    }

    /// The frame that holds page `page_id`, if it is resident.
    fn frame_of(&self, page_id: u64) -> (r: Option<usize>)
        requires
            self.wf(),
        ensures
            match r {
                Some(i) => {
                    &&& self.page_table@.contains_key(page_id)
                    &&& self.page_table@[page_id] == i
                    &&& i < self.frames@.len()
                    &&& self.frames@[i as int] is Some
                    &&& self.frames@[i as int].unwrap().page_id == page_id
                    &&& self.frames@[i as int].unwrap().data@.len() == PAGE_SIZE
                },
                None => !self.page_table@.contains_key(page_id),
            },
            r is Some <==> self@.resident(page_id),
    {
        match self.page_table.get(&page_id) {
            Some(i) => Some(*i),
            None => None,
        }
    }

    /// The frames that hold a page whose state satisfies `keep`.
    spec fn frames_where(&self, keep: spec_fn(CachedPage) -> bool, below: int) -> Set<int> {
        Set::new(
            |i: int|
                0 <= i < below && i < self.frames@.len() && self.frames@[i] is Some && keep(
                    self.frames@[i].unwrap().model(),
                ),
        )
    }

    /// Resident pages and occupied frames correspond one to one.
    proof fn lemma_count(&self, keep: spec_fn(CachedPage) -> bool)
        requires
            self.wf(),
        ensures
            self@.pages.dom().finite(),
            self@.pages.dom().filter(|id: u64| keep(self@.pages[id])).finite(),
            self@.pages.dom().filter(|id: u64| keep(self@.pages[id])).len() == self.frames_where(
                keep,
                self.frames@.len() as int,
            ).len(),
    {
        let n = self.frames@.len() as int;
        let ids = self@.pages.dom().filter(|id: u64| keep(self@.pages[id]));
        let slots = self.frames_where(keep, n);
        let slot_of = |id: u64| self.page_table@[id] as int;
        assert(self@.pages.dom() =~= self.page_table@.dom());
        assert(ids.finite()) by {
            vstd::set_lib::lemma_set_subset_finite(self@.pages.dom(), ids);
        }
        assert(ids.map(slot_of) =~= slots) by {
            assert forall|i: int| slots.contains(i) implies ids.map(slot_of).contains(i) by {
                let id = self.frames@[i].unwrap().page_id;
                assert(ids.contains(id) && slot_of(id) == i);
            }
        }
        assert(vstd::relations::injective_on(slot_of, ids));
        vstd::set_lib::lemma_map_size(ids, slots, slot_of);
    }

    proof fn lemma_frames_where_bound(&self, keep: spec_fn(CachedPage) -> bool, below: int)
        requires
            0 <= below,
        ensures
            self.frames_where(keep, below).finite(),
            self.frames_where(keep, below).len() <= below,
    {
        vstd::set_lib::lemma_int_range(0, below);
        vstd::set_lib::lemma_len_subset(
            self.frames_where(keep, below),
            vstd::set_lib::set_int_range(0, below),
        );
    }

    /// An empty frame exists exactly when fewer pages are resident than
    /// there are frames.
    proof fn lemma_room(&self)
        requires
            self.wf(),
        ensures
            self@.pages.dom().finite(),
            self@.pages.dom().len() <= self.frames@.len(),
            self@.has_room() <==> exists|i: int|
                0 <= i < self.frames@.len() && self.frames@[i] is None,
    {
        let n = self.frames@.len() as int;
        let any = |p: CachedPage| true;
        self.lemma_count(any);
        self.lemma_frames_where_bound(any, n);
        assert(self@.pages.dom().filter(|id: u64| any(self@.pages[id])) =~= self@.pages.dom());
        let slots = self.frames_where(any, n);
        vstd::set_lib::lemma_int_range(0, n);
        if exists|i: int| 0 <= i < n && self.frames@[i] is None {
            let i = choose|i: int| 0 <= i < n && self.frames@[i] is None;
            let rest = vstd::set_lib::set_int_range(0, n).remove(i);
            vstd::set_lib::lemma_len_subset(slots, rest);
        } else {
            assert(slots =~= vstd::set_lib::set_int_range(0, n));
        }
    }

    /// The abstract state of a pool is well formed.
    pub proof fn lemma_well_formed(&self)
        requires
            self.wf(),
        ensures
            self@.well_formed(),
    {
        self.lemma_room();
    }

    /// Returns a copy of the cached image of `page_id`, and marks the page
    /// as the most recently used. A page that is not resident yields `None`
    /// and leaves the pool as it was: the caller reads it from the device
    /// and admits it with `load_page_into_buffer`.
    pub fn get_page(&mut self, page_id: u64) -> (r: Option<Vec<u8>>)
        requires
            old(self).wf(),
        ensures
            final(self).wf(),
            match r {
                Some(data) => {
                    &&& old(self)@.resident(page_id)
                    &&& data@ == old(self)@.pages[page_id].data
                    &&& final(self)@ == old(self)@.touch(page_id)
                },
                None => !old(self)@.resident(page_id) && final(self)@ == old(self)@,
            },
    {
        match self.frame_of(page_id) {
            Some(i) => {
                let data = match &self.frames[i] {
                    Some(frame) => slice_to_vec(frame.data.as_slice()),
                    None => Vec::new(),
                };
                touch_queue(&mut self.lru_queue, page_id);
                proof {
                    lemma_touched(old(self).lru_queue@, page_id);
                    assert(old(self).lru_queue@.contains(page_id));
                    assert(self@.pages =~= old(self)@.pages);
                    assert forall|id: u64|
                        self.lru_queue@.contains(id) <==> self.page_table@.contains_key(id) by {}
                }
                Some(data)
            },
            None => None,
        }
    }

    /// Returns a copy of the cached image of `page_id`, if the page is
    /// resident, without counting this as a use of the page.
    pub fn peek_page(&self, page_id: u64) -> (r: Option<Vec<u8>>)
        requires
            self.wf(),
        ensures
            match r {
                Some(data) => self@.resident(page_id) && data@ == self@.pages[page_id].data,
                None => !self@.resident(page_id),
            },
    {
        match self.frame_of(page_id) {
            Some(i) => match &self.frames[i] {
                Some(frame) => Some(slice_to_vec(frame.data.as_slice())),
                None => None,
            },
            None => None,
        }
    }

    /// Replaces the bookkeeping of a resident page.
    fn set_flags(&mut self, i: usize, is_dirty: bool, pin_count: u32)
        requires
            old(self).wf(),
            i < old(self).frames@.len(),
            old(self).frames@[i as int] is Some,
        ensures
            final(self).wf(),
            final(self)@ == old(self)@.with_page(
                old(self).frames@[i as int].unwrap().page_id,
                CachedPage {
                    data: old(self).frames@[i as int].unwrap().data@,
                    dirty: is_dirty,
                    pins: pin_count as nat,
                },
            ),
    {
        let ghost id = self.frames@[i as int].unwrap().page_id;
        match &mut self.frames[i] {
            Some(frame) => {
                frame.is_dirty = is_dirty;
                frame.pin_count = pin_count;
            },
            None => {},
        }
        proof {
            assert(self.frames@[i as int].unwrap().page_id == id);
            assert(self@.pages =~= old(self)@.pages.insert(
                id,
                CachedPage {
                    data: old(self).frames@[i as int].unwrap().data@,
                    dirty: is_dirty,
                    pins: pin_count as nat,
                },
            ));
        }
    }

    /// Pins a resident page so that it cannot be evicted.
    ///
    /// Fails with `PageNotFound` when the page is not resident, and with
    /// `PagePinned` when its pin count is at its largest value already.
    pub fn pin_page(&mut self, page_id: u64) -> (r: Result<(), IronCladError>)
        requires
            old(self).wf(),
        ensures
            final(self).wf(),
            match r {
                Ok(()) => {
                    &&& old(self)@.resident(page_id)
                    &&& old(self)@.pages[page_id].pins < u32::MAX
                    &&& final(self)@ == old(self)@.with_page(
                        page_id,
                        CachedPage {
                            pins: old(self)@.pages[page_id].pins + 1,
                            ..old(self)@.pages[page_id]
                        },
                    )
                },
                Err(IronCladError::PageNotFound { page_id: id }) => {
                    &&& !old(self)@.resident(page_id)
                    &&& id == page_id
                    &&& final(self)@ == old(self)@
                },
                Err(IronCladError::PagePinned { page_id: id }) => {
                    &&& old(self)@.resident(page_id)
                    &&& old(self)@.pages[page_id].pins == u32::MAX
                    &&& id == page_id
                    &&& final(self)@ == old(self)@
                },
                Err(_) => false,
            },
    {
        match self.frame_of(page_id) {
            Some(i) => {
                let (dirty, pins) = self.flags(i);
                if pins == u32::MAX {
                    Err(IronCladError::PagePinned { page_id })
                } else {
                    self.set_flags(i, dirty, pins + 1);
                    Ok(())
                }
            },
            None => Err(IronCladError::PageNotFound { page_id }),
        }
    }

    /// Releases one pin of a resident page. Unpinning a page that is not
    /// pinned changes nothing.
    ///
    /// Fails with `PageNotFound` when the page is not resident.
    pub fn unpin_page(&mut self, page_id: u64) -> (r: Result<(), IronCladError>)
        requires
            old(self).wf(),
        ensures
            final(self).wf(),
            match r {
                Ok(()) => {
                    &&& old(self)@.resident(page_id)
                    &&& final(self)@ == old(self)@.with_page(
                        page_id,
                        CachedPage {
                            pins: if old(self)@.pages[page_id].pins > 0 {
                                (old(self)@.pages[page_id].pins - 1) as nat
                            } else {
                                0
                            },
                            ..old(self)@.pages[page_id]
                        },
                    )
                },
                Err(IronCladError::PageNotFound { page_id: id }) => {
                    &&& !old(self)@.resident(page_id)
                    &&& id == page_id
                    &&& final(self)@ == old(self)@
                },
                Err(_) => false,
            },
    {
        match self.frame_of(page_id) {
            Some(i) => {
                let (dirty, pins) = self.flags(i);
                let fewer: u32 = if pins > 0 {
                    pins - 1
                } else {
                    0
                };
                self.set_flags(i, dirty, fewer);
                Ok(())
            },
            None => Err(IronCladError::PageNotFound { page_id }),
        }
    }

    /// Marks a resident page clean. The caller has persisted the page itself.
    ///
    /// Fails with `PageNotFound` when the page is not resident.
    pub fn clear_dirty(&mut self, page_id: u64) -> (r: Result<(), IronCladError>)
        requires
            old(self).wf(),
        ensures
            final(self).wf(),
            match r {
                Ok(()) => {
                    &&& old(self)@.resident(page_id)
                    &&& final(self)@ == old(self)@.with_page(
                        page_id,
                        CachedPage { dirty: false, ..old(self)@.pages[page_id] },
                    )
                },
                Err(IronCladError::PageNotFound { page_id: id }) => {
                    &&& !old(self)@.resident(page_id)
                    &&& id == page_id
                    &&& final(self)@ == old(self)@
                },
                Err(_) => false,
            },
    {
        match self.frame_of(page_id) {
            Some(i) => {
                let (_, pins) = self.flags(i);
                self.set_flags(i, false, pins);
                Ok(())
            },
            None => Err(IronCladError::PageNotFound { page_id }),
        }
    }

    /// The dirty flag and the pin count of the page in frame `i`.
    fn flags(&self, i: usize) -> (r: (bool, u32))
        requires
            i < self.frames@.len(),
            self.frames@[i as int] is Some,
        ensures
            r.0 == self.frames@[i as int].unwrap().is_dirty,
            r.1 == self.frames@[i as int].unwrap().pin_count,
    {
        match &self.frames[i] {
            Some(frame) => (frame.is_dirty, frame.pin_count),
            None => (false, 0),
        }
    }

    /// The first frame that holds no page.
    fn find_empty_frame(&self) -> (r: Option<usize>)
        requires
            self.wf(),
        ensures
            r is Some <==> self@.has_room(),
            match r {
                Some(i) => i < self.frames@.len() && self.frames@[i as int] is None,
                None => true,
            },
    {
        proof {
            self.lemma_room();
        }
        let mut i: usize = 0;
        while i < self.frames.len()
            invariant
                i <= self.frames@.len(),
                forall|j: int| 0 <= j < i ==> self.frames@[j] is Some,
                self@.has_room() <==> exists|i: int|
                    0 <= i < self.frames@.len() && self.frames@[i] is None,
            decreases self.frames@.len() - i,
        {
            if self.frames[i].is_none() {
                assert(0 <= i < self.frames@.len() && self.frames@[i as int] is None);
                return Some(i);
            }
            i += 1;
        }
        None
    }

    /// The position in the queue of the least recently used page that is
    /// not pinned.
    fn find_victim(&self) -> (r: Option<usize>)
        requires
            self.wf(),
        ensures
            r is Some <==> self@.has_victim(),
            match r {
                Some(v) => v == self@.victim_index() && v < self.lru_queue@.len(),
                None => true,
            },
    {
        let mut i: usize = 0;
        while i < self.lru_queue.len()
            invariant
                self.wf(),
                i <= self.lru_queue@.len(),
                self@.victim_index() == self@.victim_from(i as int),
            decreases self.lru_queue@.len() - i,
        {
            let id = self.lru_queue[i];
            assert(self.lru_queue@.contains(id));
            match self.frame_of(id) {
                Some(f) => {
                    let (_, pins) = self.flags(f);
                    if pins == 0 {
                        return Some(i);
                    }
                },
                None => {},
            }
            i += 1;
        }
        None
    }

    /// Frees the frame of the least recently used unpinned page.
    ///
    /// A clean victim leaves the pool and its frame is granted. A dirty
    /// victim stays: it is handed out to be persisted first. Pinned pages
    /// that were passed over move to the tail of the queue.
    #[verifier::rlimit(50)]
    fn evict_page(&mut self) -> (r: Result<FrameGrant, IronCladError>)
        requires
            old(self).wf(),
        ensures
            final(self).wf(),
            match r {
                Ok(FrameGrant::Frame(i)) => {
                    &&& old(self)@.has_victim()
                    &&& !old(self)@.pages[old(self)@.victim()].dirty
                    &&& final(self)@ == old(self)@.evict()
                    &&& i < final(self).frames@.len()
                    &&& final(self).frames@[i as int] is None
                },
                Ok(FrameGrant::WriteBack { page_id, data }) => {
                    &&& old(self)@.has_victim()
                    &&& old(self)@.pages[old(self)@.victim()].dirty
                    &&& page_id == old(self)@.victim()
                    &&& data@ == old(self)@.pages[page_id].data
                    &&& final(self)@ == old(self)@
                },
                Err(e) => {
                    &&& e is BufferPoolExhausted
                    &&& !old(self)@.has_victim()
                    &&& final(self)@ == old(self)@
                },
            },
    {
        let v = match self.find_victim() {
            Some(v) => v,
            None => {
                return Err(IronCladError::BufferPoolExhausted);
            },
        };
        let victim = self.lru_queue[v];
        assert(self.lru_queue@.contains(victim));
        let f = match self.frame_of(victim) {
            Some(f) => f,
            None => {
                return Err(IronCladError::BufferPoolExhausted);
            },
        };
        let (dirty, _) = self.flags(f);
        if dirty {
            let data = match &self.frames[f] {
                Some(frame) => slice_to_vec(frame.data.as_slice()),
                None => Vec::new(),
            };
            return Ok(FrameGrant::WriteBack { page_id: victim, data });
        }
        rotate_out(&mut self.lru_queue, v);
        self.page_table.remove(&victim);
        self.frames[f] = None;
        proof {
            let before = old(self).lru_queue@;
            lemma_rotated_out(before, v as int);
            assert(self@.pages =~= old(self)@.pages.remove(victim)) by {
                assert forall|id: u64| self.page_table@.contains_key(id) implies self.frames@[self.page_table@[id] as int]
                    == old(self).frames@[old(self).page_table@[id] as int] by {
                    assert(old(self).page_table@.contains_key(id));
                }
            }
            assert forall|id: u64|
                self.lru_queue@.contains(id) <==> self.page_table@.contains_key(id) by {
                assert(old(self).lru_queue@.contains(id) <==> old(self).page_table@.contains_key(
                    id,
                ));
            }
            assert forall|id: u64| #[trigger] self.page_table@.contains_key(id) implies ({
                let i = self.page_table@[id];
                &&& i < self.frames@.len()
                &&& self.frames@[i as int] is Some
                &&& self.frames@[i as int].unwrap().page_id == id
            }) by {
                assert(old(self).page_table@.contains_key(id));
            }
        }
        Ok(FrameGrant::Frame(f))
    }

    /// Finds a frame for a page that is about to be admitted: an empty one
    /// if there is any, else the frame of an evicted page.
    fn get_free_frame(&mut self) -> (r: Result<FrameGrant, IronCladError>)
        requires
            old(self).wf(),
        ensures
            final(self).wf(),
            match r {
                Ok(FrameGrant::Frame(i)) => {
                    &&& i < final(self).frames@.len()
                    &&& final(self).frames@[i as int] is None
                    &&& if old(self)@.has_room() {
                        final(self)@ == old(self)@
                    } else {
                        &&& old(self)@.has_victim()
                        &&& !old(self)@.pages[old(self)@.victim()].dirty
                        &&& final(self)@ == old(self)@.evict()
                    }
                },
                Ok(FrameGrant::WriteBack { page_id, data }) => {
                    &&& !old(self)@.has_room()
                    &&& old(self)@.has_victim()
                    &&& old(self)@.pages[old(self)@.victim()].dirty
                    &&& page_id == old(self)@.victim()
                    &&& data@ == old(self)@.pages[page_id].data
                    &&& final(self)@ == old(self)@
                },
                Err(e) => {
                    &&& e is BufferPoolExhausted
                    &&& !old(self)@.has_room()
                    &&& !old(self)@.has_victim()
                    &&& final(self)@ == old(self)@
                },
            },
    {
        match self.find_empty_frame() {
            Some(i) => Ok(FrameGrant::Frame(i)),
            None => self.evict_page(),
        }
    }

    /// Puts a page that is not resident into the empty frame `i`.
    #[verifier::rlimit(50)]
    fn install_in(&mut self, i: usize, page_id: u64, data: Vec<u8>, is_dirty: bool)
        requires
            old(self).wf(),
            i < old(self).frames@.len(),
            old(self).frames@[i as int] is None,
            !old(self)@.resident(page_id),
            data@.len() == PAGE_SIZE,
        ensures
            final(self).wf(),
            final(self)@ == old(self)@.install(
                page_id,
                CachedPage { data: data@, dirty: is_dirty, pins: 0 },
            ),
    {
        self.frames[i] = Some(Frame { page_id, data, is_dirty, pin_count: 0 });
        self.page_table.insert(page_id, i);
        touch_queue(&mut self.lru_queue, page_id);
        proof {
            lemma_touched(old(self).lru_queue@, page_id);
            assert forall|id: u64| #[trigger] self.page_table@.contains_key(id) implies ({
                let j = self.page_table@[id];
                &&& j < self.frames@.len()
                &&& self.frames@[j as int] is Some
                &&& self.frames@[j as int].unwrap().page_id == id
            }) by {
                if id != page_id {
                    assert(old(self).page_table@.contains_key(id));
                }
            }
            assert forall|j: int|
                0 <= j < self.frames@.len() && (#[trigger] self.frames@[j]) is Some implies ({
                let f = self.frames@[j].unwrap();
                &&& self.page_table@.contains_key(f.page_id)
                &&& self.page_table@[f.page_id] == j
                &&& f.data@.len() == PAGE_SIZE
            }) by {
                if j != i {
                    assert(old(self).frames@[j] is Some);
                }
            }
            assert forall|id: u64|
                self.lru_queue@.contains(id) <==> self.page_table@.contains_key(id) by {
                assert(old(self).lru_queue@.contains(id) <==> old(self).page_table@.contains_key(
                    id,
                ));
            }
            assert(self@.pages =~= old(self)@.pages.insert(
                page_id,
                CachedPage { data: data@, dirty: is_dirty, pins: 0 },
            )) by {
                assert forall|id: u64| old(self).page_table@.contains_key(id) implies self.frames@[self.page_table@[id] as int]
                    == old(self).frames@[old(self).page_table@[id] as int] by {}
            }
        }
    }

    /// Admits a page that is not resident.
    fn admit_absent(&mut self, page_id: u64, data: Vec<u8>, is_dirty: bool) -> (r: Result<
        Admission,
        IronCladError,
    >)
        requires
            old(self).wf(),
            !old(self)@.resident(page_id),
            data@.len() == PAGE_SIZE,
        ensures
            final(self).wf(),
            old(self)@.admitted(
                page_id,
                CachedPage { data: data@, dirty: is_dirty, pins: 0 },
                final(self)@,
                r,
            ),
    {
        match self.get_free_frame() {
            Ok(FrameGrant::Frame(i)) => {
                self.install_in(i, page_id, data, is_dirty);
                Ok(Admission::Installed)
            },
            Ok(FrameGrant::WriteBack { page_id: victim, data: image }) => Ok(
                Admission::WriteBack { page_id: victim, data: image },
            ),
            Err(e) => Err(e),
        }
    }

    /// Installs `data` as the current image of `page_id` and marks it dirty
    /// and most recently used.
    ///
    /// A resident page is updated in place and keeps its pins. Otherwise the
    /// page takes an empty frame, or the frame of the least recently used
    /// unpinned page. Where that victim is dirty nothing changes and the
    /// victim is handed out: see `Admission::WriteBack`.
    ///
    /// Fails with `ConfigError` when `data` is not exactly one page long,
    /// and with `BufferPoolExhausted` when every frame holds a pinned page.
    #[verifier::rlimit(50)]
    pub fn put_page(&mut self, page_id: u64, data: Vec<u8>) -> (r: Result<
        Admission,
        IronCladError,
    >)
        requires
            old(self).wf(),
        ensures
            final(self).wf(),
            data@.len() != PAGE_SIZE ==> {
                &&& r matches Err(e) && e@ == Fault::ConfigError(wrong_size_text(data@.len()))
                &&& final(self)@ == old(self)@
            },
            data@.len() == PAGE_SIZE ==> old(self)@.admitted(
                page_id,
                old(self)@.put_image(page_id, data@),
                final(self)@,
                r,
            ),
    {
        if data.len() != PAGE_SIZE {
            return Err(
                IronCladError::ConfigError(
                    numbered("Page size must be 4096, got ", data.len() as u64),
                ),
            );
        }
        match self.frame_of(page_id) {
            Some(i) => {
                let (_, pins) = self.flags(i);
                let ghost image = data@;
                self.frames[i] = Some(Frame { page_id, data, is_dirty: true, pin_count: pins });
                touch_queue(&mut self.lru_queue, page_id);
                proof {
                    lemma_touched(old(self).lru_queue@, page_id);
                    assert(old(self).lru_queue@.contains(page_id));
                    assert(self@.pages =~= old(self)@.pages.insert(
                        page_id,
                        CachedPage { data: image, dirty: true, pins: pins as nat },
                    ));
                    assert forall|id: u64|
                        self.lru_queue@.contains(id) <==> self.page_table@.contains_key(id) by {}
                    assert forall|j: int|
                        0 <= j < self.frames@.len() && (#[trigger] self.frames@[j]) is Some implies ({
                        let f = self.frames@[j].unwrap();
                        &&& self.page_table@.contains_key(f.page_id)
                        &&& self.page_table@[f.page_id] == j
                        &&& f.data@.len() == PAGE_SIZE
                    }) by {
                        if j != i {
                            assert(old(self).frames@[j] is Some);
                        }
                    }
                }
                Ok(Admission::Installed)
            },
            None => self.admit_absent(page_id, data, true),
        }
    }

    /// Admits the image of `page_id` that was just read from the device:
    /// the page becomes resident, clean, unpinned and most recently used.
    ///
    /// Where the page is resident already the cached image is at least as
    /// new as the device's: it stays, and the page only becomes the most
    /// recently used. Frames are found as in `put_page`.
    ///
    /// Fails with `ConfigError` when `data` is not exactly one page long,
    /// and with `BufferPoolExhausted` when every frame holds a pinned page.
    pub fn load_page_into_buffer(&mut self, page_id: u64, data: Vec<u8>) -> (r: Result<
        Admission,
        IronCladError,
    >)
        requires
            old(self).wf(),
        ensures
            final(self).wf(),
            data@.len() != PAGE_SIZE ==> {
                &&& r matches Err(e) && e@ == Fault::ConfigError(wrong_size_text(data@.len()))
                &&& final(self)@ == old(self)@
            },
            data@.len() == PAGE_SIZE ==> old(self)@.admitted(
                page_id,
                old(self)@.load_image(page_id, data@),
                final(self)@,
                r,
            ),
    {
        if data.len() != PAGE_SIZE {
            return Err(
                IronCladError::ConfigError(
                    numbered("Page size must be 4096, got ", data.len() as u64),
                ),
            );
        }
        match self.frame_of(page_id) {
            Some(_) => {
                touch_queue(&mut self.lru_queue, page_id);
                proof {
                    lemma_touched(old(self).lru_queue@, page_id);
                    assert(old(self).lru_queue@.contains(page_id));
                    assert(self@.pages =~= old(self)@.pages.insert(
                        page_id,
                        old(self)@.pages[page_id],
                    ));
                    assert forall|id: u64|
                        self.lru_queue@.contains(id) <==> self.page_table@.contains_key(id) by {}
                }
                Ok(Admission::Installed)
            },
            None => self.admit_absent(page_id, data, false),
        }
    }

    /// A snapshot of the dirty pages: each dirty resident page once, with a
    /// copy of its image.
    #[verifier::rlimit(50)]
    pub fn get_dirty_pages(&self) -> (dirty: Vec<(u64, Vec<u8>)>)
        requires
            self.wf(),
        ensures
            self@.lists_dirty(dirty.deep_view()),
    {
        let mut dirty: Vec<(u64, Vec<u8>)> = Vec::new();
        let mut i: usize = 0;
        while i < self.frames.len()
            invariant
                self.wf(),
                i <= self.frames@.len(),
                forall|k: int|
                    0 <= k < dirty@.len() ==> {
                        &&& self.page_table@.contains_key((#[trigger] dirty@[k]).0)
                        &&& self.page_table@[dirty@[k].0] < i
                        &&& self@.pages[dirty@[k].0].dirty
                        &&& dirty@[k].1@ == self@.pages[dirty@[k].0].data
                    },
                forall|id: u64|
                    self.page_table@.contains_key(id) && self.page_table@[id] < i
                        && self@.pages[id].dirty ==> exists|k: int|
                        0 <= k < dirty@.len() && (#[trigger] dirty@[k]).0 == id,
                forall|k: int, l: int|
                    0 <= k < l < dirty@.len() ==> (#[trigger] dirty@[k]).0 != (
                    #[trigger] dirty@[l]).0,
            decreases self.frames@.len() - i,
        {
            match &self.frames[i] {
                Some(frame) => {
                    if frame.is_dirty {
                        let ghost before = dirty@;
                        dirty.push((frame.page_id, slice_to_vec(frame.data.as_slice())));
                        proof {
                            assert(self.frames@[i as int] is Some);
                            assert forall|id: u64|
                                self.page_table@.contains_key(id) && self.page_table@[id] < i + 1
                                    && self@.pages[id].dirty implies exists|k: int|
                                0 <= k < dirty@.len() && (#[trigger] dirty@[k]).0 == id by {
                                if self.page_table@[id] < i {
                                    let k = choose|k: int|
                                        0 <= k < before.len() && (#[trigger] before[k]).0 == id;
                                    assert(dirty@[k].0 == id);
                                } else {
                                    assert(dirty@[before.len() as int].0 == id);
                                }
                            }
                        }
                    }
                },
                None => {},
            }
            i += 1;
        }
        proof {
            let listed = dirty.deep_view();
            assert(listed.len() == dirty@.len());
            assert forall|k: int| 0 <= k < listed.len() implies (#[trigger] listed[k]).0
                == dirty@[k].0 && listed[k].1 == dirty@[k].1@ by {}
            assert forall|id: u64| self@.resident(id) && self@.pages[id].dirty implies exists|
                k: int,
            |
                0 <= k < listed.len() && (#[trigger] listed[k]).0 == id by {
                let k = choose|k: int| 0 <= k < dirty@.len() && (#[trigger] dirty@[k]).0 == id;
                assert(listed[k].0 == id);
            }
        }
        dirty
    }

    /// Counts the frames in use, the dirty pages and the pinned pages.
    pub fn stats(&self) -> (stats: BufferPoolStats)
        requires
            self.wf(),
        ensures
            stats.total_frames == self@.capacity,
            stats.used_frames == self@.pages.dom().len(),
            stats.page_table_size == self@.pages.dom().len(),
            stats.dirty_pages == self@.pages.dom().filter(|id: u64| self@.pages[id].dirty).len(),
            stats.pinned_pages == self@.pages.dom().filter(
                |id: u64| self@.pages[id].pins > 0,
            ).len(),
    {
        let ghost any = |p: CachedPage| true;
        let ghost is_dirty = |p: CachedPage| p.dirty;
        let ghost is_pinned = |p: CachedPage| p.pins > 0;
        let mut used_frames: usize = 0;
        let mut dirty_pages: usize = 0;
        let mut pinned_pages: usize = 0;
        let mut i: usize = 0;
        proof {
            assert(self.frames_where(any, 0) =~= Set::<int>::empty());
            assert(self.frames_where(is_dirty, 0) =~= Set::<int>::empty());
            assert(self.frames_where(is_pinned, 0) =~= Set::<int>::empty());
        }
        while i < self.frames.len()
            invariant
                i <= self.frames@.len(),
                any == |p: CachedPage| true,
                is_dirty == |p: CachedPage| p.dirty,
                is_pinned == |p: CachedPage| p.pins > 0,
                used_frames == self.frames_where(any, i as int).len(),
                dirty_pages == self.frames_where(is_dirty, i as int).len(),
                pinned_pages == self.frames_where(is_pinned, i as int).len(),
            decreases self.frames@.len() - i,
        {
            proof {
                self.lemma_frames_where_step(any, i as int);
                self.lemma_frames_where_step(is_dirty, i as int);
                self.lemma_frames_where_step(is_pinned, i as int);
                self.lemma_frames_where_bound(any, i as int);
                self.lemma_frames_where_bound(is_dirty, i as int);
                self.lemma_frames_where_bound(is_pinned, i as int);
            }
            match &self.frames[i] {
                Some(frame) => {
                    used_frames += 1;
                    if frame.is_dirty {
                        dirty_pages += 1;
                    }
                    if frame.pin_count > 0 {
                        pinned_pages += 1;
                    }
                },
                None => {},
            }
            i += 1;
        }
        proof {
            self.lemma_count(any);
            self.lemma_count(is_dirty);
            self.lemma_count(is_pinned);
            assert(self@.pages.dom().filter(|id: u64| any(self@.pages[id])) =~= self@.pages.dom());
            assert(self@.pages.dom() =~= self.page_table@.dom());
            assert(self@.pages.dom().filter(|id: u64| is_dirty(self@.pages[id]))
                =~= self@.pages.dom().filter(|id: u64| self@.pages[id].dirty));
            assert(self@.pages.dom().filter(|id: u64| is_pinned(self@.pages[id]))
                =~= self@.pages.dom().filter(|id: u64| self@.pages[id].pins > 0));
        }
        BufferPoolStats {
            total_frames: self.frames.len(),
            used_frames,
            dirty_pages,
            pinned_pages,
            page_table_size: self.page_table.len(),
        }
    }

    /// Looking at one more frame adds that frame to the count, or nothing.
    proof fn lemma_frames_where_step(&self, keep: spec_fn(CachedPage) -> bool, i: int)
        requires
            0 <= i < self.frames@.len(),
        ensures
            self.frames_where(keep, i).finite(),
            self.frames_where(keep, i + 1).len() == self.frames_where(keep, i).len() + (if
                self.frames@[i] is Some && keep(self.frames@[i].unwrap().model()) {
                1nat
            } else {
                0nat
            }),
    {
        self.lemma_frames_where_bound(keep, i);
        if self.frames@[i] is Some && keep(self.frames@[i].unwrap().model()) {
            assert(self.frames_where(keep, i + 1) =~= self.frames_where(keep, i).insert(i));
        } else {
            assert(self.frames_where(keep, i + 1) =~= self.frames_where(keep, i));
        }
    }
}

/// Moves `page_id` to the tail of the queue, adding it if it is absent.
fn touch_queue(queue: &mut VecDeque<u64>, page_id: u64)
    requires
        old(queue)@.no_duplicates(),
    ensures
        final(queue)@ == touched(old(queue)@, page_id),
{
    let mut i: usize = 0;
    let mut found: Option<usize> = None;
    while i < queue.len()
        invariant_except_break
            forall|j: int| 0 <= j < i ==> queue@[j] != page_id,
            found is None,
        invariant
            queue@ == old(queue)@,
            i <= queue@.len(),
        ensures
            queue@ == old(queue)@,
            match found {
                Some(at) => at < queue@.len() && queue@[at as int] == page_id,
                None => !queue@.contains(page_id),
            },
        decreases queue.len() - i,
    {
        if queue[i] == page_id {
            found = Some(i);
            break ;
        }
        i += 1;
    }
    match found {
        Some(at) => {
            proof {
                assert(queue@.contains(page_id));
                assert(queue@.index_of(page_id) == at);
            }
            queue.remove(at);
        },
        None => {},
    }
    queue.push_back(page_id);
}

/// Takes the page at position `v` out of the queue and moves the pages in
/// front of it to the tail, in order.
fn rotate_out(queue: &mut VecDeque<u64>, v: usize)
    requires
        v < old(queue)@.len(),
    ensures
        final(queue)@ == old(queue)@.subrange(v + 1, old(queue)@.len() as int) + old(
            queue,
        )@.subrange(0, v as int),
{
    let mut k: usize = 0;
    while k < v
        invariant
            k <= v < old(queue)@.len(),
            queue@ == old(queue)@.subrange(k as int, old(queue)@.len() as int) + old(
                queue,
            )@.subrange(0, k as int),
        decreases v - k,
    {
        let ghost before = queue@;
        match queue.pop_front() {
            Some(id) => {
                queue.push_back(id);
            },
            None => {},
        }
        k += 1;
        proof {
            assert(queue@ =~= old(queue)@.subrange(k as int, old(queue)@.len() as int) + old(
                queue,
            )@.subrange(0, k as int));
        }
    }
    queue.pop_front();
    proof {
        assert(queue@ =~= old(queue)@.subrange(v + 1, old(queue)@.len() as int) + old(
            queue,
        )@.subrange(0, v as int));
    }
}

/// Rotating a page out of a queue without repetitions leaves a queue
/// without repetitions that holds every other page.
proof fn lemma_rotated_out(lru: Seq<u64>, v: int)
    requires
        lru.no_duplicates(),
        0 <= v < lru.len(),
    ensures
        (lru.subrange(v + 1, lru.len() as int) + lru.subrange(0, v)).no_duplicates(),
        forall|x: u64|
            (lru.subrange(v + 1, lru.len() as int) + lru.subrange(0, v)).contains(x) <==> (
            lru.contains(x) && x != lru[v]),
{
    let tail = lru.subrange(v + 1, lru.len() as int);
    let head = lru.subrange(0, v);
    let r = tail + head;
    assert forall|i: int, j: int| 0 <= i < r.len() && 0 <= j < r.len() && i != j implies r[i]
        != r[j] by {
        let a = if i < tail.len() { i + v + 1 } else { i - tail.len() };
        let b = if j < tail.len() { j + v + 1 } else { j - tail.len() };
        assert(r[i] == lru[a] && r[j] == lru[b]);
    }
    assert forall|x: u64| r.contains(x) <==> (lru.contains(x) && x != lru[v]) by {
        if r.contains(x) {
            let i = choose|i: int| 0 <= i < r.len() && r[i] == x;
            let a = if i < tail.len() { i + v + 1 } else { i - tail.len() };
            assert(lru[a] == x);
        }
        if lru.contains(x) && x != lru[v] {
            let a = lru.index_of(x);
            let i = if a > v { a - v - 1 } else { a + tail.len() };
            assert(r[i] == x);
        }
    }
}

/// A page that was installed is resident.
pub proof fn lemma_admitted_is_resident(pool: PoolState, id: u64, page: CachedPage)
    requires
        pool.placement(id) is Resident || pool.placement(id) is Free || pool.placement(id) is Evict,
    ensures
        pool.after_admission(id, page).resident(id),
        pool.after_admission(id, page).pages[id] == page,
{
}

/// Using a page keeps the queue free of repetitions, keeps every other page
/// in it, and puts the page into it.
pub proof fn lemma_touched(lru: Seq<u64>, id: u64)
    requires
        lru.no_duplicates(),
    ensures
        touched(lru, id).no_duplicates(),
        touched(lru, id).last() == id,
        forall|x: u64| touched(lru, id).contains(x) <==> (lru.contains(x) || x == id),
        lru.contains(id) ==> touched(lru, id).len() == lru.len(),
        !lru.contains(id) ==> touched(lru, id).len() == lru.len() + 1,
{
    let t = touched(lru, id);
    if lru.contains(id) {
        let at = lru.index_of(id);
        let cut = lru.remove(at);
        assert(cut.no_duplicates());
        assert(!cut.contains(id));
        assert forall|x: u64| t.contains(x) <==> (lru.contains(x) || x == id) by {
            if t.contains(x) {
                let j = choose|j: int| 0 <= j < t.len() && t[j] == x;
                if j < cut.len() {
                    assert(cut[j] == lru[if j < at { j } else { j + 1 }]);
                }
            }
            if lru.contains(x) && x != id {
                let j = lru.index_of(x);
                let k = if j < at { j } else { j - 1 };
                assert(cut[k] == x);
                assert(t[k] == x);
            }
            if x == id {
                assert(t[t.len() - 1] == id);
            }
        }
    } else {
        assert forall|x: u64| t.contains(x) <==> (lru.contains(x) || x == id) by {
            if t.contains(x) {
                let j = choose|j: int| 0 <= j < t.len() && t[j] == x;
                if j < lru.len() {
                    assert(lru[j] == x);
                }
            }
            if lru.contains(x) {
                let j = lru.index_of(x);
                assert(t[j] == x);
            }
            if x == id {
                assert(t[t.len() - 1] == id);
            }
        }
    }
}

// ---------------------------------------------------------------------------
// Laws of the abstract state
// ---------------------------------------------------------------------------

/// The page that eviction chooses is resident, unpinned and in the queue,
/// and every page in front of it is pinned.
pub proof fn lemma_victim(pool: PoolState, from: int)
    requires
        pool.well_formed(),
        0 <= from,
        pool.victim_from(from) < pool.lru.len(),
    ensures
        from <= pool.victim_from(from),
        pool.evictable(pool.lru[pool.victim_from(from)]),
        forall|i: int| from <= i < pool.victim_from(from) ==> !pool.evictable(pool.lru[i]),
    decreases pool.lru.len() - from,
{
    if from < pool.lru.len() && !pool.evictable(pool.lru[from]) {
        lemma_victim(pool, from + 1);
    }
}

/// Where no page is pinned and every frame is taken, the least recently
/// used page is the victim.
pub proof fn lemma_unpinned_has_victim(pool: PoolState)
    requires
        pool.well_formed(),
        pool.unpinned(),
        !pool.has_room(),
        pool.capacity > 0,
    ensures
        pool.has_victim(),
        pool.victim_index() == 0,
{
    if pool.lru.len() == 0 {
        assert(pool.pages.dom() =~= Set::<u64>::empty()) by {
            assert forall|id: u64| !pool.pages.dom().contains(id) by {
                if pool.pages.contains_key(id) {
                    assert(pool.lru.contains(id));
                }
            }
        }
    } else {
        assert(pool.lru.contains(pool.lru[0]));
    }
}

/// A change of what the pool knows about a resident page, other than its
/// pins, changes neither the victim nor where a page would go, but for the
/// victim being dirty or clean.
pub proof fn lemma_with_page_keeps_victim(pool: PoolState, id: u64, page: CachedPage, from: int)
    requires
        pool.resident(id),
        page.pins == pool.pages[id].pins,
        0 <= from,
    ensures
        pool.with_page(id, page).victim_from(from) == pool.victim_from(from),
    decreases pool.lru.len() - from,
{
    if from < pool.lru.len() && !pool.evictable(pool.lru[from]) {
        lemma_with_page_keeps_victim(pool, id, page, from + 1);
    }
}

/// A pool stays well formed when a resident page gets another image of
/// the size of a page.
pub proof fn lemma_with_page_well_formed(pool: PoolState, id: u64, page: CachedPage)
    requires
        pool.well_formed(),
        pool.resident(id),
        page.data.len() == PAGE_SIZE,
    ensures
        pool.with_page(id, page).well_formed(),
        pool.with_page(id, page).pages.dom() == pool.pages.dom(),
{
    assert(pool.with_page(id, page).pages.dom() =~= pool.pages.dom());
}

/// Once the dirty page that stood in the way is clean, it is evicted.
pub proof fn lemma_cleaned_victim_leaves(pool: PoolState, id: u64)
    requires
        pool.well_formed(),
        pool.placement(id) is WriteBack,
    ensures
        pool.cleaned(pool.victim()).well_formed(),
        pool.cleaned(pool.victim()).placement(id) == Placement::Evict(pool.victim()),
        pool.cleaned(pool.victim()).victim() == pool.victim(),
{
    let v = pool.victim();
    lemma_victim(pool, 0);
    let page = CachedPage { dirty: false, ..pool.pages[v] };
    lemma_with_page_keeps_victim(pool, v, page, 0);
    lemma_with_page_well_formed(pool, v, page);
}

/// A pool stays well formed when a resident page is used.
pub proof fn lemma_touch_well_formed(pool: PoolState, id: u64)
    requires
        pool.well_formed(),
        pool.resident(id),
    ensures
        pool.touch(id).well_formed(),
{
    lemma_touched(pool.lru, id);
    assert(pool.lru.contains(id));
}

/// A pool stays well formed when a page is installed for which there is a
/// frame.
pub proof fn lemma_install_well_formed(pool: PoolState, id: u64, page: CachedPage)
    requires
        pool.well_formed(),
        pool.resident(id) || pool.has_room(),
        page.data.len() == PAGE_SIZE,
    ensures
        pool.install(id, page).well_formed(),
        pool.install(id, page).resident(id),
        pool.install(id, page).pages[id] == page,
        forall|other: u64|
            other != id ==> (pool.install(id, page).resident(other) <==> pool.resident(other)),
        forall|other: u64|
            other != id && pool.resident(other) ==> pool.install(id, page).pages[other]
                == pool.pages[other],
{
    lemma_touched(pool.lru, id);
    let after = pool.install(id, page);
    if pool.resident(id) {
        assert(after.pages.dom() =~= pool.pages.dom());
    } else {
        assert(after.pages.dom() =~= pool.pages.dom().insert(id));
    }
    assert forall|x: u64| after.lru.contains(x) <==> after.pages.contains_key(x) by {
        assert(pool.lru.contains(x) <==> pool.pages.contains_key(x));
    }
}

/// A pool stays well formed when the victim leaves, and has a frame to
/// spare then.
pub proof fn lemma_evict_well_formed(pool: PoolState)
    requires
        pool.well_formed(),
        pool.has_victim(),
    ensures
        pool.evict().well_formed(),
        pool.evict().has_room(),
        pool.resident(pool.victim()),
        pool.pages[pool.victim()].pins == 0,
        !pool.evict().resident(pool.victim()),
        forall|other: u64|
            other != pool.victim() ==> (pool.evict().resident(other) <==> pool.resident(other)),
        forall|other: u64|
            other != pool.victim() && pool.resident(other) ==> pool.evict().pages[other]
                == pool.pages[other],
{
    lemma_victim(pool, 0);
    let v = pool.victim_index();
    lemma_rotated_out(pool.lru, v);
    let after = pool.evict();
    assert(pool.lru.contains(pool.lru[v]));
    assert(after.pages.dom() =~= pool.pages.dom().remove(pool.lru[v]));
    assert forall|x: u64| after.lru.contains(x) <==> after.pages.contains_key(x) by {
        assert(pool.lru.contains(x) <==> pool.pages.contains_key(x));
    }
}

/// What an admission that goes through leaves: a well-formed pool in which
/// the page is resident with the image it was given, and in which every
/// other page but the victim is as it was.
pub proof fn lemma_admission(pool: PoolState, id: u64, page: CachedPage)
    requires
        pool.well_formed(),
        page.data.len() == PAGE_SIZE,
        pool.placement(id) is Resident || pool.placement(id) is Free || pool.placement(id) is Evict,
    ensures
        pool.after_admission(id, page).well_formed(),
        pool.after_admission(id, page).resident(id),
        pool.after_admission(id, page).pages[id] == page,
        forall|other: u64|
            other != id && !(pool.placement(id) == Placement::Evict(other)) ==> (
            pool.after_admission(id, page).resident(other) <==> pool.resident(other)),
        forall|other: u64|
            other != id && pool.after_admission(id, page).resident(other) ==> pool.resident(other)
                && pool.after_admission(id, page).pages[other] == pool.pages[other],
        pool.placement(id) matches Placement::Evict(victim) ==> {
            &&& victim != id
            &&& pool.resident(victim)
            &&& !pool.pages[victim].dirty
            &&& !pool.after_admission(id, page).resident(victim)
        },
{
    match pool.placement(id) {
        Placement::Evict(victim) => {
            lemma_evict_well_formed(pool);
            lemma_install_well_formed(pool.evict(), id, page);
        },
        _ => {
            lemma_install_well_formed(pool, id, page);
        },
    }
}

/// A pinned page is never evicted: it is resident after every admission.
pub proof fn lemma_pinned_page_stays(pool: PoolState, id: u64, page: CachedPage, pinned: u64)
    requires
        pool.well_formed(),
        pool.resident(pinned),
        pool.pages[pinned].pins > 0,
    ensures
        pool.after_admission(id, page).resident(pinned),
{
    if pool.placement(id) is Evict {
        lemma_evict_well_formed(pool);
    }
}

/// Least recently used: a page that was just used is not chosen for
/// eviction while any other page can be evicted.
pub proof fn lemma_used_page_is_spared(pool: PoolState, id: u64, other: u64)
    requires
        pool.well_formed(),
        pool.resident(id),
        pool.evictable(other),
        other != id,
    ensures
        pool.touch(id).has_victim(),
        pool.touch(id).victim() != id,
{
    let used = pool.touch(id);
    lemma_touched(pool.lru, id);
    lemma_touch_well_formed(pool, id);
    assert(pool.lru.contains(other));
    assert(used.lru.contains(other));
    let at = choose|i: int| 0 <= i < used.lru.len() && used.lru[i] == other;
    assert(at < used.lru.len() - 1) by {
        assert(used.lru.last() == id);
    }
    lemma_victim_is_first(used, 0, at);
    lemma_victim(used, 0);
    if used.victim() == id {
        let v = used.victim_index();
        assert(used.lru[v] == used.lru[used.lru.len() - 1]);
    }
}

/// The victim stands at or before every page that can be evicted.
proof fn lemma_victim_is_first(pool: PoolState, from: int, at: int)
    requires
        0 <= from <= at < pool.lru.len(),
        pool.evictable(pool.lru[at]),
    ensures
        pool.victim_from(from) <= at,
    decreases at - from,
{
    if from < at && !pool.evictable(pool.lru[from]) {
        lemma_victim_is_first(pool, from + 1, at);
    }
}

} // verus!
