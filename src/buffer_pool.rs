//! A bounded cache of pages over a `PagedFile`, with pin counts, dirty flags
//! and least-recently-unpinned eviction. It is the only reader and writer of
//! the file.
use vstd::prelude::*;

use crate::error::StorageError;
use crate::paged_file::PagedFile;
use crate::slotted_page::{
    compact, compacted, delete, free_space_start, init_page, insert, insert_post, page_id_of,
    page_wf, read, read_spec, slot_count, PageError,
};

verus! {

/// One resident page and its bookkeeping.
pub struct Frame {
    pub page_id: u32,
    pub data: Vec<u8>,
    pub pin_count: u32,
    pub dirty: bool,
    /// Value of the pool's clock when the frame was last loaded or unpinned.
    pub last_used: u64,
}

pub struct BufferPool {
    file: PagedFile,
    frames: Vec<Frame>,
    capacity: usize,
    clock: u64,
}

impl BufferPool {
    pub closed spec fn frames(&self) -> Seq<Frame> {
        self.frames@
    }

    pub closed spec fn file(&self) -> PagedFile {
        self.file
    }

    pub closed spec fn spec_clock(&self) -> nat {
        self.clock as nat
    }

    pub closed spec fn spec_capacity(&self) -> nat {
        self.capacity as nat
    }

    /// Page `p` has a frame.
    pub open spec fn resident(&self, p: int) -> bool {
        exists|i: int| 0 <= i < self.frames().len() && #[trigger] self.frames()[i].page_id == p
    }

    /// The index of the frame of page `p`, when it is resident.
    pub open spec fn frame_index(&self, p: int) -> int {
        choose|i: int| 0 <= i < self.frames().len() && #[trigger] self.frames()[i].page_id == p
    }

    /// The current contents of every page: the frame's bytes where the page
    /// is resident, the file's bytes elsewhere.
    pub open spec fn image(&self) -> Seq<Seq<u8>> {
        Seq::new(
            self.file().pages().len(),
            |p: int|
                if self.resident(p) {
                    self.frames()[self.frame_index(p)].data@
                } else {
                    self.file().pages()[p]
                },
        )
    }

    /// Pinning page `p` fails for want of a frame: its pin count is at the
    /// maximum, or it is not resident and every frame of a full pool is
    /// pinned.
    pub open spec fn exhausted_for(&self, p: int) -> bool {
        if self.resident(p) {
            self.frames()[self.frame_index(p)].pin_count == u32::MAX
        } else {
            &&& p < self.file().pages().len()
            &&& self.frames().len() >= self.spec_capacity()
            &&& forall|j: int|
                0 <= j < self.frames().len() ==> (#[trigger] self.frames()[j]).pin_count > 0
        }
    }

    pub open spec fn wf(&self) -> bool {
        &&& self.file().wf()
        &&& self.frames().len() <= self.spec_capacity()
        &&& forall|i: int, j: int|
            0 <= i < self.frames().len() && 0 <= j < self.frames().len() && i != j
                ==> #[trigger] self.frames()[i].page_id != #[trigger] self.frames()[j].page_id
        &&& forall|i: int|
            0 <= i < self.frames().len() ==> {
                let f = #[trigger] self.frames()[i];
                &&& f.page_id < self.file().pages().len()
                &&& f.last_used <= self.spec_clock()
                &&& f.data@.len() == self.file().spec_page_size()
                &&& !f.dirty ==> f.data@ == self.file().pages()[f.page_id as int]
            }
    }

    /// A resident page's current bytes are its frame's.
    pub proof fn lemma_image_resident(&self, i: int)
        requires
            self.wf(),
            0 <= i < self.frames().len(),
        ensures
            self.resident(self.frames()[i].page_id as int),
            self.frame_index(self.frames()[i].page_id as int) == i,
            self.image()[self.frames()[i].page_id as int] == self.frames()[i].data@,
    {
        let p = self.frames()[i].page_id as int;
        assert(self.resident(p));
        let j = self.frame_index(p);
        assert(self.frames()[j].page_id == p);
    }

    /// A page without a frame has its current bytes in the file: what an
    /// evicted page held was written back before its frame was reused.
    pub proof fn lemma_image_absent(&self, p: int)
        requires
            self.wf(),
            0 <= p < self.file().pages().len(),
            !self.resident(p),
        ensures
            self.image()[p] == self.file().pages()[p],
    {
    }

    /// A valid pool never holds more frames than its capacity.
    pub proof fn lemma_capacity_bound(&self)
        requires
            self.wf(),
        ensures
            self.frames().len() <= self.spec_capacity(),
    {
    }

    /// An empty pool of `capacity` frames over `file`.
    pub fn new(file: PagedFile, capacity: usize) -> (r: BufferPool)
        requires
            file.wf(),
        ensures
            r.wf(),
            r.file() == file,
            r.frames().len() == 0,
            r.spec_capacity() == capacity,
            r.image() == file.pages(),
    {
        let r = BufferPool { file, frames: Vec::new(), capacity, clock: 0 };
        assert(r.image() =~= file.pages());
        r
    }

    pub fn capacity(&self) -> (r: usize)
        ensures
            r == self.spec_capacity(),
    {
        self.capacity
    }

    pub fn page_size(&self) -> (r: usize)
        ensures
            r == self.file().spec_page_size(),
    {
        self.file.page_size()
    }

    pub fn page_count(&self) -> (r: u32)
        requires
            self.wf(),
        ensures
            r == self.file().pages().len(),
    {
        self.file.page_count()
    }

    /// Number of resident frames.
    pub fn resident_count(&self) -> (r: usize)
        ensures
            r == self.frames().len(),
    {
        self.frames.len()
    }

    /// The file behind the pool.
    pub fn file_ref(&self) -> (r: &PagedFile)
        ensures
            *r == self.file(),
    {
        &self.file
    }

    /// The ids of the resident pages, in frame order.
    pub fn get_all_page_ids(&self) -> (r: Vec<u32>)
        ensures
            r@ == self.frames().map_values(|f: Frame| f.page_id),
    {
        let mut ids: Vec<u32> = Vec::new();
        let mut i: usize = 0;
        while i < self.frames.len()
            invariant
                i <= self.frames@.len(),
                ids@ =~= self.frames@.subrange(0, i as int).map_values(|f: Frame| f.page_id),
            decreases self.frames@.len() - i,
        {
            ids.push(self.frames[i].page_id);
            i = i + 1;
        }
        assert(self.frames@.subrange(0, self.frames@.len() as int) =~= self.frames@);
        ids
    }

    /// Pins page `page_id` and returns the index of its frame.
    ///
    /// A resident page gets one more pin. Otherwise the page is loaded into a
    /// new frame while the pool has room, or else into the frame of the
    /// unpinned page that was least recently unpinned, which is written back
    /// to the file first when dirty. Fails with `OutOfRange` for a page the
    /// file does not have, and with `PoolExhausted` when every frame is
    /// pinned (or the page's pin count is at its maximum). The contents of
    /// every page stay as they were.
    pub fn pin_page(&mut self, page_id: u32) -> (r: Result<usize, StorageError>)
        requires
            old(self).wf(),
        ensures
            final(self).wf(),
            final(self).spec_capacity() == old(self).spec_capacity(),
            final(self).file().spec_page_size() == old(self).file().spec_page_size(),
            final(self).file().pages().len() == old(self).file().pages().len(),
            final(self).image() == old(self).image(),
            match r {
                Ok(idx) => {
                    &&& idx < final(self).frames().len()
                    &&& page_id < old(self).file().pages().len()
                    &&& final(self).frames()[idx as int].page_id == page_id
                    &&& final(self).frames()[idx as int].data@ == old(self).image()[page_id as int]
                    &&& if old(self).resident(page_id as int) {
                        &&& idx == old(self).frame_index(page_id as int)
                        &&& final(self).frames()[idx as int].pin_count == old(self).frames()[idx as int].pin_count + 1
                        &&& final(self).frames()[idx as int].dirty == old(self).frames()[idx as int].dirty
                        &&& final(self).frames().len() == old(self).frames().len()
                        &&& forall|j: int|
                            0 <= j < old(self).frames().len() && j != idx ==> #[trigger] final(self).frames()[j] == old(self).frames()[j]
                        &&& final(self).file() == old(self).file()
                    } else {
                        &&& final(self).frames()[idx as int].pin_count == 1
                        &&& !final(self).frames()[idx as int].dirty
                        &&& if old(self).frames().len() < old(self).spec_capacity() {
                            &&& idx == old(self).frames().len()
                            &&& final(self).frames().len() == old(self).frames().len() + 1
                            &&& forall|j: int|
                                0 <= j < old(self).frames().len() ==> #[trigger] final(self).frames()[j] == old(self).frames()[j]
                            &&& final(self).file() == old(self).file()
                        } else {
                            // the evicted frame: unpinned, least recently used
                            let victim = old(self).frames()[idx as int];
                            &&& idx < old(self).frames().len()
                            &&& victim.pin_count == 0
                            &&& forall|j: int|
                                0 <= j < old(self).frames().len() && (#[trigger] old(self).frames()[j]).pin_count == 0 ==> victim.last_used <= old(self).frames()[j].last_used
                            &&& final(self).frames().len() == old(self).frames().len()
                            &&& forall|j: int|
                                0 <= j < old(self).frames().len() && j != idx ==> #[trigger] final(self).frames()[j] == old(self).frames()[j]
                            &&& final(self).file().pages() == old(self).file().pages().update(
                                victim.page_id as int,
                                victim.data@,
                            )
                        }
                    }
                },
                Err(e) => {
                    &&& *final(self) == *old(self)
                    &&& (e == StorageError::OutOfRange <==> !old(self).resident(page_id as int)
                        && page_id >= old(self).file().pages().len())
                    &&& (e == StorageError::PoolExhausted <==> old(self).exhausted_for(page_id as int))
                    &&& (e == StorageError::OutOfRange || e == StorageError::PoolExhausted)
                },
            },
    {
        match self.find_frame(page_id) {
            Some(i) => {
                proof {
                    self.lemma_image_resident(i as int);
                }
                if self.frames[i].pin_count == u32::MAX {
                    return Err(StorageError::PoolExhausted);
                }
                let ghost before = *self;
                self.frames[i].pin_count = self.frames[i].pin_count + 1;
                proof {
                    assert forall|j: int| 0 <= j < self.frames@.len() implies self.frames@[j]
                        == before.frames@[j] || j == i by {}
                    self.lemma_image_resident(i as int);
                    self.lemma_same_image(before);
                }
                return Ok(i);
            },
            None => {},
        }
        if page_id >= self.file.page_count() {
            return Err(StorageError::OutOfRange);
        }
        let n = self.frames.len();
        if n < self.capacity {
            let data = match self.file.read_page(page_id) {
                Ok(d) => d,
                Err(e) => {
                    return Err(e);
                },
            };
            let ghost before = *self;
            self.frames.push(Frame { page_id, data, pin_count: 1, dirty: false, last_used: self.clock });
            proof {
                assert forall|j: int| 0 <= j < before.frames@.len() implies self.frames@[j]
                    == before.frames@[j] by {}
                self.lemma_image_resident(n as int);
                before.lemma_image_absent(page_id as int);
                self.lemma_same_image(before);
            }
            return Ok(n);
        }
        let v = match self.find_victim() {
            Some(v) => v,
            None => {
                return Err(StorageError::PoolExhausted);
            },
        };
        let ghost before = *self;
        let victim_page = self.frames[v].page_id;
        if self.frames[v].dirty {
            match self.file.write_page(victim_page, &self.frames[v].data) {
                Ok(_) => {},
                Err(e) => {
                    return Err(e);
                },
            }
        } else {
            assert(self.file.pages().update(victim_page as int, self.frames@[v as int].data@)
                =~= self.file.pages());
        }
        let data = match self.file.read_page(page_id) {
            Ok(d) => d,
            Err(e) => {
                return Err(e);
            },
        };
        self.frames.set(v, Frame { page_id, data, pin_count: 1, dirty: false, last_used: self.clock });
        proof {
            before.lemma_image_resident(v as int);
            before.lemma_image_absent(page_id as int);
            self.lemma_evicted(before, v as int);
        }
        Ok(v)
    }

    /// The image is unchanged when every page keeps its bytes: where a frame
    /// stayed, changed or appeared, it holds what the page held.
    proof fn lemma_same_image(&self, before: BufferPool)
        requires
            self.wf(),
            before.wf(),
            self.file() == before.file(),
            forall|i: int|
                0 <= i < self.frames().len() ==> #[trigger] self.frames()[i].data@ == before.image()[self.frames()[i].page_id as int],
            forall|p: int|
                0 <= p < before.file().pages().len() && before.resident(p) ==> #[trigger] self.resident(p),
        ensures
            self.image() == before.image(),
    {
        assert forall|p: int| 0 <= p < self.image().len() implies self.image()[p] == before.image()[p] by {
            if self.resident(p) {
                let i = self.frame_index(p);
                self.lemma_image_resident(i);
            } else {
                self.lemma_image_absent(p);
                assert(!before.resident(p));
                before.lemma_image_absent(p);
            }
        }
        assert(self.image() =~= before.image());
    }

    proof fn lemma_evicted(&self, before: BufferPool, v: int)
        requires
            self.wf(),
            before.wf(),
            0 <= v < before.frames().len(),
            self.frames().len() == before.frames().len(),
            forall|j: int| 0 <= j < before.frames().len() && j != v ==> #[trigger] self.frames()[j] == before.frames()[j],
            !before.resident(self.frames()[v].page_id as int),
            self.frames()[v].data@ == before.file().pages()[self.frames()[v].page_id as int],
            self.file().pages() == before.file().pages().update(
                before.frames()[v].page_id as int,
                before.frames()[v].data@,
            ),
        ensures
            self.image() == before.image(),
    {
        let q = before.frames()[v].page_id as int;
        let p = self.frames()[v].page_id as int;
        before.lemma_image_resident(v);
        assert forall|x: int| 0 <= x < self.image().len() implies self.image()[x] == before.image()[x] by {
            if self.resident(x) {
                let i = self.frame_index(x);
                self.lemma_image_resident(i);
                if i != v {
                    before.lemma_image_resident(i);
                } else {
                    before.lemma_image_absent(p);
                }
            } else {
                self.lemma_image_absent(x);
                if x != q {
                    if before.resident(x) {
                        let i = before.frame_index(x);
                        assert(self.frames()[i].page_id == x);
                    }
                    before.lemma_image_absent(x);
                }
            }
        }
        assert(self.image() =~= before.image());
    }

    proof fn lemma_frame_changed(&self, before: BufferPool, idx: int)
        requires
            self.wf(),
            before.wf(),
            self.file() == before.file(),
            0 <= idx < before.frames().len(),
            self.frames().len() == before.frames().len(),
            self.frames()[idx].page_id == before.frames()[idx].page_id,
            forall|j: int| 0 <= j < before.frames().len() && j != idx ==> #[trigger] self.frames()[j] == before.frames()[j],
        ensures
            self.image() == before.image().update(
                before.frames()[idx].page_id as int,
                self.frames()[idx].data@,
            ),
    {
        let q = before.frames()[idx].page_id as int;
        self.lemma_image_resident(idx);
        assert forall|x: int| 0 <= x < self.image().len() && x != q implies self.image()[x] == before.image()[x] by {
            if self.resident(x) {
                let i = self.frame_index(x);
                self.lemma_image_resident(i);
                before.lemma_image_resident(i);
            } else {
                self.lemma_image_absent(x);
                if before.resident(x) {
                    let i = before.frame_index(x);
                    assert(self.frames()[i].page_id == x);
                }
                before.lemma_image_absent(x);
            }
        }
        assert(self.image() =~= before.image().update(q, self.frames()[idx].data@));
    }

    /// Releases one pin of page `page_id`, marks it dirty when `is_dirty`
    /// (a dirty mark stays until the page is written back) and makes it the
    /// most recently used frame. Unpinning a page that has no pin is a
    /// breach of the calling contract, excluded by `requires`.
    pub fn unpin_page(&mut self, page_id: u32, is_dirty: bool)
        requires
            old(self).wf(),
            old(self).resident(page_id as int),
            old(self).frames()[old(self).frame_index(page_id as int)].pin_count > 0,
        ensures
            final(self).wf(),
            final(self).spec_capacity() == old(self).spec_capacity(),
            final(self).file() == old(self).file(),
            final(self).image() == old(self).image(),
            final(self).frames().len() == old(self).frames().len(),
            ({
                let i = old(self).frame_index(page_id as int);
                let f0 = old(self).frames()[i];
                let f1 = final(self).frames()[i];
                &&& f1.page_id == page_id
                &&& f1.data == f0.data
                &&& f1.pin_count == f0.pin_count - 1
                &&& f1.dirty == (f0.dirty || is_dirty)
                &&& forall|j: int|
                    0 <= j < old(self).frames().len() ==> f1.last_used >= (#[trigger] old(
                        self,
                    ).frames()[j]).last_used
                &&& forall|j: int|
                    0 <= j < old(self).frames().len() && j != i ==> #[trigger] final(self).frames()[j]
                        == old(self).frames()[j]
            }),
    {
        let i = match self.find_frame(page_id) {
            Some(i) => i,
            None => {
                return;
            },
        };
        proof {
            self.lemma_image_resident(i as int);
        }
        let ghost before = *self;
        let clock = self.clock;
        self.frames[i].pin_count = self.frames[i].pin_count - 1;
        self.frames[i].dirty = self.frames[i].dirty || is_dirty;
        self.frames[i].last_used = clock;
        if self.clock < u64::MAX {
            self.clock = self.clock + 1;
        }
        proof {
            self.lemma_frame_changed(before, i as int);
            assert(self.image() =~= before.image());
        }
    }

    /// Writes page `page_id` back to the file if it is resident and dirty,
    /// and marks it clean. The file then holds the page's current bytes.
    pub fn flush_page(&mut self, page_id: u32)
        requires
            old(self).wf(),
        ensures
            final(self).wf(),
            final(self).spec_capacity() == old(self).spec_capacity(),
            final(self).image() == old(self).image(),
            final(self).frames().len() == old(self).frames().len(),
            final(self).file().spec_page_size() == old(self).file().spec_page_size(),
            page_id < old(self).image().len() ==> final(self).file().pages() == old(
                self,
            ).file().pages().update(page_id as int, old(self).image()[page_id as int]),
            page_id >= old(self).image().len() ==> final(self).file() == old(self).file(),
            forall|j: int|
                0 <= j < old(self).frames().len() ==> {
                    let f0 = #[trigger] old(self).frames()[j];
                    let f1 = final(self).frames()[j];
                    &&& f1.page_id == f0.page_id
                    &&& f1.data == f0.data
                    &&& f1.pin_count == f0.pin_count
                    &&& f1.last_used == f0.last_used
                    &&& f1.dirty == (f0.dirty && f0.page_id != page_id)
                },
    {
        let i = match self.find_frame(page_id) {
            Some(i) => i,
            None => {
                if page_id < self.file.page_count() {
                    proof {
                        self.lemma_image_absent(page_id as int);
                    }
                    assert(self.file.pages().update(page_id as int, self.image()[page_id as int])
                        =~= self.file.pages());
                }
                return;
            },
        };
        proof {
            self.lemma_image_resident(i as int);
        }
        self.write_back(i);
    }

    /// Writes frame `i` back to the file if dirty and marks it clean.
    fn write_back(&mut self, i: usize)
        requires
            old(self).wf(),
            i < old(self).frames().len(),
        ensures
            final(self).wf(),
            final(self).spec_capacity() == old(self).spec_capacity(),
            final(self).image() == old(self).image(),
            final(self).frames().len() == old(self).frames().len(),
            final(self).file().spec_page_size() == old(self).file().spec_page_size(),
            final(self).file().pages() == old(self).file().pages().update(
                old(self).frames()[i as int].page_id as int,
                old(self).frames()[i as int].data@,
            ),
            forall|j: int|
                0 <= j < old(self).frames().len() ==> {
                    let f0 = #[trigger] old(self).frames()[j];
                    let f1 = final(self).frames()[j];
                    &&& f1.page_id == f0.page_id
                    &&& f1.data == f0.data
                    &&& f1.pin_count == f0.pin_count
                    &&& f1.last_used == f0.last_used
                    &&& f1.dirty == (f0.dirty && j != i)
                },
    {
        let ghost before = *self;
        proof {
            self.lemma_image_resident(i as int);
        }
        if self.frames[i].dirty {
            let p = self.frames[i].page_id;
            match self.file.write_page(p, &self.frames[i].data) {
                Ok(_) => {},
                Err(_) => {},
            }
            self.frames[i].dirty = false;
            proof {
                assert forall|x: int| 0 <= x < self.image().len() implies self.image()[x]
                    == before.image()[x] by {
                    if x == p {
                        self.lemma_image_resident(i as int);
                    } else if self.resident(x) {
                        let j = self.frame_index(x);
                        self.lemma_image_resident(j);
                        before.lemma_image_resident(j);
                    } else {
                        self.lemma_image_absent(x);
                        if before.resident(x) {
                            let j = before.frame_index(x);
                            assert(self.frames()[j].page_id == x);
                        }
                        before.lemma_image_absent(x);
                    }
                }
                assert(self.image() =~= before.image());
            }
        } else {
            assert(self.file.pages().update(
                self.frames@[i as int].page_id as int,
                self.frames@[i as int].data@,
            ) =~= self.file.pages());
        }
    }

    /// Writes every dirty frame back; the file then holds the image.
    pub fn flush_all(&mut self)
        requires
            old(self).wf(),
        ensures
            final(self).wf(),
            final(self).spec_capacity() == old(self).spec_capacity(),
            final(self).image() == old(self).image(),
            final(self).file().pages() == old(self).image(),
            final(self).file().spec_page_size() == old(self).file().spec_page_size(),
            final(self).frames().len() == old(self).frames().len(),
            forall|j: int|
                0 <= j < old(self).frames().len() ==> {
                    let f0 = #[trigger] old(self).frames()[j];
                    let f1 = final(self).frames()[j];
                    &&& f1.page_id == f0.page_id
                    &&& f1.data == f0.data
                    &&& f1.pin_count == f0.pin_count
                    &&& !f1.dirty
                },
    {
        let ghost before = *self;
        let mut i: usize = 0;
        while i < self.frames.len()
            invariant
                self.wf(),
                i <= self.frames@.len(),
                self.spec_capacity() == before.spec_capacity(),
                self.file().spec_page_size() == before.file().spec_page_size(),
                self.image() == before.image(),
                self.frames@.len() == before.frames().len(),
                forall|j: int|
                    0 <= j < before.frames().len() ==> {
                        let f0 = #[trigger] before.frames()[j];
                        let f1 = self.frames()[j];
                        &&& f1.page_id == f0.page_id
                        &&& f1.data == f0.data
                        &&& f1.pin_count == f0.pin_count
                        &&& (j < i ==> !f1.dirty)
                    },
            decreases self.frames@.len() - i,
        {
            self.write_back(i);
            i = i + 1;
        }
        proof {
            assert forall|x: int| 0 <= x < self.image().len() implies self.file().pages()[x]
                == before.image()[x] by {
                if self.resident(x) {
                    let j = self.frame_index(x);
                    self.lemma_image_resident(j);
                    let f0 = before.frames()[j];
                    assert(!self.frames()[j].dirty);
                } else {
                    self.lemma_image_absent(x);
                }
            }
            assert(self.file().pages() =~= before.image());
        }
    }

    /// Appends a zero-filled page to the file and returns its id;
    /// `OutOfRange` when no id is left.
    pub fn allocate_page(&mut self) -> (r: Result<u32, StorageError>)
        requires
            old(self).wf(),
        ensures
            final(self).wf(),
            final(self).spec_capacity() == old(self).spec_capacity(),
            final(self).frames() == old(self).frames(),
            final(self).file().spec_page_size() == old(self).file().spec_page_size(),
            match r {
                Ok(id) => id == old(self).image().len() && final(self).image() == old(
                    self,
                ).image().push(Seq::new(old(self).file().spec_page_size(), |i: int| 0u8)),
                Err(e) => e == StorageError::OutOfRange && final(self).image() == old(self).image()
                    && old(self).image().len() == crate::paged_file::MAX_PAGE_COUNT,
            },
    {
        let ghost before = *self;
        let r = self.file.allocate_page();
        proof {
            assert forall|x: int| 0 <= x < before.image().len() implies self.image()[x]
                == before.image()[x] by {
                if self.resident(x) {
                    let j = self.frame_index(x);
                    self.lemma_image_resident(j);
                    before.lemma_image_resident(j);
                } else {
                    self.lemma_image_absent(x);
                    before.lemma_image_absent(x);
                }
            }
            if r.is_ok() {
                let n = before.image().len() as int;
                assert(!self.resident(n));
                self.lemma_image_absent(n);
                assert(self.image() =~= before.image().push(
                    Seq::new(before.file().spec_page_size(), |i: int| 0u8),
                ));
            } else {
                assert(self.image() =~= before.image());
            }
        }
        r
    }

    /// `after` differs from `self` at most in the bytes and the dirty flag of
    /// frame `idx`, and its image follows the frame's new bytes.
    pub open spec fn frame_rewritten(&self, after: BufferPool, idx: int) -> bool {
        &&& after.wf()
        &&& after.spec_capacity() == self.spec_capacity()
        &&& after.file() == self.file()
        &&& after.frames().len() == self.frames().len()
        &&& after.frames()[idx].page_id == self.frames()[idx].page_id
        &&& after.frames()[idx].pin_count == self.frames()[idx].pin_count
        &&& after.frames()[idx].last_used == self.frames()[idx].last_used
        &&& after.frames()[idx].data@.len() == self.frames()[idx].data@.len()
        &&& (after.frames()[idx].dirty || after.frames()[idx].data@ != self.frames()[idx].data@
            ==> after.frames()[idx].dirty)
        &&& forall|j: int|
            0 <= j < self.frames().len() && j != idx ==> #[trigger] after.frames()[j]
                == self.frames()[j]
        &&& after.image() == self.image().update(
            self.frames()[idx].page_id as int,
            after.frames()[idx].data@,
        )
    }

    /// Formats the page of frame `idx` as an empty page carrying its id, and
    /// marks it dirty.
    pub fn init_frame(&mut self, idx: usize)
        requires
            old(self).wf(),
            idx < old(self).frames().len(),
        ensures
            old(self).frame_rewritten(*final(self), idx as int),
            final(self).frames()[idx as int].dirty,
            page_wf(final(self).frames()[idx as int].data@),
            slot_count(final(self).frames()[idx as int].data@) == 0,
            free_space_start(final(self).frames()[idx as int].data@) == old(self).file().spec_page_size(),
            page_id_of(final(self).frames()[idx as int].data@) == old(self).frames()[idx as int].page_id,
    {
        let ghost before = *self;
        let page_id = self.frames[idx].page_id;
        init_page(&mut self.frames[idx].data, page_id);
        self.frames[idx].dirty = true;
        proof {
            self.lemma_frame_changed(before, idx as int);
        }
    }

    /// Inserts `doc` into the page of frame `idx`; on success the frame is
    /// marked dirty.
    pub fn insert_into(&mut self, idx: usize, doc: &[u8]) -> (r: Result<u16, PageError>)
        requires
            old(self).wf(),
            idx < old(self).frames().len(),
        ensures
            old(self).frame_rewritten(*final(self), idx as int),
            insert_post(old(self).frames()[idx as int].data@, final(self).frames()[idx as int].data@, doc@, r),
            final(self).frames()[idx as int].dirty == (old(self).frames()[idx as int].dirty || r is Ok),
    {
        let ghost before = *self;
        let r = insert(&mut self.frames[idx].data, doc);
        if r.is_ok() {
            self.frames[idx].dirty = true;
        }
        proof {
            self.lemma_frame_changed(before, idx as int);
        }
        r
    }

    /// Compacts the page of frame `idx`; on success the frame is marked
    /// dirty.
    pub fn compact_in(&mut self, idx: usize) -> (r: Result<(), PageError>)
        requires
            old(self).wf(),
            idx < old(self).frames().len(),
        ensures
            old(self).frame_rewritten(*final(self), idx as int),
            final(self).frames()[idx as int].dirty == (old(self).frames()[idx as int].dirty || r is Ok),
            match r {
                Ok(_) => page_wf(old(self).frames()[idx as int].data@) && compacted(
                    old(self).frames()[idx as int].data@,
                    final(self).frames()[idx as int].data@,
                ),
                Err(e) => e == PageError::Corrupt && !page_wf(old(self).frames()[idx as int].data@)
                    && final(self).frames()[idx as int].data@ == old(self).frames()[idx as int].data@,
            },
    {
        let ghost before = *self;
        let r = compact(&mut self.frames[idx].data);
        if r.is_ok() {
            self.frames[idx].dirty = true;
        }
        proof {
            self.lemma_frame_changed(before, idx as int);
        }
        r
    }

    /// Marks slot `slot_id` of the page of frame `idx` as deleted; on success
    /// the frame is marked dirty.
    pub fn delete_in(&mut self, idx: usize, slot_id: u16) -> (r: Result<(), PageError>)
        requires
            old(self).wf(),
            idx < old(self).frames().len(),
        ensures
            old(self).frame_rewritten(*final(self), idx as int),
            final(self).frames()[idx as int].dirty == (old(self).frames()[idx as int].dirty || r is Ok),
            ({
                let b0 = old(self).frames()[idx as int].data@;
                let b1 = final(self).frames()[idx as int].data@;
                match r {
                    Ok(_) => {
                        &&& read_spec(b0, slot_id as int) is Ok || read_spec(b0, slot_id as int)
                            == Err::<Seq<u8>, PageError>(PageError::Tombstoned)
                        &&& page_wf(b1)
                        &&& slot_count(b1) == slot_count(b0)
                        &&& page_id_of(b1) == page_id_of(b0)
                        &&& read_spec(b1, slot_id as int) == Err::<Seq<u8>, PageError>(
                            PageError::Tombstoned,
                        )
                        &&& forall|i: int|
                            0 <= i < slot_count(b0) && i != slot_id ==> #[trigger] read_spec(b1, i)
                                == read_spec(b0, i)
                    },
                    Err(e) => {
                        &&& b1 == b0
                        &&& read_spec(b0, slot_id as int) == Err::<Seq<u8>, PageError>(e)
                        &&& (e == PageError::Corrupt || e == PageError::SlotNotFound)
                    },
                }
            }),
    {
        let ghost before = *self;
        let r = delete(&mut self.frames[idx].data, slot_id);
        if r.is_ok() {
            self.frames[idx].dirty = true;
        }
        proof {
            self.lemma_frame_changed(before, idx as int);
        }
        r
    }

    /// The bytes of slot `slot_id` in the page of frame `idx`.
    pub fn read_from(&self, idx: usize, slot_id: u16) -> (r: Result<Vec<u8>, PageError>)
        requires
            idx < self.frames().len(),
        ensures
            match r {
                Ok(v) => read_spec(self.frames()[idx as int].data@, slot_id as int) == Ok::<
                    Seq<u8>,
                    PageError,
                >(v@),
                Err(e) => read_spec(self.frames()[idx as int].data@, slot_id as int) == Err::<
                    Seq<u8>,
                    PageError,
                >(e),
            },
    {
        read(&self.frames[idx].data, slot_id)
    }

    /// The frame index of page `page_id`, if resident.
    fn find_frame(&self, page_id: u32) -> (r: Option<usize>)
        requires
            self.wf(),
        ensures
            match r {
                Some(i) => i < self.frames().len() && self.frames()[i as int].page_id == page_id,
                None => !self.resident(page_id as int),
            },
    {
        let mut i: usize = 0;
        while i < self.frames.len()
            invariant
                i <= self.frames@.len(),
                forall|j: int| 0 <= j < i ==> #[trigger] self.frames@[j].page_id != page_id,
            decreases self.frames@.len() - i,
        {
            if self.frames[i].page_id == page_id {
                return Some(i);
            }
            i = i + 1;
        }
        None
    }

    /// The unpinned frame with the smallest recency mark, the first of them
    /// on a tie.
    fn find_victim(&self) -> (r: Option<usize>)
        ensures
            match r {
                Some(v) => {
                    &&& v < self.frames().len()
                    &&& self.frames()[v as int].pin_count == 0
                    &&& forall|j: int|
                        0 <= j < self.frames().len() && (#[trigger] self.frames()[j]).pin_count
                            == 0 ==> self.frames()[v as int].last_used <= self.frames()[j].last_used
                },
                None => forall|j: int|
                    0 <= j < self.frames().len() ==> (#[trigger] self.frames()[j]).pin_count > 0,
            },
    {
        let mut best: Option<usize> = None;
        let mut i: usize = 0;
        while i < self.frames.len()
            invariant
                i <= self.frames@.len(),
                match best {
                    Some(v) => {
                        &&& v < i
                        &&& self.frames@[v as int].pin_count == 0
                        &&& forall|j: int|
                            0 <= j < i && (#[trigger] self.frames@[j]).pin_count == 0
                                ==> self.frames@[v as int].last_used <= self.frames@[j].last_used
                    },
                    None => forall|j: int| 0 <= j < i ==> (#[trigger] self.frames@[j]).pin_count > 0,
                },
            decreases self.frames@.len() - i,
        {
            if self.frames[i].pin_count == 0 {
                match best {
                    None => {
                        best = Some(i);
                    },
                    Some(v) => {
                        if self.frames[i].last_used < self.frames[v].last_used {
                            best = Some(i);
                        }
                    },
                }
            }
            i = i + 1;
        }
        best
    }
}

} // verus!
