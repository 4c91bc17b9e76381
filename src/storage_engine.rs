//! Documents in and out of pages: first-fit placement over the resident
//! pages, a new page when none has room, and stable `DocumentId`s.
//!
//! The placement scan looks only at pages that are resident in the buffer
//! pool; free space on pages that are only on disk is not considered, since
//! there is no persistent free-space map.
use vstd::prelude::*;

use crate::buffer_pool::{BufferPool, Frame};
use crate::error::StorageError;
use crate::paged_file::{PagedFile, MAX_PAGE_COUNT};
use crate::slotted_page::{
    compacted, free_bytes, insert_post, page_wf, read_spec, slot_count, PageError, HEADER_SIZE, SLOT_SIZE,
};

verus! {

/// The physical address of a document: a page and a slot in it.
#[derive(Debug, Clone, Copy, PartialEq, Eq, Structural)]
pub struct DocumentId {
    page_id: u32,
    slot_id: u16,
}

impl DocumentId {
    pub closed spec fn page(&self) -> u32 {
        self.page_id
    }

    pub closed spec fn slot(&self) -> u16 {
        self.slot_id
    }

    /// Create a new DocumentId
    pub fn new(page_id: u32, slot_id: u16) -> (r: Self)
        ensures
            r.page() == page_id,
            r.slot() == slot_id,
    {
        Self { page_id, slot_id }
    }

    /// Get the page ID where the document is stored
    pub fn page_id(&self) -> (r: u32)
        ensures
            r == self.page(),
    {
        self.page_id
    }

    /// Get the slot ID within the page where the document is stored
    pub fn slot_id(&self) -> (r: u16)
        ensures
            r == self.slot(),
    {
        self.slot_id
    }
}

/// A page can take a document of `n` bytes and its directory entry.
pub open spec fn fits(b: Seq<u8>, n: int) -> bool {
    page_wf(b) && n + SLOT_SIZE <= free_bytes(b)
}

/// The document stored at `id` in `image`, or why there is none.
pub open spec fn lookup(image: Seq<Seq<u8>>, id: DocumentId) -> Result<Seq<u8>, StorageError> {
    if id.page() >= image.len() {
        Err(StorageError::OutOfRange)
    } else {
        match read_spec(image[id.page() as int], id.slot() as int) {
            Ok(v) => Ok(v),
            Err(PageError::SlotNotFound) => Err(StorageError::SlotNotFound),
            Err(PageError::Tombstoned) => Err(StorageError::Tombstoned),
            Err(_) => Err(StorageError::CorruptFile),
        }
    }
}

/// The page error as a storage error.
fn page_error(e: PageError) -> (r: StorageError)
    ensures
        r == match e {
            PageError::PageFull => StorageError::PageFull,
            PageError::SlotNotFound => StorageError::SlotNotFound,
            PageError::Tombstoned => StorageError::Tombstoned,
            PageError::Corrupt => StorageError::CorruptFile,
        },
{
    match e {
        PageError::PageFull => StorageError::PageFull,
        PageError::SlotNotFound => StorageError::SlotNotFound,
        PageError::Tombstoned => StorageError::Tombstoned,
        PageError::Corrupt => StorageError::CorruptFile,
    }
}

/// `e1` is `e0` after `doc` was stored at `id`.
pub open spec fn inserted(e0: StorageEngine, e1: StorageEngine, doc: Seq<u8>, id: DocumentId) -> bool {
    let p = id.page() as int;
    &&& doc.len() <= e0.max_document_len()
    &&& e0.capacity_spec() > 0
    &&& lookup(e1.image(), id) == Ok::<Seq<u8>, StorageError>(doc)
    &&& e1.image().len() >= e0.image().len()
    &&& forall|q: int|
        0 <= q < e0.image().len() && q != p ==> #[trigger] e1.image()[q] == e0.image()[q]
    &&& if p < e0.image().len() {
        // first fit among the resident pages
        &&& e1.image().len() == e0.image().len()
        &&& id.slot() == slot_count(e0.image()[p])
        &&& fits(e0.image()[p], doc.len() as int)
        &&& exists|k: int|
            0 <= k < e0.resident_ids().len() && e0.resident_ids()[k]
                == p && forall|k2: int|
                0 <= k2 < k ==> !fits(
                    e0.image()[#[trigger] e0.resident_ids()[k2] as int],
                    doc.len() as int,
                )
        &&& forall|s: int|
            0 <= s < slot_count(e0.image()[p]) ==> #[trigger] read_spec(
                e1.image()[p],
                s,
            ) == read_spec(e0.image()[p], s)
    } else {
        // a new page, as no resident page had room
        &&& p == e0.image().len()
        &&& id.slot() == 0
        &&& e1.image().len() == e0.image().len() + 1
        &&& forall|k: int|
            0 <= k < e0.resident_ids().len() ==> !fits(
                e0.image()[#[trigger] e0.resident_ids()[k] as int],
                doc.len() as int,
            )
    }
}

/// `e1` is `e0` after storing `doc` failed with `e`.
pub open spec fn insert_refused(
    e0: StorageEngine,
    e1: StorageEngine,
    doc: Seq<u8>,
    e: StorageError,
) -> bool {
    &&& e1.image() == e0.image()
    &&& (e == StorageError::DocumentTooLarge <==> doc.len()
        > e0.max_document_len())
    &&& (e == StorageError::PoolExhausted <==> doc.len()
        <= e0.max_document_len() && e0.capacity_spec() == 0)
    &&& (e == StorageError::OutOfRange <==> doc.len()
        <= e0.max_document_len() && e0.capacity_spec() > 0
        && e0.image().len() == MAX_PAGE_COUNT && forall|k: int|
        0 <= k < e0.resident_ids().len() ==> !fits(
            e0.image()[#[trigger] e0.resident_ids()[k] as int],
            doc.len() as int,
        ))
    &&& (e == StorageError::DocumentTooLarge || e == StorageError::PoolExhausted
        || e == StorageError::OutOfRange)
}

/// `e1` is `e0` after the document at `id` was deleted.
pub open spec fn deleted(e0: StorageEngine, e1: StorageEngine, id: DocumentId) -> bool {
    &&& lookup(e0.image(), id) is Ok || lookup(e0.image(), id) == Err::<Seq<u8>, StorageError>(
        StorageError::Tombstoned,
    )
    &&& e0.capacity_spec() > 0
    &&& lookup(e1.image(), id) == Err::<Seq<u8>, StorageError>(StorageError::Tombstoned)
    &&& e1.image().len() == e0.image().len()
    &&& forall|other: DocumentId| other != id ==> #[trigger] lookup(e1.image(), other) == lookup(
        e0.image(),
        other,
    )
}

/// A document that was stored reads back as itself.
pub proof fn lemma_round_trip(e0: StorageEngine, e1: StorageEngine, doc: Seq<u8>, id: DocumentId)
    requires
        inserted(e0, e1, doc, id),
        e1.capacity_spec() == e0.capacity_spec(),
    ensures
        e1.get_result(id) == Ok::<Seq<u8>, StorageError>(doc),
{
}

/// Storing a document leaves every address that held a document holding
/// the same document.
pub proof fn lemma_insert_keeps_addresses(
    e0: StorageEngine,
    e1: StorageEngine,
    doc: Seq<u8>,
    id: DocumentId,
    other: DocumentId,
)
    requires
        inserted(e0, e1, doc, id),
        lookup(e0.image(), other) is Ok,
    ensures
        lookup(e1.image(), other) == lookup(e0.image(), other),
{
    let p = other.page() as int;
    if p != id.page() as int {
        assert(e1.image()[p] == e0.image()[p]);
    } else {
        assert(read_spec(e1.image()[p], other.slot() as int) == read_spec(e0.image()[p], other.slot() as int));
    }
}

/// Deleting a document leaves every other address holding what it held.
pub proof fn lemma_delete_keeps_addresses(
    e0: StorageEngine,
    e1: StorageEngine,
    id: DocumentId,
    other: DocumentId,
)
    requires
        deleted(e0, e1, id),
        other != id,
    ensures
        lookup(e1.image(), other) == lookup(e0.image(), other),
{
}

pub struct StorageEngine {
    buffer_pool: BufferPool,
}

impl StorageEngine {
    pub closed spec fn pool(&self) -> BufferPool {
        self.buffer_pool
    }

    /// The contents of every page, as the engine sees them.
    pub open spec fn image(&self) -> Seq<Seq<u8>> {
        self.pool().image()
    }

    /// The ids of the resident pages, in the order the placement scan visits
    /// them.
    pub open spec fn resident_ids(&self) -> Seq<u32> {
        self.pool().frames().map_values(|f: Frame| f.page_id)
    }

    pub open spec fn page_size_spec(&self) -> nat {
        self.pool().file().spec_page_size()
    }

    pub open spec fn capacity_spec(&self) -> nat {
        self.pool().spec_capacity()
    }

    /// Between operations no page is pinned.
    pub open spec fn wf(&self) -> bool {
        &&& self.pool().wf()
        &&& forall|j: int|
            0 <= j < self.pool().frames().len() ==> (#[trigger] self.pool().frames()[j]).pin_count
                == 0
    }

    /// Largest document, in encoded bytes, that fits an empty page.
    pub open spec fn max_document_len(&self) -> int {
        self.page_size_spec() - HEADER_SIZE - SLOT_SIZE
    }

    /// An engine over `database_file` with a pool of `buffer_pool_size`
    /// frames.
    pub fn new(database_file: PagedFile, buffer_pool_size: usize) -> (r: Self)
        requires
            database_file.wf(),
        ensures
            r.wf(),
            r.image() == database_file.pages(),
            r.page_size_spec() == database_file.spec_page_size(),
            r.capacity_spec() == buffer_pool_size,
            r.resident_ids().len() == 0,
    {
        let buffer_pool = BufferPool::new(database_file, buffer_pool_size);
        Self { buffer_pool }
    }

    /// Stores `document` (its encoded bytes) and returns its address.
    ///
    /// Fails with `DocumentTooLarge` when it cannot fit an empty page, and
    /// with `PoolExhausted` when the pool has no frame at all. Otherwise the
    /// first resident page with room takes it; when there is none a new page
    /// is allocated (`OutOfRange` when no page id is left). Every other
    /// document keeps its address and its bytes.
    pub fn insert_document(&mut self, document: &[u8]) -> (r: Result<DocumentId, StorageError>)
        requires
            old(self).wf(),
        ensures
            final(self).wf(),
            final(self).page_size_spec() == old(self).page_size_spec(),
            final(self).capacity_spec() == old(self).capacity_spec(),
            match r {
                Ok(id) => inserted(*old(self), *final(self), document@, id),
                Err(e) => insert_refused(*old(self), *final(self), document@, e),
            },
    {
        let n = document.len();
        let page_size = self.buffer_pool.page_size();
        if page_size < HEADER_SIZE + SLOT_SIZE || n > page_size - HEADER_SIZE - SLOT_SIZE {
            return Err(StorageError::DocumentTooLarge);
        }
        if self.buffer_pool.capacity() == 0 {
            return Err(StorageError::PoolExhausted);
        }
        let ghost before = *self;
        let page_ids = self.buffer_pool.get_all_page_ids();
        let mut k: usize = 0;
        while k < page_ids.len()
            invariant
                self.wf(),
                before == *old(self),
                n == document@.len(),
                before.capacity_spec() > 0,
                page_ids@ == before.resident_ids(),
                self.resident_ids() == before.resident_ids(),
                self.image() == before.image(),
                self.pool().file().spec_page_size() == before.pool().file().spec_page_size(),
                self.capacity_spec() == before.capacity_spec(),
                k <= page_ids@.len(),
                forall|k2: int|
                    0 <= k2 < k ==> !fits(
                        before.image()[#[trigger] before.resident_ids()[k2] as int],
                        n as int,
                    ),
            decreases page_ids@.len() - k,
        {
            let page_id = page_ids[k];
            proof {
                let pool = self.pool();
                assert(pool.frames()[k as int].page_id == page_id);
                pool.lemma_image_resident(k as int);
            }
            let ghost mid = *self;
            let idx = match self.buffer_pool.pin_page(page_id) {
                Ok(idx) => idx,
                Err(_) => {
                    return Err(StorageError::PoolExhausted);
                },
            };
            let ghost pinned = *self;
            assert(pinned.pool().frames()[idx as int].data@ == before.image()[page_id as int]);
            let res = self.buffer_pool.insert_into(idx, document);
            assert(insert_post(before.image()[page_id as int], self.pool().frames()[idx as int].data@, document@, res));
            match res {
                Ok(slot_id) => {
                    proof {
                        self.pool().lemma_image_resident(idx as int);
                    }
                    let ghost after_insert = *self;
                    self.buffer_pool.unpin_page(page_id, true);
                    let id = DocumentId { page_id, slot_id };
                    proof {
                        let p = page_id as int;
                        let b0 = before.image()[p];
                        let b1 = after_insert.pool().frames()[idx as int].data@;
                        assert(b0 == pinned.pool().frames()[idx as int].data@);
                        assert(self.image() == before.image().update(p, b1));
                        assert(read_spec(b1, slot_id as int) == Ok::<Seq<u8>, PageError>(document@));
                        assert(lookup(self.image(), id) == Ok::<Seq<u8>, StorageError>(document@));
                        assert(fits(b0, n as int));
                        assert(before.resident_ids()[k as int] == page_id);
                        self.lemma_unpinned_after(mid, idx as int);
                        assert(id.page() == page_id);
                        assert(before.resident_ids()[k as int] == page_id);
                    }
                    return Ok(id);
                },
                Err(_) => {
                    proof {
                        self.pool().lemma_image_resident(idx as int);
                        assert(before.resident_ids()[k as int] == page_id);
                        assert(!fits(before.image()[page_id as int], n as int));
                    }
                    self.buffer_pool.unpin_page(page_id, false);
                    proof {
                        self.lemma_unpinned_after(mid, idx as int);
                    }
                },
            }
            k = k + 1;
        }
        let new_id = match self.buffer_pool.allocate_page() {
            Ok(id) => id,
            Err(e) => {
                return Err(e);
            },
        };
        let ghost mid = *self;
        proof {
            let pool = self.pool();
            if pool.resident(new_id as int) {
                let j = pool.frame_index(new_id as int);
                assert(pool.frames()[j].page_id < before.image().len());
            }
            if pool.frames().len() > 0 {
                assert(pool.frames()[0].pin_count == 0);
            }
        }
        let idx = match self.buffer_pool.pin_page(new_id) {
            Ok(idx) => idx,
            Err(_) => {
                return Err(StorageError::PoolExhausted);
            },
        };
        self.buffer_pool.init_frame(idx);
        let slot_id = match self.buffer_pool.insert_into(idx, document) {
            Ok(s) => s,
            Err(_) => {
                return Err(StorageError::PageFull);
            },
        };
        proof {
            self.pool().lemma_image_resident(idx as int);
        }
        self.buffer_pool.unpin_page(new_id, true);
        proof {
            self.lemma_unpinned_after(mid, idx as int);
        }
        Ok(DocumentId { page_id: new_id, slot_id })
    }

    /// What `get_document` returns for `id`: `PoolExhausted` when the pool
    /// has no frame for an existing page, else the stored document or why
    /// there is none.
    pub open spec fn get_result(&self, id: DocumentId) -> Result<Seq<u8>, StorageError> {
        if self.capacity_spec() == 0 && id.page() < self.image().len() {
            Err(StorageError::PoolExhausted)
        } else {
            lookup(self.image(), id)
        }
    }

    proof fn lemma_pin_outcome(&self, p: int)
        requires
            self.wf(),
            0 <= p,
        ensures
            self.pool().exhausted_for(p) <==> (self.capacity_spec() == 0 && 0 <= p
                < self.image().len()),
            self.pool().resident(p) ==> p < self.image().len(),
    {
        let pool = self.pool();
        if pool.resident(p) {
            let j = pool.frame_index(p);
            assert(pool.frames()[j].pin_count == 0);
        }
        if pool.frames().len() > 0 {
            assert(pool.frames()[0].pin_count == 0);
        }
    }

    /// The document stored at `id`. Fails with `OutOfRange` for a page the
    /// file does not have, `SlotNotFound` for a slot the page does not have,
    /// `Tombstoned` for a deleted document, `CorruptFile` for a page whose
    /// layout is invalid, and `PoolExhausted` when the pool has no frame.
    pub fn get_document(&mut self, id: &DocumentId) -> (r: Result<Vec<u8>, StorageError>)
        requires
            old(self).wf(),
        ensures
            final(self).wf(),
            final(self).image() == old(self).image(),
            final(self).page_size_spec() == old(self).page_size_spec(),
            final(self).capacity_spec() == old(self).capacity_spec(),
            match r {
                Ok(v) => old(self).get_result(*id) == Ok::<Seq<u8>, StorageError>(v@),
                Err(e) => old(self).get_result(*id) == Err::<Seq<u8>, StorageError>(e),
            },
    {
        let page_id = id.page_id;
        proof {
            self.lemma_pin_outcome(page_id as int);
        }
        let ghost mid = *self;
        let idx = match self.buffer_pool.pin_page(page_id) {
            Ok(idx) => idx,
            Err(e) => {
                return Err(e);
            },
        };
        let res = self.buffer_pool.read_from(idx, id.slot_id);
        proof {
            self.pool().lemma_image_resident(idx as int);
        }
        self.buffer_pool.unpin_page(page_id, false);
        proof {
            self.lemma_unpinned_after(mid, idx as int);
        }
        match res {
            Ok(v) => Ok(v),
            Err(e) => Err(page_error(e)),
        }
    }

    /// Deletes the document at `id`: the slot is tombstoned, its space is not
    /// reclaimed, and every other address keeps what it held. Deleting an
    /// already deleted document succeeds. Fails as `get_document` does, but
    /// for `Tombstoned`.
    pub fn delete_document(&mut self, id: &DocumentId) -> (r: Result<(), StorageError>)
        requires
            old(self).wf(),
        ensures
            final(self).wf(),
            final(self).page_size_spec() == old(self).page_size_spec(),
            final(self).capacity_spec() == old(self).capacity_spec(),
            match r {
                Ok(_) => deleted(*old(self), *final(self), *id),
                Err(e) => {
                    &&& final(self).image() == old(self).image()
                    &&& old(self).get_result(*id) == Err::<Seq<u8>, StorageError>(e)
                    &&& e != StorageError::Tombstoned
                },
            },
    {
        let page_id = id.page_id;
        proof {
            self.lemma_pin_outcome(page_id as int);
        }
        let ghost mid = *self;
        let idx = match self.buffer_pool.pin_page(page_id) {
            Ok(idx) => idx,
            Err(e) => {
                return Err(e);
            },
        };
        let ghost pinned = *self;
        let res = self.buffer_pool.delete_in(idx, id.slot_id);
        let ghost after_delete = *self;
        proof {
            self.pool().lemma_image_resident(idx as int);
        }
        self.buffer_pool.unpin_page(page_id, res.is_ok());
        proof {
            self.lemma_unpinned_after(mid, idx as int);
            let p = page_id as int;
            let b0 = old(self).image()[p];
            assert(b0 == pinned.pool().frames()[idx as int].data@);
            if res.is_ok() {
                let b1 = after_delete.pool().frames()[idx as int].data@;
                assert(self.image() == old(self).image().update(p, b1));
                assert forall|other: DocumentId| other != *id implies #[trigger] lookup(
                    self.image(),
                    other,
                ) == lookup(old(self).image(), other) by {
                    if other.page() == page_id && other.slot() != id.slot() {
                        if (other.slot() as int) < slot_count(b0) {
                            assert(read_spec(b1, other.slot() as int) == read_spec(b0, other.slot() as int));
                        }
                    }
                }
            }
        }
        match res {
            Ok(_) => Ok(()),
            Err(e) => Err(page_error(e)),
        }
    }

    /// Compacts page `page_id`, reclaiming the bytes of its deleted
    /// documents. Every address keeps what it held. Fails with `OutOfRange`
    /// for a page the file does not have, `CorruptFile` for a page whose
    /// layout is invalid, and `PoolExhausted` when the pool has no frame.
    pub fn compact_page(&mut self, page_id: u32) -> (r: Result<(), StorageError>)
        requires
            old(self).wf(),
        ensures
            final(self).wf(),
            final(self).page_size_spec() == old(self).page_size_spec(),
            final(self).capacity_spec() == old(self).capacity_spec(),
            final(self).image().len() == old(self).image().len(),
            forall|id: DocumentId| #[trigger] lookup(final(self).image(), id) == lookup(
                old(self).image(),
                id,
            ),
            match r {
                Ok(_) => {
                    &&& page_id < old(self).image().len()
                    &&& old(self).capacity_spec() > 0
                    &&& compacted(old(self).image()[page_id as int], final(self).image()[page_id as int])
                },
                Err(e) => {
                    &&& final(self).image() == old(self).image()
                    &&& (e == StorageError::OutOfRange <==> page_id >= old(self).image().len())
                    &&& (e == StorageError::PoolExhausted <==> page_id < old(self).image().len()
                        && old(self).capacity_spec() == 0)
                    &&& (e == StorageError::CorruptFile <==> page_id < old(self).image().len()
                        && old(self).capacity_spec() > 0 && !page_wf(
                        old(self).image()[page_id as int],
                    ))
                    &&& (e == StorageError::OutOfRange || e == StorageError::PoolExhausted || e
                        == StorageError::CorruptFile)
                },
            },
    {
        proof {
            self.lemma_pin_outcome(page_id as int);
        }
        let ghost mid = *self;
        let idx = match self.buffer_pool.pin_page(page_id) {
            Ok(idx) => idx,
            Err(e) => {
                return Err(e);
            },
        };
        let ghost pinned = *self;
        let res = self.buffer_pool.compact_in(idx);
        let ghost after_compact = *self;
        proof {
            self.pool().lemma_image_resident(idx as int);
        }
        self.buffer_pool.unpin_page(page_id, res.is_ok());
        proof {
            self.lemma_unpinned_after(mid, idx as int);
            let p = page_id as int;
            let b0 = old(self).image()[p];
            assert(b0 == pinned.pool().frames()[idx as int].data@);
            let b1 = after_compact.pool().frames()[idx as int].data@;
            assert(self.image() == old(self).image().update(p, b1));
            if res.is_ok() {
                assert forall|id: DocumentId| #[trigger] lookup(self.image(), id) == lookup(
                    old(self).image(),
                    id,
                ) by {
                    if id.page() == page_id && (id.slot() as int) < slot_count(b0) {
                        assert(read_spec(b1, id.slot() as int) == read_spec(b0, id.slot() as int));
                    }
                }
            } else {
                assert(self.image() =~= old(self).image());
            }
        }
        match res {
            Ok(_) => Ok(()),
            Err(e) => Err(page_error(e)),
        }
    }

    /// Writes every changed page back to the file.
    pub fn flush_all(&mut self)
        requires
            old(self).wf(),
        ensures
            final(self).wf(),
            final(self).image() == old(self).image(),
            final(self).pool().file().pages() == old(self).image(),
            final(self).page_size_spec() == old(self).page_size_spec(),
            final(self).capacity_spec() == old(self).capacity_spec(),
            final(self).resident_ids() == old(self).resident_ids(),
    {
        self.buffer_pool.flush_all();
        proof {
            assert forall|j: int| 0 <= j < self.pool().frames().len() implies (
            #[trigger] self.pool().frames()[j]).pin_count == 0 by {
                let f0 = old(self).pool().frames()[j];
            }
            assert(self.resident_ids() =~= old(self).resident_ids());
        }
    }

    /// The file behind the engine; after `flush_all` it holds every page.
    pub fn database_file(&self) -> (r: &PagedFile)
        ensures
            *r == self.pool().file(),
    {
        self.buffer_pool.file_ref()
    }

    /// Number of pages in the file.
    pub fn page_count(&self) -> (r: u32)
        requires
            self.wf(),
        ensures
            r == self.image().len(),
    {
        self.buffer_pool.page_count()
    }

    /// Number of pages currently held by the buffer pool.
    pub fn resident_count(&self) -> (r: usize)
        ensures
            r == self.resident_ids().len(),
    {
        self.buffer_pool.resident_count()
    }

    proof fn lemma_unpinned_after(&self, mid: StorageEngine, idx: int)
        requires
            mid.wf(),
            self.pool().wf(),
            0 <= idx < self.pool().frames().len(),
            self.pool().frames()[idx].pin_count == 0,
            self.pool().frames().len() <= mid.pool().frames().len() || (self.pool().frames().len()
                == mid.pool().frames().len() + 1 && idx == mid.pool().frames().len()),
            forall|j: int|
                0 <= j < self.pool().frames().len() && j != idx ==> #[trigger] self.pool().frames()[j]
                    == mid.pool().frames()[j],
        ensures
            self.wf(),
            self.pool().frames().len() == mid.pool().frames().len()
                && self.pool().frames()[idx].page_id == mid.pool().frames()[idx].page_id
                ==> self.resident_ids() == mid.resident_ids(),
    {
        assert forall|j: int| 0 <= j < self.pool().frames().len() implies (
        #[trigger] self.pool().frames()[j]).pin_count == 0 by {
            if j != idx {
                assert(j < mid.pool().frames().len());
                assert(self.pool().frames()[j] == mid.pool().frames()[j]);
                assert(mid.pool().frames()[j].pin_count == 0);
            }
        }
        if self.pool().frames().len() == mid.pool().frames().len()
            && self.pool().frames()[idx].page_id == mid.pool().frames()[idx].page_id {
            assert(self.resident_ids() =~= mid.resident_ids());
        }
    }
}

} // verus!
