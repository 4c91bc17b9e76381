//! A file of fixed-size pages, held as its image: page `i` is the bytes at
//! offset `i * page_size`.
use vstd::prelude::*;

use crate::error::StorageError;
use crate::slotted_page::{copy_range, is_well_formed, page_wf, HEADER_SIZE, MAX_PAGE_SIZE};

verus! {

/// Largest number of pages: page ids are 32-bit and the count must fit too.
pub const MAX_PAGE_COUNT: usize = 4294967295;

pub struct PagedFile {
    page_size: usize,
    pages: Vec<Vec<u8>>,
}

/// `n` zero bytes.
pub fn zero_page(n: usize) -> (r: Vec<u8>)
    ensures
        r@ == Seq::new(n as nat, |i: int| 0u8),
{
    let mut v: Vec<u8> = Vec::new();
    let mut k: usize = 0;
    while k < n
        invariant
            k <= n,
            v@ =~= Seq::new(k as nat, |i: int| 0u8),
        decreases n - k,
    {
        v.push(0);
        k = k + 1;
    }
    v
}

impl PagedFile {
    /// The bytes of each page, by page id.
    pub closed spec fn pages(&self) -> Seq<Seq<u8>> {
        Seq::new(self.pages@.len(), |i: int| self.pages@[i]@)
    }

    pub closed spec fn spec_page_size(&self) -> nat {
        self.page_size as nat
    }

    pub open spec fn wf(&self) -> bool {
        &&& HEADER_SIZE <= self.spec_page_size() <= MAX_PAGE_SIZE
        &&& self.pages().len() <= MAX_PAGE_COUNT
        &&& forall|i: int|
            0 <= i < self.pages().len() ==> (#[trigger] self.pages()[i]).len()
                == self.spec_page_size()
    }

    /// An empty file.
    pub fn new(page_size: usize) -> (r: PagedFile)
        requires
            HEADER_SIZE <= page_size <= MAX_PAGE_SIZE,
        ensures
            r.wf(),
            r.spec_page_size() == page_size,
            r.pages() == Seq::<Seq<u8>>::empty(),
    {
        let r = PagedFile { page_size, pages: Vec::new() };
        assert(r.pages() =~= Seq::<Seq<u8>>::empty());
        r
    }

    /// The file whose contents are `image`. Fails with `CorruptFile` when the
    /// length is not a multiple of the page size, when there are more pages
    /// than ids, or when a page does not hold a valid layout.
    pub fn from_image(image: &Vec<u8>, page_size: usize) -> (r: Result<PagedFile, StorageError>)
        requires
            HEADER_SIZE <= page_size <= MAX_PAGE_SIZE,
        ensures
            match r {
                Ok(f) => {
                    &&& f.wf()
                    &&& f.spec_page_size() == page_size
                    &&& f.pages().len() * page_size == image@.len()
                    &&& forall|k: int|
                        0 <= k < f.pages().len() ==> #[trigger] f.pages()[k] == image@.subrange(
                            k * page_size,
                            k * page_size + page_size,
                        )
                },
                Err(e) => {
                    &&& e == StorageError::CorruptFile
                    &&& (image@.len() as int % page_size as int != 0 || image@.len() as int / page_size as int
                        > MAX_PAGE_COUNT || exists|k: int|
                        0 <= k < image@.len() as int / page_size as int && !page_wf(
                            #[trigger] image@.subrange(k * page_size, k * page_size + page_size),
                        ))
                },
            },
    {
        let len = image.len();
        if len % page_size != 0 || len / page_size > MAX_PAGE_COUNT {
            return Err(StorageError::CorruptFile);
        }
        let count = len / page_size;
        proof {
            vstd::arithmetic::div_mod::lemma_fundamental_div_mod(len as int, page_size as int);
            assert(count * page_size == len) by (nonlinear_arith)
                requires
                    len == page_size * (len as int / page_size as int) + len as int % page_size as int,
                    len as int % page_size as int == 0,
                    count == len as int / page_size as int,
            ;
        }
        let mut pages: Vec<Vec<u8>> = Vec::new();
        let mut k: usize = 0;
        let mut pos: usize = 0;
        while k < count
            invariant
                HEADER_SIZE <= page_size <= MAX_PAGE_SIZE,
                len == image@.len(),
                count * page_size == len,
                count == image@.len() as int / page_size as int,
                count <= MAX_PAGE_COUNT,
                k <= count,
                pos == k * page_size,
                pages@.len() == k,
                forall|j: int|
                    0 <= j < k ==> #[trigger] pages@[j]@ == image@.subrange(
                        j * page_size,
                        j * page_size + page_size,
                    ),
                forall|j: int|
                    0 <= j < k ==> page_wf(
                        #[trigger] image@.subrange(j * page_size, j * page_size + page_size),
                    ),
            decreases count - k,
        {
            proof {
                assert((k + 1) * page_size <= count * page_size) by (nonlinear_arith)
                    requires
                        k + 1 <= count,
                ;
                assert((k + 1) * page_size == k * page_size + page_size) by (nonlinear_arith);
            }
            let page = copy_range(image, pos, page_size);
            if !is_well_formed(&page) {
                proof {
                    let kk = k as int;
                    assert(!page_wf(image@.subrange(kk * page_size, kk * page_size + page_size)));
                    assert(kk < image@.len() as int / page_size as int);
                }
                return Err(StorageError::CorruptFile);
            }
            pages.push(page);
            pos = pos + page_size;
            k = k + 1;
        }
        let f = PagedFile { page_size, pages };
        assert forall|k: int| 0 <= k < f.pages().len() implies (#[trigger] f.pages()[k]).len()
            == page_size by {
            assert(k * page_size + page_size <= count * page_size) by (nonlinear_arith)
                requires
                    k + 1 <= count,
                    0 <= k,
            ;
        }
        Ok(f)
    }

    pub fn page_size(&self) -> (r: usize)
        ensures
            r == self.spec_page_size(),
    {
        self.page_size
    }

    pub fn page_count(&self) -> (r: u32)
        requires
            self.wf(),
        ensures
            r == self.pages().len(),
    {
        self.pages.len() as u32
    }

    /// A copy of page `page_id`; `OutOfRange` when there is no such page.
    pub fn read_page(&self, page_id: u32) -> (r: Result<Vec<u8>, StorageError>)
        ensures
            match r {
                Ok(v) => page_id < self.pages().len() && v@ == self.pages()[page_id as int],
                Err(e) => page_id >= self.pages().len() && e == StorageError::OutOfRange,
            },
    {
        if page_id as usize >= self.pages.len() {
            return Err(StorageError::OutOfRange);
        }
        let p = &self.pages[page_id as usize];
        let v = copy_range(p, 0, p.len());
        assert(v@ =~= self.pages()[page_id as int]);
        Ok(v)
    }

    /// Overwrites page `page_id` with `page`; `OutOfRange` when there is no
    /// such page.
    pub fn write_page(&mut self, page_id: u32, page: &Vec<u8>) -> (r: Result<(), StorageError>)
        requires
            old(self).wf(),
            page@.len() == old(self).spec_page_size(),
        ensures
            final(self).wf(),
            final(self).spec_page_size() == old(self).spec_page_size(),
            match r {
                Ok(_) => page_id < old(self).pages().len() && final(self).pages() == old(
                    self,
                ).pages().update(page_id as int, page@),
                Err(e) => page_id >= old(self).pages().len() && e == StorageError::OutOfRange
                    && final(self).pages() == old(self).pages(),
            },
    {
        if page_id as usize >= self.pages.len() {
            return Err(StorageError::OutOfRange);
        }
        let v = copy_range(page, 0, page.len());
        assert(v@ =~= page@);
        self.pages.set(page_id as usize, v);
        assert(self.pages() =~= old(self).pages().update(page_id as int, page@));
        Ok(())
    }

    /// Appends a zero-filled page and returns its id; `OutOfRange` when no id
    /// is left.
    pub fn allocate_page(&mut self) -> (r: Result<u32, StorageError>)
        requires
            old(self).wf(),
        ensures
            final(self).wf(),
            final(self).spec_page_size() == old(self).spec_page_size(),
            match r {
                Ok(id) => id == old(self).pages().len() && final(self).pages() == old(
                    self,
                ).pages().push(Seq::new(old(self).spec_page_size(), |i: int| 0u8)),
                Err(e) => old(self).pages().len() == MAX_PAGE_COUNT && e
                    == StorageError::OutOfRange && final(self).pages() == old(self).pages(),
            },
    {
        if self.pages.len() >= MAX_PAGE_COUNT {
            return Err(StorageError::OutOfRange);
        }
        let id = self.pages.len() as u32;
        let z = zero_page(self.page_size);
        self.pages.push(z);
        assert(self.pages() =~= old(self).pages().push(Seq::new(old(self).spec_page_size(), |i: int| 0u8)));
        Ok(id)
    }
}

} // verus!
