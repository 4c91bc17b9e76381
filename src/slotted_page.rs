//! Byte layout of one page.
//!
//! Header (little-endian): page id (4 bytes), slot count (2 bytes),
//! start of the data region (2 bytes). The slot directory follows the header,
//! one entry per slot: offset (2 bytes), length (2 bytes), tombstone flag
//! (1 byte). Document bytes grow downward from the end of the page.
use vstd::prelude::*;

verus! {

/// Size of the page header in bytes.
pub const HEADER_SIZE: usize = 8;

/// Size of one slot directory entry in bytes.
pub const SLOT_SIZE: usize = 5;

/// Largest page size whose offsets fit the 16-bit fields of the layout.
pub const MAX_PAGE_SIZE: usize = 65535;

/// Why an operation on a single page failed.
#[derive(Debug, Clone, Copy, PartialEq, Eq, Structural)]
pub enum PageError {
    PageFull,
    SlotNotFound,
    Tombstoned,
    Corrupt,
}

pub open spec fn u16_at(b: Seq<u8>, p: int) -> int {
    b[p] as int + 256 * (b[p + 1] as int)
}

pub open spec fn u32_at(b: Seq<u8>, p: int) -> int {
    u16_at(b, p) + 65536 * u16_at(b, p + 2)
}

pub open spec fn page_id_of(b: Seq<u8>) -> int {
    u32_at(b, 0)
}

pub open spec fn slot_count(b: Seq<u8>) -> int {
    u16_at(b, 4)
}

pub open spec fn free_space_start(b: Seq<u8>) -> int {
    u16_at(b, 6)
}

pub open spec fn slot_pos(i: int) -> int {
    HEADER_SIZE + SLOT_SIZE * i
}

/// First byte after the slot directory.
pub open spec fn directory_end(b: Seq<u8>) -> int {
    slot_pos(slot_count(b))
}

pub open spec fn slot_offset(b: Seq<u8>, i: int) -> int {
    u16_at(b, slot_pos(i))
}

pub open spec fn slot_length(b: Seq<u8>, i: int) -> int {
    u16_at(b, slot_pos(i) + 2)
}

pub open spec fn slot_tombstoned(b: Seq<u8>, i: int) -> bool {
    b[slot_pos(i) + 4] != 0
}

/// The bytes that slot `i` points at.
pub open spec fn slot_bytes(b: Seq<u8>, i: int) -> Seq<u8> {
    b.subrange(slot_offset(b, i), slot_offset(b, i) + slot_length(b, i))
}

/// The upper bound for the payload of slot `i`: the end of the page for the
/// first slot, the offset of the previous slot for the others.
pub open spec fn slot_ceiling(b: Seq<u8>, i: int) -> int {
    if i == 0 {
        b.len() as int
    } else {
        slot_offset(b, i - 1)
    }
}

/// A valid page: the directory and the data region do not overlap, and the
/// payloads are stacked downward from the end of the page in slot order,
/// all inside the data region.
pub open spec fn page_wf(b: Seq<u8>) -> bool {
    &&& HEADER_SIZE <= b.len() <= MAX_PAGE_SIZE
    &&& directory_end(b) <= free_space_start(b) <= b.len()
    &&& forall|i: int|
        0 <= i < slot_count(b) ==> free_space_start(b) <= #[trigger] slot_offset(b, i)
            && slot_offset(b, i) + slot_length(b, i) <= slot_ceiling(b, i)
            && slot_ceiling(b, i) <= b.len()
}

/// In a valid page the slot directory ends before the data region starts.
pub proof fn lemma_directory_before_data(b: Seq<u8>)
    requires
        page_wf(b),
    ensures
        directory_end(b) <= free_space_start(b),
        0 <= free_bytes(b),
{
}

/// Free bytes between the directory and the data region.
pub open spec fn free_bytes(b: Seq<u8>) -> int {
    free_space_start(b) - directory_end(b)
}

/// The outcome of `read` on a page, as a function of its bytes.
pub open spec fn read_spec(b: Seq<u8>, slot_id: int) -> Result<Seq<u8>, PageError> {
    if !page_wf(b) {
        Err(PageError::Corrupt)
    } else if slot_id >= slot_count(b) {
        Err(PageError::SlotNotFound)
    } else if slot_tombstoned(b, slot_id) {
        Err(PageError::Tombstoned)
    } else {
        Ok(slot_bytes(b, slot_id))
    }
}

/// What `insert` of `doc` did to a page, given its result.
pub open spec fn insert_post(
    before: Seq<u8>,
    after: Seq<u8>,
    doc: Seq<u8>,
    r: Result<u16, PageError>,
) -> bool {
    &&& after.len() == before.len()
    &&& match r {
        Ok(slot_id) => {
            &&& page_wf(before)
            &&& doc.len() + SLOT_SIZE <= free_bytes(before)
            &&& slot_id == slot_count(before)
            &&& page_wf(after)
            &&& slot_count(after) == slot_count(before) + 1
            &&& free_space_start(after) == free_space_start(before) - doc.len()
            &&& page_id_of(after) == page_id_of(before)
            &&& read_spec(after, slot_id as int) == Ok::<Seq<u8>, PageError>(doc)
            &&& forall|i: int|
                0 <= i < slot_count(before) ==> #[trigger] read_spec(after, i) == read_spec(
                    before,
                    i,
                )
        },
        Err(e) => {
            &&& after == before
            &&& (e == PageError::Corrupt <==> !page_wf(before))
            &&& (e == PageError::PageFull <==> page_wf(before) && doc.len() + SLOT_SIZE
                > free_bytes(before))
            &&& (e == PageError::Corrupt || e == PageError::PageFull)
        },
    }
}

/// `b1` equals `b0` but on the positions `lo .. hi`.
pub open spec fn agree_outside(b0: Seq<u8>, b1: Seq<u8>, lo: int, hi: int) -> bool {
    &&& b0.len() == b1.len()
    &&& forall|k: int| 0 <= k < b0.len() && !(lo <= k < hi) ==> #[trigger] b1[k] == b0[k]
}

proof fn lemma_u16_agree(b0: Seq<u8>, b1: Seq<u8>, lo: int, hi: int, p: int)
    requires
        agree_outside(b0, b1, lo, hi),
        0 <= p,
        p + 1 < b0.len(),
        p + 2 <= lo || hi <= p,
    ensures
        u16_at(b1, p) == u16_at(b0, p),
{
    assert(b1[p] == b0[p]);
    assert(b1[p + 1] == b0[p + 1]);
}

proof fn lemma_header_agree(b0: Seq<u8>, b1: Seq<u8>, lo: int, hi: int)
    requires
        agree_outside(b0, b1, lo, hi),
        HEADER_SIZE <= b0.len(),
        HEADER_SIZE <= lo || hi <= 0,
    ensures
        page_id_of(b1) == page_id_of(b0),
        slot_count(b1) == slot_count(b0),
        free_space_start(b1) == free_space_start(b0),
{
    lemma_u16_agree(b0, b1, lo, hi, 0);
    lemma_u16_agree(b0, b1, lo, hi, 2);
    lemma_u16_agree(b0, b1, lo, hi, 4);
    lemma_u16_agree(b0, b1, lo, hi, 6);
}

proof fn lemma_u16_frame(b1: Seq<u8>, b2: Seq<u8>, p: int)
    requires
        0 <= p,
        p + 1 < b1.len(),
        p + 1 < b2.len(),
        b1[p] == b2[p],
        b1[p + 1] == b2[p + 1],
    ensures
        u16_at(b1, p) == u16_at(b2, p),
{
}

fn get_u16(b: &Vec<u8>, p: usize) -> (r: u16)
    requires
        p + 1 < b.len(),
    ensures
        r as int == u16_at(b@, p as int),
{
    let lo = b[p] as u16;
    let hi = b[p + 1] as u16;
    lo + hi * 256
}

fn set_u16(b: &mut Vec<u8>, p: usize, v: u16)
    requires
        p + 1 < old(b).len(),
    ensures
        final(b)@ == old(b)@.update(p as int, (v % 256) as u8).update(p + 1, (v / 256) as u8),
        u16_at(final(b)@, p as int) == v,
{
    b.set(p, (v % 256) as u8);
    b.set(p + 1, (v / 256) as u8);
}


fn write_slot(page: &mut Vec<u8>, i: usize, off: u16, len: u16, tombstoned: bool)
    requires
        slot_pos(i as int) + SLOT_SIZE <= old(page).len(),
    ensures
        agree_outside(old(page)@, final(page)@, slot_pos(i as int), slot_pos(i as int) + SLOT_SIZE),
        slot_offset(final(page)@, i as int) == off,
        slot_length(final(page)@, i as int) == len,
        slot_tombstoned(final(page)@, i as int) == tombstoned,
{
    let pos = HEADER_SIZE + SLOT_SIZE * i;
    set_u16(page, pos, off);
    set_u16(page, pos + 2, len);
    page.set(pos + 4, if tombstoned { 1 } else { 0 });
}

fn write_counts(page: &mut Vec<u8>, count: u16, fss: u16)
    requires
        HEADER_SIZE <= old(page).len(),
    ensures
        agree_outside(old(page)@, final(page)@, 4, 8),
        slot_count(final(page)@) == count,
        free_space_start(final(page)@) == fss,
{
    set_u16(page, 4, count);
    set_u16(page, 6, fss);
}

/// Copies `len` bytes of `src`, from `from` on, to `page` at `at`.
fn copy_into(page: &mut Vec<u8>, at: usize, src: &[u8], from: usize, len: usize)
    requires
        at + len <= old(page).len(),
        from + len <= src@.len(),
    ensures
        agree_outside(old(page)@, final(page)@, at as int, at + len),
        final(page)@.subrange(at as int, at + len) == src@.subrange(from as int, from + len),
{
    let ghost b0 = page@;
    let mut k: usize = 0;
    while k < len
        invariant
            k <= len,
            at + len <= page.len(),
            from + len <= src.len(),
            agree_outside(b0, page@, at as int, at + len),
            forall|j: int| 0 <= j < k ==> #[trigger] page@[at + j] == src@[from + j],
        decreases len - k,
    {
        page.set(at + k, src[from + k]);
        k = k + 1;
    }
    assert forall|j: int| 0 <= j < len implies #[trigger] page@.subrange(at as int, at + len)[j] == src@.subrange(
        from as int,
        from + len,
    )[j] by {
        assert(page@[at + j] == src@[from + j]);
    }
    assert(page@.subrange(at as int, at + len) =~= src@.subrange(from as int, from + len));
}

/// A copy of `len` bytes of `src` from `off` on.
pub fn copy_range(src: &Vec<u8>, off: usize, len: usize) -> (r: Vec<u8>)
    requires
        off + len <= src@.len(),
    ensures
        r@ == src@.subrange(off as int, off + len),
{
    let mut out: Vec<u8> = Vec::new();
    let mut k: usize = 0;
    while k < len
        invariant
            k <= len,
            off + len <= src.len(),
            out@ =~= src@.subrange(off as int, off + k),
        decreases len - k,
    {
        let byte = src[off + k];
        out.push(byte);
        k = k + 1;
    }
    out
}

/// Whether the bytes form a valid page.
pub fn is_well_formed(page: &Vec<u8>) -> (r: bool)
    ensures
        r == page_wf(page@),
{
    let len = page.len();
    if len < HEADER_SIZE || len > MAX_PAGE_SIZE {
        return false;
    }
    let count = get_u16(page, 4) as usize;
    let fss = get_u16(page, 6) as usize;
    if HEADER_SIZE + SLOT_SIZE * count > fss || fss > len {
        return false;
    }
    let mut ceiling: usize = len;
    let mut i: usize = 0;
    while i < count
        invariant
            HEADER_SIZE <= len <= MAX_PAGE_SIZE,
            len == page@.len(),
            count == slot_count(page@),
            fss == free_space_start(page@),
            directory_end(page@) <= fss <= len,
            i <= count,
            ceiling == slot_ceiling(page@, i as int),
            ceiling <= len,
            forall|j: int|
                0 <= j < i ==> fss <= #[trigger] slot_offset(page@, j) && slot_offset(page@, j)
                    + slot_length(page@, j) <= slot_ceiling(page@, j) && slot_ceiling(page@, j)
                    <= len,
        decreases count - i,
    {
        let pos = HEADER_SIZE + SLOT_SIZE * i;
        let off = get_u16(page, pos) as usize;
        let l = get_u16(page, pos + 2) as usize;
        if off < fss || off + l > ceiling {
            assert(!(fss <= slot_offset(page@, i as int) && slot_offset(page@, i as int)
                + slot_length(page@, i as int) <= slot_ceiling(page@, i as int)
                && slot_ceiling(page@, i as int) <= len));
            return false;
        }
        ceiling = off;
        i = i + 1;
    }
    true
}

/// Formats `page` as an empty page with the given id: no slots, the whole
/// space after the header free.
pub fn init_page(page: &mut Vec<u8>, page_id: u32)
    requires
        HEADER_SIZE <= old(page).len() <= MAX_PAGE_SIZE,
    ensures
        final(page)@.len() == old(page)@.len(),
        page_wf(final(page)@),
        slot_count(final(page)@) == 0,
        free_space_start(final(page)@) == final(page)@.len(),
        page_id_of(final(page)@) == page_id,
{
    let len = page.len();
    set_u16(page, 0, (page_id % 65536) as u16);
    set_u16(page, 2, (page_id / 65536) as u16);
    set_u16(page, 4, 0);
    set_u16(page, 6, len as u16);
}

/// Number of free bytes between the slot directory and the data region.
pub fn free_space(page: &Vec<u8>) -> (r: u16)
    requires
        page_wf(page@),
    ensures
        r == free_bytes(page@),
{
    let count = get_u16(page, 4);
    let fss = get_u16(page, 6);
    fss - (HEADER_SIZE as u16 + SLOT_SIZE as u16 * count)
}

/// The bytes of slot `slot_id`.
#[verifier::rlimit(40)]
pub fn read(page: &Vec<u8>, slot_id: u16) -> (r: Result<Vec<u8>, PageError>)
    ensures
        match r {
            Ok(v) => read_spec(page@, slot_id as int) == Ok::<Seq<u8>, PageError>(v@),
            Err(e) => read_spec(page@, slot_id as int) == Err::<Seq<u8>, PageError>(e),
        },
{
    if !is_well_formed(page) {
        return Err(PageError::Corrupt);
    }
    let count = get_u16(page, 4);
    if slot_id >= count {
        return Err(PageError::SlotNotFound);
    }
    let pos = HEADER_SIZE + SLOT_SIZE * slot_id as usize;
    if page[pos + 4] != 0 {
        return Err(PageError::Tombstoned);
    }
    let off = get_u16(page, pos) as usize;
    let l = get_u16(page, pos + 2) as usize;
    assert(off + l <= slot_ceiling(page@, slot_id as int) <= page@.len());
    let out = copy_range(page, off, l);
    Ok(out)
}

/// Marks slot `slot_id` as deleted. Its bytes stay where they are until the
/// page is compacted.
pub fn delete(page: &mut Vec<u8>, slot_id: u16) -> (r: Result<(), PageError>)
    ensures
        final(page)@.len() == old(page)@.len(),
        match r {
            Ok(_) => {
                &&& page_wf(old(page)@)
                &&& slot_id < slot_count(old(page)@)
                &&& page_wf(final(page)@)
                &&& slot_count(final(page)@) == slot_count(old(page)@)
                &&& free_space_start(final(page)@) == free_space_start(old(page)@)
                &&& page_id_of(final(page)@) == page_id_of(old(page)@)
                &&& slot_tombstoned(final(page)@, slot_id as int)
                &&& forall|i: int|
                    0 <= i < slot_count(old(page)@) && i != slot_id ==> #[trigger] read_spec(
                        final(page)@,
                        i,
                    ) == read_spec(old(page)@, i)
            },
            Err(e) => {
                &&& final(page)@ == old(page)@
                &&& (e == PageError::Corrupt <==> !page_wf(old(page)@))
                &&& (e == PageError::SlotNotFound <==> page_wf(old(page)@) && slot_id
                    >= slot_count(old(page)@))
                &&& (e == PageError::Corrupt || e == PageError::SlotNotFound)
            },
        },
{
    if !is_well_formed(page) {
        return Err(PageError::Corrupt);
    }
    let count = get_u16(page, 4);
    if slot_id >= count {
        return Err(PageError::SlotNotFound);
    }
    let pos = HEADER_SIZE + SLOT_SIZE * slot_id as usize;
    let ghost b0 = page@;
    page.set(pos + 4, 1);
    let ghost b1 = page@;
    proof {
        let lo = pos + 4;
        assert(agree_outside(b0, b1, lo, lo + 1));
        lemma_header_agree(b0, b1, lo, lo + 1);
        assert forall|i: int| 0 <= i < slot_count(b0) implies #[trigger] slot_offset(b1, i)
            == slot_offset(b0, i) && slot_length(b1, i) == slot_length(b0, i) && (i != slot_id
            ==> slot_tombstoned(b1, i) == slot_tombstoned(b0, i)) by {
            lemma_u16_agree(b0, b1, lo, lo + 1, slot_pos(i));
            lemma_u16_agree(b0, b1, lo, lo + 1, slot_pos(i) + 2);
        }
        assert forall|i: int|
            0 <= i < slot_count(b0) && i != slot_id implies #[trigger] read_spec(b1, i)
            == read_spec(b0, i) by {
            assert(slot_bytes(b1, i) =~= slot_bytes(b0, i));
        }
    }
    Ok(())
}

#[verifier::spinoff_prover]
#[verifier::rlimit(40)]
proof fn lemma_insert_layout(
    b0: Seq<u8>,
    b1: Seq<u8>,
    b2: Seq<u8>,
    b3: Seq<u8>,
    doc: Seq<u8>,
    count: int,
    fss: int,
)
    requires
        page_wf(b0),
        count == slot_count(b0),
        fss == free_space_start(b0),
        doc.len() + SLOT_SIZE <= free_bytes(b0),
        agree_outside(b0, b1, fss - doc.len(), fss),
        b1.subrange(fss - doc.len(), fss) == doc.subrange(0, doc.len() as int),
        agree_outside(b1, b2, slot_pos(count), slot_pos(count) + SLOT_SIZE),
        slot_offset(b2, count) == fss - doc.len(),
        slot_length(b2, count) == doc.len(),
        !slot_tombstoned(b2, count),
        agree_outside(b2, b3, 4, 8),
        slot_count(b3) == count + 1,
        free_space_start(b3) == fss - doc.len(),
    ensures
        insert_post(b0, b3, doc, Ok(count as u16)),
{
    let n = doc.len() as int;
    let new_fss = fss - n;
    let pos = slot_pos(count as int);
    assert forall|k: int| 0 <= k < b0.len() && (8 <= k < pos || fss <= k) implies b3[k]
        == b0[k] by {
        assert(b1[k] == b0[k]);
        assert(b2[k] == b1[k]);
        assert(b3[k] == b2[k]);
    }
    assert(b3[0] == b0[0] && b3[1] == b0[1] && b3[2] == b0[2] && b3[3] == b0[3]) by {
        assert(b1[0] == b0[0] && b1[1] == b0[1] && b1[2] == b0[2] && b1[3] == b0[3]);
        assert(b2[0] == b1[0] && b2[1] == b1[1] && b2[2] == b1[2] && b2[3] == b1[3]);
    }
    assert(page_id_of(b3) == page_id_of(b0));
    lemma_u16_agree(b2, b3, 4, 8, pos);
    lemma_u16_agree(b2, b3, 4, 8, pos + 2);
    assert(b3[pos + 4] == b2[pos + 4]);
    assert forall|i: int| 0 <= i < count implies #[trigger] slot_offset(b3, i) == slot_offset(
        b0,
        i,
    ) && slot_length(b3, i) == slot_length(b0, i) && slot_tombstoned(b3, i)
        == slot_tombstoned(b0, i) by {
        let q = slot_pos(i);
        assert(b3[q] == b0[q] && b3[q + 1] == b0[q + 1] && b3[q + 2] == b0[q + 2] && b3[q
            + 3] == b0[q + 3] && b3[q + 4] == b0[q + 4]);
        lemma_u16_frame(b0, b3, q);
        lemma_u16_frame(b0, b3, q + 2);
    }
    assert(slot_offset(b3, count as int) == new_fss);
    assert(slot_length(b3, count as int) == n);
    assert forall|i: int| 0 <= i < slot_count(b3) implies free_space_start(b3)
        <= #[trigger] slot_offset(b3, i) && slot_offset(b3, i) + slot_length(b3, i)
        <= slot_ceiling(b3, i) && slot_ceiling(b3, i) <= b3.len() by {
        if i < count {
            if i > 0 {
                assert(slot_offset(b3, i - 1) == slot_offset(b0, i - 1));
            }
        } else if i > 0 {
            assert(slot_offset(b3, i - 1) == slot_offset(b0, i - 1));
        }
    }
    assert(page_wf(b3));
    assert(b3.subrange(new_fss as int, fss as int) =~= b2.subrange(new_fss as int, fss as int));
    assert(b2.subrange(new_fss as int, fss as int) =~= b1.subrange(new_fss as int, fss as int));
    assert(doc.subrange(0, n as int) =~= doc);
    assert(slot_bytes(b3, count as int) =~= doc);
    assert forall|i: int| 0 <= i < count implies #[trigger] read_spec(b3, i) == read_spec(
        b0,
        i,
    ) by {
        assert(slot_offset(b0, i) >= fss);
        assert(slot_bytes(b3, i) =~= slot_bytes(b0, i));
    }
}

/// Appends `doc` to the page as a new slot, whose id is the current slot
/// count. Fails with `PageFull`, changing nothing, when the document and its
/// directory entry do not fit in the free space.
pub fn insert(page: &mut Vec<u8>, doc: &[u8]) -> (r: Result<u16, PageError>)
    ensures
        insert_post(old(page)@, final(page)@, doc@, r),
{
    if !is_well_formed(page) {
        return Err(PageError::Corrupt);
    }
    let count = get_u16(page, 4) as usize;
    let fss = get_u16(page, 6) as usize;
    let free = fss - (HEADER_SIZE + SLOT_SIZE * count);
    if doc.len() > free || free - doc.len() < SLOT_SIZE {
        return Err(PageError::PageFull);
    }
    let n = doc.len();
    let new_fss = fss - n;
    let ghost b0 = page@;
    copy_into(page, new_fss, doc, 0, n);
    let ghost b1 = page@;
    write_slot(page, count, new_fss as u16, n as u16, false);
    let ghost b2 = page@;
    write_counts(page, (count + 1) as u16, new_fss as u16);
    let ghost b3 = page@;
    proof {
        lemma_insert_layout(b0, b1, b2, b3, doc@, count as int, fss as int);
    }
    Ok(count as u16)
}

/// Bytes held by the live slots among the first `n`.
pub open spec fn live_bytes(b: Seq<u8>, n: int) -> int
    decreases n,
{
    if n <= 0 {
        0
    } else {
        live_bytes(b, n - 1) + if slot_tombstoned(b, n - 1) {
            0
        } else {
            slot_length(b, n - 1)
        }
    }
}

/// What `compact` did to a valid page: every slot keeps its id, its
/// tombstone and its bytes, and the live bytes are packed against the end
/// of the page.
pub open spec fn compacted(before: Seq<u8>, after: Seq<u8>) -> bool {
    &&& page_wf(after)
    &&& after.len() == before.len()
    &&& slot_count(after) == slot_count(before)
    &&& page_id_of(after) == page_id_of(before)
    &&& free_space_start(after) == before.len() - live_bytes(before, slot_count(before))
    &&& forall|i: int|
        0 <= i < slot_count(before) ==> slot_tombstoned(after, i) == slot_tombstoned(before, i)
            && #[trigger] read_spec(after, i) == read_spec(before, i)
}

/// The state of `compact` after `i` slots: `b` agrees with the page as it
/// was, `s`, below `cursor` outside the rewritten directory entries, and the first
/// `i` slots are packed between `cursor` and the end of the page.
pub open spec fn compact_inv(s: Seq<u8>, b: Seq<u8>, i: int, cursor: int) -> bool {
    &&& page_wf(s)
    &&& b.len() == s.len()
    &&& 0 <= i <= slot_count(s)
    &&& slot_ceiling(s, i) <= cursor <= s.len()
    &&& cursor + live_bytes(s, i) == s.len()
    &&& forall|k: int|
        0 <= k < cursor && (k < HEADER_SIZE || slot_pos(i) <= k) ==> #[trigger] b[k] == s[k]
    &&& forall|j: int|
        0 <= j < i ==> {
            &&& cursor <= #[trigger] slot_offset(b, j)
            &&& slot_offset(b, j) + slot_length(b, j) <= slot_ceiling(b, j)
            &&& slot_ceiling(b, j) <= b.len()
            &&& slot_tombstoned(b, j) == slot_tombstoned(s, j)
            &&& !slot_tombstoned(s, j) ==> slot_bytes(b, j) == slot_bytes(s, j)
        }
    &&& i > 0 ==> slot_offset(b, i - 1) == cursor
}

#[verifier::spinoff_prover]
#[verifier::rlimit(60)]
proof fn lemma_compact_step(s: Seq<u8>, b0: Seq<u8>, bm: Seq<u8>, b1: Seq<u8>, i: int, c0: int, c1: int)
    requires
        compact_inv(s, b0, i, c0),
        i < slot_count(s),
        c1 == if slot_tombstoned(s, i) { c0 } else { c0 - slot_length(s, i) },
        agree_outside(b0, bm, c1, c0),
        bm.subrange(c1, c0) == s.subrange(slot_offset(s, i), slot_offset(s, i) + c0 - c1),
        agree_outside(bm, b1, slot_pos(i), slot_pos(i) + SLOT_SIZE),
        slot_offset(b1, i) == c1,
        slot_length(b1, i) == c0 - c1,
        slot_tombstoned(b1, i) == slot_tombstoned(s, i),
    ensures
        compact_inv(s, b1, i + 1, c1),
{
    let len = s.len() as int;
    let q = slot_pos(i);
    assert(free_space_start(s) <= slot_offset(s, i));
    assert(slot_offset(s, i) + slot_length(s, i) <= slot_ceiling(s, i));
    assert(q + SLOT_SIZE <= c1);
    assert forall|k: int|
        0 <= k < len && !(q <= k < q + SLOT_SIZE) && !(c1 <= k < c0) implies #[trigger] b1[k]
        == b0[k] by {
        assert(bm[k] == b0[k]);
    }
    assert forall|j: int| 0 <= j < i implies slot_offset(b1, j) == slot_offset(b0, j)
        && slot_length(b1, j) == slot_length(b0, j) && slot_tombstoned(b1, j)
        == slot_tombstoned(b0, j) by {
        let qj = slot_pos(j);
        assert(b1[qj] == b0[qj] && b1[qj + 1] == b0[qj + 1] && b1[qj + 2] == b0[qj + 2]
            && b1[qj + 3] == b0[qj + 3] && b1[qj + 4] == b0[qj + 4]);
        lemma_u16_frame(b0, b1, qj);
        lemma_u16_frame(b0, b1, qj + 2);
    }
    assert forall|j: int| 0 <= j < i + 1 implies {
        &&& c1 <= #[trigger] slot_offset(b1, j)
        &&& slot_offset(b1, j) + slot_length(b1, j) <= slot_ceiling(b1, j)
        &&& slot_ceiling(b1, j) <= b1.len()
        &&& slot_tombstoned(b1, j) == slot_tombstoned(s, j)
        &&& !slot_tombstoned(s, j) ==> slot_bytes(b1, j) == slot_bytes(s, j)
    } by {
        if j < i {
            assert(slot_offset(b0, j) >= c0);
            if j > 0 {
                assert(slot_offset(b1, j - 1) == slot_offset(b0, j - 1));
            }
            if !slot_tombstoned(s, j) {
                assert forall|k: int| slot_offset(b0, j) <= k < slot_offset(b0, j) + slot_length(b0, j)
                    implies #[trigger] b1[k] == b0[k] by {}
                assert(slot_bytes(b1, j) =~= slot_bytes(b0, j));
            }
        } else {
            if j > 0 {
                assert(slot_offset(b1, j - 1) == slot_offset(b0, j - 1));
            }
            if !slot_tombstoned(s, j) {
                assert forall|k: int| c1 <= k < c0 implies #[trigger] b1[k] == bm[k] by {}
                assert(slot_bytes(b1, j) =~= bm.subrange(c1, c0));
            }
        }
    }
    assert forall|k: int|
        0 <= k < c1 && (k < HEADER_SIZE || slot_pos(i + 1) <= k) implies #[trigger] b1[k]
        == s[k] by {
        assert(b1[k] == b0[k]);
    }
}

#[verifier::spinoff_prover]
#[verifier::rlimit(60)]
proof fn lemma_compact_done(s: Seq<u8>, b0: Seq<u8>, b1: Seq<u8>, cursor: int)
    requires
        compact_inv(s, b0, slot_count(s), cursor),
        agree_outside(b0, b1, 4, 8),
        slot_count(b1) == slot_count(s),
        free_space_start(b1) == cursor,
    ensures
        compacted(s, b1),
{
    let count = slot_count(s);
    if count > 0 {
        assert(free_space_start(s) <= slot_offset(s, count - 1));
    }
    assert(b1[0] == s[0] && b1[1] == s[1] && b1[2] == s[2] && b1[3] == s[3]) by {
        assert(b0[0] == s[0] && b0[1] == s[1] && b0[2] == s[2] && b0[3] == s[3]);
    }
    assert forall|j: int| 0 <= j < count implies slot_offset(b1, j) == slot_offset(b0, j)
        && slot_length(b1, j) == slot_length(b0, j) && slot_tombstoned(b1, j)
        == slot_tombstoned(b0, j) by {
        let qj = slot_pos(j);
        lemma_u16_agree(b0, b1, 4, 8, qj);
        lemma_u16_agree(b0, b1, 4, 8, qj + 2);
        assert(b1[qj + 4] == b0[qj + 4]);
    }
    assert forall|j: int| 0 <= j < slot_count(b1) implies free_space_start(b1)
        <= #[trigger] slot_offset(b1, j) && slot_offset(b1, j) + slot_length(b1, j)
        <= slot_ceiling(b1, j) && slot_ceiling(b1, j) <= b1.len() by {
        assert(cursor <= slot_offset(b0, j));
        if j > 0 {
            assert(slot_offset(b1, j - 1) == slot_offset(b0, j - 1));
        }
    }
    assert(page_wf(b1));
    assert forall|j: int| 0 <= j < count implies slot_tombstoned(b1, j) == slot_tombstoned(s, j)
        && #[trigger] read_spec(b1, j) == read_spec(s, j) by {
        assert(cursor <= slot_offset(b0, j));
        if !slot_tombstoned(s, j) {
            assert forall|k: int| slot_offset(b0, j) <= k < slot_offset(b0, j) + slot_length(b0, j)
                implies #[trigger] b1[k] == b0[k] by {}
            assert(slot_bytes(b1, j) =~= slot_bytes(b0, j));
        }
    }
}

/// Rewrites the data region without the bytes of deleted slots. Slot ids and
/// the bytes of live slots stay; deleted slots keep their tombstone and get
/// length zero.
#[verifier::spinoff_prover]
#[verifier::rlimit(100)]
pub fn compact(page: &mut Vec<u8>) -> (r: Result<(), PageError>)
    ensures
        match r {
            Ok(_) => page_wf(old(page)@) && compacted(old(page)@, final(page)@),
            Err(e) => e == PageError::Corrupt && !page_wf(old(page)@) && final(page)@ == old(page)@,
        },
{
    if !is_well_formed(page) {
        return Err(PageError::Corrupt);
    }
    let len = page.len();
    let count = get_u16(page, 4) as usize;
    let snap = copy_range(page, 0, len);
    let ghost s = snap@;
    assert(s =~= page@);
    let mut cursor: usize = len;
    let mut i: usize = 0;
    while i < count
        invariant
            s == snap@,
            len == s.len(),
            count == slot_count(s),
            compact_inv(s, page@, i as int, cursor as int),
        decreases count - i,
    {
        let pos = HEADER_SIZE + SLOT_SIZE * i;
        let off = get_u16(&snap, pos) as usize;
        let l = get_u16(&snap, pos + 2) as usize;
        let tomb = snap[pos + 4] != 0;
        let ghost b0 = page@;
        let ghost c0 = cursor as int;
        proof {
            assert(free_space_start(s) <= slot_offset(s, i as int));
            assert(slot_offset(s, i as int) + slot_length(s, i as int) <= slot_ceiling(s, i as int));
        }
        if tomb {
            let ghost bm = page@;
            assert(bm.subrange(c0, c0) =~= s.subrange(off as int, off as int));
            write_slot(page, i, cursor as u16, 0, true);
            proof {
                lemma_compact_step(s, b0, bm, page@, i as int, c0, c0);
            }
        } else {
            let nc = cursor - l;
            copy_into(page, nc, snap.as_slice(), off, l);
            let ghost bm = page@;
            write_slot(page, i, nc as u16, l as u16, false);
            proof {
                lemma_compact_step(s, b0, bm, page@, i as int, c0, nc as int);
            }
            cursor = nc;
        }
        i = i + 1;
    }
    let ghost b0 = page@;
    write_counts(page, count as u16, cursor as u16);
    proof {
        lemma_compact_done(s, b0, page@, cursor as int);
    }
    Ok(())
}

} // verus!
