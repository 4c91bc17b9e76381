use database::buffer_pool::BufferPool;
use database::error::StorageError;
use database::paged_file::PagedFile;
use database::slotted_page::{self, PageError, HEADER_SIZE, SLOT_SIZE};
use database::storage_engine::{DocumentId, StorageEngine};

fn doc(len: usize, fill: u8) -> Vec<u8> {
    (0..len).map(|i| fill.wrapping_add(i as u8)).collect()
}

fn empty_page(size: usize, id: u32) -> Vec<u8> {
    let mut page = vec![0u8; size];
    slotted_page::init_page(&mut page, id);
    page
}

#[test]
fn scenario_eviction_and_reload() {
    let mut engine = StorageEngine::new(PagedFile::new(4096), 1);
    let a = doc(200, 1);
    let b = doc(200, 2);
    let c = doc(4000, 3);
    let id_a = engine.insert_document(&a).unwrap();
    assert_eq!((id_a.page_id(), id_a.slot_id()), (0, 0));
    assert_eq!(engine.page_count(), 1);
    let id_b = engine.insert_document(&b).unwrap();
    assert_eq!((id_b.page_id(), id_b.slot_id()), (0, 1));
    assert_eq!(engine.page_count(), 1);
    let id_c = engine.insert_document(&c).unwrap();
    assert_eq!((id_c.page_id(), id_c.slot_id()), (1, 0));
    assert_eq!(engine.page_count(), 2);
    assert_eq!(engine.resident_count(), 1);
    // page 0 was flushed when it was evicted
    let on_disk = engine.database_file().read_page(0).unwrap();
    assert_eq!(slotted_page::read(&on_disk, 0), Ok(a.clone()));
    assert_eq!(slotted_page::read(&on_disk, 1), Ok(b.clone()));
    assert_eq!(engine.get_document(&DocumentId::new(0, 0)), Ok(a.clone()));
    assert_eq!(engine.get_document(&id_b), Ok(b));
    assert_eq!(engine.get_document(&id_c), Ok(c));
    assert_eq!(engine.resident_count(), 1);
}

#[test]
fn scenario_delete_then_new_slot() {
    let mut engine = StorageEngine::new(PagedFile::new(4096), 1);
    let a = doc(200, 1);
    let id_a = engine.insert_document(&a).unwrap();
    let id_b = engine.insert_document(&doc(200, 2)).unwrap();
    assert_eq!(engine.delete_document(&DocumentId::new(0, 0)), Ok(()));
    assert_eq!(engine.get_document(&id_a), Err(StorageError::Tombstoned));
    let id_n = engine.insert_document(&doc(200, 9)).unwrap();
    assert_eq!(id_n.page_id(), 0);
    assert_ne!(id_n.slot_id(), 0);
    assert_eq!(id_n.slot_id(), 2);
    assert_eq!(engine.get_document(&id_b), Ok(doc(200, 2)));
    assert_eq!(engine.get_document(&id_n), Ok(doc(200, 9)));
}

#[test]
fn scenario_document_too_large() {
    let limit = 4096 - HEADER_SIZE - SLOT_SIZE;
    let mut engine = StorageEngine::new(PagedFile::new(4096), 1);
    assert_eq!(engine.insert_document(&doc(limit + 1, 0)), Err(StorageError::DocumentTooLarge));
    assert_eq!(engine.page_count(), 0);
    engine.insert_document(&doc(10, 0)).unwrap();
    assert_eq!(engine.insert_document(&doc(limit + 1, 0)), Err(StorageError::DocumentTooLarge));
    let mut empty_pool = StorageEngine::new(PagedFile::new(4096), 0);
    assert_eq!(empty_pool.insert_document(&doc(limit + 1, 0)), Err(StorageError::DocumentTooLarge));
    let id = engine.insert_document(&doc(limit, 7)).unwrap();
    assert_eq!(id.slot_id(), 0);
    assert_eq!(engine.get_document(&id), Ok(doc(limit, 7)));
}

#[test]
fn round_trip_various_sizes() {
    let mut engine = StorageEngine::new(PagedFile::new(512), 2);
    let mut stored = Vec::new();
    for (n, len) in [0usize, 1, 17, 100, 300, 499, 5].iter().enumerate() {
        let d = doc(*len, n as u8);
        let id = engine.insert_document(&d).unwrap();
        stored.push((id, d));
    }
    for (id, d) in &stored {
        assert_eq!(engine.get_document(id), Ok(d.clone()));
    }
}

#[test]
fn addresses_survive_evictions_and_inserts() {
    let mut engine = StorageEngine::new(PagedFile::new(256), 2);
    let mut stored = Vec::new();
    for n in 0..40u8 {
        let d = doc(60 + n as usize, n);
        let id = engine.insert_document(&d).unwrap();
        stored.push((id, d));
        for (id, d) in &stored {
            assert_eq!(engine.get_document(id), Ok(d.clone()));
        }
    }
    assert!(engine.resident_count() <= 2);
}

#[test]
fn get_and_delete_errors() {
    let mut engine = StorageEngine::new(PagedFile::new(4096), 2);
    assert_eq!(engine.get_document(&DocumentId::new(0, 0)), Err(StorageError::OutOfRange));
    assert_eq!(engine.delete_document(&DocumentId::new(3, 0)), Err(StorageError::OutOfRange));
    let id = engine.insert_document(&doc(10, 0)).unwrap();
    assert_eq!(engine.get_document(&DocumentId::new(0, 5)), Err(StorageError::SlotNotFound));
    assert_eq!(engine.delete_document(&DocumentId::new(0, 5)), Err(StorageError::SlotNotFound));
    assert_eq!(engine.delete_document(&id), Ok(()));
    assert_eq!(engine.delete_document(&id), Ok(()));
    assert_eq!(engine.get_document(&id), Err(StorageError::Tombstoned));
}

#[test]
fn pool_without_frames_is_exhausted() {
    let mut engine = StorageEngine::new(PagedFile::new(4096), 0);
    assert_eq!(engine.insert_document(&doc(10, 0)), Err(StorageError::PoolExhausted));
    let mut file = PagedFile::new(4096);
    file.allocate_page().unwrap();
    let mut engine = StorageEngine::new(file, 0);
    assert_eq!(engine.get_document(&DocumentId::new(0, 0)), Err(StorageError::PoolExhausted));
}

#[test]
fn unformatted_page_reads_as_corrupt() {
    let mut file = PagedFile::new(4096);
    file.allocate_page().unwrap();
    let mut engine = StorageEngine::new(file, 1);
    assert_eq!(engine.get_document(&DocumentId::new(0, 0)), Err(StorageError::CorruptFile));
}

#[test]
fn flush_all_writes_pages_back() {
    let mut engine = StorageEngine::new(PagedFile::new(1024), 4);
    let id = engine.insert_document(&doc(50, 4)).unwrap();
    engine.flush_all();
    let page = engine.database_file().read_page(id.page_id()).unwrap();
    assert_eq!(slotted_page::read(&page, id.slot_id()), Ok(doc(50, 4)));
}

#[test]
fn slotted_page_insert_read_delete() {
    let mut page = empty_page(128, 7);
    assert_eq!(slotted_page::free_space(&page), 120);
    assert_eq!(slotted_page::insert(&mut page, &[1, 2, 3]), Ok(0));
    assert_eq!(slotted_page::free_space(&page), 120 - 3 - 5);
    assert_eq!(slotted_page::insert(&mut page, &[4, 5]), Ok(1));
    assert_eq!(slotted_page::read(&page, 0), Ok(vec![1, 2, 3]));
    assert_eq!(slotted_page::read(&page, 1), Ok(vec![4, 5]));
    assert_eq!(slotted_page::read(&page, 2), Err(PageError::SlotNotFound));
    assert_eq!(slotted_page::delete(&mut page, 0), Ok(()));
    assert_eq!(slotted_page::read(&page, 0), Err(PageError::Tombstoned));
    assert_eq!(slotted_page::delete(&mut page, 9), Err(PageError::SlotNotFound));
    // the deleted bytes are not reclaimed
    assert_eq!(slotted_page::free_space(&page), 120 - 3 - 5 - 2 - 5);
    // little-endian header: id 7, two slots, data from 123 on
    assert_eq!(&page[0..8], &[7, 0, 0, 0, 2, 0, 123, 0]);
    // first directory entry: offset 125, length 3, tombstoned
    assert_eq!(&page[8..13], &[125, 0, 3, 0, 1]);
}

#[test]
fn slotted_page_full() {
    let mut page = empty_page(32, 0);
    // 24 free bytes: 19 of payload and a 5-byte entry
    assert_eq!(slotted_page::insert(&mut page, &[0u8; 20]), Err(PageError::PageFull));
    let before = page.clone();
    assert_eq!(slotted_page::insert(&mut page, &[0u8; 20]), Err(PageError::PageFull));
    assert_eq!(page, before);
    assert_eq!(slotted_page::insert(&mut page, &[1u8; 19]), Ok(0));
    assert_eq!(slotted_page::free_space(&page), 0);
    assert_eq!(slotted_page::insert(&mut page, &[]), Err(PageError::PageFull));
}

#[test]
fn slotted_page_corrupt() {
    let mut page = vec![0u8; 64];
    assert!(!slotted_page::is_well_formed(&page));
    assert_eq!(slotted_page::insert(&mut page, &[1]), Err(PageError::Corrupt));
    assert_eq!(slotted_page::read(&page, 0), Err(PageError::Corrupt));
    assert_eq!(slotted_page::compact(&mut page), Err(PageError::Corrupt));
    assert!(slotted_page::is_well_formed(&empty_page(64, 1)));
}

#[test]
fn compaction_keeps_ids_and_contents() {
    let mut page = empty_page(64, 3);
    assert_eq!(slotted_page::insert(&mut page, &[1; 10]), Ok(0));
    assert_eq!(slotted_page::insert(&mut page, &[2; 6]), Ok(1));
    assert_eq!(slotted_page::insert(&mut page, &[3; 4]), Ok(2));
    assert_eq!(slotted_page::delete(&mut page, 1), Ok(()));
    let free_before = slotted_page::free_space(&page);
    assert_eq!(slotted_page::compact(&mut page), Ok(()));
    assert_eq!(slotted_page::free_space(&page), free_before + 6);
    assert_eq!(slotted_page::read(&page, 0), Ok(vec![1; 10]));
    assert_eq!(slotted_page::read(&page, 1), Err(PageError::Tombstoned));
    assert_eq!(slotted_page::read(&page, 2), Ok(vec![3; 4]));
    assert_eq!(slotted_page::insert(&mut page, &[4; 2]), Ok(3));
    assert_eq!(slotted_page::read(&page, 2), Ok(vec![3; 4]));
    assert_eq!(slotted_page::read(&page, 3), Ok(vec![4; 2]));
}

#[test]
fn directory_never_overlaps_data() {
    let mut page = empty_page(100, 0);
    let mut n = 0u8;
    while slotted_page::insert(&mut page, &[n; 3]).is_ok() {
        n += 1;
        let count = u16::from_le_bytes([page[4], page[5]]) as usize;
        let start = u16::from_le_bytes([page[6], page[7]]) as usize;
        assert!(HEADER_SIZE + SLOT_SIZE * count <= start);
    }
    assert_eq!(n, 11);
    assert!(slotted_page::is_well_formed(&page));
}

#[test]
fn paged_file_image() {
    assert_eq!(PagedFile::from_image(&vec![0u8; 100], 64).err(), Some(StorageError::CorruptFile));
    assert_eq!(PagedFile::from_image(&vec![0u8; 128], 64).err(), Some(StorageError::CorruptFile));
    let mut image = empty_page(64, 0);
    image.extend(empty_page(64, 1));
    let file = PagedFile::from_image(&image, 64).unwrap();
    assert_eq!(file.page_count(), 2);
    assert_eq!(file.read_page(1), Ok(empty_page(64, 1)));
    assert_eq!(file.read_page(2), Err(StorageError::OutOfRange));
    let empty = PagedFile::from_image(&Vec::new(), 64).unwrap();
    assert_eq!(empty.page_count(), 0);
}

#[test]
fn paged_file_write_and_allocate() {
    let mut file = PagedFile::new(64);
    assert_eq!(file.allocate_page(), Ok(0));
    assert_eq!(file.allocate_page(), Ok(1));
    assert_eq!(file.read_page(1), Ok(vec![0u8; 64]));
    let page = empty_page(64, 1);
    assert_eq!(file.write_page(1, &page), Ok(()));
    assert_eq!(file.read_page(1), Ok(page.clone()));
    assert_eq!(file.write_page(2, &page), Err(StorageError::OutOfRange));
}

#[test]
fn pool_evicts_least_recently_unpinned() {
    let mut file = PagedFile::new(64);
    for _ in 0..3 {
        file.allocate_page().unwrap();
    }
    let mut pool = BufferPool::new(file, 2);
    let f0 = pool.pin_page(0).unwrap();
    let f1 = pool.pin_page(1).unwrap();
    assert_eq!((f0, f1), (0, 1));
    assert_eq!(pool.pin_page(2), Err(StorageError::PoolExhausted));
    pool.unpin_page(1, false);
    pool.unpin_page(0, false);
    // page 1 was unpinned first, so it goes
    assert_eq!(pool.pin_page(2), Ok(1));
    assert_eq!(pool.get_all_page_ids(), vec![0, 2]);
    assert_eq!(pool.pin_page(7), Err(StorageError::OutOfRange));
    assert!(pool.resident_count() <= pool.capacity());
}

#[test]
fn pool_flushes_dirty_victim() {
    let mut file = PagedFile::new(64);
    file.allocate_page().unwrap();
    file.allocate_page().unwrap();
    let mut pool = BufferPool::new(file, 1);
    let f = pool.pin_page(0).unwrap();
    pool.init_frame(f);
    assert_eq!(pool.insert_into(f, &[9, 9, 9]), Ok(0));
    pool.unpin_page(0, true);
    assert_eq!(pool.file_ref().read_page(0), Ok(vec![0u8; 64]));
    let g = pool.pin_page(1).unwrap();
    assert_eq!(g, 0);
    let on_disk = pool.file_ref().read_page(0).unwrap();
    assert_eq!(slotted_page::read(&on_disk, 0), Ok(vec![9, 9, 9]));
    pool.unpin_page(1, false);
    let h = pool.pin_page(0).unwrap();
    assert_eq!(pool.read_from(h, 0), Ok(vec![9, 9, 9]));
}

#[test]
fn engine_compaction_keeps_addresses() {
    let mut engine = StorageEngine::new(PagedFile::new(256), 1);
    let a = engine.insert_document(&doc(40, 1)).unwrap();
    let b = engine.insert_document(&doc(50, 2)).unwrap();
    let c = engine.insert_document(&doc(60, 3)).unwrap();
    assert_eq!(engine.delete_document(&b), Ok(()));
    assert_eq!(engine.compact_page(0), Ok(()));
    assert_eq!(engine.get_document(&a), Ok(doc(40, 1)));
    assert_eq!(engine.get_document(&b), Err(StorageError::Tombstoned));
    assert_eq!(engine.get_document(&c), Ok(doc(60, 3)));
    // the reclaimed 50 bytes take a document that did not fit before
    let d = engine.insert_document(&doc(120, 4)).unwrap();
    assert_eq!((d.page_id(), d.slot_id()), (0, 3));
    assert_eq!(engine.compact_page(1), Err(StorageError::OutOfRange));
}
