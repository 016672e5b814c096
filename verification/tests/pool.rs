use bpm::buffer_pool::BufferPool;
use bpm::disk_manager::DiskManager;
use bpm::errors::PoolError;
use bpm::frame::PAGE_SIZE;
use bpm::page::PageId;
use bpm::page::Temperature;
use bpm::replacer::AccessType;

fn new_pool(frames: usize) -> BufferPool {
    let disk = DiskManager::new(String::from("pool.db"));
    BufferPool::new(disk, frames)
}

#[test]
fn cold_read_returns_zero_filled_page() {
    // a cold read of a page past the end of an empty file
    let mut pool = new_pool(4);
    let pid = PageId::new(7);
    let guard = pool.fetch_read(pid, AccessType::Lookup).unwrap();
    let bytes = pool.guard_bytes(&guard);
    assert_eq!(bytes.len(), PAGE_SIZE);
    assert!(bytes.iter().all(|b| *b == 0u8));
    let fid = guard.frame_id();
    pool.drop_read(guard);
    // the frame now sits in the replacer's old list, unpinned
    assert!(pool.replacer().contains_old(fid));
    assert!(!pool.replacer().contains_young(fid));
    assert_eq!(pool.replacer().is_replaceable(fid).unwrap(), true);
    assert!(pool.is_resident(pid));
}

#[test]
fn write_then_read_returns_written_bytes() {
    let mut pool = new_pool(4);
    let pid = PageId::new(2);
    let guard = pool.fetch_write(pid, AccessType::Lookup).unwrap();
    let payload: Vec<u8> = b"HELLO-PAGE-02\n\0\0".to_vec();
    assert_eq!(payload.len(), 16);
    pool.write_in_guard(&guard, 0, &payload);
    pool.drop_write(guard);

    let guard = pool.fetch_read(pid, AccessType::Lookup).unwrap();
    let bytes = pool.guard_bytes(&guard);
    assert_eq!(&bytes[0..16], &payload[..]);
    assert!(bytes[16..].iter().all(|b| *b == 0u8));
    pool.drop_read(guard);
}

#[test]
fn eviction_writes_victim_to_disk_at_its_offset() {
    let mut pool = new_pool(2);
    // fill pages 0 and 1 with recognizable bytes
    for p in 0..2usize {
        let pid = PageId::new(p);
        let guard = pool.fetch_write(pid, AccessType::Lookup).unwrap();
        let payload: Vec<u8> = vec![(p as u8) + 1; 32];
        pool.write_in_guard(&guard, 0, &payload);
        pool.drop_write(guard);
    }
    assert_eq!(pool.free_count(), 0);
    // a third page forces exactly one eviction
    let guard = pool.fetch_read(PageId::new(2), AccessType::Lookup).unwrap();
    pool.drop_read(guard);
    let resident0 = pool.is_resident(PageId::new(0));
    let resident1 = pool.is_resident(PageId::new(1));
    assert!(resident0 != resident1, "exactly one of the first two pages survives");
    let evicted: usize = if resident0 { 1 } else { 0 };
    let contents = pool.disk_manager().contents();
    let offset = evicted * PAGE_SIZE;
    assert!(contents.len() >= offset + PAGE_SIZE);
    assert!(contents[offset..offset + 32].iter().all(|b| *b == (evicted as u8) + 1));
    assert!(contents[offset + 32..offset + PAGE_SIZE].iter().all(|b| *b == 0u8));
}

#[test]
fn scan_traffic_does_not_evict_the_young_set() {
    let mut pool = new_pool(4);
    // warm pages 0..4: one pass installs them, a second pass promotes the
    // lookups into the young list (two of them fit)
    for _round in 0..2 {
        for p in 0..4usize {
            let guard = pool.fetch_read(PageId::new(p), AccessType::Lookup).unwrap();
            pool.drop_read(guard);
        }
    }
    let warm: Vec<usize> = (0..4usize)
        .filter(|p| {
            let fid = pool.frame_of(PageId::new(*p)).unwrap();
            pool.replacer().contains_young(fid)
        })
        .collect();
    assert!(!warm.is_empty(), "some warmed pages sit in the young list");
    // a single scan pass over many pages rotates only through the old list
    for p in 4..100usize {
        let guard = pool.fetch_read(PageId::new(p), AccessType::Scan).unwrap();
        let fid = guard.frame_id();
        pool.drop_read(guard);
        assert!(
            !pool.replacer().contains_young(fid),
            "scan traffic never enters the young list"
        );
    }
    for p in warm {
        assert!(pool.is_resident(PageId::new(p)), "the young working set survives the scan");
    }
}

#[test]
fn repeated_reads_issue_one_disk_read_and_heat_the_page() {
    let mut pool = new_pool(4);
    let pid = PageId::new(5);
    let first = pool.fetch_read(pid, AccessType::Lookup).unwrap();
    let second = pool.fetch_read(pid, AccessType::Lookup).unwrap();
    assert_eq!(pool.disk_manager().read_count(), 1, "one disk read serves both guards");
    assert_eq!(pool.guard_bytes(&first).as_slice(), pool.guard_bytes(&second).as_slice());
    assert_eq!(pool.temperature(pid), Some(Temperature::Hot));
    pool.drop_read(first);
    pool.drop_read(second);
}

#[test]
fn pinned_page_blocks_eviction() {
    let mut pool = new_pool(1);
    let pid = PageId::new(0);
    let guard = pool.fetch_read(pid, AccessType::Lookup).unwrap();
    let err = pool.fetch_read(PageId::new(1), AccessType::Lookup);
    assert!(matches!(err, Err(PoolError::NoFramesAvailable)));
    assert!(pool.is_resident(pid), "the guarded page is never evicted");
    pool.drop_read(guard);
    // once the guard drops, the fetch succeeds by evicting page 0
    let guard = pool.fetch_read(PageId::new(1), AccessType::Lookup).unwrap();
    assert!(!pool.is_resident(pid));
    assert_eq!(pool.temperature(pid), Some(Temperature::Cold), "an evicted page is cold");
    pool.drop_read(guard);
}

#[test]
fn flush_is_idempotent_and_flush_all_persists_everything() {
    let mut pool = new_pool(3);
    let pid = PageId::new(1);
    let guard = pool.fetch_write(pid, AccessType::Lookup).unwrap();
    let payload: Vec<u8> = vec![0xabu8; 8];
    pool.write_in_guard(&guard, 8, &payload);
    pool.drop_write(guard);

    pool.flush(pid).unwrap();
    let after_first = pool.disk_manager().contents().clone();
    pool.flush(pid).unwrap();
    let after_second = pool.disk_manager().contents().clone();
    assert_eq!(after_first, after_second, "a second flush changes nothing");

    let guard = pool.fetch_write(PageId::new(2), AccessType::Lookup).unwrap();
    let payload: Vec<u8> = vec![0x17u8; 4];
    pool.write_in_guard(&guard, 0, &payload);
    pool.drop_write(guard);
    pool.flush_all().unwrap();
    let contents = pool.disk_manager().contents();
    assert_eq!(contents[PAGE_SIZE + 8], 0xab);
    assert_eq!(contents[2 * PAGE_SIZE], 0x17);
}

#[test]
fn flush_of_a_page_not_in_memory_reports_not_resident() {
    let mut pool = new_pool(2);
    assert!(matches!(pool.flush(PageId::new(9)), Err(PoolError::NotResident)));
    let guard = pool.fetch_read(PageId::new(9), AccessType::Lookup).unwrap();
    pool.drop_read(guard);
    assert!(pool.flush(PageId::new(9)).is_ok());
}

#[test]
fn optimistic_read_sees_no_writer_or_steps_aside() {
    let mut pool = new_pool(2);
    let pid = PageId::new(3);
    let guard = pool.fetch_write(pid, AccessType::Lookup).unwrap();
    let payload: Vec<u8> = vec![9u8; 3];
    pool.write_in_guard(&guard, 0, &payload);
    // a writer is active: the optimistic read declines
    assert!(pool.optimistic_read(pid).is_none());
    pool.drop_write(guard);
    // no writer: the optimistic read returns the current bytes
    let bytes = pool.optimistic_read(pid).unwrap();
    assert_eq!(&bytes[0..3], &[9u8, 9, 9]);
    assert_eq!(bytes.len(), PAGE_SIZE);
    // a page that is not in memory has nothing to read optimistically
    assert!(pool.optimistic_read(PageId::new(17)).is_none());
}

#[test]
fn frame_accounting_holds_across_a_workload() {
    let mut pool = new_pool(3);
    assert_eq!(pool.free_count(), 3);
    let g0 = pool.fetch_read(PageId::new(0), AccessType::Lookup).unwrap();
    assert_eq!(pool.free_count(), 2);
    let g1 = pool.fetch_write(PageId::new(1), AccessType::Lookup).unwrap();
    assert_eq!(pool.free_count(), 1);
    pool.drop_read(g0);
    pool.drop_write(g1);
    let g2 = pool.fetch_read(PageId::new(2), AccessType::Lookup).unwrap();
    pool.drop_read(g2);
    assert_eq!(pool.free_count(), 0);
    let resident = [0usize, 1, 2]
        .iter()
        .filter(|p| pool.is_resident(PageId::new(**p)))
        .count();
    assert_eq!(pool.free_count() + resident, 3, "free plus resident covers the pool");
}

#[test]
fn temperature_follows_residency() {
    let mut pool = new_pool(2);
    let pid = PageId::new(4);
    assert_eq!(pool.temperature(pid), None);
    let guard = pool.fetch_read(pid, AccessType::Lookup).unwrap();
    assert_eq!(pool.temperature(pid), Some(Temperature::Cool), "a loaded page starts cool");
    pool.drop_read(guard);
    let guard = pool.fetch_read(pid, AccessType::Lookup).unwrap();
    assert_eq!(pool.temperature(pid), Some(Temperature::Hot), "the next access promotes");
    pool.drop_read(guard);
}

#[test]
fn page_contents_survive_eviction_and_reload() {
    // a pool of two frames cycling through six pages: every page's bytes
    // come back after its frame was reclaimed in between
    let mut pool = new_pool(2);
    for p in 0..6usize {
        let guard = pool.fetch_write(PageId::new(p), AccessType::Lookup).unwrap();
        let payload: Vec<u8> = vec![(p as u8) + 10; 5];
        pool.write_in_guard(&guard, 0, &payload);
        pool.drop_write(guard);
    }
    for p in 0..6usize {
        let guard = pool.fetch_read(PageId::new(p), AccessType::Lookup).unwrap();
        let bytes = pool.guard_bytes(&guard);
        assert!(bytes[0..5].iter().all(|b| *b == (p as u8) + 10));
        assert!(bytes[5..].iter().all(|b| *b == 0u8));
        pool.drop_read(guard);
    }
}
