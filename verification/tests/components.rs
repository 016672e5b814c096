use bpm::disk_manager::DiskManager;
use bpm::frame::PAGE_SIZE;
use bpm::frame::SharedFrame;
use bpm::hybrid_lock::HybridLock;
use bpm::page::PageId;
use bpm::page::Temperature;

#[test]
fn a_fresh_frame_is_a_zero_filled_page() {
    let frame = SharedFrame::new();
    assert_eq!(frame.bytes().len(), PAGE_SIZE);
    assert!(frame.bytes().iter().all(|b| *b == 0u8));
    let defaulted = SharedFrame::default();
    assert_eq!(defaulted.bytes().as_slice(), frame.bytes().as_slice());
}

#[test]
fn frame_bytes_read_back_what_was_written() {
    let mut frame = SharedFrame::new();
    frame.write_byte(0, 0x41);
    frame.write_byte(4095, 0x42);
    assert_eq!(frame.read_byte(0), 0x41);
    assert_eq!(frame.read_byte(1), 0);
    assert_eq!(frame.read_byte(4095), 0x42);
    let copy = frame.to_vec();
    assert_eq!(copy[0], 0x41);
    assert_eq!(copy[4095], 0x42);
    let patch: Vec<u8> = vec![7u8, 8, 9];
    frame.write_bytes(10, &patch);
    assert_eq!(frame.read_byte(10), 7);
    assert_eq!(frame.read_byte(12), 9);
    assert_eq!(frame.read_byte(13), 0);
}

#[test]
fn disk_reads_past_the_end_yield_zeros() {
    let mut disk = DiskManager::new(String::from("test.db"));
    assert_eq!(disk.file_name().as_str(), "test.db");
    let frame = SharedFrame::new();
    let frame = disk.read(PageId::new(3), frame);
    assert!(frame.bytes().iter().all(|b| *b == 0u8));
    assert_eq!(disk.read_count(), 1);
    assert_eq!(disk.write_count(), 0);
    assert_eq!(disk.contents().len(), 0, "a read does not grow the image");
}

#[test]
fn disk_round_trip_preserves_page_bytes() {
    let mut disk = DiskManager::new(String::from("test.db"));
    let mut frame = SharedFrame::new();
    frame.write_byte(0, 0x10);
    frame.write_byte(100, 0x99);
    let frame = disk.write(PageId::new(2), frame);
    assert_eq!(disk.write_count(), 1);
    assert_eq!(disk.contents().len(), 3 * PAGE_SIZE, "the image grows to hold the page");
    // the gap pages are zero
    assert!(disk.contents()[..2 * PAGE_SIZE].iter().all(|b| *b == 0u8));
    assert_eq!(disk.contents()[2 * PAGE_SIZE], 0x10);
    assert_eq!(disk.contents()[2 * PAGE_SIZE + 100], 0x99);
    // reading the page back into a dirty frame restores the bytes
    let mut other = SharedFrame::new();
    other.write_byte(0, 0xff);
    let other = disk.read(PageId::new(2), other);
    assert_eq!(other.bytes().as_slice(), frame.bytes().as_slice());
}

#[test]
fn an_image_loaded_from_existing_bytes_reads_back() {
    let mut image: Vec<u8> = vec![0u8; PAGE_SIZE];
    image[5] = 0x77;
    let mut disk = DiskManager::with_contents(String::from("warm.db"), image);
    let frame = disk.read(PageId::new(0), SharedFrame::new());
    assert_eq!(frame.read_byte(5), 0x77);
}

#[test]
fn the_hybrid_lock_versions_every_write_release() {
    let mut lock = HybridLock::new();
    assert_eq!(lock.current_version(), 0);
    assert!(!lock.is_locked_exclusive());
    let before = lock.current_version();
    lock.write_acquire();
    assert!(lock.is_locked_exclusive());
    assert!(!lock.validate(before), "a raised flag fails validation");
    lock.write_release();
    assert!(!lock.is_locked_exclusive());
    assert_eq!(lock.current_version(), 1);
    assert!(!lock.validate(before), "a moved version fails validation");
    assert!(lock.validate(1), "a quiet lock with the noted version validates");
    lock.read_acquire();
    lock.read_acquire();
    assert_eq!(lock.readers(), 2);
    assert!(lock.validate(1), "readers do not disturb optimistic validation");
    lock.read_release();
    lock.read_release();
    assert_eq!(lock.readers(), 0);
}

#[test]
fn try_hot_promotes_only_cool_pages() {
    let mut t = Temperature::Cold;
    t.try_hot();
    assert_eq!(t.load(), Temperature::Cold, "a cold page never heats directly");
    t = Temperature::Cool;
    t.try_hot();
    assert_eq!(t.load(), Temperature::Hot);
    t.try_hot();
    assert_eq!(t.load(), Temperature::Hot);
}

#[test]
fn page_ids_convert_to_their_number() {
    let pid = PageId::new(41);
    assert_eq!(pid.index(), 41);
    assert_eq!(u64::from(pid), 41u64);
    assert_eq!(PageId::new(41), pid);
    assert!(PageId::new(40) != pid);
}
