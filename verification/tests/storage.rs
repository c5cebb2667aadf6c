use sqlsync::journal::{Journal, JournalId, MemoryJournal};
use sqlsync::page::{Page, SparsePages, PAGESIZE};
use sqlsync::storage::Storage;

const P: u64 = PAGESIZE as u64;

fn filled(byte: u8) -> Vec<u8> {
    vec![byte; PAGESIZE]
}

fn storage() -> Storage<MemoryJournal> {
    Storage::new(MemoryJournal::new(JournalId { id: 7 }))
}

fn read_page(s: &mut Storage<MemoryJournal>, idx: u64) -> Option<Vec<u8>> {
    let mut buf = vec![0u8; PAGESIZE];
    match s.read(idx * P, &mut buf).unwrap() {
        0 => None,
        n => {
            assert_eq!(n, PAGESIZE);
            Some(buf)
        }
    }
}

#[test]
fn committed_writes_read_back() {
    let mut s = storage();
    assert_eq!(s.write(2 * P, &filled(1)).unwrap(), PAGESIZE);
    s.write(9 * P, &filled(2)).unwrap();
    s.write(2 * P, &filled(3)).unwrap();
    assert_eq!(read_page(&mut s, 2), Some(filled(3)));
    s.commit().unwrap();
    assert_eq!(read_page(&mut s, 9), Some(filled(2)));
    assert_eq!(read_page(&mut s, 4), None);
    assert_eq!(read_page(&mut s, 2), Some(filled(3)));
    assert_eq!(s.last_committed_lsn(), Some(0));
    assert!(s.has_committed_pages());
}

#[test]
fn newest_commit_wins_and_pending_wins_over_it() {
    let mut s = storage();
    s.write(1 * P, &filled(1)).unwrap();
    s.write(2 * P, &filled(1)).unwrap();
    s.commit().unwrap();
    s.write(1 * P, &filled(2)).unwrap();
    s.commit().unwrap();
    s.write(3 * P, &filled(3)).unwrap();
    s.commit().unwrap();
    assert_eq!(s.last_committed_lsn(), Some(2));
    assert_eq!(read_page(&mut s, 1), Some(filled(2)));
    assert_eq!(read_page(&mut s, 2), Some(filled(1)));
    s.write(1 * P, &filled(9)).unwrap();
    assert_eq!(read_page(&mut s, 1), Some(filled(9)));
    assert_eq!(read_page(&mut s, 3), Some(filled(3)));
}

#[test]
fn revert_restores_reads_and_creates_no_entry() {
    let mut s = storage();
    s.write(1 * P, &filled(1)).unwrap();
    s.commit().unwrap();
    s.write(1 * P, &filled(8)).unwrap();
    s.write(6 * P, &filled(8)).unwrap();
    s.revert();
    assert_eq!(read_page(&mut s, 1), Some(filled(1)));
    assert_eq!(read_page(&mut s, 6), None);
    assert_eq!(s.last_committed_lsn(), Some(0));
    s.commit().unwrap();
    assert_eq!(s.last_committed_lsn(), Some(0));
}

#[test]
fn commit_without_pending_is_a_no_op() {
    let mut s = storage();
    s.commit().unwrap();
    assert_eq!(s.last_committed_lsn(), None);
    assert!(!s.has_committed_pages());
    assert_eq!(s.file_size().unwrap(), 0);
    s.sync().unwrap();
}

#[test]
fn file_size_follows_the_greatest_page() {
    let mut s = storage();
    assert_eq!(s.file_size().unwrap(), 0);
    s.write(5 * P, &filled(1)).unwrap();
    assert_eq!(s.file_size().unwrap(), 6 * 4096);
    s.commit().unwrap();
    s.write(10 * P, &filled(2)).unwrap();
    assert_eq!(s.file_size().unwrap(), 11 * 4096);
    s.revert();
    assert_eq!(s.file_size().unwrap(), 6 * 4096);
    s.write(0, &filled(3)).unwrap();
    s.commit().unwrap();
    assert_eq!(s.file_size().unwrap(), 6 * 4096);
}

#[test]
fn file_size_beyond_64_bits_is_an_error() {
    let mut s = storage();
    s.write(u64::MAX, &filled(1)).unwrap();
    assert!(matches!(s.file_size(), Err(sqlsync::storage::StorageError::SizeOverflow)));
}

#[test]
fn change_counter_differs_on_every_read() {
    let mut s = storage();
    s.write(0, &filled(0x55)).unwrap();
    s.commit().unwrap();
    let mut a = vec![0u8; 4];
    let mut b = vec![0u8; 4];
    assert_eq!(s.read(24, &mut a).unwrap(), 4);
    assert_eq!(s.read(24, &mut b).unwrap(), 4);
    assert_ne!(a, b);
    assert_eq!(a, vec![0, 0, 0, 1]);
    assert_eq!(b, vec![0, 0, 0, 0]);
}

#[test]
fn header_probe_is_stamped_in_place() {
    let mut s = storage();
    s.write(0, &filled(0x55)).unwrap();
    let mut buf = vec![0u8; 100];
    assert_eq!(s.read(0, &mut buf).unwrap(), 100);
    let mut expected = vec![0x55u8; 100];
    expected[24..28].copy_from_slice(&[0, 0, 0, 1]);
    assert_eq!(buf, expected);
    let mut buf = vec![0u8; 10];
    assert_eq!(s.read(20, &mut buf).unwrap(), 10);
    assert_eq!(buf, vec![0x55, 0x55, 0x55, 0x55, 0, 0, 0, 0, 0x55, 0x55]);
}

#[test]
fn partial_overlap_of_the_counter_is_stamped_too() {
    let mut s = storage();
    s.write(0, &filled(0x55)).unwrap();
    let mut buf = vec![0u8; 4];
    assert_eq!(s.read(26, &mut buf).unwrap(), 4);
    assert_eq!(buf, vec![0, 1, 0x55, 0x55]);
    let mut buf = vec![0u8; 3];
    assert_eq!(s.read(24, &mut buf).unwrap(), 3);
    assert_eq!(buf, vec![0, 0, 0]);
    let mut buf = vec![0u8; 8];
    assert_eq!(s.read(25, &mut buf).unwrap(), 8);
    assert_eq!(buf, vec![0, 0, 1, 0x55, 0x55, 0x55, 0x55, 0x55]);
    let mut buf = vec![0u8; 6];
    assert_eq!(s.read(19, &mut buf).unwrap(), 6);
    assert_eq!(buf, vec![0x55, 0x55, 0x55, 0x55, 0x55, 0]);
    let mut buf = vec![0u8; 1];
    assert_eq!(s.read(27, &mut buf).unwrap(), 1);
    assert_eq!(buf, vec![1]);
    assert_eq!(s.read(27, &mut buf).unwrap(), 1);
    assert_eq!(buf, vec![0]);
}

#[test]
fn reads_beside_the_counter_are_untouched() {
    let mut s = storage();
    s.write(0, &filled(0x55)).unwrap();
    s.write(1 * P, &filled(0x66)).unwrap();
    let mut buf = vec![0u8; 4];
    assert_eq!(s.read(20, &mut buf).unwrap(), 4);
    assert_eq!(buf, vec![0x55; 4]);
    let mut buf = vec![0u8; 8];
    assert_eq!(s.read(28, &mut buf).unwrap(), 8);
    assert_eq!(buf, vec![0x55; 8]);
    let mut buf = vec![0u8; 8];
    assert_eq!(s.read(P + 24, &mut buf).unwrap(), 8);
    assert_eq!(buf, vec![0x66; 8]);
    let mut buf = vec![0u8; 4];
    assert_eq!(s.read(24, &mut buf).unwrap(), 4);
    assert_eq!(buf, vec![0, 0, 0, 1]);
}

#[test]
fn read_within_a_page_uses_the_offset() {
    let mut s = storage();
    let mut page = vec![0u8; PAGESIZE];
    for (i, b) in page.iter_mut().enumerate() {
        *b = (i % 256) as u8;
    }
    s.write(3 * P, &page).unwrap();
    s.commit().unwrap();
    let mut buf = vec![0u8; 5];
    assert_eq!(s.read(3 * P + 300, &mut buf).unwrap(), 5);
    assert_eq!(buf, vec![44, 45, 46, 47, 48]);
}

#[test]
fn missing_page_and_empty_buffer_read_nothing() {
    let mut s = storage();
    s.write(1 * P, &filled(1)).unwrap();
    let mut buf = vec![0xEEu8; 16];
    assert_eq!(s.read(2 * P, &mut buf).unwrap(), 0);
    assert_eq!(buf, vec![0xEE; 16]);
    let mut none: Vec<u8> = Vec::new();
    assert_eq!(s.read(1 * P, &mut none).unwrap(), 0);
}

#[test]
fn replicated_entry_stays_invisible_until_revert() {
    let mut s = storage();
    s.write(1 * P, &filled(1)).unwrap();
    s.commit().unwrap();
    let mut remote = SparsePages::new();
    remote.write(1, Page::from_bytes(&filled(2)));
    s.write_lsn(JournalId { id: 7 }, 1, &remote).unwrap();
    assert_eq!(read_page(&mut s, 1), Some(filled(1)));
    s.revert();
    assert_eq!(read_page(&mut s, 1), Some(filled(2)));
    let range = s.range(JournalId { id: 7 }).unwrap();
    assert_eq!((range.first(), range.last()), (Some(0), Some(1)));
    assert_eq!(s.source_id().id, 7);
    assert!(s.read_lsn(2).unwrap().is_none());
    assert_eq!(s.read_lsn(1).unwrap().unwrap().get(1).unwrap().as_slice(), &filled(2)[..]);
    assert_eq!(s.journal_ref().range().last(), Some(1));
}

#[test]
fn refused_commit_keeps_pending() {
    let id = JournalId { id: 7 };
    let mut s = storage();
    s.write_lsn(id, u64::MAX, &SparsePages::new()).unwrap();
    s.revert();
    s.write(4 * P, &filled(4)).unwrap();
    assert!(matches!(
        s.commit(),
        Err(sqlsync::storage::StorageError::Journal(sqlsync::journal::JournalError::LsnExhausted))
    ));
    assert_eq!(s.num_pending_pages(), 1);
    assert_eq!(read_page(&mut s, 4), Some(filled(4)));
    assert_eq!(s.last_committed_lsn(), Some(u64::MAX));
    assert_eq!(s.file_size().unwrap(), 5 * 4096);
}

#[test]
fn reads_and_sizes_after_two_commits() {
    let mut s = storage();
    s.write(P, &filled(1)).unwrap();
    s.write(5 * P, &filled(7)).unwrap();
    s.commit().unwrap();
    s.write(P, &filled(2)).unwrap();
    s.commit().unwrap();
    let mut buf = vec![0u8; 8];
    assert_eq!(s.read(P, &mut buf).unwrap(), 8);
    assert_eq!(buf, vec![2u8; 8]);
    assert_eq!(s.file_size().unwrap(), 24576);
}
