use sqlsync::journal::{Journal, JournalError, JournalId, MemoryJournal};
use sqlsync::lsn::{LsnCursor, LsnRange};
use sqlsync::page::{copy_into, copy_range, Page, SparsePages, PAGESIZE};
use sqlsync::replication::{ReplicationDestination, ReplicationError, ReplicationSource};

fn page_of(byte: u8) -> Page {
    Page::from_bytes(&vec![byte; PAGESIZE])
}

fn one_page(idx: u64, byte: u8) -> SparsePages {
    let mut pages = SparsePages::new();
    pages.write(idx, page_of(byte));
    pages
}

#[test]
fn sparse_pages_keep_ascending_unique_keys() {
    let mut pages = SparsePages::new();
    assert_eq!(pages.max_page_idx(), None);
    assert_eq!(pages.num_pages(), 0);
    pages.write(9, page_of(1));
    pages.write(2, page_of(2));
    pages.write(5, page_of(3));
    pages.write(2, page_of(4));
    assert_eq!(pages.num_pages(), 3);
    assert_eq!((pages.key_at(0), pages.key_at(1), pages.key_at(2)), (2, 5, 9));
    assert_eq!(pages.max_page_idx(), Some(9));
    assert_eq!(pages.get(2).unwrap().as_slice()[0], 4);
    assert_eq!(pages.page_at(1).as_slice()[0], 3);
    assert!(pages.get(3).is_none());
    let copy = pages.duplicate();
    pages.clear();
    assert_eq!(pages.num_pages(), 0);
    assert_eq!(pages.max_page_idx(), None);
    assert_eq!(copy.num_pages(), 3);
    assert_eq!(copy.get(9).unwrap().duplicate().as_slice(), &vec![1u8; PAGESIZE][..]);
}

#[test]
fn sparse_pages_read_with_offset() {
    let mut bytes = vec![0u8; PAGESIZE];
    for (i, b) in bytes.iter_mut().enumerate() {
        *b = (i % 256) as u8;
    }
    let mut pages = SparsePages::new();
    pages.write(4, Page::from_bytes(&bytes));
    let mut buf = vec![0xEEu8; 4];
    assert_eq!(pages.read(3, 0, &mut buf), 0);
    assert_eq!(buf, vec![0xEE; 4]);
    assert_eq!(pages.read(4, 10, &mut buf), 4);
    assert_eq!(buf, vec![10, 11, 12, 13]);
    let mut buf = vec![0xEEu8; 4];
    assert_eq!(pages.read(4, PAGESIZE - 2, &mut buf), 2);
    assert_eq!(buf, vec![254, 255, 0xEE, 0xEE]);
    assert_eq!(pages.read(4, PAGESIZE, &mut buf), 0);
}

#[test]
fn byte_copies() {
    assert_eq!(copy_range(&[1, 2, 3, 4], 1, 3), vec![2, 3]);
    let mut dst = vec![9u8; 4];
    copy_into(&mut dst, &[1, 2, 3, 4], 2, 4);
    assert_eq!(dst, vec![3, 4, 9, 9]);
}

#[test]
fn lsn_range_queries() {
    let empty = LsnRange::empty();
    assert!(empty.is_empty());
    assert!(!empty.is_non_empty());
    assert_eq!((empty.first(), empty.last(), empty.len()), (None, None, 0));
    assert!(!empty.contains(0));
    assert!(empty.can_append(17));
    let r = LsnRange::new(3, 5);
    assert!(r.is_non_empty());
    assert_eq!((r.first(), r.last(), r.len()), (Some(3), Some(5), 3));
    assert!(r.contains(3) && r.contains(5) && !r.contains(2) && !r.contains(6));
    assert!(r.can_append(6) && !r.can_append(5) && !r.can_append(7));
    let grown = r.append(6);
    assert_eq!((grown.first(), grown.last()), (Some(3), Some(6)));
    let started = empty.append(4);
    assert_eq!((started.first(), started.last()), (Some(4), Some(4)));
    assert_eq!(LsnRange::new(0, u64::MAX).len(), u64::MAX);
    assert!(!LsnRange::new(0, u64::MAX).can_append(0));
}

#[test]
fn memory_journal_numbers_entries_from_zero() {
    let mut j = MemoryJournal::new(JournalId { id: 1 });
    assert!(j.range().is_empty());
    j.append(&one_page(1, 1)).unwrap();
    j.append(&one_page(1, 2)).unwrap();
    assert_eq!((j.range().first(), j.range().last()), (Some(0), Some(1)));
    assert_eq!(j.entry(0).unwrap().get(1).unwrap().as_slice()[0], 1);
    assert_eq!(j.entry(1).unwrap().get(1).unwrap().as_slice()[0], 2);
    assert_eq!(j.journal_id().id, 1);
}

#[test]
fn memory_journal_refuses_to_pass_the_last_lsn() {
    let mut j = MemoryJournal::new(JournalId { id: 1 });
    j.write_lsn(JournalId { id: 1 }, u64::MAX, &one_page(1, 1)).unwrap();
    assert!(matches!(j.append(&one_page(1, 2)), Err(JournalError::LsnExhausted)));
    assert_eq!((j.range().first(), j.range().last()), (Some(u64::MAX), Some(u64::MAX)));
}

#[test]
fn destination_receives_entries_in_order() {
    let id = JournalId { id: 42 };
    let mut dest = MemoryJournal::new(id);
    assert!(dest.range_of(id).unwrap().is_empty());
    for lsn in 1..=5u64 {
        dest.write_lsn(id, lsn, &one_page(lsn, lsn as u8)).unwrap();
    }
    let range = dest.range_of(id).unwrap();
    assert_eq!((range.first(), range.last()), (Some(1), Some(5)));
    assert_eq!(dest.source_id(), id);
    assert!(dest.read_lsn(0).unwrap().is_none());
    assert!(dest.read_lsn(6).unwrap().is_none());
    let third = dest.read_lsn(3).unwrap().unwrap();
    assert_eq!(third.num_pages(), 1);
    assert_eq!(third.get(3).unwrap().as_slice(), &vec![3u8; PAGESIZE][..]);
}

#[test]
fn destination_refuses_gaps_and_strangers() {
    let id = JournalId { id: 42 };
    let mut dest = MemoryJournal::new(id);
    dest.write_lsn(id, 1, &one_page(1, 1)).unwrap();
    match dest.write_lsn(id, 3, &one_page(1, 1)) {
        Err(ReplicationError::NonContiguousLsn { received, range }) => {
            assert_eq!(received, 3);
            assert_eq!((range.first(), range.last()), (Some(1), Some(1)));
        }
        other => panic!("{:?}", other),
    }
    assert!(matches!(dest.write_lsn(id, 1, &one_page(1, 1)), Err(ReplicationError::NonContiguousLsn { .. })));
    let stranger = JournalId { id: 43 };
    assert!(matches!(dest.write_lsn(stranger, 2, &one_page(1, 1)), Err(ReplicationError::UnknownJournal(_))));
    assert!(matches!(dest.range_of(stranger), Err(ReplicationError::UnknownJournal(_))));
    assert_eq!(dest.range_of(id).unwrap().last(), Some(1));
}

fn walk(mut cursor: LsnCursor) -> Vec<u64> {
    let mut seen = Vec::new();
    while cursor.advance() {
        seen.push(cursor.lsn().unwrap());
    }
    assert!(!cursor.advance());
    seen
}

#[test]
fn cursor_walks_both_ways() {
    assert_eq!(walk(LsnCursor::new(LsnRange::new(3, 6))), vec![3, 4, 5, 6]);
    assert_eq!(walk(LsnCursor::new(LsnRange::new(3, 6)).into_rev()), vec![6, 5, 4, 3]);
    assert_eq!(walk(LsnCursor::new(LsnRange::empty())), Vec::<u64>::new());
    assert_eq!(walk(LsnCursor::new(LsnRange::new(u64::MAX, u64::MAX))), vec![u64::MAX]);
    assert_eq!(walk(LsnCursor::new(LsnRange::new(0, 0)).into_rev()), vec![0]);
    let mut cursor = LsnCursor::new(LsnRange::new(1, 3));
    assert_eq!(cursor.lsn(), None);
    assert!(cursor.advance());
    assert_eq!(walk(cursor.into_rev()), vec![3, 2]);
}

#[test]
fn ranges_intersect() {
    let bounds = |r: LsnRange| (r.first(), r.last());
    assert_eq!(bounds(LsnRange::new(2, 8).intersect(&LsnRange::new(5, 12))), (Some(5), Some(8)));
    assert_eq!(bounds(LsnRange::new(5, 12).intersect(&LsnRange::new(2, 5))), (Some(5), Some(5)));
    assert_eq!(bounds(LsnRange::new(1, 2).intersect(&LsnRange::new(3, 4))), (None, None));
    assert_eq!(bounds(LsnRange::new(1, 2).intersect(&LsnRange::empty())), (None, None));
    assert_eq!(bounds(LsnRange::empty().intersect(&LsnRange::new(1, 2))), (None, None));
}

#[test]
fn journal_scans_only_what_it_holds() {
    let id = JournalId { id: 1 };
    let mut j = MemoryJournal::new(id);
    for lsn in 4..=7u64 {
        j.write_lsn(id, lsn, &one_page(lsn, 1)).unwrap();
    }
    assert_eq!(walk(j.scan_range(LsnRange::new(0, 5))), vec![4, 5]);
    assert_eq!(walk(j.scan_range(LsnRange::new(6, 90)).into_rev()), vec![7, 6]);
    assert_eq!(walk(j.scan_range(LsnRange::new(8, 9))), Vec::<u64>::new());
    assert_eq!(walk(j.scan_range(LsnRange::empty())), Vec::<u64>::new());
}
