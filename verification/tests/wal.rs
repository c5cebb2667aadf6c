use sqlsync::codec::{push_word, read_word, sqlite_chksum};
use sqlsync::page::{Page, SparsePages, PAGESIZE};
use sqlsync::wal::{decode_pages, encode_pages, SqliteWal, WalError, FRAME_HEADER_SIZE, FRAME_SIZE, HEADER_SIZE};

fn page_of(byte: u8) -> Page {
    Page::from_bytes(&vec![byte; PAGESIZE])
}

fn fresh_wal(salt2: u32) -> SqliteWal {
    let mut wal = SqliteWal::new();
    wal.write(0, &[0u8; HEADER_SIZE]).unwrap();
    wal.reset_with_salt(salt2);
    wal
}

fn wal_bytes(wal: &SqliteWal) -> Vec<u8> {
    let mut out = vec![0u8; wal.len()];
    let n = wal.read(0, &mut out).unwrap();
    assert_eq!(n, wal.len());
    out
}

#[test]
fn words_are_big_endian() {
    let mut out = vec![9u8];
    push_word(&mut out, 0x0102_0304);
    assert_eq!(out, vec![9, 1, 2, 3, 4]);
    assert_eq!(read_word(&[0xAA, 0x37, 0x7f, 0x06, 0x83, 0xBB], 1), 0x377f_0683);
    assert_eq!(read_word(&[0, 0, 0, 1], 0), 1);
}

#[test]
fn checksum_follows_the_recurrence() {
    let data = [0u8, 0, 0, 1, 0, 0, 0, 2];
    assert_eq!(sqlite_chksum(0, 0, &data), (1, 3));
    assert_eq!(sqlite_chksum(1, 3, &data), (5, 10));
    assert_eq!(sqlite_chksum(7, 9, &[]), (7, 9));
    assert_eq!(sqlite_chksum(u32::MAX, u32::MAX, &[0xff; 8]), (4294967293, 4294967291));
    let mut twice = data.to_vec();
    twice.extend_from_slice(&data);
    assert_eq!(sqlite_chksum(0, 0, &twice), (5, 10));
}

#[test]
fn new_wal_is_empty() {
    let wal = SqliteWal::new();
    assert_eq!(wal.len(), 0);
    assert_eq!(wal.num_pages(), 0);
}

#[test]
fn write_extends_and_overwrites() {
    let mut wal = SqliteWal::new();
    assert_eq!(wal.write(0, &[1, 2, 3, 4]).unwrap(), 4);
    assert_eq!(wal.write(2, &[9, 9, 9]).unwrap(), 3);
    assert_eq!(wal_bytes(&wal), vec![1, 2, 9, 9, 9]);
    assert_eq!(wal.write(5, &[7]).unwrap(), 1);
    assert_eq!(wal.write(1, &[8]).unwrap(), 1);
    assert_eq!(wal_bytes(&wal), vec![1, 8, 9, 9, 9, 7]);
    assert_eq!(wal.write(6, &[]).unwrap(), 0);
    assert_eq!(wal.len(), 6);
}

#[test]
fn write_beyond_end_is_refused() {
    let mut wal = SqliteWal::new();
    wal.write(0, &[1, 2, 3]).unwrap();
    assert!(matches!(wal.write(4, &[5]), Err(WalError::OutOfRange)));
    assert_eq!(wal_bytes(&wal), vec![1, 2, 3]);
}

#[test]
fn read_copies_the_overlap() {
    let mut wal = SqliteWal::new();
    wal.write(0, &[1, 2, 3, 4, 5]).unwrap();
    let mut buf = vec![0u8; 3];
    assert_eq!(wal.read(1, &mut buf).unwrap(), 3);
    assert_eq!(buf, vec![2, 3, 4]);
    let mut buf = vec![0xEEu8; 4];
    assert_eq!(wal.read(3, &mut buf).unwrap(), 2);
    assert_eq!(buf, vec![4, 5, 0xEE, 0xEE]);
    assert_eq!(wal.read(5, &mut buf).unwrap(), 0);
    assert_eq!(wal.read(99, &mut buf).unwrap(), 0);
    assert_eq!(buf, vec![4, 5, 0xEE, 0xEE]);
}

#[test]
fn truncate_shortens_only() {
    let mut wal = SqliteWal::new();
    wal.write(0, &[1, 2, 3, 4, 5]).unwrap();
    wal.truncate(9);
    assert_eq!(wal.len(), 5);
    wal.truncate(2);
    assert_eq!(wal_bytes(&wal), vec![1, 2]);
}

#[test]
fn reset_writes_the_exact_header() {
    let wal = fresh_wal(0xdead_beef);
    let bytes = wal_bytes(&wal);
    assert_eq!(
        bytes,
        vec![
            0x37, 0x7f, 0x06, 0x83, 0x00, 0x2d, 0xe2, 0x18, 0x00, 0x00, 0x10, 0x00, 0x00, 0x00, 0x00, 0x00,
            0x00, 0x00, 0x00, 0x01, 0xde, 0xad, 0xbe, 0xef, 0x16, 0x04, 0xe6, 0xd8, 0x9b, 0x8b, 0x8d, 0x80,
        ]
    );
    assert_eq!(wal.chksum(), (0x1604_e6d8, 0x9b8b_8d80));
    assert_eq!(wal.salts(), (1, 0xdead_beef));
}

#[test]
fn reset_twice_steps_the_first_salt() {
    let mut wal = SqliteWal::new();
    wal.write(0, &[0u8; HEADER_SIZE]).unwrap();
    wal.append_frame(1, 1, &page_of(1));
    wal.reset();
    assert_eq!(wal.len(), HEADER_SIZE);
    let first = wal_bytes(&wal);
    assert_eq!(sqlite_chksum(0, 0, &first[0..24]), wal.chksum());
    let salt_once = read_word(&first, 16);
    wal.reset();
    assert_eq!(wal.len(), HEADER_SIZE);
    let second = wal_bytes(&wal);
    assert_eq!(sqlite_chksum(0, 0, &second[0..24]), wal.chksum());
    assert_eq!(read_word(&second, 16), salt_once.wrapping_add(1));
    assert_eq!(salt_once, 1);
    assert_eq!(wal.num_pages(), 0);
}

#[test]
fn reset_wraps_the_first_salt() {
    let mut wal = SqliteWal::new();
    let mut header = [0u8; HEADER_SIZE];
    header[16..20].copy_from_slice(&[0xff; 4]);
    wal.write(0, &header).unwrap();
    wal.reset_with_salt(5);
    assert_eq!(read_word(&wal_bytes(&wal), 16), 0);
    assert_eq!(read_word(&wal_bytes(&wal), 20), 5);
}

#[test]
fn frame_layout_is_exact() {
    let mut wal = fresh_wal(0xdead_beef);
    wal.append_frame(3, 0, &page_of(0x11));
    assert_eq!(wal.len(), HEADER_SIZE + FRAME_SIZE);
    assert_eq!(wal.num_pages(), 1);
    let bytes = wal_bytes(&wal);
    assert_eq!(&bytes[32..40], &[0, 0, 0, 3, 0, 0, 0, 0]);
    assert_eq!(&bytes[40..48], &bytes[16..24]);
    assert_eq!(read_word(&bytes, 48), 0x225e_14ab);
    assert_eq!(read_word(&bytes, 52), 0x1d71_b78f);
    assert_eq!(&bytes[HEADER_SIZE + FRAME_HEADER_SIZE..], &vec![0x11u8; PAGESIZE][..]);

    wal.append_frame(9, 4, &page_of(0x22));
    let bytes = wal_bytes(&wal);
    let at = HEADER_SIZE + FRAME_SIZE;
    assert_eq!(&bytes[at..at + 8], &[0, 0, 0, 9, 0, 0, 0, 4]);
    let seed = sqlite_chksum(0x225e_14ab, 0x1d71_b78f, &bytes[at..at + 8]);
    let sum = sqlite_chksum(seed.0, seed.1, &vec![0x22u8; PAGESIZE]);
    assert_eq!((read_word(&bytes, at + 16), read_word(&bytes, at + 20)), sum);
}

#[test]
fn decoding_lets_the_last_frame_win() {
    let mut raw = vec![0u8; HEADER_SIZE];
    for (number, fill) in [(3u8, 0xA1u8), (1, 0xB2), (3, 0xC3)] {
        let mut frame = vec![0u8; FRAME_HEADER_SIZE];
        frame[3] = number;
        frame.extend_from_slice(&vec![fill; PAGESIZE]);
        raw.extend_from_slice(&frame);
    }
    let mut wal = SqliteWal::new();
    wal.write(0, &raw).unwrap();
    assert_eq!(wal.num_pages(), 3);
    let pages = wal.as_pages();
    assert_eq!(pages.num_pages(), 2);
    assert_eq!(pages.key_at(0), 1);
    assert_eq!(pages.key_at(1), 3);
    assert_eq!(pages.get(1).unwrap().as_slice(), &vec![0xB2u8; PAGESIZE][..]);
    assert_eq!(pages.get(3).unwrap().as_slice(), &vec![0xC3u8; PAGESIZE][..]);
    assert!(pages.get(2).is_none());
}

#[test]
fn decoding_a_bare_header_gives_no_pages() {
    let wal = fresh_wal(1);
    assert_eq!(wal.as_pages().num_pages(), 0);
}

#[test]
fn frames_round_trip() {
    let mut pages = SparsePages::new();
    let mut odd = vec![0u8; PAGESIZE];
    for (i, b) in odd.iter_mut().enumerate() {
        *b = (i % 251) as u8;
    }
    pages.write(7, Page::from_bytes(&odd));
    pages.write(0, page_of(0x01));
    pages.write(4_000_000_000, page_of(0x02));
    let mut wal = fresh_wal(77);
    wal.append_pages(&pages, 8).unwrap();
    assert_eq!(wal.num_pages(), 3);
    let bytes = wal_bytes(&wal);
    assert_eq!(read_word(&bytes, HEADER_SIZE + 4), 0);
    assert_eq!(read_word(&bytes, HEADER_SIZE + 2 * FRAME_SIZE + 4), 8);
    let back = wal.as_pages();
    assert_eq!(back.num_pages(), 3);
    for i in 0..3 {
        assert_eq!(back.key_at(i), pages.key_at(i));
        assert_eq!(back.page_at(i).as_slice(), pages.page_at(i).as_slice());
    }
    assert_eq!(back.get(7).unwrap().as_slice(), &odd[..]);
}

#[test]
fn appended_pages_lay_over_earlier_frames() {
    let mut wal = fresh_wal(3);
    wal.append_frame(2, 0, &page_of(0x10));
    wal.append_frame(5, 0, &page_of(0x20));
    let mut pages = SparsePages::new();
    pages.write(5, page_of(0x30));
    wal.append_pages(&pages, 6).unwrap();
    let back = wal.as_pages();
    assert_eq!(back.num_pages(), 2);
    assert_eq!(back.get(2).unwrap().as_slice()[0], 0x10);
    assert_eq!(back.get(5).unwrap().as_slice()[0], 0x30);
}

#[test]
fn page_index_beyond_a_frame_number_is_refused() {
    let mut pages = SparsePages::new();
    pages.write(1, page_of(1));
    pages.write(1 << 32, page_of(2));
    let mut wal = fresh_wal(3);
    assert!(matches!(wal.append_pages(&pages, 0), Err(WalError::PageIndexTooLarge)));
    assert_eq!(wal.len(), HEADER_SIZE);
}

#[test]
fn encode_then_decode_gives_the_pages_back() {
    let mut pages = SparsePages::new();
    pages.write(12, page_of(0x0c));
    pages.write(3, page_of(0x03));
    let bytes = encode_pages(&pages, 5, 6, 13).unwrap();
    assert_eq!(bytes.len(), HEADER_SIZE + 2 * FRAME_SIZE);
    assert_eq!(read_word(&bytes, 16), 5);
    assert_eq!(read_word(&bytes, 20), 6);
    assert_eq!(sqlite_chksum(0, 0, &bytes[0..24]), (read_word(&bytes, 24), read_word(&bytes, 28)));
    assert_eq!(read_word(&bytes, HEADER_SIZE), 3);
    assert_eq!(read_word(&bytes, HEADER_SIZE + FRAME_SIZE), 12);
    assert_eq!(read_word(&bytes, HEADER_SIZE + FRAME_SIZE + 4), 13);
    let back = decode_pages(&bytes).unwrap();
    assert_eq!(back.num_pages(), 2);
    assert_eq!(back.get(3).unwrap().as_slice(), &vec![0x03u8; PAGESIZE][..]);
    assert_eq!(back.get(12).unwrap().as_slice(), &vec![0x0cu8; PAGESIZE][..]);
    let empty = encode_pages(&SparsePages::new(), 1, 2, 0).unwrap();
    assert_eq!(empty, SqliteWal::with_header(1, 2).as_bytes().to_vec());
    assert_eq!(decode_pages(&empty).unwrap().num_pages(), 0);
}

#[test]
fn ragged_bytes_do_not_decode() {
    assert!(matches!(decode_pages(&[0u8; 31]), Err(WalError::Malformed)));
    assert!(matches!(decode_pages(&[0u8; 33]), Err(WalError::Malformed)));
    assert!(matches!(decode_pages(&vec![0u8; HEADER_SIZE + FRAME_SIZE - 1]), Err(WalError::Malformed)));
    assert!(matches!(decode_pages(&[]), Err(WalError::Malformed)));
    let mut pages = SparsePages::new();
    pages.write(1 << 40, page_of(1));
    assert!(matches!(encode_pages(&pages, 0, 0, 0), Err(WalError::PageIndexTooLarge)));
    let wal = SqliteWal::from_bytes(&[1, 2, 3]);
    assert_eq!(wal.as_bytes(), &[1, 2, 3]);
}

#[test]
fn frames_in_any_order_decode_to_their_pages() {
    let mut wal = fresh_wal(11);
    wal.append_frame(9, 0, &page_of(0x09));
    wal.append_frame(2, 0, &page_of(0x02));
    wal.append_frame(5, 3, &page_of(0x05));
    let pages = wal.as_pages();
    assert_eq!(pages.num_pages(), 3);
    assert_eq!((pages.key_at(0), pages.key_at(1), pages.key_at(2)), (2, 5, 9));
    for k in [2u64, 5, 9] {
        assert_eq!(pages.get(k).unwrap().as_slice(), &vec![k as u8; PAGESIZE][..]);
    }
    assert!(pages.get(0).is_none() && pages.get(3).is_none() && pages.get(10).is_none());
}
