//! The write-ahead-log buffer: a 32-byte header followed by frames, each a
//! 24-byte frame header and one page of payload, all words big-endian.

use crate::codec::{be_bytes, chksum, push_word, random_u32, read_word, sqlite_chksum, word_at};
use crate::page::{copy_into, copy_range, overlay, push_range, Page, PageIdx, SparsePages, PAGESIZE};
use vstd::prelude::*;

verus! {

/// Size of the log header in bytes.
pub const HEADER_SIZE: usize = 32;

/// Size of the header that precedes each frame's page, in bytes.
pub const FRAME_HEADER_SIZE: usize = 24;

/// Size of one frame, header and page together, in bytes.
pub const FRAME_SIZE: usize = 4120;

/// Magic number of a log whose checksums read big-endian words.
pub const WAL_MAGIC: u32 = 0x377f0683;

/// The file format version written into every header.
pub const WAL_FORMAT_VERSION: u32 = 3007000;

/// Byte offset of the first salt within the header.
pub const SALT1_OFFSET: usize = 16;

/// Byte offset of the second salt within the header.
pub const SALT2_OFFSET: usize = 20;

/// Byte offset of the first checksum word within the header.
pub const CHECKSUM1_OFFSET: usize = 24;

/// Byte offset of the second checksum word within the header.
pub const CHECKSUM2_OFFSET: usize = 28;

/// Why a log operation was refused.
#[derive(Debug)]
pub enum WalError {
    /// A write started beyond the end of the buffer.
    OutOfRange,
    /// A page index does not fit the 32-bit page number of a frame.
    PageIndexTooLarge,
    /// The bytes are not a header followed by whole frames.
    Malformed,
}

/// The 24 header bytes that the header checksum covers.
pub open spec fn header_prefix(salt1: u32, salt2: u32) -> Seq<u8> {
    be_bytes(WAL_MAGIC) + be_bytes(WAL_FORMAT_VERSION) + be_bytes(PAGESIZE as u32) + be_bytes(0)
        + be_bytes(salt1) + be_bytes(salt2)
}

/// A complete header for the given salts: magic, format version, page size,
/// a zero checkpoint sequence number, the salts, and the checksum of those 24
/// bytes seeded with `(0, 0)`.
pub open spec fn header_bytes(salt1: u32, salt2: u32) -> Seq<u8> {
    let prefix = header_prefix(salt1, salt2);
    let sum = chksum((0, 0), prefix);
    prefix + be_bytes(sum.0) + be_bytes(sum.1)
}

/// A buffer of `len` bytes is a header followed by whole frames.
pub open spec fn frame_aligned(len: int) -> bool {
    len >= HEADER_SIZE && (len - HEADER_SIZE) % (FRAME_SIZE as int) == 0
}

/// Number of frames in a buffer of `len` bytes.
pub open spec fn frame_count(len: int) -> int {
    if len <= HEADER_SIZE {
        0
    } else {
        (len - HEADER_SIZE) / (FRAME_SIZE as int)
    }
}

/// Byte offset of frame `i`.
pub open spec fn frame_start(i: int) -> int {
    HEADER_SIZE + i * FRAME_SIZE
}

/// The page number recorded in frame `i`.
pub open spec fn frame_page_number(data: Seq<u8>, i: int) -> u32 {
    word_at(data, frame_start(i))
}

/// The page payload of frame `i`.
pub open spec fn frame_payload(data: Seq<u8>, i: int) -> Seq<u8> {
    data.subrange(frame_start(i) + FRAME_HEADER_SIZE, frame_start(i) + FRAME_SIZE)
}

/// The page map spelled by the first `n` frames of `data`: frames are applied
/// in order, so a later frame replaces an earlier one for the same page.
pub open spec fn pages_of_frames(data: Seq<u8>, n: nat) -> Map<PageIdx, Seq<u8>>
    decreases n,
{
    if n == 0 {
        Map::empty()
    } else {
        pages_of_frames(data, (n - 1) as nat).insert(
            frame_page_number(data, n - 1) as PageIdx,
            frame_payload(data, n - 1),
        )
    }
}

/// Some frame among the first `n` carries page number `k`.
pub open spec fn frame_carries(data: Seq<u8>, n: nat, k: PageIdx) -> bool {
    exists|i: int| 0 <= i < n && #[trigger] frame_page_number(data, i) as PageIdx == k
}

/// Frame `i` is the last among the first `n` frames that carries its page
/// number.
pub open spec fn is_last_frame_for(data: Seq<u8>, n: nat, i: int) -> bool {
    &&& 0 <= i < n
    &&& forall|j: int| i < j < n ==> #[trigger] frame_page_number(data, j) != frame_page_number(data, i)
}

/// Whatever bytes the frames hold and in whatever order they stand, decoding
/// the first `n` of them gives exactly the page numbers that occur, each with
/// the payload of the last frame that carries it. Frames with distinct page
/// numbers therefore decode to one entry each, byte for byte.
pub proof fn lemma_last_frame_wins(data: Seq<u8>, n: nat)
    ensures
        forall|k: PageIdx| #[trigger] pages_of_frames(data, n).contains_key(k) <==> frame_carries(data, n, k),
        forall|i: int| #[trigger]
            is_last_frame_for(data, n, i) ==> pages_of_frames(data, n)[frame_page_number(data, i) as PageIdx]
                == frame_payload(data, i),
    decreases n,
{
    if n > 0 {
        let m = (n - 1) as nat;
        lemma_last_frame_wins(data, m);
        let prev = pages_of_frames(data, m);
        let got = pages_of_frames(data, n);
        let key = frame_page_number(data, n - 1) as PageIdx;
        assert(got == prev.insert(key, frame_payload(data, n - 1)));
        assert forall|k: PageIdx| #[trigger] got.contains_key(k) <==> frame_carries(data, n, k) by {
            if got.contains_key(k) {
                if k == key {
                    assert(frame_page_number(data, n - 1) as PageIdx == k);
                } else {
                    assert(frame_carries(data, m, k));
                    let i = choose|i: int| 0 <= i < m && #[trigger] frame_page_number(data, i) as PageIdx == k;
                    assert(frame_page_number(data, i) as PageIdx == k);
                }
            }
            if frame_carries(data, n, k) {
                let i = choose|i: int| 0 <= i < n && #[trigger] frame_page_number(data, i) as PageIdx == k;
                if i < n - 1 {
                    assert(frame_carries(data, m, k));
                }
            }
        }
        assert forall|i: int| #[trigger] is_last_frame_for(data, n, i) implies got[frame_page_number(data, i) as PageIdx]
            == frame_payload(data, i) by {
            if i < n - 1 {
                assert(frame_page_number(data, n - 1) != frame_page_number(data, i));
                assert(is_last_frame_for(data, m, i));
            }
        }
    }
}

/// The checksum that the next frame continues from: that of the last frame,
/// or the header's where the log has no frame yet.
pub open spec fn last_chksum(data: Seq<u8>) -> (u32, u32) {
    let n = frame_count(data.len() as int);
    let at = if n == 0 {
        CHECKSUM1_OFFSET as int
    } else {
        frame_start(n - 1) + 16
    };
    (word_at(data, at), word_at(data, at + 4))
}

/// The bytes of the frame that follows `data`: page number, database size
/// after commit, the header's two salts, the running checksum over the first
/// eight frame bytes and the payload, and the payload.
pub open spec fn frame_bytes(data: Seq<u8>, page_number: u32, db_pages: u32, payload: Seq<u8>) -> Seq<u8> {
    let head = be_bytes(page_number) + be_bytes(db_pages);
    let sum = chksum(chksum(last_chksum(data), head), payload);
    head + data.subrange(SALT1_OFFSET as int, SALT1_OFFSET + 8) + be_bytes(sum.0) + be_bytes(sum.1) + payload
}

/// Every key fits the 32-bit page number of a frame.
pub open spec fn fits_frames(keys: Seq<PageIdx>) -> bool {
    forall|i: int| 0 <= i < keys.len() ==> keys[i] <= u32::MAX
}

/// `data` followed by one frame for each of the first `n` pages, in order.
/// The last page of the set carries `commit` as the database size after
/// commit, all others carry zero.
pub open spec fn with_frames(
    data: Seq<u8>,
    keys: Seq<PageIdx>,
    contents: Seq<Seq<u8>>,
    commit: u32,
    n: nat,
) -> Seq<u8>
    decreases n,
{
    if n == 0 {
        data
    } else {
        let prev = with_frames(data, keys, contents, commit, (n - 1) as nat);
        prev + frame_bytes(
            prev,
            keys[n - 1] as u32,
            if n == keys.len() { commit } else { 0 },
            contents[n - 1],
        )
    }
}

/// Appending frames grows the buffer by whole frames and leaves what was
/// there in place.
pub proof fn lemma_with_frames_len(
    data: Seq<u8>,
    keys: Seq<PageIdx>,
    contents: Seq<Seq<u8>>,
    commit: u32,
    n: nat,
)
    requires
        data.len() >= HEADER_SIZE,
        n <= keys.len(),
        keys.len() == contents.len(),
        forall|i: int| 0 <= i < contents.len() ==> (#[trigger] contents[i]).len() == PAGESIZE,
    ensures
        with_frames(data, keys, contents, commit, n).len() == data.len() + n * FRAME_SIZE,
        with_frames(data, keys, contents, commit, n).subrange(0, data.len() as int) == data,
    decreases n,
{
    if n == 0 {
        assert(data.subrange(0, data.len() as int) =~= data);
    } else {
        lemma_with_frames_len(data, keys, contents, commit, (n - 1) as nat);
        let prev = with_frames(data, keys, contents, commit, (n - 1) as nat);
        let out = with_frames(data, keys, contents, commit, n);
        assert(contents[n - 1].len() == PAGESIZE);
        assert(out.subrange(0, data.len() as int) =~= prev.subrange(0, data.len() as int));
    }
}

/// The first `m` frames decode the same from a buffer as from any buffer that
/// extends it.
pub proof fn lemma_prefix_frames(short: Seq<u8>, long: Seq<u8>, m: nat)
    requires
        short.len() <= long.len(),
        long.subrange(0, short.len() as int) == short,
        frame_start(m as int) <= short.len(),
    ensures
        pages_of_frames(long, m) == pages_of_frames(short, m),
    decreases m,
{
    if m > 0 {
        lemma_prefix_frames(short, long, (m - 1) as nat);
        let at = frame_start(m - 1);
        assert(long.subrange(at, at + 4) =~= short.subrange(at, at + 4));
        assert(frame_payload(long, m - 1) =~= frame_payload(short, m - 1));
    }
}

/// What the frames decode to after the first `n` pages were appended to a
/// log that held `count` frames: the pages decoded before, with each appended
/// page laid over them.
pub proof fn lemma_decode_appended(
    data: Seq<u8>,
    keys: Seq<PageIdx>,
    contents: Seq<Seq<u8>>,
    commit: u32,
    n: nat,
)
    requires
        frame_aligned(data.len() as int),
        n <= keys.len(),
        keys.len() == contents.len(),
        fits_frames(keys),
        crate::page::strictly_ascending(keys),
        forall|i: int| 0 <= i < contents.len() ==> (#[trigger] contents[i]).len() == PAGESIZE,
    ensures
        ({
            let count = frame_count(data.len() as int);
            let base = pages_of_frames(data, count as nat);
            let got = pages_of_frames(with_frames(data, keys, contents, commit, n), (count + n) as nat);
            &&& forall|i: int| 0 <= i < n ==> got.contains_key(#[trigger] keys[i]) && got[keys[i]] == contents[i]
            &&& forall|k: PageIdx| #[trigger]
                got.contains_key(k) ==> base.contains_key(k) || exists|i: int| 0 <= i < n && keys[i] == k
            &&& forall|k: PageIdx|
                base.contains_key(k) ==> #[trigger] got.contains_key(k) && ((forall|i: int|
                    0 <= i < n ==> keys[i] != k) ==> got[k] == base[k])
        }),
    decreases n,
{
    let count = frame_count(data.len() as int);
    if n > 0 {
        let m = (n - 1) as nat;
        lemma_decode_appended(data, keys, contents, commit, m);
        lemma_with_frames_len(data, keys, contents, commit, m);
        lemma_with_frames_len(data, keys, contents, commit, n);
        let prev = with_frames(data, keys, contents, commit, m);
        let out = with_frames(data, keys, contents, commit, n);
        let key = keys[n - 1];
        let payload = contents[n - 1];
        assert(payload.len() == PAGESIZE);
        let at = frame_start(count + m);
        assert(at == prev.len());
        assert(out.subrange(0, prev.len() as int) =~= prev);
        lemma_prefix_frames(prev, out, (count + m) as nat);
        crate::codec::lemma_be_round_trip(key as u32);
        assert(out.subrange(at, at + 4) =~= be_bytes(key as u32));
        assert(frame_page_number(out, count + m) as PageIdx == key);
        assert(frame_payload(out, count + m) =~= payload);
        let before = pages_of_frames(prev, (count + m) as nat);
        let got = pages_of_frames(out, (count + n) as nat);
        assert(got == before.insert(key, payload));
        assert forall|i: int| 0 <= i < n implies got.contains_key(#[trigger] keys[i]) && got[keys[i]] == contents[i] by {
            if i < n - 1 {
                assert(keys[i] < keys[n - 1]);
            }
        }
    } else {
        assert(count + 0 == count);
    }
}

/// Encoding a page map into frames and decoding the result gives the pages
/// decoded before with the map laid over them; after a bare header that is
/// the map itself, key for key and byte for byte.
pub proof fn lemma_frames_round_trip(data: Seq<u8>, pages: SparsePages, commit: u32)
    requires
        frame_aligned(data.len() as int),
        pages.wf(),
        fits_frames(pages.keys()),
    ensures
        ({
            let out = with_frames(data, pages.keys(), pages.contents(), commit, pages.keys().len());
            let count = frame_count(data.len() as int);
            &&& frame_aligned(out.len() as int)
            &&& frame_count(out.len() as int) == count + pages.keys().len()
            &&& pages_of_frames(out, frame_count(out.len() as int) as nat) == pages_of_frames(
                data,
                count as nat,
            ).union_prefer_right(pages@)
            &&& data.len() == HEADER_SIZE ==> pages_of_frames(out, frame_count(out.len() as int) as nat)
                == pages@
        }),
{
    let keys = pages.keys();
    let n = keys.len();
    let out = with_frames(data, keys, pages.contents(), commit, n);
    let count = frame_count(data.len() as int);
    lemma_with_frames_len(data, keys, pages.contents(), commit, n);
    lemma_decode_appended(data, keys, pages.contents(), commit, n);
    pages.lemma_view();
    let base = pages_of_frames(data, count as nat);
    let got = pages_of_frames(out, (count + n) as nat);
    assert(frame_count(out.len() as int) == count + n);
    assert forall|k: PageIdx| got.contains_key(k) <==> base.union_prefer_right(pages@).contains_key(k) by {
        if pages@.contains_key(k) {
            let i = keys.index_of(k);
            assert(got.contains_key(keys[i]));
        }
    }
    assert forall|k: PageIdx| got.contains_key(k) implies got[k] == base.union_prefer_right(pages@)[k] by {
        if pages@.contains_key(k) {
            let i = keys.index_of(k);
            assert(got[keys[i]] == pages.contents()[i]);
        } else {
            assert forall|i: int| 0 <= i < n implies keys[i] != k by {
                assert(pages@.contains_key(keys[i]));
            }
        }
    }
    assert(got =~= base.union_prefer_right(pages@));
    if data.len() == HEADER_SIZE {
        assert(base =~= Map::<PageIdx, Seq<u8>>::empty());
        assert(base.union_prefer_right(pages@) =~= pages@);
    }
}

/// What a buffer holds after `buf` was written at `offset`, which lies
/// within the buffer or at its end: the buffer grows where the write passes
/// its end.
pub open spec fn written(data: Seq<u8>, offset: int, buf: Seq<u8>) -> Seq<u8>
    recommends
        0 <= offset <= data.len(),
{
    let end = offset + buf.len();
    let tail = if end < data.len() {
        data.subrange(end, data.len() as int)
    } else {
        Seq::<u8>::empty()
    };
    data.subrange(0, offset) + buf + tail
}

/// The header laid out for the given salts has 32 bytes, carries the salts at
/// their offsets, and its checksum words are the checksum of its first 24
/// bytes.
pub proof fn lemma_header_fields(salt1: u32, salt2: u32)
    ensures
        header_bytes(salt1, salt2).len() == HEADER_SIZE,
        word_at(header_bytes(salt1, salt2), SALT1_OFFSET as int) == salt1,
        word_at(header_bytes(salt1, salt2), SALT2_OFFSET as int) == salt2,
        word_at(header_bytes(salt1, salt2), 8) == PAGESIZE,
        word_at(header_bytes(salt1, salt2), 0) == WAL_MAGIC,
        (
            word_at(header_bytes(salt1, salt2), CHECKSUM1_OFFSET as int),
            word_at(header_bytes(salt1, salt2), CHECKSUM2_OFFSET as int),
        ) == chksum((0, 0), header_bytes(salt1, salt2).subrange(0, 24)),
{
    let h = header_bytes(salt1, salt2);
    let sum = chksum((0, 0), header_prefix(salt1, salt2));
    lemma_header_layout(salt1, salt2);
    crate::codec::lemma_be_round_trip(salt1);
    crate::codec::lemma_be_round_trip(salt2);
    crate::codec::lemma_be_round_trip(sum.0);
    crate::codec::lemma_be_round_trip(sum.1);
    crate::codec::lemma_be_round_trip(WAL_MAGIC);
    crate::codec::lemma_be_round_trip(PAGESIZE as u32);
}

/// Where each word of a header lies.
proof fn lemma_header_layout(salt1: u32, salt2: u32)
    ensures
        ({
            let h = header_bytes(salt1, salt2);
            let sum = chksum((0, 0), header_prefix(salt1, salt2));
            &&& h.len() == 32
            &&& h.subrange(0, 4) == be_bytes(WAL_MAGIC)
            &&& h.subrange(8, 12) == be_bytes(PAGESIZE as u32)
            &&& h.subrange(16, 20) == be_bytes(salt1)
            &&& h.subrange(20, 24) == be_bytes(salt2)
            &&& h.subrange(24, 28) == be_bytes(sum.0)
            &&& h.subrange(28, 32) == be_bytes(sum.1)
            &&& h.subrange(0, 24) == header_prefix(salt1, salt2)
        }),
{
    let h = header_bytes(salt1, salt2);
    let prefix = header_prefix(salt1, salt2);
    let sum = chksum((0, 0), prefix);
    let w0 = be_bytes(WAL_MAGIC);
    let w1 = be_bytes(WAL_FORMAT_VERSION);
    let w2 = be_bytes(PAGESIZE as u32);
    let w3 = be_bytes(0);
    let w4 = be_bytes(salt1);
    let w5 = be_bytes(salt2);
    let w6 = be_bytes(sum.0);
    let w7 = be_bytes(sum.1);
    assert(w0.len() == 4 && w1.len() == 4 && w2.len() == 4 && w3.len() == 4);
    assert(w4.len() == 4 && w5.len() == 4 && w6.len() == 4 && w7.len() == 4);
    assert(h == w0 + w1 + w2 + w3 + w4 + w5 + w6 + w7);
    assert(h.len() == 32);
    assert(h.subrange(0, 4) =~= w0);
    assert(h.subrange(8, 12) =~= w2);
    assert(h.subrange(16, 20) =~= w4);
    assert(h.subrange(20, 24) =~= w5);
    assert(h.subrange(24, 28) =~= w6);
    assert(h.subrange(28, 32) =~= w7);
    assert(h.subrange(0, 24) =~= prefix);
}

/// Resetting twice yields two headers of header length whose first salts
/// differ by exactly one (wrapping), and the checksum words of each are the
/// checksum of its first 24 bytes.
pub proof fn lemma_reset_twice(data: Seq<u8>, salt_a: u32, salt_b: u32)
    requires
        data.len() >= HEADER_SIZE,
    ensures
        ({
            let once = header_bytes(word_at(data, SALT1_OFFSET as int).wrapping_add(1), salt_a);
            let twice = header_bytes(word_at(once, SALT1_OFFSET as int).wrapping_add(1), salt_b);
            &&& once.len() == HEADER_SIZE
            &&& twice.len() == HEADER_SIZE
            &&& word_at(twice, SALT1_OFFSET as int) == word_at(once, SALT1_OFFSET as int).wrapping_add(1)
            &&& header_checksum_valid(once)
            &&& header_checksum_valid(twice)
        }),
{
    let first = word_at(data, SALT1_OFFSET as int).wrapping_add(1);
    lemma_header_fields(first, salt_a);
    lemma_header_fields(first.wrapping_add(1), salt_b);
}

/// The checksum words of a header are the checksum of its first 24 bytes,
/// seeded with `(0, 0)`.
pub open spec fn header_checksum_valid(header: Seq<u8>) -> bool {
    (word_at(header, CHECKSUM1_OFFSET as int), word_at(header, CHECKSUM2_OFFSET as int)) == chksum(
        (0, 0),
        header.subrange(0, 24),
    )
}

/// One write-ahead-log file held in memory.
pub struct SqliteWal {
    data: Vec<u8>,
}

impl View for SqliteWal {
    type V = Seq<u8>;

    closed spec fn view(&self) -> Seq<u8> {
        self.data@
    }
}

impl SqliteWal {
    /// An empty buffer.
    pub fn new() -> (wal: SqliteWal)
        ensures
            wal@ == Seq::<u8>::empty(),
    {
        SqliteWal { data: Vec::new() }
    }

    /// A buffer that holds a copy of `bytes`.
    pub fn from_bytes(bytes: &[u8]) -> (wal: SqliteWal)
        ensures
            wal@ == bytes@,
    {
        let data = copy_range(bytes, 0, bytes.len());
        assert(bytes@.subrange(0, bytes@.len() as int) =~= bytes@);
        SqliteWal { data }
    }

    /// A log without frames: the header for the given salts.
    pub fn with_header(salt1: u32, salt2: u32) -> (wal: SqliteWal)
        ensures
            wal@ == header_bytes(salt1, salt2),
    {
        SqliteWal { data: build_header(salt1, salt2) }
    }

    /// The buffer's bytes.
    pub fn as_bytes(&self) -> (bytes: &[u8])
        ensures
            bytes@ == self@,
    {
        self.data.as_slice()
    }

    /// Shortens the buffer to `size` bytes; a longer `size` changes nothing.
    pub fn truncate(&mut self, size: usize)
        ensures
            final(self)@ == if size <= old(self)@.len() {
                old(self)@.subrange(0, size as int)
            } else {
                old(self)@
            },
    {
        self.data.truncate(size)
    }

    /// Number of frames, derived from the buffer's length alone.
    pub fn num_pages(&self) -> (n: usize)
        requires
            self@.len() <= HEADER_SIZE || frame_aligned(self@.len() as int),
        ensures
            n == frame_count(self@.len() as int),
    {
        if self.data.len() <= HEADER_SIZE {
            return 0;
        }
        (self.data.len() - HEADER_SIZE) / FRAME_SIZE
    }

    /// Length of the buffer in bytes.
    pub fn len(&self) -> (n: usize)
        ensures
            n == self@.len(),
    {
        self.data.len()
    }

    /// Writes `buf` at `offset`, growing the buffer where the write passes
    /// its end. A write that starts beyond the end is refused.
    pub fn write(&mut self, offset: usize, buf: &[u8]) -> (r: Result<usize, WalError>)
        requires
            offset + buf@.len() <= usize::MAX,
        ensures
            match r {
                Ok(n) => {
                    &&& offset <= old(self)@.len()
                    &&& n == buf@.len()
                    &&& final(self)@ == written(old(self)@, offset as int, buf@)
                },
                Err(e) => {
                    &&& offset > old(self)@.len()
                    &&& e is OutOfRange
                    &&& final(self)@ == old(self)@
                },
            },
    {
        let current_len = self.data.len();
        let write_len = buf.len();
        if offset > current_len {
            return Err(WalError::OutOfRange);
        }
        let mut i: usize = 0;
        while i < write_len
            invariant
                write_len == buf@.len(),
                current_len == old(self)@.len(),
                offset <= current_len,
                offset + write_len <= usize::MAX,
                i <= write_len,
                self.data@.len() == if offset + i <= current_len { current_len as int } else { offset + i },
                forall|j: int| 0 <= j < offset ==> self.data@[j] == old(self)@[j],
                forall|j: int| offset <= j < offset + i ==> self.data@[j] == buf@[j - offset],
                forall|j: int| offset + i <= j < current_len ==> self.data@[j] == old(self)@[j],
            decreases write_len - i,
        {
            if offset + i < self.data.len() {
                self.data[offset + i] = buf[i];
            } else {
                self.data.push(buf[i]);
            }
            i += 1;
        }
        assert(self.data@ =~= written(old(self)@, offset as int, buf@));
        Ok(write_len)
    }

    /// Copies into the front of `buf` the bytes that the buffer holds from
    /// `offset` on, as many as both have. Returns the number copied.
    pub fn read(&self, offset: usize, buf: &mut Vec<u8>) -> (r: Result<usize, WalError>)
        ensures
            r is Ok,
            r->Ok_0 == available(self@.len() as int, offset as int, old(buf)@.len() as int),
            r->Ok_0 == 0 ==> final(buf)@ == old(buf)@,
            r->Ok_0 > 0 ==> final(buf)@ == overlay(
                old(buf)@,
                self@.subrange(offset as int, offset + r->Ok_0),
            ),
    {
        let len = self.data.len();
        let remaining = if offset < len { len - offset } else { 0 };
        let n = if remaining < buf.len() { remaining } else { buf.len() };
        if n != 0 {
            copy_into(buf, self.data.as_slice(), offset, offset + n);
        }
        Ok(n)
    }

    /// Starts a new log generation: the buffer becomes one fresh header whose
    /// first salt is the previous one plus one and whose second salt is drawn
    /// at random.
    pub fn reset(&mut self)
        requires
            old(self)@.len() >= HEADER_SIZE,
        ensures
            final(self)@ == header_bytes(
                word_at(old(self)@, SALT1_OFFSET as int).wrapping_add(1),
                word_at(final(self)@, SALT2_OFFSET as int),
            ),
            final(self)@.len() == HEADER_SIZE,
    {
        let salt2 = random_u32();
        self.reset_with_salt(salt2);
        proof {
            lemma_header_fields(word_at(old(self)@, SALT1_OFFSET as int).wrapping_add(1), salt2);
        }
    }

    /// Starts a new log generation with `salt2` as its second salt: the
    /// buffer is cut to header length and overwritten with the header for the
    /// previous first salt plus one (wrapping) and `salt2`.
    pub fn reset_with_salt(&mut self, salt2: u32)
        requires
            old(self)@.len() >= HEADER_SIZE,
        ensures
            final(self)@ == header_bytes(word_at(old(self)@, SALT1_OFFSET as int).wrapping_add(1), salt2),
    {
        let prev_salt1 = read_word(self.data.as_slice(), SALT1_OFFSET);
        let hdr = build_header(prev_salt1.wrapping_add(1), salt2);
        proof {
            lemma_header_fields(prev_salt1.wrapping_add(1), salt2);
        }
        self.data.truncate(HEADER_SIZE);
        copy_into(&mut self.data, hdr.as_slice(), 0, HEADER_SIZE);
        assert(self.data@ =~= hdr@);
    }

    /// Appends one frame for `page` under `page_number`. The frame carries
    /// the header's salts and continues the running checksum of the log.
    pub fn append_frame(&mut self, page_number: u32, db_pages_after_commit: u32, page: &Page)
        requires
            frame_aligned(old(self)@.len() as int),
            old(self)@.len() + FRAME_SIZE <= usize::MAX,
            page.wf(),
        ensures
            final(self)@ == old(self)@ + frame_bytes(old(self)@, page_number, db_pages_after_commit, page@),
    {
        let len = self.data.len();
        let at = if len == HEADER_SIZE { CHECKSUM1_OFFSET } else { len - FRAME_SIZE + 16 };
        let data = self.data.as_slice();
        let seed = (read_word(data, at), read_word(data, at + 4));
        let mut frame: Vec<u8> = Vec::new();
        push_word(&mut frame, page_number);
        push_word(&mut frame, db_pages_after_commit);
        assert(frame@ =~= be_bytes(page_number) + be_bytes(db_pages_after_commit));
        let head_sum = sqlite_chksum(seed.0, seed.1, frame.as_slice());
        let sum = sqlite_chksum(head_sum.0, head_sum.1, page.as_slice());
        push_range(&mut frame, data, SALT1_OFFSET, SALT1_OFFSET + 8);
        push_word(&mut frame, sum.0);
        push_word(&mut frame, sum.1);
        push_range(&mut frame, page.as_slice(), 0, PAGESIZE);
        assert(page@.subrange(0, PAGESIZE as int) =~= page@);
        assert(frame@ =~= frame_bytes(old(self)@, page_number, db_pages_after_commit, page@));
        let n = frame.len();
        push_range(&mut self.data, frame.as_slice(), 0, n);
        assert(frame@.subrange(0, n as int) =~= frame@);
    }

    /// Appends one frame per page of `pages`, in ascending page order. The
    /// last frame carries `db_pages_after_commit`, the others zero. A page
    /// index beyond 32 bits is refused and nothing is appended.
    #[verifier::rlimit(50)]
    pub fn append_pages(&mut self, pages: &SparsePages, db_pages_after_commit: u32) -> (r: Result<(), WalError>)
        requires
            frame_aligned(old(self)@.len() as int),
            pages.wf(),
            old(self)@.len() + pages.keys().len() * FRAME_SIZE <= usize::MAX,
        ensures
            match r {
                Ok(_) => {
                    &&& fits_frames(pages.keys())
                    &&& final(self)@ == with_frames(
                        old(self)@,
                        pages.keys(),
                        pages.contents(),
                        db_pages_after_commit,
                        pages.keys().len(),
                    )
                },
                Err(e) => {
                    &&& e is PageIndexTooLarge
                    &&& !fits_frames(pages.keys())
                    &&& final(self)@ == old(self)@
                },
            },
    {
        let n = pages.num_pages();
        if n > 0 && pages.key_at(n - 1) > 0xFFFF_FFFF {
            return Err(WalError::PageIndexTooLarge);
        }
        assert forall|i: int| 0 <= i < pages.keys().len() implies pages.keys()[i] <= u32::MAX by {
            if i < n - 1 {
                assert(pages.keys()[i] < pages.keys()[n - 1]);
            }
        }
        let mut i: usize = 0;
        while i < n
            invariant
                i <= n,
                n == pages.keys().len(),
                pages.wf(),
                fits_frames(pages.keys()),
                frame_aligned(old(self)@.len() as int),
                old(self)@.len() + n * 4120 <= usize::MAX,
                self@.len() == old(self)@.len() + i * 4120,
                self@ == with_frames(old(self)@, pages.keys(), pages.contents(), db_pages_after_commit, i as nat),
            decreases n - i,
        {
            let key = pages.key_at(i);
            let page = pages.page_at(i);
            let db_pages = if i + 1 == n { db_pages_after_commit } else { 0 };
            let ghost prev = self@;
            assert(prev.len() + 4120 <= usize::MAX);
            assert(frame_aligned(prev.len() as int));
            self.append_frame(key as u32, db_pages, page);
            i += 1;
            proof {
                let frame = frame_bytes(prev, key as u32, db_pages, page@);
                assert(frame.len() == 4120);
                assert(self@ == prev + frame);
                assert(self@.len() == prev.len() + 4120);
                assert(with_frames(old(self)@, pages.keys(), pages.contents(), db_pages_after_commit, i as nat)
                    == prev + frame);
            }
        }
        Ok(())
    }

    /// The two checksum words of the header.
    pub fn chksum(&self) -> (sum: (u32, u32))
        requires
            self@.len() >= HEADER_SIZE,
        ensures
            sum == (word_at(self@, CHECKSUM1_OFFSET as int), word_at(self@, CHECKSUM2_OFFSET as int)),
    {
        (read_word(self.data.as_slice(), CHECKSUM1_OFFSET), read_word(self.data.as_slice(), CHECKSUM2_OFFSET))
    }

    /// The two salts of the header.
    pub fn salts(&self) -> (salts: (u32, u32))
        requires
            self@.len() >= SALT2_OFFSET + 4,
        ensures
            salts == (word_at(self@, SALT1_OFFSET as int), word_at(self@, SALT2_OFFSET as int)),
    {
        (read_word(self.data.as_slice(), SALT1_OFFSET), read_word(self.data.as_slice(), SALT2_OFFSET))
    }

    /// Decodes the frames into a page map. Frames are read in order and the
    /// last frame for a page number wins.
    pub fn as_pages(&self) -> (pages: SparsePages)
        requires
            frame_aligned(self@.len() as int),
        ensures
            pages.wf(),
            pages@ == pages_of_frames(self@, frame_count(self@.len() as int) as nat),
    {
        let data = self.data.as_slice();
        let len = data.len();
        let mut pages = SparsePages::new();
        let mut offset: usize = HEADER_SIZE;
        let ghost mut i: nat = 0;
        while offset < len
            invariant
                data@ == self@,
                len == self@.len(),
                frame_aligned(len as int),
                offset == frame_start(i as int),
                offset <= len,
                pages.wf(),
                pages@ == pages_of_frames(self@, i),
            decreases len - offset,
        {
            let page_number = read_word(data, offset);
            let payload = vstd::slice::slice_subrange(data, offset + FRAME_HEADER_SIZE, offset + FRAME_SIZE);
            let page = Page::from_bytes(payload);
            pages.write(page_number as PageIdx, page);
            offset += FRAME_SIZE;
            proof {
                i = i + 1;
            }
        }
        pages
    }
}

/// Lays out the header for the given salts.
fn build_header(salt1: u32, salt2: u32) -> (hdr: Vec<u8>)
    ensures
        hdr@ == header_bytes(salt1, salt2),
{
    let mut hdr: Vec<u8> = Vec::new();
    push_word(&mut hdr, WAL_MAGIC);
    push_word(&mut hdr, WAL_FORMAT_VERSION);
    push_word(&mut hdr, 4096u32);
    push_word(&mut hdr, 0u32);
    push_word(&mut hdr, salt1);
    push_word(&mut hdr, salt2);
    assert(hdr@ =~= header_prefix(salt1, salt2));
    let sum = sqlite_chksum(0, 0, hdr.as_slice());
    push_word(&mut hdr, sum.0);
    push_word(&mut hdr, sum.1);
    assert(hdr@ =~= header_bytes(salt1, salt2));
    hdr
}

/// The bytes of a log that holds `pages` and nothing else: the header for the
/// given salts and one frame per page, in ascending page order.
pub open spec fn encoded(pages: SparsePages, salt1: u32, salt2: u32, commit: u32) -> Seq<u8> {
    with_frames(header_bytes(salt1, salt2), pages.keys(), pages.contents(), commit, pages.keys().len())
}

/// Serialises `pages` as a log of its own. A page index beyond 32 bits is
/// refused.
pub fn encode_pages(pages: &SparsePages, salt1: u32, salt2: u32, db_pages_after_commit: u32) -> (r: Result<
    Vec<u8>,
    WalError,
>)
    requires
        pages.wf(),
        HEADER_SIZE + pages.keys().len() * 4120 <= usize::MAX,
    ensures
        match r {
            Ok(bytes) => fits_frames(pages.keys()) && bytes@ == encoded(*pages, salt1, salt2, db_pages_after_commit),
            Err(e) => e is PageIndexTooLarge && !fits_frames(pages.keys()),
        },
{
    let mut wal = SqliteWal::with_header(salt1, salt2);
    proof {
        lemma_header_fields(salt1, salt2);
    }
    match wal.append_pages(pages, db_pages_after_commit) {
        Ok(_) => Ok(wal.data),
        Err(e) => Err(e),
    }
}

/// Reads a serialised log back into the page map that its frames spell.
/// Bytes that are not a header followed by whole frames are refused.
pub fn decode_pages(bytes: &[u8]) -> (r: Result<SparsePages, WalError>)
    ensures
        match r {
            Ok(pages) => {
                &&& frame_aligned(bytes@.len() as int)
                &&& pages.wf()
                &&& pages@ == pages_of_frames(bytes@, frame_count(bytes@.len() as int) as nat)
            },
            Err(e) => e is Malformed && !frame_aligned(bytes@.len() as int),
        },
{
    let len = bytes.len();
    if len < HEADER_SIZE || (len - HEADER_SIZE) % FRAME_SIZE != 0 {
        return Err(WalError::Malformed);
    }
    let wal = SqliteWal::from_bytes(bytes);
    Ok(wal.as_pages())
}

/// Decoding what was encoded gives the page map back, key for key and byte
/// for byte.
pub proof fn lemma_encode_decode(pages: SparsePages, salt1: u32, salt2: u32, commit: u32)
    requires
        pages.wf(),
        fits_frames(pages.keys()),
    ensures
        ({
            let bytes = encoded(pages, salt1, salt2, commit);
            &&& frame_aligned(bytes.len() as int)
            &&& pages_of_frames(bytes, frame_count(bytes.len() as int) as nat) == pages@
        }),
{
    lemma_header_fields(salt1, salt2);
    lemma_frames_round_trip(header_bytes(salt1, salt2), pages, commit);
}

/// Number of bytes a read at `offset` copies from a buffer of `len` bytes
/// into one of `want` bytes.
pub open spec fn available(len: int, offset: int, want: int) -> int {
    let remaining = if offset < len { len - offset } else { 0 };
    if remaining < want { remaining } else { want }
}

} // verus!
