//! The virtual-file adapter: page writes are buffered as pending, reads look
//! through pending into the committed journal, and commit moves the pending
//! set into the journal as one entry.

use crate::codec::{be_bytes, be_bytes_of};
use crate::journal::{journal_appended, journal_same_entries, Journal, JournalError, JournalId};
use crate::replication::{can_follow, ReplicationDestination, ReplicationError, ReplicationSource};
use crate::lsn::{span_after_append, span_contains, span_first, span_last, Lsn, LsnRange};
use crate::page::{max_key, Page, PageIdx, SparsePages, PAGESIZE};
use vstd::prelude::*;

verus! {

/// Byte offset, within page 0, of the database header's change counter.
pub const FILE_CHANGE_COUNTER_OFFSET: usize = 24;

/// Why a storage operation failed.
#[derive(Debug)]
pub enum StorageError {
    /// The journal refused; the error is the journal's own.
    Journal(JournalError),
    /// The logical file size does not fit 64 bits.
    SizeOverflow,
}

/// The newest entry among `first..=last` that holds page `idx`.
pub open spec fn newest_with<J: Journal>(j: J, first: int, last: int, idx: PageIdx) -> Option<Lsn>
    decreases last - first + 1,
{
    if last < first || first < 0 || last > u64::MAX {
        None
    } else if j.pages_at(last as Lsn).contains_key(idx) {
        Some(last as Lsn)
    } else {
        newest_with(j, first, last - 1, idx)
    }
}

/// The committed version of page `idx` that is visible within `span`: that of
/// the newest entry which holds the page.
pub open spec fn committed_page<J: Journal>(j: J, span: Option<(Lsn, Lsn)>, idx: PageIdx) -> Option<Seq<u8>> {
    match span {
        None => None,
        Some((first, last)) => match newest_with(j, first as int, last as int, idx) {
            None => None,
            Some(lsn) => Some(j.pages_at(lsn)[idx]),
        },
    }
}

/// The greater of two optional page indexes, `None` being the least.
pub open spec fn max_opt(a: Option<PageIdx>, b: Option<PageIdx>) -> Option<PageIdx> {
    match (a, b) {
        (None, _) => b,
        (_, None) => a,
        (Some(x), Some(y)) => if x >= y { a } else { b },
    }
}

/// The greatest page index held by any entry among `first..=last`.
pub open spec fn committed_max<J: Journal>(j: J, first: int, last: int) -> Option<PageIdx>
    decreases last - first + 1,
{
    if last < first || first < 0 || last > u64::MAX {
        None
    } else {
        max_opt(committed_max(j, first, last - 1), max_key(j.pages_at(last as Lsn)))
    }
}

/// Size in bytes of a file whose greatest page index is `max`.
pub open spec fn logical_size(max: Option<PageIdx>) -> int {
    match max {
        None => 0,
        Some(n) => (n + 1) * PAGESIZE,
    }
}

/// Whether a read of `len` bytes at `offset` of page `idx` overlaps the
/// change counter of the database header.
pub open spec fn covers_counter(idx: PageIdx, offset: int, len: int) -> bool {
    idx == 0 && offset < FILE_CHANGE_COUNTER_OFFSET + 4 && offset + len > FILE_CHANGE_COUNTER_OFFSET
}

/// `bytes`, read from `offset` of page 0, with every byte that lies within
/// the change counter replaced by the matching big-endian byte of `counter`.
pub open spec fn stamped(bytes: Seq<u8>, offset: int, counter: u32) -> Seq<u8> {
    Seq::new(
        bytes.len(),
        |i: int|
            if FILE_CHANGE_COUNTER_OFFSET <= offset + i < FILE_CHANGE_COUNTER_OFFSET + 4 {
                be_bytes(counter)[offset + i - FILE_CHANGE_COUNTER_OFFSET]
            } else {
                bytes[i]
            },
    )
}

/// Pending writes layered over a journal of committed page sets.
pub struct Storage<J: Journal> {
    journal: J,
    visible_lsn_range: LsnRange,
    pending: SparsePages,
    file_change_counter: u32,
}

impl<J: Journal> Storage<J> {
    /// The journal of committed page sets.
    pub closed spec fn journal(&self) -> J {
        self.journal
    }

    /// The pages written since the last commit or revert.
    pub closed spec fn pending(&self) -> Map<PageIdx, Seq<u8>> {
        self.pending@
    }

    /// The span of journal entries that reads consult.
    pub closed spec fn visible(&self) -> Option<(Lsn, Lsn)> {
        self.visible_lsn_range@
    }

    /// The change counter last handed to a reader.
    pub closed spec fn change_counter(&self) -> u32 {
        self.file_change_counter
    }

    /// The journal is consistent, the visible span lies within the journal,
    /// and pending holds whole pages.
    pub closed spec fn wf(&self) -> bool {
        &&& self.journal.inv()
        &&& self.pending.wf()
        &&& self.visible_lsn_range.wf()
        &&& match self.visible_lsn_range@ {
            None => true,
            Some((first, last)) => span_contains(self.journal.span(), first) && span_contains(
                self.journal.span(),
                last,
            ),
        }
    }

    /// Every visible sequence number names an entry that the journal holds.
    pub open spec fn visible_is_held(&self) -> bool {
        match self.visible() {
            None => true,
            Some((first, last)) => first <= last && span_contains(self.journal().span(), first)
                && span_contains(self.journal().span(), last),
        }
    }

    /// Well-formed storage sees only entries that its journal holds.
    pub proof fn lemma_visible_is_held(&self)
        requires
            self.wf(),
        ensures
            self.visible_is_held(),
    {
    }

    /// Well-formed storage rests on a consistent journal.
    pub proof fn lemma_journal_inv(&self)
        requires
            self.wf(),
        ensures
            self.journal().inv(),
    {
    }

    /// Every pending page is a whole page.
    pub proof fn lemma_pending_whole(&self, idx: PageIdx)
        requires
            self.wf(),
            self.pending().contains_key(idx),
        ensures
            self.pending()[idx].len() == PAGESIZE,
    {
        self.pending.lemma_view();
    }

    /// The version of page `idx` that a read sees: the pending one, else the
    /// newest committed one in the visible span.
    pub open spec fn page(&self, idx: PageIdx) -> Option<Seq<u8>> {
        if self.pending().contains_key(idx) {
            Some(self.pending()[idx])
        } else {
            committed_page(self.journal(), self.visible(), idx)
        }
    }

    /// The greatest page index that exists in pending or in the visible span.
    pub open spec fn max_page(&self) -> Option<PageIdx> {
        max_opt(
            max_key(self.pending()),
            match self.visible() {
                None => None,
                Some((first, last)) => committed_max(self.journal(), first as int, last as int),
            },
        )
    }

    /// The journal underneath.
    pub fn journal_ref(&self) -> (j: &J)
        requires
            self.wf(),
        ensures
            *j == self.journal(),
            j.inv(),
    {
        &self.journal
    }

    /// Storage over `journal`, with nothing pending and all of the journal
    /// visible.
    pub fn new(journal: J) -> (s: Storage<J>)
        requires
            journal.inv(),
        ensures
            s.wf(),
            s.journal() == journal,
            s.pending() == Map::<PageIdx, Seq<u8>>::empty(),
            s.visible() == journal.span(),
            s.change_counter() == 0,
    {
        let visible_lsn_range = journal.range();
        Storage { journal, visible_lsn_range, pending: SparsePages::new(), file_change_counter: 0 }
    }

    /// Number of pages written since the last commit or revert.
    pub fn num_pending_pages(&self) -> (n: usize)
        requires
            self.wf(),
        ensures
            n == self.pending().dom().len(),
            (n == 0) == (self.pending() == Map::<PageIdx, Seq<u8>>::empty()),
    {
        self.pending.num_pages()
    }

    /// Sequence number of the newest entry of the journal.
    pub fn last_committed_lsn(&self) -> (lsn: Option<Lsn>)
        requires
            self.wf(),
        ensures
            lsn == match self.journal().span() {
                None => None::<Lsn>,
                Some((_, last)) => Some(last),
            },
    {
        self.journal.range().last()
    }

    /// Whether the journal holds any entry.
    pub fn has_committed_pages(&self) -> (b: bool)
        requires
            self.wf(),
        ensures
            b == (self.journal().span() is Some),
    {
        self.journal.range().is_non_empty()
    }

    /// Appends the pending pages to the journal as one entry and makes the
    /// whole journal visible. With nothing pending nothing happens. Where the
    /// journal refuses, its error is handed on, nothing changes and pending
    /// stays for a retry.
    pub fn commit(&mut self) -> (r: Result<(), StorageError>)
        requires
            old(self).wf(),
        ensures
            final(self).wf(),
            final(self).change_counter() == old(self).change_counter(),
            final(self).journal().infallible() == old(self).journal().infallible(),
            old(self).pending() == Map::<PageIdx, Seq<u8>>::empty() ==> r is Ok && final(self).journal() == old(
                self,
            ).journal() && final(self).pending() == old(self).pending() && final(self).visible() == old(
                self,
            ).visible(),
            old(self).pending() != Map::<PageIdx, Seq<u8>>::empty() ==> match r {
                Ok(_) => {
                    &&& journal_appended(old(self).journal(), final(self).journal(), old(self).pending())
                    &&& final(self).pending() == Map::<PageIdx, Seq<u8>>::empty()
                    &&& final(self).visible() == final(self).journal().span()
                },
                Err(e) => {
                    &&& e is Journal
                    &&& final(self).pending() == old(self).pending()
                    &&& final(self).visible() == old(self).visible()
                    &&& final(self).journal().span() == old(self).journal().span()
                    &&& journal_same_entries(old(self).journal(), final(self).journal())
                },
            },
    {
        if self.pending.num_pages() > 0 {
            match self.journal.append(&self.pending) {
                Err(e) => {
                    return Err(StorageError::Journal(e));
                },
                Ok(_) => {},
            }
            self.pending.clear();
            self.visible_lsn_range = self.journal.range();
        }
        Ok(())
    }

    /// Discards the pending pages and makes the whole journal visible.
    pub fn revert(&mut self)
        requires
            old(self).wf(),
        ensures
            final(self).wf(),
            final(self).pending() == Map::<PageIdx, Seq<u8>>::empty(),
            final(self).journal() == old(self).journal(),
            final(self).visible() == old(self).journal().span(),
            final(self).change_counter() == old(self).change_counter(),
    {
        self.pending.clear();
        self.visible_lsn_range = self.journal.range();
    }

    /// Buffers one whole page, written at byte position `pos`, as pending.
    pub fn write(&mut self, pos: u64, buf: &[u8]) -> (r: Result<usize, StorageError>)
        requires
            old(self).wf(),
            buf@.len() == PAGESIZE,
        ensures
            final(self).wf(),
            r is Ok,
            r->Ok_0 == PAGESIZE,
            final(self).pending() == old(self).pending().insert(pos / (PAGESIZE as u64), buf@),
            final(self).journal() == old(self).journal(),
            final(self).visible() == old(self).visible(),
            final(self).change_counter() == old(self).change_counter(),
    {
        let page_idx = pos / (PAGESIZE as u64);
        let page = Page::from_bytes(buf);
        self.pending.write(page_idx, page);
        Ok(buf.len())
    }

    /// Durability is the journal's concern: nothing to do.
    pub fn sync(&mut self) -> (r: Result<(), StorageError>)
        ensures
            r is Ok,
            *final(self) == *old(self),
    {
        Ok(())
    }

    /// Size of the logical file: one page past the greatest page index that
    /// exists in pending or in any visible journal entry, or 0 without pages.
    /// A size beyond 64 bits is reported as an error.
    pub fn file_size(&self) -> (r: Result<u64, StorageError>)
        requires
            self.wf(),
        ensures
            match r {
                Ok(size) => size == logical_size(self.max_page()),
                Err(e) => match e {
                    StorageError::Journal(_) => self.visible() is Some && !self.journal().infallible(),
                    StorageError::SizeOverflow => logical_size(self.max_page()) > u64::MAX,
                },
            },
    {
        let mut max_page_idx = self.pending.max_page_idx();
        let mut cursor = self.journal.scan_range(self.visible_lsn_range);
        let mut more = true;
        while more
            invariant
                self.wf(),
                cursor.wf(),
                !cursor.is_reversed(),
                !more ==> cursor.bounds() is None,
                match cursor.bounds() {
                    None => max_page_idx == self.max_page(),
                    Some((lo, hi)) => {
                        &&& self.visible() is Some
                        &&& span_first(self.visible()) <= lo <= hi
                        &&& hi == span_last(self.visible())
                        &&& max_page_idx == max_opt(
                            max_key(self.pending()),
                            committed_max(self.journal(), span_first(self.visible()) as int, lo - 1),
                        )
                    },
                },
            decreases cursor.remaining().len() + (if more { 1int } else { 0int }),
        {
            let ghost first = span_first(self.visible());
            more = cursor.advance();
            if more {
                let lsn = cursor.lsn().unwrap();
                match self.journal.entry(lsn) {
                    Err(e) => {
                        return Err(StorageError::Journal(e));
                    },
                    Ok(pages) => {
                        max_page_idx = greater(max_page_idx, pages.max_page_idx());
                    },
                }
                proof {
                    lemma_max_opt_assoc(
                        max_key(self.pending()),
                        committed_max(self.journal(), first as int, lsn - 1),
                        max_key(self.journal().pages_at(lsn)),
                    );
                }
            }
        }
        match max_page_idx {
            None => Ok(0),
            Some(n) => {
                if n >= u64::MAX / (PAGESIZE as u64) {
                    assert((n + 1) * PAGESIZE > u64::MAX);
                    Err(StorageError::SizeOverflow)
                } else {
                    Ok((n + 1) * (PAGESIZE as u64))
                }
            },
        }
    }

    /// Reads from byte position `pos` into `buf`. The page comes from
    /// pending, else from the newest visible journal entry that holds it; the
    /// result is 0, and `buf` untouched, where no source has it. Every read
    /// that overlaps the header's change counter flips the counter and hands
    /// out its bytes in place of the stored ones, so that no two reads of the
    /// counter in a row agree.
    pub fn read(&mut self, pos: u64, buf: &mut Vec<u8>) -> (r: Result<usize, StorageError>)
        requires
            old(self).wf(),
            old(self).page(pos / (PAGESIZE as u64)) is Some ==> pos % (PAGESIZE as u64) + old(buf)@.len()
                <= PAGESIZE,
        ensures
            final(self).wf(),
            final(self).journal() == old(self).journal(),
            final(self).pending() == old(self).pending(),
            final(self).visible() == old(self).visible(),
            final(buf)@.len() == old(buf)@.len(),
            old(self).journal().infallible() ==> r is Ok,
            match r {
                Ok(n) => {
                    let found = old(self).page(pos / (PAGESIZE as u64));
                    let offset = (pos % (PAGESIZE as u64)) as int;
                    if found is Some && old(buf)@.len() > 0 {
                        let bytes = found->0.subrange(offset, offset + old(buf)@.len());
                        &&& n == old(buf)@.len()
                        &&& if covers_counter(pos / (PAGESIZE as u64), offset, old(buf)@.len() as int) {
                            &&& final(self).change_counter() == old(self).change_counter() ^ 1
                            &&& final(buf)@ == stamped(bytes, offset, final(self).change_counter())
                        } else {
                            &&& final(self).change_counter() == old(self).change_counter()
                            &&& final(buf)@ == bytes
                        }
                    } else {
                        &&& n == 0
                        &&& final(buf)@ == old(buf)@
                        &&& final(self).change_counter() == old(self).change_counter()
                    }
                },
                Err(e) => {
                    &&& e is Journal
                    &&& old(self).visible() is Some
                    &&& !old(self).journal().infallible()
                    &&& !(old(self).pending().contains_key(pos / (PAGESIZE as u64)) && old(buf)@.len() > 0)
                    &&& final(buf)@ == old(buf)@
                    &&& final(self).change_counter() == old(self).change_counter()
                },
            },
    {
        let page_idx = pos / (PAGESIZE as u64);
        let page_offset = (pos % (PAGESIZE as u64)) as usize;
        let len = buf.len();
        proof {
            self.pending.lemma_view();
        }
        let mut n = self.pending.read(page_idx, page_offset, buf);
        let mut cursor = self.journal.scan_range(self.visible_lsn_range).into_rev();
        let mut more = true;
        while n == 0 && more
            invariant
                *self == *old(self),
                self.wf(),
                cursor.wf(),
                cursor.is_reversed(),
                page_offset < PAGESIZE,
                page_idx == pos / (PAGESIZE as u64),
                page_offset == pos % (PAGESIZE as u64),
                len == old(buf)@.len(),
                buf@.len() == len,
                n == 0 ==> buf@ == old(buf)@,
                n == 0 && len > 0 ==> !self.pending().contains_key(page_idx),
                match cursor.bounds() {
                    None => true,
                    Some((lo, hi)) => {
                        &&& self.visible() is Some
                        &&& lo == span_first(self.visible())
                        &&& lo <= hi <= span_last(self.visible())
                    },
                },
                n == 0 && len > 0 && more ==> committed_page(self.journal(), self.visible(), page_idx)
                    == committed_page(self.journal(), cursor.bounds(), page_idx),
                n == 0 && len > 0 && !more ==> committed_page(self.journal(), self.visible(), page_idx) is None,
                n != 0 ==> len > 0 && self.page(page_idx) is Some && self.page(page_idx)->0.len() == PAGESIZE
                    && n == (if len <= PAGESIZE - page_offset { len as int } else { PAGESIZE - page_offset })
                    && buf@ == crate::page::overlay(
                    old(buf)@,
                    self.page(page_idx)->0.subrange(page_offset as int, page_offset + n),
                ),
            decreases cursor.remaining().len() + (if more { 1int } else { 0int }) + (if n == 0 { 1int } else { 0int }),
        {
            let ghost ahead = cursor.bounds();
            more = cursor.advance();
            if more {
                let lsn = cursor.lsn().unwrap();
                proof {
                    let lo = span_first(ahead);
                    assert(ahead == Some((lo, lsn)));
                    assert(newest_with(self.journal(), lo as int, lo - 1, page_idx) is None);
                }
                match self.journal.entry(lsn) {
                    Err(e) => {
                        return Err(StorageError::Journal(e));
                    },
                    Ok(pages) => {
                        proof {
                            pages.lemma_view();
                        }
                        n = pages.read(page_idx, page_offset, buf);
                    },
                }
            }
        }
        if n != 0 {
            assert(n == len);
            assert(buf@ =~= self.page(page_idx)->0.subrange(page_offset as int, page_offset + len));
            if page_idx == 0 && page_offset < FILE_CHANGE_COUNTER_OFFSET + 4 && page_offset + len
                > FILE_CHANGE_COUNTER_OFFSET {
                self.file_change_counter = self.file_change_counter ^ 1;
                let word = be_bytes_of(self.file_change_counter);
                let ghost counter = self.file_change_counter;
                let ghost before = buf@;
                let mut k: usize = 0;
                while k < 4
                    invariant
                        k <= 4,
                        page_offset < PAGESIZE,
                        len <= PAGESIZE,
                        before.len() == len,
                        buf@.len() == len,
                        word@ == be_bytes(counter),
                        forall|i: int|
                            0 <= i < len ==> buf@[i] == if FILE_CHANGE_COUNTER_OFFSET <= page_offset + i
                                < FILE_CHANGE_COUNTER_OFFSET + k {
                                be_bytes(counter)[page_offset + i - FILE_CHANGE_COUNTER_OFFSET]
                            } else {
                                before[i]
                            },
                    decreases 4 - k,
                {
                    let at = FILE_CHANGE_COUNTER_OFFSET + k;
                    if at >= page_offset && at - page_offset < len {
                        buf[at - page_offset] = word[k];
                    }
                    k += 1;
                }
                assert(buf@ =~= stamped(before, page_offset as int, counter));
            }
            Ok(len)
        } else {
            Ok(0)
        }
    }
}

impl<J: ReplicationSource> Storage<J> {
    /// The identity of the journal underneath.
    pub fn source_id(&self) -> (id: JournalId)
        requires
            self.wf(),
        ensures
            id == self.journal().ident(),
    {
        self.journal.source_id()
    }

    /// The journal entry numbered exactly `lsn`, or `None` where the journal
    /// holds no such entry.
    pub fn read_lsn(&self, lsn: Lsn) -> (r: Result<Option<SparsePages>, ReplicationError>)
        requires
            self.wf(),
        ensures
            self.journal().infallible() ==> r is Ok,
            match r {
                Ok(Some(pages)) => span_contains(self.journal().span(), lsn) && pages.wf() && pages@
                    == self.journal().pages_at(lsn),
                Ok(None) => !span_contains(self.journal().span(), lsn),
                Err(_) => span_contains(self.journal().span(), lsn),
            },
    {
        self.journal.read_lsn(lsn)
    }
}

impl<J: ReplicationDestination> Storage<J> {
    /// The range that the journal underneath holds for peer `id`.
    pub fn range(&mut self, id: JournalId) -> (r: Result<LsnRange, ReplicationError>)
        requires
            old(self).wf(),
        ensures
            *final(self) == *old(self),
            old(self).journal().infallible() ==> (r is Ok <==> old(self).journal().knows(id)),
            match r {
                Ok(range) => old(self).journal().knows(id) && range@ == old(self).journal().peer_span(id)
                    && range.wf(),
                Err(e) => e is UnknownJournal ==> !old(self).journal().knows(id),
            },
    {
        self.journal.range_of(id)
    }

    /// Hands the entry numbered `lsn` of peer `id` to the journal underneath.
    /// Pending pages and the visible span stay as they are, so reads see what
    /// they saw before until the next commit or revert.
    pub fn write_lsn(&mut self, id: JournalId, lsn: Lsn, pages: &SparsePages) -> (r: Result<
        (),
        ReplicationError,
    >)
        requires
            old(self).wf(),
            pages.wf(),
        ensures
            final(self).wf(),
            final(self).pending() == old(self).pending(),
            final(self).visible() == old(self).visible(),
            final(self).change_counter() == old(self).change_counter(),
            journal_same_entries(old(self).journal(), final(self).journal()),
            final(self).journal().infallible() == old(self).journal().infallible(),
            old(self).journal().infallible() ==> (r is Ok <==> old(self).journal().knows(id) && can_follow(
                old(self).journal().peer_span(id),
                lsn,
            )),
            match r {
                Ok(_) => {
                    &&& old(self).journal().knows(id)
                    &&& can_follow(old(self).journal().peer_span(id), lsn)
                    &&& final(self).journal().peer_span(id) == span_after_append(
                        old(self).journal().peer_span(id),
                        lsn,
                    )
                },
                Err(e) => {
                    &&& final(self).journal().peer_span(id) == old(self).journal().peer_span(id)
                    &&& e is UnknownJournal ==> !old(self).journal().knows(id)
                    &&& e is NonContiguousLsn ==> old(self).journal().knows(id) && !can_follow(
                        old(self).journal().peer_span(id),
                        lsn,
                    )
                },
            },
    {
        self.journal.write_lsn(id, lsn, pages)
    }
}

/// After a successful commit, a read of any page that was pending sees
/// exactly the bytes last written to it: the new journal entry is the newest
/// one visible, and it holds the pending pages.
pub proof fn lemma_read_after_commit<J: Journal>(before: Storage<J>, after: Storage<J>, idx: PageIdx)
    requires
        before.pending().contains_key(idx),
        journal_appended(before.journal(), after.journal(), before.pending()),
        after.pending() == Map::<PageIdx, Seq<u8>>::empty(),
        after.visible() == after.journal().span(),
    ensures
        after.page(idx) == Some(before.pending()[idx]),
{
    let j = after.journal();
    let first = crate::lsn::span_first(j.span());
    let last = crate::lsn::span_last(j.span());
    assert(j.span() == Some((first, last)));
    assert(!after.pending().contains_key(idx));
    assert(j.pages_at(last).contains_key(idx));
    assert(newest_with(j, first as int, last as int, idx) == Some(last));
}

/// A page written while pending is what a read sees before the commit too,
/// whatever was committed earlier.
pub proof fn lemma_pending_wins<J: Journal>(s: Storage<J>, idx: PageIdx)
    requires
        s.pending().contains_key(idx),
    ensures
        s.page(idx) == Some(s.pending()[idx]),
{
}

/// Reverting pending writes restores every read to what it was before the
/// writes, and creates no journal entry, provided the journal held nothing
/// beyond the visible span when the writes began.
pub proof fn lemma_revert_restores_reads<J: Journal>(start: Storage<J>, reverted: Storage<J>, idx: PageIdx)
    requires
        start.pending() == Map::<PageIdx, Seq<u8>>::empty(),
        start.visible() == start.journal().span(),
        reverted.pending() == Map::<PageIdx, Seq<u8>>::empty(),
        reverted.journal() == start.journal(),
        reverted.visible() == start.journal().span(),
    ensures
        reverted.page(idx) == start.page(idx),
        reverted.max_page() == start.max_page(),
        reverted.journal().span() == start.journal().span(),
{
}

/// Two journals that agree on every entry among `first..=last` name the same
/// newest entry for a page, and that entry lies among them.
proof fn lemma_newest_agrees<J: Journal>(a: J, b: J, first: int, last: int, idx: PageIdx)
    requires
        forall|lsn: Lsn| first <= lsn <= last ==> #[trigger] b.pages_at(lsn) == a.pages_at(lsn),
    ensures
        newest_with(b, first, last, idx) == newest_with(a, first, last, idx),
        match newest_with(a, first, last, idx) {
            None => true,
            Some(lsn) => first <= lsn <= last,
        },
    decreases last - first + 1,
{
    if !(last < first || first < 0 || last > u64::MAX) {
        assert(b.pages_at(last as Lsn) == a.pages_at(last as Lsn));
        lemma_newest_agrees(a, b, first, last - 1, idx);
    }
}

/// Every page that a read can see is a whole page.
pub proof fn lemma_page_size<J: Journal>(s: Storage<J>, idx: PageIdx)
    requires
        s.wf(),
        s.page(idx) is Some,
    ensures
        s.page(idx)->0.len() == PAGESIZE,
{
    s.lemma_visible_is_held();
    if s.pending().contains_key(idx) {
        s.lemma_pending_whole(idx);
    } else {
        match s.visible() {
            None => {},
            Some((first, last)) => {
                let j = s.journal();
                lemma_newest_agrees(j, j, first as int, last as int, idx);
                lemma_newest_holds(j, first as int, last as int, idx);
                let lsn = newest_with(j, first as int, last as int, idx)->0;
                s.lemma_journal_inv();
                j.lemma_whole_pages(lsn, idx);
            },
        }
    }
}

/// The entry that `newest_with` names holds the page.
proof fn lemma_newest_holds<J: Journal>(j: J, first: int, last: int, idx: PageIdx)
    ensures
        match newest_with(j, first, last, idx) {
            None => true,
            Some(lsn) => j.pages_at(lsn).contains_key(idx),
        },
    decreases last - first + 1,
{
    if !(last < first || first < 0 || last > u64::MAX) {
        lemma_newest_holds(j, first, last - 1, idx);
    }
}

/// Reads are repeatable while the journal grows behind the visible span:
/// as long as pending and the visible span stay, and the journal keeps the
/// entries it held, every page reads as before.
pub proof fn lemma_reads_repeatable<J: Journal>(before: Storage<J>, after: Storage<J>, idx: PageIdx)
    requires
        before.visible_is_held(),
        after.pending() == before.pending(),
        after.visible() == before.visible(),
        journal_same_entries(before.journal(), after.journal()),
    ensures
        after.page(idx) == before.page(idx),
{
    match before.visible() {
        None => {},
        Some((first, last)) => {
            let a = before.journal();
            let b = after.journal();
            assert forall|lsn: Lsn| first <= lsn <= last implies #[trigger] b.pages_at(lsn) == a.pages_at(lsn) by {
                assert(span_contains(a.span(), lsn));
                let f = |l: Lsn| b.pages_at(l);
                assert(f(lsn) == b.pages_at(lsn));
            }
            lemma_newest_agrees(a, b, first as int, last as int, idx);
        },
    }
}

/// Two consecutive reads of the whole change counter hand out different
/// bytes: each read flips the lowest bit of the counter before it stamps it
/// into the buffer.
pub proof fn lemma_consecutive_reads_differ(first: Seq<u8>, second: Seq<u8>, offset: int, counter: u32)
    requires
        0 <= offset <= FILE_CHANGE_COUNTER_OFFSET,
        offset + first.len() >= FILE_CHANGE_COUNTER_OFFSET + 4,
        offset + second.len() >= FILE_CHANGE_COUNTER_OFFSET + 4,
    ensures
        ({
            let at = FILE_CHANGE_COUNTER_OFFSET - offset;
            &&& stamped(first, offset, counter ^ 1).subrange(at, at + 4) == be_bytes(counter ^ 1)
            &&& stamped(second, offset, (counter ^ 1) ^ 1).subrange(at, at + 4) == be_bytes((counter ^ 1) ^ 1)
            &&& be_bytes(counter ^ 1) != be_bytes((counter ^ 1) ^ 1)
        }),
{
    let a = counter ^ 1;
    let b = a ^ 1;
    let at = FILE_CHANGE_COUNTER_OFFSET - offset;
    assert(a != b) by (bit_vector)
        requires
            b == a ^ 1,
    ;
    crate::codec::lemma_be_round_trip(a);
    crate::codec::lemma_be_round_trip(b);
    assert(stamped(first, offset, a).subrange(at, at + 4) =~= be_bytes(a));
    assert(stamped(second, offset, b).subrange(at, at + 4) =~= be_bytes(b));
}

/// The greater of two optional page indexes.
fn greater(a: Option<PageIdx>, b: Option<PageIdx>) -> (m: Option<PageIdx>)
    ensures
        m == max_opt(a, b),
{
    match (a, b) {
        (None, _) => b,
        (_, None) => a,
        (Some(x), Some(y)) => if x >= y { a } else { b },
    }
}

/// Taking the greater of optional indexes is associative.
proof fn lemma_max_opt_assoc(a: Option<PageIdx>, b: Option<PageIdx>, c: Option<PageIdx>)
    ensures
        max_opt(max_opt(a, b), c) == max_opt(a, max_opt(b, c)),
{
}

} // verus!
