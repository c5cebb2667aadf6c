//! The append-only, sequence-numbered log of committed page sets, and an
//! in-memory backend for it.

use crate::lsn::{span_contains, span_first, span_intersect, span_last, Lsn, LsnCursor, LsnRange};
use crate::page::{PageIdx, SparsePages, PAGESIZE};
use vstd::prelude::*;

verus! {

/// Opaque identity of a journal, by which peers name each other.
#[derive(Clone, Copy, Debug, PartialEq, Eq, Structural)]
pub struct JournalId {
    pub id: u128,
}

/// Why a journal backend refused an operation.
#[derive(Debug, Clone, Copy, PartialEq, Eq, Structural)]
pub enum JournalError {
    /// The backing store failed.
    Io,
    /// No sequence number is left for another entry.
    LsnExhausted,
}

/// Every entry within `span` reads the same through `after` as through
/// `before`.
pub open spec fn same_entries(
    span: Option<(Lsn, Lsn)>,
    before: spec_fn(Lsn) -> Map<PageIdx, Seq<u8>>,
    after: spec_fn(Lsn) -> Map<PageIdx, Seq<u8>>,
) -> bool {
    forall|lsn: Lsn| span_contains(span, lsn) ==> #[trigger] after(lsn) == before(lsn)
}

/// A log that spanned `before_span` has grown by one entry holding `pages`:
/// the span gained exactly one sequence number at its end, the new entry
/// reads as `pages`, and every earlier entry reads as it did.
pub open spec fn appended(
    before_span: Option<(Lsn, Lsn)>,
    after_span: Option<(Lsn, Lsn)>,
    before: spec_fn(Lsn) -> Map<PageIdx, Seq<u8>>,
    after: spec_fn(Lsn) -> Map<PageIdx, Seq<u8>>,
    pages: Map<PageIdx, Seq<u8>>,
) -> bool {
    &&& after_span is Some
    &&& span_first(after_span) <= span_last(after_span)
    &&& match before_span {
        None => span_first(after_span) == span_last(after_span),
        Some((first, last)) => after_span == Some((first, (last + 1) as Lsn)) && last < u64::MAX,
    }
    &&& after(span_last(after_span)) == pages
    &&& same_entries(before_span, before, after)
}

/// `after` is the journal `before` with `pages` appended as one new entry.
pub open spec fn journal_appended<J: Journal>(before: J, after: J, pages: Map<PageIdx, Seq<u8>>) -> bool {
    appended(before.span(), after.span(), |l: Lsn| before.pages_at(l), |l: Lsn| after.pages_at(l), pages)
}

/// Every entry of the journal `before` is held unchanged by `after`.
pub open spec fn journal_same_entries<J: Journal>(before: J, after: J) -> bool {
    same_entries(before.span(), |l: Lsn| before.pages_at(l), |l: Lsn| after.pages_at(l))
}

/// An append-only log of page sets, one per commit, numbered by consecutive
/// sequence numbers. Backends implement this.
pub trait Journal: Sized {
    /// The backend's own consistency condition.
    spec fn inv(&self) -> bool;

    /// First and last sequence number held, or `None` for an empty journal.
    spec fn span(&self) -> Option<(Lsn, Lsn)>;

    /// The page set committed under `lsn`.
    spec fn pages_at(&self, lsn: Lsn) -> Map<PageIdx, Seq<u8>>;

    /// The backing store never fails: every entry held can be read, and a
    /// replication request is refused only for a reason of its own.
    spec fn infallible(&self) -> bool;

    /// Every page of an entry held is a whole page.
    proof fn lemma_whole_pages(&self, lsn: Lsn, idx: PageIdx)
        requires
            self.inv(),
            span_contains(self.span(), lsn),
            self.pages_at(lsn).contains_key(idx),
        ensures
            self.pages_at(lsn)[idx].len() == PAGESIZE,
    ;

    /// The range of entries held.
    fn range(&self) -> (r: LsnRange)
        requires
            self.inv(),
        ensures
            r@ == self.span(),
            r.wf(),
    ;

    /// A cursor over the entries held within `range`, oldest first. It can be
    /// reversed to walk from the newest entry to the oldest.
    fn scan_range(&self, range: LsnRange) -> (cursor: LsnCursor)
        requires
            self.inv(),
            range.wf(),
        ensures
            cursor.wf(),
            cursor.bounds() == span_intersect(self.span(), range@),
            !cursor.is_reversed(),
            cursor.current() is None,
    ;

    /// Appends `pages` as the next entry. On failure the journal holds what
    /// it held before.
    fn append(&mut self, pages: &SparsePages) -> (r: Result<(), JournalError>)
        requires
            old(self).inv(),
            pages.wf(),
        ensures
            final(self).inv(),
            final(self).infallible() == old(self).infallible(),
            match r {
                Ok(_) => appended(
                    old(self).span(),
                    final(self).span(),
                    |l: Lsn| old(self).pages_at(l),
                    |l: Lsn| final(self).pages_at(l),
                    pages@,
                ),
                Err(_) => final(self).span() == old(self).span() && same_entries(
                    old(self).span(),
                    |l: Lsn| old(self).pages_at(l),
                    |l: Lsn| final(self).pages_at(l),
                ),
            },
    ;

    /// Read access to the entry under `lsn`. Only a backing store that can
    /// fail may refuse it.
    fn entry(&self, lsn: Lsn) -> (r: Result<&SparsePages, JournalError>)
        requires
            self.inv(),
            span_contains(self.span(), lsn),
        ensures
            self.infallible() ==> r is Ok,
            match r {
                Ok(pages) => pages.wf() && pages@ == self.pages_at(lsn),
                Err(_) => true,
            },
    ;
}

/// A journal that keeps its entries in memory.
pub struct MemoryJournal {
    id: JournalId,
    first: Lsn,
    entries: Vec<SparsePages>,
}

impl MemoryJournal {
    /// The journal's identity.
    pub closed spec fn id(&self) -> JournalId {
        self.id
    }

    /// The page sets held, oldest first.
    pub closed spec fn log(&self) -> Seq<Map<PageIdx, Seq<u8>>> {
        Seq::new(self.entries@.len(), |i: int| self.entries@[i]@)
    }

    /// Sequence number of the oldest entry; meaningful while the journal is
    /// not empty.
    pub closed spec fn first_lsn(&self) -> Lsn {
        self.first
    }

    /// Every entry is a well-formed page set and the last sequence number
    /// fits the number type.
    pub closed spec fn wf(&self) -> bool {
        &&& forall|i: int| 0 <= i < self.entries@.len() ==> (#[trigger] self.entries@[i]).wf()
        &&& self.first + self.entries@.len() <= u64::MAX + 1
    }

    /// The range held: `len` entries numbered from `first`.
    pub open spec fn span_of(first: Lsn, len: nat) -> Option<(Lsn, Lsn)> {
        if len == 0 {
            None
        } else {
            Some((first, (first + len - 1) as Lsn))
        }
    }

    /// An empty journal named `id`.
    pub fn new(id: JournalId) -> (j: MemoryJournal)
        ensures
            j.inv(),
            j.span() is None,
            j.id() == id,
            j.log().len() == 0,
    {
        MemoryJournal { id, first: 0, entries: Vec::new() }
    }

    /// The journal's identity.
    pub fn journal_id(&self) -> (id: JournalId)
        ensures
            id == self.id(),
    {
        self.id
    }

    /// Stores a copy of `pages` as the entry numbered `lsn`, which must be
    /// the next number, or any number where the journal is empty.
    pub(crate) fn push_entry(&mut self, lsn: Lsn, pages: &SparsePages)
        requires
            old(self).inv(),
            pages.wf(),
            match old(self).span() {
                None => true,
                Some((_, last)) => last + 1 == lsn,
            },
        ensures
            final(self).inv(),
            final(self).id() == old(self).id(),
            appended(
                old(self).span(),
                final(self).span(),
                |l: Lsn| old(self).pages_at(l),
                |l: Lsn| final(self).pages_at(l),
                pages@,
            ),
            final(self).span() == Some((match old(self).span() { None => lsn, Some((first, _)) => first }, lsn)),
            final(self).log() == old(self).log().push(pages@),
    {
        if self.entries.len() == 0 {
            self.first = lsn;
        }
        self.entries.push(pages.duplicate());
        proof {
            assert(self.log() =~= old(self).log().push(pages@));
            assert forall|l: Lsn| span_contains(old(self).span(), l) implies #[trigger] self.pages_at(l) == old(self).pages_at(l) by {
                assert(self.entries@[l - self.first] == old(self).entries@[l - self.first]);
            }
        }
    }
}

impl Journal for MemoryJournal {
    open spec fn inv(&self) -> bool {
        self.wf()
    }

    open spec fn span(&self) -> Option<(Lsn, Lsn)> {
        Self::span_of(self.first_lsn(), self.log().len())
    }

    open spec fn pages_at(&self, lsn: Lsn) -> Map<PageIdx, Seq<u8>> {
        if self.first_lsn() <= lsn < self.first_lsn() + self.log().len() {
            self.log()[lsn - self.first_lsn()]
        } else {
            Map::empty()
        }
    }

    open spec fn infallible(&self) -> bool {
        true
    }

    proof fn lemma_whole_pages(&self, lsn: Lsn, idx: PageIdx) {
        let at = lsn - self.first;
        assert(self.log()[at] == self.entries@[at]@);
        self.entries@[at].lemma_view();
    }

    fn range(&self) -> (r: LsnRange) {
        let len = self.entries.len();
        if len == 0 {
            LsnRange::empty()
        } else {
            LsnRange::new(self.first, self.first + (len as u64 - 1))
        }
    }

    fn scan_range(&self, range: LsnRange) -> (cursor: LsnCursor) {
        LsnCursor::new(self.range().intersect(&range))
    }

    /// Never fails for want of storage: the one refusal is a journal whose
    /// last entry already carries the greatest sequence number. The first
    /// entry of an empty journal is numbered 0.
    fn append(&mut self, pages: &SparsePages) -> (r: Result<(), JournalError>)
        ensures
            final(self).id() == old(self).id(),
            match r {
                Ok(_) => final(self).log() == old(self).log().push(pages@) && (old(self).span() is None
                    ==> final(self).span() == Some((0u64, 0u64))),
                Err(e) => e is LsnExhausted && old(self).span() is Some && span_last(old(self).span()) == u64::MAX
                    && final(self).log() == old(self).log() && final(self).first_lsn() == old(self).first_lsn(),
            },
            r is Err <==> old(self).span() is Some && span_last(old(self).span()) == u64::MAX,
    {
        let range = self.range();
        match range.last() {
            None => {
                self.push_entry(0, pages);
                Ok(())
            },
            Some(last) => {
                if last == u64::MAX {
                    Err(JournalError::LsnExhausted)
                } else {
                    self.push_entry(last + 1, pages);
                    Ok(())
                }
            },
        }
    }

    /// Never fails.
    fn entry(&self, lsn: Lsn) -> (r: Result<&SparsePages, JournalError>)
        ensures
            r is Ok,
    {
        let len = self.entries.len();
        assert(self.log().len() == len);
        assert(lsn - self.first < len);
        let at = (lsn - self.first) as usize;
        assert(self.log()[at as int] == self.entries@[at as int]@);
        Ok(&self.entries[at])
    }
}

} // verus!
