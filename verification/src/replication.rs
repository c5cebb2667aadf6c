//! The replication boundary: a source serves single journal entries by
//! sequence number, a destination accepts them in order for a known peer.

use crate::journal::{same_entries, Journal, JournalId, MemoryJournal};
use crate::lsn::{span_after_append, span_contains, Lsn, LsnRange};
use crate::page::SparsePages;
use vstd::prelude::*;

verus! {

/// Why a replication request was refused.
#[derive(Debug)]
pub enum ReplicationError {
    /// The destination keeps no journal for the named peer.
    UnknownJournal(JournalId),
    /// The entry does not directly follow the range held for the peer.
    NonContiguousLsn { received: Lsn, range: LsnRange },
    /// The backing store failed.
    Io,
}

/// Whether an entry numbered `lsn` may follow `span`: any number may start an
/// empty span, and only the successor of its last number may extend it.
pub open spec fn can_follow(span: Option<(Lsn, Lsn)>, lsn: Lsn) -> bool {
    match span {
        None => true,
        Some((_, last)) => last + 1 == lsn,
    }
}

/// The span held after the `n` entries numbered `from`, `from + 1`, ... were
/// accepted one after another on top of `start`.
pub open spec fn received_in_order(start: Option<(Lsn, Lsn)>, from: Lsn, n: nat) -> Option<(Lsn, Lsn)>
    decreases n,
{
    if n == 0 {
        start
    } else {
        span_after_append(received_in_order(start, from, (n - 1) as nat), (from + n - 1) as Lsn)
    }
}

/// A destination that starts empty and receives the entries numbered
/// `from ..= from + n - 1` in order finds each of them acceptable and ends up
/// holding exactly that range.
pub proof fn lemma_receive_in_order(from: Lsn, n: nat)
    requires
        n >= 1,
        from + n - 1 <= u64::MAX,
    ensures
        received_in_order(None, from, n) == Some((from, (from + n - 1) as Lsn)),
        can_follow(received_in_order(None, from, (n - 1) as nat), (from + n - 1) as Lsn),
    decreases n,
{
    if n > 1 {
        lemma_receive_in_order(from, (n - 1) as nat);
    }
}

/// The side of a journal that serves its entries to a remote reader.
pub trait ReplicationSource: Journal {
    /// The identity under which the journal is known to peers.
    spec fn ident(&self) -> JournalId;

    /// The journal's identity.
    fn source_id(&self) -> (id: JournalId)
        requires
            self.inv(),
        ensures
            id == self.ident(),
    ;

    /// The entry numbered exactly `lsn`, or `None` where the journal holds no
    /// such entry.
    fn read_lsn(&self, lsn: Lsn) -> (r: Result<Option<SparsePages>, ReplicationError>)
        requires
            self.inv(),
        ensures
            self.infallible() ==> r is Ok,
            match r {
                Ok(Some(pages)) => span_contains(self.span(), lsn) && pages.wf() && pages@ == self.pages_at(lsn),
                Ok(None) => !span_contains(self.span(), lsn),
                Err(_) => span_contains(self.span(), lsn),
            },
    ;
}

/// The side of a journal that accepts entries from a remote source.
pub trait ReplicationDestination: Journal {
    /// Whether the destination keeps a journal for peer `id`.
    spec fn knows(&self, id: JournalId) -> bool;

    /// The range held for peer `id`.
    spec fn peer_span(&self, id: JournalId) -> Option<(Lsn, Lsn)>;

    /// The range currently held for peer `id`.
    fn range_of(&mut self, id: JournalId) -> (r: Result<LsnRange, ReplicationError>)
        requires
            old(self).inv(),
        ensures
            *final(self) == *old(self),
            old(self).infallible() ==> (r is Ok <==> old(self).knows(id)),
            match r {
                Ok(range) => old(self).knows(id) && range@ == old(self).peer_span(id) && range.wf(),
                Err(e) => e is UnknownJournal ==> !old(self).knows(id),
            },
    ;

    /// Accepts `pages` as the entry numbered `lsn` of peer `id`. Entries of
    /// the journal already held stay as they are, whatever the outcome.
    fn write_lsn(&mut self, id: JournalId, lsn: Lsn, pages: &SparsePages) -> (r: Result<(), ReplicationError>)
        requires
            old(self).inv(),
            pages.wf(),
        ensures
            final(self).inv(),
            same_entries(old(self).span(), |l: Lsn| old(self).pages_at(l), |l: Lsn| final(self).pages_at(l)),
            forall|l: Lsn| span_contains(old(self).span(), l) ==> span_contains(final(self).span(), l),
            forall|other: JournalId| final(self).knows(other) == old(self).knows(other),
            final(self).infallible() == old(self).infallible(),
            old(self).infallible() ==> (r is Ok <==> old(self).knows(id) && can_follow(
                old(self).peer_span(id),
                lsn,
            )),
            match r {
                Ok(_) => {
                    &&& old(self).knows(id)
                    &&& can_follow(old(self).peer_span(id), lsn)
                    &&& final(self).peer_span(id) == span_after_append(old(self).peer_span(id), lsn)
                },
                Err(e) => {
                    &&& final(self).peer_span(id) == old(self).peer_span(id)
                    &&& e is UnknownJournal ==> !old(self).knows(id)
                    &&& e is NonContiguousLsn ==> old(self).knows(id) && !can_follow(old(self).peer_span(id), lsn)
                },
            },
    ;
}

impl ReplicationSource for MemoryJournal {
    open spec fn ident(&self) -> JournalId {
        self.id()
    }

    fn source_id(&self) -> (id: JournalId) {
        self.journal_id()
    }

    /// Never fails: an entry outside the range held is `None`.
    fn read_lsn(&self, lsn: Lsn) -> (r: Result<Option<SparsePages>, ReplicationError>)
        ensures
            r is Ok,
    {
        if Journal::range(self).contains(lsn) {
            match self.entry(lsn) {
                Ok(pages) => Ok(Some(pages.duplicate())),
                Err(_) => Err(ReplicationError::Io),
            }
        } else {
            Ok(None)
        }
    }
}

impl ReplicationDestination for MemoryJournal {
    open spec fn knows(&self, id: JournalId) -> bool {
        id == self.id()
    }

    open spec fn peer_span(&self, id: JournalId) -> Option<(Lsn, Lsn)> {
        if id == self.id() {
            self.span()
        } else {
            None
        }
    }

    /// Fails exactly for an identity other than the journal's own, and names
    /// that identity in the error.
    fn range_of(&mut self, id: JournalId) -> (r: Result<LsnRange, ReplicationError>)
        ensures
            r is Ok <==> old(self).knows(id),
            r is Err ==> r->Err_0 is UnknownJournal,
            match r {
                Err(ReplicationError::UnknownJournal(unknown)) => unknown == id,
                _ => true,
            },
    {
        if id != self.journal_id() {
            return Err(ReplicationError::UnknownJournal(id));
        }
        Ok(Journal::range(self))
    }

    /// Accepts the entry exactly where the identity is the journal's own and
    /// `lsn` may follow the range held; the entry then holds `pages`. A
    /// refusal names the unknown identity, or the number received and the
    /// range held.
    fn write_lsn(&mut self, id: JournalId, lsn: Lsn, pages: &SparsePages) -> (r: Result<(), ReplicationError>)
        ensures
            r is Ok <==> old(self).knows(id) && can_follow(old(self).span(), lsn),
            r is Ok ==> final(self).log() == old(self).log().push(pages@) && final(self).pages_at(lsn) == pages@,
            r is Err ==> final(self).log() == old(self).log() && final(self).span() == old(self).span(),
            r is Err ==> (r->Err_0 is UnknownJournal <==> !old(self).knows(id)),
            r is Err ==> (r->Err_0 is NonContiguousLsn <==> old(self).knows(id)),
            match r {
                Err(ReplicationError::UnknownJournal(unknown)) => unknown == id,
                Err(ReplicationError::NonContiguousLsn { received, range }) => received == lsn && range@ == old(
                    self,
                ).span(),
                _ => true,
            },
            final(self).id() == old(self).id(),
    {
        if id != self.journal_id() {
            return Err(ReplicationError::UnknownJournal(id));
        }
        let range = Journal::range(self);
        if !range.can_append(lsn) {
            return Err(ReplicationError::NonContiguousLsn { received: lsn, range });
        }
        self.push_entry(lsn, pages);
        Ok(())
    }
}

} // verus!
