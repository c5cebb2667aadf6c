//! Log sequence numbers and inclusive ranges of them.

use vstd::prelude::*;

verus! {

/// Identifies one committed append of a journal.
pub type Lsn = u64;

/// Either empty, or every sequence number from `first` to `last` inclusive.
#[derive(Clone, Copy, Debug)]
pub struct LsnRange {
    bounds: Option<(Lsn, Lsn)>,
}

impl View for LsnRange {
    type V = Option<(Lsn, Lsn)>;

    closed spec fn view(&self) -> Option<(Lsn, Lsn)> {
        self.bounds
    }
}

/// The range that results from appending one entry to a log that spans
/// `span`: it starts at `initial` when the log was empty, and otherwise grows
/// by one at its end.
pub open spec fn span_after_append(span: Option<(Lsn, Lsn)>, initial: Lsn) -> Option<(Lsn, Lsn)> {
    match span {
        None => Some((initial, initial)),
        Some((first, last)) => Some((first, (last + 1) as Lsn)),
    }
}

/// First sequence number of a non-empty span.
pub open spec fn span_first(span: Option<(Lsn, Lsn)>) -> Lsn {
    match span {
        None => 0,
        Some((first, _)) => first,
    }
}

/// Last sequence number of a non-empty span.
pub open spec fn span_last(span: Option<(Lsn, Lsn)>) -> Lsn {
    match span {
        None => 0,
        Some((_, last)) => last,
    }
}

/// Whether `lsn` lies within `span`.
pub open spec fn span_contains(span: Option<(Lsn, Lsn)>, lsn: Lsn) -> bool {
    match span {
        None => false,
        Some((first, last)) => first <= lsn <= last,
    }
}

/// The sequence numbers that two spans share.
pub open spec fn span_intersect(a: Option<(Lsn, Lsn)>, b: Option<(Lsn, Lsn)>) -> Option<(Lsn, Lsn)> {
    match (a, b) {
        (Some((a_first, a_last)), Some((b_first, b_last))) => {
            let first = if a_first >= b_first { a_first } else { b_first };
            let last = if a_last <= b_last { a_last } else { b_last };
            if first <= last {
                Some((first, last))
            } else {
                None
            }
        },
        _ => None,
    }
}

/// The sequence numbers of a span, oldest first.
pub open spec fn ascending(span: Option<(Lsn, Lsn)>) -> Seq<Lsn> {
    match span {
        None => Seq::empty(),
        Some((first, last)) => Seq::new((last - first + 1) as nat, |i: int| (first + i) as Lsn),
    }
}

/// The sequence numbers of a span, newest first.
pub open spec fn descending(span: Option<(Lsn, Lsn)>) -> Seq<Lsn> {
    match span {
        None => Seq::empty(),
        Some((first, last)) => Seq::new((last - first + 1) as nat, |i: int| (last - i) as Lsn),
    }
}

impl LsnRange {
    /// A non-empty range never ends before it starts.
    pub open spec fn wf(&self) -> bool {
        match self@ {
            None => true,
            Some((first, last)) => first <= last,
        }
    }

    /// The range without any sequence number.
    pub fn empty() -> (r: LsnRange)
        ensures
            r@ is None,
            r.wf(),
    {
        LsnRange { bounds: None }
    }

    /// The range from `first` to `last` inclusive.
    pub fn new(first: Lsn, last: Lsn) -> (r: LsnRange)
        requires
            first <= last,
        ensures
            r@ == Some((first, last)),
            r.wf(),
    {
        LsnRange { bounds: Some((first, last)) }
    }

    pub fn is_empty(&self) -> (b: bool)
        ensures
            b == (self@ is None),
    {
        self.bounds.is_none()
    }

    pub fn is_non_empty(&self) -> (b: bool)
        ensures
            b == (self@ is Some),
    {
        self.bounds.is_some()
    }

    /// The smallest sequence number of the range.
    pub fn first(&self) -> (lsn: Option<Lsn>)
        ensures
            lsn == match self@ {
                None => None::<Lsn>,
                Some((first, _)) => Some(first),
            },
    {
        match self.bounds {
            None => None,
            Some((first, _)) => Some(first),
        }
    }

    /// The greatest sequence number of the range.
    pub fn last(&self) -> (lsn: Option<Lsn>)
        ensures
            lsn == match self@ {
                None => None::<Lsn>,
                Some((_, last)) => Some(last),
            },
    {
        match self.bounds {
            None => None,
            Some((_, last)) => Some(last),
        }
    }

    /// Number of sequence numbers in the range, saturating at `u64::MAX`.
    pub fn len(&self) -> (n: u64)
        requires
            self.wf(),
        ensures
            n as int == match self@ {
                None => 0int,
                Some((first, last)) => if last - first < u64::MAX { last - first + 1 } else { u64::MAX as int },
            },
    {
        match self.bounds {
            None => 0,
            Some((first, last)) => (last - first).saturating_add(1),
        }
    }

    pub fn contains(&self, lsn: Lsn) -> (b: bool)
        ensures
            b == span_contains(self@, lsn),
    {
        match self.bounds {
            None => false,
            Some((first, last)) => first <= lsn && lsn <= last,
        }
    }

    /// Whether an entry numbered `lsn` may follow this range: any number may
    /// start an empty range, and only `last + 1` may extend a non-empty one.
    pub fn can_append(&self, lsn: Lsn) -> (b: bool)
        ensures
            b == match self@ {
                None => true,
                Some((_, last)) => last + 1 == lsn,
            },
    {
        match self.bounds {
            None => true,
            Some((_, last)) => last < u64::MAX && last + 1 == lsn,
        }
    }

    /// The sequence numbers that this range shares with `other`.
    pub fn intersect(&self, other: &LsnRange) -> (r: LsnRange)
        ensures
            r@ == span_intersect(self@, other@),
            r.wf(),
    {
        match (self.bounds, other.bounds) {
            (Some((a_first, a_last)), Some((b_first, b_last))) => {
                let first = if a_first >= b_first { a_first } else { b_first };
                let last = if a_last <= b_last { a_last } else { b_last };
                if first <= last {
                    LsnRange { bounds: Some((first, last)) }
                } else {
                    LsnRange { bounds: None }
                }
            },
            _ => LsnRange { bounds: None },
        }
    }

    /// The range grown by the one entry `lsn`.
    pub fn append(&self, lsn: Lsn) -> (r: LsnRange)
        requires
            self.wf(),
            match self@ {
                None => true,
                Some((_, last)) => last + 1 == lsn,
            },
        ensures
            r@ == span_after_append(self@, lsn),
            r.wf(),
            r@ == Some((match self@ { None => lsn, Some((first, _)) => first }, lsn)),
    {
        match self.bounds {
            None => LsnRange { bounds: Some((lsn, lsn)) },
            Some((first, _)) => LsnRange { bounds: Some((first, lsn)) },
        }
    }
}

/// A walk over a range of sequence numbers, oldest first unless reversed.
pub struct LsnCursor {
    ahead: Option<(Lsn, Lsn)>,
    reversed: bool,
    current: Option<Lsn>,
}

impl LsnCursor {
    /// The span of sequence numbers not yet visited.
    pub closed spec fn bounds(&self) -> Option<(Lsn, Lsn)> {
        self.ahead
    }

    /// Whether the walk runs from newest to oldest.
    pub closed spec fn is_reversed(&self) -> bool {
        self.reversed
    }

    /// The sequence number that the last advance arrived at.
    pub closed spec fn current(&self) -> Option<Lsn> {
        self.current
    }

    /// The span ahead never ends before it starts.
    pub closed spec fn wf(&self) -> bool {
        match self.ahead {
            None => true,
            Some((first, last)) => first <= last,
        }
    }

    /// The sequence numbers still to visit, in the order of the walk.
    pub open spec fn remaining(&self) -> Seq<Lsn> {
        if self.is_reversed() {
            descending(self.bounds())
        } else {
            ascending(self.bounds())
        }
    }

    /// A walk over `range`, oldest first, that has not started yet.
    pub fn new(range: LsnRange) -> (c: LsnCursor)
        requires
            range.wf(),
        ensures
            c.wf(),
            c.bounds() == range@,
            !c.is_reversed(),
            c.current() is None,
    {
        LsnCursor { ahead: range.bounds, reversed: false, current: None }
    }

    /// The same walk in the opposite direction.
    pub fn into_rev(self) -> (c: LsnCursor)
        requires
            self.wf(),
        ensures
            c.wf(),
            c.bounds() == self.bounds(),
            c.is_reversed() == !self.is_reversed(),
            c.current() == self.current(),
    {
        LsnCursor { ahead: self.ahead, reversed: !self.reversed, current: self.current }
    }

    /// Moves to the next sequence number of the walk. Returns `false`, and
    /// changes nothing, where none is left.
    pub fn advance(&mut self) -> (moved: bool)
        requires
            old(self).wf(),
        ensures
            final(self).wf(),
            final(self).is_reversed() == old(self).is_reversed(),
            moved == (old(self).remaining().len() > 0),
            moved == (old(self).bounds() is Some),
            !moved ==> *final(self) == *old(self),
            moved ==> final(self).current() == Some(old(self).remaining()[0]) && final(self).remaining() == old(
                self,
            ).remaining().drop_first(),
            match old(self).bounds() {
                None => true,
                Some((first, last)) => final(self).bounds() == if first == last {
                    None
                } else if old(self).is_reversed() {
                    Some((first, (last - 1) as Lsn))
                } else {
                    Some(((first + 1) as Lsn, last))
                },
            },
    {
        match self.ahead {
            None => false,
            Some((first, last)) => {
                if self.reversed {
                    self.current = Some(last);
                    self.ahead = if first == last { None } else { Some((first, last - 1)) };
                } else {
                    self.current = Some(first);
                    self.ahead = if first == last { None } else { Some((first + 1, last)) };
                }
                assert(self.remaining() =~= old(self).remaining().drop_first());
                true
            },
        }
    }

    /// The sequence number that the last advance arrived at.
    pub fn lsn(&self) -> (lsn: Option<Lsn>)
        ensures
            lsn == self.current(),
    {
        self.current
    }
}

} // verus!
