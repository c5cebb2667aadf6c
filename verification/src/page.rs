//! Fixed-size pages and the sparse, ordered map that holds one version-set of
//! them.

use vstd::prelude::*;

verus! {

/// Size of one page in bytes.
pub const PAGESIZE: usize = 4096;

/// Position of a page in the logical database file.
pub type PageIdx = u64;

/// An immutable buffer of exactly `PAGESIZE` bytes.
pub struct Page {
    bytes: Vec<u8>,
}

impl View for Page {
    type V = Seq<u8>;

    closed spec fn view(&self) -> Seq<u8> {
        self.bytes@
    }
}

impl Page {
    /// A page always holds exactly `PAGESIZE` bytes.
    pub open spec fn wf(&self) -> bool {
        self@.len() == PAGESIZE
    }

    /// Copies a buffer of exactly `PAGESIZE` bytes into a page.
    pub fn from_bytes(buf: &[u8]) -> (page: Page)
        requires
            buf@.len() == PAGESIZE,
        ensures
            page.wf(),
            page@ == buf@,
    {
        Page { bytes: copy_range(buf, 0, PAGESIZE) }
    }

    /// The page's bytes.
    pub fn as_slice(&self) -> (bytes: &[u8])
        ensures
            bytes@ == self@,
    {
        self.bytes.as_slice()
    }

    /// An independent copy of the page.
    pub fn duplicate(&self) -> (page: Page)
        ensures
            page@ == self@,
            page.wf() == self.wf(),
    {
        let n = self.bytes.len();
        Page { bytes: copy_range(self.bytes.as_slice(), 0, n) }
    }
}

/// Copies `src[from..to]` into a fresh vector.
pub fn copy_range(src: &[u8], from: usize, to: usize) -> (out: Vec<u8>)
    requires
        from <= to <= src@.len(),
    ensures
        out@ == src@.subrange(from as int, to as int),
{
    let mut out: Vec<u8> = Vec::new();
    let mut i: usize = from;
    while i < to
        invariant
            from <= i <= to <= src@.len(),
            out@ == src@.subrange(from as int, i as int),
        decreases to - i,
    {
        out.push(src[i]);
        i += 1;
        assert(out@ =~= src@.subrange(from as int, i as int));
    }
    out
}

/// What a buffer holds after its first `src.len()` bytes were overwritten
/// with `src`.
pub open spec fn overlay(dst: Seq<u8>, src: Seq<u8>) -> Seq<u8>
    recommends
        src.len() <= dst.len(),
{
    src + dst.subrange(src.len() as int, dst.len() as int)
}

/// Overwrites the first `to - from` bytes of `dst` with `src[from..to]`.
pub fn copy_into(dst: &mut Vec<u8>, src: &[u8], from: usize, to: usize)
    requires
        from <= to <= src@.len(),
        to - from <= old(dst)@.len(),
    ensures
        final(dst)@ == overlay(old(dst)@, src@.subrange(from as int, to as int)),
{
    let n = to - from;
    let mut i: usize = 0;
    while i < n
        invariant
            from <= to <= src@.len(),
            n == to - from,
            i <= n <= dst@.len(),
            dst@.len() == old(dst)@.len(),
            dst@ == overlay(old(dst)@, src@.subrange(from as int, from + i)),
        decreases n - i,
    {
        dst[i] = src[from + i];
        i += 1;
        assert(dst@ =~= overlay(old(dst)@, src@.subrange(from as int, from + i)));
    }
}

/// Appends `src[from..to]` to `dst`.
pub fn push_range(dst: &mut Vec<u8>, src: &[u8], from: usize, to: usize)
    requires
        from <= to <= src@.len(),
    ensures
        final(dst)@ == old(dst)@ + src@.subrange(from as int, to as int),
{
    let mut i: usize = from;
    assert(dst@ =~= old(dst)@ + src@.subrange(from as int, from as int));
    while i < to
        invariant
            from <= i <= to <= src@.len(),
            dst@ == old(dst)@ + src@.subrange(from as int, i as int),
        decreases to - i,
    {
        dst.push(src[i]);
        i += 1;
        assert(dst@ =~= old(dst)@ + src@.subrange(from as int, i as int));
    }
}

/// Keys in strictly ascending order.
pub open spec fn strictly_ascending(keys: Seq<PageIdx>) -> bool {
    forall|i: int, j: int| 0 <= i < j < keys.len() ==> keys[i] < keys[j]
}

/// A mapping from page index to page, held in ascending key order.
pub struct SparsePages {
    keys: Vec<PageIdx>,
    pages: Vec<Page>,
}

impl View for SparsePages {
    type V = Map<PageIdx, Seq<u8>>;

    open spec fn view(&self) -> Map<PageIdx, Seq<u8>> {
        Map::new(
            |k: PageIdx| self.keys().contains(k),
            |k: PageIdx| self.contents()[self.keys().index_of(k)],
        )
    }
}

impl SparsePages {
    /// The page indexes present, in iteration order.
    pub closed spec fn keys(&self) -> Seq<PageIdx> {
        self.keys@
    }

    /// The pages present, each at the position of its key in `keys()`.
    pub closed spec fn contents(&self) -> Seq<Seq<u8>> {
        Seq::new(self.pages@.len(), |i: int| self.pages@[i]@)
    }

    /// Keys are unique and ascending, and every page has the right size.
    pub open spec fn wf(&self) -> bool {
        &&& self.keys().len() == self.contents().len()
        &&& strictly_ascending(self.keys())
        &&& forall|i: int| 0 <= i < self.contents().len() ==> (#[trigger] self.contents()[i]).len() == PAGESIZE
    }

    /// In a well-formed map every key is found at its own position, and the
    /// view holds exactly the listed keys.
    pub proof fn lemma_view(&self)
        requires
            self.wf(),
        ensures
            forall|i: int| 0 <= i < self.keys().len() ==> self.keys().index_of(#[trigger] self.keys()[i]) == i,
            forall|i: int| 0 <= i < self.keys().len() ==> self@.contains_key(#[trigger] self.keys()[i]) && self@[self.keys()[i]] == self.contents()[i],
            forall|k: PageIdx| #[trigger] self@.contains_key(k) ==> {
                let i = self.keys().index_of(k);
                0 <= i < self.keys().len() && self.keys()[i] == k && self@[k] == self.contents()[i]
            },
            forall|k: PageIdx| #[trigger] self@.contains_key(k) ==> self@[k].len() == PAGESIZE,
    {
        let keys = self.keys();
        assert forall|i: int| 0 <= i < keys.len() implies keys.index_of(#[trigger] keys[i]) == i by {
            let j = keys.index_of(keys[i]);
            assert(0 <= j < keys.len() && keys[j] == keys[i]);
            if j < i {
                assert(keys[j] < keys[i]);
            }
            if i < j {
                assert(keys[i] < keys[j]);
            }
        }
        assert forall|i: int| 0 <= i < keys.len() implies self@.contains_key(#[trigger] keys[i]) by {
            assert(keys.contains(keys[i]));
        }
        assert forall|k: PageIdx| #[trigger] self@.contains_key(k) implies {
            let i = keys.index_of(k);
            0 <= i < keys.len() && keys[i] == k
        } by {
            assert(keys.contains(k));
            let w = choose|w: int| 0 <= w < keys.len() && keys[w] == k;
            assert(keys.index_of(keys[w]) == w);
        }
    }

    /// An empty map.
    pub fn new() -> (pages: SparsePages)
        ensures
            pages.wf(),
            pages@ == Map::<PageIdx, Seq<u8>>::empty(),
            pages.keys().len() == 0,
    {
        let pages = SparsePages { keys: Vec::new(), pages: Vec::new() };
        assert(pages@ =~= Map::<PageIdx, Seq<u8>>::empty());
        pages
    }

    /// Number of pages present.
    pub fn num_pages(&self) -> (n: usize)
        requires
            self.wf(),
        ensures
            n == self.keys().len(),
            n == self@.dom().len(),
            self@.dom().finite(),
            (n == 0) == (self@ == Map::<PageIdx, Seq<u8>>::empty()),
    {
        proof {
            self.lemma_view();
            let keys = self.keys();
            assert(keys.no_duplicates()) by {
                assert forall|i: int, j: int| 0 <= i < keys.len() && 0 <= j < keys.len() && i != j implies keys[i] != keys[j] by {
                    if i < j {
                        assert(keys[i] < keys[j]);
                    } else {
                        assert(keys[j] < keys[i]);
                    }
                }
            }
            keys.unique_seq_to_set();
            assert(keys.to_set() =~= self@.dom());
            if keys.len() == 0 {
                assert(self@ =~= Map::<PageIdx, Seq<u8>>::empty());
            } else {
                assert(self@.contains_key(keys[0]));
            }
        }
        self.keys.len()
    }

    /// The page index at position `i` of the ascending iteration order.
    pub fn key_at(&self, i: usize) -> (k: PageIdx)
        requires
            i < self.keys().len(),
        ensures
            k == self.keys()[i as int],
    {
        self.keys[i]
    }

    /// The page at position `i` of the ascending iteration order.
    pub fn page_at(&self, i: usize) -> (page: &Page)
        requires
            self.wf(),
            i < self.keys().len(),
        ensures
            page@ == self.contents()[i as int],
            page.wf(),
    {
        assert(self.contents()[i as int] == self.pages@[i as int]@);
        &self.pages[i]
    }

    /// Position of the first key that is not below `idx`.
    fn lower_bound(&self, idx: PageIdx) -> (p: usize)
        requires
            self.wf(),
        ensures
            p <= self.keys().len(),
            forall|i: int| 0 <= i < p ==> self.keys()[i] < idx,
            forall|i: int| p <= i < self.keys().len() ==> self.keys()[i] >= idx,
    {
        let mut p: usize = 0;
        while p < self.keys.len() && self.keys[p] < idx
            invariant
                self.wf(),
                p <= self.keys().len(),
                forall|i: int| 0 <= i < p ==> self.keys()[i] < idx,
            decreases self.keys().len() - p,
        {
            p += 1;
        }
        assert forall|i: int| p <= i < self.keys().len() implies self.keys()[i] >= idx by {
            if p < i {
                assert(self.keys()[p as int] < self.keys()[i]);
            }
        }
        p
    }

    /// The page stored under `idx`, if any.
    pub fn get(&self, idx: PageIdx) -> (page: Option<&Page>)
        requires
            self.wf(),
        ensures
            match page {
                Some(p) => self@.contains_key(idx) && p@ == self@[idx] && p.wf(),
                None => !self@.contains_key(idx),
            },
    {
        let p = self.lower_bound(idx);
        proof {
            self.lemma_view();
        }
        if p < self.keys.len() && self.keys[p] == idx {
            Some(&self.pages[p])
        } else {
            None
        }
    }

    /// Stores `page` under `idx`, replacing any page already there.
    pub fn write(&mut self, idx: PageIdx, page: Page)
        requires
            old(self).wf(),
            page.wf(),
        ensures
            final(self).wf(),
            final(self)@ == old(self)@.insert(idx, page@),
    {
        let p = self.lower_bound(idx);
        proof {
            self.lemma_view();
        }
        if p < self.keys.len() && self.keys[p] == idx {
            self.pages[p] = page;
            proof {
                assert(self.contents() =~= old(self).contents().update(p as int, page@));
                self.lemma_view();
                assert(self@ =~= old(self)@.insert(idx, page@));
            }
        } else {
            self.keys.insert(p, idx);
            self.pages.insert(p, page);
            proof {
                let ok = old(self).keys();
                let nk = self.keys();
                assert(nk == ok.insert(p as int, idx));
                assert(self.contents() =~= old(self).contents().insert(p as int, page@));
                assert(strictly_ascending(nk)) by {
                    assert forall|i: int, j: int| 0 <= i < j < nk.len() implies nk[i] < nk[j] by {
                        let oi = if i < p { i } else { i - 1 };
                        let oj = if j < p { j } else { j - 1 };
                        if i != p && j != p {
                            assert(ok[oi] < ok[oj]);
                        }
                    }
                }
                self.lemma_view();
                assert forall|k: PageIdx| self@.contains_key(k) <==> old(self)@.insert(idx, page@).contains_key(k) by {
                    if self@.contains_key(k) {
                        let i = nk.index_of(k);
                        if i != p {
                            let oi = if i < p { i } else { i - 1 };
                            assert(ok[oi] == k);
                        }
                    }
                    if old(self)@.contains_key(k) {
                        let oi = ok.index_of(k);
                        let i = if oi < p { oi } else { oi + 1 };
                        assert(nk[i] == k);
                    }
                    if k == idx {
                        assert(nk[p as int] == k);
                    }
                }
                assert forall|k: PageIdx| self@.contains_key(k) implies self@[k] == old(self)@.insert(idx, page@)[k] by {
                    let i = nk.index_of(k);
                    if i != p {
                        let oi = if i < p { i } else { i - 1 };
                        assert(ok[oi] == k);
                        assert(old(self)@[ok[oi]] == old(self).contents()[oi]);
                    }
                }
                assert(self@ =~= old(self)@.insert(idx, page@));
            }
        }
    }

    /// Copies bytes of the page under `idx`, starting at `offset` within the
    /// page, into the front of `buf`. Returns the number of bytes copied,
    /// which is 0 when the page is absent.
    pub fn read(&self, idx: PageIdx, offset: usize, buf: &mut Vec<u8>) -> (n: usize)
        requires
            self.wf(),
            offset <= PAGESIZE,
        ensures
            !self@.contains_key(idx) ==> n == 0 && final(buf)@ == old(buf)@,
            self@.contains_key(idx) ==> {
                &&& n == if old(buf)@.len() <= PAGESIZE - offset { old(buf)@.len() as int } else { PAGESIZE - offset }
                &&& final(buf)@ == overlay(old(buf)@, self@[idx].subrange(offset as int, offset + n))
            },
    {
        match self.get(idx) {
            None => 0,
            Some(page) => {
                let avail = PAGESIZE - offset;
                let n = if buf.len() <= avail { buf.len() } else { avail };
                copy_into(buf, page.as_slice(), offset, offset + n);
                n
            },
        }
    }

    /// The greatest page index present, if any.
    pub fn max_page_idx(&self) -> (max: Option<PageIdx>)
        requires
            self.wf(),
        ensures
            max == max_key(self@),
            match max {
                None => self@ == Map::<PageIdx, Seq<u8>>::empty(),
                Some(m) => self@.contains_key(m) && is_max_key(self@, m),
            },
    {
        let n = self.keys.len();
        proof {
            self.lemma_view();
            lemma_max_key(self@);
        }
        if n == 0 {
            assert(forall|k: PageIdx| !self@.contains_key(k));
            assert(self@ =~= Map::<PageIdx, Seq<u8>>::empty());
            None
        } else {
            proof {
                let m = self.keys()[n - 1];
                assert(self@.contains_key(m));
                assert forall|k: PageIdx| self@.contains_key(k) implies k <= m by {
                    let i = self.keys().index_of(k);
                    if i < n - 1 {
                        assert(self.keys()[i] < self.keys()[n - 1]);
                    }
                }
                assert(is_max_key(self@, m));
            }
            Some(self.keys[n - 1])
        }
    }

    /// Removes every page.
    pub fn clear(&mut self)
        ensures
            final(self).wf(),
            final(self)@ == Map::<PageIdx, Seq<u8>>::empty(),
    {
        self.keys.clear();
        self.pages.clear();
        assert(self@ =~= Map::<PageIdx, Seq<u8>>::empty());
    }

    /// An independent copy of the map.
    pub fn duplicate(&self) -> (copy: SparsePages)
        requires
            self.wf(),
        ensures
            copy.wf(),
            copy@ == self@,
            copy.keys() == self.keys(),
            copy.contents() == self.contents(),
    {
        let mut keys: Vec<PageIdx> = Vec::new();
        let mut pages: Vec<Page> = Vec::new();
        let mut i: usize = 0;
        while i < self.keys.len()
            invariant
                self.wf(),
                i <= self.keys@.len(),
                keys@ == self.keys@.subrange(0, i as int),
                pages@.len() == i,
                forall|j: int| 0 <= j < i ==> (#[trigger] pages@[j])@ == self.pages@[j]@,
            decreases self.keys@.len() - i,
        {
            assert(self.contents()[i as int] == self.pages@[i as int]@);
            keys.push(self.keys[i]);
            pages.push(self.pages[i].duplicate());
            i += 1;
            assert(keys@ =~= self.keys@.subrange(0, i as int));
        }
        let copy = SparsePages { keys, pages };
        proof {
            assert(copy.keys() =~= self.keys());
            assert(copy.contents() =~= self.contents());
            assert(copy@ =~= self@);
        }
        copy
    }
}

/// The greatest key of a map, or `None` for a map without keys.
pub open spec fn max_key(m: Map<PageIdx, Seq<u8>>) -> Option<PageIdx> {
    if exists|k: PageIdx| m.contains_key(k) && is_max_key(m, k) {
        Some(choose|k: PageIdx| m.contains_key(k) && is_max_key(m, k))
    } else {
        None
    }
}

/// `k` bounds every key of `m` from above.
pub open spec fn is_max_key(m: Map<PageIdx, Seq<u8>>, k: PageIdx) -> bool {
    forall|j: PageIdx| m.contains_key(j) ==> j <= k
}

/// `max_key` names the one key that is present and bounds all others; it is
/// `None` only where the map has no greatest key.
pub proof fn lemma_max_key(m: Map<PageIdx, Seq<u8>>)
    ensures
        forall|k: PageIdx| m.contains_key(k) && is_max_key(m, k) ==> max_key(m) == Some(k),
        max_key(m) is None ==> forall|k: PageIdx| m.contains_key(k) ==> !is_max_key(m, k),
{
    assert forall|k: PageIdx| m.contains_key(k) && is_max_key(m, k) implies max_key(m) == Some(k) by {
        let c = choose|c: PageIdx| m.contains_key(c) && is_max_key(m, c);
        assert(c <= k && k <= c);
    }
}

} // verus!
