//! Handle registry: a generic store assigning stable opaque identities to a
//! dynamic collection of logical objects.
//!
//! The registry supports allocate-before-fill (a handle is reserved first and
//! its entry created later), update-in-place, and mark-and-sweep removal:
//! removal only flags an entry, which stays visible until the next
//! reconciliation point sweeps it, so in-flight per-frame references remain
//! valid until a defined boundary. Entries keep their insertion order, which
//! makes packing into GPU buffers deterministic.

use vstd::prelude::*;

verus! {

use vstd::pervasive::unreached;

/// Opaque identity for a logical object inside a registry. A handle is valid
/// only for the registry that issued it; that is a caller invariant.
#[derive(Clone, Copy, Debug, PartialEq, Eq, Structural)]
pub struct Handle {
    pub idx: usize,
}

/// The mathematical image of one registry entry.
pub struct Entry<V> {
    pub handle_idx: usize,
    pub value: V,
    pub dead: bool,
}

/// All handle indices in `s` are distinct.
pub open spec fn distinct_handles<V>(s: Seq<Entry<V>>) -> bool {
    forall|i: int, j: int|
        0 <= i < j < s.len() ==> (#[trigger] s[i]).handle_idx != (#[trigger] s[j]).handle_idx
}

/// Some entry of `s` carries the handle index `hidx`.
pub open spec fn contains_handle<V>(s: Seq<Entry<V>>, hidx: usize) -> bool {
    exists|i: int| 0 <= i < s.len() && (#[trigger] s[i]).handle_idx == hidx
}

/// Some entry of `s` carries `hidx` and is not flagged for removal.
pub open spec fn has_live<V>(s: Seq<Entry<V>>, hidx: usize) -> bool {
    exists|i: int| 0 <= i < s.len() && (#[trigger] s[i]).handle_idx == hidx && !s[i].dead
}

/// What remains of `s` after sweeping the entries flagged for removal:
/// the unflagged entries, in order.
pub open spec fn swept<V>(s: Seq<Entry<V>>) -> Seq<Entry<V>>
    decreases s.len(),
{
    if s.len() == 0 {
        s
    } else if s.last().dead {
        swept(s.drop_last())
    } else {
        swept(s.drop_last()).push(s.last())
    }
}

/// The values of the entries that a sweep of `s` drops, in order.
pub open spec fn swept_out<V>(s: Seq<Entry<V>>) -> Seq<V>
    decreases s.len(),
{
    if s.len() == 0 {
        Seq::empty()
    } else if s.last().dead {
        swept_out(s.drop_last()).push(s.last().value)
    } else {
        swept_out(s.drop_last())
    }
}

/// A sweep never grows the entry list.
pub proof fn lemma_swept_len<V>(s: Seq<Entry<V>>)
    ensures
        swept(s).len() <= s.len(),
    decreases s.len(),
{
    if s.len() > 0 {
        lemma_swept_len(s.drop_last());
    }
}

/// A sweep keeps exactly the unflagged entries: every surviving entry is one
/// of the old unflagged entries, distinctness of handles is preserved, and a
/// handle survives if and only if it had an unflagged entry.
pub proof fn lemma_swept_props<V>(s: Seq<Entry<V>>)
    requires
        distinct_handles(s),
    ensures
        distinct_handles(swept(s)),
        forall|j: int| 0 <= j < swept(s).len() ==> !(#[trigger] swept(s)[j]).dead,
        forall|j: int|
            0 <= j < swept(s).len() ==> exists|i: int|
                0 <= i < s.len() && s[i] == #[trigger] swept(s)[j],
        forall|hidx: usize| contains_handle(swept(s), hidx) <==> has_live(s, hidx),
    decreases s.len(),
{
    if s.len() == 0 {
        assert forall|hidx: usize| contains_handle(swept(s), hidx) <==> has_live(s, hidx) by {
            if contains_handle(swept(s), hidx) {
                let i = choose|i: int| 0 <= i < swept(s).len() && swept(s)[i].handle_idx == hidx;
                assert(false);
            }
            if has_live(s, hidx) {
                let i = choose|i: int| 0 <= i < s.len() && s[i].handle_idx == hidx && !s[i].dead;
                assert(false);
            }
        }
    } else {
        let t = s.drop_last();
        let last = s.last();
        assert(distinct_handles(t)) by {
            assert forall|i: int, j: int|
                0 <= i < j < t.len() implies (#[trigger] t[i]).handle_idx != (#[trigger] t[j]).handle_idx by {
                assert(t[i] == s[i] && t[j] == s[j]);
            }
        }
        lemma_swept_props(t);
        if last.dead {
            assert(swept(s) == swept(t));
            assert forall|j: int|
                0 <= j < swept(s).len() implies exists|i: int|
                    0 <= i < s.len() && s[i] == #[trigger] swept(s)[j] by {
                let i = choose|i: int| 0 <= i < t.len() && t[i] == swept(t)[j];
                assert(s[i] == t[i]);
            }
            assert forall|hidx: usize| contains_handle(swept(s), hidx) <==> has_live(s, hidx) by {
                if contains_handle(swept(s), hidx) {
                    assert(has_live(t, hidx));
                    let i = choose|i: int| 0 <= i < t.len() && t[i].handle_idx == hidx && !t[i].dead;
                    assert(s[i] == t[i]);
                    assert(has_live(s, hidx));
                }
                if has_live(s, hidx) {
                    let i = choose|i: int| 0 <= i < s.len() && s[i].handle_idx == hidx && !s[i].dead;
                    // The last entry is flagged, so the live occurrence is
                    // among the earlier entries.
                    assert(i < t.len());
                    assert(t[i] == s[i]);
                    assert(has_live(t, hidx));
                }
            }
        } else {
            let w = swept(t);
            assert(swept(s) == w.push(last));
            // Every surviving entry is an old unflagged entry.
            assert forall|j: int|
                0 <= j < swept(s).len() implies exists|i: int|
                    0 <= i < s.len() && s[i] == #[trigger] swept(s)[j] by {
                if j < w.len() {
                    let i = choose|i: int| 0 <= i < t.len() && t[i] == w[j];
                    assert(s[i] == t[i]);
                    assert(swept(s)[j] == w[j]);
                } else {
                    assert(swept(s)[j] == last);
                    assert(s[s.len() - 1] == last);
                }
            }
            // No survivor is flagged.
            assert forall|j: int| 0 <= j < swept(s).len() implies !(#[trigger] swept(s)[j]).dead by {
                if j < w.len() {
                    assert(swept(s)[j] == w[j]);
                } else {
                    assert(swept(s)[j] == last);
                }
            }
            // The last handle does not occur among the earlier entries.
            assert(!contains_handle(t, last.handle_idx)) by {
                if contains_handle(t, last.handle_idx) {
                    let i = choose|i: int| 0 <= i < t.len() && t[i].handle_idx == last.handle_idx;
                    assert(s[i].handle_idx == s[s.len() - 1].handle_idx);
                    assert(false);
                }
            }
            assert(distinct_handles(swept(s))) by {
                assert forall|i: int, j: int|
                    0 <= i < j < swept(s).len() implies (#[trigger] swept(s)[i]).handle_idx
                    != (#[trigger] swept(s)[j]).handle_idx by {
                    if j < w.len() {
                        assert(swept(s)[i] == w[i] && swept(s)[j] == w[j]);
                    } else {
                        assert(swept(s)[j] == last);
                        assert(swept(s)[i] == w[i]);
                        if w[i].handle_idx == last.handle_idx {
                            assert(contains_handle(swept(t), last.handle_idx));
                            assert(has_live(t, last.handle_idx));
                            let k = choose|k: int|
                                0 <= k < t.len() && t[k].handle_idx == last.handle_idx && !t[k].dead;
                            assert(contains_handle(t, last.handle_idx));
                            assert(false);
                        }
                    }
                }
            }
            assert forall|hidx: usize| contains_handle(swept(s), hidx) <==> has_live(s, hidx) by {
                if contains_handle(swept(s), hidx) {
                    let j = choose|j: int| 0 <= j < swept(s).len() && swept(s)[j].handle_idx == hidx;
                    if j < w.len() {
                        assert(swept(s)[j] == w[j]);
                        assert(contains_handle(w, hidx));
                        assert(has_live(t, hidx));
                        let i = choose|i: int| 0 <= i < t.len() && t[i].handle_idx == hidx && !t[i].dead;
                        assert(s[i] == t[i]);
                        assert(has_live(s, hidx));
                    } else {
                        assert(swept(s)[j] == last);
                        assert(s[s.len() - 1] == last && !last.dead);
                        assert(has_live(s, hidx));
                    }
                }
                if has_live(s, hidx) {
                    let i = choose|i: int| 0 <= i < s.len() && s[i].handle_idx == hidx && !s[i].dead;
                    if i < t.len() {
                        assert(t[i] == s[i]);
                        assert(has_live(t, hidx));
                        assert(contains_handle(w, hidx));
                        let j = choose|j: int| 0 <= j < w.len() && w[j].handle_idx == hidx;
                        assert(swept(s)[j] == w[j]);
                        assert(contains_handle(swept(s), hidx));
                    } else {
                        assert(s[i] == last);
                        assert(swept(s)[w.len() as int] == last);
                        assert(contains_handle(swept(s), hidx));
                    }
                }
            }
        }
    }
}

/// Generic handle-to-object store with stable insertion order and deferred
/// removal.
pub struct ResourceRegistry<V> {
    next_idx: usize,
    idxs: Vec<usize>,
    vals: Vec<V>,
    dead: Vec<bool>,
}

impl<V> ResourceRegistry<V> {
    /// The parallel internal columns agree in length.
    pub closed spec fn inv(self) -> bool {
        &&& self.vals@.len() == self.idxs@.len()
        &&& self.dead@.len() == self.idxs@.len()
    }

    /// The entries currently stored (filled and not yet swept), in insertion
    /// order. Entries flagged for removal are still present.
    pub closed spec fn entries(self) -> Seq<Entry<V>> {
        Seq::new(
            self.idxs@.len(),
            |i: int| Entry { handle_idx: self.idxs@[i], value: self.vals@[i], dead: self.dead@[i] },
        )
    }

    /// How many handles this registry has issued so far.
    pub closed spec fn next(self) -> nat {
        self.next_idx as nat
    }

    /// `h` was issued by this registry.
    pub open spec fn issued(self, h: Handle) -> bool {
        (h.idx as nat) < self.next()
    }

    /// An entry for `h` exists (it may be flagged for removal).
    pub open spec fn contains(self, h: Handle) -> bool {
        contains_handle(self.entries(), h.idx)
    }

    /// The position of the entry for `h`, when one exists.
    pub open spec fn index_of(self, h: Handle) -> int {
        choose|i: int| 0 <= i < self.entries().len() && (#[trigger] self.entries()[i]).handle_idx == h.idx
    }

    /// An entry for `h` exists and is not flagged for removal.
    pub open spec fn live(self, h: Handle) -> bool {
        self.contains(h) && !self.entries()[self.index_of(h)].dead
    }

    /// Well-formed: entry handles are distinct and were all issued.
    pub open spec fn wf(self) -> bool {
        &&& self.inv()
        &&& distinct_handles(self.entries())
        &&& forall|i: int|
            0 <= i < self.entries().len() ==> ((#[trigger] self.entries()[i]).handle_idx as nat) < self.next()
    }

    /// An empty registry that has issued no handles.
    pub fn new() -> (r: Self)
        ensures
            r.wf(),
            r.entries() =~= Seq::<Entry<V>>::empty(),
            r.next() == 0,
    {
        ResourceRegistry { next_idx: 0, idxs: Vec::new(), vals: Vec::new(), dead: Vec::new() }
    }

    /// Reserves a fresh identity. No entry exists for it until [`Self::insert`]
    /// is called, so it is safe to hand the handle out before the value is
    /// available.
    pub fn allocate(&mut self) -> (h: Handle)
        requires
            old(self).wf(),
            old(self).next() < usize::MAX,
        ensures
            final(self).wf(),
            final(self).entries() == old(self).entries(),
            final(self).next() == old(self).next() + 1,
            h.idx as nat == old(self).next(),
            final(self).issued(h),
            !final(self).contains(h),
    {
        let h = Handle { idx: self.next_idx };
        self.next_idx = self.next_idx + 1;
        proof {
            assert(self.entries() =~= old(self).entries());
            if contains_handle(self.entries(), h.idx) {
                let i = choose|i: int|
                    0 <= i < self.entries().len() && self.entries()[i].handle_idx == h.idx;
                assert(false);
            }
        }
        h
    }

    /// Locates the entry for `h`, if any.
    fn find(&self, h: Handle) -> (r: Option<usize>)
        requires
            self.wf(),
        ensures
            match r {
                Some(i) => self.contains(h) && i as int == self.index_of(h),
                None => !self.contains(h),
            },
    {
        let n = self.idxs.len();
        let mut i: usize = 0;
        while i < n
            invariant
                self.wf(),
                n == self.idxs@.len(),
                i <= n,
                forall|k: int| 0 <= k < i ==> (#[trigger] self.entries()[k]).handle_idx != h.idx,
            decreases n - i,
        {
            if self.idxs[i] == h.idx {
                proof {
                    assert(self.entries()[i as int].handle_idx == h.idx);
                    let j = self.index_of(h);
                    assert(0 <= j < self.entries().len() && self.entries()[j].handle_idx == h.idx);
                    if j != i as int {
                        assert(false);
                    }
                }
                return Some(i);
            }
            i = i + 1;
        }
        proof {
            if self.contains(h) {
                let k = choose|k: int|
                    0 <= k < self.entries().len() && self.entries()[k].handle_idx == h.idx;
                assert(false);
            }
        }
        None
    }

    /// True when an entry for `h` exists, flagged or not.
    pub fn contains_entry(&self, h: Handle) -> (r: bool)
        requires
            self.wf(),
        ensures
            r == self.contains(h),
    {
        self.find(h).is_some()
    }

    /// True when an entry for `h` exists and is not flagged for removal.
    pub fn contains_live(&self, h: Handle) -> (r: bool)
        requires
            self.wf(),
        ensures
            r == self.live(h),
    {
        match self.find(h) {
            Some(i) => !self.dead[i],
            None => false,
        }
    }

    /// Creates or overwrites the entry for `h`. Overwriting clears any
    /// removal flag. The handle must have been issued by this registry;
    /// that is a caller invariant, not a runtime check.
    pub fn insert(&mut self, h: Handle, v: V)
        requires
            old(self).wf(),
            old(self).issued(h),
        ensures
            final(self).wf(),
            final(self).next() == old(self).next(),
            final(self).contains(h),
            final(self).live(h),
            old(self).contains(h) ==> final(self).entries() == old(self).entries().update(
                old(self).index_of(h),
                (Entry { handle_idx: h.idx, value: v, dead: false }),
            ),
            !old(self).contains(h) ==> final(self).entries() == old(self).entries().push(
                (Entry { handle_idx: h.idx, value: v, dead: false }),
            ),
    {
        let found = self.find(h);
        match found {
            Some(i) => {
                self.vals[i] = v;
                self.dead[i] = false;
                proof {
                    let j = old(self).index_of(h);
                    assert(self.entries() =~= old(self).entries().update(
                        j,
                        Entry { handle_idx: h.idx, value: v, dead: false },
                    ));
                    lemma_find_self(*self, h, j);
                }
            },
            None => {
                self.idxs.push(h.idx);
                self.vals.push(v);
                self.dead.push(false);
                proof {
                    assert(self.entries() =~= old(self).entries().push(
                        Entry { handle_idx: h.idx, value: v, dead: false },
                    ));
                    let n = old(self).entries().len() as int;
                    assert(self.entries()[n].handle_idx == h.idx);
                    assert(distinct_handles(self.entries())) by {
                        assert forall|i: int, j: int|
                            0 <= i < j < self.entries().len() implies (#[trigger] self.entries()[i]).handle_idx
                            != (#[trigger] self.entries()[j]).handle_idx by {
                            if j < n {
                                assert(self.entries()[i] == old(self).entries()[i]);
                                assert(self.entries()[j] == old(self).entries()[j]);
                            } else {
                                assert(self.entries()[i] == old(self).entries()[i]);
                                if old(self).entries()[i].handle_idx == h.idx {
                                    assert(contains_handle(old(self).entries(), h.idx));
                                    assert(false);
                                }
                            }
                        }
                    }
                    lemma_find_self(*self, h, n);
                }
            },
        }
    }

    /// Read access to the entry for `h`, which must exist and not be flagged
    /// for removal.
    pub fn get(&self, h: Handle) -> (r: &V)
        requires
            self.wf(),
            self.live(h),
        ensures
            *r == self.entries()[self.index_of(h)].value,
    {
        match self.find(h) {
            Some(i) => &self.vals[i],
            None => unreached(),
        }
    }

    /// Flags the entry for `h` as pending removal. The entry stays visible
    /// to [`Self::values`] and [`Self::get`]'s existence check until the next
    /// sweep.
    pub fn mark_removed(&mut self, h: Handle)
        requires
            old(self).wf(),
            old(self).contains(h),
        ensures
            final(self).wf(),
            final(self).next() == old(self).next(),
            final(self).entries() == old(self).entries().update(
                old(self).index_of(h),
                (Entry {
                    handle_idx: h.idx,
                    value: old(self).entries()[old(self).index_of(h)].value,
                    dead: true,
                }),
            ),
    {
        let found = self.find(h);
        match found {
            Some(i) => {
                self.dead[i] = true;
                proof {
                    let j = old(self).index_of(h);
                    assert(self.entries() =~= old(self).entries().update(
                        j,
                        Entry {
                            handle_idx: h.idx,
                            value: old(self).entries()[j].value,
                            dead: true,
                        },
                    ));
                }
            },
            None => unreached(),
        }
    }

    /// Sweeps out every entry flagged for removal and returns their values,
    /// in insertion order, for caller-side cleanup of associated resources.
    /// Afterwards no swept handle is present any more.
    pub fn remove_all_dead(&mut self) -> (removed: Vec<V>)
        requires
            old(self).wf(),
        ensures
            final(self).wf(),
            final(self).next() == old(self).next(),
            final(self).entries() == swept(old(self).entries()),
            removed@ == swept_out(old(self).entries()),
            forall|h: Handle| final(self).contains(h) <==> has_live(old(self).entries(), h.idx),
            forall|h: Handle|
                old(self).contains(h) && old(self).entries()[old(self).index_of(h)].dead
                    ==> !final(self).contains(h),
    {
        let ghost s = old(self).entries();
        let ghost oi = old(self).idxs@;
        let ghost ov = old(self).vals@;
        let ghost od = old(self).dead@;
        let n = self.idxs.len();
        let mut new_idxs: Vec<usize> = Vec::new();
        let mut new_vals: Vec<V> = Vec::new();
        let mut new_dead: Vec<bool> = Vec::new();
        let mut removed: Vec<V> = Vec::new();
        let mut i: usize = 0;
        while i < n
            invariant
                old(self).wf(),
                s == old(self).entries(),
                oi == old(self).idxs@,
                ov == old(self).vals@,
                od == old(self).dead@,
                n == s.len(),
                i <= n,
                self.next_idx == old(self).next_idx,
                self.idxs@ =~= oi.subrange(i as int, n as int),
                self.vals@ =~= ov.subrange(i as int, n as int),
                self.dead@ =~= od.subrange(i as int, n as int),
                new_vals@.len() == new_idxs@.len(),
                new_dead@.len() == new_idxs@.len(),
                Seq::new(
                    new_idxs@.len(),
                    |k: int| Entry {
                        handle_idx: new_idxs@[k],
                        value: new_vals@[k],
                        dead: new_dead@[k],
                    },
                ) =~= swept(s.take(i as int)),
                removed@ =~= swept_out(s.take(i as int)),
            decreases n - i,
        {
            proof {
                assert(s.take(i + 1).drop_last() =~= s.take(i as int));
                assert(s.take(i + 1).last() == s[i as int]);
                assert(s[i as int] == (Entry {
                    handle_idx: oi[i as int],
                    value: ov[i as int],
                    dead: od[i as int],
                }));
                assert(self.idxs@[0] == oi[i as int]);
                assert(self.vals@[0] == ov[i as int]);
                assert(self.dead@[0] == od[i as int]);
            }
            let idx = self.idxs.remove(0);
            let v = self.vals.remove(0);
            let d = self.dead.remove(0);
            if d {
                removed.push(v);
            } else {
                new_idxs.push(idx);
                new_vals.push(v);
                new_dead.push(false);
                proof {
                    assert(s[i as int].dead == false);
                }
            }
            i = i + 1;
            proof {
                assert(self.idxs@ =~= oi.subrange(i as int, n as int));
                assert(self.vals@ =~= ov.subrange(i as int, n as int));
                assert(self.dead@ =~= od.subrange(i as int, n as int));
            }
        }
        proof {
            assert(s.take(n as int) =~= s);
        }
        self.idxs = new_idxs;
        self.vals = new_vals;
        self.dead = new_dead;
        proof {
            assert(self.entries() =~= swept(s));
            lemma_swept_props(s);
            assert forall|i: int|
                0 <= i < self.entries().len() implies ((#[trigger] self.entries()[i]).handle_idx as nat)
                < self.next() by {
                let k = choose|k: int| 0 <= k < s.len() && s[k] == self.entries()[i];
            }
            assert forall|h: Handle|
                old(self).contains(h) && old(self).entries()[old(self).index_of(h)].dead
                    implies !self.contains(h) by {
                if self.contains(h) {
                    assert(has_live(s, h.idx));
                    let k = choose|k: int| 0 <= k < s.len() && s[k].handle_idx == h.idx && !s[k].dead;
                    let j = old(self).index_of(h);
                    assert(0 <= j < s.len() && s[j].handle_idx == h.idx);
                    if k != j {
                        assert(false);
                    }
                }
            }
        }
        removed
    }

    /// Number of entries currently stored, flagged or not.
    pub fn count(&self) -> (r: usize)
        ensures
            r as nat == self.entries().len(),
    {
        self.idxs.len()
    }

    /// The stored values in insertion order, entries flagged for removal
    /// included (they disappear at the next sweep).
    pub fn values(&self) -> (r: &Vec<V>)
        requires
            self.wf(),
        ensures
            r@.len() == self.entries().len(),
            forall|i: int| 0 <= i < r@.len() ==> r@[i] == (#[trigger] self.entries()[i]).value,
    {
        &self.vals
    }
}

/// After an insert at position `j`, that position is where `h` is found.
proof fn lemma_find_self<V>(r: ResourceRegistry<V>, h: Handle, j: int)
    requires
        r.inv(),
        distinct_handles(r.entries()),
        0 <= j < r.entries().len(),
        r.entries()[j].handle_idx == h.idx,
    ensures
        r.contains(h),
        r.index_of(h) == j,
        !r.entries()[r.index_of(h)].dead ==> r.live(h),
{
    assert(contains_handle(r.entries(), h.idx));
    let i = r.index_of(h);
    assert(0 <= i < r.entries().len() && r.entries()[i].handle_idx == h.idx);
    if i != j {
        assert(false);
    }
}

} // verus!
