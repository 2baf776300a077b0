//! The slot store itself: a dense slot array whose cells hold either a value
//! or a free-list link, an occupancy bitmap that is the single source of
//! truth for which interpretation applies, and a scalar head of the free
//! chain. Freed slots are reused most recently freed first.

use vstd::prelude::*;

use core::marker::PhantomData;
use smallbitvec::SmallBitVec;

use crate::bits::bits_of;
use crate::handle::Handle;

verus! {

/// One storage cell: either an initialized value, or a link to the next free
/// slot (the slot count when the chain ends there).
///
/// A slot does not record which interpretation applies: the occupancy bitmap
/// is consulted first, and only then is a slot read as a value or as a link.
enum Slot<V> {
    Occupied(V),
    Free(usize),
}

/// The packed storage: slot array, occupancy bitmap, head of the free list,
/// and a ghost image of the free chain in the order it is threaded.
struct Raw<V> {
    /// The next index to reuse, or the slot count when the next insert must
    /// append a new slot.
    next_free: usize,
    /// Occupancy bitmap; `true` marks a slot that holds a value.
    bitvec: SmallBitVec,
    /// The slots.
    vec: Vec<Slot<V>>,
    /// The indices reached by following the free chain from `next_free`,
    /// head first.
    free: Ghost<Seq<usize>>,
}

/// The indices below `n` whose bit is set, ascending.
spec fn occ_ix(bits: Seq<bool>, n: int) -> Seq<usize>
    decreases n,
{
    if n <= 0 {
        Seq::empty()
    } else if bits[n - 1] {
        occ_ix(bits, n - 1).push((n - 1) as usize)
    } else {
        occ_ix(bits, n - 1)
    }
}

proof fn lemma_occ_ix_props(bits: Seq<bool>, n: int)
    requires
        0 <= n <= bits.len(),
        n <= usize::MAX,
    ensures
        forall|j: int|
            0 <= j < occ_ix(bits, n).len() ==> (#[trigger] occ_ix(bits, n)[j]) < n && bits[occ_ix(
                bits,
                n,
            )[j] as int],
        forall|a: int, b: int|
            #![trigger occ_ix(bits, n)[a], occ_ix(bits, n)[b]]
            0 <= a < b < occ_ix(bits, n).len() ==> occ_ix(bits, n)[a] < occ_ix(bits, n)[b],
        forall|x: int|
            0 <= x < n && #[trigger] bits[x] ==> occ_ix(bits, n).contains(x as usize),
    decreases n,
{
    if n > 0 {
        lemma_occ_ix_props(bits, n - 1);
        let prev = occ_ix(bits, n - 1);
        let cur = occ_ix(bits, n);
        if bits[n - 1] {
            assert(cur == prev.push((n - 1) as usize));
            assert forall|j: int| 0 <= j < cur.len() implies cur[j] < n && bits[cur[j] as int] by {
                if j < prev.len() {
                    assert(prev[j] < n - 1);
                } else {
                    assert(cur[j] == (n - 1) as usize);
                }
            }
            assert forall|a: int, b: int| 0 <= a < b < cur.len() implies cur[a] < cur[b] by {
                if b < prev.len() {
                    assert(prev[a] < prev[b]);
                } else {
                    assert(cur[a] == prev[a] && prev[a] < n - 1);
                    assert(cur[b] == (n - 1) as usize);
                }
            }
            assert forall|x: int| 0 <= x < n && bits[x] implies cur.contains(x as usize) by {
                if x < n - 1 {
                    let j = choose|j: int| 0 <= j < prev.len() && prev[j] == x as usize;
                    assert(cur[j] == x as usize);
                } else {
                    assert(cur[cur.len() - 1] == x as usize);
                }
            }
        } else {
            assert(cur == prev);
        }
    }
}

/// The indices below `n` whose bit is clear, ascending.
spec fn unocc_ix(bits: Seq<bool>, n: int) -> Seq<usize>
    decreases n,
{
    if n <= 0 {
        Seq::empty()
    } else if !bits[n - 1] {
        unocc_ix(bits, n - 1).push((n - 1) as usize)
    } else {
        unocc_ix(bits, n - 1)
    }
}

proof fn lemma_unocc_ix_props(bits: Seq<bool>, n: int)
    requires
        0 <= n <= bits.len(),
        n <= usize::MAX,
    ensures
        occ_ix(bits, n).len() + unocc_ix(bits, n).len() == n,
        forall|j: int|
            0 <= j < unocc_ix(bits, n).len() ==> (#[trigger] unocc_ix(bits, n)[j]) < n && !bits[
                unocc_ix(bits, n)[j] as int
            ],
        forall|a: int, b: int|
            #![trigger unocc_ix(bits, n)[a], unocc_ix(bits, n)[b]]
            0 <= a < b < unocc_ix(bits, n).len() ==> unocc_ix(bits, n)[a] < unocc_ix(bits, n)[b],
        forall|x: int|
            0 <= x < n && !(#[trigger] bits[x]) ==> unocc_ix(bits, n).contains(x as usize),
    decreases n,
{
    if n > 0 {
        lemma_unocc_ix_props(bits, n - 1);
        let prev = unocc_ix(bits, n - 1);
        let cur = unocc_ix(bits, n);
        if !bits[n - 1] {
            assert(cur == prev.push((n - 1) as usize));
            assert forall|j: int| 0 <= j < cur.len() implies cur[j] < n && !bits[cur[j] as int] by {
                if j < prev.len() {
                    assert(prev[j] < n - 1);
                } else {
                    assert(cur[j] == (n - 1) as usize);
                }
            }
            assert forall|a: int, b: int| 0 <= a < b < cur.len() implies cur[a] < cur[b] by {
                if b < prev.len() {
                    assert(prev[a] < prev[b]);
                } else {
                    assert(cur[a] == prev[a] && prev[a] < n - 1);
                    assert(cur[b] == (n - 1) as usize);
                }
            }
            assert forall|x: int| 0 <= x < n && !bits[x] implies cur.contains(x as usize) by {
                if x < n - 1 {
                    let j = choose|j: int| 0 <= j < prev.len() && prev[j] == x as usize;
                    assert(cur[j] == x as usize);
                } else {
                    assert(cur[cur.len() - 1] == x as usize);
                }
            }
        } else {
            assert(cur == prev);
        }
    }
}

impl<V> Raw<V> {
    spec fn bits(&self) -> Seq<bool> {
        bits_of(self.bitvec)
    }

    spec fn slots(&self) -> Seq<Slot<V>> {
        self.vec@
    }

    /// The link stored in the `j`th slot of the free chain: the next chain
    /// member, or the slot count at the end of the chain.
    spec fn chain_next(&self, j: int) -> int {
        if j + 1 < self.free@.len() {
            self.free@[j + 1] as int
        } else {
            self.vec@.len() as int
        }
    }

    spec fn wf(&self) -> bool {
        let n = self.vec@.len() as int;
        &&& n <= usize::MAX
        &&& self.bits().len() == n
        &&& (forall|i: int|
            #![trigger self.slots()[i]]
            #![trigger self.bits()[i]]
            0 <= i < n ==> (self.bits()[i] <==> self.slots()[i] is Occupied))
        &&& (if self.free@.len() == 0 {
            self.next_free == n
        } else {
            self.next_free == self.free@[0]
        })
        &&& (forall|j: int|
            #![trigger self.free@[j]]
            0 <= j < self.free@.len() ==> {
                &&& self.free@[j] < n
                &&& !self.bits()[self.free@[j] as int]
                &&& self.slots()[self.free@[j] as int] is Free
                &&& self.slots()[self.free@[j] as int]->Free_0 == self.chain_next(j)
            })
        &&& self.free@.no_duplicates()
        &&& (forall|i: int|
            #![trigger self.bits()[i]]
            0 <= i < n && !self.bits()[i] ==> self.free@.contains(i as usize))
    }

    /// The occupied entries, keyed by index.
    spec fn view(&self) -> Map<usize, V> {
        Map::new(
            |i: usize| i < self.vec@.len() && self.bits()[i as int],
            |i: usize| self.slots()[i as int]->Occupied_0,
        )
    }

    /// The index the next insert uses: the head of the free chain, or the
    /// slot count when no freed slot remains.
    spec fn next_slot(&self) -> int {
        if self.free@.len() == 0 {
            self.vec@.len() as int
        } else {
            self.free@[0] as int
        }
    }

    fn empty() -> (r: Self)
        ensures
            r.wf(),
            r.view() == Map::<usize, V>::empty(),
            r.vec@.len() == 0,
            r.free@ == Seq::<usize>::empty(),
    {
        let r = Raw {
            next_free: 0,
            bitvec: SmallBitVec::new(),
            vec: Vec::new(),
            free: Ghost(Seq::empty()),
        };
        proof {
            assert(r.view() =~= Map::<usize, V>::empty());
        }
        r
    }

    fn insert_value(&mut self, v: V) -> (i: usize)
        requires
            old(self).wf(),
        ensures
            final(self).wf(),
            i == old(self).next_slot(),
            i < final(self).vec@.len(),
            !old(self).view().dom().contains(i),
            final(self).view() == old(self).view().insert(i, v),
            old(self).free@.len() == 0 ==> final(self).vec@.len() == old(self).vec@.len() + 1
                && final(self).free@ == old(self).free@,
            old(self).free@.len() > 0 ==> final(self).vec@.len() == old(self).vec@.len()
                && final(self).free@ == old(self).free@.skip(1),
    {
        let ghost pre = *self;
        let i = self.next_free;
        let n = self.vec.len();
        if i == n {
            // No freed slot remains: append.
            proof {
                assert(pre.free@.len() == 0) by {
                    if pre.free@.len() > 0 {
                        assert(pre.free@[0] < n);
                    }
                }
            }
            self.vec.push(Slot::Occupied(v));
            self.next_free = self.vec.len();
            self.bitvec.push(true);
            proof {
                assert forall|x: int| 0 <= x < n + 1 && !self.bits()[x] implies self
                    .free@.contains(x as usize) by {
                    if x < n {
                        assert(!pre.bits()[x]);
                    }
                }
                assert(self.view() =~= pre.view().insert(i, v));
            }
        } else {
            // Reuse the head of the free chain.
            let mut slot = Slot::Occupied(v);
            core::mem::swap(&mut self.vec[i], &mut slot);
            let link = match slot {
                Slot::Free(l) => l,
                Slot::Occupied(_) => unreached(),
            };
            self.next_free = link;
            self.bitvec.set(i, true);
            self.free = Ghost(pre.free@.skip(1));
            proof {
                let f0 = pre.free@;
                assert(f0.len() > 0 && i == f0[0]);
                assert forall|j: int| 0 <= j < self.free@.len() implies {
                    &&& self.free@[j] < self.vec@.len()
                    &&& !self.bits()[self.free@[j] as int]
                    &&& self.slots()[self.free@[j] as int] is Free
                    &&& self.slots()[self.free@[j] as int]->Free_0 == self.chain_next(j)
                } by {
                    assert(self.free@[j] == f0[j + 1]);
                    assert(f0[j + 1] != f0[0]) by {
                        assert(f0.no_duplicates());
                    }
                    assert(pre.slots()[f0[j + 1] as int] is Free);
                    assert(pre.chain_next(j + 1) == self.chain_next(j));
                }
                assert forall|x: int|
                    0 <= x < self.vec@.len() && !self.bits()[x] implies self.free@.contains(
                    x as usize,
                ) by {
                    assert(!pre.bits()[x]);
                    assert(f0.contains(x as usize));
                    let j0 = choose|j0: int| 0 <= j0 < f0.len() && f0[j0] == x as usize;
                    assert(j0 != 0);
                    assert(self.free@[j0 - 1] == x as usize);
                }
                assert(self.view() =~= pre.view().insert(i, v));
            }
        }
        i
    }

    fn remove_at(&mut self, i: usize) -> (r: Option<V>)
        requires
            old(self).wf(),
        ensures
            final(self).wf(),
            old(self).view().dom().contains(i) ==> {
                &&& r == Some(old(self).view()[i])
                &&& final(self).view() == old(self).view().remove(i)
                &&& final(self).free@ == seq![i] + old(self).free@
                &&& final(self).vec@.len() == old(self).vec@.len()
            },
            !old(self).view().dom().contains(i) ==> r == None::<V> && *final(self) == *old(self),
    {
        let ghost pre = *self;
        match self.bitvec.get(i) {
            Some(true) => {
                // Occupied: clear the bit, thread the slot onto the head of
                // the free chain, and take the value out.
                self.bitvec.set(i, false);
                let link = self.next_free;
                self.next_free = i;
                let mut slot = Slot::Free(link);
                core::mem::swap(&mut self.vec[i], &mut slot);
                self.free = Ghost(seq![i] + pre.free@);
                proof {
                    let f1 = self.free@;
                    let n = self.vec@.len() as int;
                    assert(f1[0] == i);
                    assert forall|j: int| 0 <= j < f1.len() implies {
                        &&& f1[j] < n
                        &&& !self.bits()[f1[j] as int]
                        &&& self.slots()[f1[j] as int] is Free
                        &&& self.slots()[f1[j] as int]->Free_0 == self.chain_next(j)
                    } by {
                        if j == 0 {
                            assert(self.slots()[i as int] == Slot::<V>::Free(link));
                        } else {
                            assert(f1[j] == pre.free@[j - 1]);
                            assert(!pre.bits()[pre.free@[j - 1] as int]);
                            assert(pre.free@[j - 1] != i);
                            assert(pre.chain_next(j - 1) == self.chain_next(j));
                        }
                    }
                    assert forall|a: int, b: int|
                        0 <= a < f1.len() && 0 <= b < f1.len() && a != b implies f1[a] != f1[b] by {
                        if a == 0 {
                            assert(!pre.bits()[pre.free@[b - 1] as int]);
                        } else if b == 0 {
                            assert(!pre.bits()[pre.free@[a - 1] as int]);
                        } else {
                            assert(pre.free@.no_duplicates());
                        }
                    }
                    assert(f1.no_duplicates());
                    assert forall|x: int| 0 <= x < n && !self.bits()[x] implies f1.contains(
                        x as usize,
                    ) by {
                        if x == i {
                            assert(f1[0] == x as usize);
                        } else {
                            assert(!pre.bits()[x]);
                            assert(pre.free@.contains(x as usize));
                            let j0 = choose|j0: int|
                                0 <= j0 < pre.free@.len() && pre.free@[j0] == x as usize;
                            assert(f1[j0 + 1] == x as usize);
                        }
                    }
                    assert(self.view() =~= pre.view().remove(i));
                }
                match slot {
                    Slot::Occupied(v) => Some(v),
                    Slot::Free(_) => unreached(),
                }
            }
            _ => None,
        }
    }

    /// The occupied indices of a well-formed store are exactly its view's
    /// domain, ascending and without repetition.
    proof fn lemma_occ(self)
        requires
            self.wf(),
        ensures
            occ_ix(self.bits(), self.vec@.len() as int).no_duplicates(),
            occ_ix(self.bits(), self.vec@.len() as int).to_set() == self.view().dom(),
            occ_ix(self.bits(), self.vec@.len() as int).len() == self.view().len(),
            forall|j: int|
                0 <= j < occ_ix(self.bits(), self.vec@.len() as int).len()
                    ==> self.view().dom().contains(
                    #[trigger] occ_ix(self.bits(), self.vec@.len() as int)[j],
                ),
            forall|a: int, b: int|
                #![trigger occ_ix(self.bits(), self.vec@.len() as int)[a], occ_ix(self.bits(), self.vec@.len() as int)[b]]
                0 <= a < b < occ_ix(self.bits(), self.vec@.len() as int).len() ==> occ_ix(
                    self.bits(),
                    self.vec@.len() as int,
                )[a] < occ_ix(self.bits(), self.vec@.len() as int)[b],
    {
        let n = self.vec@.len() as int;
        let s = occ_ix(self.bits(), n);
        lemma_occ_ix_props(self.bits(), n);
        assert forall|a: int, b: int|
            0 <= a < s.len() && 0 <= b < s.len() && a != b implies s[a] != s[b] by {
            if a < b {
                assert(s[a] < s[b]);
            } else {
                assert(s[b] < s[a]);
            }
        }
        assert(s.no_duplicates());
        assert forall|u: usize| s.to_set().contains(u) implies self.view().dom().contains(u) by {
            let j = choose|j: int| 0 <= j < s.len() && s[j] == u;
            assert(s[j] < n && self.bits()[s[j] as int]);
        }
        assert forall|u: usize| self.view().dom().contains(u) implies s.to_set().contains(u) by {
            assert(self.bits()[u as int]);
            assert(s.contains(u));
        }
        assert(s.to_set() =~= self.view().dom());
        s.unique_seq_to_set();
    }

    /// Occupancy accounting: the free chain holds exactly the slots the view
    /// does not, so occupied entries and free slots partition the storage.
    proof fn lemma_count(self)
        requires
            self.wf(),
        ensures
            self.view().len() + self.free@.len() == self.vec@.len(),
    {
        let n = self.vec@.len() as int;
        let bits = self.bits();
        let u = unocc_ix(bits, n);
        self.lemma_occ();
        lemma_unocc_ix_props(bits, n);
        assert forall|a: int, b: int|
            0 <= a < u.len() && 0 <= b < u.len() && a != b implies u[a] != u[b] by {
            if a < b {
                assert(u[a] < u[b]);
            } else {
                assert(u[b] < u[a]);
            }
        }
        assert(u.no_duplicates());
        u.unique_seq_to_set();
        self.free@.unique_seq_to_set();
        assert forall|x: usize| u.to_set().contains(x) implies self.free@.to_set().contains(
            x,
        ) by {
            let j = choose|j: int| 0 <= j < u.len() && u[j] == x;
            assert(u[j] < n && !bits[u[j] as int]);
            assert(self.free@.contains(x));
        }
        assert forall|x: usize| self.free@.to_set().contains(x) implies u.to_set().contains(
            x,
        ) by {
            let j = choose|j: int| 0 <= j < self.free@.len() && self.free@[j] == x;
            assert(!bits[self.free@[j] as int]);
            assert(u.contains(x));
        }
        assert(u.to_set() =~= self.free@.to_set());
    }

    fn values_vec(&self) -> (r: Vec<&V>)
        requires
            self.wf(),
        ensures
            r@.len() == occ_ix(self.bits(), self.vec@.len() as int).len(),
            forall|j: int|
                0 <= j < r@.len() ==> *(#[trigger] r@[j]) == self.slots()[occ_ix(
                    self.bits(),
                    self.vec@.len() as int,
                )[j] as int]->Occupied_0,
    {
        let mut r: Vec<&V> = Vec::new();
        let n = self.vec.len();
        let mut idx: usize = 0;
        while idx < n
            invariant
                self.wf(),
                n == self.vec@.len(),
                idx <= n,
                r@.len() == occ_ix(self.bits(), idx as int).len(),
                forall|j: int|
                    0 <= j < r@.len() ==> *(#[trigger] r@[j]) == self.slots()[occ_ix(
                        self.bits(),
                        idx as int,
                    )[j] as int]->Occupied_0,
            decreases n - idx,
        {
            let occupied = match self.bitvec.get(idx) {
                Some(b) => b,
                None => unreached(),
            };
            if occupied {
                match &self.vec[idx] {
                    Slot::Occupied(v) => r.push(v),
                    Slot::Free(_) => unreached(),
                }
            }
            idx += 1;
        }
        r
    }

    fn get_at(&self, i: usize) -> (r: Option<&V>)
        requires
            self.wf(),
        ensures
            r == (if self.view().dom().contains(i) {
                Some(&self.view()[i])
            } else {
                None::<&V>
            }),
    {
        match self.bitvec.get(i) {
            Some(true) => match &self.vec[i] {
                Slot::Occupied(v) => Some(v),
                Slot::Free(_) => unreached(),
            },
            _ => None,
        }
    }
}

impl<V: Clone> Raw<V> {
    fn clone_all(&self) -> (r: Self)
        requires
            self.wf(),
        ensures
            r.wf(),
            r.vec@.len() == self.vec@.len(),
            r.free@ == self.free@,
            r.view().dom() == self.view().dom(),
            forall|u: usize| #[trigger]
                r.view().dom().contains(u) ==> cloned::<V>(self.view()[u], r.view()[u]),
            forall|i: int|
                0 <= i < self.vec@.len() && self.slots()[i] is Free ==> #[trigger] r.slots()[i]
                    == self.slots()[i],
    {
        let mut vec: Vec<Slot<V>> = Vec::new();
        let n = self.vec.len();
        let mut idx: usize = 0;
        while idx < n
            invariant
                self.wf(),
                n == self.vec@.len(),
                idx <= n,
                vec@.len() == idx,
                forall|i: int|
                    0 <= i < idx ==> ((#[trigger] vec@[i]) is Occupied
                        <==> self.slots()[i] is Occupied),
                forall|i: int|
                    0 <= i < idx && self.slots()[i] is Free ==> (#[trigger] vec@[i])
                        == self.slots()[i],
                forall|i: int|
                    0 <= i < idx && self.slots()[i] is Occupied ==> cloned::<V>(
                        self.slots()[i]->Occupied_0,
                        (#[trigger] vec@[i])->Occupied_0,
                    ),
            decreases n - idx,
        {
            let occupied = match self.bitvec.get(idx) {
                Some(b) => b,
                None => unreached(),
            };
            if occupied {
                // Occupied: copy the value through `V::clone`.
                match &self.vec[idx] {
                    Slot::Occupied(v) => vec.push(Slot::Occupied(v.clone())),
                    Slot::Free(_) => unreached(),
                }
            } else {
                // Free: copy the link verbatim, so the cloned free chain is
                // structurally identical to the source's.
                match &self.vec[idx] {
                    Slot::Free(l) => vec.push(Slot::Free(*l)),
                    Slot::Occupied(_) => unreached(),
                }
            }
            idx += 1;
        }
        let r = Raw {
            next_free: self.next_free,
            bitvec: self.bitvec.clone(),
            vec,
            free: Ghost(self.free@),
        };
        proof {
            assert forall|j: int| 0 <= j < r.free@.len() implies {
                &&& r.free@[j] < r.vec@.len()
                &&& !r.bits()[r.free@[j] as int]
                &&& r.slots()[r.free@[j] as int] is Free
                &&& r.slots()[r.free@[j] as int]->Free_0 == r.chain_next(j)
            } by {
                assert(self.slots()[self.free@[j] as int] is Free);
                assert(r.slots()[self.free@[j] as int] == self.slots()[self.free@[j] as int]);
                assert(r.chain_next(j) == self.chain_next(j));
            }
            assert(r.view().dom() =~= self.view().dom());
        }
        r
    }
}

/// A stable-key slot store. Caller-held handles of type `K` address values of
/// type `V` through a dense index; freed slots are linked into a free chain
/// and reused, most recently freed first.
pub struct BvMap<K, V> {
    raw: Raw<V>,
    marker: PhantomData<K>,
}

impl<K, V> View for BvMap<K, V> {
    type V = Map<usize, V>;

    /// The entries: each occupied index, mapped to the value it holds.
    closed spec fn view(&self) -> Map<usize, V> {
        self.raw.view()
    }
}

impl<K, V> BvMap<K, V> {
    #[verifier::type_invariant]
    spec fn well_formed(self) -> bool {
        self.raw.wf()
    }

    /// How many slots the backing storage holds, occupied and free together.
    /// Slots are never physically removed, only marked free and reused.
    pub closed spec fn capacity(&self) -> nat {
        self.raw.vec@.len()
    }

    /// The free chain, most recently freed index first.
    pub closed spec fn free_list(&self) -> Seq<usize> {
        self.raw.free@
    }

    /// The index the next insert will address: the head of the free list, or
    /// the slot count when no freed slot remains.
    pub open spec fn next_index(&self) -> int {
        if self.free_list().len() == 0 {
            self.capacity() as int
        } else {
            self.free_list()[0] as int
        }
    }

    /// The occupied indices, in ascending order.
    pub closed spec fn occupied_indices(&self) -> Seq<usize> {
        occ_ix(self.raw.bits(), self.raw.vec@.len() as int)
    }

    /// The occupied values, in ascending index order.
    pub closed spec fn values(&self) -> Seq<V> {
        self.occupied_indices().map_values(|i: usize| self.raw.slots()[i as int]->Occupied_0)
    }
}

impl<K: Handle, V> BvMap<K, V> {
    /// Produces an empty store: no slots, no free chain.
    pub fn new() -> (m: Self)
        ensures
            m@ == Map::<usize, V>::empty(),
            m.capacity() == 0,
            m.free_list() == Seq::<usize>::empty(),
    {
        BvMap { raw: Raw::empty(), marker: PhantomData }
    }

    /// Inserts `v` and returns a handle addressing it. The head of the free
    /// list is reused when one exists; otherwise a new slot is appended, so
    /// storage grows only when no freed slot remains.
    pub fn insert(&mut self, v: V) -> (k: K)
        ensures
            k.index() == old(self).next_index(),
            !old(self)@.dom().contains(k.index()),
            final(self)@ == old(self)@.insert(k.index(), v),
            k.index() < final(self).capacity(),
            old(self).free_list().len() == 0 ==> final(self).capacity() == old(self).capacity()
                + 1 && final(self).free_list() == old(self).free_list(),
            old(self).free_list().len() > 0 ==> final(self).capacity() == old(self).capacity()
                && final(self).free_list() == old(self).free_list().skip(1),
            final(self)@.len() == old(self)@.len() + 1,
            final(self)@.len() + final(self).free_list().len() == final(self).capacity(),
    {
        proof {
            use_type_invariant(&*self);
            self.raw.lemma_count();
        }
        let mut raw = Raw::empty();
        core::mem::swap(&mut raw, &mut self.raw);
        let i = raw.insert_value(v);
        proof {
            raw.lemma_count();
        }
        self.raw = raw;
        K::from_index(i)
    }

    /// Removes the value addressed by `k` and returns it by ownership
    /// transfer. An out-of-range index and an already-free slot both return
    /// nothing, so a double remove is a no-op, not an error. The freed slot
    /// becomes the new head of the free list: the most recently freed slot
    /// is the next one reused.
    pub fn remove(&mut self, k: K) -> (r: Option<V>)
        ensures
            old(self)@.dom().contains(k.index()) ==> {
                &&& r == Some(old(self)@[k.index()])
                &&& final(self)@ == old(self)@.remove(k.index())
                &&& final(self).free_list() == seq![k.index()] + old(self).free_list()
                &&& final(self).capacity() == old(self).capacity()
                &&& final(self)@.len() + 1 == old(self)@.len()
            },
            !old(self)@.dom().contains(k.index()) ==> r == None::<V> && *final(self) == *old(
                self,
            ),
            final(self)@.len() + final(self).free_list().len() == final(self).capacity(),
    {
        proof {
            use_type_invariant(&*self);
            self.raw.lemma_count();
        }
        let mut raw = Raw::empty();
        core::mem::swap(&mut raw, &mut self.raw);
        let i = k.into_index();
        let r = raw.remove_at(i);
        proof {
            raw.lemma_count();
        }
        self.raw = raw;
        r
    }

    /// Looks up the value addressed by `k`. An out-of-range index and a freed
    /// slot are both treated as absence; this never panics.
    pub fn get(&self, k: K) -> (r: Option<&V>)
        ensures
            r == (if self@.dom().contains(k.index()) {
                Some(&self@[k.index()])
            } else {
                None::<&V>
            }),
    {
        proof {
            use_type_invariant(&*self);
        }
        let i = k.into_index();
        self.raw.get_at(i)
    }

    /// Returns a reference to each occupied value, in ascending index order:
    /// exactly the currently occupied entries, one each, with nothing for
    /// the free slots in between.
    pub fn iter(&self) -> (r: Vec<&V>)
        ensures
            r@.len() == self.values().len(),
            forall|j: int| 0 <= j < r@.len() ==> *(#[trigger] r@[j]) == self.values()[j],
            self.values().len() == self@.len(),
            self.occupied_indices().len() == self.values().len(),
            forall|j: int|
                0 <= j < self.occupied_indices().len() ==> self@.dom().contains(
                    #[trigger] self.occupied_indices()[j],
                ) && self.values()[j] == self@[self.occupied_indices()[j]],
            forall|a: int, b: int|
                #![trigger self.occupied_indices()[a], self.occupied_indices()[b]]
                0 <= a < b < self.occupied_indices().len() ==> self.occupied_indices()[a]
                    < self.occupied_indices()[b],
            self.occupied_indices().no_duplicates(),
            self.occupied_indices().to_set() == self@.dom(),
    {
        proof {
            use_type_invariant(&*self);
            self.raw.lemma_occ();
        }
        self.raw.values_vec()
    }
}

impl<K: Handle, V> Default for BvMap<K, V> {
    /// An empty store, exactly as `new` produces it.
    fn default() -> (m: Self)
        ensures
            m@ == Map::<usize, V>::empty(),
            m.capacity() == 0,
            m.free_list() == Seq::<usize>::empty(),
    {
        BvMap::new()
    }
}

impl<K, V: Clone> Clone for BvMap<K, V> {
    /// Produces an independent snapshot: the same occupancy and capacity,
    /// the free list copied verbatim (not re-derived), and, for every
    /// occupied index, a value obtained through `V::clone`. The copy owns
    /// its own storage, so mutating it never affects the source, and vice
    /// versa.
    fn clone(&self) -> (res: Self)
        ensures
            res@.dom() == self@.dom(),
            forall|u: usize| #[trigger]
                res@.dom().contains(u) ==> cloned::<V>(self@[u], res@[u]),
            res.capacity() == self.capacity(),
            res.free_list() == self.free_list(),
    {
        proof {
            use_type_invariant(&*self);
        }
        BvMap { raw: self.raw.clone_all(), marker: PhantomData }
    }
}

/// Law: a lookup through the handle an insert returned finds the inserted
/// value. `insert` turns the view `m` into `m.insert(i, v)` at a previously
/// absent index `i`, and `get` returns the view's entry at `i`.
pub proof fn lemma_get_after_insert<V>(m: Map<usize, V>, i: usize, v: V)
    ensures
        m.insert(i, v).dom().contains(i),
        m.insert(i, v)[i] == v,
{
}

/// Law: after a removal the handle addresses nothing, and removing it again
/// changes nothing. `remove` turns the view `m` into `m.remove(i)`; at the
/// now-absent index `i`, `get` finds nothing and a second `remove` returns
/// nothing and leaves the store unchanged.
pub proof fn lemma_get_after_remove<V>(m: Map<usize, V>, i: usize)
    ensures
        !m.remove(i).dom().contains(i),
        m.remove(i).remove(i) == m.remove(i),
{
    assert(m.remove(i).remove(i) =~= m.remove(i));
}

/// Law: removing straight after inserting hands the inserted value back
/// unchanged and restores the previous entries. `insert` always picks an
/// index absent from the view, which the `requires` reflects.
pub proof fn lemma_insert_remove_round_trip<V>(m: Map<usize, V>, i: usize, v: V)
    requires
        !m.dom().contains(i),
    ensures
        m.insert(i, v)[i] == v,
        m.insert(i, v).remove(i) == m,
{
    assert(m.insert(i, v).remove(i) =~= m);
}

} // verus!
