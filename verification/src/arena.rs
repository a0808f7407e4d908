//! A generational arena: the slot store behind every id space.
//!
//! Each slot carries a generation counter; an id pairs the slot index with
//! the generation current when the value went in. Removing a value bumps the
//! slot's generation and recycles the slot, so a removed id never resolves
//! again, while unrelated insertions and removals leave live ids untouched.

use vstd::map::*;
use vstd::prelude::*;

verus! {

/// A key into an [`Arena`]: a slot index paired with a generation.
///
/// The three id types of this crate implement it; the lemma obliges an
/// implementor to make keys nothing more than that pair.
pub trait ArenaKey: Sized + Copy {
    /// The slot index carried by the key.
    spec fn slot_of(self) -> int;

    /// The generation carried by the key.
    spec fn version_of(self) -> int;

    /// The key made of a slot index and a generation, as a specification
    /// value.
    spec fn key_of(slot: int, version: int) -> Self;

    /// Pack a slot index and a generation into a key.
    fn make(slot: usize, version: u64) -> (r: Self)
        ensures
            r.slot_of() == slot as int,
            r.version_of() == version as int,
            r == Self::key_of(slot as int, version as int),
    ;

    /// Read the slot index back out.
    fn slot(self) -> (r: usize)
        ensures
            r as int == self.slot_of(),
    ;

    /// Read the generation back out.
    fn version(self) -> (r: u64)
        ensures
            r as int == self.version_of(),
    ;

    /// Keys carry no information besides slot and generation.
    proof fn lemma_key_eq(a: Self, b: Self)
        requires
            a.slot_of() == b.slot_of(),
            a.version_of() == b.version_of(),
        ensures
            a == b,
    ;
}

/// One slot of an arena.
pub struct Entry<T> {
    pub version: u64,
    pub value: Option<T>,
}

/// The arena itself: slots plus a free list of vacant slot indices.
///
/// A slot whose generation counter has reached its maximum is retired rather
/// than recycled, so generations never wrap and staleness is permanent.
pub struct Arena<K, T> {
    pub entries: Vec<Entry<T>>,
    pub free: Vec<usize>,
    pub key_space: core::marker::PhantomData<K>,
}

impl<K: ArenaKey, T> Arena<K, T> {
    /// The key currently resolves to a stored value.
    pub open spec fn live(self, k: K) -> bool {
        &&& 0 <= k.slot_of() < self.entries@.len()
        &&& self.entries@[k.slot_of()].version as int == k.version_of()
        &&& self.entries@[k.slot_of()].value is Some
    }

    /// The mathematical content: a finite map from live keys to values.
    pub open spec fn contents(self) -> Map<K, T> {
        Map::new(|k: K| self.live(k), |k: K| self.entries@[k.slot_of()].value->0)
    }

    /// Structural invariant: the free list names vacant slots, each at most
    /// once.
    pub open spec fn wf(self) -> bool {
        &&& forall|i: int|
            0 <= i < self.free@.len() ==> (#[trigger] self.free@[i]) < self.entries@.len()
                && self.entries@[self.free@[i] as int].value is None
        &&& forall|i: int, j: int|
            0 <= i < j < self.free@.len() ==> self.free@[i] != self.free@[j]
    }

    /// The live keys of the first `n` slots, in ascending slot order.
    pub open spec fn keys_upto(self, n: int) -> Seq<K>
        decreases n,
    {
        if n <= 0 {
            Seq::empty()
        } else {
            self.keys_upto(n - 1) + (if self.entries@[n - 1].value is Some {
                seq![K::key_of(n - 1, self.entries@[n - 1].version as int)]
            } else {
                Seq::empty()
            })
        }
    }

    /// All live keys, in ascending slot order: the order in which the
    /// store enumerates its values.
    pub open spec fn keys_in_order(self) -> Seq<K> {
        self.keys_upto(self.entries@.len() as int)
    }

    /// The key addresses a slot that held a value which was taken out with
    /// [`Arena::take`] and not yet put back.
    pub open spec fn reserved(self, k: K) -> bool {
        &&& 0 <= k.slot_of() < self.entries@.len()
        &&& self.entries@[k.slot_of()].version as int == k.version_of()
        &&& self.entries@[k.slot_of()].value is None
        &&& !self.free@.contains(k.slot_of() as usize)
    }

    /// An empty arena.
    pub fn new() -> (r: Self)
        ensures
            r.wf(),
            r.contents() == Map::<K, T>::empty(),
    {
        let r = Arena { entries: Vec::new(), free: Vec::new(), key_space: core::marker::PhantomData };
        proof {
            assert(r.contents() =~= Map::<K, T>::empty());
        }
        r
    }

    /// Insert a value; the returned key is fresh: it resolves to the value,
    /// and no live key before the call equals it.
    pub fn insert(&mut self, value: T) -> (k: K)
        requires
            old(self).wf(),
        ensures
            final(self).wf(),
            !old(self).contents().dom().contains(k),
            final(self).contents() == old(self).contents().insert(k, value),
    {
        let slot_opt = self.free.pop();
        let (slot, version): (usize, u64) = match slot_opt {
            Some(slot) => {
                let version = self.entries[slot].version;
                self.entries.set(slot, Entry { version, value: Some(value) });
                (slot, version)
            },
            None => {
                let slot = self.entries.len();
                self.entries.push(Entry { version: 0, value: Some(value) });
                (slot, 0)
            },
        };
        let k = K::make(slot, version);
        proof {
            let post = *self;
            let pre = *old(self);
            assert(!pre.contents().dom().contains(k));
            assert(post.live(k));
            assert_maps_equal!(post.contents(), pre.contents().insert(k, value), q => {
                if q.slot_of() == k.slot_of() && q.version_of() == k.version_of() {
                    K::lemma_key_eq(q, k);
                }
            });
        }
        k
    }

    /// Does the key resolve?
    pub fn contains_key(&self, k: K) -> (r: bool)
        ensures
            r == self.contents().dom().contains(k),
    {
        let slot = k.slot();
        slot < self.entries.len() && self.entries[slot].version == k.version()
            && self.entries[slot].value.is_some()
    }

    /// Look the key up; `None` exactly when it is stale or was never issued.
    pub fn get(&self, k: K) -> (r: Option<&T>)
        ensures
            match r {
                Some(v) => self.contents().dom().contains(k) && *v == self.contents()[k],
                None => !self.contents().dom().contains(k),
            },
    {
        let slot = k.slot();
        if slot < self.entries.len() && self.entries[slot].version == k.version() {
            self.entries[slot].value.as_ref()
        } else {
            None
        }
    }

    /// Remove the value under a live key. The slot is recycled under a new
    /// generation (or retired), so the key is stale afterwards.
    pub fn remove(&mut self, k: K) -> (v: T)
        requires
            old(self).wf(),
            old(self).contents().dom().contains(k),
        ensures
            final(self).wf(),
            v == old(self).contents()[k],
            final(self).contents() == old(self).contents().remove(k),
    {
        let v = self.take(k);
        let slot = k.slot();
        let version = self.entries[slot].version;
        if version < u64::MAX {
            self.entries.set(slot, Entry { version: version + 1, value: None });
            self.free.push(slot);
        }
        proof {
            let post = *self;
            let pre = *old(self);
            assert_maps_equal!(post.contents(), pre.contents().remove(k), q => {
                if q.slot_of() == k.slot_of() && q.version_of() == k.version_of() {
                    K::lemma_key_eq(q, k);
                }
            });
        }
        v
    }

    /// Replace the value under a live key, returning the previous value. The
    /// key stays live.
    pub fn replace(&mut self, k: K, value: T) -> (prev: T)
        requires
            old(self).wf(),
            old(self).contents().dom().contains(k),
        ensures
            final(self).wf(),
            prev == old(self).contents()[k],
            final(self).contents() == old(self).contents().insert(k, value),
    {
        let prev = self.take(k);
        self.put_back(k, value);
        proof {
            assert(self.contents() =~= old(self).contents().insert(k, value));
        }
        prev
    }

    /// First half of the move-out-and-restore protocol: extract the value
    /// under a live key by move, leaving the slot reserved for [`Arena::put_back`].
    pub fn take(&mut self, k: K) -> (v: T)
        requires
            old(self).wf(),
            old(self).contents().dom().contains(k),
        ensures
            final(self).wf(),
            v == old(self).contents()[k],
            final(self).contents() == old(self).contents().remove(k),
            final(self).reserved(k),
            final(self).free@ == old(self).free@,
            final(self).entries@.len() == old(self).entries@.len(),
    {
        let slot = k.slot();
        proof {
            let pre = *old(self);
            if pre.free@.contains(k.slot_of() as usize) {
                let i = choose|i: int|
                    0 <= i < pre.free@.len() && pre.free@[i] == k.slot_of() as usize;
                assert(pre.entries@[pre.free@[i] as int].value is None);
            }
        }
        let entry = &mut self.entries[slot];
        let v_opt = entry.value.take();
        let v = v_opt.unwrap();
        proof {
            let post = *self;
            let pre = *old(self);
            assert_maps_equal!(post.contents(), pre.contents().remove(k), q => {
                if q.slot_of() == k.slot_of() && q.version_of() == k.version_of() {
                    K::lemma_key_eq(q, k);
                }
            });
        }
        v
    }

    /// Second half of the protocol: restore a value to a reserved slot; the
    /// original key is live again.
    pub fn put_back(&mut self, k: K, value: T)
        requires
            old(self).wf(),
            old(self).reserved(k),
        ensures
            final(self).wf(),
            final(self).contents() == old(self).contents().insert(k, value),
    {
        let slot = k.slot();
        let version = self.entries[slot].version;
        self.entries.set(slot, Entry { version, value: Some(value) });
        proof {
            let post = *self;
            let pre = *old(self);
            assert_maps_equal!(post.contents(), pre.contents().insert(k, value), q => {
                if q.slot_of() == k.slot_of() && q.version_of() == k.version_of() {
                    K::lemma_key_eq(q, k);
                }
            });
        }
    }

    /// All live keys, in ascending slot order; the order in which the store
    /// enumerates its values.
    pub fn keys(&self) -> (r: Vec<K>)
        ensures
            r@ == self.keys_in_order(),
            forall|i: int|
                0 <= i < r@.len() ==> self.contents().dom().contains(#[trigger] r@[i]),
            forall|k: K| self.contents().dom().contains(k) ==> r@.contains(k),
            forall|i: int, j: int| 0 <= i < j < r@.len() ==> r@[i].slot_of() < r@[j].slot_of(),
    {
        let mut r: Vec<K> = Vec::new();
        let mut slot: usize = 0;
        while slot < self.entries.len()
            invariant
                0 <= slot <= self.entries@.len(),
                r@ == self.keys_upto(slot as int),
                forall|i: int|
                    0 <= i < r@.len() ==> self.contents().dom().contains(#[trigger] r@[i]),
                forall|i: int| 0 <= i < r@.len() ==> (#[trigger] r@[i]).slot_of() < slot as int,
                forall|k: K|
                    self.contents().dom().contains(k) && k.slot_of() < slot as int ==> r@.contains(
                        k,
                    ),
                forall|i: int, j: int| 0 <= i < j < r@.len() ==> r@[i].slot_of() < r@[j].slot_of(),
            decreases self.entries@.len() - slot,
        {
            if self.entries[slot].value.is_some() {
                let ghost r_before = r@;
                let k = K::make(slot, self.entries[slot].version);
                r.push(k);
                proof {
                    assert(r@ =~= self.keys_upto(slot as int + 1));
                    assert forall|q: K|
                        self.contents().dom().contains(q) && q.slot_of() < slot as int
                            + 1 implies r@.contains(q) by {
                        if q.slot_of() == slot as int {
                            K::lemma_key_eq(q, k);
                            assert(r@[r@.len() - 1] == q);
                        } else {
                            assert(r_before.contains(q));
                            let i = choose|i: int| 0 <= i < r_before.len() && r_before[i] == q;
                            assert(r@[i] == q);
                        }
                    }
                }
            } else {
                proof {
                    assert(r@ =~= self.keys_upto(slot as int + 1));
                }
            }
            slot = slot + 1;
        }
        r
    }
}

} // verus!
