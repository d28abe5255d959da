//! A generational arena allocator.
//!
//! Several subsystems want stable handles into a pool of objects that can be
//! freed and the slot reused, without dangling references surviving the free.
//! A generational arena solves this: each slot carries a generation counter
//! that is bumped on free, and a [`Handle`] stores the slot index plus the
//! generation it was minted at. A stale handle (one whose generation no longer
//! matches the slot) resolves to `None` instead of aliasing a newer occupant.
//! A slot whose generations are used up is retired.

use vstd::prelude::*;
use std::marker::PhantomData;

verus! {

/// A stable, generation-checked handle into an [`Arena`].
#[derive(Debug, PartialEq, Eq, Hash)]
pub struct Handle<T> {
    index: u32,
    generation: u32,
    marker: PhantomData<T>,
}

impl<T> Clone for Handle<T> {
    fn clone(&self) -> (r: Self)
        ensures
            r == *self,
    {
        *self
    }
}

impl<T> Copy for Handle<T> {

}

impl<T> Handle<T> {
    /// The slot of the handle.
    pub closed spec fn slot(&self) -> u32 {
        self.index
    }

    /// The generation of the handle.
    pub closed spec fn minted(&self) -> u32 {
        self.generation
    }

    /// The raw slot index (for debugging / serialization).
    pub fn index(&self) -> (r: u32)
        ensures
            r == self.slot(),
    {
        self.index
    }

    /// The generation this handle was minted at.
    pub fn generation(&self) -> (r: u32)
        ensures
            r == self.minted(),
    {
        self.generation
    }
}

#[derive(Debug)]
struct Slot<T> {
    generation: u32,
    value: Option<T>,
}

/// A generational arena of `T`.
#[derive(Debug)]
pub struct Arena<T> {
    slots: Vec<Slot<T>>,
    free: Vec<u32>,
    len: usize,
}

/// The number of slots with a value.
spec fn live<T>(s: Seq<Slot<T>>) -> nat
    decreases s.len(),
{
    if s.len() == 0 {
        0
    } else {
        live(s.drop_last()) + (if s.last().value is Some {
            1nat
        } else {
            0nat
        })
    }
}

proof fn lemma_live_update<T>(s: Seq<Slot<T>>, i: int, x: Slot<T>)
    requires
        0 <= i < s.len(),
    ensures
        live(s.update(i, x)) == live(s) - (if s[i].value is Some {
            1int
        } else {
            0
        }) + (if x.value is Some {
            1int
        } else {
            0
        }),
        s[i].value is Some ==> live(s) > 0,
    decreases s.len(),
{
    let u = s.update(i, x);
    if i == s.len() - 1 {
        assert(u.drop_last() =~= s.drop_last());
    } else {
        lemma_live_update(s.drop_last(), i, x);
        assert(u.drop_last() =~= s.drop_last().update(i, x));
    }
}

proof fn lemma_live_none<T>(s: Seq<Slot<T>>)
    requires
        forall|i: int| 0 <= i < s.len() ==> (#[trigger] s[i]).value is None,
    ensures
        live(s) == 0,
    decreases s.len(),
{
    if s.len() > 0 {
        let d = s.drop_last();
        assert forall|i: int| 0 <= i < d.len() implies (#[trigger] d[i]).value is None by {
            assert(d[i] == s[i]);
        }
        lemma_live_none(d);
        assert(s.last() == s[s.len() - 1]);
    }
}

impl<T> Arena<T> {
    /// The object behind a handle.
    pub closed spec fn resolve(&self, h: Handle<T>) -> Option<T> {
        if h.index < self.slots@.len() && self.slots@[h.index as int].generation == h.generation {
            self.slots@[h.index as int].value
        } else {
            None
        }
    }

    /// The handle can never resolve again.
    pub closed spec fn dead(&self, h: Handle<T>) -> bool {
        &&& h.index < self.slots@.len()
        &&& self.slots@[h.index as int].generation >= h.generation
        &&& self.slots@[h.index as int].generation == h.generation ==> self.slots@[h.index as int].value is None
            && !self.free@.contains(h.index)
    }

    /// The number of live objects.
    pub closed spec fn count(&self) -> nat {
        live(self.slots@)
    }

    /// The number of slots.
    pub closed spec fn slot_count(&self) -> nat {
        self.slots@.len()
    }

    /// The slots that wait for an object, the one to be taken next at the end.
    pub closed spec fn vacant(&self) -> Seq<u32> {
        self.free@
    }

    /// The generation of a slot.
    pub closed spec fn mark(&self, i: int) -> u32 {
        self.slots@[i].generation
    }

    /// A slot holds an object.
    pub closed spec fn occupied(&self, i: int) -> bool {
        self.slots@[i].value is Some
    }

    /// The first `n` slots that hold an object and have a generation left, in order.
    pub open spec fn to_free(&self, n: nat) -> Seq<u32>
        decreases n,
    {
        if n == 0 {
            Seq::empty()
        } else if self.occupied(n - 1) && self.mark(n - 1) < u32::MAX {
            self.to_free((n - 1) as nat).push((n - 1) as u32)
        } else {
            self.to_free((n - 1) as nat)
        }
    }

    /// The slots on the free list are distinct and empty, every empty slot is on it
    /// unless its generations are used up, and the length is the number of live
    /// objects.
    pub closed spec fn wf(&self) -> bool {
        &&& self.len == live(self.slots@)
        &&& self.slots@.len() <= u32::MAX
        &&& self.free@.no_duplicates()
        &&& forall|i: int|
            0 <= i < self.free@.len() ==> (#[trigger] self.free@[i]) < self.slots@.len()
                && self.slots@[self.free@[i] as int].value is None
        &&& forall|i: int|
            0 <= i < self.slots@.len() && (#[trigger] self.slots@[i]).value is None && self.slots@[i].generation
                < u32::MAX ==> self.free@.contains(i as u32)
    }

    /// A handle resolves exactly where its slot holds an object of its generation.
    pub proof fn lemma_resolves(&self, h: Handle<T>)
        ensures
            self.resolve(h) is Some <==> h.slot() < self.slot_count() && self.mark(h.slot() as int) == h.minted()
                && self.occupied(h.slot() as int),
    {
    }

    /// A slot is vacant, holds an object, or has used up its generations.
    pub proof fn lemma_vacant(&self, i: int)
        requires
            self.wf(),
            0 <= i < self.slot_count(),
        ensures
            self.slot_count() <= u32::MAX,
            self.vacant().no_duplicates(),
            self.vacant().contains(i as u32) ==> !self.occupied(i),
            self.vacant().contains(i as u32) || self.occupied(i) || self.mark(i) == u32::MAX,
    {
        if self.vacant().contains(i as u32) {
            let j = choose|j: int| 0 <= j < self.free@.len() && self.free@[j] == i as u32;
            assert(self.slots@[self.free@[j] as int].value is None);
        }
    }

    /// A dead handle resolves to nothing.
    pub proof fn lemma_dead(&self, h: Handle<T>)
        requires
            self.dead(h),
        ensures
            self.resolve(h) is None,
    {
    }

    /// A new empty arena.
    pub fn new() -> (r: Arena<T>)
        ensures
            r.wf(),
            r.count() == 0,
            r.slot_count() == 0,
            r.vacant().len() == 0,
            forall|h: Handle<T>| r.resolve(h) is None,
    {
        Arena { slots: Vec::new(), free: Vec::new(), len: 0 }
    }

    /// Number of live objects.
    pub fn len(&self) -> (r: usize)
        requires
            self.wf(),
        ensures
            r == self.count(),
    {
        self.len
    }

    /// `true` if there are no live objects.
    pub fn is_empty(&self) -> (r: bool)
        requires
            self.wf(),
        ensures
            r == (self.count() == 0),
    {
        self.len == 0
    }

    /// Total slot capacity (live + freed).
    pub fn capacity(&self) -> (r: usize)
        ensures
            r == self.slot_count(),
    {
        self.slots.len()
    }

    /// Insert a value and return its handle.
    pub fn insert(&mut self, value: T) -> (h: Handle<T>)
        requires
            old(self).wf(),
            old(self).vacant().len() > 0 || old(self).slot_count() < u32::MAX,
            old(self).count() < usize::MAX,
        ensures
            final(self).wf(),
            final(self).resolve(h) == Some(value),
            old(self).resolve(h) is None,
            !old(self).dead(h),
            forall|k: Handle<T>|
                k.slot() != h.slot() || k.minted() != h.minted() ==> #[trigger] final(self).resolve(k) == old(
                    self,
                ).resolve(k),
            forall|k: Handle<T>| #[trigger] old(self).dead(k) ==> final(self).dead(k),
            final(self).count() == old(self).count() + 1,
            forall|i: int| 0 <= i < old(self).slot_count() ==> #[trigger] final(self).mark(i) == old(self).mark(i),
            old(self).vacant().len() > 0 ==> {
                &&& h.slot() == old(self).vacant().last()
                &&& h.slot() < old(self).slot_count()
                &&& h.minted() == old(self).mark(h.slot() as int)
                &&& final(self).vacant() == old(self).vacant().drop_last()
                &&& final(self).slot_count() == old(self).slot_count()
            },
            old(self).vacant().len() == 0 ==> {
                &&& h.slot() == old(self).slot_count()
                &&& h.minted() == 0
                &&& final(self).vacant() == old(self).vacant()
                &&& final(self).slot_count() == old(self).slot_count() + 1
            },
    {
        self.len = self.len + 1;
        let ghost s0 = self.slots@;
        let ghost f0 = self.free@;
        match self.free.pop() {
            Some(index) => {
                proof {
                    assert(index == f0[f0.len() - 1]);
                }
                let generation: u32 = self.slots[index as usize].generation;
                self.slots.set(index as usize, Slot { generation, value: Some(value) });
                proof {
                    let x = Slot { generation, value: Some(value) };
                    lemma_live_update(s0, index as int, x);
                    assert(self.slots@ =~= s0.update(index as int, x));
                    assert forall|i: int| 0 <= i < self.free@.len() implies (#[trigger] self.free@[i])
                        < self.slots@.len() && self.slots@[self.free@[i] as int].value is None by {
                        assert(self.free@[i] == f0[i]);
                        assert(f0[i] != f0[f0.len() - 1]);
                    }
                    assert forall|i: int|
                        0 <= i < self.slots@.len() && (#[trigger] self.slots@[i]).value is None
                            && self.slots@[i].generation < u32::MAX implies self.free@.contains(i as u32) by {
                        assert(s0[i].value is None);
                        let j = choose|j: int| 0 <= j < f0.len() && f0[j] == i as u32;
                        assert(self.free@[j] == i as u32);
                    }
                    assert forall|k: Handle<T>| #[trigger] old(self).dead(k) implies self.dead(k) by {
                        if k.index == index {
                            assert(f0.contains(index));
                        }
                        if self.free@.contains(k.index) {
                            let i = choose|i: int| 0 <= i < self.free@.len() && self.free@[i] == k.index;
                            assert(f0[i] == k.index);
                        }
                    }
                    assert(f0.contains(index));
                }
                Handle { index, generation, marker: PhantomData }
            },
            None => {
                let index: u32 = self.slots.len() as u32;
                self.slots.push(Slot { generation: 0, value: Some(value) });
                proof {
                    assert(self.slots@.drop_last() =~= s0);
                    assert(self.free@ =~= f0);
                    assert forall|i: int| 0 <= i < self.free@.len() implies (#[trigger] self.free@[i])
                        < self.slots@.len() && self.slots@[self.free@[i] as int].value is None by {
                        assert(self.free@[i] == f0[i]);
                    }
                    assert forall|i: int|
                        0 <= i < self.slots@.len() && (#[trigger] self.slots@[i]).value is None
                            && self.slots@[i].generation < u32::MAX implies self.free@.contains(i as u32) by {
                        assert(s0[i] == self.slots@[i]);
                    }
                }
                Handle { index, generation: 0, marker: PhantomData }
            },
        }
    }

    /// `true` if the handle still refers to a live object.
    pub fn contains(&self, handle: Handle<T>) -> (r: bool)
        ensures
            r == (self.resolve(handle) is Some),
    {
        self.get(handle).is_some()
    }

    /// Borrow the object behind a handle, or `None` if the handle is stale.
    pub fn get(&self, handle: Handle<T>) -> (r: Option<&T>)
        ensures
            match r {
                Some(x) => self.resolve(handle) == Some(*x),
                None => self.resolve(handle) is None,
            },
    {
        let i: usize = handle.index as usize;
        if i >= self.slots.len() || self.slots[i].generation != handle.generation {
            return None;
        }
        self.slots[i].value.as_ref()
    }

    /// Mutably borrow the object behind a handle.
    pub fn get_mut(&mut self, handle: Handle<T>) -> (r: Option<&mut T>)
        requires
            old(self).wf(),
        ensures
            match r {
                Some(x) => old(self).resolve(handle) == Some(*x) && final(self).resolve(handle) == Some(*final(x))
                    && forall|k: Handle<T>|
                    k.slot() != handle.slot() || k.minted() != handle.minted() ==> #[trigger] final(self).resolve(k)
                        == old(self).resolve(k),
                None => old(self).resolve(handle) is None && forall|k: Handle<T>| #[trigger]
                    final(self).resolve(k) == old(self).resolve(k),
            },
            final(self).wf(),
            forall|k: Handle<T>| #[trigger] old(self).dead(k) ==> final(self).dead(k),
            final(self).count() == old(self).count(),
            final(self).slot_count() == old(self).slot_count(),
            final(self).vacant() == old(self).vacant(),
            forall|i: int| 0 <= i < old(self).slot_count() ==> #[trigger] final(self).mark(i) == old(self).mark(i),
    {
        let i: usize = handle.index as usize;
        if i >= self.slots.len() || self.slots[i].generation != handle.generation {
            return None;
        }
        if self.slots[i].value.is_none() {
            return None;
        }
        proof {
            assert forall|x: Slot<T>| x.value is Some implies live(#[trigger] self.slots@.update(i as int, x)) == live(
                self.slots@,
            ) by {
                lemma_live_update(self.slots@, i as int, x);
            }
            assert forall|j: int| 0 <= j < self.free@.len() implies (#[trigger] self.free@[j]) != i by {}
        }
        let ghost s0 = self.slots@;
        let slot = &mut self.slots[i];
        let ghost g = slot.generation;
        let r = slot.value.as_mut();
        r
    }

    /// Remove and return the object behind a handle, bumping the slot's
    /// generation so the handle can never resolve again.
    pub fn remove(&mut self, handle: Handle<T>) -> (r: Option<T>)
        requires
            old(self).wf(),
        ensures
            final(self).wf(),
            r == old(self).resolve(handle),
            final(self).resolve(handle) is None,
            r is Some ==> final(self).dead(handle),
            forall|k: Handle<T>|
                k.slot() != handle.slot() || k.minted() != handle.minted() ==> #[trigger] final(self).resolve(k)
                    == old(self).resolve(k),
            forall|k: Handle<T>| #[trigger] old(self).dead(k) ==> final(self).dead(k),
            final(self).count() == old(self).count() - (if r is Some {
                1int
            } else {
                0
            }),
            final(self).slot_count() == old(self).slot_count(),
            final(self).vacant() == (if r is Some && handle.minted() < u32::MAX {
                old(self).vacant().push(handle.slot())
            } else {
                old(self).vacant()
            }),
            forall|i: int|
                0 <= i < old(self).slot_count() ==> #[trigger] final(self).mark(i) == (if r is Some && i == handle.slot()
                    && handle.minted() < u32::MAX {
                    (handle.minted() + 1) as u32
                } else {
                    old(self).mark(i)
                }),
    {
        let i: usize = handle.index as usize;
        if i >= self.slots.len() || self.slots[i].generation != handle.generation {
            return None;
        }
        if self.slots[i].value.is_none() {
            return None;
        }
        let ghost s0 = self.slots@;
        let ghost f0 = self.free@;
        let mut slot = self.slots.remove(i);
        let value = slot.value.take();
        let last: bool = slot.generation == u32::MAX;
        if !last {
            slot.generation = slot.generation + 1;
        }
        let ghost x = slot;
        self.slots.insert(i, slot);
        proof {
            assert(self.slots@ =~= s0.update(i as int, x));
            lemma_live_update(s0, i as int, x);
            assert(!f0.contains(handle.index)) by {
                if f0.contains(handle.index) {
                    let j = choose|j: int| 0 <= j < f0.len() && f0[j] == handle.index;
                    assert(s0[f0[j] as int].value is None);
                }
            }
        }
        if !last {
            self.free.push(handle.index);
        }
        self.len = self.len - 1;
        proof {
            let f1 = self.free@;
            assert(f1.no_duplicates()) by {
                assert forall|a: int, b: int| 0 <= a < f1.len() && 0 <= b < f1.len() && a != b implies f1[a] != f1[b] by {
                    if a == f0.len() {
                        assert(f0.contains(f0[b]));
                    } else if b == f0.len() {
                        assert(f0.contains(f0[a]));
                    }
                }
            }
            assert forall|j: int| 0 <= j < f1.len() implies (#[trigger] f1[j]) < self.slots@.len()
                && self.slots@[f1[j] as int].value is None by {
                if j < f0.len() {
                    assert(f1[j] == f0[j]);
                }
            }
            assert forall|j: int|
                0 <= j < self.slots@.len() && (#[trigger] self.slots@[j]).value is None && self.slots@[j].generation
                    < u32::MAX implies f1.contains(j as u32) by {
                if j == i {
                    assert(f1[f0.len() as int] == j as u32);
                } else {
                    assert(s0[j].value is None);
                    let a = choose|a: int| 0 <= a < f0.len() && f0[a] == j as u32;
                    assert(f1[a] == j as u32);
                }
            }
            assert forall|k: Handle<T>| #[trigger] old(self).dead(k) implies self.dead(k) by {
                if f1.contains(k.index) {
                    let j = choose|j: int| 0 <= j < f1.len() && f1[j] == k.index;
                    if j < f0.len() {
                        assert(f0[j] == k.index);
                    }
                }
            }
        }
        value
    }

    /// The live objects and their handles, in slot order.
    pub fn iter(&self) -> (out: Vec<(Handle<T>, &T)>)
        requires
            self.wf(),
        ensures
            forall|a: int, b: int| 0 <= a < b < out@.len() ==> out@[a].0.slot() < out@[b].0.slot(),
            forall|a: int|
                0 <= a < out@.len() ==> self.resolve((#[trigger] out@[a]).0) == Some(*out@[a].1),
            forall|h: Handle<T>|
                #[trigger] self.resolve(h) is Some ==> exists|a: int|
                    0 <= a < out@.len() && out@[a].0.slot() == h.slot() && out@[a].0.minted() == h.minted(),
    {
        let mut out: Vec<(Handle<T>, &T)> = Vec::new();
        let mut i: usize = 0;
        while i < self.slots.len()
            invariant
                i <= self.slots@.len(),
                self.slots@.len() <= u32::MAX,
                forall|a: int, b: int| 0 <= a < b < out@.len() ==> out@[a].0.slot() < out@[b].0.slot(),
                forall|a: int|
                    0 <= a < out@.len() ==> (#[trigger] out@[a]).0.slot() < i && self.resolve(out@[a].0) == Some(
                        *out@[a].1,
                    ),
                forall|h: Handle<T>|
                    #[trigger] self.resolve(h) is Some && h.slot() < i ==> exists|a: int|
                        0 <= a < out@.len() && out@[a].0.slot() == h.slot() && out@[a].0.minted() == h.minted(),
            decreases self.slots.len() - i,
        {
            let ghost o = out@;
            if let Some(v) = self.slots[i].value.as_ref() {
                out.push((Handle { index: i as u32, generation: self.slots[i].generation, marker: PhantomData }, v));
            }
            proof {
                assert forall|h: Handle<T>|
                    #[trigger] self.resolve(h) is Some && h.slot() < i + 1 implies exists|a: int|
                    0 <= a < out@.len() && out@[a].0.slot() == h.slot() && out@[a].0.minted() == h.minted() by {
                    if h.slot() < i {
                        let a = choose|a: int|
                            0 <= a < o.len() && o[a].0.slot() == h.slot() && o[a].0.minted() == h.minted();
                        assert(out@[a] == o[a]);
                    } else {
                        assert(out@[o.len() as int].0.slot() == h.slot());
                    }
                }
            }
            i += 1;
        }
        out
    }

    /// Drop every object, keeping the allocated capacity.
    pub fn clear(&mut self)
        requires
            old(self).wf(),
        ensures
            final(self).wf(),
            final(self).count() == 0,
            final(self).slot_count() == old(self).slot_count(),
            forall|k: Handle<T>| final(self).resolve(k) is None,
            forall|k: Handle<T>| #[trigger] old(self).dead(k) || old(self).resolve(k) is Some ==> final(self).dead(k),
            final(self).vacant() == old(self).vacant() + old(self).to_free(old(self).slot_count()),
            forall|i: int|
                0 <= i < old(self).slot_count() ==> #[trigger] final(self).mark(i) == (if old(self).occupied(i)
                    && old(self).mark(i) < u32::MAX {
                    (old(self).mark(i) + 1) as u32
                } else {
                    old(self).mark(i)
                }),
    {
        let n: usize = self.slots.len();
        let ghost s0 = self.slots@;
        let ghost f0 = self.free@;
        let mut i: usize = 0;
        while i < n
            invariant
                i <= n,
                n == self.slots@.len(),
                n == s0.len(),
                n <= u32::MAX,
                s0 == old(self).slots@,
                f0 == old(self).free@,
                self.free@.no_duplicates(),
                old(self).wf(),
                self.free@ == f0 + old(self).to_free(i as nat),
                forall|j: int| i <= j < n ==> self.slots@[j] == s0[j],
                forall|j: int| 0 <= j < i ==> (#[trigger] self.slots@[j]).value is None,
                forall|j: int|
                    0 <= j < i ==> (#[trigger] self.slots@[j]).generation == (if s0[j].value is Some && s0[j].generation
                        < u32::MAX {
                        (s0[j].generation + 1) as u32
                    } else {
                        s0[j].generation
                    }),
                forall|j: int|
                    0 <= j < n && (#[trigger] self.slots@[j]).value is None && self.slots@[j].generation < u32::MAX
                        ==> self.free@.contains(j as u32),
                forall|j: int|
                    0 <= j < self.free@.len() ==> (#[trigger] self.free@[j]) < n
                        && self.slots@[self.free@[j] as int].value is None,
                forall|k: Handle<T>| #[trigger] old(self).dead(k) ==> self.dead(k),
                forall|k: Handle<T>| #[trigger] old(self).resolve(k) is Some && k.index < i ==> self.dead(k),
            decreases n - i,
        {
            let ghost a1 = *self;
            if self.slots[i].value.is_some() {
                let mut slot = self.slots.remove(i);
                slot.value = None;
                let last: bool = slot.generation == u32::MAX;
                if !last {
                    slot.generation = slot.generation + 1;
                }
                let ghost x = slot;
                self.slots.insert(i, slot);
                assert(self.slots@ =~= a1.slots@.update(i as int, x));
                let ghost f1 = self.free@;
                assert(!f1.contains(i as u32)) by {
                    if f1.contains(i as u32) {
                        let j = choose|j: int| 0 <= j < f1.len() && f1[j] == i as u32;
                        assert(a1.slots@[f1[j] as int].value is None);
                    }
                }
                if !last {
                    self.free.push(i as u32);
                }
                proof {
                    let f2 = self.free@;
                    assert(f2.no_duplicates()) by {
                        assert forall|a: int, b: int| 0 <= a < f2.len() && 0 <= b < f2.len() && a != b implies f2[a]
                            != f2[b] by {
                            if a == f1.len() {
                                assert(f1.contains(f1[b]));
                            } else if b == f1.len() {
                                assert(f1.contains(f1[a]));
                            }
                        }
                    }
                    assert forall|j: int|
                        0 <= j < n && (#[trigger] self.slots@[j]).value is None && self.slots@[j].generation < u32::MAX
                            implies f2.contains(j as u32) by {
                        if j == i {
                            assert(f2[f1.len() as int] == j as u32);
                        } else {
                            assert(a1.slots@[j].value is None);
                            let a = choose|a: int| 0 <= a < f1.len() && f1[a] == j as u32;
                            assert(f2[a] == j as u32);
                        }
                    }
                    assert(f2 =~= f0 + old(self).to_free((i + 1) as nat));
                    assert forall|j: int| 0 <= j < f2.len() implies (#[trigger] f2[j]) < n
                        && self.slots@[f2[j] as int].value is None by {
                        if j < f1.len() {
                            assert(f2[j] == f1[j]);
                        }
                    }
                    assert forall|k: Handle<T>| #[trigger] a1.dead(k) implies self.dead(k) by {
                        if f2.contains(k.index) {
                            let j = choose|j: int| 0 <= j < f2.len() && f2[j] == k.index;
                            if j < f1.len() {
                                assert(f1[j] == k.index);
                            }
                        }
                    }
                    assert forall|k: Handle<T>| #[trigger] old(self).dead(k) implies self.dead(k) by {
                        assert(a1.dead(k));
                    }
                    assert forall|k: Handle<T>| #[trigger]
                        old(self).resolve(k) is Some && k.index < i + 1 implies self.dead(k) by {
                        if k.index < i {
                            assert(a1.dead(k));
                        }
                    }
                }
            }
            i += 1;
        }
        self.len = 0;
        proof {
            lemma_live_none(self.slots@);
            assert forall|k: Handle<T>| #[trigger] old(self).dead(k) || old(self).resolve(k) is Some implies self.dead(
                k,
            ) by {
                if old(self).dead(k) {
                } else {
                    assert(old(self).resolve(k) is Some);
                }
            }
        }
    }
}

impl<T> Default for Arena<T> {
    fn default() -> (r: Self)
        ensures
            r.wf(),
            r.count() == 0,
            r.slot_count() == 0,
            r.vacant().len() == 0,
            forall|h: Handle<T>| r.resolve(h) is None,
    {
        Arena::new()
    }
}

} // verus!
