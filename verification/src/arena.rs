use vstd::prelude::*;

verus! {

/// A reference into an [`Arena`]: a slot index paired with the generation the
/// slot carried when the value was inserted. A handle stays usable while the
/// value it names is alive; once the value is removed, the slot's generation
/// moves past the handle's and the handle can never name a value again, even
/// after the slot is reused.
#[derive(Clone, Copy, Debug, PartialEq, Eq, Hash, Structural)]
pub struct Handle {
    pub index: usize,
    pub generation: u64,
}

/// One storage slot: either it holds a value, or it is free and points at the
/// next free slot. Both variants remember the slot's current generation.
enum Slot<T> {
    Occupied { value: T, generation: u64 },
    Free { next_free: Option<usize>, generation: u64 },
}

/// A slot-based store with O(1) insert, remove and lookup through [`Handle`]s.
/// Freed slots join a LIFO free list and are reused by later inserts; the
/// generation counter makes handles into the old occupant go stale instead of
/// aliasing the new one.
///
/// Abstractly an `Arena<T>` is the map from live handles to values, written
/// `self@`; every operation's contract says exactly how it moves that map.
pub struct Arena<T> {
    data: Vec<Slot<T>>,
    free_slot: Option<usize>,
    free_order: Ghost<Seq<usize>>,
}

impl<T> View for Arena<T> {
    type V = Map<Handle, T>;

    /// The abstract contents: the finite map from live handles to the values
    /// they name.
    closed spec fn view(&self) -> Map<Handle, T> {
        Map::new(|h: Handle| self.live(h), |h: Handle| self.value_at(h))
    }
}

impl<T> Arena<T> {
    /// The generation stored in slot `i`, whichever variant the slot is in.
    pub closed spec fn slot_generation(self, i: int) -> u64 {
        match self.data@[i] {
            Slot::Occupied { generation, .. } => generation,
            Slot::Free { generation, .. } => generation,
        }
    }

    /// `h` currently names a value: its index is in bounds, the slot is
    /// occupied, and the slot's generation equals the handle's.
    pub closed spec fn live(self, h: Handle) -> bool {
        &&& h.index < self.data@.len()
        &&& self.data@[h.index as int] matches Slot::Occupied { generation, .. }
            && generation == h.generation
    }

    /// The value `h` names.
    pub closed spec fn value_at(self, h: Handle) -> T
        recommends
            self.live(h),
    {
        self.data@[h.index as int]->Occupied_value
    }

    /// `h` can never name a value again: its slot has moved past the handle's
    /// generation (or the generation counter has no room left above it).
    /// Removal makes a handle dead, and every operation preserves deadness.
    pub closed spec fn dead(self, h: Handle) -> bool {
        &&& h.index < self.data@.len()
        &&& {
            ||| self.slot_generation(h.index as int) > h.generation
            ||| h.generation == u64::MAX
        }
    }

    /// No slot has ever been freed: the free list is empty and every slot is
    /// occupied at generation zero. A client that only ever inserts (such as a
    /// tree that never deletes nodes) stays dense, and then the handles it
    /// holds are exactly the generation-zero handles below `slot_count`.
    pub closed spec fn is_dense(self) -> bool {
        &&& self.free_order@.len() == 0
        &&& self.free_slot is None
        &&& forall|i: int|
            0 <= i < self.data@.len() ==> ((#[trigger] self.data@[i]) matches Slot::Occupied {
                generation,
                ..
            } && generation == 0)
    }

    /// How many slots the arena has, occupied or free.
    pub closed spec fn slot_count(self) -> nat {
        self.data@.len()
    }

    /// Internal consistency: `free_order` lists, front first, the indices of
    /// the reusable free slots, which form the free list; every slot it names
    /// is free with generation headroom; occupied slots also have headroom, so
    /// a removal can always move the generation strictly up.
    pub closed spec fn wf(self) -> bool {
        let fo = self.free_order@;
        let s = self.data@;
        &&& fo.no_duplicates()
        &&& forall|k: int| 0 <= k < fo.len() ==> (#[trigger] fo[k] as int) < s.len()
        &&& forall|k: int|
            0 <= k < fo.len() ==> (s[#[trigger] fo[k] as int] matches Slot::Free { generation, .. }
                && generation < u64::MAX)
        &&& forall|k: int|
            0 <= k < fo.len() ==> #[trigger] s[fo[k] as int]->Free_next_free == (if k + 1
                < fo.len() {
                Some(fo[k + 1])
            } else {
                None::<usize>
            })
        &&& self.free_slot == (if fo.len() > 0 {
            Some(fo[0])
        } else {
            None::<usize>
        })
        &&& forall|i: int|
            0 <= i < s.len() && #[trigger] s[i] is Occupied ==> s[i]->Occupied_generation
                < u64::MAX
    }

    /// Creates an empty arena with no free slots.
    pub fn new() -> (r: Arena<T>)
        ensures
            r.wf(),
            r@ == Map::<Handle, T>::empty(),
            r.is_dense(),
            r.slot_count() == 0,
    {
        let r = Arena { data: Vec::new(), free_slot: None, free_order: Ghost(Seq::empty()) };
        proof {
            assert(r@ =~= Map::<Handle, T>::empty());
        }
        r
    }

    /// Stores `value` and returns a handle to it. The handle is new: it does
    /// not name any value currently in the arena, and every handle that was
    /// dead stays dead, so the result can never equal a removed handle.
    #[verifier::rlimit(50)]
    pub fn insert(&mut self, value: T) -> (r: Handle)
        requires
            old(self).wf(),
        ensures
            final(self).wf(),
            !old(self)@.contains_key(r),
            final(self)@ == old(self)@.insert(r, value),
            final(self).live(r),
            forall|h: Handle| old(self).dead(h) ==> final(self).dead(h),
            old(self).is_dense() ==> final(self).is_dense() && final(self).slot_count() == old(
                self,
            ).slot_count() + 1 && r == (Handle { index: old(self).slot_count() as usize, generation: 0u64 }),
    {
        let r = match self.free_slot {
            Some(idx) => {
                proof {
                    let fo = self.free_order@;
                    assert(fo.len() > 0);
                    assert((fo[0] as int) < self.data@.len());
                    assert(self.data@[fo[0] as int] is Free);
                    assert(idx == fo[0]);
                }
                let (next, generation) = match &self.data[idx] {
                    Slot::Free { next_free, generation } => (*next_free, *generation),
                    Slot::Occupied { .. } => {
                        proof {
                            assert(false);
                        }
                        (None::<usize>, 0u64)
                    },
                };
                self.free_slot = next;
                self.data.set(idx, Slot::Occupied { value, generation });
                proof {
                    self.free_order@ = self.free_order@.drop_first();
                }
                Handle { index: idx, generation }
            },
            None => {
                let idx = self.data.len();
                self.data.push(Slot::Occupied { value, generation: 0 });
                Handle { index: idx, generation: 0 }
            },
        };
        proof {
            assert(self@ =~= old(self)@.insert(r, value));
        }
        r
    }

    /// Removes the value `handle` names and returns it; returns `None`, and
    /// changes nothing, when the handle is stale, forged or out of range. A
    /// successful removal frees the slot, moves its generation strictly up,
    /// and leaves the handle dead for ever.
    pub fn remove(&mut self, handle: Handle) -> (r: Option<T>)
        requires
            old(self).wf(),
        ensures
            final(self).wf(),
            final(self)@ == old(self)@.remove(handle),
            r == (if old(self)@.contains_key(handle) {
                Some(old(self)@[handle])
            } else {
                None::<T>
            }),
            old(self)@.contains_key(handle) ==> final(self).dead(handle),
            forall|h: Handle| old(self).dead(h) ==> final(self).dead(h),
    {
        if self.get(&handle).is_none() {
            proof {
                assert(self@ =~= old(self)@.remove(handle));
            }
            return None;
        }
        let next_generation = handle.generation + 1;
        let reusable = next_generation < u64::MAX;
        let mut slot = Slot::Free {
            next_free: if reusable {
                self.free_slot
            } else {
                None
            },
            generation: next_generation,
        };
        self.data.set_and_swap(handle.index, &mut slot);
        if reusable {
            self.free_slot = Some(handle.index);
            proof {
                self.free_order@ = seq![handle.index] + self.free_order@;
            }
        }
        proof {
            assert(self@ =~= old(self)@.remove(handle));
        }
        match slot {
            Slot::Occupied { value, .. } => Some(value),
            Slot::Free { .. } => {
                proof {
                    assert(false);
                }
                None
            },
        }
    }

    /// Looks the handle up without changing anything: `Some` with the stored
    /// value exactly when the handle is live.
    pub fn get(&self, handle: &Handle) -> (r: Option<&T>)
        ensures
            (match r {
                Some(v) => self@.contains_key(*handle) && *v == self@[*handle],
                None => !self@.contains_key(*handle),
            }),
    {
        if handle.index >= self.data.len() {
            return None;
        }
        match &self.data[handle.index] {
            Slot::Occupied { generation, value } => {
                if *generation == handle.generation {
                    Some(value)
                } else {
                    None
                }
            },
            Slot::Free { .. } => None,
        }
    }

    /// Updates the value `handle` names in place, by swapping it with
    /// `*value`, and returns `true`; when the handle is stale, forged or out
    /// of range it returns `false` and nothing changes. (Verus cannot hand a
    /// `&mut` borrow of a slot's interior back to the caller, so the update
    /// is a swap rather than a returned mutable reference.)
    pub fn get_mut(&mut self, handle: &Handle, value: &mut T) -> (r: bool)
        requires
            old(self).wf(),
        ensures
            final(self).wf(),
            r == old(self)@.contains_key(*handle),
            r ==> final(self)@ == old(self)@.insert(*handle, *old(value)) && *final(value) == old(
                self,
            )@[*handle],
            !r ==> final(self)@ == old(self)@ && *final(value) == *old(value),
            forall|h: Handle| old(self).dead(h) ==> final(self).dead(h),
            final(self).is_dense() == old(self).is_dense(),
            final(self).slot_count() == old(self).slot_count(),
    {
        if self.get(handle).is_none() {
            return false;
        }
        let mut slot = Slot::Free { next_free: None, generation: 0 };
        self.data.set_and_swap(handle.index, &mut slot);
        match slot {
            Slot::Occupied { value: mut stored, generation } => {
                core::mem::swap(&mut stored, value);
                self.data.set(handle.index, Slot::Occupied { value: stored, generation });
            },
            Slot::Free { .. } => {
                proof {
                    assert(false);
                }
            },
        }
        proof {
            assert(self@ =~= old(self)@.insert(*handle, *old(value)));
            let s0 = old(self).data@;
            let s1 = self.data@;
            let i0 = handle.index as int;
            assert(s1 =~= s0.update(i0, s1[i0]));
            assert(s1[i0] is Occupied);
            assert(s1[i0]->Occupied_generation == s0[i0]->Occupied_generation);
            assert forall|i: int| 0 <= i < s1.len() && i != i0 implies s1[i] == s0[i] by {}
            assert(self.is_dense() == old(self).is_dense());
        }
        true
    }
}

/// A dead handle is absent from the arena's map, so `get`, `get_mut` and
/// `remove` all miss on it. Together with the operations' contracts — removal
/// makes a handle dead, and every operation keeps dead handles dead — a handle
/// returns `None` for ever once its value is removed, across any sequence of
/// later inserts, updates and removals, even ones that reuse its slot.
/// In an arena that has never freed a slot, the live handles are exactly the
/// generation-zero handles with index below the slot count.
pub proof fn lemma_dense_contains<T>(a: Arena<T>)
    requires
        a.is_dense(),
    ensures
        forall|h: Handle|
            a@.contains_key(h) <==> (h.generation == 0 && (h.index as int) < a.slot_count()),
{
    assert forall|h: Handle|
        a@.contains_key(h) <==> (h.generation == 0 && (h.index as int) < a.slot_count()) by {
        if h.generation == 0 && (h.index as int) < a.slot_count() {
            assert(a.live(h));
        }
    }
}

pub proof fn lemma_dead_handle_is_absent<T>(a: Arena<T>, h: Handle)
    requires
        a.wf(),
        a.dead(h),
    ensures
        !a@.contains_key(h),
{
}

} // verus!
