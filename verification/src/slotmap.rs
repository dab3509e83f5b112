//! Slot-based allocator: a free-list-backed arena handing out stable
//! small-integer handles.
//!
//! Each slot is either occupied or free; the free slots form a chain
//! starting at `head`, so insertion reuses a freed slot in constant time
//! before it ever grows the arena. A released handle may be reused; every
//! operation on a stale or out-of-range handle answers "not found" instead
//! of failing.

use vstd::prelude::*;

verus! {

enum Slot<T> {
    Occupied(T),
    Free(u32),
}

impl<T> Slot<T> {
    fn as_occupied_mut(&mut self) -> (r: Option<&mut T>)
        ensures
            match r {
                Some(v) => {
                    &&& *old(self) == Slot::Occupied(*v)
                    &&& *final(self) == Slot::Occupied(*final(v))
                },
                None => *old(self) is Free && *final(self) == *old(self),
            },
    {
        match self {
            Slot::Occupied(v) => Some(v),
            Slot::Free(_) => None,
        }
    }
}

/// Arena of tagged slots with a free list threaded through the free ones.
pub struct SlotMap<T> {
    head: u32,
    entries: Vec<Slot<T>>,
    free_list: Ghost<Seq<u32>>,
}

impl<T> SlotMap<T> {
    /// The abstract content: one optional value per slot, in slot order.
    pub closed spec fn view(&self) -> Seq<Option<T>> {
        self.entries@.map_values(
            |s: Slot<T>|
                match s {
                    Slot::Occupied(v) => Some(v),
                    Slot::Free(_) => None,
                },
        )
    }

    spec fn slot_next(s: Slot<T>) -> u32 {
        match s {
            Slot::Free(nx) => nx,
            Slot::Occupied(_) => 0,
        }
    }

    /// The free chain, followed from `head`, visits exactly the free
    /// slots, each once, and ends at the sentinel; no occupied slot is
    /// reachable from it.
    pub closed spec fn wf(&self) -> bool {
        let fs = self.free_list@;
        let n = self.entries@.len() as int;
        &&& n <= 0xFFFF_FFFF
        &&& forall|j: int|
            0 <= j < fs.len() ==> (#[trigger] fs[j]) < n && self.entries@[fs[j] as int] is Free
        &&& forall|j: int, k: int| 0 <= j < k < fs.len() ==> fs[j] != fs[k]
        &&& forall|j: int|
            0 <= j < fs.len() ==> Self::slot_next(self.entries@[(#[trigger] fs[j]) as int]) == (
            if j + 1 < fs.len() {
                fs[j + 1]
            } else {
                u32::MAX
            })
        &&& self.head == (if fs.len() > 0 {
            fs[0]
        } else {
            u32::MAX
        })
        &&& forall|i: int|
            0 <= i < n && (#[trigger] self.entries@[i]) is Free ==> self.free_list@.contains(
                i as u32,
            )
    }

    /// The index the next insertion will use: the head of the free chain,
    /// or one past the end when no slot is free.
    pub closed spec fn spec_next_idx(&self) -> int {
        if self.free_list@.len() > 0 {
            self.free_list@[0] as int
        } else {
            self.entries@.len() as int
        }
    }

    /// An empty arena.
    pub fn new() -> (r: SlotMap<T>)
        ensures
            r.wf(),
            r@ == Seq::<Option<T>>::empty(),
            r.spec_next_idx() == 0,
    {
        let r = SlotMap { head: u32::MAX, entries: Vec::new(), free_list: Ghost(Seq::empty()) };
        proof {
            assert(r@ =~= Seq::<Option<T>>::empty());
        }
        r
    }

    /// The value in a live slot; "not found" for a freed or never-issued
    /// handle.
    pub fn get(&self, i: usize) -> (r: Option<&T>)
        ensures
            match r {
                Some(v) => i < self@.len() && self@[i as int] == Some(*v),
                None => i >= self@.len() || self@[i as int] is None,
            },
    {
        if i < self.entries.len() {
            match &self.entries[i] {
                Slot::Occupied(v) => Some(v),
                Slot::Free(_) => None,
            }
        } else {
            None
        }
    }

    /// Exclusive access to a live slot's value; the free chain and every
    /// other slot stay as they were.
    pub fn get_mut(&mut self, i: usize) -> (r: Option<&mut T>)
        ensures
            match r {
                Some(m) => {
                    &&& i < old(self)@.len()
                    &&& old(self)@[i as int] == Some(*m)
                    &&& final(self)@.len() == old(self)@.len()
                    &&& final(self)@[i as int] == Some(*final(m))
                    &&& forall|k: int|
                        0 <= k < old(self)@.len() && k != i ==> final(self)@[k] == old(self)@[k]
                    &&& (old(self).wf() ==> final(self).wf())
                    &&& final(self).spec_next_idx() == old(self).spec_next_idx()
                },
                None => {
                    &&& i >= old(self)@.len() || old(self)@[i as int] is None
                    &&& *final(self) == *old(self)
                },
            },
    {
        if i >= self.entries.len() {
            return None;
        }
        let occupied = match &self.entries[i] {
            Slot::Occupied(_) => true,
            Slot::Free(_) => false,
        };
        if !occupied {
            return None;
        }
        let e = &mut self.entries[i];
        e.as_occupied_mut()
    }

    /// Where the next insertion will land.
    pub fn next_idx(&self) -> (r: usize)
        requires
            self.wf(),
        ensures
            r == self.spec_next_idx(),
            r <= self@.len(),
            r < self@.len() ==> self@[r as int] is None,
    {
        if self.head == u32::MAX {
            self.entries.len()
        } else {
            self.head as usize
        }
    }

    /// Store a value, reusing the freed slot at the head of the free chain
    /// when there is one and growing the arena only otherwise; the handle
    /// returned is exactly the predicted `next_idx`.
    pub fn insert(&mut self, value: T) -> (i: usize)
        requires
            old(self).wf(),
            old(self)@.len() < 0xFFFF_FFFF,
        ensures
            final(self).wf(),
            i == old(self).spec_next_idx(),
            i <= old(self)@.len(),
            i == old(self)@.len() ==> final(self)@ == old(self)@.push(Some(value)),
            i < old(self)@.len() ==> old(self)@[i as int] is None && final(self)@ == old(
                self,
            )@.update(i as int, Some(value)),
    {
        if self.head == u32::MAX {
            let i = self.entries.len();
            self.entries.push(Slot::Occupied(value));
            proof {
                assert(self.free_list@.len() == 0);
                assert(self@ =~= old(self)@.push(Some(value)));
            }
            i
        } else {
            let id = self.head as usize;
            proof {
                assert(self.free_list@.len() > 0);
            }
            let next: u32 = match &self.entries[id] {
                Slot::Free(nx) => *nx,
                Slot::Occupied(_) => {
                    proof {
                        assert(false);
                    }
                    0
                },
            };
            let e = &mut self.entries[id];
            *e = Slot::Occupied(value);
            self.head = next;
            proof {
                let fs = self.free_list@;
                self.free_list@ = self.free_list@.skip(1);
                let fs2 = self.free_list@;
                assert(self@ =~= old(self)@.update(id as int, Some(value)));
                assert forall|i2: int|
                    0 <= i2 < self.entries@.len() && (#[trigger] self.entries@[i2]) is Free
                    implies fs2.contains(i2 as u32) by {
                    assert(old(self).entries@[i2] is Free);
                    let j = choose|j: int|
                        0 <= j < fs.len() && fs[j] == i2 as u32;
                    assert(j != 0);
                    assert(fs2[j - 1] == i2 as u32);
                }
            }
            id
        }
    }

    /// Free a live slot, returning its value and putting the slot at the
    /// head of the free chain, so the handle is the next to be reused.
    /// Releasing an already-free or out-of-range handle answers "not
    /// found" and changes nothing at all — the free chain is untouched.
    pub fn release(&mut self, i: usize) -> (r: Option<T>)
        requires
            old(self).wf(),
        ensures
            final(self).wf(),
            match r {
                Some(v) => {
                    &&& i < old(self)@.len()
                    &&& old(self)@[i as int] == Some(v)
                    &&& final(self)@ == old(self)@.update(i as int, None)
                    &&& final(self).spec_next_idx() == i
                },
                None => {
                    &&& i >= old(self)@.len() || old(self)@[i as int] is None
                    &&& *final(self) == *old(self)
                },
            },
    {
        if i >= self.entries.len() {
            return None;
        }
        let occupied = match &self.entries[i] {
            Slot::Occupied(_) => true,
            Slot::Free(_) => false,
        };
        if !occupied {
            return None;
        }
        let mut slot: Slot<T> = Slot::Free(self.head);
        core::mem::swap(&mut slot, &mut self.entries[i]);
        self.head = i as u32;
        proof {
            let fs = self.free_list@;
            self.free_list@ = seq![i as u32] + self.free_list@;
            let fs2 = self.free_list@;
            assert(self@ =~= old(self)@.update(i as int, None));
            assert forall|j: int| 0 <= j < fs.len() implies fs[j] != i as u32 by {
                assert(old(self).entries@[fs[j] as int] is Free);
            }
            assert forall|i2: int|
                0 <= i2 < self.entries@.len() && (#[trigger] self.entries@[i2]) is Free
                implies fs2.contains(i2 as u32) by {
                if i2 == i as int {
                    assert(fs2[0] == i as u32);
                } else {
                    assert(old(self).entries@[i2] is Free);
                    let j = choose|j: int|
                        0 <= j < fs.len() && fs[j] == i2 as u32;
                    assert(fs2[j + 1] == i2 as u32);
                }
            }
        }
        match slot {
            Slot::Occupied(v) => Some(v),
            Slot::Free(_) => {
                proof {
                    assert(false);
                }
                None
            },
        }
    }

    /// Drop every live entry failing the predicate, threading each freed
    /// slot onto the free chain so later insertions reuse it; entries that
    /// pass, and slots already free, stay as they were.
    pub fn retain<F: Fn(usize, &T) -> bool>(&mut self, f: F)
        requires
            old(self).wf(),
            forall|k: usize, v: T|
                k < old(self)@.len() && old(self)@[k as int] == Some(v) ==> f.requires((k, &v)),
        ensures
            final(self).wf(),
            final(self)@.len() == old(self)@.len(),
            forall|k: int|
                0 <= k < old(self)@.len() ==> match #[trigger] old(self)@[k] {
                    None => final(self)@[k] is None,
                    Some(v) => (final(self)@[k] == Some(v) && f.ensures((k as usize, &v), true)) || (
                    final(self)@[k] is None && f.ensures((k as usize, &v), false)),
                },
    {
        let n = self.entries.len();
        let mut i: usize = 0;
        while i < n
            invariant
                n == self@.len(),
                i <= n,
                self.wf(),
                self@.len() == old(self)@.len(),
                forall|k: usize, v: T|
                    k < old(self)@.len() && old(self)@[k as int] == Some(v) ==> f.requires(
                        (k, &v),
                    ),
                forall|k: int| i <= k < self@.len() ==> self@[k] == old(self)@[k],
                forall|k: int|
                    0 <= k < i ==> match #[trigger] old(self)@[k] {
                        None => self@[k] is None,
                        Some(v) => (self@[k] == Some(v) && f.ensures((k as usize, &v), true)) || (
                        self@[k] is None && f.ensures((k as usize, &v), false)),
                    },
            decreases n - i,
        {
            let keep: bool = match &self.entries[i] {
                Slot::Occupied(v) => f(i, v),
                Slot::Free(_) => true,
            };
            if !keep {
                let ghost pre = *self;
                let mut slot: Slot<T> = Slot::Free(self.head);
                core::mem::swap(&mut slot, &mut self.entries[i]);
                self.head = i as u32;
                proof {
                    let fs = pre.free_list@;
                    self.free_list@ = seq![i as u32] + fs;
                    let fs2 = self.free_list@;
                    assert forall|j: int| 0 <= j < fs.len() implies fs[j] != i as u32 by {
                        assert(pre.entries@[fs[j] as int] is Free);
                    }
                    assert forall|i2: int|
                        0 <= i2 < self.entries@.len() && (#[trigger] self.entries@[i2]) is Free
                        implies fs2.contains(i2 as u32) by {
                        if i2 == i as int {
                            assert(fs2[0] == i as u32);
                        } else {
                            assert(pre.entries@[i2] is Free);
                            let j = choose|j: int| 0 <= j < fs.len() && fs[j] == i2 as u32;
                            assert(fs2[j + 1] == i2 as u32);
                        }
                    }
                    assert(self.wf());
                }
            }
            i = i + 1;
        }
    }
}

/// A cursor walking the live entries of a [`SlotMap`] in slot order,
/// skipping free slots.
pub struct IterMut {
    at: usize,
}

impl IterMut {
    /// How far the cursor has come.
    pub closed spec fn pos(&self) -> int {
        self.at as int
    }

    /// The next live slot at or after the cursor, advancing past it; or
    /// nothing when only free slots remain.
    pub fn next<T>(&mut self, map: &SlotMap<T>) -> (r: Option<usize>)
        ensures
            match r {
                Some(i) => {
                    &&& old(self).pos() <= i < map@.len()
                    &&& map@[i as int] is Some
                    &&& forall|k: int| old(self).pos() <= k < i ==> map@[k] is None
                    &&& final(self).pos() == i + 1
                },
                None => {
                    &&& forall|k: int| old(self).pos() <= k < map@.len() ==> map@[k] is None
                    &&& final(self).pos() >= map@.len()
                },
            },
    {
        loop
            invariant
                old(self).pos() <= self.at as int,
                forall|k: int| old(self).pos() <= k < self.at as int ==> map@[k] is None,
            ensures
                (self.at as int) >= map@.len() || map@[self.at as int] is Some,
                forall|k: int| old(self).pos() <= k < self.at as int ==> map@[k] is None,
            decreases map@.len() + 1 - self.at,
        {
            if self.at >= map.len_slots() {
                break ;
            }
            if map.get(self.at).is_some() {
                break ;
            }
            self.at = self.at + 1;
        }
        if self.at < map.len_slots() {
            let i = self.at;
            self.at = self.at + 1;
            Some(i)
        } else {
            None
        }
    }
}

impl<T> SlotMap<T> {
    /// How many slots the arena holds, free ones included.
    pub fn len_slots(&self) -> (n: usize)
        ensures
            n == self@.len(),
    {
        self.entries.len()
    }

    /// A cursor over the live entries, in slot order.
    pub fn iter_mut(&self) -> (r: IterMut)
        ensures
            r.pos() == 0,
    {
        IterMut { at: 0 }
    }
}

} // verus!
