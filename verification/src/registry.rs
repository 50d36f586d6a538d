//! A generation-checked slot arena for live computations.
//!
//! Handles are stable: a slot can be reused after removal, but the generation
//! counter stored in the slot is bumped on every removal, so a handle to a
//! removed entry never resolves again.  Every insertion is stamped with a
//! monotonically increasing sequence number, which gives a total creation
//! order over the live entries.

use vstd::prelude::*;

verus! {

/// A stable reference to a registry slot: an index plus the generation the
/// slot had when the entry was inserted.
#[derive(Clone, Copy, PartialEq, Eq, Structural, Debug)]
pub struct HookKey {
    pub index: usize,
    pub generation: u64,
}

struct Slot<H> {
    generation: u64,
    entry: Option<(H, u64)>,
}

/// A handle-addressed arena.  Insertion assigns the next sequence number;
/// removal invalidates exactly the removed handle.
pub struct Registry<H> {
    slots: Vec<Slot<H>>,
    next_seq: u64,
}

impl<H> Registry<H> {
    /// A key resolves iff its slot still carries the generation it was
    /// created with and the slot is occupied.
    pub closed spec fn live(&self, k: HookKey) -> bool {
        &&& k.index < self.slots@.len()
        &&& self.slots@[k.index as int].generation == k.generation
        &&& self.slots@[k.index as int].entry is Some
    }

    /// The entry a live key resolves to.
    pub closed spec fn hook_of(&self, k: HookKey) -> H
        recommends
            self.live(k),
    {
        self.slots@[k.index as int].entry.unwrap().0
    }

    /// The creation-order stamp of a live key.
    pub closed spec fn seq_of(&self, k: HookKey) -> u64
        recommends
            self.live(k),
    {
        self.slots@[k.index as int].entry.unwrap().1
    }

    /// The stamp the next insertion will receive.
    pub closed spec fn next_seq(&self) -> u64 {
        self.next_seq
    }

    /// A key whose entry was removed: its slot's generation has moved past
    /// it (or is exhausted and vacant), so the key can never resolve again
    /// — removal is permanent.
    pub closed spec fn gone(&self, k: HookKey) -> bool {
        k.index < self.slots@.len() && (
            self.slots@[k.index as int].generation > k.generation
            || (self.slots@[k.index as int].generation == k.generation
                && k.generation == u64::MAX
                && self.slots@[k.index as int].entry is None)
        )
    }

    /// A gone key never resolves.
    pub proof fn lemma_gone_dead(&self, k: HookKey)
        requires
            self.gone(k),
        ensures
            !self.live(k),
    {
    }

    /// The number of occupied slots: how many computations are live.
    pub closed spec fn occupied(&self) -> nat {
        Self::count_occupied(self.slots@)
    }

    spec fn count_occupied(s: Seq<Slot<H>>) -> nat
        decreases s.len(),
    {
        if s.len() == 0 {
            0
        } else {
            Self::count_occupied(s.drop_last()) + if s.last().entry is Some { 1nat } else { 0nat }
        }
    }

    proof fn lemma_count_update(s: Seq<Slot<H>>, i: int, v: Slot<H>)
        requires
            0 <= i < s.len(),
        ensures
            Self::count_occupied(s.update(i, v)) + (if s[i].entry is Some { 1nat } else { 0nat })
                == Self::count_occupied(s) + (if v.entry is Some { 1nat } else { 0nat }),
        decreases s.len(),
    {
        if i == s.len() - 1 {
            assert(s.update(i, v).drop_last() =~= s.drop_last());
            assert(s.update(i, v).last() == v);
        } else {
            Self::lemma_count_update(s.drop_last(), i, v);
            assert(s.update(i, v).drop_last() =~= s.drop_last().update(i, v));
            assert(s.update(i, v).last() == s.last());
        }
    }

    proof fn lemma_count_push(s: Seq<Slot<H>>, v: Slot<H>)
        ensures
            Self::count_occupied(s.push(v)) == Self::count_occupied(s)
                + (if v.entry is Some { 1nat } else { 0nat }),
    {
        assert(s.push(v).drop_last() =~= s);
        assert(s.push(v).last() == v);
    }

    /// Sequence numbers are assigned once and never reused: all live entries
    /// carry distinct stamps below `next_seq`.
    pub closed spec fn wf(&self) -> bool {
        &&& forall|i: int| 0 <= i < self.slots@.len() && self.slots@[i].entry is Some
                ==> (#[trigger] self.slots@[i].entry).unwrap().1 < self.next_seq
        &&& forall|i: int, j: int|
                0 <= i < self.slots@.len() && 0 <= j < self.slots@.len() && i != j
                && self.slots@[i].entry is Some && (#[trigger] self.slots@[j].entry) is Some
                ==> (#[trigger] self.slots@[i].entry).unwrap().1 != self.slots@[j].entry.unwrap().1
    }

    /// A live key's stamp lies below the next stamp to be handed out.
    pub proof fn lemma_stamp_bounded(&self, k: HookKey)
        requires
            self.wf(),
            self.live(k),
        ensures
            self.seq_of(k) < self.next_seq(),
    {
    }

    /// Two distinct live keys always differ in their sequence stamps.
    pub proof fn lemma_live_seqs_distinct(&self, k1: HookKey, k2: HookKey)
        requires
            self.wf(),
            self.live(k1),
            self.live(k2),
            k1 != k2,
        ensures
            self.seq_of(k1) != self.seq_of(k2),
            self.seq_of(k1) < self.next_seq(),
            self.seq_of(k2) < self.next_seq(),
    {
        assert(k1.index != k2.index);
    }

    pub fn new() -> (r: Registry<H>)
        ensures
            r.wf(),
            r.next_seq() == 0,
            r.occupied() == 0,
            forall|k: HookKey| !r.live(k),
    {
        Registry { slots: Vec::new(), next_seq: 0 }
    }

    /// Insert an entry, reusing a vacant slot where one is available, and
    /// stamp it with the next sequence number.
    pub fn insert(&mut self, h: H) -> (k: HookKey)
        requires
            old(self).wf(),
            old(self).next_seq() < u64::MAX,
        ensures
            final(self).wf(),
            !old(self).live(k),
            final(self).live(k),
            final(self).hook_of(k) == h,
            final(self).seq_of(k) == old(self).next_seq(),
            final(self).next_seq() == old(self).next_seq() + 1,
            final(self).occupied() == old(self).occupied() + 1,
            !final(self).gone(k),
            forall|k2: HookKey| #[trigger] old(self).gone(k2) ==> final(self).gone(k2),
            forall|k2: HookKey| k2 != k ==> (final(self).live(k2) <==> old(self).live(k2)),
            forall|k2: HookKey| k2 != k && old(self).live(k2)
                ==> final(self).hook_of(k2) == old(self).hook_of(k2)
                    && final(self).seq_of(k2) == old(self).seq_of(k2),
    {
        let seq = self.next_seq;
        self.next_seq = self.next_seq + 1;
        match Self::find_vacant(&self.slots) {
            Some(i) => {
                let generation = self.slots[i].generation;
                self.slots[i] = Slot { generation, entry: Some((h, seq)) };
                proof {
                    Self::lemma_count_update(
                        old(self).slots@,
                        i as int,
                        self.slots@[i as int],
                    );
                }
                HookKey { index: i, generation }
            }
            None => {
                self.slots.push(Slot { generation: 0, entry: Some((h, seq)) });
                proof {
                    Self::lemma_count_push(old(self).slots@, self.slots@.last());
                }
                HookKey { index: self.slots.len() - 1, generation: 0 }
            }
        }
    }

    /// The first slot that is vacant and still has generations to hand out.
    fn find_vacant(slots: &Vec<Slot<H>>) -> (r: Option<usize>)
        ensures
            r matches Some(i) ==> i < slots@.len()
                && slots@[i as int].entry is None
                && slots@[i as int].generation < u64::MAX,
    {
        let mut i: usize = 0;
        while i < slots.len()
            invariant
                i <= slots@.len(),
            decreases slots@.len() - i,
        {
            if slots[i].entry.is_none() && slots[i].generation < u64::MAX {
                return Some(i);
            }
            i = i + 1;
        }
        None
    }

    /// The stamp the next insertion will receive.
    pub fn next_stamp(&self) -> (r: u64)
        ensures
            r == self.next_seq(),
    {
        self.next_seq
    }

    /// Whether another insertion can be stamped.
    pub fn can_insert(&self) -> (r: bool)
        ensures
            r == (self.next_seq() < u64::MAX),
    {
        self.next_seq < u64::MAX
    }

    /// Resolve a key; stale keys yield `None`.
    pub fn get(&self, k: HookKey) -> (r: Option<&H>)
        ensures
            self.live(k) ==> r == Some(&self.hook_of(k)),
            !self.live(k) ==> r is None,
    {
        if k.index < self.slots.len() {
            let slot = &self.slots[k.index];
            if slot.generation == k.generation {
                match &slot.entry {
                    Some(pair) => Some(&pair.0),
                    None => None,
                }
            } else {
                None
            }
        } else {
            None
        }
    }

    /// The sequence stamp of a key, where the key still resolves.
    pub fn seq(&self, k: HookKey) -> (r: Option<u64>)
        ensures
            self.live(k) ==> r == Some(self.seq_of(k)),
            !self.live(k) ==> r is None,
    {
        if k.index < self.slots.len() {
            let slot = &self.slots[k.index];
            if slot.generation == k.generation {
                match &slot.entry {
                    Some(pair) => Some(pair.1),
                    None => None,
                }
            } else {
                None
            }
        } else {
            None
        }
    }

    /// Replace the entry a live key resolves to, keeping its stamp.
    /// On a stale key this is a no-op, never an error.
    pub fn set(&mut self, k: HookKey, h: H)
        requires
            old(self).wf(),
        ensures
            final(self).wf(),
            final(self).next_seq() == old(self).next_seq(),
            final(self).occupied() == old(self).occupied(),
            forall|k2: HookKey| (#[trigger] final(self).gone(k2)) == old(self).gone(k2),
            forall|k2: HookKey| final(self).live(k2) <==> old(self).live(k2),
            old(self).live(k) ==> final(self).hook_of(k) == h && final(self).seq_of(k) == old(self).seq_of(k),
            forall|k2: HookKey| k2 != k && old(self).live(k2)
                ==> final(self).hook_of(k2) == old(self).hook_of(k2)
                    && final(self).seq_of(k2) == old(self).seq_of(k2),
    {
        if k.index < self.slots.len() {
            let slot = &self.slots[k.index];
            if slot.generation == k.generation {
                if let Some(pair) = &slot.entry {
                    let seq = pair.1;
                    let generation = slot.generation;
                    self.slots[k.index] = Slot { generation, entry: Some((h, seq)) };
                    proof {
                        Self::lemma_count_update(
                            old(self).slots@,
                            k.index as int,
                            self.slots@[k.index as int],
                        );
                    }
                }
            }
        }
    }

    /// Swap the entry a live key resolves to for another, returning the old
    /// entry.  On a stale key this is a no-op returning `None`.
    pub fn swap(&mut self, k: HookKey, h: H) -> (r: Option<H>)
        requires
            old(self).wf(),
        ensures
            final(self).wf(),
            final(self).next_seq() == old(self).next_seq(),
            final(self).occupied() == old(self).occupied(),
            forall|k2: HookKey| (#[trigger] final(self).gone(k2)) == old(self).gone(k2),
            forall|k2: HookKey| final(self).live(k2) <==> old(self).live(k2),
            old(self).live(k) ==> r == Some(old(self).hook_of(k))
                && final(self).hook_of(k) == h && final(self).seq_of(k) == old(self).seq_of(k),
            !old(self).live(k) ==> r is None && *final(self) == *old(self),
            forall|k2: HookKey| k2 != k && old(self).live(k2)
                ==> final(self).hook_of(k2) == old(self).hook_of(k2)
                    && final(self).seq_of(k2) == old(self).seq_of(k2),
    {
        if k.index < self.slots.len() && self.slots[k.index].generation == k.generation
            && self.slots[k.index].entry.is_some() {
            let slot = &mut self.slots[k.index];
            let r = match slot.entry.take() {
                Some(pair) => {
                    let seq = pair.1;
                    slot.entry = Some((h, seq));
                    Some(pair.0)
                }
                None => None,
            };
            proof {
                assert(self.slots@ =~= old(self).slots@.update(
                    k.index as int,
                    self.slots@[k.index as int],
                ));
                Self::lemma_count_update(
                    old(self).slots@,
                    k.index as int,
                    self.slots@[k.index as int],
                );
            }
            r
        } else {
            None
        }
    }

    /// Detach the entry a live key resolves to and invalidate the key.
    /// On a stale key this is a no-op, never an error.
    pub fn remove(&mut self, k: HookKey) -> (r: Option<H>)
        requires
            old(self).wf(),
        ensures
            final(self).wf(),
            final(self).next_seq() == old(self).next_seq(),
            !final(self).live(k),
            old(self).live(k) ==> r == Some(old(self).hook_of(k))
                && final(self).occupied() + 1 == old(self).occupied()
                && final(self).gone(k),
            forall|k2: HookKey| #[trigger] old(self).gone(k2) ==> final(self).gone(k2),
            !old(self).live(k) ==> r is None && *final(self) == *old(self),
            forall|k2: HookKey| k2 != k ==> (final(self).live(k2) <==> old(self).live(k2)),
            forall|k2: HookKey| k2 != k && old(self).live(k2)
                ==> final(self).hook_of(k2) == old(self).hook_of(k2)
                    && final(self).seq_of(k2) == old(self).seq_of(k2),
    {
        if k.index < self.slots.len() && self.slots[k.index].generation == k.generation
            && self.slots[k.index].entry.is_some() {
            let slot = &mut self.slots[k.index];
            let r = match slot.entry.take() {
                Some(pair) => {
                    if slot.generation < u64::MAX {
                        slot.generation = slot.generation + 1;
                    }
                    Some(pair.0)
                }
                None => None,
            };
            proof {
                assert(self.slots@ =~= old(self).slots@.update(
                    k.index as int,
                    self.slots@[k.index as int],
                ));
                Self::lemma_count_update(
                    old(self).slots@,
                    k.index as int,
                    self.slots@[k.index as int],
                );
            }
            r
        } else {
            None
        }
    }
}

} // verus!
