//! Trackable cells with read/write flags and subscriber lists.
//!
//! A signal records, per update cycle, whether it was read (`read`) and
//! whether it was mutated (`written`).  Splitting the two lets one pass
//! double as "what does this computation depend on" and "did anything
//! change".  A computation subscribes to exactly the signals whose `read`
//! flag is set when it registers.

use vstd::prelude::*;

use crate::registry::HookKey;

verus! {

/// A single trackable value with dirty/read flags and subscriber handles.
pub struct Signal {
    data: u64,
    written: bool,
    read: bool,
    subscribers: Vec<HookKey>,
}

/// The tracking interface of a signal cell.
pub trait SignalMethods: Sized {
    /// The tracked value.
    spec fn value(&self) -> u64;

    /// Whether the value was mutated since the flags were last cleared.
    spec fn written_flag(&self) -> bool;

    /// Whether the value was read since the flags were last cleared.
    spec fn read_flag(&self) -> bool;

    /// The registered subscriber handles.
    spec fn subs(&self) -> Seq<HookKey>;

    /// Reset both flags; called before a computation body runs.
    fn clear(&mut self)
        ensures
            final(self).value() == old(self).value(),
            !final(self).written_flag(),
            !final(self).read_flag(),
            final(self).subs() == old(self).subs();

    /// Subscribe `dep` iff the cell was read since the flags were cleared.
    fn register_dep(&mut self, dep: HookKey)
        ensures
            final(self).value() == old(self).value(),
            final(self).written_flag() == old(self).written_flag(),
            final(self).read_flag() == old(self).read_flag(),
            old(self).read_flag() ==> final(self).subs() == old(self).subs().push(dep),
            !old(self).read_flag() ==> final(self).subs() == old(self).subs();

    /// Whether the cell is dirty.
    fn changed(&self) -> (r: bool)
        ensures
            r == self.written_flag();

    /// The subscriber handles.
    fn deps(&self) -> (r: &Vec<HookKey>)
        ensures
            r@ == self.subs();
}

impl Signal {
    pub fn new(data: u64) -> (r: Signal)
        ensures
            r.value() == data,
            !r.written_flag(),
            !r.read_flag(),
            r.subs() == Seq::<HookKey>::empty(),
    {
        Signal { data, written: false, read: false, subscribers: Vec::new() }
    }

    /// Read the value, marking the cell as read.
    pub fn get(&mut self) -> (v: u64)
        ensures
            v == old(self).value(),
            final(self).value() == old(self).value(),
            final(self).written_flag() == old(self).written_flag(),
            final(self).read_flag(),
            final(self).subs() == old(self).subs(),
    {
        self.read = true;
        self.data
    }

    /// Overwrite the value, marking the cell as dirty.
    pub fn set(&mut self, v: u64)
        ensures
            final(self).value() == v,
            final(self).written_flag(),
            final(self).read_flag() == old(self).read_flag(),
            final(self).subs() == old(self).subs(),
    {
        self.written = true;
        self.data = v;
    }

    /// The read flag, without touching it.
    pub fn peek_read(&self) -> (r: bool)
        ensures
            r == self.read_flag(),
    {
        self.read
    }

    /// Overwrite both flags, restoring a snapshot taken before an isolated
    /// run.
    pub fn force_flags(&mut self, w: bool, rd: bool)
        ensures
            final(self).value() == old(self).value(),
            final(self).written_flag() == w,
            final(self).read_flag() == rd,
            final(self).subs() == old(self).subs(),
    {
        self.written = w;
        self.read = rd;
    }

    /// Drop every subscription `dep` holds on this cell, so that the
    /// subscriber list reflects only later registrations.
    pub fn unsubscribe(&mut self, dep: HookKey)
        ensures
            final(self).value() == old(self).value(),
            final(self).written_flag() == old(self).written_flag(),
            final(self).read_flag() == old(self).read_flag(),
            forall|k: HookKey| #[trigger] final(self).subs().contains(k)
                <==> (old(self).subs().contains(k) && k != dep),
    {
        broadcast use vstd::seq_lib::lemma_seq_contains_after_push;
        let mut kept: Vec<HookKey> = Vec::new();
        let mut i: usize = 0;
        while i < self.subscribers.len()
            invariant
                i <= self.subscribers@.len(),
                forall|k: HookKey| #[trigger] kept@.contains(k)
                    <==> (self.subscribers@.subrange(0, i as int).contains(k) && k != dep),
            decreases self.subscribers@.len() - i,
        {
            let ghost prefix = self.subscribers@.subrange(0, i as int);
            let cur = self.subscribers[i];
            if !(cur.index == dep.index && cur.generation == dep.generation) {
                kept.push(cur);
            }
            i = i + 1;
            proof {
                broadcast use vstd::seq_lib::lemma_seq_contains_after_push;
                assert(self.subscribers@.subrange(0, i as int) =~= prefix.push(cur));
            }
        }
        proof {
            assert(self.subscribers@.subrange(0, self.subscribers@.len() as int)
                =~= self.subscribers@);
        }
        self.subscribers = kept;
    }
}

impl SignalMethods for Signal {
    closed spec fn value(&self) -> u64 {
        self.data
    }

    closed spec fn written_flag(&self) -> bool {
        self.written
    }

    closed spec fn read_flag(&self) -> bool {
        self.read
    }

    closed spec fn subs(&self) -> Seq<HookKey> {
        self.subscribers@
    }

    fn clear(&mut self) {
        self.written = false;
        self.read = false;
    }

    fn register_dep(&mut self, dep: HookKey) {
        if self.read {
            self.subscribers.push(dep);
        }
    }

    fn changed(&self) -> (r: bool) {
        self.written
    }

    fn deps(&self) -> (r: &Vec<HookKey>) {
        &self.subscribers
    }
}

} // verus!
