//! The component state: signals, the computation registry, artifact slots,
//! and the update scheduler.
//!
//! Control flow: external code mutates signals (marking them dirty) and then
//! calls `update`.  The scheduler collects the subscribers of every dirty
//! signal, resolves them to creation-order stamps, and re-runs them from the
//! oldest (outermost) computation first, processing the structural effects
//! each run produces: teardown of replaced children, and notifications from
//! memoized computations to their owners.

use vstd::prelude::*;

use crate::expr::{eval, eval_expr, expr_reads, sig_values, Expr};
use crate::hook::{
    clone_expr, clone_template, direct_reads, flatten, lemma_pending_smaller, pending_of,
    tmpl_size, AttrHook, Hook, NodeHook, Pending, Template, UpdateResult, WatchHook,
};
use crate::registry::{HookKey, Registry};
use crate::signal::{Signal, SignalMethods};
use crate::text::u64_to_text;

verus! {

broadcast use vstd::seq_lib::lemma_seq_contains_after_push;

/// The core component state: the data model and all engine bookkeeping.
pub struct State {
    signals: Vec<Signal>,
    registry: Registry<Hook>,
    artifacts: Vec<String>,
    parent_registered: bool,
    outbox: Vec<u64>,
    next_resource: u64,
}

impl State {
    // ------------------------------------------------------------------
    // Views

    /// The number of signal cells.
    pub closed spec fn n_signals(&self) -> nat {
        self.signals@.len()
    }

    /// The signal cell at an index.
    pub closed spec fn sig_at(&self, i: int) -> Signal {
        self.signals@[i]
    }

    /// The row of current signal values.
    pub closed spec fn values(&self) -> Seq<u64> {
        sig_values(self.signals@)
    }

    /// Whether a computation handle still resolves.
    pub closed spec fn live(&self, k: HookKey) -> bool {
        self.registry.live(k)
    }

    /// The computation a live handle resolves to.
    pub closed spec fn hook_of(&self, k: HookKey) -> Hook {
        self.registry.hook_of(k)
    }

    /// The creation-order stamp of a live handle.
    pub closed spec fn seq_of(&self, k: HookKey) -> u64 {
        self.registry.seq_of(k)
    }

    /// The stamp the next registered computation will receive.
    pub closed spec fn next_seq(&self) -> u64 {
        self.registry.next_seq()
    }

    /// The number of live computations.
    pub closed spec fn live_hooks(&self) -> nat {
        self.registry.occupied()
    }

    /// The number of artifact slots.
    pub closed spec fn n_artifacts(&self) -> nat {
        self.artifacts@.len()
    }

    /// The text held by an artifact slot.
    pub closed spec fn artifact_at(&self, i: int) -> Seq<char> {
        self.artifacts@[i]@
    }

    /// The identifier the next keep-alive resource allocation receives;
    /// identifiers are never reused.
    pub closed spec fn next_resource_spec(&self) -> u64 {
        self.next_resource
    }

    /// Whether a parent sink is registered for outbound messages.
    pub closed spec fn parent_spec(&self) -> bool {
        self.parent_registered
    }

    /// The outbound messages not yet handed to the parent sink.
    pub closed spec fn outbox_spec(&self) -> Seq<u64> {
        self.outbox@
    }

    /// Well-formedness: creation-order stamps of live computations are
    /// distinct and below the next stamp.
    pub closed spec fn wf(&self) -> bool {
        self.registry.wf()
    }

    /// A handle whose computation was removed; removal is permanent, so a
    /// gone handle never resolves again.
    pub closed spec fn gone(&self, k: HookKey) -> bool {
        self.registry.gone(k)
    }

    /// A gone handle never resolves.
    pub proof fn lemma_gone_dead(&self, k: HookKey)
        requires
            self.gone(k),
        ensures
            !self.live(k),
    {
        self.registry.lemma_gone_dead(k);
    }

    /// Two states sharing the signal row have the same signal views.
    proof fn lemma_values_same_signals(a: State, b: State)
        requires
            a.signals == b.signals,
        ensures
            a.values() == b.values(),
            a.n_signals() == b.n_signals(),
            forall|i: int| 0 <= i < a.n_signals() ==> (#[trigger] a.sig_at(i)) == b.sig_at(i),
    {
    }

    /// A live handle's stamp lies below the next stamp to be assigned.
    pub proof fn lemma_stamp_bounded(&self, k: HookKey)
        requires
            self.wf(),
            self.live(k),
        ensures
            self.seq_of(k) < self.next_seq(),
    {
        self.registry.lemma_stamp_bounded(k);
    }

    /// Two distinct live handles carry distinct creation-order stamps.
    pub proof fn lemma_distinct_stamps(&self, k1: HookKey, k2: HookKey)
        requires
            self.wf(),
            self.live(k1),
            self.live(k2),
            k1 != k2,
        ensures
            self.seq_of(k1) != self.seq_of(k2),
            self.seq_of(k1) < self.next_seq(),
            self.seq_of(k2) < self.next_seq(),
    {
        self.registry.lemma_live_seqs_distinct(k1, k2);
    }

    // ------------------------------------------------------------------
    // Construction and signal access

    /// A fresh data model with one signal cell per initial value.
    pub fn new(initial: Vec<u64>) -> (r: State)
        ensures
            r.wf(),
            r.n_signals() == initial@.len(),
            forall|i: int| 0 <= i < initial@.len()
                ==> (#[trigger] r.sig_at(i)).value() == initial@[i]
                    && !r.sig_at(i).written_flag()
                    && !r.sig_at(i).read_flag()
                    && r.sig_at(i).subs() == Seq::<HookKey>::empty(),
            forall|k: HookKey| !r.live(k),
            r.next_seq() == 0,
            r.n_artifacts() == 0,
            !r.parent_spec(),
            r.outbox_spec() == Seq::<u64>::empty(),
            r.next_resource_spec() == 0,
    {
        let mut signals: Vec<Signal> = Vec::new();
        let mut i: usize = 0;
        while i < initial.len()
            invariant
                i <= initial@.len(),
                signals@.len() == i,
                forall|j: int| 0 <= j < i
                    ==> (#[trigger] signals@[j]).value() == initial@[j]
                        && !signals@[j].written_flag()
                        && !signals@[j].read_flag()
                        && signals@[j].subs() == Seq::<HookKey>::empty(),
            decreases initial@.len() - i,
        {
            signals.push(Signal::new(initial[i]));
            i = i + 1;
        }
        State {
            signals,
            registry: Registry::new(),
            artifacts: Vec::new(),
            parent_registered: false,
            outbox: Vec::new(),
            next_resource: 0,
        }
    }

    /// The number of signal cells.
    pub fn signal_count(&self) -> (r: usize)
        ensures
            r == self.n_signals(),
    {
        self.signals.len()
    }

    /// Read a signal's value, marking it as read.  A read outside an active
    /// computation still sets the flag; nothing consumes it.
    pub fn read_signal(&mut self, i: usize) -> (v: u64)
        requires
            i < old(self).n_signals(),
        ensures
            v == old(self).sig_at(i as int).value(),
            state_eq_except_signals(*final(self), *old(self)),
            final(self).n_signals() == old(self).n_signals(),
            forall|j: int| 0 <= j < old(self).n_signals() && j != i
                ==> final(self).sig_at(j) == old(self).sig_at(j),
            final(self).sig_at(i as int).value() == old(self).sig_at(i as int).value(),
            final(self).sig_at(i as int).written_flag() == old(self).sig_at(i as int).written_flag(),
            final(self).sig_at(i as int).read_flag(),
            final(self).sig_at(i as int).subs() == old(self).sig_at(i as int).subs(),
    {
        let s = &mut self.signals[i];
        s.get()
    }

    /// Overwrite a signal's value, marking it as dirty.
    pub fn write_signal(&mut self, i: usize, v: u64)
        requires
            i < old(self).n_signals(),
        ensures
            state_eq_except_signals(*final(self), *old(self)),
            final(self).n_signals() == old(self).n_signals(),
            forall|j: int| 0 <= j < old(self).n_signals() && j != i
                ==> final(self).sig_at(j) == old(self).sig_at(j),
            final(self).sig_at(i as int).value() == v,
            final(self).sig_at(i as int).written_flag(),
            final(self).sig_at(i as int).read_flag() == old(self).sig_at(i as int).read_flag(),
            final(self).sig_at(i as int).subs() == old(self).sig_at(i as int).subs(),
    {
        let s = &mut self.signals[i];
        s.set(v);
    }

    /// Reset the read/written flags of every signal; called before a
    /// computation body runs and when external code acquires access.
    pub fn clear(&mut self)
        ensures
            state_eq_except_signals(*final(self), *old(self)),
            final(self).n_signals() == old(self).n_signals(),
            forall|j: int| 0 <= j < old(self).n_signals()
                ==> (#[trigger] final(self).sig_at(j)).value() == old(self).sig_at(j).value()
                    && !final(self).sig_at(j).written_flag()
                    && !final(self).sig_at(j).read_flag()
                    && final(self).sig_at(j).subs() == old(self).sig_at(j).subs(),
    {
        let n = self.signals.len();
        let mut i: usize = 0;
        while i < n
            invariant
                i <= n,
                n == self.signals@.len(),
                self.signals@.len() == old(self).signals@.len(),
                self.registry == old(self).registry,
                self.artifacts == old(self).artifacts,
                self.parent_registered == old(self).parent_registered,
                self.outbox == old(self).outbox,
                self.next_resource == old(self).next_resource,
                forall|j: int| 0 <= j < i
                    ==> (#[trigger] self.signals@[j]).value() == old(self).signals@[j].value()
                        && !self.signals@[j].written_flag()
                        && !self.signals@[j].read_flag()
                        && self.signals@[j].subs() == old(self).signals@[j].subs(),
                forall|j: int| i <= j < n ==> self.signals@[j] == old(self).signals@[j],
            decreases n - i,
        {
            let s = &mut self.signals[i];
            s.clear();
            i = i + 1;
        }
    }

    /// The per-run prologue for computation `me`: reset all flags and drop
    /// every subscription `me` holds, so that after the run `me` is
    /// subscribed to exactly the signals this run reads.
    fn begin_run(&mut self, me: HookKey)
        ensures
            state_eq_except_signals(*final(self), *old(self)),
            final(self).registry == old(self).registry,
            final(self).artifacts == old(self).artifacts,
            final(self).parent_registered == old(self).parent_registered,
            final(self).outbox == old(self).outbox,
            final(self).n_signals() == old(self).n_signals(),
            forall|j: int| 0 <= j < old(self).n_signals()
                ==> (#[trigger] final(self).sig_at(j)).value() == old(self).sig_at(j).value()
                    && !final(self).sig_at(j).written_flag()
                    && !final(self).sig_at(j).read_flag(),
            forall|j: int, k: HookKey| 0 <= j < old(self).n_signals()
                ==> ((#[trigger] final(self).sig_at(j).subs().contains(k))
                    <==> (old(self).sig_at(j).subs().contains(k) && k != me)),
    {
        let n = self.signals.len();
        let mut i: usize = 0;
        while i < n
            invariant
                i <= n,
                n == self.signals@.len(),
                self.signals@.len() == old(self).signals@.len(),
                self.registry == old(self).registry,
                self.artifacts == old(self).artifacts,
                self.parent_registered == old(self).parent_registered,
                self.outbox == old(self).outbox,
                self.next_resource == old(self).next_resource,
                forall|j: int| 0 <= j < i
                    ==> (#[trigger] self.signals@[j]).value() == old(self).signals@[j].value()
                        && !self.signals@[j].written_flag()
                        && !self.signals@[j].read_flag(),
                forall|j: int, k: HookKey| 0 <= j < i
                    ==> ((#[trigger] self.signals@[j].subs().contains(k))
                        <==> (old(self).signals@[j].subs().contains(k) && k != me)),
                forall|j: int| i <= j < n ==> self.signals@[j] == old(self).signals@[j],
            decreases n - i,
        {
            let s = &mut self.signals[i];
            s.clear();
            s.unsubscribe(me);
            i = i + 1;
        }
    }

    /// Drop every subscription `dep` holds, leaving flags and everything
    /// else untouched: run before a fresh computation first registers, so
    /// that its subscription set is exactly what it reads.
    fn prune_subscriber(&mut self, dep: HookKey)
        ensures
            state_eq_except_signals(*final(self), *old(self)),
            final(self).registry == old(self).registry,
            final(self).artifacts == old(self).artifacts,
            final(self).parent_registered == old(self).parent_registered,
            final(self).outbox == old(self).outbox,
            final(self).next_resource == old(self).next_resource,
            final(self).n_signals() == old(self).n_signals(),
            forall|j: int| 0 <= j < old(self).n_signals()
                ==> (#[trigger] final(self).sig_at(j)).value() == old(self).sig_at(j).value()
                    && final(self).sig_at(j).written_flag()
                        == old(self).sig_at(j).written_flag()
                    && final(self).sig_at(j).read_flag() == old(self).sig_at(j).read_flag(),
            forall|j: int, k: HookKey| 0 <= j < old(self).n_signals()
                ==> ((#[trigger] final(self).sig_at(j).subs().contains(k))
                    <==> (old(self).sig_at(j).subs().contains(k) && k != dep)),
    {
        let n = self.signals.len();
        let mut i: usize = 0;
        while i < n
            invariant
                i <= n,
                n == self.signals@.len(),
                self.signals@.len() == old(self).signals@.len(),
                self.registry == old(self).registry,
                self.artifacts == old(self).artifacts,
                self.parent_registered == old(self).parent_registered,
                self.outbox == old(self).outbox,
                self.next_resource == old(self).next_resource,
                forall|j: int| 0 <= j < i
                    ==> (#[trigger] self.signals@[j]).value() == old(self).signals@[j].value()
                        && self.signals@[j].written_flag()
                            == old(self).signals@[j].written_flag()
                        && self.signals@[j].read_flag()
                            == old(self).signals@[j].read_flag(),
                forall|j: int, k: HookKey| 0 <= j < i
                    ==> ((#[trigger] self.signals@[j].subs().contains(k))
                        <==> (old(self).signals@[j].subs().contains(k) && k != dep)),
                forall|j: int| i <= j < n ==> self.signals@[j] == old(self).signals@[j],
            decreases n - i,
        {
            let sg = &mut self.signals[i];
            sg.unsubscribe(dep);
            i = i + 1;
        }
    }

    /// Subscribe `me` to every signal whose read flag is set: how a
    /// computation, after running, opts every signal it read into
    /// notifying it.
    fn reg_dep(&mut self, me: HookKey)
        ensures
            state_eq_except_signals(*final(self), *old(self)),
            final(self).registry == old(self).registry,
            final(self).artifacts == old(self).artifacts,
            final(self).parent_registered == old(self).parent_registered,
            final(self).outbox == old(self).outbox,
            final(self).n_signals() == old(self).n_signals(),
            forall|j: int| 0 <= j < old(self).n_signals()
                ==> (#[trigger] final(self).sig_at(j)).value() == old(self).sig_at(j).value()
                    && final(self).sig_at(j).written_flag() == old(self).sig_at(j).written_flag()
                    && final(self).sig_at(j).read_flag() == old(self).sig_at(j).read_flag(),
            forall|j: int, k: HookKey| 0 <= j < old(self).n_signals()
                ==> ((#[trigger] final(self).sig_at(j).subs().contains(k))
                    <==> (old(self).sig_at(j).subs().contains(k)
                        || (k == me && old(self).sig_at(j).read_flag()))),
    {
        let n = self.signals.len();
        let mut i: usize = 0;
        while i < n
            invariant
                i <= n,
                n == self.signals@.len(),
                self.signals@.len() == old(self).signals@.len(),
                self.registry == old(self).registry,
                self.artifacts == old(self).artifacts,
                self.parent_registered == old(self).parent_registered,
                self.outbox == old(self).outbox,
                self.next_resource == old(self).next_resource,
                forall|j: int| 0 <= j < n
                    ==> (#[trigger] self.signals@[j]).value() == old(self).signals@[j].value()
                        && self.signals@[j].written_flag() == old(self).signals@[j].written_flag()
                        && self.signals@[j].read_flag() == old(self).signals@[j].read_flag(),
                forall|j: int, k: HookKey| 0 <= j < i
                    ==> ((#[trigger] self.signals@[j].subs().contains(k))
                        <==> (old(self).signals@[j].subs().contains(k)
                            || (k == me && old(self).signals@[j].read_flag()))),
                forall|j: int| i <= j < n ==> self.signals@[j] == old(self).signals@[j],
            decreases n - i,
        {
            let s = &mut self.signals[i];
            s.register_dep(me);
            i = i + 1;
        }
    }

    /// Snapshot the flags of every signal and clear them, for a run that
    /// must track its reads in isolation from the enclosing run.
    fn pop_signals(&mut self) -> (saved: Vec<(bool, bool)>)
        ensures
            state_eq_except_signals(*final(self), *old(self)),
            final(self).registry == old(self).registry,
            final(self).artifacts == old(self).artifacts,
            final(self).parent_registered == old(self).parent_registered,
            final(self).outbox == old(self).outbox,
            final(self).n_signals() == old(self).n_signals(),
            saved@.len() == old(self).n_signals(),
            forall|j: int| 0 <= j < old(self).n_signals()
                ==> (#[trigger] saved@[j]).0 == old(self).sig_at(j).written_flag()
                    && saved@[j].1 == old(self).sig_at(j).read_flag(),
            forall|j: int| 0 <= j < old(self).n_signals()
                ==> (#[trigger] final(self).sig_at(j)).value() == old(self).sig_at(j).value()
                    && !final(self).sig_at(j).written_flag()
                    && !final(self).sig_at(j).read_flag()
                    && final(self).sig_at(j).subs() == old(self).sig_at(j).subs(),
    {
        let n = self.signals.len();
        let mut saved: Vec<(bool, bool)> = Vec::new();
        let mut i: usize = 0;
        while i < n
            invariant
                i <= n,
                n == self.signals@.len(),
                self.signals@.len() == old(self).signals@.len(),
                self.registry == old(self).registry,
                self.artifacts == old(self).artifacts,
                self.parent_registered == old(self).parent_registered,
                self.outbox == old(self).outbox,
                self.next_resource == old(self).next_resource,
                saved@.len() == i,
                forall|j: int| 0 <= j < i
                    ==> (#[trigger] saved@[j]).0 == old(self).signals@[j].written_flag()
                        && saved@[j].1 == old(self).signals@[j].read_flag(),
                forall|j: int| 0 <= j < i
                    ==> (#[trigger] self.signals@[j]).value() == old(self).signals@[j].value()
                        && !self.signals@[j].written_flag()
                        && !self.signals@[j].read_flag()
                        && self.signals@[j].subs() == old(self).signals@[j].subs(),
                forall|j: int| i <= j < n ==> self.signals@[j] == old(self).signals@[j],
            decreases n - i,
        {
            let s = &mut self.signals[i];
            let w = s.changed();
            let r = s.peek_read();
            s.clear();
            saved.push((w, r));
            i = i + 1;
        }
        saved
    }

    /// Restore flags snapshotted by `pop_signals`.
    fn set_signals(&mut self, saved: &Vec<(bool, bool)>)
        requires
            saved@.len() == old(self).n_signals(),
        ensures
            state_eq_except_signals(*final(self), *old(self)),
            final(self).registry == old(self).registry,
            final(self).artifacts == old(self).artifacts,
            final(self).parent_registered == old(self).parent_registered,
            final(self).outbox == old(self).outbox,
            final(self).n_signals() == old(self).n_signals(),
            forall|j: int| 0 <= j < old(self).n_signals()
                ==> (#[trigger] final(self).sig_at(j)).value() == old(self).sig_at(j).value()
                    && final(self).sig_at(j).written_flag() == saved@[j].0
                    && final(self).sig_at(j).read_flag() == saved@[j].1
                    && final(self).sig_at(j).subs() == old(self).sig_at(j).subs(),
    {
        let n = self.signals.len();
        let mut i: usize = 0;
        while i < n
            invariant
                i <= n,
                n == self.signals@.len(),
                saved@.len() == n,
                self.signals@.len() == old(self).signals@.len(),
                self.registry == old(self).registry,
                self.artifacts == old(self).artifacts,
                self.parent_registered == old(self).parent_registered,
                self.outbox == old(self).outbox,
                self.next_resource == old(self).next_resource,
                forall|j: int| 0 <= j < i
                    ==> (#[trigger] self.signals@[j]).value() == old(self).signals@[j].value()
                        && self.signals@[j].written_flag() == saved@[j].0
                        && self.signals@[j].read_flag() == saved@[j].1
                        && self.signals@[j].subs() == old(self).signals@[j].subs(),
                forall|j: int| i <= j < n ==> self.signals@[j] == old(self).signals@[j],
            decreases n - i,
        {
            let pair = saved[i];
            let s = &mut self.signals[i];
            s.force_flags(pair.0, pair.1);
            i = i + 1;
        }
    }

    // ------------------------------------------------------------------
    // Artifacts

    /// The number of artifact slots.
    pub fn artifact_count(&self) -> (r: usize)
        ensures
            r == self.n_artifacts(),
    {
        self.artifacts.len()
    }

    /// The text an artifact slot currently holds.
    pub fn artifact_text(&self, i: usize) -> (r: Option<&String>)
        ensures
            i < self.n_artifacts() ==> (r matches Some(s) && s@ == self.artifact_at(i as int)),
            i >= self.n_artifacts() ==> r is None,
    {
        if i < self.artifacts.len() {
            Some(&self.artifacts[i])
        } else {
            None
        }
    }

    // ------------------------------------------------------------------
    // Outbound messaging

    /// Register the parent sink; outbound messages are queued from now on.
    pub fn register_parent(&mut self)
        ensures
            final(self).parent_spec(),
            state_eq_except_parent(*final(self), *old(self)),
    {
        self.parent_registered = true;
    }

    /// Queue a message to the parent component: a no-op if no parent sink
    /// is registered — never an error.
    pub fn emit(&mut self, msg: u64)
        ensures
            old(self).parent_spec()
                ==> final(self).outbox_spec() == old(self).outbox_spec().push(msg),
            !old(self).parent_spec() ==> final(self).outbox_spec() == old(self).outbox_spec(),
            state_eq_except_outbox(*final(self), *old(self)),
    {
        if self.parent_registered {
            self.outbox.push(msg);
        }
    }

    /// Drain the queued outbound messages, oldest first, for delivery to
    /// the parent sink.
    pub fn take_outbox(&mut self) -> (r: Vec<u64>)
        ensures
            r@ == old(self).outbox_spec(),
            final(self).outbox_spec() == Seq::<u64>::empty(),
            state_eq_except_outbox(*final(self), *old(self)),
    {
        let mut drained: Vec<u64> = Vec::new();
        core::mem::swap(&mut drained, &mut self.outbox);
        drained
    }

    // ------------------------------------------------------------------
    // Computation runs

    /// Append a fresh, empty artifact slot.
    fn alloc_artifact(&mut self) -> (i: usize)
        ensures
            i == old(self).n_artifacts(),
            final(self).n_artifacts() == old(self).n_artifacts() + 1,
            final(self).artifact_at(i as int) == Seq::<char>::empty(),
            forall|j: int| 0 <= j < old(self).n_artifacts()
                ==> final(self).artifact_at(j) == old(self).artifact_at(j),
            hooks_unchanged(*final(self), *old(self)),
            signals_unchanged(*final(self), *old(self)),
            io_unchanged(*final(self), *old(self)),
            final(self).signals == old(self).signals,
            final(self).registry == old(self).registry,
            final(self).parent_registered == old(self).parent_registered,
            final(self).outbox == old(self).outbox,
            final(self).next_resource == old(self).next_resource,
    {
        let i = self.artifacts.len();
        self.artifacts.push(String::new());
        i
    }

    /// Re-run a memoized computation: re-derive under a fresh dependency
    /// window, update the cache, and ask the scheduler to run the owner
    /// exactly when the derived value changed.
    fn run_watch(&mut self, w: &mut WatchHook, me: HookKey) -> (r: UpdateResult)
        ensures
            final(self).next_resource_spec() == old(self).next_resource_spec(),
            hooks_unchanged(*final(self), *old(self)),
            artifacts_unchanged(*final(self), *old(self)),
            io_unchanged(*final(self), *old(self)),
            final(self).n_signals() == old(self).n_signals(),
            final(self).values() == old(self).values(),
            forall|j: int| 0 <= j < old(self).n_signals()
                ==> !(#[trigger] final(self).sig_at(j)).written_flag(),
            forall|j: int, k: HookKey| 0 <= j < old(self).n_signals() && k != me
                ==> ((#[trigger] final(self).sig_at(j).subs().contains(k))
                    <==> old(self).sig_at(j).subs().contains(k)),
            forall|j: int| 0 <= j < old(self).n_signals()
                ==> ((#[trigger] final(self).sig_at(j).subs().contains(me))
                    <==> expr_reads(old(w).expr, old(self).values()).contains(j as usize)),
            final(w).expr == old(w).expr,
            final(w).owner == old(w).owner,
            final(w).last == eval(old(w).expr, old(self).values()),
            r == crate::hook::watch_outcome(*old(w), old(self).values()),
    {
        let ghost s0 = *self;
        self.begin_run(me);
        proof {
            lemma_values_pointwise(*self, s0);
        }
        let ghost s1 = *self;
        let v = eval_expr(&w.expr, &mut self.signals);
        proof {
            assert forall|j: int| 0 <= j < s1.n_signals()
                implies (#[trigger] self.sig_at(j)).value() == s1.sig_at(j).value()
                    && self.sig_at(j).written_flag() == s1.sig_at(j).written_flag()
                    && self.sig_at(j).subs() == s1.sig_at(j).subs()
                    && self.sig_at(j).read_flag() == (s1.sig_at(j).read_flag()
                        || expr_reads(w.expr, sig_values(s1.signals@)).contains(j as usize)) by {
                assert(self.signals@[j].value() == s1.signals@[j].value());
            }
            lemma_values_pointwise(*self, s1);
        }
        let ghost s2 = *self;
        self.reg_dep(me);
        proof {
            lemma_values_pointwise(*self, s2);
        }
        let changed = v != w.last;
        w.last = v;
        if changed {
            UpdateResult::RunHook(w.owner)
        } else {
            UpdateResult::Nothing
        }
    }

    /// Re-run an attribute computation: re-derive under a fresh dependency
    /// window and patch the owned artifact slot in place with the decimal
    /// rendering of the derived value.
    fn run_attr(&mut self, a: &AttrHook, me: HookKey)
        ensures
            final(self).next_resource_spec() == old(self).next_resource_spec(),
            hooks_unchanged(*final(self), *old(self)),
            io_unchanged(*final(self), *old(self)),
            final(self).n_signals() == old(self).n_signals(),
            final(self).values() == old(self).values(),
            forall|j: int| 0 <= j < old(self).n_signals()
                ==> !(#[trigger] final(self).sig_at(j)).written_flag(),
            forall|j: int, k: HookKey| 0 <= j < old(self).n_signals() && k != me
                ==> ((#[trigger] final(self).sig_at(j).subs().contains(k))
                    <==> old(self).sig_at(j).subs().contains(k)),
            forall|j: int| 0 <= j < old(self).n_signals()
                ==> ((#[trigger] final(self).sig_at(j).subs().contains(me))
                    <==> expr_reads(a.expr, old(self).values()).contains(j as usize)),
            final(self).n_artifacts() == old(self).n_artifacts(),
            a.artifact < old(self).n_artifacts()
                ==> final(self).artifact_at(a.artifact as int)
                    == crate::text::dec_digits(eval(a.expr, old(self).values()) as nat),
            forall|j: int| 0 <= j < old(self).n_artifacts() && j != a.artifact
                ==> final(self).artifact_at(j) == old(self).artifact_at(j),
    {
        let ghost s0 = *self;
        self.begin_run(me);
        proof {
            lemma_values_pointwise(*self, s0);
        }
        let ghost s1 = *self;
        let v = eval_expr(&a.expr, &mut self.signals);
        proof {
            assert forall|j: int| 0 <= j < s1.n_signals()
                implies (#[trigger] self.sig_at(j)).value() == s1.sig_at(j).value()
                    && self.sig_at(j).written_flag() == s1.sig_at(j).written_flag()
                    && self.sig_at(j).subs() == s1.sig_at(j).subs()
                    && self.sig_at(j).read_flag() == (s1.sig_at(j).read_flag()
                        || expr_reads(a.expr, sig_values(s1.signals@)).contains(j as usize)) by {
                assert(self.signals@[j].value() == s1.signals@[j].value());
            }
            lemma_values_pointwise(*self, s1);
        }
        let ghost s2 = *self;
        self.reg_dep(me);
        proof {
            lemma_values_pointwise(*self, s2);
        }
        let text = u64_to_text(v);
        let ghost s3 = *self;
        if a.artifact < self.artifacts.len() {
            self.artifacts.set(a.artifact, text);
        }
        proof {
            assert(self.signals == s3.signals);
            assert forall|j: int| 0 <= j < old(self).n_signals()
                implies (#[trigger] self.sig_at(j)) == s3.sig_at(j) by {}
        }
    }

    // ------------------------------------------------------------------
    // Rendering

    /// The direct pass over a node template: derive the direct text parts
    /// (marking their reads for the enclosing node `me`), create the watch
    /// computations under flag isolation, and record the dynamic parts for
    /// instantiation after `me` has registered its own dependencies.
    #[verifier::rlimit(60)]
    fn walk_template(
        &mut self,
        t: &Template,
        me: HookKey,
        text: &mut String,
        watches: &mut Vec<HookKey>,
        pending: &mut Vec<Pending>,
        resources: &mut Vec<u64>,
    )
        requires
            old(self).wf(),
            old(self).live(me),
        ensures
            final(self).next_resource_spec() >= old(self).next_resource_spec(),
            final(resources)@.len() >= old(resources)@.len(),
            forall|v: int| 0 <= v < old(resources)@.len()
                ==> final(resources)@[v] == old(resources)@[v],
            forall|v: int| old(resources)@.len() <= v < final(resources)@.len()
                ==> (#[trigger] final(resources)@[v]) >= old(self).next_resource_spec()
                    && final(resources)@[v] < final(self).next_resource_spec(),
            final(watches)@.len() >= old(watches)@.len(),
            forall|v: int| 0 <= v < old(watches)@.len()
                ==> final(watches)@[v] == old(watches)@[v],
            forall|v: int| old(watches)@.len() <= v < final(watches)@.len()
                ==> final(self).seq_of(#[trigger] final(watches)@[v]) >= old(self).next_seq()
                    && watch_created(*final(self), final(watches)@[v], me,
                        old(self).values()),
            final(self).wf(),
            final(self).live(me),
            io_unchanged(*final(self), *old(self)),
            artifacts_unchanged(*final(self), *old(self)),
            final(self).n_signals() == old(self).n_signals(),
            final(self).values() == old(self).values(),
            forall|j: int| 0 <= j < old(self).n_signals()
                ==> (#[trigger] final(self).sig_at(j)).written_flag()
                    == old(self).sig_at(j).written_flag(),
            forall|j: int| 0 <= j < old(self).n_signals()
                ==> (#[trigger] final(self).sig_at(j)).read_flag()
                    == (old(self).sig_at(j).read_flag()
                        || direct_reads(*t, old(self).values()).contains(j as usize)),
            forall|j: int, k: HookKey| 0 <= j < old(self).n_signals()
                && old(self).live(k) && old(self).sig_at(j).subs().contains(k)
                ==> (#[trigger] final(self).sig_at(j).subs().contains(k)),
            forall|j: int, k: HookKey| 0 <= j < old(self).n_signals()
                && (#[trigger] final(self).sig_at(j).subs().contains(k))
                && !old(self).sig_at(j).subs().contains(k)
                ==> !old(self).live(k) && final(self).live(k),
            forall|k: HookKey| #[trigger] old(self).live(k)
                ==> final(self).live(k)
                    && final(self).hook_of(k) == old(self).hook_of(k)
                    && final(self).seq_of(k) == old(self).seq_of(k),
            forall|k: HookKey| #[trigger] old(self).gone(k) ==> final(self).gone(k),
            final(self).next_seq() >= old(self).next_seq(),
            forall|k: HookKey| #[trigger] final(self).live(k) && !old(self).live(k)
                ==> final(self).seq_of(k) >= old(self).next_seq(),
            final(text)@ == old(text)@ + flatten(*t, old(self).values()),
            final(pending)@ == old(pending)@ + pending_of(*t, old(self).values()),
        decreases tmpl_size(*t), 0nat,
    {
        let ghost s0 = *self;
        let ghost v0 = self.values();
        let ghost t0 = text@;
        let ghost p0 = pending@;
        let ghost w0 = watches@;
        match t {
            Template::Text(e) => {
                let v = eval_expr(e, &mut self.signals);
                proof {
                    assert forall|j: int| 0 <= j < s0.n_signals()
                        implies (#[trigger] self.sig_at(j)).value() == s0.sig_at(j).value()
                            && self.sig_at(j).written_flag() == s0.sig_at(j).written_flag()
                            && self.sig_at(j).subs() == s0.sig_at(j).subs()
                            && self.sig_at(j).read_flag() == (s0.sig_at(j).read_flag()
                                || expr_reads(*e, v0).contains(j as usize)) by {
                        assert(self.signals@[j].value() == s0.signals@[j].value());
                    }
                    lemma_values_pointwise(*self, s0);
                }
                let piece = u64_to_text(v);
                text.append(piece.as_str());
            }
            Template::Pair(a, b) => {
                self.walk_template(a, me, text, watches, pending, resources);
                let ghost m1 = *self;
                let ghost m1w = watches@;
                self.walk_template(b, me, text, watches, pending, resources);
                proof {
                    assert(text@ =~= t0 + flatten(*t, v0));
                    assert(pending@ =~= p0 + pending_of(*t, v0));
                    assert forall|j: int| 0 <= j < s0.n_signals()
                        implies (#[trigger] self.sig_at(j)).read_flag()
                            == (s0.sig_at(j).read_flag()
                                || direct_reads(*t, v0).contains(j as usize)) by {
                        assert(m1.sig_at(j).read_flag() == (s0.sig_at(j).read_flag()
                            || direct_reads(**a, v0).contains(j as usize)));
                    }
                    assert forall|j: int, k: HookKey| 0 <= j < s0.n_signals()
                        && s0.live(k) && s0.sig_at(j).subs().contains(k)
                        implies (#[trigger] self.sig_at(j).subs().contains(k)) by {
                        assert(m1.live(k));
                        assert(m1.sig_at(j).subs().contains(k));
                    }
                    assert forall|j: int, k: HookKey| 0 <= j < s0.n_signals()
                        && (#[trigger] self.sig_at(j).subs().contains(k))
                        && !s0.sig_at(j).subs().contains(k)
                        implies !s0.live(k) && self.live(k) by {
                        if m1.sig_at(j).subs().contains(k) {
                            assert(!s0.live(k) && m1.live(k));
                        } else {
                            assert(!m1.live(k) && self.live(k));
                            assert(!s0.live(k));
                        }
                    }
                    assert forall|k: HookKey| #[trigger] self.live(k) && !s0.live(k)
                        implies self.seq_of(k) >= s0.next_seq() by {
                        if m1.live(k) {
                            assert(m1.seq_of(k) >= s0.next_seq());
                        }
                    }
                    assert forall|v: int| w0.len() <= v < watches@.len()
                        implies self.seq_of(#[trigger] watches@[v]) >= s0.next_seq()
                            && watch_created(*self, watches@[v], me, v0) by {
                        if v < m1w.len() {
                            assert(watches@[v] == m1w[v]);
                            assert(m1.seq_of(m1w[v]) >= s0.next_seq());
                            assert(watch_created(m1, m1w[v], me, v0));
                            assert(m1.live(m1w[v]));
                            assert(self.hook_of(m1w[v]) == m1.hook_of(m1w[v]));
                            assert forall|j: int| 0 <= j < s0.n_signals()
                                implies ((#[trigger] self.sig_at(j).subs()
                                    .contains(m1w[v]))
                                    <==> m1.sig_at(j).subs().contains(m1w[v])) by {
                                if self.sig_at(j).subs().contains(m1w[v])
                                    && !m1.sig_at(j).subs().contains(m1w[v]) {
                                    assert(!m1.live(m1w[v]));
                                }
                            }
                        } else {
                            assert(self.seq_of(watches@[v]) >= m1.next_seq());
                            assert(watch_created(*self, watches@[v], me, m1.values()));
                            assert(m1.values() == v0);
                        }
                    }
                    assert forall|k: HookKey| #[trigger] s0.gone(k)
                        implies self.gone(k) by {
                        assert(m1.gone(k));
                    }
                }
            }
            Template::Dyn(inner) => {
                let copy = clone_template(inner);
                pending.push(Pending::PNode(copy));
                proof {
                    assert(text@ =~= t0 + flatten(*t, v0));
                    assert(pending@ =~= p0 + pending_of(*t, v0));
                }
            }
            Template::DynText(e) => {
                let copy = clone_expr(e);
                pending.push(Pending::PAttr(copy));
                proof {
                    assert(text@ =~= t0 + flatten(*t, v0));
                    assert(pending@ =~= p0 + pending_of(*t, v0));
                }
            }
            Template::Watch(c, a, b) => {
                let saved = self.pop_signals();
                proof {
                    lemma_values_pointwise(*self, s0);
                }
                let ghost sa = *self;
                let v = eval_expr(c, &mut self.signals);
                proof {
                    assert forall|j: int| 0 <= j < sa.n_signals()
                        implies (#[trigger] self.sig_at(j)).value() == sa.sig_at(j).value()
                            && self.sig_at(j).written_flag() == sa.sig_at(j).written_flag()
                            && self.sig_at(j).subs() == sa.sig_at(j).subs()
                            && self.sig_at(j).read_flag() == (sa.sig_at(j).read_flag()
                                || expr_reads(*c, sig_values(sa.signals@)).contains(j as usize))
                        by {
                        assert(self.signals@[j].value() == sa.signals@[j].value());
                    }
                    lemma_values_pointwise(*self, sa);
                    assert(eval(*c, v0) == v);
                }
                if self.registry.can_insert() {
                    let ghost sb = *self;
                    let hook = Hook::Watch(WatchHook {
                        expr: clone_expr(c),
                        last: v,
                        owner: me,
                    });
                    let wk = self.registry.insert(hook);
                    proof {
                        Self::lemma_values_same_signals(*self, sb);
                        assert(!s0.live(wk));
                        assert forall|k: HookKey| #[trigger] s0.gone(k)
                            implies self.gone(k) by {
                            assert(sb.gone(k));
                        }
                        assert forall|k: HookKey| #[trigger] s0.live(k)
                            implies self.live(k)
                                && self.hook_of(k) == s0.hook_of(k)
                                && self.seq_of(k) == s0.seq_of(k) by {
                            assert(sb.live(k) && sb.hook_of(k) == s0.hook_of(k)
                                && sb.seq_of(k) == s0.seq_of(k));
                            assert(k != wk);
                        }
                    }
                    let ghost sp = *self;
                    self.prune_subscriber(wk);
                    proof {
                        lemma_values_pointwise(*self, sp);
                    }
                    let ghost sc = *self;
                    self.reg_dep(wk);
                    proof {
                        lemma_values_pointwise(*self, sc);
                    }
                    watches.push(wk);
                    proof {
                        assert(self.hook_of(wk) == hook);
                        assert forall|j: int| 0 <= j < s0.n_signals()
                            implies ((#[trigger] self.sig_at(j).subs().contains(wk))
                                <==> expr_reads(*c, v0).contains(j as usize)) by {
                            assert(!sc.sig_at(j).subs().contains(wk));
                            assert(sc.sig_at(j).read_flag() == sp.sig_at(j).read_flag());
                            assert(sp.sig_at(j).read_flag() == sb.sig_at(j).read_flag());
                            assert(sb.sig_at(j).read_flag() == (sa.sig_at(j).read_flag()
                                || expr_reads(*c, sig_values(sa.signals@))
                                    .contains(j as usize)));
                            assert(!sa.sig_at(j).read_flag());
                            assert(sig_values(sa.signals@) == v0);
                        }
                    }
                }
                let ghost sd = *self;
                self.set_signals(&saved);
                proof {
                    lemma_values_pointwise(*self, sd);
                    assert forall|v: int| w0.len() <= v < watches@.len()
                        implies self.seq_of(#[trigger] watches@[v]) >= s0.next_seq()
                            && watch_created(*self, watches@[v], me, v0) by {
                        assert(self.live(watches@[v]));
                        assert(self.hook_of(watches@[v]) == sd.hook_of(watches@[v]));
                        assert forall|j: int| 0 <= j < s0.n_signals()
                            implies ((#[trigger] self.sig_at(j).subs()
                                .contains(watches@[v]))
                                <==> sd.sig_at(j).subs().contains(watches@[v])) by {
                            assert(self.sig_at(j).subs() == sd.sig_at(j).subs());
                        }
                    }
                }
                let ghost s2 = *self;
                let ghost w_mid = watches@;
                if v != 0 {
                    self.walk_template(a, me, text, watches, pending, resources);
                } else {
                    self.walk_template(b, me, text, watches, pending, resources);
                }
                proof {
                    assert(text@ =~= t0 + flatten(*t, v0));
                    assert(pending@ =~= p0 + pending_of(*t, v0));
                    assert forall|j: int| 0 <= j < s0.n_signals()
                        implies (#[trigger] self.sig_at(j)).read_flag()
                            == (s0.sig_at(j).read_flag()
                                || direct_reads(*t, v0).contains(j as usize)) by {
                        assert(s2.sig_at(j).read_flag() == s0.sig_at(j).read_flag());
                    }
                    assert forall|j: int, k: HookKey| 0 <= j < s0.n_signals()
                        && s0.live(k) && s0.sig_at(j).subs().contains(k)
                        implies (#[trigger] self.sig_at(j).subs().contains(k)) by {
                        assert(s2.live(k));
                        assert(s2.sig_at(j).subs().contains(k));
                    }
                    assert forall|j: int, k: HookKey| 0 <= j < s0.n_signals()
                        && (#[trigger] self.sig_at(j).subs().contains(k))
                        && !s0.sig_at(j).subs().contains(k)
                        implies !s0.live(k) && self.live(k) by {
                        if s2.sig_at(j).subs().contains(k) {
                            assert(!s0.live(k) && s2.live(k));
                        } else {
                            assert(!s2.live(k) && self.live(k));
                            assert(!s0.live(k));
                        }
                    }
                    assert forall|k: HookKey| #[trigger] self.live(k) && !s0.live(k)
                        implies self.seq_of(k) >= s0.next_seq() by {
                        if s2.live(k) {
                            assert(s2.seq_of(k) >= s0.next_seq());
                        }
                    }
                    assert forall|k: HookKey| #[trigger] s0.live(k)
                        implies self.live(k)
                            && self.hook_of(k) == s0.hook_of(k)
                            && self.seq_of(k) == s0.seq_of(k) by {
                        assert(s2.live(k) && s2.hook_of(k) == s0.hook_of(k)
                            && s2.seq_of(k) == s0.seq_of(k));
                    }
                    assert forall|v: int| w0.len() <= v < watches@.len()
                        implies self.seq_of(#[trigger] watches@[v]) >= s0.next_seq()
                            && watch_created(*self, watches@[v], me, v0) by {
                        if v < w_mid.len() {
                            assert(watches@[v] == w_mid[v]);
                            assert(s2.seq_of(w_mid[v]) >= s0.next_seq());
                            assert(watch_created(s2, w_mid[v], me, v0));
                            assert(s2.live(w_mid[v]));
                            assert(self.hook_of(w_mid[v]) == s2.hook_of(w_mid[v]));
                            assert forall|j: int| 0 <= j < s0.n_signals()
                                implies ((#[trigger] self.sig_at(j).subs()
                                    .contains(w_mid[v]))
                                    <==> s2.sig_at(j).subs().contains(w_mid[v])) by {
                                if self.sig_at(j).subs().contains(w_mid[v])
                                    && !s2.sig_at(j).subs().contains(w_mid[v]) {
                                    assert(!s2.live(w_mid[v]));
                                }
                            }
                        } else {
                            assert(self.seq_of(watches@[v]) >= s2.next_seq());
                            assert(watch_created(*self, watches@[v], me, s2.values()));
                            assert(s2.values() == v0);
                        }
                    }
                    assert forall|k: HookKey| #[trigger] s0.gone(k)
                        implies self.gone(k) by {
                        assert(s2.gone(k));
                    }
                }
            }
            Template::Listener => {
                if self.next_resource < u64::MAX {
                    let id = self.next_resource;
                    self.next_resource = id + 1;
                    resources.push(id);
                }
                proof {
                    assert(text@ =~= t0 + flatten(*t, v0));
                    assert(pending@ =~= p0 + pending_of(*t, v0));
                }
            }
        }
    }

    /// Create and initially run an attribute computation for a derivation,
    /// giving it a fresh artifact slot.
    #[verifier::rlimit(60)]
    fn create_attr(&mut self, e: Expr) -> (k: HookKey)
        requires
            old(self).wf(),
            old(self).next_seq() < u64::MAX,
        ensures
            final(self).next_resource_spec() == old(self).next_resource_spec(),
            final(self).wf(),
            io_unchanged(*final(self), *old(self)),
            final(self).n_signals() == old(self).n_signals(),
            final(self).values() == old(self).values(),
            !old(self).live(k),
            final(self).live(k),
            final(self).seq_of(k) == old(self).next_seq(),
            final(self).next_seq() == old(self).next_seq() + 1,
            final(self).hook_of(k) == (Hook::Attr(AttrHook {
                expr: e,
                artifact: old(self).n_artifacts() as usize,
            })),
            forall|k2: HookKey| #[trigger] old(self).live(k2)
                ==> final(self).live(k2)
                    && final(self).hook_of(k2) == old(self).hook_of(k2)
                    && final(self).seq_of(k2) == old(self).seq_of(k2),
            forall|k2: HookKey| #[trigger] final(self).live(k2)
                ==> old(self).live(k2) || k2 == k,
            forall|k2: HookKey| #[trigger] old(self).gone(k2) ==> final(self).gone(k2),
            final(self).n_artifacts() == old(self).n_artifacts() + 1,
            forall|j: int| 0 <= j < old(self).n_artifacts()
                ==> final(self).artifact_at(j) == old(self).artifact_at(j),
            final(self).artifact_at(old(self).n_artifacts() as int)
                == crate::text::dec_digits(eval(e, old(self).values()) as nat),
            forall|j: int| 0 <= j < old(self).n_signals()
                ==> ((#[trigger] final(self).sig_at(j).subs().contains(k))
                    <==> expr_reads(e, old(self).values()).contains(j as usize)),
            forall|j: int, k2: HookKey| 0 <= j < old(self).n_signals()
                && old(self).live(k2) && old(self).sig_at(j).subs().contains(k2)
                ==> (#[trigger] final(self).sig_at(j).subs().contains(k2)),
            forall|j: int, k2: HookKey| 0 <= j < old(self).n_signals()
                && (#[trigger] final(self).sig_at(j).subs().contains(k2))
                && !old(self).sig_at(j).subs().contains(k2)
                ==> !old(self).live(k2),
    {
        let ghost s0 = *self;
        let a = self.alloc_artifact();
        proof {
            Self::lemma_values_same_signals(*self, s0);
        }
        let ghost s1 = *self;
        let me = self.registry.insert(Hook::Dummy);
        proof {
            Self::lemma_values_same_signals(*self, s1);
        }
        let ghost s2 = *self;
        let hook = AttrHook { expr: e, artifact: a };
        self.run_attr(&hook, me);
        let ghost s3 = *self;
        self.registry.set(me, Hook::Attr(hook));
        proof {
            Self::lemma_values_same_signals(*self, s3);
            assert(s2.live(me));
            assert(s3.live(me) && s3.seq_of(me) == s2.seq_of(me));
            assert(self.live(me) && self.seq_of(me) == s3.seq_of(me));
            assert forall|k2: HookKey| #[trigger] s0.live(k2)
                implies self.live(k2)
                    && self.hook_of(k2) == s0.hook_of(k2)
                    && self.seq_of(k2) == s0.seq_of(k2) by {
                assert(s1.live(k2));
                assert(k2 != me);
                assert(s2.live(k2) && s2.hook_of(k2) == s1.hook_of(k2)
                    && s2.seq_of(k2) == s1.seq_of(k2));
                assert(s3.live(k2) && s3.hook_of(k2) == s2.hook_of(k2)
                    && s3.seq_of(k2) == s2.seq_of(k2));
            }
            assert forall|k2: HookKey| #[trigger] self.live(k2)
                implies s0.live(k2) || k2 == me by {
                if k2 != me {
                    assert(s3.live(k2));
                    assert(s2.live(k2));
                    assert(s1.live(k2));
                }
            }
            assert forall|j: int, k2: HookKey| 0 <= j < s0.n_signals()
                && s0.live(k2) && s0.sig_at(j).subs().contains(k2)
                implies (#[trigger] self.sig_at(j).subs().contains(k2)) by {
                assert(s2.sig_at(j) == s0.sig_at(j));
                assert(k2 != me);
                assert(s3.sig_at(j).subs().contains(k2));
                assert(self.sig_at(j) == s3.sig_at(j));
            }
            assert forall|j: int, k2: HookKey| 0 <= j < s0.n_signals()
                && (#[trigger] self.sig_at(j).subs().contains(k2))
                && !s0.sig_at(j).subs().contains(k2)
                implies !s0.live(k2) by {
                assert(self.sig_at(j) == s3.sig_at(j));
                assert(s2.sig_at(j) == s0.sig_at(j));
                if k2 != me {
                    assert(!s3.sig_at(j).subs().contains(k2)
                        || s2.sig_at(j).subs().contains(k2));
                } else {
                    assert(!s0.live(me));
                }
            }
            assert forall|j: int| 0 <= j < s0.n_artifacts()
                implies self.artifact_at(j) == s0.artifact_at(j) by {
                assert(s1.artifact_at(j) == s0.artifact_at(j));
                assert(s2.artifact_at(j) == s1.artifact_at(j));
                assert(s3.artifact_at(j) == s2.artifact_at(j));
                assert(self.artifact_at(j) == s3.artifact_at(j));
            }
            assert forall|k2: HookKey| #[trigger] s0.gone(k2)
                implies self.gone(k2) by {
                assert(s1.gone(k2));
                assert(s2.gone(k2));
                assert(s3.gone(k2));
            }
            assert forall|j: int| 0 <= j < s0.n_signals()
                implies ((#[trigger] self.sig_at(j).subs().contains(me))
                    <==> expr_reads(e, s0.values()).contains(j as usize)) by {
                assert(self.sig_at(j) == s3.sig_at(j));
                assert(s3.sig_at(j).subs().contains(me)
                    <==> expr_reads(hook.expr, s2.values()).contains(j as usize));
                assert(s2.values() == s0.values());
            }
        }
        me
    }

    /// Create and initially run a node computation for a template, giving
    /// it a fresh artifact slot.  The placeholder registered first hands
    /// the computation a stable handle before its first run.
    #[verifier::rlimit(60)]
    fn create_node(&mut self, t: Template) -> (k: HookKey)
        requires
            old(self).wf(),
            old(self).next_seq() < u64::MAX,
        ensures
            final(self).next_resource_spec() >= old(self).next_resource_spec(),
            final(self).wf(),
            io_unchanged(*final(self), *old(self)),
            final(self).n_signals() == old(self).n_signals(),
            final(self).values() == old(self).values(),
            !old(self).live(k),
            final(self).live(k),
            final(self).seq_of(k) == old(self).next_seq(),
            final(self).next_seq() > old(self).next_seq(),
            final(self).hook_of(k) matches Hook::Node(n)
                && n.template == t && n.artifact == old(self).n_artifacts()
                && (forall|v: int| 0 <= v < n.children@.len()
                    ==> final(self).live(#[trigger] n.children@[v])
                        && final(self).seq_of(n.children@[v]) > final(self).seq_of(k)),
            forall|k2: HookKey| #[trigger] old(self).live(k2)
                ==> final(self).live(k2)
                    && final(self).hook_of(k2) == old(self).hook_of(k2)
                    && final(self).seq_of(k2) == old(self).seq_of(k2),
            forall|k2: HookKey| #[trigger] final(self).live(k2) && !old(self).live(k2)
                ==> final(self).seq_of(k2) >= old(self).next_seq(),
            forall|k2: HookKey| #[trigger] old(self).gone(k2) ==> final(self).gone(k2),
            final(self).n_artifacts() > old(self).n_artifacts(),
            forall|j: int| 0 <= j < old(self).n_artifacts()
                ==> final(self).artifact_at(j) == old(self).artifact_at(j),
            final(self).artifact_at(old(self).n_artifacts() as int)
                == flatten(t, old(self).values()),
            forall|j: int| 0 <= j < old(self).n_signals()
                ==> ((#[trigger] final(self).sig_at(j).subs().contains(k))
                    <==> direct_reads(t, old(self).values()).contains(j as usize)),
            forall|j: int, k2: HookKey| 0 <= j < old(self).n_signals()
                && old(self).live(k2) && old(self).sig_at(j).subs().contains(k2)
                ==> (#[trigger] final(self).sig_at(j).subs().contains(k2)),
            forall|j: int, k2: HookKey| 0 <= j < old(self).n_signals()
                && (#[trigger] final(self).sig_at(j).subs().contains(k2))
                && !old(self).sig_at(j).subs().contains(k2)
                ==> !old(self).live(k2),
        decreases tmpl_size(t), 2nat,
    {
        let ghost s0 = *self;
        let a = self.alloc_artifact();
        proof {
            Self::lemma_values_same_signals(*self, s0);
        }
        let ghost s1 = *self;
        let me = self.registry.insert(Hook::Dummy);
        proof {
            Self::lemma_values_same_signals(*self, s1);
        }
        let ghost s2 = *self;
        let mut node = NodeHook {
            template: t,
            artifact: a,
            children: Vec::new(),
            keep_alive: Vec::new(),
        };
        let _replaced = self.render_node(&mut node, me);
        let ghost s3 = *self;
        self.registry.set(me, Hook::Node(node));
        proof {
            Self::lemma_values_same_signals(*self, s3);
            assert(s2.live(me));
            assert(s3.live(me) && s3.seq_of(me) == s2.seq_of(me));
            assert(self.live(me) && self.seq_of(me) == s3.seq_of(me));
            assert forall|k2: HookKey| #[trigger] s0.live(k2)
                implies self.live(k2)
                    && self.hook_of(k2) == s0.hook_of(k2)
                    && self.seq_of(k2) == s0.seq_of(k2) by {
                assert(s1.live(k2));
                assert(k2 != me);
                assert(s2.live(k2) && s2.hook_of(k2) == s1.hook_of(k2)
                    && s2.seq_of(k2) == s1.seq_of(k2));
                assert(s3.live(k2) && s3.hook_of(k2) == s2.hook_of(k2)
                    && s3.seq_of(k2) == s2.seq_of(k2));
            }
            assert forall|k2: HookKey| #[trigger] self.live(k2) && !s0.live(k2)
                implies self.seq_of(k2) >= s0.next_seq() by {
                assert(s3.live(k2) && s3.seq_of(k2) == self.seq_of(k2));
                if k2 != me {
                    if s2.live(k2) {
                        assert(s1.live(k2));
                        assert(s0.live(k2));
                        assert(false);
                    } else {
                        assert(s3.seq_of(k2) >= s2.next_seq());
                    }
                }
            }
            assert forall|j: int, k2: HookKey| 0 <= j < s0.n_signals()
                && s0.live(k2) && s0.sig_at(j).subs().contains(k2)
                implies (#[trigger] self.sig_at(j).subs().contains(k2)) by {
                assert(s2.sig_at(j) == s0.sig_at(j));
                assert(k2 != me);
                assert(s2.live(k2));
                assert(s3.sig_at(j).subs().contains(k2));
                assert(self.sig_at(j) == s3.sig_at(j));
            }
            assert forall|j: int, k2: HookKey| 0 <= j < s0.n_signals()
                && (#[trigger] self.sig_at(j).subs().contains(k2))
                && !s0.sig_at(j).subs().contains(k2)
                implies !s0.live(k2) by {
                assert(self.sig_at(j) == s3.sig_at(j));
                assert(s2.sig_at(j) == s0.sig_at(j));
                if k2 != me {
                    if s0.live(k2) {
                        assert(s2.live(k2));
                        assert(s3.sig_at(j).subs().contains(k2)
                            ==> s2.sig_at(j).subs().contains(k2) || !s2.live(k2));
                        assert(false);
                    }
                } else {
                    assert(!s0.live(me));
                }
            }
            assert forall|j: int| 0 <= j < s0.n_artifacts()
                implies self.artifact_at(j) == s0.artifact_at(j) by {
                assert(s1.artifact_at(j) == s0.artifact_at(j));
                assert(s2.artifact_at(j) == s1.artifact_at(j));
                assert(s3.artifact_at(j) == s2.artifact_at(j));
                assert(self.artifact_at(j) == s3.artifact_at(j));
            }
            assert forall|k2: HookKey| #[trigger] s0.gone(k2)
                implies self.gone(k2) by {
                assert(s1.gone(k2));
                assert(s2.gone(k2));
                assert(s3.gone(k2));
            }
            assert forall|j: int| 0 <= j < s0.n_signals()
                implies ((#[trigger] self.sig_at(j).subs().contains(me))
                    <==> direct_reads(t, s0.values()).contains(j as usize)) by {
                assert(self.sig_at(j) == s3.sig_at(j));
                assert(s3.sig_at(j).subs().contains(me)
                    <==> direct_reads(node.template, s2.values()).contains(j as usize));
                assert(s2.values() == s0.values());
            }
        }
        me
    }

    /// Run a node computation: re-derive the direct content into the owned
    /// artifact slot, re-register dependencies, and recreate the child
    /// computations, handing back the previous children for teardown.
    #[verifier::rlimit(100)]
    fn render_node(&mut self, node: &mut NodeHook, me: HookKey) -> (dropped: Vec<HookKey>)
        requires
            old(self).wf(),
            old(self).live(me),
        ensures
            final(self).wf(),
            final(self).live(me),
            io_unchanged(*final(self), *old(self)),
            final(self).n_signals() == old(self).n_signals(),
            final(self).values() == old(self).values(),
            dropped@ == old(node).children@,
            final(node).template == old(node).template,
            final(node).artifact == old(node).artifact,
            final(self).next_resource_spec() >= old(self).next_resource_spec(),
            forall|v: int| 0 <= v < final(node).keep_alive@.len()
                ==> (#[trigger] final(node).keep_alive@[v]) >= old(self).next_resource_spec()
                    && final(node).keep_alive@[v] < final(self).next_resource_spec(),
            forall|v: int| 0 <= v < final(node).children@.len()
                ==> final(self).live(#[trigger] final(node).children@[v])
                    && final(self).seq_of(final(node).children@[v]) >= old(self).next_seq(),
            final(self).next_seq() < u64::MAX
                ==> final(node).children@.len()
                        >= pending_of(old(node).template, old(self).values()).len()
                    && (forall|q: int|
                        0 <= q < pending_of(old(node).template, old(self).values()).len()
                        ==> child_matches(
                            *final(self),
                            #[trigger] final(node).children@[final(node).children@.len()
                                - pending_of(old(node).template, old(self).values()).len()
                                + q],
                            pending_of(old(node).template, old(self).values())[q],
                        )),
            forall|k2: HookKey| #[trigger] old(self).live(k2)
                ==> final(self).live(k2)
                    && final(self).hook_of(k2) == old(self).hook_of(k2)
                    && final(self).seq_of(k2) == old(self).seq_of(k2),
            forall|k2: HookKey| #[trigger] final(self).live(k2) && !old(self).live(k2)
                ==> final(self).seq_of(k2) >= old(self).next_seq(),
            forall|k2: HookKey| #[trigger] old(self).gone(k2) ==> final(self).gone(k2),
            final(self).next_seq() >= old(self).next_seq(),
            final(self).n_artifacts() >= old(self).n_artifacts(),
            forall|j: int| 0 <= j < old(self).n_artifacts() && j != old(node).artifact
                ==> final(self).artifact_at(j) == old(self).artifact_at(j),
            old(node).artifact < old(self).n_artifacts()
                ==> final(self).artifact_at(old(node).artifact as int)
                    == flatten(old(node).template, old(self).values()),
            forall|j: int| 0 <= j < old(self).n_signals()
                ==> ((#[trigger] final(self).sig_at(j).subs().contains(me))
                    <==> direct_reads(old(node).template, old(self).values())
                        .contains(j as usize)),
            forall|j: int, k2: HookKey| 0 <= j < old(self).n_signals() && k2 != me
                && old(self).live(k2) && old(self).sig_at(j).subs().contains(k2)
                ==> (#[trigger] final(self).sig_at(j).subs().contains(k2)),
            forall|j: int, k2: HookKey| 0 <= j < old(self).n_signals() && k2 != me
                && (#[trigger] final(self).sig_at(j).subs().contains(k2))
                && !old(self).sig_at(j).subs().contains(k2)
                ==> !old(self).live(k2),
        decreases tmpl_size(old(node).template), 1nat,
    {
        let ghost s0 = *self;
        let ghost v0 = self.values();
        self.begin_run(me);
        proof {
            lemma_values_pointwise(*self, s0);
        }
        let ghost s1 = *self;
        let mut text = String::new();
        let mut watches: Vec<HookKey> = Vec::new();
        let mut pend: Vec<Pending> = Vec::new();
        let mut fresh_resources: Vec<u64> = Vec::new();
        self.walk_template(
            &node.template,
            me,
            &mut text,
            &mut watches,
            &mut pend,
            &mut fresh_resources,
        );
        proof {
            lemma_pending_smaller(node.template, v0);
        }
        let ghost s2 = *self;
        self.reg_dep(me);
        proof {
            lemma_values_pointwise(*self, s2);
        }
        let ghost s3 = *self;
        let mut children: Vec<HookKey> = watches;
        let ghost cw = children@.len() as int;
        proof {
            assert forall|v: int| 0 <= v < children@.len()
                implies self.live(#[trigger] children@[v])
                    && self.seq_of(children@[v]) >= s0.next_seq() by {
                assert(s2.live(children@[v])
                    && s2.seq_of(children@[v]) >= s1.next_seq());
            }
        }
        let mut j: usize = 0;
        while j < pend.len()
            invariant
                j <= pend@.len(),
                pend@ == pending_of(node.template, v0),
                tmpl_size(node.template) == tmpl_size(old(node).template),
                forall|jj: int| 0 <= jj < pend@.len()
                    ==> ((#[trigger] pend@[jj]) matches Pending::PNode(inner)
                        ==> tmpl_size(inner) < tmpl_size(node.template)),
                self.wf(),
                self.live(me),
                self.next_resource_spec() >= s3.next_resource_spec(),
                io_unchanged(*self, s3),
                self.n_signals() == s3.n_signals(),
                self.values() == s3.values(),
                forall|k2: HookKey| #[trigger] s3.live(k2)
                    ==> self.live(k2)
                        && self.hook_of(k2) == s3.hook_of(k2)
                        && self.seq_of(k2) == s3.seq_of(k2),
                forall|k2: HookKey| #[trigger] self.live(k2) && !s3.live(k2)
                    ==> self.seq_of(k2) >= s3.next_seq(),
                forall|k2: HookKey| #[trigger] s3.gone(k2) ==> self.gone(k2),
                self.next_seq() >= s3.next_seq(),
                self.n_artifacts() >= s3.n_artifacts(),
                forall|jj: int| 0 <= jj < s3.n_artifacts()
                    ==> self.artifact_at(jj) == s3.artifact_at(jj),
                forall|jj: int, k2: HookKey| 0 <= jj < s3.n_signals()
                    && s3.live(k2) && s3.sig_at(jj).subs().contains(k2)
                    ==> (#[trigger] self.sig_at(jj).subs().contains(k2)),
                forall|jj: int, k2: HookKey| 0 <= jj < s3.n_signals()
                    && (#[trigger] self.sig_at(jj).subs().contains(k2))
                    && !s3.sig_at(jj).subs().contains(k2)
                    ==> !s3.live(k2),
                forall|jj: int| 0 <= jj < s3.n_signals()
                    ==> ((#[trigger] self.sig_at(jj).subs().contains(me))
                        <==> s3.sig_at(jj).subs().contains(me)),
                s3.next_seq() >= s0.next_seq(),
                forall|v: int| 0 <= v < children@.len()
                    ==> self.live(#[trigger] children@[v])
                        && self.seq_of(children@[v]) >= s0.next_seq(),
                cw >= 0,
                children@.len() >= cw,
                self.next_seq() < u64::MAX
                    ==> children@.len() == cw + j
                        && (forall|q: int| 0 <= q < j
                            ==> child_matches(
                                *self,
                                #[trigger] children@[cw + q],
                                pend@[q],
                            )),
            decreases pend@.len() - j,
        {
            let ghost sl = *self;
            let ghost cpre = children@;
            match &pend[j] {
                Pending::PNode(t) => {
                    if self.registry.can_insert() {
                        let copy = clone_template(t);
                        let ck = self.create_node(copy);
                        children.push(ck);
                    }
                }
                Pending::PAttr(e) => {
                    if self.registry.can_insert() {
                        let copy = clone_expr(e);
                        let ck = self.create_attr(copy);
                        children.push(ck);
                    }
                }
            }
            proof {
                assert forall|v: int| 0 <= v < children@.len()
                    implies self.live(#[trigger] children@[v])
                        && self.seq_of(children@[v]) >= s0.next_seq() by {
                    if v < cpre.len() {
                        assert(children@[v] == cpre[v]);
                        assert(sl.live(cpre[v]) && sl.seq_of(cpre[v]) >= s0.next_seq());
                    }
                }
                assert forall|k2: HookKey| #[trigger] s3.gone(k2)
                    implies self.gone(k2) by {
                    assert(sl.gone(k2));
                }
                if self.next_seq() < u64::MAX {
                    assert(sl.next_seq() < u64::MAX);
                    assert(cpre.len() == cw + j);
                    assert(children@.len() == cpre.len() + 1);
                    assert(children@.len() == cw + j + 1);
                    assert forall|q: int| 0 <= q < j + 1
                        implies child_matches(
                            *self,
                            #[trigger] children@[cw + q],
                            pend@[q],
                        ) by {
                        if q < j {
                            assert(children@[cw + q] == cpre[cw + q]);
                            assert(child_matches(sl, cpre[cw + q], pend@[q]));
                            assert(sl.live(cpre[cw + q]));
                            assert(self.hook_of(cpre[cw + q])
                                == sl.hook_of(cpre[cw + q]));
                        } else {
                            assert(children@[cw + q]
                                == children@[children@.len() - 1]);
                        }
                    }
                }
            }
            j = j + 1;
        }
        let ghost s4 = *self;
        if node.artifact < self.artifacts.len() {
            self.artifacts.set(node.artifact, text);
        }
        proof {
            Self::lemma_values_same_signals(*self, s4);
            assert(self.registry == s4.registry);
            assert forall|k2: HookKey| #[trigger] s0.live(k2)
                implies self.live(k2)
                    && self.hook_of(k2) == s0.hook_of(k2)
                    && self.seq_of(k2) == s0.seq_of(k2) by {
                assert(s1.live(k2) && s1.hook_of(k2) == s0.hook_of(k2)
                    && s1.seq_of(k2) == s0.seq_of(k2));
                assert(s2.live(k2) && s2.hook_of(k2) == s1.hook_of(k2)
                    && s2.seq_of(k2) == s1.seq_of(k2));
                assert(s3.live(k2) && s3.hook_of(k2) == s2.hook_of(k2)
                    && s3.seq_of(k2) == s2.seq_of(k2));
                assert(s4.live(k2) && s4.hook_of(k2) == s3.hook_of(k2)
                    && s4.seq_of(k2) == s3.seq_of(k2));
            }
            assert forall|k2: HookKey| #[trigger] s0.gone(k2)
                implies self.gone(k2) by {
                assert(s1.gone(k2));
                assert(s2.gone(k2));
                assert(s3.gone(k2));
                assert(s4.gone(k2));
            }
            assert forall|k2: HookKey| #[trigger] self.live(k2) && !s0.live(k2)
                implies self.seq_of(k2) >= s0.next_seq() by {
                assert(s4.live(k2) && s4.seq_of(k2) == self.seq_of(k2));
                if s2.live(k2) {
                    assert(!s1.live(k2));
                    assert(s2.seq_of(k2) >= s1.next_seq());
                    assert(s3.live(k2) && s3.seq_of(k2) == s2.seq_of(k2));
                    assert(s4.seq_of(k2) == s3.seq_of(k2));
                } else {
                    assert(!s3.live(k2));
                    assert(s4.seq_of(k2) >= s3.next_seq());
                    assert(s3.next_seq() == s2.next_seq());
                    assert(s2.next_seq() >= s1.next_seq());
                }
            }
            assert forall|j: int, k2: HookKey| 0 <= j < s0.n_signals() && k2 != me
                && s0.live(k2) && s0.sig_at(j).subs().contains(k2)
                implies (#[trigger] self.sig_at(j).subs().contains(k2)) by {
                assert(s1.live(k2));
                assert(s2.live(k2));
                assert(s3.live(k2));
                assert(s1.sig_at(j).subs().contains(k2));
                assert(s2.sig_at(j).subs().contains(k2));
                assert(s3.sig_at(j).subs().contains(k2));
                assert(s4.sig_at(j).subs().contains(k2));
                assert(self.sig_at(j) == s4.sig_at(j));
            }
            assert forall|j: int, k2: HookKey| 0 <= j < s0.n_signals() && k2 != me
                && (#[trigger] self.sig_at(j).subs().contains(k2))
                && !s0.sig_at(j).subs().contains(k2)
                implies !s0.live(k2) by {
                assert(self.sig_at(j) == s4.sig_at(j));
                if s0.live(k2) {
                    assert(s1.live(k2));
                    assert(s2.live(k2));
                    assert(s3.live(k2));
                    if s3.sig_at(j).subs().contains(k2) {
                        if s2.sig_at(j).subs().contains(k2) {
                            assert(s1.sig_at(j).subs().contains(k2));
                            assert(s0.sig_at(j).subs().contains(k2));
                            assert(false);
                        } else {
                            assert(false);
                        }
                    } else {
                        assert(false);
                    }
                }
            }
            assert forall|j: int| 0 <= j < s0.n_signals()
                implies ((#[trigger] self.sig_at(j).subs().contains(me))
                    <==> direct_reads(old(node).template, v0).contains(j as usize)) by {
                assert(self.sig_at(j) == s4.sig_at(j));
                assert(s4.sig_at(j).subs().contains(me) <==> s3.sig_at(j).subs().contains(me));
                assert(s3.sig_at(j).subs().contains(me)
                    <==> (s2.sig_at(j).subs().contains(me)
                        || (me == me && s2.sig_at(j).read_flag())));
                assert(s2.sig_at(j).read_flag() == (s1.sig_at(j).read_flag()
                    || direct_reads(node.template, v0).contains(j as usize)));
                assert(!s1.sig_at(j).read_flag());
                assert(!s1.sig_at(j).subs().contains(me));
            }
        }
        proof {
            assert forall|v: int| 0 <= v < children@.len()
                implies self.live(#[trigger] children@[v])
                    && self.seq_of(children@[v]) >= s0.next_seq() by {
                assert(s4.live(children@[v])
                    && s4.seq_of(children@[v]) >= s3.next_seq() || true);
                assert(s4.live(children@[v]));
            }
            if self.next_seq() < u64::MAX {
                assert(children@.len() == cw + pend@.len());
                assert forall|q: int| 0 <= q < pend@.len()
                    implies child_matches(
                        *self,
                        #[trigger] children@[children@.len() - pend@.len() + q],
                        pend@[q],
                    ) by {
                    assert(child_matches(s4, children@[cw + q], pend@[q]));
                    assert(s4.live(children@[cw + q]));
                    assert(self.hook_of(children@[cw + q])
                        == s4.hook_of(children@[cw + q]));
                }
            }
        }
        core::mem::swap(&mut node.children, &mut children);
        node.keep_alive = fresh_resources;
        children
    }

    /// Register and run a root node computation over the given template.
    /// Returns its handle, or `None` when the handle space is exhausted.
    pub fn mount(&mut self, t: Template) -> (r: Option<HookKey>)
        requires
            old(self).wf(),
        ensures
            final(self).wf(),
            io_unchanged(*final(self), *old(self)),
            final(self).n_signals() == old(self).n_signals(),
            final(self).values() == old(self).values(),
            old(self).next_seq() < u64::MAX <==> (r is Some),
            r matches Some(k) ==> !old(self).live(k)
                && final(self).live(k)
                && final(self).seq_of(k) == old(self).next_seq()
                && (final(self).hook_of(k) matches Hook::Node(n)
                    && n.template == t && n.artifact == old(self).n_artifacts()
                    && (forall|v: int| 0 <= v < n.children@.len()
                        ==> final(self).live(#[trigger] n.children@[v])
                            && final(self).seq_of(n.children@[v]) > final(self).seq_of(k)))
                && final(self).artifact_at(old(self).n_artifacts() as int)
                    == flatten(t, old(self).values())
                && (forall|j: int| 0 <= j < old(self).n_signals()
                    ==> ((#[trigger] final(self).sig_at(j).subs().contains(k))
                        <==> direct_reads(t, old(self).values()).contains(j as usize))),
            r is None ==> *final(self) == *old(self),
            forall|k2: HookKey| #[trigger] old(self).gone(k2) ==> final(self).gone(k2),
            forall|k2: HookKey| #[trigger] old(self).live(k2)
                ==> final(self).live(k2)
                    && final(self).hook_of(k2) == old(self).hook_of(k2)
                    && final(self).seq_of(k2) == old(self).seq_of(k2),
            forall|j: int| 0 <= j < old(self).n_artifacts()
                ==> final(self).artifact_at(j) == old(self).artifact_at(j),
    {
        if self.registry.can_insert() {
            Some(self.create_node(t))
        } else {
            None
        }
    }

    // ------------------------------------------------------------------
    // Introspection

    /// The artifact slot a live node or attribute computation owns.
    pub fn hook_artifact(&self, k: HookKey) -> (r: Option<usize>)
        ensures
            r == (match self.spec_hook_artifact(k) {
                Some(a) => Some(a),
                None => None::<usize>,
            }),
    {
        match self.registry.get(k) {
            Some(Hook::Node(n)) => Some(n.artifact),
            Some(Hook::Attr(a)) => Some(a.artifact),
            _ => None,
        }
    }

    /// The artifact slot of a live node or attribute computation.
    pub open spec fn spec_hook_artifact(&self, k: HookKey) -> Option<usize> {
        if self.live(k) {
            match self.hook_of(k) {
                Hook::Node(n) => Some(n.artifact),
                Hook::Attr(a) => Some(a.artifact),
                _ => None,
            }
        } else {
            None
        }
    }

    /// The children a live node computation currently owns.
    pub fn hook_children(&self, k: HookKey) -> (r: Option<Vec<HookKey>>)
        ensures
            (r matches Some(cs) && self.live(k)
                && cs@ == self.hook_of(k).children_spec())
            || (r is None && (!self.live(k) || !(self.hook_of(k) is Node))),
    {
        match self.registry.get(k) {
            Some(Hook::Node(n)) => {
                let mut out: Vec<HookKey> = Vec::new();
                let mut i: usize = 0;
                while i < n.children.len()
                    invariant
                        i <= n.children@.len(),
                        out@ == n.children@.subrange(0, i as int),
                    decreases n.children@.len() - i,
                {
                    out.push(n.children[i]);
                    i = i + 1;
                    proof {
                        assert(n.children@.subrange(0, i as int)
                            =~= n.children@.subrange(0, i - 1).push(n.children@[i - 1]));
                    }
                }
                proof {
                    assert(n.children@.subrange(0, n.children@.len() as int) =~= n.children@);
                }
                Some(out)
            }
            _ => None,
        }
    }

    /// The keep-alive resources a live node computation currently owns.
    pub fn hook_resources(&self, k: HookKey) -> (r: Option<Vec<u64>>)
        ensures
            (r matches Some(ids) && self.live(k)
                && (self.hook_of(k) matches Hook::Node(n) && ids@ == n.keep_alive@))
            || (r is None && (!self.live(k) || !(self.hook_of(k) is Node))),
    {
        match self.registry.get(k) {
            Some(Hook::Node(n)) => {
                let mut out: Vec<u64> = Vec::new();
                let mut i: usize = 0;
                while i < n.keep_alive.len()
                    invariant
                        i <= n.keep_alive@.len(),
                        out@ == n.keep_alive@.subrange(0, i as int),
                    decreases n.keep_alive@.len() - i,
                {
                    out.push(n.keep_alive[i]);
                    i = i + 1;
                    proof {
                        assert(n.keep_alive@.subrange(0, i as int)
                            =~= n.keep_alive@.subrange(0, i - 1).push(n.keep_alive@[i - 1]));
                    }
                }
                proof {
                    assert(n.keep_alive@.subrange(0, n.keep_alive@.len() as int)
                        =~= n.keep_alive@);
                }
                Some(out)
            }
            _ => None,
        }
    }

    // ------------------------------------------------------------------
    // The update scheduler

    /// Tear down a computation and, transitively, everything it owns:
    /// detach each from the registry and collect the children each hands
    /// back.  A stale handle is a benign race: a complete no-op, never an
    /// error.  Removal is permanent (`gone`), only the torn-down subtree
    /// is touched — every removed computation is the root or a child of a
    /// removed one — and no removed computation leaves a live child
    /// behind.  Subscriber entries left in signals are harmless: they fail
    /// handle resolution on any future pass.
    fn drop_hook(&mut self, root: HookKey)
        requires
            old(self).wf(),
        ensures
            final(self).wf(),
            !final(self).live(root),
            !old(self).live(root) ==> *final(self) == *old(self),
            old(self).live(root) ==> final(self).gone(root),
            final(self).signals == old(self).signals,
            final(self).artifacts == old(self).artifacts,
            final(self).parent_registered == old(self).parent_registered,
            final(self).outbox == old(self).outbox,
            final(self).next_resource == old(self).next_resource,
            final(self).next_seq() == old(self).next_seq(),
            forall|k: HookKey| #[trigger] final(self).live(k)
                ==> old(self).live(k)
                    && final(self).hook_of(k) == old(self).hook_of(k)
                    && final(self).seq_of(k) == old(self).seq_of(k),
            forall|k: HookKey| #[trigger] old(self).gone(k) ==> final(self).gone(k),
            forall|k: HookKey| old(self).live(k) && !(#[trigger] final(self).live(k))
                ==> final(self).gone(k),
            forall|m: HookKey, c: HookKey| old(self).live(m) && !final(self).live(m)
                && (#[trigger] old(self).hook_of(m).children_spec().contains(c))
                ==> !final(self).live(c),
            forall|k: HookKey| old(self).live(k) && !(#[trigger] final(self).live(k))
                ==> k == root || exists|m: HookKey| old(self).live(m) && !final(self).live(m)
                    && (#[trigger] old(self).hook_of(m).children_spec().contains(k)),
    {
        match self.registry.seq(root) {
            None => {
                return;
            }
            Some(_) => {}
        }
        let mut stack: Vec<HookKey> = Vec::new();
        stack.push(root);
        while stack.len() > 0
            invariant
                self.wf(),
                old(self).live(root),
                self.gone(root) || stack@.contains(root),
                self.signals == old(self).signals,
                self.artifacts == old(self).artifacts,
                self.parent_registered == old(self).parent_registered,
                self.outbox == old(self).outbox,
                self.next_resource == old(self).next_resource,
                self.next_seq() == old(self).next_seq(),
                forall|k: HookKey| #[trigger] self.live(k)
                    ==> old(self).live(k)
                        && self.hook_of(k) == old(self).hook_of(k)
                        && self.seq_of(k) == old(self).seq_of(k),
                forall|k: HookKey| #[trigger] old(self).gone(k) ==> self.gone(k),
                forall|k: HookKey| old(self).live(k) && !(#[trigger] self.live(k))
                    ==> self.gone(k),
                forall|m: HookKey, c: HookKey| old(self).live(m) && !self.live(m)
                    && (#[trigger] old(self).hook_of(m).children_spec().contains(c))
                    ==> !self.live(c) || stack@.contains(c),
                forall|x: HookKey| #[trigger] stack@.contains(x)
                    ==> x == root || exists|m: HookKey| old(self).live(m) && !self.live(m)
                        && (#[trigger] old(self).hook_of(m).children_spec().contains(x)),
                forall|k: HookKey| old(self).live(k) && !(#[trigger] self.live(k))
                    ==> k == root || exists|m: HookKey| old(self).live(m) && !self.live(m)
                        && (#[trigger] old(self).hook_of(m).children_spec().contains(k)),
            decreases self.live_hooks(), stack@.len(),
        {
            let ghost iter0 = *self;
            let ghost stack0 = stack@;
            let k = match stack.pop() {
                Some(k) => k,
                None => { return; }
            };
            let ghost popped = stack@;
            proof {
                assert forall|x: HookKey| stack0.contains(x) && x != k
                    implies popped.contains(x) by {
                    let w = choose|w: int| 0 <= w < stack0.len() && stack0[w] == x;
                    if w == stack0.len() - 1 {
                        assert(x == k);
                    } else {
                        assert(popped[w] == x);
                    }
                }
                assert(stack0.contains(stack0[stack0.len() - 1]));
            }
            let ghost mut pushed: Seq<HookKey> = Seq::empty();
            match self.registry.remove(k) {
                Some(hook) => {
                    let ghost mid = *self;
                    let cs = hook.drop_us();
                    proof {
                        pushed = cs@;
                    }
                    let mut i: usize = 0;
                    while i < cs.len()
                        invariant
                            i <= cs@.len(),
                            *self == mid,
                            stack@ == popped + cs@.subrange(0, i as int),
                        decreases cs@.len() - i,
                    {
                        let ghost pre = stack@;
                        stack.push(cs[i]);
                        i = i + 1;
                        proof {
                            assert(cs@.subrange(0, i as int)
                                =~= cs@.subrange(0, i - 1).push(cs@[i - 1]));
                            assert(stack@ =~= popped + cs@.subrange(0, i as int));
                        }
                    }
                    proof {
                        assert(cs@.subrange(0, cs@.len() as int) =~= cs@);
                    }
                }
                None => {}
            }
            proof {
                assert(stack@ =~= popped + pushed);
                if iter0.live(k) {
                    assert(pushed == iter0.hook_of(k).children_spec());
                    assert(!self.live(k));
                } else {
                    assert(pushed == Seq::<HookKey>::empty());
                }
            }
            proof {
                assert forall|k2: HookKey| #[trigger] self.live(k2)
                    implies old(self).live(k2)
                        && self.hook_of(k2) == old(self).hook_of(k2)
                        && self.seq_of(k2) == old(self).seq_of(k2) by {
                    assert(k2 != k || !self.live(k));
                    assert(iter0.live(k2));
                }
                assert forall|k2: HookKey| old(self).live(k2) && !(#[trigger] self.live(k2))
                    implies self.gone(k2) by {
                    if iter0.live(k2) {
                        assert(k2 == k);
                    } else {
                        assert(iter0.gone(k2));
                    }
                }
                assert forall|x: HookKey| #[trigger] stack@.contains(x)
                    implies x == root || exists|m: HookKey| old(self).live(m)
                        && !self.live(m)
                        && (#[trigger] old(self).hook_of(m).children_spec().contains(x)) by {
                    let w = choose|w: int| 0 <= w < stack@.len() && stack@[w] == x;
                    if w < popped.len() {
                        assert(stack0[w] == x);
                        assert(stack0.contains(x));
                        if x != root {
                            let m = choose|m: HookKey| old(self).live(m) && !iter0.live(m)
                                && (#[trigger] old(self).hook_of(m).children_spec()
                                    .contains(x));
                            assert(!self.live(m));
                        }
                    } else {
                        // x is a child of the computation removed this iteration
                        assert(pushed[w - popped.len()] == x);
                        assert(iter0.live(k));
                        assert(iter0.hook_of(k).children_spec().contains(x));
                        assert(old(self).live(k) && !self.live(k));
                        assert(old(self).hook_of(k).children_spec().contains(x));
                    }
                }
                assert forall|k2: HookKey| old(self).live(k2) && !(#[trigger] self.live(k2))
                    implies k2 == root || exists|m: HookKey| old(self).live(m)
                        && !self.live(m)
                        && (#[trigger] old(self).hook_of(m).children_spec().contains(k2)) by {
                    if iter0.live(k2) {
                        assert(k2 == k);
                        assert(stack0.contains(k2));
                        if k2 != root {
                            let m = choose|m: HookKey| old(self).live(m) && !iter0.live(m)
                                && (#[trigger] old(self).hook_of(m).children_spec()
                                    .contains(k2));
                            assert(!self.live(m));
                        }
                    } else {
                        if k2 != root {
                            let m = choose|m: HookKey| old(self).live(m) && !iter0.live(m)
                                && (#[trigger] old(self).hook_of(m).children_spec()
                                    .contains(k2));
                            assert(!self.live(m));
                        }
                    }
                }
                assert forall|m: HookKey, c: HookKey| old(self).live(m) && !self.live(m)
                    && (#[trigger] old(self).hook_of(m).children_spec().contains(c))
                    implies !self.live(c) || stack@.contains(c) by {
                    if iter0.live(m) {
                        // m is the computation removed this iteration: its
                        // children were all pushed
                        assert(m == k);
                        let w = choose|w: int| 0 <= w < old(self).hook_of(m)
                            .children_spec().len()
                            && old(self).hook_of(m).children_spec()[w] == c;
                        assert(pushed[w] == c);
                        assert(stack@[popped.len() + w] == c);
                        assert(stack@.contains(c));
                    } else {
                        if stack0.contains(c) {
                            if c == k {
                                assert(!self.live(c));
                            } else {
                                assert(popped.contains(c));
                                let w = choose|w: int| 0 <= w < popped.len()
                                    && popped[w] == c;
                                assert(stack@[w] == c);
                                assert(stack@.contains(c));
                            }
                        } else {
                            assert(!iter0.live(c));
                            assert(!self.live(c));
                        }
                    }
                }
                assert(self.gone(root) || stack@.contains(root)) by {
                    if !stack@.contains(root) {
                        if iter0.gone(root) {
                        } else {
                            assert(stack0.contains(root));
                            if root == k {
                                assert(!self.live(root));
                                assert(self.gone(root));
                            } else {
                                assert(popped.contains(root));
                                let w = choose|w: int| 0 <= w < popped.len()
                                    && popped[w] == root;
                                assert(stack@[w] == root);
                            }
                        }
                    }
                }
            }
        }
        proof {
            assert(self.gone(root));
            self.lemma_gone_dead(root);
        }
    }

    /// Scan all signals and gather the live subscribers of every dirty
    /// one into a work-list ordered by creation stamp, newest first (so
    /// the oldest is consumed first), without duplicates.  Handles absent
    /// from the registry are dropped: stale subscriptions of torn-down
    /// computations.
    fn collect_dirty(&self) -> (r: Vec<(u64, HookKey)>)
        requires
            self.wf(),
        ensures
            wl_sorted(r@),
            forall|p: (u64, HookKey)| #[trigger] r@.contains(p)
                ==> dirty_pending(*self, p.1) && p.0 == self.seq_of(p.1),
            forall|k: HookKey| #[trigger] dirty_pending(*self, k)
                ==> exists|p: (u64, HookKey)| #[trigger] r@.contains(p) && p.1 == k,
    {
        let mut r: Vec<(u64, HookKey)> = Vec::new();
        let n = self.signals.len();
        let mut i: usize = 0;
        while i < n
            invariant
                i <= n,
                n == self.n_signals(),
                self.wf(),
                wl_sorted(r@),
                forall|p: (u64, HookKey)| #[trigger] r@.contains(p)
                    ==> dirty_pending(*self, p.1) && p.0 == self.seq_of(p.1),
                forall|jj: int, k: HookKey| 0 <= jj < i && self.live(k)
                    && self.sig_at(jj).written_flag()
                    && (#[trigger] self.sig_at(jj).subs().contains(k))
                    ==> exists|p: (u64, HookKey)| #[trigger] r@.contains(p) && p.1 == k,
            decreases n - i,
        {
            if self.signals[i].changed() {
                let deps = self.signals[i].deps();
                let mut j: usize = 0;
                while j < deps.len()
                    invariant
                        j <= deps@.len(),
                        deps@ == self.sig_at(i as int).subs(),
                        i < n,
                        n == self.n_signals(),
                        self.wf(),
                        self.sig_at(i as int).written_flag(),
                        wl_sorted(r@),
                        forall|p: (u64, HookKey)| #[trigger] r@.contains(p)
                            ==> dirty_pending(*self, p.1) && p.0 == self.seq_of(p.1),
                        forall|jj: int, k: HookKey| 0 <= jj < i && self.live(k)
                            && self.sig_at(jj).written_flag()
                            && (#[trigger] self.sig_at(jj).subs().contains(k))
                            ==> exists|p: (u64, HookKey)| #[trigger] r@.contains(p)
                                && p.1 == k,
                        forall|jj: int| 0 <= jj < j && self.live(deps@[jj])
                            ==> exists|p: (u64, HookKey)| #[trigger] r@.contains(p)
                                && p.1 == deps@[jj],
                    decreases deps@.len() - j,
                {
                    let k = deps[j];
                    let ghost r_before = r@;
                    match self.registry.seq(k) {
                        Some(sq) => {
                            proof {
                                assert(dirty_pending(*self, k)) by {
                                    assert(self.sig_at(i as int).subs().contains(
                                        deps@[j as int],
                                    ));
                                }
                            }
                            Self::wl_insert(&mut r, sq, k);
                            proof {
                                if has_seq(r_before, sq) {
                                    let v = choose|v: int| 0 <= v < r_before.len()
                                        && (#[trigger] r_before[v]).0 == sq;
                                    assert(r_before.contains(r_before[v]));
                                    self.lemma_distinct_stamps_opt(r_before[v].1, k);
                                    assert(r@.contains(r_before[v]) && r_before[v].1 == k);
                                } else {
                                    assert(r@.contains((sq, k)));
                                }
                            }
                        }
                        None => {}
                    }
                    j = j + 1;
                    proof {
                        assert forall|jj: int, k2: HookKey| 0 <= jj < i && self.live(k2)
                            && self.sig_at(jj).written_flag()
                            && (#[trigger] self.sig_at(jj).subs().contains(k2))
                            implies exists|p: (u64, HookKey)| #[trigger] r@.contains(p)
                                && p.1 == k2 by {
                            let p0 = choose|p0: (u64, HookKey)| #[trigger] r_before.contains(
                                p0,
                            ) && p0.1 == k2;
                            assert(r@.contains(p0));
                        }
                        assert forall|jj: int| 0 <= jj < j && self.live(deps@[jj])
                            implies exists|p: (u64, HookKey)| #[trigger] r@.contains(p)
                                && p.1 == deps@[jj] by {
                            if jj < j - 1 {
                                let p0 = choose|p0: (u64, HookKey)| #[trigger] r_before
                                    .contains(p0) && p0.1 == deps@[jj];
                                assert(r@.contains(p0));
                            }
                        }
                    }
                }
            }
            i = i + 1;
        }
        proof {
            assert forall|k: HookKey| #[trigger] dirty_pending(*self, k)
                implies exists|p: (u64, HookKey)| #[trigger] r@.contains(p) && p.1 == k by {
                let jj = choose|jj: int| 0 <= jj < self.n_signals()
                    && (#[trigger] self.sig_at(jj)).written_flag()
                    && self.sig_at(jj).subs().contains(k);
                assert(self.sig_at(jj).subs().contains(k));
            }
        }
        r
    }

    /// `lemma_distinct_stamps`, tolerating equal keys.
    proof fn lemma_distinct_stamps_opt(&self, k1: HookKey, k2: HookKey)
        requires
            self.wf(),
            self.live(k1),
            self.live(k2),
            self.seq_of(k1) == self.seq_of(k2),
        ensures
            k1 == k2,
    {
        if k1 != k2 {
            self.lemma_distinct_stamps(k1, k2);
        }
    }

    /// One scheduler pass: collect the live subscribers of every dirty
    /// signal, then re-run them oldest-first, processing the structural
    /// effects each run produces — teardown of replaced children, and a
    /// memoized computation's request to re-run its owner, which runs next
    /// (its stamp precedes everything still pending).  A pass with no
    /// dirty signal, or whose dirty signals have no live subscribers,
    /// executes nothing and changes nothing.  Within one pass no handle is
    /// executed twice; every executed handle was either a live subscriber
    /// of a dirty signal or the owner a live memoized computation named;
    /// and a completed pass leaves no pending computation unprocessed:
    /// each was executed or torn down.  A pass that exceeds the iteration
    /// budget reports failure — a degenerate cyclic update, a programmer
    /// error the caller must fail loudly on.
    pub fn update(&mut self) -> (outcome: UpdateOutcome)
        requires
            old(self).wf(),
        ensures
            final(self).wf(),
            final(self).n_signals() == old(self).n_signals(),
            final(self).values() == old(self).values(),
            io_unchanged(*final(self), *old(self)),
            forall|k: HookKey| #[trigger] old(self).gone(k) ==> final(self).gone(k),
            no_dirty_work(*old(self)) ==> *final(self) == *old(self)
                && outcome.completed && outcome.executed@.len() == 0,
            !no_dirty_work(*old(self)) ==> outcome.executed@.len() > 0
                && dirty_pending(*old(self), outcome.executed@[0])
                && (forall|k: HookKey| #[trigger] dirty_pending(*old(self), k)
                    ==> old(self).seq_of(outcome.executed@[0]) <= old(self).seq_of(k)),
            forall|i: int, j: int| 0 <= i < j < outcome.executed@.len()
                ==> outcome.executed@[i] != outcome.executed@[j],
            forall|i: int| 0 <= i < outcome.executed@.len()
                ==> schedulable(*old(self), #[trigger] outcome.executed@[i])
                    && old(self).live(outcome.executed@[i]),
            forall|i: int| 0 < i < outcome.executed@.len()
                ==> old(self).seq_of(#[trigger] outcome.executed@[i])
                        > old(self).seq_of(outcome.executed@[i - 1])
                    || (match old(self).hook_of(outcome.executed@[i - 1]) {
                        Hook::Watch(w) => w.owner == outcome.executed@[i],
                        _ => false,
                    }),
            (forall|i: int| 0 <= i < outcome.executed@.len()
                ==> !((#[trigger] old(self).hook_of(outcome.executed@[i])) is Node))
                ==> (forall|k: HookKey| #[trigger] old(self).live(k)
                    ==> final(self).live(k)),
            outcome.completed ==> (forall|k: HookKey| #[trigger] dirty_pending(*old(self), k)
                ==> outcome.executed@.contains(k) || final(self).gone(k)),
            outcome.executed@.len() <= UPDATE_BUDGET,
            !outcome.completed ==> outcome.executed@.len() == UPDATE_BUDGET,
            outcome.executed@.len() > 0 ==> applied_effect(
                *old(self),
                *final(self),
                outcome.executed@[outcome.executed@.len() - 1],
            ),
            forall|k: HookKey| old(self).live(k) && !(#[trigger] final(self).live(k))
                ==> final(self).gone(k),
            forall|k: HookKey| #[trigger] final(self).live(k) && !old(self).live(k)
                ==> final(self).seq_of(k) >= old(self).next_seq(),
            forall|k: HookKey| old(self).live(k) && #[trigger] final(self).live(k)
                ==> same_shape(old(self).hook_of(k), final(self).hook_of(k))
                    && final(self).seq_of(k) == old(self).seq_of(k),
            forall|k: HookKey| old(self).live(k) && #[trigger] final(self).live(k)
                && !outcome.executed@.contains(k)
                ==> final(self).hook_of(k) == old(self).hook_of(k),
            forall|i: int, c: HookKey| 0 <= i < outcome.executed@.len()
                && old(self).live(outcome.executed@[i])
                && (#[trigger] old(self).hook_of(#[trigger] outcome.executed@[i])
                    .children_spec().contains(c))
                && old(self).live(c)
                ==> final(self).gone(c),
    {
        let ghost s0 = *self;
        let worklist_init = self.collect_dirty();
        let ghost r0 = worklist_init@;
        if worklist_init.len() == 0 {
            proof {
                assert(no_dirty_work(s0)) by {
                    if !no_dirty_work(s0) {
                        let k = choose|k: HookKey| !!(#[trigger] dirty_pending(s0, k));
                        assert(dirty_pending(s0, k));
                        let p = choose|p: (u64, HookKey)| #[trigger] r0.contains(p)
                            && p.1 == k;
                        assert(r0.contains(p));
                    }
                }
            }
            return UpdateOutcome { completed: true, executed: Vec::new() };
        }
        proof {
            assert(r0.contains(r0[r0.len() - 1]));
            assert(r0.contains(r0[0]));
            assert(!no_dirty_work(s0));
            assert forall|p: (u64, HookKey)| #[trigger] r0.contains(p)
                implies p.0 < s0.next_seq() by {
                s0.lemma_stamp_bounded(p.1);
            }
        }
        let entry_next = self.registry.next_stamp();
        let mut worklist = worklist_init;
        let mut executed: Vec<HookKey> = Vec::new();
        let mut budget: u64 = UPDATE_BUDGET;
        while worklist.len() > 0 && budget > 0
            invariant
                self.wf(),
                self.n_signals() == s0.n_signals(),
                self.values() == s0.values(),
                io_unchanged(*self, s0),
                entry_next == s0.next_seq(),
                wl_sorted(worklist@),
                r0.len() > 0,
                wl_sorted(r0),
                forall|p: (u64, HookKey)| #[trigger] r0.contains(p)
                    ==> dirty_pending(s0, p.1) && p.0 == s0.seq_of(p.1),
                executed@.len() == 0 ==> *self == s0 && worklist@ == r0
                    && budget == UPDATE_BUDGET,
                executed@.len() > 0 ==> executed@[0] == r0[r0.len() - 1].1,
                budget + executed@.len() == UPDATE_BUDGET,
                forall|i: int, j: int| 0 <= i < j < executed@.len()
                    ==> executed@[i] != executed@[j],
                forall|i: int| 0 <= i < executed@.len()
                    ==> schedulable(s0, #[trigger] executed@[i])
                        && s0.live(executed@[i]),
                (forall|i: int| 0 <= i < executed@.len()
                    ==> !((#[trigger] s0.hook_of(executed@[i])) is Node))
                    ==> (forall|k: HookKey| #[trigger] s0.live(k) ==> self.live(k)),
                forall|i: int| 0 < i < executed@.len()
                    ==> s0.seq_of(#[trigger] executed@[i])
                            > s0.seq_of(executed@[i - 1])
                        || (match s0.hook_of(executed@[i - 1]) {
                            Hook::Watch(w) => w.owner == executed@[i],
                            _ => false,
                        }),
                executed@.len() > 0 ==> (forall|p: (u64, HookKey)|
                    #[trigger] worklist@.contains(p)
                    ==> p.0 > s0.seq_of(executed@[executed@.len() - 1])
                        || (match s0.hook_of(executed@[executed@.len() - 1]) {
                            Hook::Watch(w) => w.owner == p.1,
                            _ => false,
                        })),
                forall|p: (u64, HookKey)| #[trigger] worklist@.contains(p)
                    ==> schedulable(s0, p.1) && p.0 < s0.next_seq() && s0.live(p.1)
                        && p.0 == s0.seq_of(p.1),
                forall|k: HookKey| #[trigger] self.live(k) && !s0.live(k)
                    ==> self.seq_of(k) >= s0.next_seq(),
                forall|k: HookKey| #[trigger] s0.gone(k) ==> self.gone(k),
                forall|k: HookKey| s0.live(k) && !(#[trigger] self.live(k))
                    ==> self.gone(k),
                forall|k: HookKey| s0.live(k) && #[trigger] self.live(k)
                    ==> same_shape(s0.hook_of(k), self.hook_of(k))
                        && self.seq_of(k) == s0.seq_of(k),
                forall|k: HookKey| s0.live(k) && #[trigger] self.live(k)
                    && !executed@.contains(k)
                    ==> self.hook_of(k) == s0.hook_of(k),
                self.next_seq() >= s0.next_seq(),
                self.n_artifacts() >= s0.n_artifacts(),
                forall|k: HookKey| #[trigger] dirty_pending(s0, k)
                    ==> executed@.contains(k) || wl_has_key(worklist@, k) || self.gone(k),
                executed@.len() > 0 ==> applied_effect(
                    s0,
                    *self,
                    executed@[executed@.len() - 1],
                ),
                forall|i: int, c: HookKey| 0 <= i < executed@.len()
                    && s0.live(executed@[i])
                    && (#[trigger] s0.hook_of(#[trigger] executed@[i])
                        .children_spec().contains(c))
                    && s0.live(c)
                    ==> self.gone(c),
            decreases budget, worklist@.len(),
        {
            let ghost it0 = *self;
            let ghost wl0 = worklist@;
            let ghost ex0 = executed@;
            let popped_opt = worklist.pop();
            match popped_opt {
                Some(pair) => {
                    let kk = pair.1;
                    let ghost wl1 = worklist@;
                    proof {
                        assert(wl0.contains(wl0[wl0.len() - 1]));
                        assert forall|p: (u64, HookKey)| #[trigger] worklist@.contains(p)
                            implies wl0.contains(p) && p.0 > pair.0 by {
                            let w = choose|w: int| 0 <= w < worklist@.len()
                                && worklist@[w] == p;
                            assert(wl0[w] == p);
                            assert(wl0[w].0 > wl0[wl0.len() - 1].0);
                        }
                        assert(schedulable(s0, kk));
                        assert(pair.0 < s0.next_seq());
                        assert(s0.live(kk));
                        if ex0.len() == 0 {
                            assert(r0.contains(r0[r0.len() - 1]));
                            assert(dirty_pending(s0, kk));
                            assert(s0.live(kk));
                        }
                        // completeness witnesses survive the pop
                        assert forall|k: HookKey| #[trigger] dirty_pending(s0, k)
                            && wl_has_key(wl0, k) && k != kk
                            implies wl_has_key(worklist@, k) by {
                            let p = choose|p: (u64, HookKey)| #[trigger] wl0.contains(p)
                                && p.1 == k;
                            let w = choose|w: int| 0 <= w < wl0.len() && wl0[w] == p;
                            if w < wl0.len() - 1 {
                                assert(worklist@[w] == p);
                                assert(worklist@.contains(p));
                            } else {
                                assert(p == pair);
                            }
                        }
                    }
                    if Self::key_in(&executed, kk) {
                        // dedup on re-insertion: this handle already ran in
                        // this pass and is never executed twice
                        proof {
                            assert forall|k: HookKey| #[trigger] it0.gone(k)
                                implies self.gone(k) by {}
                        }
                    } else {
                        let ghost pre = *self;
                        match self.registry.swap(kk, Hook::Dummy) {
                            None => {
                                proof {
                                    assert(!pre.live(kk));
                                    assert(!it0.live(kk));
                                    assert(it0.gone(kk));
                                    assert(self.gone(kk));
                                    assert forall|k: HookKey| #[trigger] it0.gone(k)
                                        implies self.gone(k) by {}
                                }
                            }
                            Some(hook) => {
                                budget = budget - 1;
                                executed.push(kk);
                                proof {
                                    assert(pre.live(kk));
                                    assert(self.live(kk));
                                    assert(it0.live(kk));
                                    assert(it0.hook_of(kk) == s0.hook_of(kk));
                                    assert(hook == s0.hook_of(kk));
                                    assert(pair.0 == s0.seq_of(kk));
                                    assert forall|i: int| 0 < i < executed@.len()
                                        implies s0.seq_of(#[trigger] executed@[i])
                                                > s0.seq_of(executed@[i - 1])
                                            || (match s0.hook_of(executed@[i - 1]) {
                                                Hook::Watch(w) => w.owner == executed@[i],
                                                _ => false,
                                            }) by {
                                        if i < executed@.len() - 1 {
                                            assert(executed@[i] == ex0[i]);
                                            assert(executed@[i - 1] == ex0[i - 1]);
                                        } else {
                                            assert(executed@[i] == kk);
                                            assert(executed@[i - 1]
                                                == ex0[ex0.len() - 1]);
                                            assert(wl0.contains(pair));
                                        }
                                    }
                                }
                                let ghost sw0 = *self;
                                match hook {
                                    Hook::Dummy => {
                                        let ghost sd = *self;
                                        self.registry.set(kk, Hook::Dummy);
                                        proof {
                                            Self::lemma_values_same_signals(*self, sd);
                                            assert(self.hook_of(kk) == Hook::Dummy);
                                            assert forall|k: HookKey| #[trigger] self.live(k)
                                                implies sw0.live(k)
                                                    && self.seq_of(k) == sw0.seq_of(k)
                                                    && self.hook_of(k) == (if k == kk {
                                                        Hook::Dummy
                                                    } else {
                                                        sw0.hook_of(k)
                                                    }) by {
                                                assert(sd.live(k));
                                            }
                                            assert forall|k: HookKey| #[trigger] sw0.gone(k)
                                                implies self.gone(k) by {
                                                assert(sd.gone(k));
                                            }
                                            assert forall|k: HookKey| #[trigger] sw0.live(k)
                                                implies self.live(k) by {
                                                assert(sd.live(k));
                                            }
                                            if (forall|i: int| 0 <= i < executed@.len()
                                                ==> !((#[trigger] s0.hook_of(
                                                    executed@[i],
                                                )) is Node)) {
                                                assert(forall|i: int| 0 <= i < ex0.len()
                                                    ==> !((#[trigger] s0.hook_of(
                                                        ex0[i],
                                                    )) is Node)) by {
                                                    assert(forall|i: int| 0 <= i < ex0.len()
                                                        ==> executed@[i] == ex0[i]);
                                                }
                                                assert forall|k: HookKey| #[trigger] s0
                                                    .live(k) implies self.live(k) by {
                                                    assert(it0.live(k));
                                                    assert(sw0.live(k));
                                                }
                                            }
                                            assert forall|k: HookKey| #[trigger] s0.gone(k)
                                                implies self.gone(k) by {
                                                assert(it0.gone(k));
                                                assert(sw0.gone(k));
                                            }
                                            assert forall|k: HookKey| #[trigger] it0.gone(k)
                                                implies self.gone(k) by {
                                                assert(sw0.gone(k));
                                            }
                                            assert forall|k: HookKey| #[trigger] self.live(k)
                                                && !s0.live(k)
                                                implies self.seq_of(k) >= s0.next_seq() by {
                                                assert(sw0.live(k));
                                                assert(it0.live(k));
                                            }
                                            assert forall|k: HookKey| s0.live(k)
                                                && !(#[trigger] self.live(k))
                                                implies self.gone(k) by {
                                                assert(!sw0.live(k));
                                                assert(!it0.live(k));
                                                assert(it0.gone(k));
                                                assert(sw0.gone(k));
                                            }
                                            assert forall|k: HookKey| s0.live(k)
                                                && #[trigger] self.live(k)
                                                implies same_shape(
                                                    s0.hook_of(k),
                                                    self.hook_of(k),
                                                ) && self.seq_of(k) == s0.seq_of(k) by {
                                                assert(sw0.live(k));
                                                assert(it0.live(k));
                                                if k != kk {
                                                    assert(self.hook_of(k)
                                                        == sw0.hook_of(k));
                                                    assert(sw0.hook_of(k)
                                                        == it0.hook_of(k));
                                                }
                                            }
                                            assert forall|k: HookKey| s0.live(k)
                                                && #[trigger] self.live(k)
                                                && !executed@.contains(k)
                                                implies self.hook_of(k) == s0.hook_of(k)
                                                by {
                                                assert(k != kk);
                                                assert(!ex0.contains(k));
                                                assert(sw0.live(k));
                                                assert(it0.live(k));
                                                assert(self.hook_of(k) == sw0.hook_of(k));
                                                assert(sw0.hook_of(k) == it0.hook_of(k));
                                            }
                                            assert(applied_effect(s0, *self, kk));
                                            assert(s0.hook_of(kk).children_spec()
                                                =~= Seq::<HookKey>::empty());
                                        }
                                    }
                                    Hook::Node(mut n) => {
                                        let ghost sb = *self;
                                        let dropped = self.render_node(&mut n, kk);
                                        let ghost sc = *self;
                                        self.registry.set(kk, Hook::Node(n));
                                        proof {
                                            Self::lemma_values_same_signals(*self, sc);
                                            assert(sc.live(kk));
                                            assert(self.hook_of(kk) == Hook::Node(n));
                                        }
                                        let ghost sd = *self;
                                        let mut di: usize = 0;
                                        while di < dropped.len()
                                            invariant
                                                di <= dropped@.len(),
                                                self.wf(),
                                                self.n_signals() == s0.n_signals(),
                                                self.values() == s0.values(),
                                                io_unchanged(*self, s0),
                                                self.next_seq() == sd.next_seq(),
                                                self.n_artifacts() == sd.n_artifacts(),
                                                self.artifacts == sd.artifacts,
                                                forall|k: HookKey| #[trigger] self.live(k)
                                                    ==> sd.live(k)
                                                        && self.hook_of(k) == sd.hook_of(k)
                                                        && self.seq_of(k) == sd.seq_of(k),
                                                forall|k: HookKey| #[trigger] sd.gone(k)
                                                    ==> self.gone(k),
                                                forall|k: HookKey| sd.live(k)
                                                    && !(#[trigger] self.live(k))
                                                    ==> self.gone(k),
                                                forall|v: int| 0 <= v < di
                                                    && sd.live(#[trigger] dropped@[v])
                                                    ==> self.gone(dropped@[v]),
                                            decreases dropped@.len() - di,
                                        {
                                            let ghost dh0 = *self;
                                            self.drop_hook(dropped[di]);
                                            proof {
                                                Self::lemma_values_same_signals(*self, dh0);
                                                assert forall|k: HookKey| #[trigger] self
                                                    .live(k)
                                                    implies sd.live(k)
                                                        && self.hook_of(k) == sd.hook_of(k)
                                                        && self.seq_of(k) == sd.seq_of(k)
                                                    by {
                                                    assert(dh0.live(k));
                                                }
                                                assert forall|k: HookKey| #[trigger] sd
                                                    .gone(k) implies self.gone(k) by {
                                                    assert(dh0.gone(k));
                                                }
                                                assert forall|k: HookKey| sd.live(k)
                                                    && !(#[trigger] self.live(k))
                                                    implies self.gone(k) by {
                                                    if dh0.live(k) {
                                                        assert(self.gone(k));
                                                    } else {
                                                        assert(dh0.gone(k));
                                                    }
                                                }
                                                assert forall|v: int| 0 <= v < di + 1
                                                    && sd.live(#[trigger] dropped@[v])
                                                    implies self.gone(dropped@[v]) by {
                                                    if v < di {
                                                        assert(dh0.gone(dropped@[v]));
                                                    } else {
                                                        if dh0.live(dropped@[v]) {
                                                            assert(self.gone(dropped@[v]));
                                                        } else {
                                                            assert(dh0.gone(dropped@[v]));
                                                        }
                                                    }
                                                }
                                            }
                                            di = di + 1;
                                        }
                                        proof {
                                            // freshness of stamps
                                            assert forall|k: HookKey| #[trigger] self.live(k)
                                                && !s0.live(k)
                                                implies self.seq_of(k) >= s0.next_seq() by {
                                                assert(sd.live(k)
                                                    && sd.seq_of(k) == self.seq_of(k));
                                                assert(sc.live(k)
                                                    && sc.seq_of(k) == sd.seq_of(k));
                                                if sb.live(k) {
                                                    assert(it0.live(k));
                                                    assert(it0.seq_of(k) == sc.seq_of(k));
                                                } else {
                                                    assert(sc.seq_of(k) >= sb.next_seq());
                                                    assert(sb.next_seq() >= s0.next_seq());
                                                }
                                            }
                                            // removal is permanent
                                            assert forall|k: HookKey| #[trigger] s0.gone(k)
                                                implies self.gone(k) by {
                                                assert(it0.gone(k));
                                                assert(sb.gone(k));
                                                assert(sc.gone(k));
                                                assert(sd.gone(k));
                                            }
                                            assert forall|k: HookKey| #[trigger] it0.gone(k)
                                                implies self.gone(k) by {
                                                assert(sb.gone(k));
                                                assert(sc.gone(k));
                                                assert(sd.gone(k));
                                            }
                                            assert forall|k: HookKey| s0.live(k)
                                                && !(#[trigger] self.live(k))
                                                implies self.gone(k) by {
                                                if it0.live(k) {
                                                    assert(sb.live(k));
                                                    assert(sc.live(k));
                                                    assert(sd.live(k));
                                                } else {
                                                    assert(it0.gone(k));
                                                    assert(sb.gone(k));
                                                    assert(sc.gone(k));
                                                    assert(sd.gone(k));
                                                }
                                            }
                                            // identity of surviving computations
                                            assert forall|k: HookKey| s0.live(k)
                                                && #[trigger] self.live(k)
                                                implies same_shape(
                                                    s0.hook_of(k),
                                                    self.hook_of(k),
                                                ) && self.seq_of(k) == s0.seq_of(k) by {
                                                assert(sd.live(k));
                                                assert(sc.live(k));
                                                if !it0.live(k) {
                                                    assert(it0.gone(k));
                                                    assert(sb.gone(k));
                                                    assert(sc.gone(k));
                                                    sc.lemma_gone_dead(k);
                                                }
                                                assert(it0.live(k));
                                                assert(sb.live(k));
                                                if k != kk {
                                                    assert(sc.hook_of(k) == sb.hook_of(k));
                                                    assert(self.hook_of(k)
                                                        == it0.hook_of(k));
                                                } else {
                                                    assert(self.hook_of(kk)
                                                        == Hook::Node(n));
                                                    assert(s0.hook_of(kk) == hook);
                                                }
                                            }
                                            assert forall|k: HookKey| s0.live(k)
                                                && #[trigger] self.live(k)
                                                && !executed@.contains(k)
                                                implies self.hook_of(k) == s0.hook_of(k)
                                                by {
                                                assert(k != kk);
                                                assert(!ex0.contains(k));
                                                assert(sd.live(k));
                                                assert(sc.live(k));
                                                if !it0.live(k) {
                                                    assert(it0.gone(k));
                                                    assert(sb.gone(k));
                                                    assert(sc.gone(k));
                                                    sc.lemma_gone_dead(k);
                                                }
                                                assert(it0.live(k));
                                                assert(sb.live(k));
                                                assert(sc.hook_of(k) == sb.hook_of(k));
                                            }
                                            // the executed node's effect
                                            assert(applied_effect(s0, *self, kk)) by {
                                                if self.live(kk) {
                                                    assert(self.hook_of(kk)
                                                        == Hook::Node(n));
                                                    if n.artifact < s0.n_artifacts() {
                                                        assert(n.artifact
                                                            < sb.n_artifacts());
                                                        assert(sc.artifact_at(
                                                            n.artifact as int,
                                                        ) == flatten(
                                                            n.template,
                                                            sb.values(),
                                                        ));
                                                        assert(sb.values() == s0.values());
                                                        assert(self.artifact_at(
                                                            n.artifact as int,
                                                        ) == sc.artifact_at(
                                                            n.artifact as int,
                                                        ));
                                                    }
                                                }
                                            }
                                            // the replaced children are torn down
                                            assert forall|c: HookKey|
                                                s0.hook_of(kk).children_spec().contains(c)
                                                && s0.live(c)
                                                implies self.gone(c) by {
                                                let v = choose|v: int| 0 <= v
                                                    < s0.hook_of(kk).children_spec().len()
                                                    && s0.hook_of(kk).children_spec()[v]
                                                        == c;
                                                assert(dropped@[v] == c);
                                                if sd.live(c) {
                                                    assert(self.gone(c));
                                                } else {
                                                    if it0.live(c) {
                                                        assert(sb.live(c));
                                                        assert(sc.live(c));
                                                        assert(sd.live(c));
                                                        assert(false);
                                                    } else {
                                                        assert(it0.gone(c));
                                                        assert(sb.gone(c));
                                                        assert(sc.gone(c));
                                                        assert(sd.gone(c));
                                                    }
                                                }
                                            }
                                            assert(self.n_artifacts() >= s0.n_artifacts());
                                            assert(self.next_seq() >= s0.next_seq());
                                            assert(s0.hook_of(
                                                executed@[executed@.len() - 1],
                                            ) is Node);
                                        }
                                    }
                                    Hook::Attr(a) => {
                                        self.run_attr(&a, kk);
                                        let ghost sc = *self;
                                        self.registry.set(kk, Hook::Attr(a));
                                        proof {
                                            Self::lemma_values_same_signals(*self, sc);
                                            assert(sw0.live(kk));
                                            assert(sc.live(kk));
                                            assert(self.hook_of(kk) == Hook::Attr(a));
                                            assert forall|k: HookKey| #[trigger] self.live(k)
                                                implies sw0.live(k)
                                                    && self.seq_of(k) == sw0.seq_of(k) by {
                                                assert(sc.live(k));
                                            }
                                            assert forall|k: HookKey| #[trigger] sw0.live(k)
                                                implies self.live(k) by {
                                                assert(sc.live(k));
                                            }
                                            if (forall|i: int| 0 <= i < executed@.len()
                                                ==> !((#[trigger] s0.hook_of(
                                                    executed@[i],
                                                )) is Node)) {
                                                assert(forall|i: int| 0 <= i < ex0.len()
                                                    ==> !((#[trigger] s0.hook_of(
                                                        ex0[i],
                                                    )) is Node)) by {
                                                    assert(forall|i: int| 0 <= i < ex0.len()
                                                        ==> executed@[i] == ex0[i]);
                                                }
                                                assert forall|k: HookKey| #[trigger] s0
                                                    .live(k) implies self.live(k) by {
                                                    assert(it0.live(k));
                                                    assert(sw0.live(k));
                                                }
                                            }
                                            assert forall|k: HookKey| #[trigger] sw0.gone(k)
                                                implies self.gone(k) by {
                                                assert(sc.gone(k));
                                            }
                                            assert forall|k: HookKey| #[trigger] self.live(k)
                                                && k != kk
                                                implies self.hook_of(k) == sw0.hook_of(k)
                                                by {
                                                assert(sc.live(k));
                                                assert(sc.hook_of(k) == sw0.hook_of(k));
                                            }
                                            assert(applied_effect(s0, *self, kk)) by {
                                                if a.artifact < s0.n_artifacts() {
                                                    assert(a.artifact
                                                        < sw0.n_artifacts());
                                                    assert(sc.artifact_at(
                                                        a.artifact as int,
                                                    ) == crate::text::dec_digits(
                                                        eval(a.expr, sw0.values()) as nat,
                                                    ));
                                                    assert(sw0.values() == s0.values());
                                                    assert(self.artifact_at(
                                                        a.artifact as int,
                                                    ) == sc.artifact_at(a.artifact as int));
                                                }
                                            }
                                            assert(s0.hook_of(kk).children_spec()
                                                =~= Seq::<HookKey>::empty());
                                            assert forall|k: HookKey| #[trigger] s0.gone(k)
                                                implies self.gone(k) by {
                                                assert(it0.gone(k));
                                                assert(sw0.gone(k));
                                            }
                                            assert forall|k: HookKey| #[trigger] it0.gone(k)
                                                implies self.gone(k) by {
                                                assert(sw0.gone(k));
                                            }
                                            assert forall|k: HookKey| #[trigger] self.live(k)
                                                && !s0.live(k)
                                                implies self.seq_of(k) >= s0.next_seq() by {
                                                assert(sw0.live(k));
                                                assert(it0.live(k));
                                            }
                                            assert forall|k: HookKey| s0.live(k)
                                                && !(#[trigger] self.live(k))
                                                implies self.gone(k) by {
                                                assert(!sw0.live(k));
                                                assert(!it0.live(k));
                                                assert(it0.gone(k));
                                                assert(sw0.gone(k));
                                            }
                                            assert forall|k: HookKey| s0.live(k)
                                                && #[trigger] self.live(k)
                                                implies same_shape(
                                                    s0.hook_of(k),
                                                    self.hook_of(k),
                                                ) && self.seq_of(k) == s0.seq_of(k) by {
                                                assert(sw0.live(k));
                                                assert(it0.live(k));
                                                if k != kk {
                                                    assert(self.hook_of(k)
                                                        == sw0.hook_of(k));
                                                    assert(sw0.hook_of(k)
                                                        == it0.hook_of(k));
                                                }
                                            }
                                            assert forall|k: HookKey| s0.live(k)
                                                && #[trigger] self.live(k)
                                                && !executed@.contains(k)
                                                implies self.hook_of(k) == s0.hook_of(k)
                                                by {
                                                assert(k != kk);
                                                assert(!ex0.contains(k));
                                                assert(sw0.live(k));
                                                assert(it0.live(k));
                                                assert(self.hook_of(k) == sw0.hook_of(k));
                                                assert(sw0.hook_of(k) == it0.hook_of(k));
                                            }
                                        }
                                    }
                                    Hook::Watch(mut w) => {
                                        let ghost w0 = w;
                                        let res = self.run_watch(&mut w, kk);
                                        let ghost sc = *self;
                                        self.registry.set(kk, Hook::Watch(w));
                                        proof {
                                            Self::lemma_values_same_signals(*self, sc);
                                            assert(sw0.live(kk));
                                            assert(sc.live(kk));
                                            assert(self.hook_of(kk) == Hook::Watch(w));
                                            assert(w.expr == w0.expr && w.owner == w0.owner);
                                            assert forall|k: HookKey| #[trigger] self.live(k)
                                                implies sw0.live(k)
                                                    && self.seq_of(k) == sw0.seq_of(k) by {
                                                assert(sc.live(k));
                                            }
                                            assert forall|k: HookKey| #[trigger] sw0.live(k)
                                                implies self.live(k) by {
                                                assert(sc.live(k));
                                            }
                                            if (forall|i: int| 0 <= i < executed@.len()
                                                ==> !((#[trigger] s0.hook_of(
                                                    executed@[i],
                                                )) is Node)) {
                                                assert(forall|i: int| 0 <= i < ex0.len()
                                                    ==> !((#[trigger] s0.hook_of(
                                                        ex0[i],
                                                    )) is Node)) by {
                                                    assert(forall|i: int| 0 <= i < ex0.len()
                                                        ==> executed@[i] == ex0[i]);
                                                }
                                                assert forall|k: HookKey| #[trigger] s0
                                                    .live(k) implies self.live(k) by {
                                                    assert(it0.live(k));
                                                    assert(sw0.live(k));
                                                }
                                            }
                                            assert forall|k: HookKey| #[trigger] sw0.gone(k)
                                                implies self.gone(k) by {
                                                assert(sc.gone(k));
                                            }
                                            assert forall|k: HookKey| #[trigger] self.live(k)
                                                && k != kk
                                                implies self.hook_of(k) == sw0.hook_of(k)
                                                by {
                                                assert(sc.live(k));
                                                assert(sc.hook_of(k) == sw0.hook_of(k));
                                            }
                                            assert(applied_effect(s0, *self, kk));
                                            assert(s0.hook_of(kk).children_spec()
                                                =~= Seq::<HookKey>::empty());
                                            assert forall|k: HookKey| #[trigger] s0.gone(k)
                                                implies self.gone(k) by {
                                                assert(it0.gone(k));
                                                assert(sw0.gone(k));
                                            }
                                            assert forall|k: HookKey| #[trigger] it0.gone(k)
                                                implies self.gone(k) by {
                                                assert(sw0.gone(k));
                                            }
                                            assert forall|k: HookKey| #[trigger] self.live(k)
                                                && !s0.live(k)
                                                implies self.seq_of(k) >= s0.next_seq() by {
                                                assert(sw0.live(k));
                                                assert(it0.live(k));
                                            }
                                            assert forall|k: HookKey| s0.live(k)
                                                && !(#[trigger] self.live(k))
                                                implies self.gone(k) by {
                                                assert(!sw0.live(k));
                                                assert(!it0.live(k));
                                                assert(it0.gone(k));
                                                assert(sw0.gone(k));
                                            }
                                            assert forall|k: HookKey| s0.live(k)
                                                && #[trigger] self.live(k)
                                                implies same_shape(
                                                    s0.hook_of(k),
                                                    self.hook_of(k),
                                                ) && self.seq_of(k) == s0.seq_of(k) by {
                                                assert(sw0.live(k));
                                                assert(it0.live(k));
                                                if k != kk {
                                                    assert(self.hook_of(k)
                                                        == sw0.hook_of(k));
                                                    assert(sw0.hook_of(k)
                                                        == it0.hook_of(k));
                                                }
                                            }
                                            assert forall|k: HookKey| s0.live(k)
                                                && #[trigger] self.live(k)
                                                && !executed@.contains(k)
                                                implies self.hook_of(k) == s0.hook_of(k)
                                                by {
                                                assert(k != kk);
                                                assert(!ex0.contains(k));
                                                assert(sw0.live(k));
                                                assert(it0.live(k));
                                                assert(self.hook_of(k) == sw0.hook_of(k));
                                                assert(sw0.hook_of(k) == it0.hook_of(k));
                                            }
                                        }
                                        match res {
                                            UpdateResult::Nothing => {}
                                            UpdateResult::RunHook(owner) => {
                                                match self.registry.seq(owner) {
                                                    Some(sq) => {
                                                        if sq < entry_next {
                                                            proof {
                                                                assert(self.live(owner));
                                                                assert(sw0.live(owner)
                                                                    && sw0.seq_of(owner)
                                                                        == sq);
                                                                assert(it0.live(owner)
                                                                    && it0.seq_of(owner)
                                                                        == sq);
                                                                assert(s0.live(owner)) by {
                                                                    if !s0.live(owner) {
                                                                        assert(it0.seq_of(
                                                                            owner,
                                                                        ) >= s0.next_seq());
                                                                    }
                                                                }
                                                                assert(s0.hook_of(kk)
                                                                    == Hook::Watch(w0));
                                                                assert(owner_requested(
                                                                    s0,
                                                                    owner,
                                                                ));
                                                            }
                                                            let ghost wpre = worklist@;
                                                            Self::wl_insert(
                                                                &mut worklist,
                                                                sq,
                                                                owner,
                                                            );
                                                            proof {
                                                                assert forall|
                                                                    p: (u64, HookKey),
                                                                |
                                                                    #[trigger] worklist@
                                                                        .contains(p)
                                                                    implies schedulable(
                                                                        s0,
                                                                        p.1,
                                                                    ) && p.0 < s0.next_seq()
                                                                        && s0.live(p.1) by {
                                                                    if !wpre.contains(p) {
                                                                        assert(p == (
                                                                            sq,
                                                                            owner,
                                                                        ));
                                                                    }
                                                                }
                                                                assert forall|k: HookKey|
                                                                    wl_has_key(wpre, k)
                                                                    implies wl_has_key(
                                                                        worklist@,
                                                                        k,
                                                                    ) by {
                                                                    let p = choose|
                                                                        p: (u64, HookKey),
                                                                    |
                                                                        #[trigger] wpre
                                                                            .contains(p)
                                                                        && p.1 == k;
                                                                    assert(worklist@
                                                                        .contains(p));
                                                                }
                                                            }
                                                        }
                                                    }
                                                    None => {}
                                                }
                                            }
                                            UpdateResult::DropHooks(ds) => {
                                                // a memoized re-run yields only
                                                // Nothing or RunHook
                                                proof {
                                                    assert(false);
                                                }
                                                let _ = ds;
                                            }
                                        }
                                    }
                                }
                            }
                        }
                    }
                    proof {
                        assert forall|k: HookKey| #[trigger] dirty_pending(s0, k)
                            implies executed@.contains(k) || wl_has_key(worklist@, k)
                                || self.gone(k) by {
                            if ex0.contains(k) {
                                let w = choose|w: int| 0 <= w < ex0.len() && ex0[w] == k;
                                assert(executed@[w] == k);
                                assert(executed@.contains(k));
                            } else if k == kk {
                                if executed@.len() > ex0.len() {
                                    assert(executed@[executed@.len() - 1] == kk);
                                    assert(executed@.contains(k));
                                } else {
                                    assert(self.gone(kk));
                                }
                            } else if wl_has_key(wl0, k) {
                                assert(wl_has_key(wl1, k));
                                assert(wl_has_key(worklist@, k));
                            } else {
                                assert(it0.gone(k));
                                assert(self.gone(k));
                            }
                        }
                        assert forall|i: int, c: HookKey| 0 <= i < executed@.len()
                            && s0.live(executed@[i])
                            && (#[trigger] s0.hook_of(#[trigger] executed@[i])
                                .children_spec().contains(c))
                            && s0.live(c)
                            implies self.gone(c) by {
                            if i < ex0.len() {
                                assert(executed@[i] == ex0[i]);
                                assert(it0.gone(c));
                                assert(self.gone(c));
                            } else {
                                assert(executed@[i] == kk);
                            }
                        }
                    }
                }
                None => {}
            }
        }
        let completed = worklist.len() == 0;
        proof {
            assert(executed@.len() > 0);
            assert(dirty_pending(s0, executed@[0]));
            assert forall|k: HookKey| #[trigger] dirty_pending(s0, k)
                implies s0.seq_of(executed@[0]) <= s0.seq_of(k) by {
                let p = choose|p: (u64, HookKey)| #[trigger] r0.contains(p) && p.1 == k;
                assert(r0.contains(p));
                let v = choose|v: int| 0 <= v < r0.len() && r0[v] == p;
                if v < r0.len() - 1 {
                    assert(r0[v].0 > r0[r0.len() - 1].0);
                }
            }
            if completed {
                assert forall|k: HookKey| #[trigger] dirty_pending(s0, k)
                    implies executed@.contains(k) || self.gone(k) by {
                    if wl_has_key(worklist@, k) {
                        let p = choose|p: (u64, HookKey)| #[trigger] worklist@.contains(p)
                            && p.1 == k;
                        let v = choose|v: int| 0 <= v < worklist@.len()
                            && worklist@[v] == p;
                        assert(false);
                    }
                }
            }
        }
        UpdateOutcome { completed, executed }
    }

    /// Whether a handle already occurs in a list.
    fn key_in(v: &Vec<HookKey>, k: HookKey) -> (r: bool)
        ensures
            r == v@.contains(k),
    {
        let mut i: usize = 0;
        while i < v.len()
            invariant
                i <= v@.len(),
                forall|w: int| 0 <= w < i ==> v@[w] != k,
            decreases v@.len() - i,
        {
            let c = v[i];
            if c.index == k.index && c.generation == k.generation {
                return true;
            }
            i = i + 1;
        }
        false
    }

    /// Insert an entry into a work-list ordered by stamp, newest first,
    /// unless an entry with this stamp is already pending: a handle is
    /// never queued twice within one pass.
    fn wl_insert(list: &mut Vec<(u64, HookKey)>, seqno: u64, k: HookKey)
        requires
            wl_sorted(old(list)@),
        ensures
            wl_sorted(final(list)@),
            has_seq(old(list)@, seqno) ==> final(list)@ == old(list)@,
            !has_seq(old(list)@, seqno) ==> final(list)@.contains((seqno, k)),
            forall|p: (u64, HookKey)| #[trigger] final(list)@.contains(p)
                <==> (old(list)@.contains(p)
                    || (p == (seqno, k) && !has_seq(old(list)@, seqno))),
            forall|p: (u64, HookKey)| old(list)@.contains(p)
                ==> #[trigger] final(list)@.contains(p),
    {
        let ghost l0 = list@;
        let n = list.len();
        let mut i: usize = 0;
        while i < n && list[i].0 > seqno
            invariant
                i <= n,
                n == list@.len(),
                list@ == l0,
                l0 == old(list)@,
                wl_sorted(l0),
                forall|v: int| 0 <= v < i ==> (#[trigger] l0[v]).0 > seqno,
            decreases n - i,
        {
            i = i + 1;
        }
        if i < n && list[i].0 == seqno {
            proof {
                assert(has_seq(l0, seqno));
            }
            return;
        }
        proof {
            assert(!has_seq(l0, seqno)) by {
                if has_seq(l0, seqno) {
                    let v = choose|v: int| 0 <= v < l0.len() && (#[trigger] l0[v]).0 == seqno;
                    assert(v >= i);
                    if i < l0.len() {
                        assert(l0[i as int].0 < seqno);
                        if v > i {
                            assert(l0[i as int].0 > l0[v].0);
                        }
                    }
                }
            }
        }
        list.insert(i, (seqno, k));
        proof {
            assert forall|a: int, b: int| 0 <= a < b < list@.len()
                implies (#[trigger] list@[a]).0 > (#[trigger] list@[b]).0 by {
                if a < i {
                    assert(list@[a] == l0[a]);
                }
                if a > i {
                    assert(list@[a] == l0[a - 1]);
                }
                if b < i {
                    assert(list@[b] == l0[b]);
                }
                if b > i {
                    assert(list@[b] == l0[b - 1]);
                }
                if a == i && b > i {
                    assert(i < l0.len());
                    assert(l0[i as int].0 < seqno);
                    if b - 1 > i {
                        assert(l0[i as int].0 > l0[b - 1].0);
                    }
                }
            }
            assert(list@[i as int] == (seqno, k));
            assert forall|p: (u64, HookKey)| #[trigger] list@.contains(p)
                implies (l0.contains(p) || p == (seqno, k)) by {
                let v = choose|v: int| 0 <= v < list@.len() && list@[v] == p;
                if v < i {
                    assert(l0[v] == p);
                } else if v > i {
                    assert(l0[v - 1] == p);
                }
            }
            assert forall|p: (u64, HookKey)| l0.contains(p)
                implies #[trigger] list@.contains(p) by {
                let v = choose|v: int| 0 <= v < l0.len() && l0[v] == p;
                if v < i {
                    assert(list@[v] == p);
                } else {
                    assert(list@[v + 1] == p);
                }
            }
        }
    }
}

/// A witness that, within the window where it is valid, the data it was
/// created for satisfies the condition its accessor relies on.  Using the
/// accessor outside that window is a programmer error; its precondition
/// guards against it.
#[derive(Clone, Copy)]
pub struct Guard<F> {
    getter: F,
}

impl<F> Guard<F> {
    /// The stored accessor.
    pub closed spec fn getter_spec(&self) -> F {
        self.getter
    }

    /// Wrap an accessor that borrows from the state.
    pub fn new<R>(getter: F) -> (g: Guard<F>) where F: for<'a> Fn(&'a State) -> &'a R
        ensures
            g.getter_spec() == getter,
    {
        Guard { getter }
    }

    /// Wrap an accessor that returns an owned value.
    pub fn new_owned<R>(getter: F) -> (g: Guard<F>) where F: Fn(&State) -> R
        ensures
            g.getter_spec() == getter,
    {
        Guard { getter }
    }
}

impl State {
    /// The data a guard references, borrowed from this state.
    pub fn get<'s, F, R>(&'s self, guard: &Guard<F>) -> (r: &'s R) where
        F: Fn(&'s State) -> &'s R,

        requires
            call_requires(guard.getter_spec(), (self,)),
        ensures
            call_ensures(guard.getter_spec(), (self,), r),
    {
        (guard.getter)(self)
    }

    /// The data a guard references, owned.
    pub fn get_owned<F, R>(&self, guard: &Guard<F>) -> (r: R) where F: Fn(&State) -> R
        requires
            call_requires(guard.getter_spec(), (self,)),
        ensures
            call_ensures(guard.getter_spec(), (self,), r),
    {
        (guard.getter)(self)
    }
}

/// The number of computations a single scheduler pass may execute before
/// a degenerate cyclic update is assumed and the pass fails loudly.
pub const UPDATE_BUDGET: u64 = 100000;

/// What a scheduler pass reports: whether it ran to completion (a pass
/// that exhausts its iteration budget indicates a cyclic update, a
/// programmer error), and the handles it executed, in order.
pub struct UpdateOutcome {
    pub completed: bool,
    pub executed: Vec<HookKey>,
}

/// A work-list ordered by creation stamp, newest first, without
/// duplicate stamps.
pub open spec fn wl_sorted(s: Seq<(u64, HookKey)>) -> bool {
    forall|i: int, j: int| 0 <= i < j < s.len()
        ==> (#[trigger] s[i]).0 > (#[trigger] s[j]).0
}

/// Whether a stamp is already pending in a work-list.
pub open spec fn has_seq(s: Seq<(u64, HookKey)>, seqno: u64) -> bool {
    exists|i: int| 0 <= i < s.len() && (#[trigger] s[i]).0 == seqno
}

/// A computation that a scheduler pass over this state must re-run: a
/// live subscriber of some dirty signal.
pub open spec fn dirty_pending(s: State, k: HookKey) -> bool {
    s.live(k) && exists|j: int| 0 <= j < s.n_signals()
        && (#[trigger] s.sig_at(j)).written_flag()
        && s.sig_at(j).subs().contains(k)
}

/// No signal is dirty, or no dirty signal has a live subscriber: a
/// scheduler pass over this state has nothing to do.
pub open spec fn no_dirty_work(s: State) -> bool {
    forall|k: HookKey| !dirty_pending(s, k)
}

/// A handle some live memoized computation names as its owner: the
/// scheduler may be asked to run it when that computation's value changes.
pub open spec fn owner_requested(s: State, k: HookKey) -> bool {
    exists|wk: HookKey| s.live(wk)
        && ((#[trigger] s.hook_of(wk)) matches Hook::Watch(w) && w.owner == k)
}

/// Why a pass over `s` may execute a handle: it is a live subscriber of a
/// dirty signal, or a live memoized computation requests it as its owner.
pub open spec fn schedulable(s: State, k: HookKey) -> bool {
    dirty_pending(s, k) || owner_requested(s, k)
}

/// A computation keeps its identity across a scheduler pass: a re-run
/// changes only a memoized computation's cache and a node's children and
/// keep-alive list, never the variant, derivation, owner or artifact slot.
pub open spec fn same_shape(h0: Hook, h1: Hook) -> bool {
    match (h0, h1) {
        (Hook::Dummy, Hook::Dummy) => true,
        (Hook::Node(a), Hook::Node(b)) => a.template == b.template && a.artifact == b.artifact,
        (Hook::Attr(a), Hook::Attr(b)) => a == b,
        (Hook::Watch(a), Hook::Watch(b)) => a.expr == b.expr && a.owner == b.owner,
        _ => false,
    }
}

/// The effect a completed re-run of `k` leaves behind, relative to the
/// signal values at pass entry (`s0`): a surviving attribute computation's
/// slot holds the decimal rendering of its derivation, a surviving node's
/// slot holds its template's direct text.
pub open spec fn applied_effect(s0: State, s1: State, k: HookKey) -> bool {
    s1.live(k) ==> match s1.hook_of(k) {
        Hook::Attr(a) => a.artifact < s0.n_artifacts()
            ==> s1.artifact_at(a.artifact as int)
                == crate::text::dec_digits(eval(a.expr, s0.values()) as nat),
        Hook::Node(n) => n.artifact < s0.n_artifacts()
            ==> s1.artifact_at(n.artifact as int) == flatten(n.template, s0.values()),
        _ => true,
    }
}

/// A freshly created memoized computation: it caches the value its
/// derivation takes on the given signal values, names `me` — the
/// computation that created it — as its owner, and is subscribed to
/// exactly the signals its derivation reads on those values.
pub open spec fn watch_created(s: State, k: HookKey, me: HookKey, vals: Seq<u64>) -> bool {
    &&& s.live(k)
    &&& match s.hook_of(k) {
        Hook::Watch(w) => w.owner == me
            && w.last == eval(w.expr, vals)
            && (forall|j: int| 0 <= j < s.n_signals()
                ==> ((#[trigger] s.sig_at(j).subs().contains(k))
                    <==> expr_reads(w.expr, vals).contains(j as usize))),
        _ => false,
    }
}

/// A child computation instantiated for a dynamic template part: a node
/// computation carrying the part's template, or an attribute computation
/// carrying the part's derivation.
pub open spec fn child_matches(s: State, c: HookKey, p: Pending) -> bool {
    s.live(c) && match (s.hook_of(c), p) {
        (Hook::Node(n), Pending::PNode(t)) => n.template == t,
        (Hook::Attr(a), Pending::PAttr(e)) => a.expr == e,
        _ => false,
    }
}

/// Whether a work-list holds an entry for a handle.
pub open spec fn wl_has_key(w: Seq<(u64, HookKey)>, k: HookKey) -> bool {
    exists|p: (u64, HookKey)| #[trigger] w.contains(p) && p.1 == k
}

/// Pointwise equal signal values give equal value rows.
pub proof fn lemma_values_pointwise(a: State, b: State)
    requires
        a.n_signals() == b.n_signals(),
        forall|i: int| 0 <= i < a.n_signals()
            ==> (#[trigger] a.sig_at(i)).value() == b.sig_at(i).value(),
    ensures
        a.values() == b.values(),
{
    assert forall|i: int| 0 <= i < a.n_signals()
        implies a.values()[i] == b.values()[i] by {
        assert(a.sig_at(i).value() == b.sig_at(i).value());
    }
    assert(a.values() =~= b.values());
}

/// The registry agrees between two states: the same handles resolve, to
/// the same computations with the same stamps.
pub open spec fn hooks_unchanged(a: State, b: State) -> bool {
    &&& a.wf() == b.wf()
    &&& forall|k: HookKey| (#[trigger] a.gone(k)) == b.gone(k)
    &&& forall|k: HookKey| (#[trigger] a.live(k)) == b.live(k)
    &&& forall|k: HookKey| #[trigger] b.live(k) ==> a.hook_of(k) == b.hook_of(k)
        && a.seq_of(k) == b.seq_of(k)
    &&& a.next_seq() == b.next_seq()
    &&& a.live_hooks() == b.live_hooks()
}

/// The signal row agrees between two states.
pub open spec fn signals_unchanged(a: State, b: State) -> bool {
    &&& a.n_signals() == b.n_signals()
    &&& forall|i: int| 0 <= i < a.n_signals() ==> a.sig_at(i) == b.sig_at(i)
}

/// The artifact slots agree between two states.
pub open spec fn artifacts_unchanged(a: State, b: State) -> bool {
    &&& a.n_artifacts() == b.n_artifacts()
    &&& forall|i: int| 0 <= i < a.n_artifacts() ==> a.artifact_at(i) == b.artifact_at(i)
}

/// The messaging state agrees between two states.
pub open spec fn io_unchanged(a: State, b: State) -> bool {
    &&& a.parent_spec() == b.parent_spec()
    &&& a.outbox_spec() == b.outbox_spec()
}

/// Everything but the signal row agrees between two states.
pub open spec fn state_eq_except_signals(a: State, b: State) -> bool {
    &&& a.next_resource_spec() == b.next_resource_spec()
    &&& hooks_unchanged(a, b)
    &&& artifacts_unchanged(a, b)
    &&& io_unchanged(a, b)
}

/// Everything but the parent-sink flag agrees between two states.
pub open spec fn state_eq_except_parent(a: State, b: State) -> bool {
    &&& a.next_resource_spec() == b.next_resource_spec()
    &&& hooks_unchanged(a, b)
    &&& signals_unchanged(a, b)
    &&& artifacts_unchanged(a, b)
    &&& a.outbox_spec() == b.outbox_spec()
}

/// Everything but the outbox agrees between two states.
pub open spec fn state_eq_except_outbox(a: State, b: State) -> bool {
    &&& a.next_resource_spec() == b.next_resource_spec()
    &&& hooks_unchanged(a, b)
    &&& signals_unchanged(a, b)
    &&& artifacts_unchanged(a, b)
    &&& a.parent_spec() == b.parent_spec()
}

} // verus!


