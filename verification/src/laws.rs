//! Engine-wide laws, stated over the scheduler's specification.
//!
//! Each law connects a subscription-level hypothesis to the predicates
//! `State::update` is specified over — `no_dirty_work`, `dirty_pending`,
//! `schedulable`: a pass with no dirty work executes nothing and changes
//! nothing; a pass that has work begins with the oldest pending
//! computation, executes only schedulable handles, each at most once, and
//! on completion leaves every pending computation executed or torn down
//! (see `State::update`'s contract).

use vstd::prelude::*;

use crate::expr::eval;
use crate::hook::{watch_outcome, UpdateResult, WatchHook};
use crate::registry::HookKey;
use crate::signal::SignalMethods;
use crate::state::{dirty_pending, no_dirty_work, owner_requested, schedulable, State};

verus! {

/// No spurious updates: where no live computation is subscribed to any
/// dirty signal — nothing read them during its last execution — a
/// scheduler pass schedules zero work, so `State::update` leaves the
/// state untouched and executes nothing.
pub proof fn lemma_no_spurious_updates(s: State)
    requires
        forall|j: int, k: HookKey| 0 <= j < s.n_signals()
            && s.sig_at(j).written_flag()
            && (#[trigger] s.sig_at(j).subs().contains(k))
            ==> !s.live(k),
    ensures
        no_dirty_work(s),
{
    assert forall|k: HookKey| !dirty_pending(s, k) by {
        if dirty_pending(s, k) {
            let j = choose|j: int| 0 <= j < s.n_signals()
                && (#[trigger] s.sig_at(j)).written_flag()
                && s.sig_at(j).subs().contains(k);
            assert(s.sig_at(j).subs().contains(k));
        }
    }
}

/// Dependency freshness: a computation that did not read a signal during
/// its last execution — so it is not among that signal's subscribers —
/// is not scheduled when only that signal is mutated.  The run functions
/// guarantee the hypothesis: after a run, a computation is subscribed to
/// exactly the signals the run read.
pub proof fn lemma_dependency_freshness(s: State, a: HookKey, sig: int)
    requires
        0 <= sig < s.n_signals(),
        !s.sig_at(sig).subs().contains(a),
        forall|j: int| 0 <= j < s.n_signals()
            && (#[trigger] s.sig_at(j)).written_flag()
            ==> j == sig,
    ensures
        !dirty_pending(s, a),
{
    if dirty_pending(s, a) {
        let j = choose|j: int| 0 <= j < s.n_signals()
            && (#[trigger] s.sig_at(j)).written_flag()
            && s.sig_at(j).subs().contains(a);
        assert(s.sig_at(j).written_flag());
    }
}

/// Dependency freshness, at the scheduler: a computation that is not
/// subscribed to any dirty signal, and that no live memoized computation
/// names as its owner, is not schedulable — and `State::update` ensures
/// every handle it executes was schedulable at entry, so such a
/// computation is never re-run by a pass.
pub proof fn lemma_unscheduled_never_runs(s: State, a: HookKey)
    requires
        forall|j: int| 0 <= j < s.n_signals() && (#[trigger] s.sig_at(j)).written_flag()
            ==> !s.sig_at(j).subs().contains(a),
        !owner_requested(s, a),
    ensures
        !schedulable(s, a),
{
    if dirty_pending(s, a) {
        let j = choose|j: int| 0 <= j < s.n_signals()
            && (#[trigger] s.sig_at(j)).written_flag()
            && s.sig_at(j).subs().contains(a);
        assert(s.sig_at(j).written_flag());
    }
}

/// Parent-before-child teardown, aftermath: once a torn-down child's
/// handle no longer resolves, its leftover subscriptions are inert — a
/// mutation of a signal only the destroyed computations were subscribed
/// to schedules zero work.  `State::update`'s teardown detaches a replaced
/// child and everything it owned from the registry.
pub proof fn lemma_stale_subscriptions_ignored(s: State, sig: int)
    requires
        0 <= sig < s.n_signals(),
        forall|k: HookKey| (#[trigger] s.sig_at(sig).subs().contains(k)) ==> !s.live(k),
        forall|j: int| 0 <= j < s.n_signals()
            && (#[trigger] s.sig_at(j)).written_flag()
            ==> j == sig,
    ensures
        no_dirty_work(s),
{
    assert forall|k: HookKey| !dirty_pending(s, k) by {
        if dirty_pending(s, k) {
            let j = choose|j: int| 0 <= j < s.n_signals()
                && (#[trigger] s.sig_at(j)).written_flag()
                && s.sig_at(j).subs().contains(k);
            assert(s.sig_at(j).subs().contains(k));
        }
    }
}

/// Memoization short-circuits propagation: a re-run of a memoized
/// computation asks the scheduler to run its owner exactly when the
/// derived value differs from the cached one.  `State::run_watch` returns
/// `watch_outcome` of the cache it was entered with.
pub proof fn lemma_memoization_short_circuit(w: WatchHook, vals: Seq<u64>)
    ensures
        (watch_outcome(w, vals) == UpdateResult::Nothing) <==> (eval(w.expr, vals) == w.last),
        eval(w.expr, vals) != w.last
            ==> watch_outcome(w, vals) == UpdateResult::RunHook(w.owner),
{
}

/// Idempotence of no-op passes: with no signal marked written there is no
/// dirty work, so `State::update` executes zero computations and leaves
/// the state — the registry included — unchanged.
pub proof fn lemma_noop_pass(s: State)
    requires
        forall|j: int| 0 <= j < s.n_signals()
            ==> !(#[trigger] s.sig_at(j)).written_flag(),
    ensures
        no_dirty_work(s),
{
    assert forall|k: HookKey| !dirty_pending(s, k) by {
        if dirty_pending(s, k) {
            let j = choose|j: int| 0 <= j < s.n_signals()
                && (#[trigger] s.sig_at(j)).written_flag()
                && s.sig_at(j).subs().contains(k);
            assert(s.sig_at(j).written_flag());
        }
    }
}

/// Ordering: two pending computations are processed oldest stamp first.
/// Creation stamps grow monotonically, so an outer computation created
/// before its children carries the smaller stamp, and `State::update`
/// guarantees the computation it executes first has the smallest stamp
/// among everything pending.
pub proof fn lemma_ordering(s: State, a: HookKey, b: HookKey)
    requires
        s.wf(),
        dirty_pending(s, a),
        dirty_pending(s, b),
        a != b,
    ensures
        s.seq_of(a) != s.seq_of(b),
{
    s.lemma_distinct_stamps(a, b);
}

/// Ordering, corollary: a pass never begins with the younger of two
/// pending computations.  `first` stands for what `State::update` returns
/// as the first executed handle; its contract supplies the hypotheses.
pub proof fn lemma_oldest_runs_first(s: State, a: HookKey, b: HookKey, first: HookKey)
    requires
        dirty_pending(s, a),
        dirty_pending(s, b),
        s.seq_of(a) < s.seq_of(b),
        dirty_pending(s, first),
        forall|k: HookKey| #[trigger] dirty_pending(s, k) ==> s.seq_of(first) <= s.seq_of(k),
    ensures
        first != b,
{
    assert(s.seq_of(first) <= s.seq_of(a));
}

} // verus!
