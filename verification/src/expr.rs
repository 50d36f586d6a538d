//! Pure derivations over the data model.
//!
//! A computation's body derives plain values from signals.  The engine
//! represents such derivations as data, so that what a computation reads —
//! and hence what it subscribes to — is itself subject to reasoning.
//! Reads are dynamic: a conditional only reads the branch it takes.

use vstd::prelude::*;

use crate::signal::{Signal, SignalMethods};

verus! {

/// A pure derivation over signal values.
pub enum Expr {
    /// A constant.
    Lit(u64),
    /// The value of the signal at the given index; reading marks the
    /// signal's `read` flag.  An out-of-range index yields 0 and reads
    /// nothing.
    Read(usize),
    /// Wrapping sum of two derivations.
    Add(Box<Expr>, Box<Expr>),
    /// 1 if the left value is strictly greater than the right, else 0.
    Gt(Box<Expr>, Box<Expr>),
    /// The middle derivation if the first is non-zero, else the last;
    /// only the taken branch is read.
    IfNz(Box<Expr>, Box<Expr>, Box<Expr>),
}

/// The values of a row of signals.
pub open spec fn sig_values(signals: Seq<Signal>) -> Seq<u64> {
    signals.map_values(|s: Signal| s.value())
}

/// The value a derivation takes on the given signal values.
pub open spec fn eval(e: Expr, vals: Seq<u64>) -> u64
    decreases e,
{
    match e {
        Expr::Lit(v) => v,
        Expr::Read(i) => if i < vals.len() { vals[i as int] } else { 0 },
        Expr::Add(a, b) => ((eval(*a, vals) + eval(*b, vals)) % (u64::MAX as int + 1)) as u64,
        Expr::Gt(a, b) => if eval(*a, vals) > eval(*b, vals) { 1 } else { 0 },
        Expr::IfNz(c, t, f) => if eval(*c, vals) != 0 { eval(*t, vals) } else { eval(*f, vals) },
    }
}

/// The signal indices a derivation reads on the given signal values.
/// A conditional reads its condition and the branch the condition picks.
pub open spec fn expr_reads(e: Expr, vals: Seq<u64>) -> Set<usize>
    decreases e,
{
    match e {
        Expr::Lit(_) => Set::empty(),
        Expr::Read(i) => if i < vals.len() { Set::empty().insert(i) } else { Set::empty() },
        Expr::Add(a, b) => expr_reads(*a, vals).union(expr_reads(*b, vals)),
        Expr::Gt(a, b) => expr_reads(*a, vals).union(expr_reads(*b, vals)),
        Expr::IfNz(c, t, f) => expr_reads(*c, vals).union(
            if eval(*c, vals) != 0 { expr_reads(*t, vals) } else { expr_reads(*f, vals) },
        ),
    }
}

/// Evaluate a derivation against the live signals, marking exactly the
/// signals it reads.  Values, dirty flags and subscriber lists are untouched.
pub fn eval_expr(e: &Expr, signals: &mut Vec<Signal>) -> (v: u64)
    ensures
        v == eval(*e, sig_values(old(signals)@)),
        final(signals)@.len() == old(signals)@.len(),
        forall|i: int| 0 <= i < old(signals)@.len()
            ==> (#[trigger] final(signals)@[i]).value() == old(signals)@[i].value()
                && final(signals)@[i].written_flag() == old(signals)@[i].written_flag()
                && final(signals)@[i].subs() == old(signals)@[i].subs(),
        forall|i: int| 0 <= i < old(signals)@.len()
            ==> (#[trigger] final(signals)@[i]).read_flag()
                == (old(signals)@[i].read_flag()
                    || expr_reads(*e, sig_values(old(signals)@)).contains(i as usize)),
    decreases *e,
{
    let ghost vals0 = sig_values(signals@);
    match e {
        Expr::Lit(v) => *v,
        Expr::Read(i) => {
            if *i < signals.len() {
                let v = signals[*i].get();
                proof {
                    assert(sig_values(old(signals)@)[*i as int] == old(signals)@[*i as int].value());
                }
                v
            } else {
                0
            }
        }
        Expr::Add(a, b) => {
            let x = eval_expr(a, signals);
            proof {
                assert(sig_values(signals@) =~= vals0);
            }
            let y = eval_expr(b, signals);
            x.wrapping_add(y)
        }
        Expr::Gt(a, b) => {
            let x = eval_expr(a, signals);
            proof {
                assert(sig_values(signals@) =~= vals0);
            }
            let y = eval_expr(b, signals);
            if x > y { 1 } else { 0 }
        }
        Expr::IfNz(c, t, f) => {
            let x = eval_expr(c, signals);
            proof {
                assert(sig_values(signals@) =~= vals0);
            }
            if x != 0 {
                eval_expr(t, signals)
            } else {
                eval_expr(f, signals)
            }
        }
    }
}

} // verus!
