//! Computations ("hooks") and the templates they re-run.
//!
//! A computation is a closed set of variants, so update semantics can be
//! reasoned about exhaustively per variant:
//!
//! - a *Node* computation owns one artifact slot and replaces its content
//!   wholesale on every run, recreating the child computations its template
//!   spawns and handing its previous children back for teardown;
//! - an *Attribute* computation owns one artifact slot and patches it in
//!   place;
//! - a *Memoized* computation ("watch") caches a derived value and notifies
//!   its owner only when a re-run produces a different value.

use vstd::prelude::*;

use crate::expr::{eval, expr_reads, Expr};
use crate::registry::HookKey;
use crate::text::dec_digits;

verus! {

/// What a node computation builds on each run.  Direct parts are derived
/// during the run itself (and subscribe the node); dynamic parts become
/// child computations with artifact slots and subscriptions of their own.
pub enum Template {
    /// Direct text content: the decimal rendering of a derivation.
    Text(Expr),
    /// Two parts in sequence.
    Pair(Box<Template>, Box<Template>),
    /// A child node computation rendering the inner template into its own
    /// artifact slot.
    Dyn(Box<Template>),
    /// A child attribute computation patching its own artifact slot with
    /// the decimal rendering of the derivation.
    DynText(Expr),
    /// A memoized structural branch: a watch computation caches the
    /// condition value, and the node renders the branch the condition
    /// picks as direct content.  Only a change of the cached value re-runs
    /// the node.
    Watch(Expr, Box<Template>, Box<Template>),
    /// An external resource (an event listener registration, say) that
    /// must stay alive exactly as long as the rendering that created it:
    /// each run allocates a fresh keep-alive entry owned by the enclosing
    /// node, released when the node re-runs or is torn down.
    Listener,
}

/// A node computation.
pub struct NodeHook {
    pub template: Template,
    pub artifact: usize,
    pub children: Vec<HookKey>,
    /// The keep-alive list: identifiers of the external resources this
    /// node's most recent run created.  Released by replacement on
    /// re-run, and by ownership on teardown — never an explicit
    /// scheduler step.
    pub keep_alive: Vec<u64>,
}

/// An attribute computation.
pub struct AttrHook {
    pub expr: Expr,
    pub artifact: usize,
}

/// A memoized computation.
pub struct WatchHook {
    pub expr: Expr,
    pub last: u64,
    pub owner: HookKey,
}

/// A registered computation.
pub enum Hook {
    /// A placeholder: it fills a slot while the real computation runs (or
    /// before its first run), and does nothing when run.
    Dummy,
    Node(NodeHook),
    Attr(AttrHook),
    Watch(WatchHook),
}

impl Hook {
    /// Hand back the directly owned children for teardown; the rest of the
    /// computation's resources are released by dropping it.
    pub fn drop_us(self) -> (r: Vec<HookKey>)
        ensures
            r@ == self.children_spec(),
    {
        match self {
            Hook::Node(n) => n.children,
            _ => Vec::new(),
        }
    }

    /// The directly owned children of a computation.
    pub open spec fn children_spec(self) -> Seq<HookKey> {
        match self {
            Hook::Node(n) => n.children@,
            _ => Seq::empty(),
        }
    }
}

/// What a computation's run asks the scheduler to do next.
pub enum UpdateResult {
    /// Re-execution complete; nothing further.
    Nothing,
    /// The cached value of a memoized computation changed: the owning
    /// computation must be scheduled next.
    RunHook(HookKey),
    /// The computation was structurally replaced: the listed former
    /// children must be torn down.
    DropHooks(Vec<HookKey>),
}

/// What a re-run of a memoized computation asks of the scheduler, given
/// the cache it was entered with and the current signal values: nothing
/// when the derived value matches the cache, else a run of the owner.
pub open spec fn watch_outcome(w: WatchHook, vals: Seq<u64>) -> UpdateResult {
    if eval(w.expr, vals) == w.last {
        UpdateResult::Nothing
    } else {
        UpdateResult::RunHook(w.owner)
    }
}

/// A dynamic part of a template, recorded during the direct pass and
/// instantiated as a child computation afterwards.
pub enum Pending {
    PNode(Template),
    PAttr(Expr),
}

/// The signal indices a template's *direct* parts read on the given values:
/// what the enclosing node itself subscribes to.  A watch condition is read
/// under flag isolation and subscribes only the watch computation, so it is
/// not a direct read; the branch it picks is rendered directly.
pub open spec fn direct_reads(t: Template, vals: Seq<u64>) -> Set<usize>
    decreases t,
{
    match t {
        Template::Text(e) => expr_reads(e, vals),
        Template::Pair(a, b) => direct_reads(*a, vals).union(direct_reads(*b, vals)),
        Template::Dyn(_) => Set::empty(),
        Template::DynText(_) => Set::empty(),
        Template::Watch(c, a, b) => if eval(c, vals) != 0 {
            direct_reads(*a, vals)
        } else {
            direct_reads(*b, vals)
        },
        Template::Listener => Set::empty(),
    }
}

/// The text a template's direct parts produce on the given values.
/// Dynamic parts render into artifact slots of their own.
pub open spec fn flatten(t: Template, vals: Seq<u64>) -> Seq<char>
    decreases t,
{
    match t {
        Template::Text(e) => dec_digits(eval(e, vals) as nat),
        Template::Pair(a, b) => flatten(*a, vals) + flatten(*b, vals),
        Template::Dyn(_) => Seq::empty(),
        Template::DynText(_) => Seq::empty(),
        Template::Watch(c, a, b) => if eval(c, vals) != 0 {
            flatten(*a, vals)
        } else {
            flatten(*b, vals)
        },
        Template::Listener => Seq::empty(),
    }
}

/// The dynamic parts a template spawns on the given values, in order.
pub open spec fn pending_of(t: Template, vals: Seq<u64>) -> Seq<Pending>
    decreases t,
{
    match t {
        Template::Text(_) => Seq::empty(),
        Template::Pair(a, b) => pending_of(*a, vals) + pending_of(*b, vals),
        Template::Dyn(inner) => seq![Pending::PNode(*inner)],
        Template::DynText(e) => seq![Pending::PAttr(e)],
        Template::Watch(c, a, b) => if eval(c, vals) != 0 {
            pending_of(*a, vals)
        } else {
            pending_of(*b, vals)
        },
        Template::Listener => Seq::empty(),
    }
}

/// A structural size measure for templates.
pub open spec fn tmpl_size(t: Template) -> nat
    decreases t,
{
    match t {
        Template::Text(_) => 1,
        Template::Pair(a, b) => 1 + tmpl_size(*a) + tmpl_size(*b),
        Template::Dyn(inner) => 1 + tmpl_size(*inner),
        Template::DynText(_) => 1,
        Template::Watch(_, a, b) => 1 + tmpl_size(*a) + tmpl_size(*b),
        Template::Listener => 1,
    }
}

/// Every node template spawned as a dynamic part is strictly smaller than
/// the template that spawns it.
pub proof fn lemma_pending_smaller(t: Template, vals: Seq<u64>)
    ensures
        forall|j: int| 0 <= j < pending_of(t, vals).len()
            ==> ((#[trigger] pending_of(t, vals)[j]) matches Pending::PNode(inner)
                ==> tmpl_size(inner) < tmpl_size(t)),
    decreases t,
{
    match t {
        Template::Pair(a, b) => {
            lemma_pending_smaller(*a, vals);
            lemma_pending_smaller(*b, vals);
            assert forall|j: int| 0 <= j < pending_of(t, vals).len()
                implies ((#[trigger] pending_of(t, vals)[j]) matches Pending::PNode(inner)
                    ==> tmpl_size(inner) < tmpl_size(t)) by {
                let pa = pending_of(*a, vals);
                let pb = pending_of(*b, vals);
                if j < pa.len() {
                    assert(pending_of(t, vals)[j] == pa[j]);
                } else {
                    assert(pending_of(t, vals)[j] == pb[j - pa.len()]);
                }
            }
        }
        Template::Watch(c, a, b) => {
            lemma_pending_smaller(*a, vals);
            lemma_pending_smaller(*b, vals);
        }
        _ => {}
    }
}

/// A structural copy of an expression.
pub fn clone_expr(e: &Expr) -> (r: Expr)
    ensures
        r == *e,
    decreases *e,
{
    match e {
        Expr::Lit(v) => Expr::Lit(*v),
        Expr::Read(i) => Expr::Read(*i),
        Expr::Add(a, b) => Expr::Add(Box::new(clone_expr(a)), Box::new(clone_expr(b))),
        Expr::Gt(a, b) => Expr::Gt(Box::new(clone_expr(a)), Box::new(clone_expr(b))),
        Expr::IfNz(c, a, b) => Expr::IfNz(
            Box::new(clone_expr(c)),
            Box::new(clone_expr(a)),
            Box::new(clone_expr(b)),
        ),
    }
}

/// A structural copy of a template.
pub fn clone_template(t: &Template) -> (r: Template)
    ensures
        r == *t,
    decreases *t,
{
    match t {
        Template::Text(e) => Template::Text(clone_expr(e)),
        Template::Pair(a, b) => Template::Pair(
            Box::new(clone_template(a)),
            Box::new(clone_template(b)),
        ),
        Template::Dyn(inner) => Template::Dyn(Box::new(clone_template(inner))),
        Template::DynText(e) => Template::DynText(clone_expr(e)),
        Template::Watch(c, a, b) => Template::Watch(
            clone_expr(c),
            Box::new(clone_template(a)),
            Box::new(clone_template(b)),
        ),
        Template::Listener => Template::Listener,
    }
}

} // verus!
