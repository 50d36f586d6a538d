//! Unit-level checks: signals, the registry, derivations, decimal text,
//! and the element builder.

use natrix::element::HtmlElement;
use natrix::expr::{eval_expr, Expr};
use natrix::hook::Hook;
use natrix::registry::Registry;
use natrix::signal::{Signal, SignalMethods};
use natrix::text::u64_to_text;

#[test]
fn signal_flags_and_subscribers() {
    let mut sig = Signal::new(10);
    assert!(!sig.changed());
    assert_eq!(sig.get(), 10);
    sig.set(11);
    assert!(sig.changed());
    let key = natrix::registry::HookKey { index: 3, generation: 0 };
    // Not read since the flags were cleared: registration is skipped.
    sig.clear();
    sig.register_dep(key);
    assert!(sig.deps().is_empty());
    // Read, then registered.
    let _ = sig.get();
    sig.register_dep(key);
    assert_eq!(sig.deps().as_slice(), &[key]);
    // Unsubscribe prunes every occurrence.
    sig.unsubscribe(key);
    assert!(sig.deps().is_empty());
}

#[test]
fn registry_handles_are_generation_checked() {
    let mut r: Registry<Hook> = Registry::new();
    let a = r.insert(Hook::Dummy);
    let b = r.insert(Hook::Dummy);
    assert!(r.get(a).is_some());
    assert_eq!(r.seq(a), Some(0));
    assert_eq!(r.seq(b), Some(1));
    assert!(r.remove(a).is_some());
    assert!(r.get(a).is_none());
    assert!(r.remove(a).is_none(), "second removal is a no-op");
    // A slot may be reused, but the stale handle never resolves again.
    let c = r.insert(Hook::Dummy);
    assert!(r.get(a).is_none());
    assert!(r.get(c).is_some());
    assert_eq!(r.seq(c), Some(2));
    // Replacing through a stale handle is a no-op.
    r.set(a, Hook::Dummy);
    assert!(r.get(a).is_none());
}

#[test]
fn expressions_evaluate_and_track_reads() {
    let mut signals = vec![Signal::new(7), Signal::new(3)];
    let e = Expr::Gt(Box::new(Expr::Read(0)), Box::new(Expr::Read(1)));
    assert_eq!(eval_expr(&e, &mut signals), 1);
    assert!(signals[0].peek_read());
    assert!(signals[1].peek_read());
}

#[test]
fn conditional_reads_only_taken_branch() {
    let mut signals = vec![Signal::new(0), Signal::new(5), Signal::new(6)];
    let e = Expr::IfNz(
        Box::new(Expr::Read(0)),
        Box::new(Expr::Read(1)),
        Box::new(Expr::Read(2)),
    );
    assert_eq!(eval_expr(&e, &mut signals), 6);
    assert!(signals[0].peek_read());
    assert!(!signals[1].peek_read(), "untaken branch must not be read");
    assert!(signals[2].peek_read());
}

#[test]
fn addition_wraps() {
    let mut signals = Vec::new();
    let e = Expr::Add(Box::new(Expr::Lit(u64::MAX)), Box::new(Expr::Lit(2)));
    assert_eq!(eval_expr(&e, &mut signals), 1);
}

#[test]
fn out_of_range_read_yields_zero() {
    let mut signals = vec![Signal::new(9)];
    let e = Expr::Read(5);
    assert_eq!(eval_expr(&e, &mut signals), 0);
    assert!(!signals[0].peek_read());
}

#[test]
fn decimal_text_matches() {
    assert_eq!(u64_to_text(0), "0");
    assert_eq!(u64_to_text(1), "1");
    assert_eq!(u64_to_text(1234), "1234");
    assert_eq!(u64_to_text(u64::MAX), "18446744073709551615");
}

#[test]
fn builder_accumulates_parts() {
    let e = HtmlElement::new("div")
        .attr("role", String::from("main"))
        .id(String::from("HELLO"))
        .text(String::from("hi"))
        .on("click", 4)
        .child(HtmlElement::new("p"));
    assert_eq!(e.name, "div");
    assert_eq!(e.attributes.len(), 2);
    assert_eq!(e.attributes[0], ("role", String::from("main")));
    assert_eq!(e.attributes[1], ("id", String::from("HELLO")));
    assert_eq!(e.events.len(), 1);
    assert_eq!(e.events[0], ("click", 4));
    assert_eq!(e.children.len(), 2);
}

#[test]
fn style_string_joins_entries() {
    let e = HtmlElement::new("h1")
        .style("margin", String::from("1px 2px 3px 4px"))
        .style("height", String::from("300px"));
    assert_eq!(e.style_string(), "margin:1px 2px 3px 4px;height:300px;");
    let empty = HtmlElement::new("p");
    assert_eq!(empty.style_string(), "");
}

#[test]
fn artifact_queries_tolerate_bad_indices() {
    let s = natrix::state::State::new(vec![1]);
    assert!(s.artifact_text(0).is_none());
    assert_eq!(s.artifact_count(), 0);
}

#[test]
fn debug_is_callable() {
    natrix::debug("engine check");
}
