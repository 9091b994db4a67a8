use nit::trace::{TraceAction, TraceEvent, Tracer, MAX_RECURSIVE_DEPTH};

#[test]
fn miss_returns_zero() {
    let mut t = Tracer::new();
    assert_eq!(t.step(TraceEvent::Miss), TraceAction::ReturnZero);
}

#[test]
fn absorbed_returns_gathered() {
    let mut t = Tracer::new();
    assert_eq!(t.step(TraceEvent::Absorbed), TraceAction::ReturnGathered);
}

#[test]
fn scatter_bounces_until_budget_is_spent() {
    let mut t = Tracer::new();
    for i in 0..MAX_RECURSIVE_DEPTH {
        let a = t.step(TraceEvent::Scattered);
        if i + 1 < MAX_RECURSIVE_DEPTH {
            assert_eq!(a, TraceAction::Bounce, "bounce {i} should continue");
        } else {
            assert_eq!(a, TraceAction::ReturnZero, "the path is truncated at the cap");
        }
    }
    assert!(!t.can_query());
}

#[test]
fn absorbed_after_some_bounces_still_returns_gathered() {
    let mut t = Tracer::new();
    for _ in 0..10 {
        assert_eq!(t.step(TraceEvent::Scattered), TraceAction::Bounce);
    }
    assert_eq!(t.step(TraceEvent::Absorbed), TraceAction::ReturnGathered);
}
