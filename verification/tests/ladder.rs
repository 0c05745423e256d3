use rrecall::escalate::{escalate, Escalated, Scope, TierOutcome};
use std::cell::RefCell;

#[test]
fn test_stops_at_first_tier_with_hits() {
    let calls = RefCell::new(Vec::new());
    let out = escalate(1, |scope: &Scope| {
        calls.borrow_mut().push(*scope);
        TierOutcome {
            results: vec![()],
            sessions_searched: 10,
        }
    });
    assert_eq!(out.scope_reached, Scope::CurrentProjectRecent);
    assert_eq!(calls.into_inner(), vec![Scope::CurrentProjectRecent]);
}

#[test]
fn test_escalates_to_all_projects_when_empty() {
    let out: Escalated<()> = escalate(1, |scope: &Scope| {
        let results = if *scope == Scope::AllProjects {
            vec![()]
        } else {
            vec![]
        };
        TierOutcome {
            results,
            sessions_searched: 100,
        }
    });
    assert_eq!(out.scope_reached, Scope::AllProjects);
    assert_eq!(out.results.len(), 1);
}

#[test]
fn test_exhausts_and_reports_all_projects_on_total_miss() {
    let out: Escalated<()> = escalate(1, |_: &Scope| TierOutcome {
        results: vec![],
        sessions_searched: 3900,
    });
    assert_eq!(out.scope_reached, Scope::AllProjects);
    assert!(out.results.is_empty());
    assert_eq!(out.sessions_searched, 3900);
}

#[test]
fn escalate_stops_at_ancestor_tier_and_reports_its_count() {
    let out: Escalated<u8> = escalate(2, |scope: &Scope| match scope {
        Scope::CurrentProjectRecent => TierOutcome { results: vec![1], sessions_searched: 5 },
        Scope::CurrentProjectAll => TierOutcome { results: vec![1], sessions_searched: 9 },
        Scope::AncestorProjects => TierOutcome { results: vec![1, 2], sessions_searched: 12 },
        Scope::AllProjects => TierOutcome { results: vec![1, 2, 3], sessions_searched: 40 },
    });
    assert_eq!(out.scope_reached, Scope::AncestorProjects);
    assert_eq!(out.results, vec![1, 2]);
    assert_eq!(out.sessions_searched, 12);
}

#[test]
fn scope_labels() {
    assert_eq!(Scope::CurrentProjectRecent.label(), "current_project_recent");
    assert_eq!(Scope::CurrentProjectAll.label(), "current_project_all");
    assert_eq!(Scope::AncestorProjects.label(), "ancestor_projects");
    assert_eq!(Scope::AllProjects.label(), "all_projects");
}
