//! The scope ladder: widen the searched scope until enough results appear.
use vstd::prelude::*;

verus! {

/// A tier of the scope ladder.
#[derive(Debug, Clone, Copy, PartialEq, Eq, Structural)]
pub enum Scope {
    CurrentProjectRecent,
    CurrentProjectAll,
    /// The project's subtree plus projects at the working dir's path
    /// ancestors — where sessions about this project land when run from a
    /// parent directory. A superset of `CurrentProjectAll`.
    AncestorProjects,
    AllProjects,
}

/// The label of a scope in the search output.
pub open spec fn spec_label(s: Scope) -> Seq<char> {
    match s {
        Scope::CurrentProjectRecent => "current_project_recent"@,
        Scope::CurrentProjectAll => "current_project_all"@,
        Scope::AncestorProjects => "ancestor_projects"@,
        Scope::AllProjects => "all_projects"@,
    }
}

impl Scope {
    pub fn label(&self) -> (r: &'static str)
        ensures
            r@ == spec_label(*self),
    {
        match self {
            Scope::CurrentProjectRecent => "current_project_recent",
            Scope::CurrentProjectAll => "current_project_all",
            Scope::AncestorProjects => "ancestor_projects",
            Scope::AllProjects => "all_projects",
        }
    }
}

/// The ladder, narrowest tier first.
pub open spec fn spec_ladder() -> Seq<Scope> {
    seq![Scope::CurrentProjectRecent, Scope::CurrentProjectAll, Scope::AncestorProjects, Scope::AllProjects]
}

/// Number of tiers.
pub const LADDER_LEN: usize = 4;

/// The `i`-th tier of the ladder.
pub fn ladder(i: usize) -> (s: Scope)
    requires
        i < LADDER_LEN,
    ensures
        s == spec_ladder()[i as int],
{
    if i == 0 {
        Scope::CurrentProjectRecent
    } else if i == 1 {
        Scope::CurrentProjectAll
    } else if i == 2 {
        Scope::AncestorProjects
    } else {
        Scope::AllProjects
    }
}

/// What one tier's search found.
pub struct TierOutcome<T> {
    pub results: Vec<T>,
    pub sessions_searched: usize,
}

/// What the ladder ended with.
pub struct Escalated<T> {
    pub results: Vec<T>,
    pub scope_reached: Scope,
    pub sessions_searched: usize,
}

/// Run each tier in order; stop at the first tier yielding >= `target`
/// results (or at the last tier). `run(scope)` performs the actual search
/// for that tier; the answer is the last tier's outcome.
pub fn escalate<T, F>(target: usize, run: F) -> (r: Escalated<T>)
    where
        F: Fn(&Scope) -> TierOutcome<T>,
    requires
        forall|s: &Scope| call_requires(run, (s,)),
    ensures
        exists|outs: Seq<TierOutcome<T>>| {
            &&& 1 <= outs.len() <= LADDER_LEN
            &&& forall|i: int| 0 <= i < outs.len() ==> call_ensures(run, (&spec_ladder()[i],), #[trigger] outs[i])
            &&& forall|i: int| 0 <= i < outs.len() - 1 ==> (#[trigger] outs[i]).results@.len() < target
            &&& (outs.last().results@.len() >= target || outs.len() == LADDER_LEN)
            &&& r.scope_reached == spec_ladder()[outs.len() - 1]
            &&& r.results == outs.last().results
            &&& r.sessions_searched == outs.last().sessions_searched
        },
{
    let mut i: usize = 0;
    let ghost mut outs: Seq<TierOutcome<T>> = Seq::empty();
    loop
        invariant
            i < LADDER_LEN,
            outs.len() == i,
            forall|s: &Scope| call_requires(run, (s,)),
            forall|k: int| 0 <= k < outs.len() ==> call_ensures(run, (&spec_ladder()[k],), #[trigger] outs[k]),
            forall|k: int| 0 <= k < outs.len() ==> (#[trigger] outs[k]).results@.len() < target,
        decreases LADDER_LEN - i,
    {
        let scope = ladder(i);
        let out = run(&scope);
        proof {
            outs = outs.push(out);
        }
        if out.results.len() >= target || i + 1 == LADDER_LEN {
            assert(outs.last() == out);
            return Escalated { results: out.results, scope_reached: scope, sessions_searched: out.sessions_searched };
        }
        i += 1;
    }
}

} // verus!
